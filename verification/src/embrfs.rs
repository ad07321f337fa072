//! The engram layer: chunked ingest of file bytes into a codebook of
//! chunk vectors with a correction store, and bit-exact extraction.
//!
//! Ingest splits each file into chunks, encodes every chunk with the
//! path-keyed reversible encoder, records the correction that makes the
//! lossy raw decode exact, and folds each chunk vector into the root with
//! the order-independent summed bundle. Extraction decodes each chunk,
//! applies its correction, verifies the digest and concatenates — the
//! result is the ingested bytes, byte for byte.

use std::collections::HashMap;
use vstd::prelude::*;
use vstd::string::StringExecFns;
use vstd::string::StringSliceAdditionalSpecFns;

use crate::correction::{
    apply_correction, apply_spec, build_correction, is_correction_of, ChunkCorrection,
    CorrectionStore, ReconstructionVerifier,
};
use crate::encoder::{
    block_shift_mod, decoded_byte, num_blocks_of, opt_path_bytes, spec_path_shift,
    ReversibleVSAConfig,
};
use crate::hashing::sha256_of;
use crate::sparse::{lane_sum, SparseVec, DIM};

verus! {

broadcast use vstd::std_specs::hash::group_hash_axioms;

/// Bytes per chunk of file data.
pub const DEFAULT_CHUNK_SIZE: usize = 4096;

/// What a raw decode of a chunk looks like, as a byte sequence.
pub open spec fn spec_raw_decode(
    v: SparseVec,
    cfg: ReversibleVSAConfig,
    pshift: int,
    size: int,
) -> Seq<u8> {
    Seq::new(
        size as nat,
        |j: int|
            decoded_byte(
                v,
                block_shift_mod(
                    pshift,
                    cfg.base_shift as int,
                    num_blocks_of(size, cfg.block_size as int),
                    j / (cfg.block_size as int),
                ),
                j % (cfg.block_size as int),
            ),
    )
}

/// One file's metadata in the manifest.
#[derive(Debug)]
pub struct FileEntry {
    /// Logical path of the file.
    pub path: String,
    /// Whether the bytes look like text.
    pub is_text: bool,
    /// Size of the file in bytes.
    pub size: usize,
    /// The file's chunk ids, in file order.
    pub chunks: Vec<usize>,
}

/// File-level metadata and the chunk-id high-water mark.
#[derive(Debug)]
pub struct Manifest {
    /// One entry per ingested file, in ingest order.
    pub files: Vec<FileEntry>,
    /// The next chunk id to allocate.
    pub total_chunks: usize,
}

/// The holographic encoding of a file tree: the root similarity surface,
/// the authoritative per-chunk vectors, and their corrections.
#[derive(Debug)]
pub struct Engram {
    /// The order-independent bundle over all chunk vectors.
    pub root: SparseVec,
    /// The encoded vector of each chunk, by chunk id.
    pub codebook: HashMap<usize, SparseVec>,
    /// The correction record of each chunk, by chunk id.
    pub corrections: CorrectionStore,
}

/// Why extraction of a file failed.
#[derive(Clone, Copy, Debug, PartialEq, Eq, Structural)]
pub enum EmbrError {
    /// A chunk id of the manifest is missing from the codebook.
    MissingChunk(usize),
    /// A chunk id of the manifest has no correction record.
    MissingCorrection(usize),
    /// A corrected chunk hashed to something other than the stored digest.
    CorrectionMismatch(usize),
}

/// Whether the engram can reproduce `chunk` exactly under chunk id `id`:
/// the codebook holds the chunk's vector, and the correction record turns
/// the raw decode back into the chunk, with a matching digest.
pub open spec fn chunk_recovers(
    engram: Engram,
    cfg: ReversibleVSAConfig,
    pshift: int,
    id: usize,
    chunk: Seq<u8>,
) -> bool {
    &&& engram.codebook@.contains_key(id)
    &&& engram.corrections.entries@.contains_key(id)
    &&& is_correction_of(
        engram.corrections.entries@[id].kind,
        chunk,
        spec_raw_decode(engram.codebook@[id], cfg, pshift, chunk.len() as int),
    )
    &&& engram.corrections.entries@[id].digest@ == sha256_of(chunk)
}

/// The length of chunk `i` of a file of `size` bytes.
pub open spec fn chunk_len(size: int, i: int) -> int {
    if size - i * (DEFAULT_CHUNK_SIZE as int) >= DEFAULT_CHUNK_SIZE {
        DEFAULT_CHUNK_SIZE as int
    } else if size - i * (DEFAULT_CHUNK_SIZE as int) >= 0 {
        size - i * (DEFAULT_CHUNK_SIZE as int)
    } else {
        0
    }
}

/// The bytes of chunk `i` of a file.
pub open spec fn chunk_bytes(data: Seq<u8>, i: int) -> Seq<u8> {
    data.subrange(
        i * (DEFAULT_CHUNK_SIZE as int),
        i * (DEFAULT_CHUNK_SIZE as int) + chunk_len(data.len() as int, i),
    )
}

/// The corrected bytes the engram yields for a chunk id at a given length.
pub open spec fn corrected_chunk(
    engram: Engram,
    cfg: ReversibleVSAConfig,
    pshift: int,
    id: usize,
    len: int,
) -> Seq<u8> {
    apply_spec(
        engram.corrections.entries@[id].kind,
        spec_raw_decode(engram.codebook@[id], cfg, pshift, len),
    )
}

/// Concatenation of the first `k` corrected chunks.
pub open spec fn concat_chunks(
    engram: Engram,
    cfg: ReversibleVSAConfig,
    pshift: int,
    ids: Seq<usize>,
    size: int,
    k: int,
) -> Seq<u8>
    decreases k,
{
    if k <= 0 {
        Seq::empty()
    } else {
        concat_chunks(engram, cfg, pshift, ids, size, k - 1) + corrected_chunk(
            engram,
            cfg,
            pshift,
            ids[k - 1],
            chunk_len(size, k - 1),
        )
    }
}

/// A sequence cut to at most `size` elements.
pub open spec fn clipped(s: Seq<u8>, size: int) -> Seq<u8> {
    if s.len() <= size {
        s
    } else {
        s.take(size)
    }
}

/// Whether the engram recovers, chunk for chunk, a file of these bytes
/// behind the given chunk ids.
pub open spec fn file_recovers(
    engram: Engram,
    cfg: ReversibleVSAConfig,
    pshift: int,
    ids: Seq<usize>,
    data: Seq<u8>,
) -> bool {
    &&& ids.len() == num_blocks_of(data.len() as int, DEFAULT_CHUNK_SIZE as int)
    &&& forall|i: int|
        0 <= i < ids.len() ==> chunk_recovers(engram, cfg, pshift, ids[i], #[trigger] chunk_bytes(
            data,
            i,
        ))
}

/// The holographic file store.
pub struct EmbrFS {
    /// File metadata.
    pub manifest: Manifest,
    /// The encoded chunks.
    pub engram: Engram,
    /// Encoding parameters shared by ingest and extract.
    pub config: ReversibleVSAConfig,
    /// Per-lane signed vote counts behind the root.
    pub votes: Vec<i128>,
    /// The chunk vectors bundled into the root so far, in id order.
    pub history: Ghost<Seq<SparseVec>>,
}

impl EmbrFS {
    /// Well-formedness: chunk ids are allocated contiguously from zero,
    /// the codebook and correction store cover exactly the allocated ids,
    /// and the root is the summed bundle of all chunk vectors.
    pub open spec fn wf(self) -> bool {
        &&& self.config.wf()
        &&& self.config.block_size <= 65536
        &&& self.manifest.total_chunks == self.history@.len()
        &&& self.engram.corrections.entries@.len() == self.manifest.total_chunks
        &&& forall|id: usize|
            self.engram.codebook@.contains_key(id) <==> id < self.manifest.total_chunks
        &&& forall|id: usize|
            self.engram.corrections.entries@.contains_key(id) <==> id
                < self.manifest.total_chunks
        &&& self.engram.corrections.wf()
        &&& self.votes@.len() == DIM
        &&& forall|x: usize|
            x < DIM ==> #[trigger] self.votes@[x as int] == lane_sum(self.history@, x)
        &&& self.engram.root.is_sum_bundle_of(self.history@)
        &&& forall|id: usize|
            id < self.manifest.total_chunks ==> (#[trigger] self.engram.codebook@[id]).wf()
    }

    /// The chunk vectors bundled so far, for stating the root's meaning.
    pub open spec fn spec_history(self) -> Seq<SparseVec> {
        self.history@
    }

    /// An empty store with the default encoding parameters.
    pub fn new() -> (r: EmbrFS)
        ensures
            r.wf(),
            r.manifest.files@.len() == 0,
            r.manifest.total_chunks == 0,
            r.spec_history().len() == 0,
            r.config.block_size == 64,
    {
        let mut votes: Vec<i128> = Vec::new();
        for d in 0..DIM
            invariant
                votes@.len() == d,
                forall|k: int| 0 <= k < d ==> votes@[k] == 0,
        {
            votes.push(0);
        }
        let ghost hist: Seq<SparseVec> = Seq::empty();
        proof {
            assert forall|x: usize| x < DIM implies #[trigger] votes@[x as int] == lane_sum(
                hist,
                x,
            ) by {}
        }
        let root = crate::sparse::threshold_votes(&votes, Ghost(hist));
        let r = EmbrFS {
            manifest: Manifest { files: Vec::new(), total_chunks: 0 },
            engram: Engram {
                root,
                codebook: HashMap::new(),
                corrections: CorrectionStore::new(),
            },
            config: ReversibleVSAConfig::new_default(),
            votes,
            history: Ghost(hist),
        };
        proof {
            assert(r.engram.codebook@ =~= Map::<usize, SparseVec>::empty());
        }
        r
    }

    /// Ingest one file's bytes under a logical path: chunk, encode, record
    /// corrections and digests, extend the manifest and fold the chunk
    /// vectors into the root. Afterwards the engram recovers the file,
    /// chunk for chunk, exactly.
    pub fn ingest_bytes(&mut self, logical_path: &str, data: &[u8]) -> (nchunks: usize)
        requires
            old(self).wf(),
            data@.len() + DEFAULT_CHUNK_SIZE + 65536 < usize::MAX,
            old(self).manifest.total_chunks + data@.len() < usize::MAX,
        ensures
            final(self).wf(),
            final(self).config == old(self).config,
            nchunks as int == num_blocks_of(data@.len() as int, DEFAULT_CHUNK_SIZE as int),
            final(self).manifest.total_chunks == old(self).manifest.total_chunks + nchunks,
            final(self).manifest.files@.len() == old(self).manifest.files@.len() + 1,
            forall|k: int|
                0 <= k < old(self).manifest.files@.len()
                    ==> #[trigger] final(self).manifest.files@[k] == old(
                    self,
                ).manifest.files@[k],
            final(self).manifest.files@.last().path@ == logical_path@,
            final(self).manifest.files@.last().size == data@.len(),
            final(self).manifest.files@.last().is_text == is_text_spec(data@),
            final(self).manifest.files@.last().chunks@.len() == nchunks,
            forall|i: int|
                0 <= i < nchunks ==> #[trigger] final(self).manifest.files@.last().chunks@[i]
                    == old(self).manifest.total_chunks + i,
            // The file is recoverable exactly.
            file_recovers(
                final(self).engram,
                old(self).config,
                spec_path_shift(Some(logical_path.spec_bytes()), old(self).config),
                final(self).manifest.files@.last().chunks@,
                data@,
            ),
            // Old chunks keep their codebook vectors and corrections.
            forall|id: usize|
                id < old(self).manifest.total_chunks ==> final(self).engram.codebook@[id] == old(
                    self,
                ).engram.codebook@[id] && final(self).engram.corrections.entries@[id] == old(
                    self,
                ).engram.corrections.entries@[id],
            // The root history only grows.
            final(self).spec_history().len() == old(self).spec_history().len() + nchunks,
            forall|k: int|
                0 <= k < old(self).spec_history().len() ==> final(self).spec_history()[k] == old(
                    self,
                ).spec_history()[k],
    {
        let cs = DEFAULT_CHUNK_SIZE;
        let len = data.len();
        let nchunks = if len == 0 {
            0
        } else {
            (len + cs - 1) / cs
        };
        proof {
            if len == 0 {
                assert(num_blocks_of(0, cs as int) == 0) by {
                    vstd::arithmetic::div_mod::lemma_basic_div_specific_divisor(cs as int);
                }
            } else {
                assert(nchunks as int == num_blocks_of(len as int, cs as int));
                assert(nchunks <= len) by {
                    assert((len + cs - 1) as int <= (len as int) * (cs as int))
                        by (nonlinear_arith)
                        requires
                            len >= 1,
                            cs >= 1,
                    ;
                    vstd::arithmetic::div_mod::lemma_div_is_ordered(
                        (len + cs - 1) as int,
                        (len as int) * (cs as int),
                        cs as int,
                    );
                    vstd::arithmetic::div_mod::lemma_div_by_multiple(len as int, cs as int);
                }
            }
        }
        let base_id = self.manifest.total_chunks;
        let mut chunk_ids: Vec<usize> = Vec::new();
        let ghost old_hist = self.history@;
        let ghost pshift = spec_path_shift(Some(logical_path.spec_bytes()), self.config);
        for i in 0..nchunks
            invariant
                self.config.wf(),
                self.config == old(self).config,
                self.config.block_size <= 65536,
                cs == DEFAULT_CHUNK_SIZE,
                len == data@.len(),
                len + cs + 65536 < usize::MAX,
                base_id + len < usize::MAX,
                base_id == old(self).manifest.total_chunks,
                nchunks as int == num_blocks_of(len as int, cs as int),
                nchunks <= len,
                pshift == spec_path_shift(Some(logical_path.spec_bytes()), self.config),
                self.manifest.total_chunks == base_id + i,
                self.manifest.files@ == old(self).manifest.files@,
                self.history@.len() == base_id + i,
                self.votes@.len() == DIM,
                forall|x: usize|
                    x < DIM ==> #[trigger] self.votes@[x as int] == lane_sum(self.history@, x),
                forall|id: usize|
                    self.engram.codebook@.contains_key(id) <==> id < base_id + i,
                forall|id: usize|
                    self.engram.corrections.entries@.contains_key(id) <==> id < base_id + i,
                self.engram.corrections.entries@.len() == base_id + i,
                self.engram.corrections.wf(),
                forall|id: usize|
                    id < base_id + i ==> (#[trigger] self.engram.codebook@[id]).wf(),
                chunk_ids@.len() == i,
                forall|k: int| 0 <= k < i ==> #[trigger] chunk_ids@[k] == base_id + k,
                forall|k: int|
                    0 <= k < i ==> chunk_recovers(
                        self.engram,
                        self.config,
                        pshift,
                        (base_id + k) as usize,
                        #[trigger] chunk_bytes(data@, k),
                    ),
                forall|id: usize|
                    id < base_id ==> #[trigger] self.engram.codebook@[id] == old(
                        self,
                    ).engram.codebook@[id] && self.engram.corrections.entries@[id] == old(
                        self,
                    ).engram.corrections.entries@[id],
                old_hist == old(self).spec_history(),
                old_hist.len() == base_id,
                forall|k: int| 0 <= k < old_hist.len() ==> self.history@[k] == old_hist[k],
        {
            let ghost snap_cb = self.engram.codebook@;
            let ghost snap_cor = self.engram.corrections.entries@;
            proof {
                lemma_chunk_bounds(len as int, cs as int, i as int);
            }
            let start = i * cs;
            let stop = if len - start > cs {
                start + cs
            } else {
                len
            };
            let chunk = slice_range(data, start, stop);
            proof {
                assert((i + 1) * (cs as int) == i * (cs as int) + cs) by (nonlinear_arith);
                assert(chunk@ =~= chunk_bytes(data@, i as int));
            }
            let id = base_id + i;
            let cv = SparseVec::encode_data(chunk.as_slice(), &self.config, Some(logical_path));
            let raw = cv.decode_data(&self.config, Some(logical_path), chunk.len());
            proof {
                assert(raw@ =~= spec_raw_decode(cv, self.config, pshift, chunk@.len() as int));
            }
            let kind = build_correction(chunk.as_slice(), raw.as_slice());
            let digest = crate::hashing::sha256_digest(chunk.as_slice());
            let record = ChunkCorrection { kind, digest };
            let ghost old_entries = self.engram.corrections.entries@;
            self.engram.codebook.insert(id, cv);
            self.engram.corrections.insert(id, record);
            accumulate_root_votes(&mut self.votes, &self.engram.codebook, id, Ghost(self.history@));
            proof {
                self.history@ = self.history@.push(self.engram.codebook@[id]);
                broadcast use vstd::set::axiom_set_insert_len;

                assert(self.engram.corrections.entries@.dom()
                    =~= old_entries.dom().insert(id));
            }
            self.manifest.total_chunks = id + 1;
            chunk_ids.push(id);
            proof {
                assert(self.engram.codebook@ == snap_cb.insert(id, cv));
                assert(self.engram.corrections.entries@ == snap_cor.insert(id, record));
                assert forall|q: usize| q < base_id implies #[trigger] self.engram.codebook@[q]
                    == old(self).engram.codebook@[q] && self.engram.corrections.entries@[q]
                    == old(self).engram.corrections.entries@[q] by {
                    assert(self.engram.codebook@[q] == snap_cb[q]);
                    assert(self.engram.corrections.entries@[q] == snap_cor[q]);
                }
            }
        }
        let entry = FileEntry {
            path: logical_path.to_owned(),
            is_text: is_text_file(data),
            size: len,
            chunks: chunk_ids,
        };
        self.manifest.files.push(entry);
        let root = crate::sparse::threshold_votes(&self.votes, Ghost(self.history@));
        self.engram.root = root;
        nchunks
    }

    /// Extract one file's bytes: decode each chunk, apply its correction,
    /// verify the digest, concatenate, and cut to the recorded size.
    /// Extraction succeeds whenever the engram recovers some file of
    /// `size` bytes behind these chunk ids — in particular, for anything
    /// `ingest_bytes` stored — and then returns those bytes exactly.
    pub fn extract_file_bytes(
        engram: &Engram,
        config: &ReversibleVSAConfig,
        path: &str,
        size: usize,
        chunks: &Vec<usize>,
    ) -> (r: Result<Vec<u8>, EmbrError>)
        requires
            config.wf(),
            config.block_size <= 65536,
            size + DEFAULT_CHUNK_SIZE + 65536 < usize::MAX,
            forall|id: usize|
                engram.codebook@.contains_key(id) ==> (#[trigger] engram.codebook@[id]).wf(),
        ensures
            ({
                let pshift = spec_path_shift(Some(path.spec_bytes()), *config);
                &&& (r is Ok ==> r->Ok_0@ == clipped(
                    concat_chunks(
                        *engram,
                        *config,
                        pshift,
                        chunks@,
                        size as int,
                        chunks@.len() as int,
                    ),
                    size as int,
                ))
                &&& ((exists|data: Seq<u8>|
                    data.len() == size && #[trigger] file_recovers(
                        *engram,
                        *config,
                        pshift,
                        chunks@,
                        data,
                    )) ==> r is Ok)
            }),
    {
        let ghost pshift = spec_path_shift(Some(path.spec_bytes()), *config);
        let ghost recoverable = exists|data: Seq<u8>|
            data.len() == size && #[trigger] file_recovers(*engram, *config, pshift, chunks@, data);
        let mut out: Vec<u8> = Vec::new();
        let n = chunks.len();
        for i in 0..n
            invariant
                config.wf(),
                config.block_size <= 65536,
                n == chunks@.len(),
                size + DEFAULT_CHUNK_SIZE + 65536 < usize::MAX,
                pshift == spec_path_shift(Some(path.spec_bytes()), *config),
                recoverable == exists|data: Seq<u8>|
                    data.len() == size && #[trigger] file_recovers(
                        *engram,
                        *config,
                        pshift,
                        chunks@,
                        data,
                    ),
                forall|id: usize|
                    engram.codebook@.contains_key(id) ==> (#[trigger] engram.codebook@[id]).wf(),
                out@ == concat_chunks(*engram, *config, pshift, chunks@, size as int, i as int),
        {
            let id = chunks[i];
            let clen = chunk_len_exec(size, i, n);
            let cv = match hash_get(&engram.codebook, id) {
                Some(v) => v,
                None => {
                    proof {
                        if recoverable {
                            let data = choose|data: Seq<u8>|
                                data.len() == size && #[trigger] file_recovers(
                                    *engram,
                                    *config,
                                    pshift,
                                    chunks@,
                                    data,
                                );
                            assert(chunk_recovers(
                                *engram,
                                *config,
                                pshift,
                                chunks@[i as int],
                                chunk_bytes(data, i as int),
                            ));
                        }
                    }
                    return Err(EmbrError::MissingChunk(id));
                },
            };
            let raw = cv.decode_data(config, Some(path), clen);
            proof {
                assert(raw@ =~= spec_raw_decode(*cv, *config, pshift, clen as int));
            }
            let record = match engram.corrections.get(id) {
                Some(c) => c,
                None => {
                    proof {
                        if recoverable {
                            let data = choose|data: Seq<u8>|
                                data.len() == size && #[trigger] file_recovers(
                                    *engram,
                                    *config,
                                    pshift,
                                    chunks@,
                                    data,
                                );
                            assert(chunk_recovers(
                                *engram,
                                *config,
                                pshift,
                                chunks@[i as int],
                                chunk_bytes(data, i as int),
                            ));
                        }
                    }
                    return Err(EmbrError::MissingCorrection(id));
                },
            };
            let corrected = apply_correction(&record.kind, raw);
            proof {
                assert(corrected@ == corrected_chunk(
                    *engram,
                    *config,
                    pshift,
                    id,
                    chunk_len(size as int, i as int),
                ));
            }
            if !ReconstructionVerifier::verify(corrected.as_slice(), record.digest.as_slice()) {
                proof {
                    if recoverable {
                        let data = choose|data: Seq<u8>|
                            data.len() == size && #[trigger] file_recovers(
                                *engram,
                                *config,
                                pshift,
                                chunks@,
                                data,
                            );
                        assert(chunk_recovers(
                            *engram,
                            *config,
                            pshift,
                            chunks@[i as int],
                            chunk_bytes(data, i as int),
                        ));
                        assert(data.len() >= 1) by {
                            if data.len() == 0 {
                                assert(num_blocks_of(0, DEFAULT_CHUNK_SIZE as int) == 0) by {
                                    vstd::arithmetic::div_mod::lemma_basic_div_specific_divisor(
                                        DEFAULT_CHUNK_SIZE as int,
                                    );
                                }
                            }
                        }
                        lemma_chunk_bounds(
                            data.len() as int,
                            DEFAULT_CHUNK_SIZE as int,
                            i as int,
                        );
                        lemma_chunk_bytes_len(data, i as int);
                        assert(corrected@ == chunk_bytes(data, i as int));
                    }
                }
                return Err(EmbrError::CorrectionMismatch(id));
            }
            append_bytes(&mut out, &corrected);
        }
        if out.len() > size {
            let r = truncate_bytes(out, size);
            return Ok(r);
        }
        proof {
            assert(out@ =~= clipped(out@, size as int));
        }
        Ok(out)
    }
}

/// A chunk that starts inside the file has exactly the chunk length at
/// its index.
proof fn lemma_chunk_bytes_len(data: Seq<u8>, i: int)
    requires
        0 <= i,
        i * (DEFAULT_CHUNK_SIZE as int) <= data.len(),
    ensures
        chunk_bytes(data, i).len() == chunk_len(data.len() as int, i),
{
    assert(i * (DEFAULT_CHUNK_SIZE as int) >= 0) by (nonlinear_arith)
        requires
            i >= 0,
    ;
}

/// Chunk index arithmetic: each chunk of a non-empty file starts inside
/// the data.
proof fn lemma_chunk_bounds(len: int, cs: int, i: int)
    requires
        cs >= 1,
        len >= 1,
        0 <= i < num_blocks_of(len, cs),
    ensures
        i * cs < len,
        i * cs >= 0,
        chunk_len(len, i) == if len - i * (DEFAULT_CHUNK_SIZE as int) >= DEFAULT_CHUNK_SIZE {
            DEFAULT_CHUNK_SIZE as int
        } else {
            len - i * (DEFAULT_CHUNK_SIZE as int)
        } || cs != DEFAULT_CHUNK_SIZE,
{
    let nb = num_blocks_of(len, cs);
    assert(i * cs >= 0) by (nonlinear_arith)
        requires
            i >= 0,
            cs >= 1,
    ;
    assert(i * cs < len) by {
        assert(nb == (len + cs - 1) / cs);
        assert((nb - 1) * cs <= len - 1) by {
            vstd::arithmetic::div_mod::lemma_fundamental_div_mod(len + cs - 1, cs);
            vstd::arithmetic::div_mod::lemma_mod_bound(len + cs - 1, cs);
            assert((nb - 1) * cs == nb * cs - cs) by (nonlinear_arith);
        }
        assert(i * cs <= (nb - 1) * cs) by (nonlinear_arith)
            requires
                i <= nb - 1,
                cs >= 1,
        ;
    }
}

/// Copy `data[start..stop]` into a fresh vector.
fn slice_range(data: &[u8], start: usize, stop: usize) -> (r: Vec<u8>)
    requires
        start <= stop <= data@.len(),
    ensures
        r@ == data@.subrange(start as int, stop as int),
{
    let mut r: Vec<u8> = Vec::new();
    let mut i = start;
    while i < stop
        invariant
            start <= i <= stop <= data@.len(),
            r@.len() == i - start,
            forall|k: int| 0 <= k < r@.len() ==> r@[k] == data@[start + k],
        decreases stop - i,
    {
        r.push(data[i]);
        i = i + 1;
    }
    proof {
        assert(r@ =~= data@.subrange(start as int, stop as int));
    }
    r
}

/// Append all bytes of `src` to `dst`.
fn append_bytes(dst: &mut Vec<u8>, src: &Vec<u8>)
    ensures
        final(dst)@ == old(dst)@ + src@,
{
    let n = src.len();
    for i in 0..n
        invariant
            n == src@.len(),
            dst@ == old(dst)@ + src@.take(i as int),
    {
        dst.push(src[i]);
        proof {
            assert(old(dst)@ + src@.take(i + 1) =~= (old(dst)@ + src@.take(i as int)).push(
                src@[i as int],
            ));
        }
    }
    proof {
        assert(old(dst)@ + src@.take(n as int) =~= old(dst)@ + src@);
    }
}

/// The first `size` bytes of a vector.
fn truncate_bytes(v: Vec<u8>, size: usize) -> (r: Vec<u8>)
    requires
        size <= v@.len(),
    ensures
        r@ == v@.take(size as int),
{
    let mut r: Vec<u8> = Vec::new();
    for i in 0..size
        invariant
            size <= v@.len(),
            r@ == v@.take(i as int),
    {
        r.push(v[i]);
        proof {
            assert(r@ =~= v@.take(i + 1));
        }
    }
    r
}

/// The exec form of `chunk_len`.
fn chunk_len_exec(size: usize, i: usize, n: usize) -> (r: usize)
    requires
        size + DEFAULT_CHUNK_SIZE < usize::MAX,
        i < n,
    ensures
        r as int == chunk_len(size as int, i as int),
        r <= DEFAULT_CHUNK_SIZE,
{
    let cs = DEFAULT_CHUNK_SIZE;
    proof {
        assert((i as int) * (cs as int) >= 0) by (nonlinear_arith)
            requires
                i >= 0,
                cs >= 1,
        ;
    }
    let start_wide: u128 = (i as u128) * (cs as u128);
    if start_wide >= size as u128 {
        0
    } else {
        let start = start_wide as usize;
        if size - start >= cs {
            cs
        } else {
            size - start
        }
    }
}

/// Fetch a codebook vector by chunk id.
fn hash_get<'a>(m: &'a HashMap<usize, SparseVec>, id: usize) -> (r: Option<&'a SparseVec>)
    ensures
        match r {
            Some(v) => m@.contains_key(id) && *v == m@[id],
            None => !m@.contains_key(id),
        },
{
    m.get(&id)
}

/// Fold one fresh codebook vector into the per-lane root votes.
fn accumulate_root_votes(
    votes: &mut Vec<i128>,
    codebook: &HashMap<usize, SparseVec>,
    id: usize,
    Ghost(hist): Ghost<Seq<SparseVec>>,
)
    requires
        codebook@.contains_key(id),
        codebook@[id].wf(),
        old(votes)@.len() == DIM,
        hist.len() <= 0xffff_ffff_ffff_ffff,
        forall|x: usize| x < DIM ==> #[trigger] old(votes)@[x as int] == lane_sum(hist, x),
    ensures
        final(votes)@.len() == DIM,
        forall|x: usize|
            x < DIM ==> #[trigger] final(votes)@[x as int] == lane_sum(
                hist.push(codebook@[id]),
                x,
            ),
{
    let v = hash_get_ref(codebook, id);
    proof {
        lemma_lane_sum_bound(hist);
    }
    crate::sparse::accumulate_votes(votes, v, Ghost(hist), Ghost(hist.len() as int));
    proof {
        assert forall|x: usize| x < DIM implies #[trigger] votes@[x as int] == lane_sum(
            hist.push(codebook@[id]),
            x,
        ) by {
            assert(hist.push(codebook@[id]).drop_last() =~= hist);
            assert(hist.push(codebook@[id]).last() == codebook@[id]);
        }
    }
}

/// The lane sums of a history are bounded by its length.
proof fn lemma_lane_sum_bound(hist: Seq<SparseVec>)
    ensures
        forall|x: usize|
            x < DIM ==> -(hist.len() as int) <= #[trigger] lane_sum(hist, x) <= hist.len() as int,
    decreases hist.len(),
{
    if hist.len() > 0 {
        lemma_lane_sum_bound(hist.drop_last());
        assert forall|x: usize|
            x < DIM implies -(hist.len() as int) <= #[trigger] lane_sum(hist, x)
            <= hist.len() as int by {
            assert(lane_sum(hist, x) == lane_sum(hist.drop_last(), x) + hist.last().lane(x));
        }
    }
}

/// Fetch a codebook vector known to be present.
fn hash_get_ref<'a>(m: &'a HashMap<usize, SparseVec>, id: usize) -> (r: &'a SparseVec)
    requires
        m@.contains_key(id),
    ensures
        *r == m@[id],
{
    match m.get(&id) {
        Some(v) => v,
        None => {
            proof {
                assert(false);
            }
            unreached()
        },
    }
}

/// Whether bytes look like text: no NUL byte in the sampled prefix and
/// fewer than a tenth control bytes outside tab, newline and return.
pub open spec fn is_text_spec(data: Seq<u8>) -> bool {
    let sample = if data.len() <= 8192 {
        data
    } else {
        data.take(8192)
    };
    data.len() == 0 || (count_nuls(sample, sample.len() as int) == 0 && count_controls(
        sample,
        sample.len() as int,
    ) < sample.len() as int / 10)
}

/// NUL bytes among the first `k`.
pub open spec fn count_nuls(s: Seq<u8>, k: int) -> int
    decreases k,
{
    if k <= 0 {
        0
    } else {
        count_nuls(s, k - 1) + if s[k - 1] == 0 {
            1int
        } else {
            0int
        }
    }
}

/// Control bytes among the first `k`, not counting tab, newline, return
/// and NUL.
pub open spec fn count_controls(s: Seq<u8>, k: int) -> int
    decreases k,
{
    if k <= 0 {
        0
    } else {
        count_controls(s, k - 1) + if s[k - 1] < 32 && s[k - 1] != 9 && s[k - 1] != 10 && s[k - 1]
            != 13 && s[k - 1] != 0 {
            1int
        } else {
            0int
        }
    }
}

/// Whether bytes look like text, by sampling a prefix: no NUL bytes and
/// few control characters.
pub fn is_text_file(data: &[u8]) -> (r: bool)
    ensures
        r == is_text_spec(data@),
{
    let n = data.len();
    if n == 0 {
        return true;
    }
    let sample_size = if n <= 8192 {
        n
    } else {
        8192
    };
    let mut nulls: usize = 0;
    let mut controls: usize = 0;
    let ghost sample: Seq<u8> = if data@.len() <= 8192 {
        data@
    } else {
        data@.take(8192)
    };
    for i in 0..sample_size
        invariant
            n == data@.len(),
            n >= 1,
            sample_size == if n <= 8192 {
                n as int
            } else {
                8192
            },
            sample == if data@.len() <= 8192 {
                data@
            } else {
                data@.take(8192)
            },
            sample.len() == sample_size,
            nulls as int == count_nuls(sample, i as int),
            controls as int == count_controls(sample, i as int),
            nulls <= i,
            controls <= i,
    {
        let b = data[i];
        proof {
            assert(sample[i as int] == data@[i as int]);
        }
        if b == 0 {
            nulls = nulls + 1;
        } else if b < 32 && b != 9 && b != 10 && b != 13 {
            controls = controls + 1;
        }
    }
    nulls == 0 && controls < sample_size / 10
}

/// Exact extraction: an engram that recovers a file, chunk for chunk,
/// concatenates back to exactly that file's bytes, cut to its size.
pub proof fn lemma_file_roundtrip(
    engram: Engram,
    cfg: ReversibleVSAConfig,
    pshift: int,
    ids: Seq<usize>,
    data: Seq<u8>,
)
    requires
        file_recovers(engram, cfg, pshift, ids, data),
        data.len() + DEFAULT_CHUNK_SIZE < usize::MAX,
    ensures
        clipped(
            concat_chunks(engram, cfg, pshift, ids, data.len() as int, ids.len() as int),
            data.len() as int,
        ) == data,
{
    lemma_concat_prefix(engram, cfg, pshift, ids, data, ids.len() as int);
    let full = concat_chunks(engram, cfg, pshift, ids, data.len() as int, ids.len() as int);
    let cs = DEFAULT_CHUNK_SIZE as int;
    let n = ids.len() as int;
    if data.len() == 0 {
        assert(num_blocks_of(0, cs) == 0) by {
            vstd::arithmetic::div_mod::lemma_basic_div_specific_divisor(cs);
        }
        assert(full =~= data);
    } else {
        // The chunks cover the whole file: n * cs >= len.
        assert(n == (data.len() + cs - 1) / cs);
        vstd::arithmetic::div_mod::lemma_fundamental_div_mod(data.len() + cs - 1, cs);
        vstd::arithmetic::div_mod::lemma_mod_bound(data.len() + cs - 1, cs);
        assert(n * cs >= data.len());
        assert(full == data.take(if n * cs <= data.len() {
            n * cs
        } else {
            data.len() as int
        }));
        assert(full =~= data);
    }
    assert(clipped(full, data.len() as int) == full);
}

/// The first `k` chunks concatenate to the file's prefix they cover.
proof fn lemma_concat_prefix(
    engram: Engram,
    cfg: ReversibleVSAConfig,
    pshift: int,
    ids: Seq<usize>,
    data: Seq<u8>,
    k: int,
)
    requires
        file_recovers(engram, cfg, pshift, ids, data),
        0 <= k <= ids.len(),
    ensures
        concat_chunks(engram, cfg, pshift, ids, data.len() as int, k) == data.take(
            if k * (DEFAULT_CHUNK_SIZE as int) <= data.len() {
                k * (DEFAULT_CHUNK_SIZE as int)
            } else {
                data.len() as int
            },
        ),
    decreases k,
{
    let cs = DEFAULT_CHUNK_SIZE as int;
    if k == 0 {
        assert(concat_chunks(engram, cfg, pshift, ids, data.len() as int, 0) =~= data.take(0));
    } else {
        lemma_concat_prefix(engram, cfg, pshift, ids, data, k - 1);
        assert(chunk_recovers(engram, cfg, pshift, ids[k - 1], chunk_bytes(data, k - 1)));
        // The corrected chunk is the original chunk bytes.
        assert((k - 1) * cs >= 0 && (k - 1) * cs < data.len()) by {
            lemma_chunk_bounds(data.len() as int, cs, k - 1);
            assert(data.len() >= 1) by {
                if data.len() == 0 {
                    assert(num_blocks_of(0, cs) == 0) by {
                        vstd::arithmetic::div_mod::lemma_basic_div_specific_divisor(cs);
                    }
                }
            }
        }
        assert(chunk_bytes(data, k - 1).len() == chunk_len(data.len() as int, k - 1));
        assert(corrected_chunk(engram, cfg, pshift, ids[k - 1], chunk_len(data.len() as int, k - 1))
            == chunk_bytes(data, k - 1));
        assert(k * cs == (k - 1) * cs + cs) by (nonlinear_arith);
        assert(concat_chunks(engram, cfg, pshift, ids, data.len() as int, k) =~= data.take(
            if k * cs <= data.len() {
                k * cs
            } else {
                data.len() as int
            },
        ));
    }
}

} // verus!
