//! The reversible block encoder: a deterministic byte-to-vector encoding
//! parameterised by a path-derived permutation shift.
//!
//! A chunk of bytes is split into sub-blocks of `block_size` bytes. Each
//! byte votes for one lane — its position plus the sub-block shift plus the
//! byte's low seven bits, cyclically — positively for bytes below 128 and
//! negatively otherwise. The per-sub-block votes are conflict-cancelled,
//! and the sub-block vectors are combined with the order-independent summed
//! bundle. The raw inverse scans the 128 candidate lanes per byte position
//! and is lossy; the correction store makes extraction exact.

use vstd::prelude::*;

use crate::hashing::{sha256_digest, sha256_of};
use vstd::string::StringSliceAdditionalSpecFns;
use crate::sparse::{lane_sum, sorted_strict, SparseVec, DIM};

verus! {

broadcast use vstd::seq_lib::lemma_seq_contains_after_push;

/// Parameters of the reversible encoding.
#[derive(Clone, Debug)]
pub struct ReversibleVSAConfig {
    /// Bytes per sub-block; each sub-block gets its own lane shift.
    pub block_size: usize,
    /// The path hash is reduced modulo this depth before scaling.
    pub max_path_depth: usize,
    /// Scale from path-depth steps to lane shifts.
    pub base_shift: usize,
    /// Target number of non-zero lanes per chunk, for callers that thin
    /// aggregate vectors.
    pub target_sparsity: usize,
}

impl ReversibleVSAConfig {
    /// A usable configuration: sub-blocks are non-empty and the path depth
    /// is a valid modulus.
    pub open spec fn wf(self) -> bool {
        self.block_size >= 1 && self.max_path_depth >= 1
    }

    /// The default preset: 64-byte sub-blocks, moderate path keying.
    pub fn new_default() -> (r: ReversibleVSAConfig)
        ensures
            r.wf(),
            r.block_size == 64,
    {
        ReversibleVSAConfig { block_size: 64, max_path_depth: 8, base_shift: 128, target_sparsity: 100 }
    }

    /// The small preset: fewer lanes per chunk, shallow path keying.
    pub fn small() -> (r: ReversibleVSAConfig)
        ensures
            r.wf(),
            r.block_size == 32,
    {
        ReversibleVSAConfig { block_size: 32, max_path_depth: 4, base_shift: 64, target_sparsity: 50 }
    }

    /// The large preset: wider sub-blocks and deeper path keying.
    pub fn large() -> (r: ReversibleVSAConfig)
        ensures
            r.wf(),
            r.block_size == 128,
    {
        ReversibleVSAConfig { block_size: 128, max_path_depth: 16, base_shift: 256, target_sparsity: 200 }
    }
}

impl Default for ReversibleVSAConfig {
    fn default() -> (r: ReversibleVSAConfig)
        ensures
            r.wf(),
            r.block_size == 64,
    {
        ReversibleVSAConfig::new_default()
    }
}

/// The first four digest bytes read as a little-endian 32-bit integer.
pub open spec fn le32(b: Seq<u8>) -> int {
    b[0] + 256 * b[1] + 65536 * b[2] + 16777216 * b[3]
}

/// The byte sequence of an optional path string.
pub open spec fn opt_path_bytes(path: Option<&str>) -> Option<Seq<u8>> {
    match path {
        Option::None => Option::None,
        Option::Some(p) => Option::Some(p.spec_bytes()),
    }
}

/// The chunk-level shift that a path keys: the SHA-256 of the path, read
/// little-endian, reduced modulo the configured depth and scaled by the
/// base shift. No path means no shift.
pub open spec fn spec_path_shift(path: Option<Seq<u8>>, cfg: ReversibleVSAConfig) -> int {
    match path {
        Option::None => 0,
        Option::Some(p) => (le32(sha256_of(p)) % (cfg.max_path_depth as int)) * (
        cfg.base_shift as int),
    }
}

/// The number of sub-blocks a chunk of `len` bytes occupies.
pub open spec fn num_blocks_of(len: int, bs: int) -> int {
    (len + bs - 1) / bs
}

/// The bytes of sub-block `i`.
pub open spec fn block_of(data: Seq<u8>, bs: int, i: int) -> Seq<u8> {
    data.subrange(
        i * bs,
        if (i + 1) * bs <= data.len() {
            (i + 1) * bs
        } else {
            data.len() as int
        },
    )
}

/// The lane shift of sub-block `i`, reduced into the lane space.
pub open spec fn block_shift_mod(pshift: int, base: int, nbt: int, i: int) -> int {
    (pshift + (i * base) / nbt) % (DIM as int)
}

/// The lane that byte value `v` at sub-block position `j` votes for under
/// shift `sh`.
pub open spec fn mix_lane(j: int, v: int, sh: int) -> usize {
    (((j + sh + v) % (DIM as int))) as usize
}

/// Whether some byte of the sub-block votes lane `x` positive.
pub open spec fn block_pos_hit(sb: Seq<u8>, sh: int, x: usize) -> bool {
    exists|j: int| 0 <= j < sb.len() && sb[j] < 128 && x == mix_lane(j, sb[j] as int, sh)
}

/// Whether some byte of the sub-block votes lane `x` negative.
pub open spec fn block_neg_hit(sb: Seq<u8>, sh: int, x: usize) -> bool {
    exists|j: int| 0 <= j < sb.len() && sb[j] >= 128 && x == mix_lane(j, sb[j] - 128, sh)
}

/// The conflict-cancelled lane value of one sub-block.
pub open spec fn block_lane(sb: Seq<u8>, sh: int, x: usize) -> int {
    if block_pos_hit(sb, sh, x) && !block_neg_hit(sb, sh, x) {
        1
    } else if block_neg_hit(sb, sh, x) && !block_pos_hit(sb, sh, x) {
        -1
    } else {
        0
    }
}

/// The summed vote at lane `x` over the first `k` sub-blocks of a chunk.
pub open spec fn chunk_vote(
    data: Seq<u8>,
    bs: int,
    base: int,
    nbt: int,
    pshift: int,
    k: int,
    x: usize,
) -> int
    decreases k,
{
    if k <= 0 {
        0
    } else {
        chunk_vote(data, bs, base, nbt, pshift, k - 1, x) + block_lane(
            block_of(data, bs, k - 1),
            block_shift_mod(pshift, base, nbt, k - 1),
            x,
        )
    }
}

impl SparseVec {
    /// Pointwise characterization of the reversible encoding of `data`
    /// under the given configuration and chunk shift: each lane carries the
    /// sign of the summed sub-block votes.
    pub open spec fn is_encoding_of(
        self,
        data: Seq<u8>,
        cfg: ReversibleVSAConfig,
        pshift: int,
    ) -> bool {
        let nbt = num_blocks_of(data.len() as int, cfg.block_size as int);
        &&& self.wf()
        &&& forall|x: usize|
            x < DIM ==> (self.pos@.contains(x) <==> chunk_vote(
                data,
                cfg.block_size as int,
                cfg.base_shift as int,
                nbt,
                pshift,
                nbt,
                x,
            ) > 0)
        &&& forall|x: usize|
            x < DIM ==> (self.neg@.contains(x) <==> chunk_vote(
                data,
                cfg.block_size as int,
                cfg.base_shift as int,
                nbt,
                pshift,
                nbt,
                x,
            ) < 0)
    }

    /// Encode a chunk of bytes as a sparse ternary vector, deterministically
    /// in `(data, config, path)`. Empty input encodes to the empty vector.
    pub fn encode_data(data: &[u8], config: &ReversibleVSAConfig, path: Option<&str>) -> (r:
        SparseVec)
        requires
            config.wf(),
            data@.len() + config.block_size < usize::MAX,
        ensures
            r.is_encoding_of(data@, *config, spec_path_shift(opt_path_bytes(path), *config)),
            data@.len() == 0 ==> r.spec_nnz() == 0,
    {
        let ghost gshift = spec_path_shift(opt_path_bytes(path), *config);
        let bs = config.block_size;
        let len = data.len();
        if len == 0 {
            let r = SparseVec::new();
            proof {
                assert(num_blocks_of(0, bs as int) == 0) by {
                    assert((0 + bs - 1) / (bs as int) == 0) by {
                        vstd::arithmetic::div_mod::lemma_basic_div_specific_divisor(bs as int);
                    }
                }
            }
            return r;
        }
        let pshift: u128 = path_shift_exec(path, config);
        let nb = (len + bs - 1) / bs;
        let ghost nbt = num_blocks_of(len as int, bs as int);
        assert(nb as int == nbt);
        assert(nb >= 1) by {
            assert((len + bs - 1) as int / (bs as int) >= 1) by {
                vstd::arithmetic::div_mod::lemma_div_is_ordered(
                    bs as int,
                    (len + bs - 1) as int,
                    bs as int,
                );
                vstd::arithmetic::div_mod::lemma_div_by_self(bs as int);
            }
        }
        let mut blocks: Vec<SparseVec> = Vec::new();
        for i in 0..nb
            invariant
                nb >= 1,
                bs == config.block_size,
                bs >= 1,
                len == data@.len(),
                len >= 1,
                len + bs < usize::MAX,
                nb as int == nbt,
                nbt == num_blocks_of(len as int, bs as int),
                pshift as int % (DIM as int) == gshift % (DIM as int),
                blocks@.len() == i,
                forall|k: int| 0 <= k < i ==> (#[trigger] blocks@[k]).wf(),
                forall|x: usize|
                    x < DIM ==> #[trigger] lane_sum(blocks@, x) == chunk_vote(
                        data@,
                        bs as int,
                        config.base_shift as int,
                        nbt,
                        gshift,
                        i as int,
                        x,
                    ),
        {
            proof {
                lemma_block_bounds(len as int, bs as int, i as int);
                assert((i + 1) * (bs as int) == i * (bs as int) + bs) by (nonlinear_arith);
            }
            let start = i * bs;
            let stop = if len - start > bs {
                start + bs
            } else {
                len
            };
            assert(stop as int == if (i + 1) * (bs as int) <= len {
                (i + 1) * (bs as int)
            } else {
                len as int
            });
            let sh: usize = block_shift_exec(pshift, config.base_shift, nb, i);
            proof {
                lemma_block_shift_agree(
                    pshift as int,
                    gshift,
                    config.base_shift as int,
                    nb as int,
                    i as int,
                );
            }
            let bvec = encode_block(data, start, stop, sh);
            let ghost oldblocks = blocks@;
            blocks.push(bvec);
            proof {
                assert(blocks@.drop_last() =~= oldblocks);
                assert(blocks@.last() == bvec);
                assert(block_of(data@, bs as int, i as int) =~= data@.subrange(
                    start as int,
                    stop as int,
                ));
                assert forall|x: usize| x < DIM implies #[trigger] lane_sum(blocks@, x)
                    == chunk_vote(
                    data@,
                    bs as int,
                    config.base_shift as int,
                    nbt,
                    gshift,
                    i + 1,
                    x,
                ) by {
                    assert(lane_sum(blocks@, x) == lane_sum(oldblocks, x) + bvec.lane(x));
                    assert(bvec.lane(x) == block_lane(
                        data@.subrange(start as int, stop as int),
                        sh as int,
                        x,
                    ));
                }
            }
        }
        let r = SparseVec::bundle_sum_many(blocks.as_slice());
        proof {
            assert forall|x: usize| x < DIM implies (r.pos@.contains(x) <==> chunk_vote(
                data@,
                bs as int,
                config.base_shift as int,
                nbt,
                gshift,
                nbt,
                x,
            ) > 0) && (r.neg@.contains(x) <==> chunk_vote(
                data@,
                bs as int,
                config.base_shift as int,
                nbt,
                gshift,
                nbt,
                x,
            ) < 0) by {
                assert(lane_sum(blocks@, x) == chunk_vote(
                    data@,
                    bs as int,
                    config.base_shift as int,
                    nbt,
                    gshift,
                    nb as int,
                    x,
                ));
            }
        }
        r
    }

    /// The raw inverse of the encoding: for each byte position, scan the
    /// 128 candidate lanes and take the first hit, positive before
    /// negative at equal offsets. Positions with no hit decode to zero.
    /// The raw inverse is lossy; a correction record restores exactness.
    pub fn decode_data(
        &self,
        config: &ReversibleVSAConfig,
        path: Option<&str>,
        expected_size: usize,
    ) -> (r: Vec<u8>)
        requires
            self.wf(),
            config.wf(),
            expected_size + config.block_size < usize::MAX,
        ensures
            r@.len() == expected_size,
            forall|j: int|
                0 <= j < expected_size ==> r@[j] == decoded_byte(
                    *self,
                    block_shift_mod(
                        spec_path_shift(opt_path_bytes(path), *config),
                        config.base_shift as int,
                        num_blocks_of(expected_size as int, config.block_size as int),
                        j / (config.block_size as int),
                    ),
                    j % (config.block_size as int),
                ),
    {
        let ghost gshift = spec_path_shift(opt_path_bytes(path), *config);
        let bs = config.block_size;
        let mut r: Vec<u8> = Vec::new();
        if expected_size == 0 {
            return r;
        }
        let pshift: u128 = path_shift_exec(path, config);
        let nb = (expected_size + bs - 1) / bs;
        let ghost nbt = num_blocks_of(expected_size as int, bs as int);
        assert(nb as int == nbt);
        assert(nb >= 1) by {
            vstd::arithmetic::div_mod::lemma_div_is_ordered(
                bs as int,
                (expected_size + bs - 1) as int,
                bs as int,
            );
            vstd::arithmetic::div_mod::lemma_div_by_self(bs as int);
        }
        for j in 0..expected_size
            invariant
                bs == config.block_size,
                bs >= 1,
                expected_size >= 1,
                expected_size + bs < usize::MAX,
                nb as int == nbt,
                nbt == num_blocks_of(expected_size as int, bs as int),
                pshift as int % (DIM as int) == gshift % (DIM as int),
                self.wf(),
                r@.len() == j,
                forall|k: int|
                    0 <= k < j ==> r@[k] == decoded_byte(
                        *self,
                        block_shift_mod(gshift, config.base_shift as int, nbt, k / (bs as int)),
                        k % (bs as int),
                    ),
        {
            let bi = j / bs;
            let jj = j % bs;
            proof {
                assert(bi < nb) by {
                    vstd::arithmetic::div_mod::lemma_div_is_ordered(
                        j as int,
                        (expected_size - 1) as int,
                        bs as int,
                    );
                    vstd::arithmetic::div_mod::lemma_div_plus_one(
                        (expected_size - 1) as int,
                        bs as int,
                    );
                }
                vstd::arithmetic::div_mod::lemma_remainder_lower(j as int, bs as int);
                vstd::arithmetic::div_mod::lemma_remainder_upper(j as int, bs as int);
                vstd::arithmetic::div_mod::lemma_div_pos_is_pos(j as int, bs as int);
                assert(bi as int <= j as int) by {
                    vstd::arithmetic::div_mod::lemma_div_nonincreasing(j as int, bs as int);
                }
                vstd::arithmetic::div_mod::lemma_mod_bound(j as int, bs as int);
            }
            let sh: usize = block_shift_exec(pshift, config.base_shift, nb, bi);
            proof {
                lemma_block_shift_agree(
                    pshift as int,
                    gshift,
                    config.base_shift as int,
                    nb as int,
                    bi as int,
                );
            }
            let byte = decode_byte_at(self, sh, jj);
            r.push(byte);
        }
        r
    }
}

/// The byte that the raw inverse reads at sub-block position `jj` under
/// shift `sh`: the scan from offset zero.
pub open spec fn decoded_byte(v: SparseVec, sh: int, jj: int) -> u8 {
    scan_from(v, sh, jj, 0)
}

/// The first offset at or after `o` whose lane is set decides the byte:
/// a positive lane at offset `o` reads as byte `o`, a negative one as
/// `o + 128`; offsets past 127 read as zero.
pub open spec fn scan_from(v: SparseVec, sh: int, jj: int, o: int) -> u8
    decreases 128 - o,
{
    if o < 0 || o >= 128 {
        0
    } else if v.pos@.contains(mix_lane(jj, o, sh)) {
        o as u8
    } else if v.neg@.contains(mix_lane(jj, o, sh)) {
        (o + 128) as u8
    } else {
        scan_from(v, sh, jj, o + 1)
    }
}

/// Skipping a prefix of offsets with no hit does not change the scan.
proof fn lemma_scan_skip(v: SparseVec, sh: int, jj: int, o: int)
    requires
        0 <= o <= 128,
        forall|t: int|
            0 <= t < o ==> !v.pos@.contains(#[trigger] mix_lane(jj, t, sh)) && !v.neg@.contains(
                mix_lane(jj, t, sh),
            ),
    ensures
        scan_from(v, sh, jj, 0) == scan_from(v, sh, jj, o),
    decreases o,
{
    if o > 0 {
        lemma_scan_skip(v, sh, jj, o - 1);
    }
}

/// One byte of the raw inverse.
fn decode_byte_at(v: &SparseVec, sh: usize, jj: usize) -> (b: u8)
    requires
        v.wf(),
        sh < DIM,
    ensures
        b == decoded_byte(*v, sh as int, jj as int),
{
    for o in 0..128usize
        invariant
            v.wf(),
            sh < DIM,
            forall|t: int|
                0 <= t < o ==> !v.pos@.contains(#[trigger] mix_lane(jj as int, t, sh as int))
                    && !v.neg@.contains(mix_lane(jj as int, t, sh as int)),
    {
        let lane = mix_lane_exec(jj, o, sh);
        if crate::sparse::SparseVec::contains_pos(v, lane) {
            proof {
                lemma_scan_skip(*v, sh as int, jj as int, o as int);
            }
            return o as u8;
        }
        if crate::sparse::SparseVec::contains_neg(v, lane) {
            proof {
                lemma_scan_skip(*v, sh as int, jj as int, o as int);
            }
            return (o + 128) as u8;
        }
    }
    proof {
        lemma_scan_skip(*v, sh as int, jj as int, 128);
    }
    0
}

/// The lane a position-and-value pair votes for, computed without
/// overflow.
fn mix_lane_exec(j: usize, v: usize, sh: usize) -> (r: usize)
    ensures
        r == mix_lane(j as int, v as int, sh as int),
        r < DIM,
{
    proof {
        vstd::arithmetic::div_mod::lemma_mod_bound(
            (j as int) + (sh as int) + (v as int),
            DIM as int,
        );
    }
    ((j as u128 + sh as u128 + v as u128) % (DIM as u128)) as usize
}

/// The chunk shift as executable arithmetic; equal to the mathematical
/// path shift.
fn path_shift_exec(path: Option<&str>, config: &ReversibleVSAConfig) -> (r: u128)
    requires
        config.wf(),
    ensures
        r as int == spec_path_shift(opt_path_bytes(path), *config),
{
    match path {
        None => 0,
        Some(p) => {
            let digest = sha256_digest(p.as_bytes());
            let h: u64 = digest[0] as u64 + 256 * (digest[1] as u64) + 65536 * (digest[2] as u64)
                + 16777216 * (digest[3] as u64);
            let reduced: u64 = h % (config.max_path_depth as u64);
            proof {
                vstd::arithmetic::mul::lemma_mul_upper_bound(
                    reduced as int,
                    0xffff_ffff_ffff_ffff,
                    config.base_shift as int,
                    0xffff_ffff_ffff_ffff,
                );
            }
            (reduced as u128) * (config.base_shift as u128)
        },
    }
}

/// The per-sub-block shift, reduced into the lane space; equal to the
/// mathematical block shift whenever the chunk shifts agree modulo the
/// dimension.
fn block_shift_exec(pshift: u128, base: usize, nb: usize, i: usize) -> (r: usize)
    requires
        nb >= 1,
        i < nb,
    ensures
        r as int == ((pshift as int) + ((i as int) * (base as int)) / (nb as int)) % (DIM as int),
        r < DIM,
{
    proof {
        assert((i as int) * (base as int) >= 0) by (nonlinear_arith)
            requires
                i >= 0,
                base >= 0,
        ;
        vstd::arithmetic::div_mod::lemma_div_pos_is_pos((i as int) * (base as int), nb as int);
        vstd::arithmetic::mul::lemma_mul_upper_bound(
            i as int,
            0xffff_ffff_ffff_ffff,
            base as int,
            0xffff_ffff_ffff_ffff,
        );
        vstd::arithmetic::div_mod::lemma_div_nonincreasing((i as int) * (base as int), nb as int);
        vstd::arithmetic::div_mod::lemma_mod_bound(
            (pshift as int) + ((i as int) * (base as int)) / (nb as int),
            DIM as int,
        );
    }
    let step: u128 = ((i as u128) * (base as u128)) / (nb as u128);
    let pm: u128 = pshift % (DIM as u128);
    let sm: u128 = step % (DIM as u128);
    proof {
        vstd::arithmetic::div_mod::lemma_add_mod_noop(pshift as int, step as int, DIM as int);
        vstd::arithmetic::div_mod::lemma_mod_bound(pshift as int, DIM as int);
        vstd::arithmetic::div_mod::lemma_mod_bound(step as int, DIM as int);
    }
    ((pm + sm) % (DIM as u128)) as usize
}

/// Two chunk shifts that agree modulo the dimension give the same reduced
/// block shift.
proof fn lemma_block_shift_agree(p1: int, p2: int, base: int, nb: int, i: int)
    requires
        nb >= 1,
        0 <= i,
        p1 % (DIM as int) == p2 % (DIM as int),
    ensures
        (p1 + (i * base) / nb) % (DIM as int) == block_shift_mod(p2, base, nb, i),
{
    let d = DIM as int;
    let step = (i * base) / nb;
    vstd::arithmetic::div_mod::lemma_add_mod_noop(p1, step, d);
    vstd::arithmetic::div_mod::lemma_add_mod_noop(p2, step, d);
    assert((p1 + step) % d == ((p1 % d) + (step % d)) % d);
    assert((p2 + step) % d == ((p2 % d) + (step % d)) % d);
}

/// Start and stop of sub-block `i` lie within the data and the block is
/// non-empty.
proof fn lemma_block_bounds(len: int, bs: int, i: int)
    requires
        bs >= 1,
        len >= 1,
        0 <= i < num_blocks_of(len, bs),
    ensures
        i * bs < len,
        i * bs >= 0,
        (i + 1) * bs > i * bs,
{
    let nb = num_blocks_of(len, bs);
    assert(i * bs >= 0) by (nonlinear_arith)
        requires
            i >= 0,
            bs >= 1,
    ;
    assert((i + 1) * bs > i * bs) by (nonlinear_arith)
        requires
            bs >= 1,
    ;
    assert(i * bs < len) by {
        // i <= nb - 1 and nb = ceil(len / bs), so i * bs <= (nb - 1) * bs < len.
        assert(nb == (len + bs - 1) / bs);
        assert((nb - 1) * bs <= len - 1) by {
            vstd::arithmetic::div_mod::lemma_fundamental_div_mod(len + bs - 1, bs);
            let q = (len + bs - 1) / bs;
            let rr = (len + bs - 1) % bs;
            vstd::arithmetic::div_mod::lemma_mod_bound(len + bs - 1, bs);
            assert(len + bs - 1 == q * bs + rr);
            assert((q - 1) * bs == q * bs - bs) by (nonlinear_arith);
            assert(q * bs <= len + bs - 1);
        }
        assert(i * bs <= (nb - 1) * bs) by (nonlinear_arith)
            requires
                i <= nb - 1,
                bs >= 1,
        ;
    }
}

/// Encode one sub-block `data[start..stop]` under shift `sh`: mark the
/// lane each byte votes for, then keep the lanes with unopposed votes.
fn encode_block(data: &[u8], start: usize, stop: usize, sh: usize) -> (r: SparseVec)
    requires
        start < stop <= data@.len(),
        sh < DIM,
    ensures
        r.wf(),
        forall|x: usize|
            x < DIM ==> r.lane(x) == block_lane(
                data@.subrange(start as int, stop as int),
                sh as int,
                x,
            ),
{
    let ghost sb = data@.subrange(start as int, stop as int);
    let mut pos_mark: Vec<bool> = Vec::new();
    let mut neg_mark: Vec<bool> = Vec::new();
    for d in 0..DIM
        invariant
            pos_mark@.len() == d,
            neg_mark@.len() == d,
            forall|k: int| 0 <= k < d ==> !(#[trigger] pos_mark@[k]),
            forall|k: int| 0 <= k < d ==> !(#[trigger] neg_mark@[k]),
    {
        pos_mark.push(false);
        neg_mark.push(false);
    }
    let n = stop - start;
    proof {
        assert(sb.len() == n);
        assert forall|x: usize| x < DIM implies !block_pos_hit(sb.take(0), sh as int, x)
            && !block_neg_hit(sb.take(0), sh as int, x) by {
            assert(sb.take(0).len() == 0);
        }
    }
    for j in 0..n
        invariant
            start < stop <= data@.len(),
            n == stop - start,
            sh < DIM,
            sb == data@.subrange(start as int, stop as int),
            pos_mark@.len() == DIM,
            neg_mark@.len() == DIM,
            forall|x: usize|
                x < DIM ==> (#[trigger] pos_mark@[x as int] == block_pos_hit(
                    sb.take(j as int),
                    sh as int,
                    x,
                )),
            forall|x: usize|
                x < DIM ==> (#[trigger] neg_mark@[x as int] == block_neg_hit(
                    sb.take(j as int),
                    sh as int,
                    x,
                )),
    {
        let b = data[start + j];
        assert(b == sb[j as int]);
        let v: usize = (b & 0x7f) as usize;
        proof {
            assert(v == if b < 128 {
                b as int
            } else {
                b - 128
            }) by (bit_vector)
                requires
                    v == (b & 0x7f) as usize,
            ;
        }
        let lane = mix_lane_exec(j, v, sh);
        if b < 128 {
            pos_mark.set(lane, true);
        } else {
            neg_mark.set(lane, true);
        }
        proof {
            lemma_hit_take_succ(sb, sh as int, j as int);
        }
    }
    proof {
        assert(sb.take(n as int) =~= sb);
    }
    // Keep lanes whose votes are unopposed.
    let mut pos: Vec<usize> = Vec::new();
    let mut neg: Vec<usize> = Vec::new();
    for d in 0..DIM
        invariant
            pos_mark@.len() == DIM,
            neg_mark@.len() == DIM,
            forall|x: usize|
                x < DIM ==> (#[trigger] pos_mark@[x as int] == block_pos_hit(sb, sh as int, x)),
            forall|x: usize|
                x < DIM ==> (#[trigger] neg_mark@[x as int] == block_neg_hit(sb, sh as int, x)),
            sorted_strict(pos@),
            sorted_strict(neg@),
            forall|k: int| 0 <= k < pos@.len() ==> #[trigger] pos@[k] < d,
            forall|k: int| 0 <= k < neg@.len() ==> #[trigger] neg@[k] < d,
            forall|x: usize|
                x < d ==> (pos@.contains(x) <==> (block_pos_hit(sb, sh as int, x)
                    && !block_neg_hit(sb, sh as int, x))),
            forall|x: usize|
                x < d ==> (neg@.contains(x) <==> (block_neg_hit(sb, sh as int, x)
                    && !block_pos_hit(sb, sh as int, x))),
            forall|x: usize| pos@.contains(x) ==> x < d,
            forall|x: usize| neg@.contains(x) ==> x < d,
    {
        let ghost ppos = pos@;
        let ghost pneg = neg@;
        let p = pos_mark[d];
        let q = neg_mark[d];
        if p && !q {
            pos.push(d);
            proof {
                assert(forall|k: int| 0 <= k < ppos.len() ==> pos@[k] == ppos[k]);
                assert(pos@.last() == d);
            }
        } else if q && !p {
            neg.push(d);
            proof {
                assert(forall|k: int| 0 <= k < pneg.len() ==> neg@[k] == pneg[k]);
                assert(neg@.last() == d);
            }
        }
    }
    let r = SparseVec { pos, neg };
    proof {
        assert forall|x: usize| !(r.pos@.contains(x) && #[trigger] r.neg@.contains(x)) by {}
        assert forall|i: int| 0 <= i < r.pos@.len() implies r.pos@[i] < DIM by {
            assert(r.pos@.contains(r.pos@[i]));
        }
        assert forall|i: int| 0 <= i < r.neg@.len() implies r.neg@[i] < DIM by {
            assert(r.neg@.contains(r.neg@[i]));
        }
        assert forall|x: usize| x < DIM implies r.lane(x) == block_lane(sb, sh as int, x) by {}
    }
    r
}

/// Extending the scanned prefix of a sub-block by one byte extends the hit
/// sets by exactly that byte's lane.
proof fn lemma_hit_take_succ(sb: Seq<u8>, sh: int, j: int)
    requires
        0 <= j < sb.len(),
    ensures
        forall|x: usize|
            #[trigger] block_pos_hit(sb.take(j + 1), sh, x) <==> (block_pos_hit(sb.take(j), sh, x)
                || (sb[j] < 128 && x == mix_lane(j, sb[j] as int, sh))),
        forall|x: usize|
            #[trigger] block_neg_hit(sb.take(j + 1), sh, x) <==> (block_neg_hit(sb.take(j), sh, x)
                || (sb[j] >= 128 && x == mix_lane(j, sb[j] - 128, sh))),
{
    assert forall|x: usize| #[trigger] block_pos_hit(sb.take(j + 1), sh, x) implies (block_pos_hit(
        sb.take(j),
        sh,
        x,
    ) || (sb[j] < 128 && x == mix_lane(j, sb[j] as int, sh))) by {
        let w = choose|w: int|
            0 <= w < sb.take(j + 1).len() && sb.take(j + 1)[w] < 128 && x == mix_lane(
                w,
                #[trigger] sb.take(j + 1)[w] as int,
                sh,
            );
        if w < j {
            assert(sb.take(j)[w] == sb.take(j + 1)[w]);
            assert(block_pos_hit(sb.take(j), sh, x));
        }
    }
    assert forall|x: usize| (block_pos_hit(sb.take(j), sh, x) || (sb[j] < 128 && x == mix_lane(
        j,
        sb[j] as int,
        sh,
    ))) implies #[trigger] block_pos_hit(sb.take(j + 1), sh, x) by {
        if block_pos_hit(sb.take(j), sh, x) {
            let w = choose|w: int|
                0 <= w < sb.take(j).len() && sb.take(j)[w] < 128 && x == mix_lane(
                    w,
                    #[trigger] sb.take(j)[w] as int,
                    sh,
                );
            assert(sb.take(j + 1)[w] == sb.take(j)[w]);
        } else {
            assert(sb.take(j + 1)[j] == sb[j]);
        }
    }
    assert forall|x: usize| #[trigger] block_neg_hit(sb.take(j + 1), sh, x) implies (block_neg_hit(
        sb.take(j),
        sh,
        x,
    ) || (sb[j] >= 128 && x == mix_lane(j, sb[j] - 128, sh))) by {
        let w = choose|w: int|
            0 <= w < sb.take(j + 1).len() && sb.take(j + 1)[w] >= 128 && x == mix_lane(
                w,
                #[trigger] sb.take(j + 1)[w] - 128,
                sh,
            );
        if w < j {
            assert(sb.take(j)[w] == sb.take(j + 1)[w]);
            assert(block_neg_hit(sb.take(j), sh, x));
        }
    }
    assert forall|x: usize| (block_neg_hit(sb.take(j), sh, x) || (sb[j] >= 128 && x == mix_lane(
        j,
        sb[j] - 128,
        sh,
    ))) implies #[trigger] block_neg_hit(sb.take(j + 1), sh, x) by {
        if block_neg_hit(sb.take(j), sh, x) {
            let w = choose|w: int|
                0 <= w < sb.take(j).len() && sb.take(j)[w] >= 128 && x == mix_lane(
                    w,
                    #[trigger] sb.take(j)[w] - 128,
                    sh,
                );
            assert(sb.take(j + 1)[w] == sb.take(j)[w]);
        } else {
            assert(sb.take(j + 1)[j] == sb[j]);
        }
    }
}

} // verus!
