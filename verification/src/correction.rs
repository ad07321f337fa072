//! The correction store: per-chunk records that make the lossy raw decode
//! exact.
//!
//! On ingest, the encoder decodes each chunk back and compares. A chunk
//! whose raw decode is already exact gets a `Clean` record; a chunk with
//! few diverging bytes gets a sparse `Diff` patch; anything worse gets the
//! original bytes verbatim (`Exact`). Applying the record to the raw decode
//! always restores the original bytes, and a SHA-256 digest stored beside
//! each record lets extraction verify that it did.

use std::collections::HashMap;
use vstd::prelude::*;

use crate::hashing::{sha256_digest, sha256_of};

verus! {

broadcast use vstd::std_specs::hash::group_hash_axioms;

/// How a chunk's raw decode is corrected.
#[derive(Clone, Debug)]
pub enum CorrectionType {
    /// Replace the raw decode with these exact bytes.
    Exact(Vec<u8>),
    /// Substitute single bytes at the given offsets.
    Diff(Vec<(usize, u8)>),
    /// The raw decode is already exact.
    Clean,
}

/// The bytes after applying the first `k` entries of a patch.
pub open spec fn patched(raw: Seq<u8>, patch: Seq<(usize, u8)>, k: int) -> Seq<u8>
    decreases k,
{
    if k <= 0 {
        raw
    } else {
        let p = patched(raw, patch, k - 1);
        if (patch[k - 1].0 as int) < p.len() {
            p.update(patch[k - 1].0 as int, patch[k - 1].1)
        } else {
            p
        }
    }
}

/// The bytes a correction record turns a raw decode into.
pub open spec fn apply_spec(kind: CorrectionType, raw: Seq<u8>) -> Seq<u8> {
    match kind {
        CorrectionType::Exact(b) => b@,
        CorrectionType::Diff(patch) => patched(raw, patch@, patch@.len() as int),
        CorrectionType::Clean => raw,
    }
}

/// A record corrects a raw decode when applying it yields the original
/// bytes.
pub open spec fn is_correction_of(kind: CorrectionType, original: Seq<u8>, raw: Seq<u8>) -> bool {
    apply_spec(kind, raw) == original
}

/// The number of positions in the first `k` where the two byte sequences
/// differ.
pub open spec fn mismatches(a: Seq<u8>, b: Seq<u8>, k: int) -> int
    decreases k,
{
    if k <= 0 {
        0
    } else {
        mismatches(a, b, k - 1) + if a[k - 1] != b[k - 1] {
            1int
        } else {
            0int
        }
    }
}

/// A prefix with no mismatches is equal pointwise.
proof fn lemma_no_mismatch(a: Seq<u8>, b: Seq<u8>, k: int)
    requires
        0 <= k <= a.len(),
        k <= b.len(),
        mismatches(a, b, k) == 0,
    ensures
        forall|j: int| 0 <= j < k ==> a[j] == b[j],
    decreases k,
{
    if k > 0 {
        lemma_mismatch_bounds(a, b, k - 1);
        lemma_no_mismatch(a, b, k - 1);
    }
}

/// The mismatch count is between zero and the prefix length.
proof fn lemma_mismatch_bounds(a: Seq<u8>, b: Seq<u8>, k: int)
    requires
        k >= 0,
    ensures
        0 <= mismatches(a, b, k) <= k,
    decreases k,
{
    if k > 0 {
        lemma_mismatch_bounds(a, b, k - 1);
    }
}

/// The patched result depends only on the patch prefix applied.
proof fn lemma_patched_prefix(raw: Seq<u8>, p1: Seq<(usize, u8)>, p2: Seq<(usize, u8)>, k: int)
    requires
        0 <= k <= p1.len(),
        k <= p2.len(),
        forall|j: int| 0 <= j < k ==> p1[j] == p2[j],
    ensures
        patched(raw, p1, k) == patched(raw, p2, k),
    decreases k,
{
    if k > 0 {
        lemma_patched_prefix(raw, p1, p2, k - 1);
    }
}

/// A copy of a byte vector.
fn clone_bytes(v: &Vec<u8>) -> (r: Vec<u8>)
    ensures
        r@ == v@,
{
    let mut r: Vec<u8> = Vec::new();
    let n = v.len();
    for i in 0..n
        invariant
            n == v@.len(),
            r@ == v@.take(i as int),
    {
        r.push(v[i]);
        proof {
            assert(r@ =~= v@.take(i + 1));
        }
    }
    proof {
        assert(v@.take(n as int) =~= v@);
    }
    r
}

/// A copy of a byte slice.
pub fn bytes_of_slice(v: &[u8]) -> (r: Vec<u8>)
    ensures
        r@ == v@,
{
    let mut r: Vec<u8> = Vec::new();
    let n = v.len();
    for i in 0..n
        invariant
            n == v@.len(),
            r@ == v@.take(i as int),
    {
        r.push(v[i]);
        proof {
            assert(r@ =~= v@.take(i + 1));
        }
    }
    proof {
        assert(v@.take(n as int) =~= v@);
    }
    r
}

/// Whether two byte slices hold the same bytes.
pub fn bytes_equal(a: &[u8], b: &[u8]) -> (r: bool)
    ensures
        r <==> a@ =~= b@,
{
    if a.len() != b.len() {
        return false;
    }
    let n = a.len();
    for i in 0..n
        invariant
            n == a@.len() == b@.len(),
            forall|j: int| 0 <= j < i ==> a@[j] == b@[j],
    {
        if a[i] != b[i] {
            return false;
        }
    }
    true
}

/// Build the correction record for a chunk: `Clean` exactly when the raw
/// decode already matches, a sparse `Diff` when at most a quarter of the
/// bytes diverge, and the exact bytes otherwise. Applying the record to
/// the raw decode restores the original bytes.
pub fn build_correction(original: &[u8], raw: &[u8]) -> (r: CorrectionType)
    requires
        raw@.len() == original@.len(),
    ensures
        is_correction_of(r, original@, raw@),
        (r is Clean) <==> original@ =~= raw@,
{
    let n = original.len();
    let mut cnt: usize = 0;
    for j in 0..n
        invariant
            n == original@.len() == raw@.len(),
            cnt as int == mismatches(original@, raw@, j as int),
            cnt <= j,
    {
        proof {
            lemma_mismatch_bounds(original@, raw@, j as int);
        }
        if original[j] != raw[j] {
            cnt = cnt + 1;
        }
    }
    if cnt == 0 {
        proof {
            lemma_no_mismatch(original@, raw@, n as int);
            assert(original@ =~= raw@);
        }
        return CorrectionType::Clean;
    }
    proof {
        // Some byte differs, so the sequences are not equal.
        assert(!(original@ =~= raw@)) by {
            if original@ =~= raw@ {
                lemma_mismatch_equal_zero(original@, raw@, n as int);
            }
        }
    }
    if cnt <= n / 4 {
        // Sparse divergence: record the diverging bytes only.
        let mut patch: Vec<(usize, u8)> = Vec::new();
        for j in 0..n
            invariant
                n == original@.len() == raw@.len(),
                patched(raw@, patch@, patch@.len() as int).len() == n,
                forall|t: int|
                    0 <= t < j ==> patched(raw@, patch@, patch@.len() as int)[t] == original@[t],
                forall|t: int|
                    j <= t < n ==> patched(raw@, patch@, patch@.len() as int)[t] == raw@[t],
        {
            if original[j] != raw[j] {
                let ghost oldpatch = patch@;
                patch.push((j, original[j]));
                proof {
                    assert(patch@.drop_last() =~= oldpatch);
                    lemma_patched_prefix(raw@, patch@, oldpatch, oldpatch.len() as int);
                    assert(patched(raw@, patch@, patch@.len() as int) == patched(
                        raw@,
                        patch@,
                        patch@.len() - 1,
                    ).update(j as int, original@[j as int]));
                }
            }
        }
        let r = CorrectionType::Diff(patch);
        proof {
            assert(apply_spec(r, raw@) =~= original@);
        }
        return r;
    }
    CorrectionType::Exact(bytes_of_slice(original))
}

/// Equal sequences have no mismatches.
proof fn lemma_mismatch_equal_zero(a: Seq<u8>, b: Seq<u8>, k: int)
    requires
        k >= 0,
        a == b,
    ensures
        mismatches(a, b, k) == 0,
    decreases k,
{
    if k > 0 {
        lemma_mismatch_equal_zero(a, b, k - 1);
    }
}

/// Apply a correction record to a raw decode.
pub fn apply_correction(kind: &CorrectionType, raw: Vec<u8>) -> (r: Vec<u8>)
    ensures
        r@ == apply_spec(*kind, raw@),
{
    match kind {
        CorrectionType::Clean => raw,
        CorrectionType::Exact(b) => clone_bytes(b),
        CorrectionType::Diff(patch) => {
            let mut out = raw;
            let ghost raw0 = out@;
            let np = patch.len();
            for i in 0..np
                invariant
                    np == patch@.len(),
                    out@ == patched(raw0, patch@, i as int),
                    out@.len() == raw0.len(),
            {
                let (off, b) = patch[i];
                if off < out.len() {
                    out.set(off, b);
                }
            }
            out
        },
    }
}

/// One chunk's correction record with the digest of the original bytes.
#[derive(Clone, Debug)]
pub struct ChunkCorrection {
    /// How to fix the raw decode.
    pub kind: CorrectionType,
    /// SHA-256 of the original chunk, for verification on extract.
    pub digest: Vec<u8>,
}

/// Counts of correction records per kind.
#[derive(Clone, Copy, Debug, PartialEq, Eq, Structural)]
pub struct CorrectionStats {
    /// Chunks stored verbatim.
    pub exact: usize,
    /// Chunks patched byte by byte.
    pub diff: usize,
    /// Chunks whose raw decode was already exact.
    pub clean: usize,
}

/// The per-chunk correction records of an engram, keyed by chunk id.
#[derive(Debug)]
pub struct CorrectionStore {
    /// Correction record per chunk id.
    pub entries: HashMap<usize, ChunkCorrection>,
    /// Running counters per correction kind.
    pub counts: CorrectionStats,
}

/// The counter that a correction kind belongs to.
pub open spec fn kind_counts(kind: CorrectionType) -> CorrectionStats {
    match kind {
        CorrectionType::Exact(_) => CorrectionStats { exact: 1, diff: 0, clean: 0 },
        CorrectionType::Diff(_) => CorrectionStats { exact: 0, diff: 1, clean: 0 },
        CorrectionType::Clean => CorrectionStats { exact: 0, diff: 0, clean: 1 },
    }
}

impl CorrectionStore {
    /// The per-kind counters add up to the number of records.
    pub open spec fn wf(self) -> bool {
        self.counts.exact + self.counts.diff + self.counts.clean == self.entries@.len()
    }

    /// The counters this store reports.
    pub open spec fn spec_stats(self) -> CorrectionStats {
        self.counts
    }

    /// An empty store.
    pub fn new() -> (r: CorrectionStore)
        ensures
            r.entries@ == Map::<usize, ChunkCorrection>::empty(),
            r.wf(),
            r.spec_stats() == (CorrectionStats { exact: 0, diff: 0, clean: 0 }),
    {
        let r = CorrectionStore {
            entries: HashMap::new(),
            counts: CorrectionStats { exact: 0, diff: 0, clean: 0 },
        };
        proof {
            assert(r.entries@ =~= Map::<usize, ChunkCorrection>::empty());
            assert(r.entries@.dom() =~= Set::<usize>::empty());
        }
        r
    }

    /// Record the correction for a fresh chunk id, bumping the counter of
    /// the record's kind. Each chunk id carries exactly one record, so an
    /// id is never inserted twice.
    pub fn insert(&mut self, chunk_id: usize, correction: ChunkCorrection)
        requires
            old(self).wf(),
            !old(self).entries@.contains_key(chunk_id),
            old(self).entries@.len() < usize::MAX,
        ensures
            final(self).entries@ == old(self).entries@.insert(chunk_id, correction),
            final(self).wf(),
    {
        proof {
            lemma_counts_bounded(*self);
            broadcast use vstd::set::axiom_set_insert_len;

            assert(old(self).entries@.insert(chunk_id, correction).dom() =~= old(
                self,
            ).entries@.dom().insert(chunk_id));
        }
        let is_exact = match &correction.kind {
            CorrectionType::Exact(_) => true,
            _ => false,
        };
        let is_diff = match &correction.kind {
            CorrectionType::Diff(_) => true,
            _ => false,
        };
        let previous = self.entries.insert(chunk_id, correction);
        if is_exact {
            self.counts.exact = self.counts.exact + 1;
        } else if is_diff {
            self.counts.diff = self.counts.diff + 1;
        } else {
            self.counts.clean = self.counts.clean + 1;
        }
    }

    /// The correction recorded for a chunk, if any.
    pub fn get(&self, chunk_id: usize) -> (r: Option<&ChunkCorrection>)
        ensures
            match r {
                Some(c) => self.entries@.contains_key(chunk_id) && *c == self.entries@[chunk_id],
                None => !self.entries@.contains_key(chunk_id),
            },
    {
        self.entries.get(&chunk_id)
    }

    /// The number of chunks with a record.
    pub fn len(&self) -> (r: usize)
        ensures
            r == self.entries@.len(),
    {
        self.entries.len()
    }

    /// Counts per correction kind, for operational visibility. The store
    /// makes no policy decision from them.
    pub fn stats(&self) -> (r: CorrectionStats)
        requires
            self.wf(),
        ensures
            r == self.spec_stats(),
            r.exact + r.diff + r.clean == self.entries@.len(),
    {
        self.counts
    }
}

/// In a well-formed store, no counter exceeds the number of records.
proof fn lemma_counts_bounded(s: CorrectionStore)
    requires
        s.wf(),
    ensures
        s.counts.exact <= s.entries@.len(),
        s.counts.diff <= s.entries@.len(),
        s.counts.clean <= s.entries@.len(),
{
}

/// Digest verification for extracted chunks.
pub struct ReconstructionVerifier;

impl ReconstructionVerifier {
    /// Whether `bytes` hash to the stored digest.
    pub fn verify(bytes: &[u8], digest: &[u8]) -> (r: bool)
        ensures
            r <==> sha256_of(bytes@) =~= digest@,
    {
        let computed = sha256_digest(bytes);
        bytes_equal(computed.as_slice(), digest)
    }
}

} // verus!
