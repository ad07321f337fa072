//! The retrieval seam between a runtime and the vector substrate: a
//! store abstraction keyed by chunk id, a candidate-generation seam, and
//! exact-cosine reranking of candidate ids.
//!
//! Cosines are compared exactly over integers: for one query, the cosine
//! order of two candidates is decided by the sign of their dot products
//! and the cross-multiplied squares, with ties broken by ascending id, so
//! no floating point enters the ranking.

use std::collections::HashMap;
use vstd::prelude::*;
use vstd::string::StringExecFns;

use crate::sparse::{count_in, SparseVec};

verus! {

broadcast use vstd::std_specs::hash::group_hash_axioms;

/// Why a retrieval call failed.
#[derive(Clone, Copy, Debug, PartialEq, Eq, Structural)]
pub enum KernelInteropError {
    /// The store holds no vector for this id.
    MissingVector(usize),
}

impl KernelInteropError {
    /// A short description of the failure.
    pub fn message(&self) -> (r: String)
        ensures
            r@ == "missing vector for id"@,
    {
        match self {
            KernelInteropError::MissingVector(_) => "missing vector for id".to_owned(),
        }
    }
}

/// A store of sparse vectors by chunk id.
pub trait VectorStore {
    /// What the store holds under an id.
    spec fn spec_get(&self, id: usize) -> Option<SparseVec>;

    /// Every stored vector is well formed.
    spec fn all_wf(&self) -> bool;

    /// Fetch the vector under an id, if any.
    fn get_vector(&self, id: usize) -> (r: Option<&SparseVec>)
        ensures
            match r {
                Some(v) => self.spec_get(id) == Some(*v),
                None => self.spec_get(id) is None,
            },
    ;
}

impl VectorStore for HashMap<usize, SparseVec> {
    open spec fn spec_get(&self, id: usize) -> Option<SparseVec> {
        if self@.contains_key(id) {
            Some(self@[id])
        } else {
            None
        }
    }

    open spec fn all_wf(&self) -> bool {
        forall|id: usize| self@.contains_key(id) ==> (#[trigger] self@[id]).wf()
    }

    fn get_vector(&self, id: usize) -> (r: Option<&SparseVec>)
        ensures
            match r {
                Some(v) => self.spec_get(id) == Some(*v),
                None => self.spec_get(id) is None,
            },
    {
        self.get(&id)
    }
}

/// A source of candidate chunk ids for a query, to be reranked exactly.
pub trait CandidateGenerator {
    /// Candidate chunk ids for a query, best guesses first.
    fn candidates(&self, query: &SparseVec, k: usize) -> Vec<usize>;
}

/// The default backend over sparse vectors.
#[derive(Clone, Copy, Debug, PartialEq, Eq, Structural)]
pub struct SparseVecBackend;

impl SparseVecBackend {
    /// The zero vector of the backend.
    pub fn zero(&self) -> (r: SparseVec)
        ensures
            r.wf(),
            r.spec_nnz() == 0,
    {
        SparseVec::new()
    }

    /// The conflict-cancel bundle of the backend.
    pub fn bundle(&self, a: &SparseVec, b: &SparseVec) -> (r: SparseVec)
        requires
            a.wf(),
            b.wf(),
        ensures
            r.is_bundle_of(*a, *b),
    {
        a.bundle(b)
    }

    /// The lane-wise bind of the backend.
    pub fn bind(&self, a: &SparseVec, b: &SparseVec) -> (r: SparseVec)
        requires
            a.wf(),
            b.wf(),
        ensures
            r.is_bind_of(*a, *b),
    {
        a.bind(b)
    }

    /// The backend's encoder: the path-keyed block encoding of the bytes.
    pub fn encode_data(
        &self,
        data: &[u8],
        config: &crate::encoder::ReversibleVSAConfig,
        path: Option<&str>,
    ) -> (r: SparseVec)
        requires
            config.wf(),
            data@.len() + config.block_size < usize::MAX,
        ensures
            r.is_encoding_of(
                data@,
                *config,
                crate::encoder::spec_path_shift(crate::encoder::opt_path_bytes(path), *config),
            ),
            data@.len() == 0 ==> r.spec_nnz() == 0,
    {
        SparseVec::encode_data(data, config, path)
    }

    /// The backend's raw decoder: each byte is the offset scan of its
    /// block, to be made exact by a correction record.
    pub fn decode_data(
        &self,
        vec: &SparseVec,
        config: &crate::encoder::ReversibleVSAConfig,
        path: Option<&str>,
        expected_size: usize,
    ) -> (r: Vec<u8>)
        requires
            vec.wf(),
            config.wf(),
            expected_size + config.block_size < usize::MAX,
        ensures
            r@.len() == expected_size,
            forall|j: int|
                0 <= j < expected_size ==> r@[j] == crate::encoder::decoded_byte(
                    *vec,
                    crate::encoder::block_shift_mod(
                        crate::encoder::spec_path_shift(
                            crate::encoder::opt_path_bytes(path),
                            *config,
                        ),
                        config.base_shift as int,
                        crate::encoder::num_blocks_of(
                            expected_size as int,
                            config.block_size as int,
                        ),
                        j / (config.block_size as int),
                    ),
                    j % (config.block_size as int),
                ),
    {
        vec.decode_data(config, path, expected_size)
    }
}

/// One reranked candidate: its id, its exact dot product against the
/// query, and its non-zero lane count. The cosine is
/// `dot / √(nnz·nnz(query))`.
#[derive(Clone, Copy, Debug, PartialEq, Eq, Structural)]
pub struct RerankedResult {
    /// The candidate chunk id.
    pub id: usize,
    /// The exact ternary dot product against the query.
    pub dot: i64,
    /// The candidate's non-zero lane count.
    pub nnz: usize,
}

/// The exact dot product of a query and a stored vector, as the sparse
/// intersection counts.
pub open spec fn spec_dot(q: SparseVec, v: SparseVec) -> int {
    count_in(q.pos@, v.pos@) + count_in(q.neg@, v.neg@) - count_in(q.pos@, v.neg@) - count_in(
        q.neg@,
        v.pos@,
    )
}

/// The reranked record a given store and query owe a candidate id: the
/// id itself, its exact dot product against the query and its non-zero
/// lane count.
pub open spec fn spec_result<S: VectorStore>(store: S, query: SparseVec, id: usize) -> RerankedResult {
    RerankedResult {
        id,
        dot: spec_dot(query, store.spec_get(id)->0) as i64,
        nnz: store.spec_get(id)->0.spec_nnz() as usize,
    }
}

/// The reranked records a store and query owe a whole candidate list,
/// in candidate order.
pub open spec fn spec_results<S: VectorStore>(store: S, query: SparseVec, ids: Seq<usize>) -> Seq<
    RerankedResult,
> {
    ids.map_values(|id: usize| spec_result(store, query, id))
}

/// Whether candidate `a` ranks at least as high as `b` for one query:
/// higher exact cosine first, ties by ascending id. A candidate with no
/// lanes has cosine zero.
pub open spec fn ranks_before(a: RerankedResult, b: RerankedResult) -> bool {
    let ca = if a.nnz == 0 {
        0int
    } else {
        a.dot as int
    };
    let cb = if b.nnz == 0 {
        0int
    } else {
        b.dot as int
    };
    if ca >= 0 && cb < 0 {
        true
    } else if ca < 0 && cb >= 0 {
        false
    } else if ca >= 0 && cb >= 0 {
        // ca/√na >= cb/√nb  <=>  ca²·nb >= cb²·na  (for positive nnz;
        // zero-lane candidates compare as cosine zero).
        let na = if a.nnz == 0 {
            1int
        } else {
            a.nnz as int
        };
        let nb = if b.nnz == 0 {
            1int
        } else {
            b.nnz as int
        };
        if ca * ca * nb > cb * cb * na {
            true
        } else if ca * ca * nb < cb * cb * na {
            false
        } else {
            a.id <= b.id
        }
    } else {
        let na = if a.nnz == 0 {
            1int
        } else {
            a.nnz as int
        };
        let nb = if b.nnz == 0 {
            1int
        } else {
            b.nnz as int
        };
        if ca * ca * nb < cb * cb * na {
            true
        } else if ca * ca * nb > cb * cb * na {
            false
        } else {
            a.id <= b.id
        }
    }
}

/// The exec rank comparison, exactly the spec order.
fn ranks_before_exec(a: &RerankedResult, b: &RerankedResult) -> (r: bool)
    requires
        -20000 <= a.dot <= 20000,
        -20000 <= b.dot <= 20000,
        a.nnz <= 20000,
        b.nnz <= 20000,
    ensures
        r == ranks_before(*a, *b),
{
    let ca: i128 = if a.nnz == 0 {
        0
    } else {
        a.dot as i128
    };
    let cb: i128 = if b.nnz == 0 {
        0
    } else {
        b.dot as i128
    };
    if ca >= 0 && cb < 0 {
        true
    } else if ca < 0 && cb >= 0 {
        false
    } else {
        let na: i128 = if a.nnz == 0 {
            1
        } else {
            a.nnz as i128
        };
        let nb: i128 = if b.nnz == 0 {
            1
        } else {
            b.nnz as i128
        };
        proof {
            assert(-20000 <= ca <= 20000 && -20000 <= cb <= 20000 && 1 <= na <= 20000 && 1 <= nb
                <= 20000);
            assert(ca * ca <= 20000 * 20000 && ca * ca >= 0 && cb * cb <= 20000 * 20000 && cb
                * cb >= 0 && ca * ca * nb <= 20000 * 20000 * 20000 && ca * ca * nb >= 0 && cb * cb
                * na <= 20000 * 20000 * 20000 && cb * cb * na >= 0) by (nonlinear_arith)
                requires
                    -20000 <= ca <= 20000,
                    -20000 <= cb <= 20000,
                    1 <= na <= 20000,
                    1 <= nb <= 20000,
            ;
        }
        let lhs = ca * ca * nb;
        let rhs = cb * cb * na;
        if ca >= 0 && cb >= 0 {
            if lhs > rhs {
                true
            } else if lhs < rhs {
                false
            } else {
                a.id <= b.id
            }
        } else {
            if lhs < rhs {
                true
            } else if lhs > rhs {
                false
            } else {
                a.id <= b.id
            }
        }
    }
}

/// Rerank candidate ids by exact cosine against the query, best first,
/// ties by ascending id, cut to the top `k`. A missing id is a typed
/// error, never a silent drop.
pub fn rerank_top_k_by_cosine<S: VectorStore>(
    store: &S,
    query: &SparseVec,
    candidate_ids: &Vec<usize>,
    k: usize,
) -> (r: Result<Vec<RerankedResult>, KernelInteropError>)
    requires
        query.wf(),
        forall|id: usize|
            (#[trigger] store.spec_get(id)) is Some ==> store.spec_get(id)->0.wf(),
    ensures
        k == 0 ==> r is Ok,
        (forall|m: int|
            0 <= m < candidate_ids@.len() ==> store.spec_get(#[trigger] candidate_ids@[m])
                is Some) ==> r is Ok,
        r is Ok ==> {
            &&& r->Ok_0@.len() == if k <= candidate_ids@.len() {
                k as int
            } else {
                candidate_ids@.len() as int
            }
            &&& forall|m: int|
                0 <= m < r->Ok_0@.len() ==> {
                    let rr = #[trigger] r->Ok_0@[m];
                    &&& store.spec_get(rr.id) is Some
                    &&& rr.dot as int == spec_dot(*query, store.spec_get(rr.id)->0)
                    &&& rr.nnz as int == store.spec_get(rr.id)->0.spec_nnz()
                }
            &&& forall|m: int|
                0 <= m < r->Ok_0@.len() - 1 ==> ranks_before(
                    #[trigger] r->Ok_0@[m],
                    r->Ok_0@[m + 1],
                )
        },
        k > 0 && r is Ok ==> exists|full: Seq<RerankedResult>|
            {
                &&& (#[trigger] full.to_multiset()) == spec_results(
                    *store,
                    *query,
                    candidate_ids@,
                ).to_multiset()
                &&& forall|m: int|
                    0 <= m < full.len() - 1 ==> ranks_before(#[trigger] full[m], full[m + 1])
                &&& r->Ok_0@ == full.take(
                    if k <= full.len() {
                        k as int
                    } else {
                        full.len() as int
                    },
                )
            },
        r matches Err(KernelInteropError::MissingVector(id)) ==> candidate_ids@.contains(id)
            && store.spec_get(id) is None,
    {
        if k == 0 {
            return Ok(Vec::new());
        }
        let mut scored: Vec<RerankedResult> = Vec::new();
        let n = candidate_ids.len();
        proof {
            assert(scored@ =~= spec_results(*store, *query, candidate_ids@.take(0)));
        }
        for i in 0..n
            invariant
                1 <= k,
                query.wf(),
                n == candidate_ids@.len(),
                forall|id: usize|
                    (#[trigger] store.spec_get(id)) is Some ==> store.spec_get(id)->0.wf(),
                forall|m: int|
                    0 <= m < scored@.len() ==> {
                        let rr = #[trigger] scored@[m];
                        &&& store.spec_get(rr.id) is Some
                        &&& rr.dot as int == spec_dot(*query, store.spec_get(rr.id)->0)
                        &&& rr.nnz as int == store.spec_get(rr.id)->0.spec_nnz()
                        &&& -20000 <= rr.dot <= 20000
                        &&& rr.nnz <= 20000
                    },
                scored@.len() == i,
                scored@.to_multiset() == spec_results(
                    *store,
                    *query,
                    candidate_ids@.take(i as int),
                ).to_multiset(),
                forall|m: int|
                    0 <= m < scored@.len() - 1 ==> ranks_before(
                        #[trigger] scored@[m],
                        scored@[m + 1],
                    ),
        {
            let id = candidate_ids[i];
            let v = match store.get_vector(id) {
                Some(v) => v,
                None => {
                    proof {
                        assert(candidate_ids@.contains(candidate_ids@[i as int]));
                        assert(store.spec_get(candidate_ids@[i as int]) is None);
                    }
                    return Err(KernelInteropError::MissingVector(id));
                },
            };
            let d = query.dot(v);
            let nn = v.nnz();
            proof {
                crate::sparse::lemma_count_in_bound(query.pos@, v.pos@);
                crate::sparse::lemma_count_in_bound(query.neg@, v.neg@);
                crate::sparse::lemma_count_in_bound(query.pos@, v.neg@);
                crate::sparse::lemma_count_in_bound(query.neg@, v.pos@);
                crate::sparse::lemma_sorted_strict_len_bound(
                    query.pos@,
                    crate::sparse::DIM as int,
                );
                crate::sparse::lemma_sorted_strict_len_bound(
                    query.neg@,
                    crate::sparse::DIM as int,
                );
            }
            let rr = RerankedResult { id, dot: d, nnz: nn };
            proof {
                assert(rr == spec_result(*store, *query, id));
            }
            insert_ranked(&mut scored, rr);
            proof {
                broadcast use vstd::seq_lib::to_multiset_build;

                assert(spec_results(*store, *query, candidate_ids@.take(i as int + 1))
                    =~= spec_results(*store, *query, candidate_ids@.take(i as int)).push(rr));
                assert(scored@.to_multiset() == spec_results(
                    *store,
                    *query,
                    candidate_ids@.take(i as int + 1),
                ).to_multiset());
            }
        }
        proof {
            assert(candidate_ids@.take(n as int) =~= candidate_ids@);
        }
        // Keep the best k.
        let mut out: Vec<RerankedResult> = Vec::new();
        let keep = if k <= scored.len() {
            k
        } else {
            scored.len()
        };
        for m in 0..keep
            invariant
                keep <= scored@.len(),
                keep == if k <= scored@.len() {
                    k as int
                } else {
                    scored@.len() as int
                },
                scored@.to_multiset() == spec_results(*store, *query, candidate_ids@).to_multiset(),
                out@ == scored@.take(m as int),
                forall|m2: int|
                    0 <= m2 < scored@.len() ==> {
                        let rr = #[trigger] scored@[m2];
                        &&& store.spec_get(rr.id) is Some
                        &&& rr.dot as int == spec_dot(*query, store.spec_get(rr.id)->0)
                        &&& rr.nnz as int == store.spec_get(rr.id)->0.spec_nnz()
                    },
                forall|m2: int|
                    0 <= m2 < scored@.len() - 1 ==> ranks_before(
                        #[trigger] scored@[m2],
                        scored@[m2 + 1],
                    ),
        {
            out.push(scored[m]);
            proof {
                assert(out@ =~= scored@.take(m + 1));
            }
        }
        proof {
            let full = scored@;
            assert(out@ == full.take(
                if k <= full.len() {
                    k as int
                } else {
                    full.len() as int
                },
            ));
        }
        Ok(out)
    }

/// Insert a result into a ranked list, keeping adjacent pairs in rank
/// order.
fn insert_ranked(list: &mut Vec<RerankedResult>, rr: RerankedResult)
    requires
        -20000 <= rr.dot <= 20000,
        rr.nnz <= 20000,
        forall|m: int|
            0 <= m < old(list)@.len() ==> -20000 <= (#[trigger] old(list)@[m]).dot <= 20000
                && old(list)@[m].nnz <= 20000,
        forall|m: int|
            0 <= m < old(list)@.len() - 1 ==> ranks_before(
                #[trigger] old(list)@[m],
                old(list)@[m + 1],
            ),
    ensures
        final(list)@.len() == old(list)@.len() + 1,
        final(list)@.to_multiset() == old(list)@.to_multiset().insert(rr),
        forall|m: int|
            0 <= m < final(list)@.len() ==> exists|m0: int|
                (0 <= m0 < old(list)@.len() && #[trigger] final(list)@[m] == old(list)@[m0]) || (
                final(list)@[m] == rr),
        forall|m: int|
            0 <= m < final(list)@.len() - 1 ==> ranks_before(
                #[trigger] final(list)@[m],
                final(list)@[m + 1],
            ),
        forall|m: int|
            0 <= m < final(list)@.len() ==> -20000 <= (#[trigger] final(list)@[m]).dot <= 20000
                && final(list)@[m].nnz <= 20000,
{
    let n = list.len();
    let mut p: usize = 0;
    while p < n && !ranks_before_exec(&rr, &list[p])
        invariant
            n == list@.len(),
            p <= n,
            -20000 <= rr.dot <= 20000,
            rr.nnz <= 20000,
            forall|m: int|
                0 <= m < list@.len() ==> -20000 <= (#[trigger] list@[m]).dot <= 20000
                    && list@[m].nnz <= 20000,
            forall|m: int|
                0 <= m < list@.len() - 1 ==> ranks_before(#[trigger] list@[m], list@[m + 1]),
            forall|m: int| 0 <= m < p ==> !ranks_before(rr, #[trigger] list@[m]),
        decreases n - p,
    {
        p = p + 1;
    }
    let ghost prev = list@;
    list.insert(p, rr);
    proof {
        broadcast use vstd::seq_lib::to_multiset_insert;

        assert(list@ == prev.insert(p as int, rr));
        assert(list@.to_multiset() == prev.to_multiset().insert(rr));
        assert(forall|m: int| 0 <= m < p ==> list@[m] == prev[m]);
        assert(list@[p as int] == rr);
        assert(forall|m: int| p < m < list@.len() ==> list@[m] == prev[m - 1]);
        assert forall|m: int|
            0 <= m < list@.len() - 1 implies ranks_before(
            #[trigger] list@[m],
            list@[m + 1],
        ) by {
            if m + 1 < p {
                assert(ranks_before(prev[m], prev[m + 1]));
            } else if m + 1 == p {
                // The element before the insertion point does not rank
                // after the new one, and the order is total.
                assert(!ranks_before(rr, prev[m]));
                lemma_ranks_total(rr, prev[m]);
            } else if m == p {
                if p < prev.len() {
                    assert(ranks_before(rr, prev[p as int]));
                }
            } else {
                assert(ranks_before(prev[m - 1], prev[m]));
            }
        }
        assert forall|m: int|
            0 <= m < list@.len() implies exists|m0: int|
            (0 <= m0 < prev.len() && #[trigger] list@[m] == prev[m0]) || (list@[m] == rr) by {
            if m < p {
                assert(list@[m] == prev[m]);
            } else if m > p {
                assert(list@[m] == prev[m - 1]);
            } else {
                assert(list@[m] == rr);
            }
        }
    }
}

/// The rank order is total: of any two results, one ranks at or before
/// the other.
proof fn lemma_ranks_total(a: RerankedResult, b: RerankedResult)
    ensures
        ranks_before(a, b) || ranks_before(b, a),
{
}

} // verus!
