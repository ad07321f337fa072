//! Sparse ternary vectors: two sorted, disjoint lists of lane indices, one
//! for the +1 lanes and one for the −1 lanes.
//!
//! All algebra is done by merges over the sorted lists. The well-formedness
//! invariant (`SparseVec::wf`) is: both lists strictly increasing, disjoint,
//! and every index below [`DIM`].

use vstd::prelude::*;

verus! {

broadcast use vstd::seq_lib::lemma_seq_contains_after_push;

/// Dimension of the sparse vector lane space.
pub const DIM: usize = 10000;

/// A sequence of indices in strictly increasing order.
pub open spec fn sorted_strict(s: Seq<usize>) -> bool {
    forall|i: int, j: int| 0 <= i < j < s.len() ==> s[i] < s[j]
}

/// How many elements of `a` occur in `b`, counted along `a`.
/// When `a` has no duplicates this is the size of the intersection of the
/// two index sets.
pub open spec fn count_in(a: Seq<usize>, b: Seq<usize>) -> int
    decreases a.len(),
{
    if a.len() == 0 {
        0
    } else {
        count_in(a.drop_last(), b) + if b.contains(a.last()) {
            1int
        } else {
            0int
        }
    }
}

/// Extending a prefix by one element extends its membership by exactly that
/// element.
pub(crate) proof fn lemma_take_succ_contains(s: Seq<usize>, i: int)
    requires
        0 <= i < s.len(),
    ensures
        forall|x: usize|
            #[trigger] s.take(i + 1).contains(x) ==> (s.take(i).contains(x) || x == s[i]),
        forall|x: usize| #[trigger] s.take(i).contains(x) ==> s.take(i + 1).contains(x),
        s.take(i + 1).contains(s[i]),
{
    assert forall|x: usize| s.take(i + 1).contains(x) implies (s.take(i).contains(x) || x
        == s[i]) by {
        let k = choose|k: int| 0 <= k < s.take(i + 1).len() && #[trigger] s.take(i + 1)[k] == x;
        if k < i {
            assert(s.take(i)[k] == x);
        }
    }
    assert forall|x: usize| (s.take(i).contains(x) || x == s[i]) implies s.take(i + 1).contains(
        x,
    ) by {
        if s.take(i).contains(x) {
            let k = choose|k: int| 0 <= k < s.take(i).len() && #[trigger] s.take(i)[k] == x;
            assert(s.take(i + 1)[k] == x);
        } else {
            assert(s.take(i + 1)[i] == x);
        }
    }
    assert(s.take(i + 1).contains(s[i])) by {
        assert(s.take(i + 1)[i] == s[i]);
    }
}

/// Membership after a push is membership before, or the pushed element.
pub(crate) proof fn lemma_push_contains(prev: Seq<usize>, cur: Seq<usize>, y: usize)
    requires
        cur == prev.push(y),
    ensures
        forall|x: usize| #[trigger] cur.contains(x) <==> (prev.contains(x) || x == y),
{
    assert forall|x: usize| #[trigger] cur.contains(x) implies (prev.contains(x) || x == y) by {
        let k = choose|k: int| 0 <= k < cur.len() && #[trigger] cur[k] == x;
        if k < prev.len() {
            assert(prev[k] == x);
        }
    }
    assert forall|x: usize| (prev.contains(x) || x == y) implies #[trigger] cur.contains(x) by {
        if prev.contains(x) {
            let k = choose|k: int| 0 <= k < prev.len() && #[trigger] prev[k] == x;
            assert(cur[k] == x);
        } else {
            assert(cur[prev.len() as int] == y);
        }
    }
}

/// Whether `v` contains `x`.
fn vec_contains(v: &Vec<usize>, x: usize) -> (b: bool)
    ensures
        b == v@.contains(x),
{
    let n = v.len();
    for i in 0..n
        invariant
            n == v@.len(),
            forall|k: int| 0 <= k < i ==> v@[k] != x,
    {
        if v[i] == x {
            return true;
        }
    }
    false
}

/// The elements of `a` that do not occur in `b`, in order.
fn diff_sorted(a: &Vec<usize>, b: &Vec<usize>) -> (r: Vec<usize>)
    requires
        sorted_strict(a@),
    ensures
        sorted_strict(r@),
        forall|x: usize| r@.contains(x) <==> (a@.contains(x) && !b@.contains(x)),
        r@.len() <= a@.len(),
        forall|i: int| 0 <= i < r@.len() ==> a@.contains(r@[i]),
{
    let mut r: Vec<usize> = Vec::new();
    let n = a.len();
    assert(a@.take(0) =~= Seq::<usize>::empty());
    for i in 0..n
        invariant
            n == a@.len(),
            sorted_strict(a@),
            sorted_strict(r@),
            r@.len() <= i,
            forall|x: usize| r@.contains(x) <==> (a@.take(i as int).contains(x) && !b@.contains(x)),
            forall|k: int| 0 <= k < r@.len() && i < n ==> r@[k] < a@[i as int],
            forall|k: int| 0 <= k < r@.len() ==> a@.contains(r@[k]),
    {
        let ghost prev = r@;
        proof {
            lemma_take_succ_contains(a@, i as int);
            assert(a@.contains(a@[i as int]));
        }
        if !vec_contains(b, a[i]) {
            r.push(a[i]);
            proof {
                assert(forall|k: int| 0 <= k < prev.len() ==> r@[k] == prev[k]);
                assert(r@.last() == a@[i as int]);
            }
        }
    }
    assert(a@.take(n as int) =~= a@);
    r
}

/// The elements of `a` that also occur in `b`, in order.
fn intersect_sorted(a: &Vec<usize>, b: &Vec<usize>) -> (r: Vec<usize>)
    requires
        sorted_strict(a@),
    ensures
        sorted_strict(r@),
        forall|x: usize| r@.contains(x) <==> (a@.contains(x) && b@.contains(x)),
        r@.len() <= a@.len(),
        (forall|x: usize| a@.contains(x) ==> b@.contains(x)) ==> r@.len() == a@.len(),
        (forall|x: usize| a@.contains(x) ==> !b@.contains(x)) ==> r@.len() == 0,
        forall|i: int| 0 <= i < r@.len() ==> a@.contains(r@[i]),
{
    let mut r: Vec<usize> = Vec::new();
    let n = a.len();
    assert(a@.take(0) =~= Seq::<usize>::empty());
    for i in 0..n
        invariant
            n == a@.len(),
            sorted_strict(a@),
            sorted_strict(r@),
            r@.len() <= i,
            forall|x: usize| r@.contains(x) <==> (a@.take(i as int).contains(x) && b@.contains(x)),
            forall|k: int| 0 <= k < r@.len() && i < n ==> r@[k] < a@[i as int],
            forall|k: int| 0 <= k < r@.len() ==> a@.contains(r@[k]),
            (forall|x: usize| a@.contains(x) ==> b@.contains(x)) ==> r@.len() == i,
            (forall|x: usize| a@.contains(x) ==> !b@.contains(x)) ==> r@.len() == 0,
    {
        let ghost prev = r@;
        proof {
            lemma_take_succ_contains(a@, i as int);
            assert(a@.contains(a@[i as int]));
        }
        if vec_contains(b, a[i]) {
            r.push(a[i]);
            proof {
                assert(forall|k: int| 0 <= k < prev.len() ==> r@[k] == prev[k]);
                assert(r@.last() == a@[i as int]);
            }
        }
    }
    assert(a@.take(n as int) =~= a@);
    r
}

/// Merge two strictly sorted lists into their sorted union without
/// duplicates.
pub(crate) fn union_sorted(a: &Vec<usize>, b: &Vec<usize>) -> (r: Vec<usize>)
    requires
        sorted_strict(a@),
        sorted_strict(b@),
    ensures
        sorted_strict(r@),
        forall|x: usize| r@.contains(x) <==> (a@.contains(x) || b@.contains(x)),
        r@.len() <= a@.len() + b@.len(),
        (forall|x: usize| !(a@.contains(x) && b@.contains(x))) ==> r@.len() == a@.len()
            + b@.len(),
{
    let mut r: Vec<usize> = Vec::new();
    let mut i: usize = 0;
    let mut j: usize = 0;
    let na = a.len();
    let nb = b.len();
    assert(a@.take(0) =~= Seq::<usize>::empty());
    assert(b@.take(0) =~= Seq::<usize>::empty());
    while i < na || j < nb
        invariant
            na == a@.len(),
            nb == b@.len(),
            i <= na,
            j <= nb,
            sorted_strict(a@),
            sorted_strict(b@),
            sorted_strict(r@),
            r@.len() <= i + j,
            forall|x: usize|
                #[trigger] r@.contains(x) <==> (a@.take(i as int).contains(x) || b@.take(
                    j as int,
                ).contains(x)),
            forall|k: int| 0 <= k < r@.len() && i < na ==> r@[k] < a@[i as int],
            forall|k: int| 0 <= k < r@.len() && j < nb ==> r@[k] < b@[j as int],
            (forall|x: usize| !(a@.contains(x) && b@.contains(x))) ==> r@.len() == i + j,
        decreases (na - i) + (nb - j),
    {
        let ghost prev = r@;
        let ghost oi = i as int;
        let ghost oj = j as int;
        if i < na && (j >= nb || a[i] < b[j]) {
            let x = a[i];
            r.push(x);
            i = i + 1;
            proof {
                lemma_push_contains(prev, r@, x);
                lemma_take_succ_contains(a@, oi);
                assert(forall|k: int| 0 <= k < prev.len() ==> r@[k] == prev[k]);
                assert(r@.last() == x);
                assert(a@.contains(a@[oi]));
            }
        } else if j < nb && (i >= na || b[j] < a[i]) {
            let x = b[j];
            r.push(x);
            j = j + 1;
            proof {
                lemma_push_contains(prev, r@, x);
                lemma_take_succ_contains(b@, oj);
                assert(forall|k: int| 0 <= k < prev.len() ==> r@[k] == prev[k]);
                assert(r@.last() == x);
                assert(b@.contains(b@[oj]));
            }
        } else {
            // Both lists start with the same element; keep one copy.
            let x = a[i];
            r.push(x);
            i = i + 1;
            j = j + 1;
            proof {
                assert(a@[oi] == b@[oj]);
                lemma_push_contains(prev, r@, x);
                lemma_take_succ_contains(a@, oi);
                lemma_take_succ_contains(b@, oj);
                assert(forall|k: int| 0 <= k < prev.len() ==> r@[k] == prev[k]);
                assert(r@.last() == x);
                assert(a@.contains(a@[oi]));
                assert(b@.contains(b@[oj]));
            }
        }
    }
    assert(a@.take(na as int) =~= a@);
    assert(b@.take(nb as int) =~= b@);
    r
}

/// A sparse ternary vector: `pos` holds the +1 lanes, `neg` the −1 lanes.
#[derive(Clone, Debug)]
pub struct SparseVec {
    /// Lane indices whose value is +1, strictly increasing.
    pub pos: Vec<usize>,
    /// Lane indices whose value is −1, strictly increasing.
    pub neg: Vec<usize>,
}

impl SparseVec {
    /// Well-formedness: both index lists strictly increasing, disjoint, and
    /// within the lane space.
    pub open spec fn wf(self) -> bool {
        &&& sorted_strict(self.pos@)
        &&& sorted_strict(self.neg@)
        &&& forall|x: usize| !(self.pos@.contains(x) && #[trigger] self.neg@.contains(x))
        &&& forall|i: int| 0 <= i < self.pos@.len() ==> self.pos@[i] < DIM
        &&& forall|i: int| 0 <= i < self.neg@.len() ==> self.neg@[i] < DIM
    }

    /// The value of lane `x`: −1, 0 or +1.
    pub open spec fn lane(self, x: usize) -> int {
        if self.pos@.contains(x) {
            1
        } else if self.neg@.contains(x) {
            -1
        } else {
            0
        }
    }

    /// The number of non-zero lanes.
    pub open spec fn spec_nnz(self) -> int {
        self.pos@.len() + self.neg@.len() as int
    }

    /// Pointwise characterization of the conflict-cancel bundle: a lane is
    /// +1 in the result exactly when some operand votes +1 there and neither
    /// votes −1, and symmetrically for −1.
    pub open spec fn is_bundle_of(self, a: SparseVec, b: SparseVec) -> bool {
        &&& self.wf()
        &&& forall|x: usize|
            self.pos@.contains(x) <==> ((a.pos@.contains(x) && !b.neg@.contains(x)) || (
            b.pos@.contains(x) && !a.neg@.contains(x)))
        &&& forall|x: usize|
            self.neg@.contains(x) <==> ((a.neg@.contains(x) && !b.pos@.contains(x)) || (
            b.neg@.contains(x) && !a.pos@.contains(x)))
    }

    /// Pointwise characterization of bind: lane signs multiply, so the
    /// result is +1 where the operands agree on a non-zero sign and −1 where
    /// they take opposite signs.
    pub open spec fn is_bind_of(self, a: SparseVec, b: SparseVec) -> bool {
        &&& self.wf()
        &&& forall|x: usize|
            self.pos@.contains(x) <==> ((a.pos@.contains(x) && b.pos@.contains(x)) || (
            a.neg@.contains(x) && b.neg@.contains(x)))
        &&& forall|x: usize|
            self.neg@.contains(x) <==> ((a.pos@.contains(x) && b.neg@.contains(x)) || (
            a.neg@.contains(x) && b.pos@.contains(x)))
    }

    /// The empty vector.
    pub fn new() -> (r: SparseVec)
        ensures
            r.wf(),
            r.pos@.len() == 0,
            r.neg@.len() == 0,
    {
        SparseVec { pos: Vec::new(), neg: Vec::new() }
    }

    /// Conflict-cancel superposition: at each lane, equal signs keep, a sign
    /// against zero keeps the sign, and opposite signs cancel to zero.
    pub fn bundle(&self, other: &SparseVec) -> (r: SparseVec)
        requires
            self.wf(),
            other.wf(),
        ensures
            r.is_bundle_of(*self, *other),
    {
        let pos = union_sorted(
            &diff_sorted(&self.pos, &other.neg),
            &diff_sorted(&other.pos, &self.neg),
        );
        let neg = union_sorted(
            &diff_sorted(&self.neg, &other.pos),
            &diff_sorted(&other.neg, &self.pos),
        );
        let r = SparseVec { pos, neg };
        proof {
            assert forall|x: usize| !(r.pos@.contains(x) && #[trigger] r.neg@.contains(x)) by {
                if r.pos@.contains(x) && r.neg@.contains(x) {
                    assert(false);
                }
            }
            assert forall|i: int| 0 <= i < r.pos@.len() implies r.pos@[i] < DIM by {
                assert(r.pos@.contains(r.pos@[i]));
            }
            assert forall|i: int| 0 <= i < r.neg@.len() implies r.neg@[i] < DIM by {
                assert(r.neg@.contains(r.neg@[i]));
            }
        }
        r
    }

    /// Element-wise trit multiplication. Commutative, and self-inverse on
    /// non-zero lanes: binding a well-formed vector with itself yields +1 on
    /// every non-zero lane and nothing elsewhere.
    pub fn bind(&self, other: &SparseVec) -> (r: SparseVec)
        requires
            self.wf(),
            other.wf(),
        ensures
            r.is_bind_of(*self, *other),
            (self.pos@ == other.pos@ && self.neg@ == other.neg@) ==> (r.neg@.len() == 0
                && r.pos@.len() == self.spec_nnz()),
    {
        let pp = intersect_sorted(&self.pos, &other.pos);
        let nn = intersect_sorted(&self.neg, &other.neg);
        let pn = intersect_sorted(&self.pos, &other.neg);
        let np = intersect_sorted(&self.neg, &other.pos);
        let pos = union_sorted(&pp, &nn);
        let neg = union_sorted(&pn, &np);
        let r = SparseVec { pos, neg };
        proof {
            assert forall|x: usize| !(r.pos@.contains(x) && #[trigger] r.neg@.contains(x)) by {
                if r.pos@.contains(x) && r.neg@.contains(x) {
                    assert(false);
                }
            }
            assert forall|i: int| 0 <= i < r.pos@.len() implies r.pos@[i] < DIM by {
                assert(r.pos@.contains(r.pos@[i]));
            }
            assert forall|i: int| 0 <= i < r.neg@.len() implies r.neg@[i] < DIM by {
                assert(r.neg@.contains(r.neg@[i]));
            }
            if self.pos@ == other.pos@ && self.neg@ == other.neg@ {
                assert(pp.len() == self.pos@.len());
                assert(nn.len() == self.neg@.len());
                assert(pn.len() == 0);
                assert(np.len() == 0);
                assert(neg@.len() == 0);
                assert(pos@.len() == pp@.len() + nn@.len());
            }
        }
        r
    }

    /// Exact ternary dot product:
    /// |pos∩pos| + |neg∩neg| − |pos∩neg| − |neg∩pos|.
    /// The cosine similarity of the two vectors is this value divided by
    /// √(nnz(a)·nnz(b)), or zero when either vector is empty.
    pub fn dot(&self, other: &SparseVec) -> (r: i64)
        requires
            self.wf(),
            other.wf(),
        ensures
            r as int == count_in(self.pos@, other.pos@) + count_in(self.neg@, other.neg@)
                - count_in(self.pos@, other.neg@) - count_in(self.neg@, other.pos@),
    {
        let pp = count_common(&self.pos, &other.pos);
        let nn = count_common(&self.neg, &other.neg);
        let pn = count_common(&self.pos, &other.neg);
        let np = count_common(&self.neg, &other.pos);
        proof {
            lemma_sorted_strict_len_bound(self.pos@, DIM as int);
            lemma_sorted_strict_len_bound(self.neg@, DIM as int);
            lemma_count_in_bound(self.pos@, other.pos@);
            lemma_count_in_bound(self.neg@, other.neg@);
            lemma_count_in_bound(self.pos@, other.neg@);
            lemma_count_in_bound(self.neg@, other.pos@);
        }
        (pp as i64 + nn as i64) - (pn as i64 + np as i64)
    }

    /// Whether lane `x` is +1.
    pub fn contains_pos(&self, x: usize) -> (b: bool)
        ensures
            b == self.pos@.contains(x),
    {
        vec_contains(&self.pos, x)
    }

    /// Whether lane `x` is −1.
    pub fn contains_neg(&self, x: usize) -> (b: bool)
        ensures
            b == self.neg@.contains(x),
    {
        vec_contains(&self.neg, x)
    }

    /// The number of non-zero lanes.
    pub fn nnz(&self) -> (r: usize)
        requires
            self.wf(),
        ensures
            r as int == self.spec_nnz(),
            r <= 2 * DIM,
    {
        proof {
            lemma_sorted_strict_len_bound(self.pos@, DIM as int);
            lemma_sorted_strict_len_bound(self.neg@, DIM as int);
        }
        self.pos.len() + self.neg.len()
    }

    /// Check every representation invariant of this vector: both index
    /// lists strictly increasing, all indices below the dimension, and no
    /// lane claimed by both signs. A vector read from untrusted bytes can
    /// be screened with this before it enters the verified operations.
    pub fn is_well_formed(&self) -> (b: bool)
        ensures
            b == self.wf(),
    {
        let np = self.pos.len();
        for m in 0..np
            invariant
                np == self.pos@.len(),
                forall|t: int| 0 <= t < m ==> #[trigger] self.pos@[t] < DIM,
                forall|t1: int, t2: int| 0 <= t1 < t2 < m ==> self.pos@[t1] < self.pos@[t2],
        {
            if self.pos[m] >= DIM {
                return false;
            }
            if m > 0 && self.pos[m - 1] >= self.pos[m] {
                return false;
            }
            proof {
                assert forall|t1: int, t2: int|
                    0 <= t1 < t2 < m + 1 implies self.pos@[t1] < self.pos@[t2] by {
                    if t2 == m && t1 < m - 1 {
                        assert(self.pos@[t1] < self.pos@[m - 1]);
                    }
                }
            }
        }
        let nn = self.neg.len();
        for m in 0..nn
            invariant
                nn == self.neg@.len(),
                forall|t: int| 0 <= t < m ==> #[trigger] self.neg@[t] < DIM,
                forall|t1: int, t2: int| 0 <= t1 < t2 < m ==> self.neg@[t1] < self.neg@[t2],
        {
            if self.neg[m] >= DIM {
                return false;
            }
            if m > 0 && self.neg[m - 1] >= self.neg[m] {
                return false;
            }
            proof {
                assert forall|t1: int, t2: int|
                    0 <= t1 < t2 < m + 1 implies self.neg@[t1] < self.neg@[t2] by {
                    if t2 == m && t1 < m - 1 {
                        assert(self.neg@[t1] < self.neg@[m - 1]);
                    }
                }
            }
        }
        // Both lists are sorted; a merge scan finds any shared index.
        let mut i: usize = 0;
        let mut j: usize = 0;
        while i < np && j < nn
            invariant
                np == self.pos@.len(),
                nn == self.neg@.len(),
                sorted_strict(self.pos@),
                sorted_strict(self.neg@),
                i <= np,
                j <= nn,
                forall|t: int| 0 <= t < i ==> !self.neg@.contains(#[trigger] self.pos@[t]),
                forall|t: int| 0 <= t < j ==> !self.pos@.contains(#[trigger] self.neg@[t]),
            decreases np - i + nn - j,
        {
            if self.pos[i] == self.neg[j] {
                proof {
                    assert(self.pos@.contains(self.pos@[i as int]));
                    assert(self.neg@.contains(self.neg@[j as int]));
                }
                return false;
            }
            if self.pos[i] < self.neg[j] {
                proof {
                    assert forall|t: int|
                        0 <= t < i + 1 implies !self.neg@.contains(#[trigger] self.pos@[t]) by {
                        if t == i {
                            if self.neg@.contains(self.pos@[i as int]) {
                                let w = choose|w: int|
                                    0 <= w < self.neg@.len() && self.neg@[w] == self.pos@[
                                    i as int];
                                if w < j {
                                    assert(!self.pos@.contains(self.neg@[w]));
                                    assert(self.pos@.contains(self.pos@[i as int]));
                                } else {
                                    assert(self.neg@[j as int] <= self.neg@[w]);
                                }
                            }
                        }
                    }
                }
                i = i + 1;
            } else {
                proof {
                    assert forall|t: int|
                        0 <= t < j + 1 implies !self.pos@.contains(#[trigger] self.neg@[t]) by {
                        if t == j {
                            if self.pos@.contains(self.neg@[j as int]) {
                                let w = choose|w: int|
                                    0 <= w < self.pos@.len() && self.pos@[w] == self.neg@[
                                    j as int];
                                if w < i {
                                    assert(!self.neg@.contains(self.pos@[w]));
                                    assert(self.neg@.contains(self.neg@[j as int]));
                                } else {
                                    assert(self.pos@[i as int] <= self.pos@[w]);
                                }
                            }
                        }
                    }
                }
                j = j + 1;
            }
        }
        proof {
            assert forall|x: usize| !(self.pos@.contains(x) && #[trigger] self.neg@.contains(
                x,
            )) by {
                if self.pos@.contains(x) && self.neg@.contains(x) {
                    let wp = choose|w: int|
                        0 <= w < self.pos@.len() && self.pos@[w] == x;
                    let wn = choose|w: int|
                        0 <= w < self.neg@.len() && self.neg@[w] == x;
                    if wp < i {
                        assert(!self.neg@.contains(self.pos@[wp]));
                    } else {
                        assert(j == nn);
                        assert(!self.pos@.contains(self.neg@[wn]));
                    }
                }
            }
        }
        true
    }
}

/// How many elements of `a` occur in `b`.
fn count_common(a: &Vec<usize>, b: &Vec<usize>) -> (r: usize)
    ensures
        r as int == count_in(a@, b@),
{
    let mut r: usize = 0;
    let n = a.len();
    assert(a@.take(0) =~= Seq::<usize>::empty());
    for i in 0..n
        invariant
            n == a@.len(),
            r <= i,
            r as int == count_in(a@.take(i as int), b@),
    {
        proof {
            assert(a@.take(i as int + 1).drop_last() =~= a@.take(i as int));
            assert(a@.take(i as int + 1).last() == a@[i as int]);
        }
        if vec_contains(b, a[i]) {
            r = r + 1;
        }
    }
    assert(a@.take(n as int) =~= a@);
    r
}

/// `count_in` never exceeds the length of its first argument.
pub proof fn lemma_count_in_bound(a: Seq<usize>, b: Seq<usize>)
    ensures
        0 <= count_in(a, b) <= a.len(),
    decreases a.len(),
{
    if a.len() > 0 {
        lemma_count_in_bound(a.drop_last(), b);
    }
}

/// A strictly increasing sequence of values below `bound` has at most
/// `bound` elements.
pub proof fn lemma_sorted_strict_len_bound(s: Seq<usize>, bound: int)
    requires
        sorted_strict(s),
        forall|i: int| 0 <= i < s.len() ==> s[i] < bound,
        bound >= 0,
    ensures
        s.len() <= bound,
{
    if s.len() > bound {
        lemma_sorted_strict_index_lower_bound(s);
        assert(s[bound] >= bound);
        assert(false);
    }
}

/// In a strictly increasing sequence, the element at position `i` is at
/// least `s[0] + i`, so at least `i`.
proof fn lemma_sorted_strict_index_lower_bound(s: Seq<usize>)
    requires
        sorted_strict(s),
    ensures
        forall|i: int| 0 <= i < s.len() ==> s[i] >= i,
    decreases s.len(),
{
    if s.len() > 0 {
        lemma_sorted_strict_index_lower_bound(s.drop_last());
        assert(forall|i: int| 0 <= i < s.len() - 1 ==> s[i] == s.drop_last()[i]);
        if s.len() >= 2 {
            assert(s[s.len() - 2] >= s.len() - 2);
            assert(s[s.len() - 1] > s[s.len() - 2]);
        }
    }
}

/// Two strictly sorted sequences with the same members are identical: a
/// sorted list is a canonical representation of its index set.
pub proof fn lemma_sorted_set_unique(a: Seq<usize>, b: Seq<usize>)
    requires
        sorted_strict(a),
        sorted_strict(b),
        forall|x: usize| a.contains(x) <==> b.contains(x),
    ensures
        a =~= b,
    decreases a.len(),
{
    if a.len() == 0 {
        if b.len() > 0 {
            assert(b.contains(b.last()));
            assert(false);
        }
    } else {
        assert(a.contains(a.last()));
        if b.len() == 0 {
            assert(false);
        }
        assert(b.contains(b.last()));
        // Each last element is the maximum of its set, so they agree.
        let ia = choose|k: int| 0 <= k < a.len() && a[k] == b.last();
        assert(a.contains(b.last()));
        assert(a[ia] == b.last());
        assert(a[ia] <= a.last());
        let ib = choose|k: int| 0 <= k < b.len() && b[k] == a.last();
        assert(b.contains(a.last()));
        assert(b[ib] <= b.last());
        assert(a.last() == b.last());
        // Strip the shared maximum and recurse.
        assert forall|x: usize| a.drop_last().contains(x) <==> b.drop_last().contains(x) by {
            if a.drop_last().contains(x) {
                let k = choose|k: int| 0 <= k < a.len() - 1 && a[k] == x;
                assert(a[k] < a.last());
                assert(a.contains(x));
                assert(b.contains(x));
                let m = choose|m: int| 0 <= m < b.len() && b[m] == x;
                assert(m < b.len() - 1) by {
                    if m == b.len() - 1 {
                        assert(x == b.last());
                        assert(false);
                    }
                }
                assert(b.drop_last()[m] == x);
            }
            if b.drop_last().contains(x) {
                let k = choose|k: int| 0 <= k < b.len() - 1 && b[k] == x;
                assert(b[k] < b.last());
                assert(b.contains(x));
                assert(a.contains(x));
                let m = choose|m: int| 0 <= m < a.len() && a[m] == x;
                assert(m < a.len() - 1) by {
                    if m == a.len() - 1 {
                        assert(x == a.last());
                        assert(false);
                    }
                }
                assert(a.drop_last()[m] == x);
            }
        }
        lemma_sorted_set_unique(a.drop_last(), b.drop_last());
        assert(a =~= b) by {
            assert(a.len() == b.len());
            assert(forall|i: int| 0 <= i < a.len() - 1 ==> a[i] == a.drop_last()[i]);
            assert(forall|i: int| 0 <= i < b.len() - 1 ==> b[i] == b.drop_last()[i]);
        }
    }
}

/// Bundle is commutative: as sets of signed lanes, `a.bundle(b)` and
/// `b.bundle(a)` are the same vector.
pub proof fn lemma_bundle_commutative(a: SparseVec, b: SparseVec, ab: SparseVec, ba: SparseVec)
    requires
        a.wf(),
        b.wf(),
        ab.is_bundle_of(a, b),
        ba.is_bundle_of(b, a),
    ensures
        ab.pos@ =~= ba.pos@,
        ab.neg@ =~= ba.neg@,
{
    lemma_sorted_set_unique(ab.pos@, ba.pos@);
    lemma_sorted_set_unique(ab.neg@, ba.neg@);
}

/// Bind is commutative.
pub proof fn lemma_bind_commutative(a: SparseVec, b: SparseVec, ab: SparseVec, ba: SparseVec)
    requires
        a.wf(),
        b.wf(),
        ab.is_bind_of(a, b),
        ba.is_bind_of(b, a),
    ensures
        ab.pos@ =~= ba.pos@,
        ab.neg@ =~= ba.neg@,
{
    lemma_sorted_set_unique(ab.pos@, ba.pos@);
    lemma_sorted_set_unique(ab.neg@, ba.neg@);
}

/// Bind of a vector with itself is +1 on exactly the non-zero lanes and −1
/// nowhere.
pub proof fn lemma_bind_self_inverse(a: SparseVec, aa: SparseVec)
    requires
        a.wf(),
        aa.is_bind_of(a, a),
    ensures
        aa.neg@ =~= Seq::<usize>::empty(),
        forall|x: usize|
            #[trigger] aa.pos@.contains(x) <==> (a.pos@.contains(x) || a.neg@.contains(x)),
{
    if aa.neg@.len() > 0 {
        assert(aa.neg@.contains(aa.neg@.last()));
        assert(false);
    }
}

/// Every element of `a` is in `b` exactly when `count_in(a, b)` is `a`'s
/// length; no element is when it is zero.
proof fn lemma_count_in_all(a: Seq<usize>, b: Seq<usize>)
    ensures
        (forall|i: int| 0 <= i < a.len() ==> b.contains(a[i])) ==> count_in(a, b) == a.len(),
        (forall|i: int| 0 <= i < a.len() ==> !b.contains(a[i])) ==> count_in(a, b) == 0,
    decreases a.len(),
{
    if a.len() > 0 {
        lemma_count_in_all(a.drop_last(), b);
        assert(forall|i: int| 0 <= i < a.len() - 1 ==> a.drop_last()[i] == a[i]);
        assert(a.last() == a[a.len() - 1]);
    }
}

/// The dot product of a well-formed vector with itself equals its number of
/// non-zero lanes. The cosine of a vector with itself is therefore
/// nnz / √(nnz·nnz) = 1 whenever the vector has a non-zero lane.
pub proof fn lemma_dot_self_is_nnz(a: SparseVec)
    requires
        a.wf(),
    ensures
        count_in(a.pos@, a.pos@) + count_in(a.neg@, a.neg@) - count_in(a.pos@, a.neg@) - count_in(
            a.neg@,
            a.pos@,
        ) == a.spec_nnz(),
{
    assert forall|i: int| 0 <= i < a.pos@.len() implies a.pos@.contains(a.pos@[i]) by {}
    assert forall|i: int| 0 <= i < a.neg@.len() implies a.neg@.contains(a.neg@[i]) by {}
    lemma_count_in_all(a.pos@, a.pos@);
    lemma_count_in_all(a.neg@, a.neg@);
    assert forall|i: int| 0 <= i < a.pos@.len() implies !a.neg@.contains(a.pos@[i]) by {
        assert(a.pos@.contains(a.pos@[i]));
    }
    assert forall|i: int| 0 <= i < a.neg@.len() implies !a.pos@.contains(a.neg@[i]) by {
        assert(a.neg@.contains(a.neg@[i]));
    }
    lemma_count_in_all(a.pos@, a.neg@);
    lemma_count_in_all(a.neg@, a.pos@);
}


/// The lane that lane `y` moves to under a cyclic shift by `s`.
pub open spec fn shifted_lane(y: usize, s: int) -> usize {
    (((y + s) % (DIM as int))) as usize
}

/// Arithmetic form of `shifted_lane` for shifts below the dimension.
proof fn lemma_shifted_lane_val(y: usize, s: int)
    requires
        y < DIM,
        0 <= s < DIM,
    ensures
        y + s < DIM ==> shifted_lane(y, s) == y + s,
        y + s >= DIM ==> shifted_lane(y, s) as int == y + s - DIM,
        shifted_lane(y, s) < DIM,
{
    if y + s < DIM {
        vstd::arithmetic::div_mod::lemma_small_mod((y + s) as nat, DIM as nat);
    } else {
        vstd::arithmetic::div_mod::lemma_mod_sub_multiples_vanish((y + s) as int, DIM as int);
        assert((y + s) % (DIM as int) == (y + s - DIM) % (DIM as int));
        vstd::arithmetic::div_mod::lemma_small_mod((y + s - DIM) as nat, DIM as nat);
    }
}

/// Apply a cyclic shift of `s` to every index of a strictly sorted list of
/// lanes, keeping the result sorted: the wrapped tail comes first.
fn shift_list(a: &Vec<usize>, s: usize) -> (r: Vec<usize>)
    requires
        sorted_strict(a@),
        forall|i: int| 0 <= i < a@.len() ==> a@[i] < DIM,
        s < DIM,
    ensures
        sorted_strict(r@),
        forall|i: int| 0 <= i < r@.len() ==> r@[i] < DIM,
        r@.len() == a@.len(),
        forall|y: usize| y < DIM ==> (r@.contains(shifted_lane(y, s as int)) <==> a@.contains(y)),
{
    let split = DIM - s;  // 1 <= split <= DIM
    let n = a.len();
    proof {
        lemma_sorted_strict_len_bound(a@, DIM as int);
    }
    // cut: first index whose lane wraps around.
    let mut cut: usize = 0;
    while cut < n && a[cut] < split
        invariant
            n == a@.len(),
            cut <= n,
            forall|k: int| 0 <= k < cut ==> a@[k] < split,
        decreases n - cut,
    {
        cut = cut + 1;
    }
    proof {
        assert forall|k: int| cut <= k < n implies a@[k] >= split by {
            if k > cut {
                assert(a@[cut as int] < a@[k]);
            }
        }
    }
    let mut r: Vec<usize> = Vec::new();
    let n1 = n - cut;
    // Wrapped lanes first: they land in [0, s).
    let mut t: usize = cut;
    while t < n
        invariant
            n == a@.len(),
            split == DIM - s,
            s < DIM,
            cut <= t <= n,
            forall|k: int| cut <= k < n ==> split <= #[trigger] a@[k] < DIM,
            r@.len() == t - cut,
            forall|m: int| 0 <= m < r@.len() ==> r@[m] == a@[cut + m] - split,
        decreases n - t,
    {
        r.push(a[t] - split);
        t = t + 1;
    }
    // Unwrapped lanes after: they land in [s, DIM).
    let mut u: usize = 0;
    while u < cut
        invariant
            n == a@.len(),
            split == DIM - s,
            s < DIM,
            n1 == n - cut,
            u <= cut <= n,
            forall|k: int| 0 <= k < cut ==> a@[k] < split,
            forall|k: int| cut <= k < n ==> split <= #[trigger] a@[k] < DIM,
            r@.len() == n1 + u,
            forall|m: int| 0 <= m < n1 ==> r@[m] == a@[cut + m] - split,
            forall|m: int| 0 <= m < u ==> r@[n1 + m] == a@[m] + s,
        decreases cut - u,
    {
        r.push(a[u] + s);
        u = u + 1;
    }
    proof {
        let av = a@;
        let rv = r@;
        let si = s as int;
        assert forall|i: int, j: int| 0 <= i < j < rv.len() implies rv[i] < rv[j] by {
            if j < n1 {
                assert(av[cut + i] < av[cut + j]);
            } else if i >= n1 {
                assert(av[i - n1] < av[j - n1]);
            } else {
                assert(rv[i] == av[cut + i] - split);
                assert(rv[j] == av[j - n1] + s);
                assert(av[cut + i] < DIM);
            }
        }
        assert forall|i: int| 0 <= i < rv.len() implies rv[i] < DIM by {
            if i < n1 {
                assert(av[cut + i] < DIM);
            } else {
                assert(av[i - n1] < split);
            }
        }
        assert forall|y: usize| y < DIM implies (rv.contains(shifted_lane(y, si))
            <==> av.contains(y)) by {
            lemma_shifted_lane_val(y, si);
            if av.contains(y) {
                let k = choose|k: int| 0 <= k < av.len() && av[k] == y;
                if k < cut {
                    assert(rv[n1 + k] == y + s);
                    assert(rv.contains(rv[n1 + k]));
                } else {
                    assert(rv[k - cut] == y - split);
                    assert(rv.contains(rv[k - cut]));
                }
            }
            if rv.contains(shifted_lane(y, si)) && !av.contains(y) {
                let m = choose|m: int| 0 <= m < rv.len() && rv[m] == shifted_lane(y, si);
                if y + s < DIM {
                    // shifted_lane(y) >= s, so it came from the unwrapped part.
                    assert(m >= n1) by {
                        if m < n1 {
                            assert(rv[m] == av[cut + m] - split);
                            assert(av[cut + m] < DIM);
                            assert(rv[m] < s);
                        }
                    }
                    assert(rv[m] == av[m - n1] + s);
                    assert(av[m - n1] == y);
                    assert(av.contains(av[m - n1]));
                } else {
                    // shifted_lane(y) < s, so it came from the wrapped part.
                    assert(m < n1) by {
                        if m >= n1 {
                            assert(rv[m] == av[m - n1] + s);
                            assert(rv[m] >= s);
                            assert(shifted_lane(y, si) as int == y + s - DIM);
                        }
                    }
                    assert(rv[m] == av[cut + m] - split);
                    assert(av[cut + m] == y);
                    assert(av.contains(av[cut + m]));
                }
            }
        }
    }
    r
}

impl SparseVec {
    /// Pointwise characterization of the cyclic permutation by `s` lanes:
    /// every lane `y` of the source appears at lane `(y + s) mod D` of the
    /// result, with the same sign.
    pub open spec fn is_permute_of(self, a: SparseVec, s: int) -> bool {
        &&& self.wf()
        &&& forall|y: usize|
            y < DIM ==> (self.pos@.contains(shifted_lane(y, s)) <==> a.pos@.contains(y))
        &&& forall|y: usize|
            y < DIM ==> (self.neg@.contains(shifted_lane(y, s)) <==> a.neg@.contains(y))
    }

    /// Cyclic permutation: lane `i` of the result carries the value that
    /// lane `(i − shift) mod D` carried in `self`.
    pub fn permute(&self, shift: usize) -> (r: SparseVec)
        requires
            self.wf(),
        ensures
            r.is_permute_of(*self, (shift % DIM) as int),
    {
        let s = shift % DIM;
        let pos = shift_list(&self.pos, s);
        let neg = shift_list(&self.neg, s);
        let r = SparseVec { pos, neg };
        proof {
            assert forall|x: usize| !(r.pos@.contains(x) && #[trigger] r.neg@.contains(x)) by {
                if r.pos@.contains(x) && r.neg@.contains(x) {
                    let k = choose|k: int| 0 <= k < r.pos@.len() && r.pos@[k] == x;
                    assert(x < DIM);
                    // x is the image of some source lane under the shift.
                    let y = inverse_shifted_lane(x, s as int);
                    lemma_shift_inverse(x, s as int);
                    assert(self.pos@.contains(y) && self.neg@.contains(y));
                }
            }
            assert forall|i: int| 0 <= i < r.pos@.len() implies r.pos@[i] < DIM by {}
        }
        r
    }

    /// The permutation that undoes `permute(shift)`.
    pub fn inverse_permute(&self, shift: usize) -> (r: SparseVec)
        requires
            self.wf(),
        ensures
            r.is_permute_of(*self, ((DIM as int) - ((shift as int) % (DIM as int))) % (DIM as int)),
    {
        let s = shift % DIM;
        let inv = (DIM - s) % DIM;
        let r = self.permute(inv);
        proof {
            vstd::arithmetic::div_mod::lemma_mod_twice((DIM - s) as int, DIM as int);
        }
        r
    }

    /// Restrict to at most `target` non-zero lanes, keeping the ratio of
    /// positive to negative lanes: a deterministic prefix subsample of each
    /// sorted list. A vector already at or below the target is returned
    /// unchanged.
    pub fn thin(&self, target: usize) -> (r: SparseVec)
        requires
            self.wf(),
        ensures
            r.wf(),
            self.spec_nnz() <= target ==> (r.pos@ == self.pos@ && r.neg@ == self.neg@),
            self.spec_nnz() > target ==> r.spec_nnz() == target,
            forall|x: usize| r.pos@.contains(x) ==> self.pos@.contains(x),
            forall|x: usize| r.neg@.contains(x) ==> self.neg@.contains(x),
    {
        proof {
            lemma_sorted_strict_len_bound(self.pos@, DIM as int);
            lemma_sorted_strict_len_bound(self.neg@, DIM as int);
        }
        let plen = self.pos.len();
        let nlen = self.neg.len();
        let n = plen + nlen;
        if n <= target {
            let r = SparseVec { pos: clone_index_vec(&self.pos), neg: clone_index_vec(&self.neg) };
            proof {
                lemma_prefix_subset(r.pos@, self.pos@);
                lemma_prefix_subset(r.neg@, self.neg@);
            }
            return r;
        }
        // Share the target between the two lists in proportion to their
        // sizes; the remainder goes to the negative list.
        proof {
            lemma_thin_split(target as int, plen as int, nlen as int);
            vstd::arithmetic::mul::lemma_mul_upper_bound(
                target as int,
                n as int,
                plen as int,
                DIM as int,
            );
        }
        let keep_pos_wide: u128 = (target as u128 * plen as u128) / (n as u128);
        let keep_pos: usize = keep_pos_wide as usize;
        let keep_neg: usize = target - keep_pos;
        // The subsample is reproducible: the generator is seeded from the
        // two list lengths and the target alone.
        let seed = thin_seed(plen, nlen, target);
        let r = SparseVec {
            pos: select_sorted_subset(&self.pos, &seed, keep_pos),
            neg: select_sorted_subset(&self.neg, &seed, keep_neg),
        };
        proof {
            assert forall|x: usize| !(r.pos@.contains(x) && #[trigger] r.neg@.contains(x)) by {
                if r.pos@.contains(x) && r.neg@.contains(x) {
                    assert(self.pos@.contains(x) && self.neg@.contains(x));
                }
            }
            assert forall|i: int| 0 <= i < r.pos@.len() implies r.pos@[i] < DIM by {
                assert(r.pos@.contains(r.pos@[i]));
                let k = choose|k: int| 0 <= k < self.pos@.len() && self.pos@[k] == r.pos@[i];
            }
            assert forall|i: int| 0 <= i < r.neg@.len() implies r.neg@[i] < DIM by {
                assert(r.neg@.contains(r.neg@[i]));
                let k = choose|k: int| 0 <= k < self.neg@.len() && self.neg@[k] == r.neg@[i];
            }
        }
        r
    }
}

/// How many of the first `k` mask entries are set.
pub open spec fn count_true(s: Seq<bool>, k: int) -> int
    decreases k,
{
    if k <= 0 {
        0
    } else {
        count_true(s, k - 1) + if s[k - 1] {
            1int
        } else {
            0int
        }
    }
}

/// Setting a clear mask entry raises by one exactly the counts that span
/// it.
proof fn lemma_count_true_update(s: Seq<bool>, i: int, k: int)
    requires
        0 <= i < s.len(),
        !s[i],
        0 <= k <= s.len(),
    ensures
        count_true(s.update(i, true), k) == count_true(s, k) + if i < k {
            1int
        } else {
            0int
        },
    decreases k,
{
    if k > 0 {
        lemma_count_true_update(s, i, k - 1);
    }
}

/// A mask whose inspected prefix is all clear counts nothing.
proof fn lemma_count_true_clear_prefix(s: Seq<bool>, k: int)
    requires
        0 <= k <= s.len(),
        forall|t: int| 0 <= t < k ==> !#[trigger] s[t],
    ensures
        count_true(s, k) == 0,
    decreases k,
{
    if k > 0 {
        lemma_count_true_clear_prefix(s, k - 1);
    }
}

/// The 32-byte generator seed for thinning, derived from the two list
/// lengths and the target.
fn thin_seed(plen: usize, nlen: usize, target: usize) -> (r: Vec<u8>)
    ensures
        r@.len() == 32,
{
    let mut r: Vec<u8> = Vec::new();
    let parts: [usize; 4] = [plen, nlen, target, 0];
    for p in 0..4usize
        invariant
            r@.len() == 8 * p,
    {
        let v = parts[p];
        for b in 0..8usize
            invariant
                r@.len() == 8 * p + b,
        {
            let sh: u32 = 8 * (b as u32);
            let v64: u64 = v as u64;
            r.push(#[verifier::truncate] ((v64 >> sh) as u8));
        }
    }
    r
}

/// Keep a seeded pseudo-random subset of `keep` entries of a strictly
/// sorted list, preserving order.
fn select_sorted_subset(src: &Vec<usize>, seed: &Vec<u8>, keep: usize) -> (r: Vec<usize>)
    requires
        sorted_strict(src@),
        keep <= src@.len(),
        seed@.len() == 32,
    ensures
        sorted_strict(r@),
        r@.len() == keep,
        forall|x: usize| #[trigger] r@.contains(x) ==> src@.contains(x),
{
    let n = src.len();
    let perm = seeded_shuffled_indices(seed.as_slice(), n);
    let mut mask: Vec<bool> = Vec::new();
    for i in 0..n
        invariant
            mask@.len() == i,
            forall|t: int| 0 <= t < i ==> !#[trigger] mask@[t],
            count_true(mask@, i as int) == 0,
    {
        let ghost prevm = mask@;
        mask.push(false);
        proof {
            lemma_count_true_clear_prefix(mask@, i as int + 1);
        }
    }
    for k in 0..keep
        invariant
            keep <= n,
            n == src@.len(),
            perm@.len() == n,
            mask@.len() == n,
            forall|m: int| 0 <= m < n ==> #[trigger] perm@[m] < n,
            forall|m1: int, m2: int| 0 <= m1 < m2 < n ==> perm@[m1] != perm@[m2],
            forall|m: int| 0 <= m < k ==> #[trigger] mask@[perm@[m] as int],
            forall|t: int|
                0 <= t < n && #[trigger] mask@[t] ==> exists|m: int|
                    0 <= m < k && perm@[m] == t,
            count_true(mask@, n as int) == k,
    {
        let idx = perm[k];
        proof {
            if mask@[idx as int] {
                let m0 = choose|m: int| 0 <= m < k && perm@[m] == idx as int;
                assert(perm@[m0] == perm@[k as int]);
            }
            lemma_count_true_update(mask@, idx as int, n as int);
        }
        mask.set(idx, true);
    }
    let mut out: Vec<usize> = Vec::new();
    for i in 0..n
        invariant
            n == src@.len(),
            mask@.len() == n,
            sorted_strict(src@),
            sorted_strict(out@),
            count_true(mask@, n as int) == keep,
            out@.len() == count_true(mask@, i as int),
            forall|x: usize| #[trigger] out@.contains(x) ==> src@.contains(x),
            out@.len() > 0 ==> exists|j: int| 0 <= j < i && src@[j] == out@.last(),
    {
        if mask[i] {
            proof {
                if out@.len() > 0 {
                    let j = choose|j: int| 0 <= j < i && src@[j] == out@.last();
                    assert(src@[j] < src@[i as int]);
                    assert forall|t: int| 0 <= t < out@.len() implies out@[t] <= out@.last() by {
                        if t < out@.len() - 1 {
                            assert(out@[t] < out@[out@.len() - 1]);
                        }
                    }
                }
            }
            let ghost prev = out@;
            out.push(src[i]);
            proof {
                assert(out@ == prev.push(src@[i as int]));
                assert forall|t1: int, t2: int|
                    0 <= t1 < t2 < out@.len() implies out@[t1] < out@[t2] by {
                    if t2 == out@.len() - 1 {
                        assert(out@[t1] == prev[t1]);
                    }
                }
                assert(out@.last() == src@[i as int]);
            }
        }
    }
    out
}

/// The lane whose image under a shift by `s` is `x`.
pub open spec fn inverse_shifted_lane(x: usize, s: int) -> usize {
    (((x + DIM - s) % (DIM as int))) as usize
}

/// Shifting the inverse image of `x` gives back `x`.
proof fn lemma_shift_inverse(x: usize, s: int)
    requires
        x < DIM,
        0 <= s < DIM,
    ensures
        inverse_shifted_lane(x, s) < DIM,
        shifted_lane(inverse_shifted_lane(x, s), s) == x,
{
    let d = DIM as int;
    let y = (x + d - s) % d;
    vstd::arithmetic::div_mod::lemma_mod_bound((x + d - s) as int, d);
    assert(0 <= y < d);
    vstd::arithmetic::div_mod::lemma_add_mod_noop((x + d - s) as int, s, d);
    assert((y + s % d) % d == (x + d) % d) by {
        vstd::arithmetic::div_mod::lemma_mod_twice((x + d - s) as int, d);
        vstd::arithmetic::div_mod::lemma_add_mod_noop(y, s, d);
        vstd::arithmetic::div_mod::lemma_small_mod(s as nat, d as nat);
    }
    vstd::arithmetic::div_mod::lemma_mod_sub_multiples_vanish(x + d, d);
    vstd::arithmetic::div_mod::lemma_small_mod(x as nat, d as nat);
    assert((y + s) % d == x) by {
        vstd::arithmetic::div_mod::lemma_add_mod_noop(y, s, d);
        vstd::arithmetic::div_mod::lemma_mod_twice(y, d);
        vstd::arithmetic::div_mod::lemma_small_mod(s as nat, d as nat);
    }
}

/// A copy of a vector of indices.
pub fn clone_index_vec(v: &Vec<usize>) -> (r: Vec<usize>)
    ensures
        r@ == v@,
{
    let mut r: Vec<usize> = Vec::new();
    let n = v.len();
    for i in 0..n
        invariant
            n == v@.len(),
            r@ == v@.take(i as int),
    {
        r.push(v[i]);
        proof {
            assert(r@ =~= v@.take(i + 1));
        }
    }
    proof {
        assert(v@.take(n as int) =~= v@);
    }
    r
}

/// The first `k` elements of a vector of indices.
/// A prefix of a strictly sorted list is strictly sorted and its members
/// are members of the whole.
proof fn lemma_prefix_subset(p: Seq<usize>, w: Seq<usize>)
    requires
        p.len() <= w.len(),
        forall|i: int| 0 <= i < p.len() ==> p[i] == w[i],
        sorted_strict(w),
    ensures
        sorted_strict(p),
        forall|x: usize| #[trigger] p.contains(x) ==> w.contains(x),
{
    assert forall|x: usize| #[trigger] p.contains(x) implies w.contains(x) by {
        let k = choose|k: int| 0 <= k < p.len() && p[k] == x;
        assert(w[k] == x);
    }
}

/// The proportional split of `thin` stays within both lists.
proof fn lemma_thin_split(target: int, plen: int, nlen: int)
    requires
        0 <= target,
        0 <= plen,
        0 <= nlen,
        target <= plen + nlen,
        plen + nlen > 0,
    ensures
        0 <= (target * plen) / (plen + nlen) <= plen,
        target - (target * plen) / (plen + nlen) <= nlen,
        0 <= target - (target * plen) / (plen + nlen),
{
    let n = plen + nlen;
    assert(target * plen >= 0) by (nonlinear_arith)
        requires
            target >= 0,
            plen >= 0,
    ;
    vstd::arithmetic::div_mod::lemma_div_pos_is_pos(target * plen, n);
    assert((target * plen) / n <= plen) by {
        assert(target * plen <= n * plen) by (nonlinear_arith)
            requires
                target <= n,
                plen >= 0,
        ;
        vstd::arithmetic::div_mod::lemma_div_is_ordered(target * plen, n * plen, n);
        vstd::arithmetic::div_mod::lemma_div_multiples_vanish(plen, n);
    }
    assert(target - (target * plen) / n <= nlen) by {
        assert(n * (target - nlen) <= target * plen) by (nonlinear_arith)
            requires
                n == plen + nlen,
                target <= n,
                plen >= 0,
                nlen >= 0,
                target >= 0,
        ;
        vstd::arithmetic::div_mod::lemma_div_is_ordered(n * (target - nlen), target * plen, n);
        vstd::arithmetic::div_mod::lemma_div_multiples_vanish(target - nlen, n);
    }
    assert((target * plen) / n <= target) by {
        assert(target * plen <= n * target) by (nonlinear_arith)
            requires
                plen <= n,
                target >= 0,
        ;
        vstd::arithmetic::div_mod::lemma_div_is_ordered(target * plen, n * target, n);
        vstd::arithmetic::div_mod::lemma_div_multiples_vanish(target, n);
    }
    vstd::arithmetic::div_mod::lemma_div_is_ordered(0, target * plen, n);
}

/// A permutation followed by its inverse permutation restores the vector,
/// lane for lane.
pub proof fn lemma_permute_roundtrip(a: SparseVec, p: SparseVec, r: SparseVec, k: int)
    requires
        a.wf(),
        0 <= k < DIM,
        p.is_permute_of(a, k),
        r.is_permute_of(p, ((DIM - k) % (DIM as int))),
    ensures
        r.pos@ =~= a.pos@,
        r.neg@ =~= a.neg@,
{
    let d = DIM as int;
    let inv = (d - k) % d;
    vstd::arithmetic::div_mod::lemma_mod_bound(d - k, d);
    assert forall|x: usize| r.pos@.contains(x) <==> a.pos@.contains(x) by {
        if r.pos@.contains(x) || a.pos@.contains(x) {
            assert(x < DIM) by {
                if r.pos@.contains(x) {
                    let m = choose|m: int| 0 <= m < r.pos@.len() && r.pos@[m] == x;
                } else {
                    let m = choose|m: int| 0 <= m < a.pos@.len() && a.pos@[m] == x;
                }
            }
            let y = shifted_lane(x, k);
            lemma_compose_inverse(x, k);
            assert(r.pos@.contains(shifted_lane(y, inv)) <==> p.pos@.contains(y));
            assert(p.pos@.contains(shifted_lane(x, k)) <==> a.pos@.contains(x));
        }
    }
    assert forall|x: usize| r.neg@.contains(x) <==> a.neg@.contains(x) by {
        if r.neg@.contains(x) || a.neg@.contains(x) {
            assert(x < DIM) by {
                if r.neg@.contains(x) {
                    let m = choose|m: int| 0 <= m < r.neg@.len() && r.neg@[m] == x;
                } else {
                    let m = choose|m: int| 0 <= m < a.neg@.len() && a.neg@[m] == x;
                }
            }
            let y = shifted_lane(x, k);
            lemma_compose_inverse(x, k);
            assert(r.neg@.contains(shifted_lane(y, inv)) <==> p.neg@.contains(y));
            assert(p.neg@.contains(shifted_lane(x, k)) <==> a.neg@.contains(x));
        }
    }
    lemma_sorted_set_unique(r.pos@, a.pos@);
    lemma_sorted_set_unique(r.neg@, a.neg@);
}

/// Shifting by `k` and then by `(D − k) mod D` returns every lane to its
/// place.
proof fn lemma_compose_inverse(x: usize, k: int)
    requires
        x < DIM,
        0 <= k < DIM,
    ensures
        shifted_lane(shifted_lane(x, k), ((DIM - k) % (DIM as int))) == x,
        shifted_lane(x, k) < DIM,
{
    let d = DIM as int;
    let inv = (d - k) % d;
    vstd::arithmetic::div_mod::lemma_mod_bound(x + k, d);
    let y = shifted_lane(x, k);
    assert(y < DIM);
    vstd::arithmetic::div_mod::lemma_mod_bound(d - k, d);
    assert((y + inv) % d == x) by {
        vstd::arithmetic::div_mod::lemma_add_mod_noop(y as int, inv, d);
        vstd::arithmetic::div_mod::lemma_mod_twice((x + k) as int, d);
        vstd::arithmetic::div_mod::lemma_mod_twice(d - k, d);
        vstd::arithmetic::div_mod::lemma_add_mod_noop((x + k) as int, d - k, d);
        vstd::arithmetic::div_mod::lemma_mod_add_multiples_vanish(x as int, d);
        vstd::arithmetic::div_mod::lemma_small_mod(x as nat, d as nat);
    }
}


/// The summed vote at lane `x` across a sequence of vectors: +1 for each
/// vector with the lane positive, −1 for each with it negative.
pub open spec fn lane_sum(vecs: Seq<SparseVec>, x: usize) -> int
    decreases vecs.len(),
{
    if vecs.len() == 0 {
        0
    } else {
        lane_sum(vecs.drop_last(), x) + vecs.last().lane(x)
    }
}

/// Lane sums add over concatenation, so any fan-in order of partial sums
/// yields the same totals: the summed bundle is order-independent.
pub proof fn lemma_lane_sum_concat(a: Seq<SparseVec>, b: Seq<SparseVec>, x: usize)
    ensures
        lane_sum(a + b, x) == lane_sum(a, x) + lane_sum(b, x),
    decreases b.len(),
{
    if b.len() == 0 {
        assert(a + b =~= a);
    } else {
        lemma_lane_sum_concat(a, b.drop_last(), x);
        assert((a + b).drop_last() =~= a + b.drop_last());
        assert((a + b).last() == b.last());
    }
}

impl SparseVec {
    /// Whether `self` is the sum-then-threshold bundle of `vecs`: each lane
    /// carries the sign of the summed votes. This form is associative and
    /// order-independent, unlike the pairwise conflict-cancel bundle.
    pub open spec fn is_sum_bundle_of(self, vecs: Seq<SparseVec>) -> bool {
        &&& self.wf()
        &&& forall|x: usize| x < DIM ==> (self.pos@.contains(x) <==> lane_sum(vecs, x) > 0)
        &&& forall|x: usize| x < DIM ==> (self.neg@.contains(x) <==> lane_sum(vecs, x) < 0)
    }

    /// N-ary bundle in the order-independent form: sum the signed votes per
    /// lane over all inputs, then keep the sign.
    pub fn bundle_sum_many(vecs: &[SparseVec]) -> (r: SparseVec)
        requires
            forall|i: int| 0 <= i < vecs@.len() ==> (#[trigger] vecs@[i]).wf(),
        ensures
            r.is_sum_bundle_of(vecs@),
    {
        let nv = vecs.len();
        let mut counts: Vec<i128> = Vec::new();
        for d in 0..DIM
            invariant
                counts@.len() == d,
                forall|k: int| 0 <= k < d ==> counts@[k] == 0,
        {
            counts.push(0);
        }
        assert(counts@.len() == DIM);
        proof {
            assert forall|x: usize| x < DIM implies counts@[x as int] == lane_sum(
                vecs@.take(0),
                x,
            ) by {
                assert(vecs@.take(0) =~= Seq::<SparseVec>::empty());
            }
        }
        for i in 0..nv
            invariant
                nv == vecs@.len(),
                forall|k: int| 0 <= k < nv ==> (#[trigger] vecs@[k]).wf(),
                counts@.len() == DIM,
                forall|x: usize|
                    x < DIM ==> #[trigger] counts@[x as int] == lane_sum(vecs@.take(i as int), x),
                forall|k: int|
                    0 <= k < DIM ==> -(i as int) <= #[trigger] counts@[k] <= i as int,
        {
            let v = &vecs[i];
            accumulate_votes(&mut counts, v, Ghost(vecs@.take(i as int)), Ghost(i as int));
            proof {
                assert forall|x: usize| x < DIM implies #[trigger] counts@[x as int] == lane_sum(
                    vecs@.take(i + 1),
                    x,
                ) by {
                    assert(vecs@.take(i + 1).drop_last() =~= vecs@.take(i as int));
                    assert(vecs@.take(i + 1).last() == vecs@[i as int]);
                }
            }
        }
        proof {
            assert(vecs@.take(nv as int) =~= vecs@);
        }
        threshold_votes(&counts, Ghost(vecs@))
    }

    /// N-ary bundle that may take the pairwise conflict-cancel path where
    /// that provably computes the same lane signs as the summed form — for
    /// zero, one or two operands — and the summed form everywhere else. The
    /// contract is the summed form's in every case.
    pub fn bundle_hybrid_many(vecs: &[SparseVec]) -> (r: SparseVec)
        requires
            forall|i: int| 0 <= i < vecs@.len() ==> (#[trigger] vecs@[i]).wf(),
        ensures
            r.is_sum_bundle_of(vecs@),
    {
        if vecs.len() == 0 {
            let r = SparseVec::new();
            proof {
                assert forall|x: usize| x < DIM implies !r.pos@.contains(x) && !r.neg@.contains(
                    x,
                ) by {}
            }
            r
        } else if vecs.len() == 1 {
            let r = SparseVec { pos: clone_index_vec(&vecs[0].pos), neg: clone_index_vec(&vecs[0].neg) };
            proof {
                assert(vecs@.drop_last() =~= Seq::<SparseVec>::empty());
                assert forall|x: usize| x < DIM implies (r.pos@.contains(x) <==> lane_sum(
                    vecs@,
                    x,
                ) > 0) && (r.neg@.contains(x) <==> lane_sum(vecs@, x) < 0) by {
                    assert(lane_sum(vecs@, x) == lane_sum(vecs@.drop_last(), x) + vecs@.last().lane(
                        x,
                    ));
                    assert(lane_sum(Seq::<SparseVec>::empty(), x) == 0);
                    assert(vecs@.last() == vecs@[0]);
                }
            }
            r
        } else if vecs.len() == 2 {
            let r = vecs[0].bundle(&vecs[1]);
            proof {
                lemma_bundle_pair_is_sum(vecs@[0], vecs@[1], r, vecs@);
            }
            r
        } else {
            SparseVec::bundle_sum_many(vecs)
        }
    }
}

/// For exactly two operands the pairwise conflict-cancel bundle computes
/// the sign of the summed votes, so the two bundle forms agree there.
proof fn lemma_bundle_pair_is_sum(a: SparseVec, b: SparseVec, r: SparseVec, vecs: Seq<SparseVec>)
    requires
        a.wf(),
        b.wf(),
        r.is_bundle_of(a, b),
        vecs.len() == 2,
        vecs[0] == a,
        vecs[1] == b,
    ensures
        r.is_sum_bundle_of(vecs),
{
    assert(vecs.drop_last() =~= seq![a]);
    assert(seq![a].drop_last() =~= Seq::<SparseVec>::empty());
    assert forall|x: usize| x < DIM implies (r.pos@.contains(x) <==> lane_sum(vecs, x) > 0) && (
    r.neg@.contains(x) <==> lane_sum(vecs, x) < 0) by {
        assert(lane_sum(vecs, x) == lane_sum(vecs.drop_last(), x) + vecs.last().lane(x));
        assert(vecs.last() == b);
        assert(lane_sum(seq![a], x) == lane_sum(seq![a].drop_last(), x) + seq![a].last().lane(x));
        assert(lane_sum(Seq::<SparseVec>::empty(), x) == 0);
        assert(seq![a].last() == a);
        assert(lane_sum(vecs, x) == a.lane(x) + b.lane(x));
    }
}

/// Add one vector's votes into the per-lane counters.
pub(crate) fn accumulate_votes(
    counts: &mut Vec<i128>,
    v: &SparseVec,
    Ghost(done): Ghost<Seq<SparseVec>>,
    Ghost(nd): Ghost<int>,
)
    requires
        v.wf(),
        old(counts)@.len() == DIM,
        0 <= nd <= 0xffff_ffff_ffff_ffff,
        forall|x: usize| x < DIM ==> #[trigger] old(counts)@[x as int] == lane_sum(done, x),
        forall|k: int| 0 <= k < DIM ==> -nd <= #[trigger] old(counts)@[k] <= nd,
    ensures
        final(counts)@.len() == DIM,
        forall|x: usize|
            x < DIM ==> #[trigger] final(counts)@[x as int] == lane_sum(done, x) + v.lane(x),
        forall|k: int| 0 <= k < DIM ==> -nd - 1 <= #[trigger] final(counts)@[k] <= nd + 1,
{
    proof {
        assert forall|x: usize| x < DIM implies -nd <= #[trigger] lane_sum(done, x) <= nd by {
            assert(old(counts)@[x as int] == lane_sum(done, x));
        }
    }
    let np = v.pos.len();
    for j in 0..np
        invariant
            v.wf(),
            np == v.pos@.len(),
            counts@.len() == DIM,
            nd >= 0,
            0 <= nd <= 0xffff_ffff_ffff_ffff,
            forall|x: usize| x < DIM ==> -nd <= #[trigger] lane_sum(done, x) <= nd,
            forall|x: usize|
                x < DIM ==> #[trigger] counts@[x as int] == lane_sum(done, x) + (
                if v.pos@.take(j as int).contains(x) {
                    1int
                } else {
                    0int
                }),
    {
        let lane = v.pos[j];
        assert(lane < DIM);
        proof {
            lemma_take_succ_contains(v.pos@, j as int);
            assert(!v.pos@.take(j as int).contains(lane)) by {
                if v.pos@.take(j as int).contains(lane) {
                    let k = choose|k: int|
                        0 <= k < j && #[trigger] v.pos@.take(j as int)[k] == lane;
                    assert(v.pos@[k] < v.pos@[j as int]);
                }
            }
        }
        let c = counts[lane];
        counts.set(lane, c + 1);
    }
    proof {
        assert(v.pos@.take(np as int) =~= v.pos@);
    }
    let nn = v.neg.len();
    for j in 0..nn
        invariant
            v.wf(),
            nn == v.neg@.len(),
            counts@.len() == DIM,
            nd >= 0,
            0 <= nd <= 0xffff_ffff_ffff_ffff,
            forall|x: usize| x < DIM ==> -nd <= #[trigger] lane_sum(done, x) <= nd,
            forall|x: usize|
                x < DIM ==> #[trigger] counts@[x as int] == lane_sum(done, x) + (
                if v.pos@.contains(x) {
                    1int
                } else {
                    0int
                }) - (if v.neg@.take(j as int).contains(x) {
                    1int
                } else {
                    0int
                }),
    {
        let lane = v.neg[j];
        assert(lane < DIM);
        proof {
            lemma_take_succ_contains(v.neg@, j as int);
            assert(!v.neg@.take(j as int).contains(lane)) by {
                if v.neg@.take(j as int).contains(lane) {
                    let k = choose|k: int|
                        0 <= k < j && #[trigger] v.neg@.take(j as int)[k] == lane;
                    assert(v.neg@[k] < v.neg@[j as int]);
                }
            }
            assert(!v.pos@.contains(lane)) by {
                assert(v.neg@.contains(lane));
            }
        }
        let c = counts[lane];
        counts.set(lane, c - 1);
    }
    proof {
        assert(v.neg@.take(nn as int) =~= v.neg@);
        assert forall|x: usize| x < DIM implies #[trigger] counts@[x as int] == lane_sum(done, x)
            + v.lane(x) by {}
        assert forall|k: int| 0 <= k < DIM implies -nd - 1 <= #[trigger] counts@[k] <= nd + 1 by {
            let x = k as usize;
            assert(counts@[x as int] == lane_sum(done, x) + v.lane(x));
        }
    }
}


/// The index order that a deterministic, seed-keyed shuffle of `0..n`
/// produces. A pure function of the seed and the length; its value is not
/// spelled out here, only named.
pub uninterp spec fn seeded_permutation(seed: Seq<u8>, n: int) -> Seq<usize>;

/// Relies on rand's `StdRng::from_seed` and `SliceRandom::shuffle`: a
/// seeded generator is deterministic, so the shuffled order depends on the
/// seed and length alone, and a shuffle permutes `0..n`.
#[verifier::external_body]
fn seeded_shuffled_indices(seed: &[u8], n: usize) -> (r: Vec<usize>)
    requires
        seed@.len() == 32,
    ensures
        r@ == seeded_permutation(seed@, n as int),
        r@.len() == n,
        forall|i: int| 0 <= i < n ==> r@[i] < n,
        forall|i: int, j: int| 0 <= i < j < n ==> r@[i] != r@[j],
{
    let mut s = [0u8; 32];
    s.copy_from_slice(seed);
    let mut rng = <rand::rngs::StdRng as rand::SeedableRng>::from_seed(s);
    let mut v: Vec<usize> = (0..n).collect();
    rand::seq::SliceRandom::shuffle(v.as_mut_slice(), &mut rng);
    v
}

/// Relies on rand's `thread_rng` and `SliceRandom::shuffle`: whatever the
/// drawn randomness, the result is a permutation of `0..n`.
#[verifier::external_body]
fn random_shuffled_indices(n: usize) -> (r: Vec<usize>)
    ensures
        r@.len() == n,
        forall|i: int| 0 <= i < n ==> r@[i] < n,
        forall|i: int, j: int| 0 <= i < j < n ==> r@[i] != r@[j],
{
    let mut rng = rand::thread_rng();
    let mut v: Vec<usize> = (0..n).collect();
    rand::seq::SliceRandom::shuffle(v.as_mut_slice(), &mut rng);
    v
}

/// Insert `x` into a strictly sorted list that does not yet hold it.
fn insert_sorted(v: &mut Vec<usize>, x: usize)
    requires
        sorted_strict(old(v)@),
        !old(v)@.contains(x),
    ensures
        sorted_strict(final(v)@),
        final(v)@.len() == old(v)@.len() + 1,
        forall|y: usize|
            #[trigger] final(v)@.contains(y) <==> (old(v)@.contains(y) || y == x),
{
    let n = v.len();
    let mut p: usize = 0;
    while p < n && v[p] < x
        invariant
            n == v@.len(),
            p <= n,
            forall|k: int| 0 <= k < p ==> v@[k] < x,
        decreases n - p,
    {
        p = p + 1;
    }
    proof {
        if p < n {
            assert(v@[p as int] != x) by {
                if v@[p as int] == x {
                    assert(v@.contains(x));
                }
            }
        }
        assert forall|k: int| p <= k < n implies v@[k] > x by {
            if k > p {
                assert(v@[p as int] < v@[k]);
            }
        }
    }
    let ghost prev = v@;
    v.insert(p, x);
    proof {
        assert(v@ == prev.insert(p as int, x));
        assert(v@.len() == prev.len() + 1);
        assert(forall|k: int| 0 <= k < p ==> v@[k] == prev[k]);
        assert(v@[p as int] == x);
        assert(forall|k: int| p < k < v@.len() ==> v@[k] == prev[k - 1]);
        assert forall|i: int, j: int| 0 <= i < j < v@.len() implies v@[i] < v@[j] by {}
        assert forall|y: usize| #[trigger] v@.contains(y) implies (prev.contains(y) || y == x) by {
            let k = choose|k: int| 0 <= k < v@.len() && #[trigger] v@[k] == y;
            if k < p {
                assert(prev[k] == y);
            } else if k > p {
                assert(prev[k - 1] == y);
            }
        }
        assert forall|y: usize| (prev.contains(y) || y == x) implies #[trigger] v@.contains(y) by {
            if prev.contains(y) {
                let k = choose|k: int| 0 <= k < prev.len() && #[trigger] prev[k] == y;
                if k < p {
                    assert(v@[k] == y);
                } else {
                    assert(v@[k + 1] == y);
                }
            } else {
                assert(v@[p as int] == x);
            }
        }
    }
}

/// Build a strictly sorted list from `count` distinct in-range entries of a
/// permutation, starting at `from`.
fn sorted_from_permutation(perm: &Vec<usize>, from: usize, count: usize) -> (r: Vec<usize>)
    requires
        from + count <= perm@.len(),
        forall|i: int| 0 <= i < perm@.len() ==> perm@[i] < DIM,
        forall|i: int, j: int| 0 <= i < j < perm@.len() ==> perm@[i] != perm@[j],
    ensures
        sorted_strict(r@),
        r@.len() == count,
        forall|i: int| 0 <= i < r@.len() ==> r@[i] < DIM,
        forall|y: usize|
            #[trigger] r@.contains(y) <==> perm@.subrange(from as int, from + count).contains(y),
{
    let mut r: Vec<usize> = Vec::new();
    let pn = perm.len();
    let ghost window = perm@.subrange(from as int, from + count);
    for t in 0..count
        invariant
            pn == perm@.len(),
            from + count <= pn,
            window == perm@.subrange(from as int, from + count),
            forall|i: int| 0 <= i < perm@.len() ==> perm@[i] < DIM,
            forall|i: int, j: int| 0 <= i < j < perm@.len() ==> perm@[i] != perm@[j],
            sorted_strict(r@),
            r@.len() == t,
            forall|i: int| 0 <= i < r@.len() ==> r@[i] < DIM,
            forall|y: usize| #[trigger] r@.contains(y) <==> window.take(t as int).contains(y),
    {
        let x = perm[from + t];
        proof {
            assert(window[t as int] == perm@[from + t]);
            lemma_take_succ_contains_gen(window, t as int);
            assert(!r@.contains(x)) by {
                if window.take(t as int).contains(x) {
                    let k = choose|k: int|
                        0 <= k < t && #[trigger] window.take(t as int)[k] == x;
                    assert(window[k] == perm@[from + k]);
                }
            }
        }
        insert_sorted(&mut r, x);
        proof {
            assert forall|i: int| 0 <= i < r@.len() implies r@[i] < DIM by {
                assert(r@.contains(r@[i]));
                if r@[i] != x {
                    assert(window.take(t as int).contains(r@[i]));
                    let k = choose|k: int|
                        0 <= k < t && #[trigger] window.take(t as int)[k] == r@[i];
                    assert(window[k] == perm@[from + k]);
                }
            }
        }
    }
    proof {
        assert(window.take(count as int) =~= window);
    }
    r
}

/// `lemma_take_succ_contains` for sequences that need not be sorted.
proof fn lemma_take_succ_contains_gen(s: Seq<usize>, i: int)
    requires
        0 <= i < s.len(),
    ensures
        forall|x: usize|
            #[trigger] s.take(i + 1).contains(x) ==> (s.take(i).contains(x) || x == s[i]),
        forall|x: usize| #[trigger] s.take(i).contains(x) ==> s.take(i + 1).contains(x),
        s.take(i + 1).contains(s[i]),
{
    lemma_take_succ_contains(s, i);
}

impl SparseVec {
    /// A random vector: one percent of the lanes positive and a disjoint
    /// one percent negative, drawn without replacement.
    pub fn random() -> (r: SparseVec)
        ensures
            r.wf(),
            r.pos@.len() == DIM / 100,
            r.neg@.len() == DIM / 100,
    {
        let perm = random_shuffled_indices(DIM);
        let k = DIM / 100;
        let r = SparseVec {
            pos: sorted_from_permutation(&perm, 0, k),
            neg: sorted_from_permutation(&perm, k, k),
        };
        proof {
            lemma_disjoint_windows(perm@, 0, k as int, k as int, k as int);
            assert forall|x: usize| !(r.pos@.contains(x) && #[trigger] r.neg@.contains(x)) by {}
        }
        r
    }

    /// A deterministic vector derived from the SHA-256 digest of `data`:
    /// the digest seeds a shuffle of the lanes, and the first one percent
    /// become positive, the next one percent negative. A similarity helper:
    /// this encoding has no inverse.
    pub fn from_data(data: &[u8]) -> (r: SparseVec)
        ensures
            r.wf(),
            r.pos@.len() == DIM / 100,
            r.neg@.len() == DIM / 100,
            forall|y: usize|
                #[trigger] r.pos@.contains(y) <==> seeded_permutation(
                    crate::hashing::sha256_of(data@),
                    DIM as int,
                ).subrange(0, (DIM / 100) as int).contains(y),
            forall|y: usize|
                #[trigger] r.neg@.contains(y) <==> seeded_permutation(
                    crate::hashing::sha256_of(data@),
                    DIM as int,
                ).subrange((DIM / 100) as int, 2 * (DIM / 100) as int).contains(y),
    {
        let seed = crate::hashing::sha256_digest(data);
        let perm = seeded_shuffled_indices(seed.as_slice(), DIM);
        let k = DIM / 100;
        let r = SparseVec {
            pos: sorted_from_permutation(&perm, 0, k),
            neg: sorted_from_permutation(&perm, k, k),
        };
        proof {
            lemma_disjoint_windows(perm@, 0, k as int, k as int, k as int);
            assert forall|x: usize| !(r.pos@.contains(x) && #[trigger] r.neg@.contains(x)) by {}
        }
        r
    }
}

/// Two non-overlapping windows of a duplicate-free sequence share no
/// element.
proof fn lemma_disjoint_windows(s: Seq<usize>, f1: int, c1: int, f2: int, c2: int)
    requires
        0 <= f1,
        0 <= c1,
        f1 + c1 <= f2,
        0 <= c2,
        f2 + c2 <= s.len(),
        forall|i: int, j: int| 0 <= i < j < s.len() ==> s[i] != s[j],
    ensures
        forall|y: usize|
            !(#[trigger] s.subrange(f1, f1 + c1).contains(y) && #[trigger] s.subrange(
                f2,
                f2 + c2,
            ).contains(y)),
{
    assert forall|y: usize|
        !(#[trigger] s.subrange(f1, f1 + c1).contains(y) && #[trigger] s.subrange(
            f2,
            f2 + c2,
        ).contains(y)) by {
        if s.subrange(f1, f1 + c1).contains(y) && s.subrange(f2, f2 + c2).contains(y) {
            let k1 = choose|k: int|
                0 <= k < c1 && #[trigger] s.subrange(f1, f1 + c1)[k] == y;
            let k2 = choose|k: int|
                0 <= k < c2 && #[trigger] s.subrange(f2, f2 + c2)[k] == y;
            assert(s[f1 + k1] == y);
            assert(s[f2 + k2] == y);
        }
    }
}


/// Collapse per-lane vote counts to a sparse vector by sign.
pub(crate) fn threshold_votes(counts: &Vec<i128>, Ghost(vecs): Ghost<Seq<SparseVec>>) -> (r:
    SparseVec)
    requires
        counts@.len() == DIM,
        forall|x: usize| x < DIM ==> #[trigger] counts@[x as int] == lane_sum(vecs, x),
    ensures
        r.is_sum_bundle_of(vecs),
{
    let mut pos: Vec<usize> = Vec::new();
    let mut neg: Vec<usize> = Vec::new();
    for d in 0..DIM
        invariant
            counts@.len() == DIM,
            forall|x: usize| x < DIM ==> #[trigger] counts@[x as int] == lane_sum(vecs, x),
            sorted_strict(pos@),
            sorted_strict(neg@),
            forall|k: int| 0 <= k < pos@.len() ==> #[trigger] pos@[k] < d,
            forall|k: int| 0 <= k < neg@.len() ==> #[trigger] neg@[k] < d,
            forall|x: usize| x < d ==> (pos@.contains(x) <==> lane_sum(vecs, x) > 0),
            forall|x: usize| x < d ==> (neg@.contains(x) <==> lane_sum(vecs, x) < 0),
            forall|x: usize| pos@.contains(x) ==> x < d,
            forall|x: usize| neg@.contains(x) ==> x < d,
    {
        let ghost ppos = pos@;
        let ghost pneg = neg@;
        let c = counts[d];
        if c > 0 {
            pos.push(d);
            proof {
                lemma_push_contains(ppos, pos@, d);
                assert(forall|k: int| 0 <= k < ppos.len() ==> pos@[k] == ppos[k]);
                assert(pos@.last() == d);
            }
        } else if c < 0 {
            neg.push(d);
            proof {
                lemma_push_contains(pneg, neg@, d);
                assert(forall|k: int| 0 <= k < pneg.len() ==> neg@[k] == pneg[k]);
                assert(neg@.last() == d);
            }
        }
    }
    let r = SparseVec { pos, neg };
    proof {
        assert forall|x: usize| !(r.pos@.contains(x) && #[trigger] r.neg@.contains(x)) by {}
        assert forall|i: int| 0 <= i < r.pos@.len() implies r.pos@[i] < DIM by {
            assert(r.pos@.contains(r.pos@[i]));
        }
        assert forall|i: int| 0 <= i < r.neg@.len() implies r.neg@[i] < DIM by {
            assert(r.neg@.contains(r.neg@[i]));
        }
    }
    r
}

} // verus!
