//! Packed ternary vectors: an interleaved two-bit encoding, 32 lanes per
//! 64-bit word.
//!
//! Lane `i` occupies bits `2i` (the positive bit) and `2i + 1` (the
//! negative bit) of its word: `01` is +1, `10` is −1 and `00` is 0. The
//! state with both bits set is never written.

use vstd::prelude::*;

use crate::bitsliced::{bitof, lemma_bitwise_ops, lemma_clear_bit, lemma_read_bit, lemma_set_bit};
use crate::sparse::{sorted_strict, SparseVec};
use crate::ternary::Trit;

verus! {

/// A packed ternary vector.
#[derive(Clone, Debug, PartialEq, Eq)]
pub struct PackedTritVec {
    /// Number of logical trits.
    pub len: usize,
    /// Interleaved two-bit lanes, 32 per word.
    pub data: Vec<u64>,
}

/// Whether the positive bit of lane `i` is set in the interleaved words.
pub open spec fn packed_pos_bit(d: Seq<u64>, i: int) -> bool {
    0 <= i && i / 32 < d.len() && bitof(d[i / 32], 2 * (i % 32))
}

/// Whether the negative bit of lane `i` is set in the interleaved words.
pub open spec fn packed_neg_bit(d: Seq<u64>, i: int) -> bool {
    0 <= i && i / 32 < d.len() && bitof(d[i / 32], 2 * (i % 32) + 1)
}

/// An index below `w * 32` falls in a word below `w`.
proof fn lemma_div_below32(i: int, w: int)
    requires
        0 <= i < w * 32,
    ensures
        i / 32 < w,
        0 <= i % 32 < 32,
{
    vstd::arithmetic::div_mod::lemma_div_is_ordered(i, w * 32 - 1, 32);
    assert(w * 32 - 1 == (w - 1) * 32 + 31) by (nonlinear_arith);
    vstd::arithmetic::div_mod::lemma_fundamental_div_mod_converse(w * 32 - 1, 32, w - 1, 31);
    vstd::arithmetic::div_mod::lemma_mod_bound(i, 32);
}

impl PackedTritVec {
    /// Number of words needed for `len` two-bit lanes.
    pub open spec fn spec_word_count(len: int) -> int {
        (len + 31) / 32
    }

    /// Well-formedness: the words sized to the length, no lane with both
    /// bits set, and all bits of lanes at or past the length clear.
    pub open spec fn wf(self) -> bool {
        &&& self.data@.len() == Self::spec_word_count(self.len as int)
        &&& forall|i: int|
            self.len <= i < self.data@.len() * 32 ==> !packed_pos_bit(self.data@, i)
                && !packed_neg_bit(self.data@, i)
        &&& forall|i: int|
            0 <= i < self.len ==> !(packed_pos_bit(self.data@, i) && packed_neg_bit(
                self.data@,
                i,
            ))
    }

    /// The trit at lane `i`.
    pub open spec fn trit_at(self, i: int) -> int {
        if packed_pos_bit(self.data@, i) {
            1
        } else if packed_neg_bit(self.data@, i) {
            -1
        } else {
            0
        }
    }

    /// The all-zero vector.
    pub fn new_zero(len: usize) -> (r: PackedTritVec)
        ensures
            r.wf(),
            r.len@ == len,
            forall|i: int| 0 <= i < len ==> r.trit_at(i) == 0,
    {
        let words = if len > usize::MAX - 31 {
            proof {
                vstd::arithmetic::div_mod::lemma_div_plus_one((len - 1) as int, 32);
            }
            (len - 1) / 32 + 1
        } else {
            (len + 31) / 32
        };
        let mut data: Vec<u64> = Vec::new();
        for w in 0..words
            invariant
                data@.len() == w,
                forall|k: int| 0 <= k < w ==> data@[k] == 0u64,
        {
            data.push(0);
        }
        let r = PackedTritVec { len, data };
        proof {
            crate::bitsliced::lemma_const_words();
            assert forall|i: int| 0 <= i < r.data@.len() * 32 implies !packed_pos_bit(r.data@, i)
                && !packed_neg_bit(r.data@, i) by {
                lemma_div_below32(i, r.data@.len() as int);
            }
        }
        r
    }

    /// The number of trits.
    pub fn len(&self) -> (r: usize)
        ensures
            r == self.len@,
    {
        self.len
    }

    /// Whether the vector has no trits.
    pub fn is_empty(&self) -> (r: bool)
        ensures
            r == (self.len@ == 0),
    {
        self.len == 0
    }

    /// The raw interleaved words.
    pub fn data(&self) -> (r: &[u64])
        ensures
            r@ == self.data@,
    {
        self.data.as_slice()
    }

    /// The trit at lane `i`; `Z` out of range.
    pub fn get(&self, i: usize) -> (t: Trit)
        requires
            self.wf(),
        ensures
            i < self.len@ ==> t.value() == self.trit_at(i as int),
            i >= self.len@ ==> t == Trit::Z,
    {
        if i >= self.len {
            return Trit::Z;
        }
        let word = i / 32;
        let bit = (2 * (i % 32)) as u64;
        proof {
            crate::bitsliced::lemma_same_words32(self.data@.len() as int, self.len as int);
            lemma_div_below32(i as int, self.data@.len() as int);
            lemma_read_bit(self.data@[word as int], bit);
            lemma_read_bit(self.data@[word as int], (bit + 1) as u64);
        }
        let w = self.data[word];
        let p = (w >> bit) & 1;
        let n = (w >> (bit + 1)) & 1;
        proof {
            assert(bit as int == 2 * ((i as int) % 32));
            assert(packed_pos_bit(self.data@, i as int) == (p == 1u64));
            assert(packed_neg_bit(self.data@, i as int) == (n == 1u64));
            assert(p == 0u64 || p == 1u64) by (bit_vector)
                requires
                    p == (w >> bit) & 1u64,
            ;
            let b1 = (bit + 1) as u64;
            assert(n == 0u64 || n == 1u64) by (bit_vector)
                requires
                    n == (w >> b1) & 1u64,
            ;
        }
        if p == 1 && n == 0 {
            Trit::P
        } else if n == 1 && p == 0 {
            Trit::N
        } else {
            Trit::Z
        }
    }

    /// Set the trit at lane `i`; out-of-range writes are ignored.
    pub fn set(&mut self, i: usize, t: Trit)
        requires
            old(self).wf(),
        ensures
            final(self).wf(),
            final(self).len@ == old(self).len@,
            i < old(self).len@ ==> forall|k: int|
                0 <= k < old(self).len@ ==> final(self).trit_at(k) == (if k == i {
                    t.value()
                } else {
                    old(self).trit_at(k)
                }),
            i >= old(self).len@ ==> *final(self) == *old(self),
    {
        if i >= self.len {
            return ;
        }
        let word = i / 32;
        let pb = (2 * (i % 32)) as u64;
        let nb = pb + 1;
        proof {
            crate::bitsliced::lemma_same_words32(self.data@.len() as int, self.len as int);
            lemma_div_below32(i as int, self.data@.len() as int);
        }
        let w0 = self.data[word];
        proof {
            lemma_clear_bit(w0, pb);
            lemma_clear_bit(w0 & !(1u64 << pb), nb);
            lemma_set_bit(w0 & !(1u64 << pb) & !(1u64 << nb), pb);
            lemma_set_bit(w0 & !(1u64 << pb) & !(1u64 << nb), nb);
        }
        let cleared = w0 & !(1u64 << pb) & !(1u64 << nb);
        let nw: u64 = match t {
            Trit::P => cleared | (1u64 << pb),
            Trit::N => cleared | (1u64 << nb),
            Trit::Z => cleared,
        };
        self.data.set(word, nw);
        proof {
            let new = *self;
            let old0 = *old(self);
            let wi = word as int;
            assert forall|k: int| 0 <= k < new.data@.len() * 32 implies (packed_pos_bit(
                new.data@,
                k,
            ) == (if k == i {
                t == Trit::P
            } else {
                packed_pos_bit(old0.data@, k)
            })) && (packed_neg_bit(new.data@, k) == (if k == i {
                t == Trit::N
            } else {
                packed_neg_bit(old0.data@, k)
            })) by {
                lemma_div_below32(k, new.data@.len() as int);
                if k / 32 == wi {
                    assert(k == (k / 32) * 32 + k % 32) by {
                        vstd::arithmetic::div_mod::lemma_fundamental_div_mod(k, 32);
                    }
                    assert(i as int == wi * 32 + (i as int) % 32) by {
                        vstd::arithmetic::div_mod::lemma_fundamental_div_mod(i as int, 32);
                    }
                    assert(2 * (k % 32) < 64 && 2 * (k % 32) + 1 < 64);
                    // Distinct lanes in the same word use distinct bit pairs.
                    assert(k != i ==> k % 32 != (i as int) % 32);
                    assert(k != i ==> 2 * (k % 32) != 2 * ((i as int) % 32) && 2 * (k % 32)
                        != 2 * ((i as int) % 32) + 1 && 2 * (k % 32) + 1 != 2 * ((i as int) % 32)
                        && 2 * (k % 32) + 1 != 2 * ((i as int) % 32) + 1);
                } else {
                    assert(new.data@[k / 32] == old0.data@[k / 32]);
                }
            }
        }
    }

    /// Build from a sparse vector; indices at or past `len` are dropped.
    pub fn from_sparsevec(vec: &SparseVec, len: usize) -> (r: PackedTritVec)
        requires
            vec.wf(),
        ensures
            r.wf(),
            r.len@ == len,
            forall|i: int| 0 <= i < len ==> r.trit_at(i) == vec.lane(i as usize),
    {
        let mut out = PackedTritVec::new_zero(len);
        out.fill_in(vec, len);
        out
    }

    /// Refill from a sparse vector, replacing the contents.
    pub fn fill_from_sparsevec(&mut self, vec: &SparseVec, len: usize)
        requires
            vec.wf(),
        ensures
            final(self).wf(),
            final(self).len@ == len,
            forall|i: int| 0 <= i < len ==> final(self).trit_at(i) == vec.lane(i as usize),
    {
        let fresh = PackedTritVec::from_sparsevec(vec, len);
        *self = fresh;
    }

    /// Write a sparse vector's lanes into a zeroed vector.
    fn fill_in(&mut self, vec: &SparseVec, len: usize)
        requires
            vec.wf(),
            old(self).wf(),
            old(self).len@ == len,
            forall|i: int| 0 <= i < len ==> old(self).trit_at(i) == 0,
        ensures
            final(self).wf(),
            final(self).len@ == len,
            forall|i: int| 0 <= i < len ==> final(self).trit_at(i) == vec.lane(i as usize),
    {
        let np = vec.pos.len();
        proof {
            assert(vec.pos@.take(0) =~= Seq::<usize>::empty());
        }
        for j in 0..np
            invariant
                vec.wf(),
                self.wf(),
                self.len@ == len,
                np == vec.pos@.len(),
                forall|i: int|
                    0 <= i < len ==> self.trit_at(i) == (
                    if vec.pos@.take(j as int).contains(i as usize) {
                        1int
                    } else {
                        0int
                    }),
        {
            let idx = vec.pos[j];
            proof {
                crate::sparse::lemma_take_succ_contains(vec.pos@, j as int);
                assert(!vec.pos@.take(j as int).contains(idx)) by {
                    if vec.pos@.take(j as int).contains(idx) {
                        let k = choose|k: int|
                            0 <= k < j && #[trigger] vec.pos@.take(j as int)[k] == idx;
                        assert(vec.pos@[k] < vec.pos@[j as int]);
                    }
                }
            }
            if idx < len {
                self.set(idx, Trit::P);
            }
        }
        proof {
            assert(vec.pos@.take(np as int) =~= vec.pos@);
        }
        let nn = vec.neg.len();
        proof {
            assert(vec.neg@.take(0) =~= Seq::<usize>::empty());
        }
        for j in 0..nn
            invariant
                vec.wf(),
                self.wf(),
                self.len@ == len,
                nn == vec.neg@.len(),
                forall|i: int|
                    0 <= i < len ==> self.trit_at(i) == (if vec.pos@.contains(i as usize) {
                        1int
                    } else if vec.neg@.take(j as int).contains(i as usize) {
                        -1int
                    } else {
                        0int
                    }),
        {
            let idx = vec.neg[j];
            proof {
                crate::sparse::lemma_take_succ_contains(vec.neg@, j as int);
                assert(!vec.neg@.take(j as int).contains(idx)) by {
                    if vec.neg@.take(j as int).contains(idx) {
                        let k = choose|k: int|
                            0 <= k < j && #[trigger] vec.neg@.take(j as int)[k] == idx;
                        assert(vec.neg@[k] < vec.neg@[j as int]);
                    }
                }
                assert(!vec.pos@.contains(idx)) by {
                    assert(vec.neg@.contains(idx));
                }
            }
            if idx < len {
                self.set(idx, Trit::N);
            }
        }
        proof {
            assert(vec.neg@.take(nn as int) =~= vec.neg@);
        }
    }

    /// Collapse to a sparse vector: the sorted lists of +1 and −1 lanes.
    pub fn to_sparsevec(&self) -> (r: SparseVec)
        requires
            self.wf(),
        ensures
            sorted_strict(r.pos@),
            sorted_strict(r.neg@),
            forall|x: usize|
                #[trigger] r.pos@.contains(x) <==> (x < self.len@ && self.trit_at(x as int) == 1),
            forall|x: usize|
                #[trigger] r.neg@.contains(x) <==> (x < self.len@ && self.trit_at(x as int) == -1),
            self.len@ <= crate::sparse::DIM ==> r.wf(),
    {
        let mut pos: Vec<usize> = Vec::new();
        let mut neg: Vec<usize> = Vec::new();
        let n = self.len;
        for i in 0..n
            invariant
                self.wf(),
                n == self.len@,
                sorted_strict(pos@),
                sorted_strict(neg@),
                forall|k: int| 0 <= k < pos@.len() ==> #[trigger] pos@[k] < i,
                forall|k: int| 0 <= k < neg@.len() ==> #[trigger] neg@[k] < i,
                forall|x: usize|
                    #[trigger] pos@.contains(x) <==> (x < i && self.trit_at(x as int) == 1),
                forall|x: usize|
                    #[trigger] neg@.contains(x) <==> (x < i && self.trit_at(x as int) == -1),
        {
            let ghost ppos = pos@;
            let ghost pneg = neg@;
            let t = self.get(i);
            match t {
                Trit::P => {
                    pos.push(i);
                    proof {
                        crate::sparse::lemma_push_contains(ppos, pos@, i);
                        assert(forall|k: int| 0 <= k < ppos.len() ==> pos@[k] == ppos[k]);
                        assert(pos@.last() == i);
                    }
                },
                Trit::N => {
                    neg.push(i);
                    proof {
                        crate::sparse::lemma_push_contains(pneg, neg@, i);
                        assert(forall|k: int| 0 <= k < pneg.len() ==> neg@[k] == pneg[k]);
                        assert(neg@.last() == i);
                    }
                },
                Trit::Z => {},
            }
        }
        let r = SparseVec { pos, neg };
        proof {
            if self.len@ <= crate::sparse::DIM {
                assert forall|x: usize| !(r.pos@.contains(x) && #[trigger] r.neg@.contains(x)) by {}
                assert forall|k: int| 0 <= k < r.pos@.len() implies r.pos@[k]
                    < crate::sparse::DIM by {
                    assert(r.pos@.contains(r.pos@[k]));
                }
                assert forall|k: int| 0 <= k < r.neg@.len() implies r.neg@[k]
                    < crate::sparse::DIM by {
                    assert(r.neg@.contains(r.neg@[k]));
                }
            }
        }
        r
    }

    /// The exact ternary dot product, lane by lane.
    pub fn dot(&self, other: &PackedTritVec) -> (r: i32)
        requires
            self.wf(),
            other.wf(),
            self.len@ == other.len@,
            self.len@ <= i32::MAX,
        ensures
            r as int == packed_dot_upto(*self, *other, self.len@ as int),
    {
        let mut acc: i32 = 0;
        let n = self.len;
        for i in 0..n
            invariant
                self.wf(),
                other.wf(),
                self.len@ == other.len@,
                n == self.len@,
                n <= i32::MAX,
                acc as int == packed_dot_upto(*self, *other, i as int),
                -(i as int) <= acc as int <= i as int,
        {
            let m = self.get(i).mul(other.get(i));
            acc = acc + m.to_i8() as i32;
        }
        acc
    }

    /// Lane-wise trit multiplication.
    pub fn bind(&self, other: &PackedTritVec) -> (r: PackedTritVec)
        requires
            self.wf(),
            other.wf(),
            self.len@ == other.len@,
        ensures
            r.wf(),
            r.len@ == self.len@,
            forall|i: int|
                0 <= i < self.len@ ==> r.trit_at(i) == self.trit_at(i) * other.trit_at(i),
    {
        let n = self.len;
        let mut out = PackedTritVec::new_zero(n);
        for i in 0..n
            invariant
                self.wf(),
                other.wf(),
                out.wf(),
                self.len@ == other.len@,
                n == self.len@,
                out.len@ == n,
                forall|k: int| 0 <= k < i ==> out.trit_at(k) == self.trit_at(k) * other.trit_at(k),
                forall|k: int| i <= k < n ==> out.trit_at(k) == 0,
        {
            let m = self.get(i).mul(other.get(i));
            out.set(i, m);
        }
        out
    }

    /// Lane-wise trit multiplication into an existing vector.
    pub fn bind_into(&self, other: &PackedTritVec, out: &mut PackedTritVec)
        requires
            self.wf(),
            other.wf(),
            self.len@ == other.len@,
        ensures
            final(out).wf(),
            final(out).len@ == self.len@,
            forall|i: int|
                0 <= i < self.len@ ==> final(out).trit_at(i) == self.trit_at(i) * other.trit_at(
                    i,
                ),
    {
        let fresh = self.bind(other);
        *out = fresh;
    }

    /// Lane-wise saturating addition with conflict cancel.
    pub fn bundle(&self, other: &PackedTritVec) -> (r: PackedTritVec)
        requires
            self.wf(),
            other.wf(),
            self.len@ == other.len@,
        ensures
            r.wf(),
            r.len@ == self.len@,
            forall|i: int|
                0 <= i < self.len@ ==> r.trit_at(i) == Trit::add_saturating_spec(
                    crate::bitsliced::trit_of_value(self.trit_at(i)),
                    crate::bitsliced::trit_of_value(other.trit_at(i)),
                ).value(),
    {
        let n = self.len;
        let mut out = PackedTritVec::new_zero(n);
        for i in 0..n
            invariant
                self.wf(),
                other.wf(),
                out.wf(),
                self.len@ == other.len@,
                n == self.len@,
                out.len@ == n,
                forall|k: int|
                    0 <= k < i ==> out.trit_at(k) == Trit::add_saturating_spec(
                        crate::bitsliced::trit_of_value(self.trit_at(k)),
                        crate::bitsliced::trit_of_value(other.trit_at(k)),
                    ).value(),
                forall|k: int| i <= k < n ==> out.trit_at(k) == 0,
        {
            let m = self.get(i).add_saturating(other.get(i));
            out.set(i, m);
        }
        out
    }

    /// Lane-wise saturating addition into an existing vector.
    pub fn bundle_into(&self, other: &PackedTritVec, out: &mut PackedTritVec)
        requires
            self.wf(),
            other.wf(),
            self.len@ == other.len@,
        ensures
            final(out).wf(),
            final(out).len@ == self.len@,
            forall|i: int|
                0 <= i < self.len@ ==> final(out).trit_at(i) == Trit::add_saturating_spec(
                    crate::bitsliced::trit_of_value(self.trit_at(i)),
                    crate::bitsliced::trit_of_value(other.trit_at(i)),
                ).value(),
    {
        let fresh = self.bundle(other);
        *out = fresh;
    }
}

/// The packed dot product over the first `k` lanes.
pub open spec fn packed_dot_upto(a: PackedTritVec, b: PackedTritVec, k: int) -> int
    decreases k,
{
    if k <= 0 {
        0
    } else {
        packed_dot_upto(a, b, k - 1) + a.trit_at(k - 1) * b.trit_at(k - 1)
    }
}

} // verus!
