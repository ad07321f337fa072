//! Bitsliced ternary vectors: two parallel bit-planes of 64-bit words.
//!
//! Lane `i` is +1 when bit `i` of the positive plane is set, −1 when bit
//! `i` of the negative plane is set, and 0 otherwise. Both bits set is
//! disallowed at rest, and the trailing bits of the final word are kept
//! zero. Bind and bundle work word-wise with a handful of bitwise
//! operations; their contracts speak lane-wise, as trit algebra.

use vstd::prelude::*;

use crate::sparse::{sorted_strict, SparseVec};
use crate::ternary::Trit;

verus! {

broadcast use vstd::seq_lib::lemma_seq_contains_after_push;

/// Whether bit `b` of `w` is set.
pub open spec fn bitof(w: u64, b: int) -> bool {
    (w >> (b as u64)) & 1u64 == 1u64
}

/// Whether bit `i` of a bit-plane is set.
pub open spec fn plane_bit(p: Seq<u64>, i: int) -> bool {
    0 <= i < p.len() * 64 && bitof(p[i / 64], i % 64)
}

/// AND, OR and NOT act bitwise.
pub(crate) proof fn lemma_bitwise_ops(a: u64, b: u64)
    ensures
        forall|t: int|
            0 <= t < 64 ==> #[trigger] bitof(a & b, t) == (bitof(a, t) && bitof(b, t)),
        forall|t: int| 0 <= t < 64 ==> #[trigger] bitof(a | b, t) == (bitof(a, t) || bitof(b, t)),
        forall|t: int| 0 <= t < 64 ==> #[trigger] bitof(!a, t) == !bitof(a, t),
{
    assert forall|t: int| 0 <= t < 64 implies #[trigger] bitof(a & b, t) == (bitof(a, t) && bitof(
        b,
        t,
    )) by {
        let tu = t as u64;
        assert(((a & b) >> tu) & 1u64 == (if ((a >> tu) & 1u64 == 1u64) && ((b >> tu) & 1u64
            == 1u64) {
            1u64
        } else {
            0u64
        })) by (bit_vector)
            requires
                tu < 64,
        ;
    }
    assert forall|t: int| 0 <= t < 64 implies #[trigger] bitof(a | b, t) == (bitof(a, t) || bitof(
        b,
        t,
    )) by {
        let tu = t as u64;
        assert(((a | b) >> tu) & 1u64 == (if ((a >> tu) & 1u64 == 1u64) || ((b >> tu) & 1u64
            == 1u64) {
            1u64
        } else {
            0u64
        })) by (bit_vector)
            requires
                tu < 64,
        ;
    }
    assert forall|t: int| 0 <= t < 64 implies #[trigger] bitof(!a, t) == !bitof(a, t) by {
        let tu = t as u64;
        assert(((!a) >> tu) & 1u64 == (if (a >> tu) & 1u64 == 1u64 {
            0u64
        } else {
            1u64
        })) by (bit_vector)
            requires
                tu < 64,
        ;
    }
}

/// The all-zero and all-one words have all bits clear and set.
pub(crate) proof fn lemma_const_words()
    ensures
        forall|t: int| 0 <= t < 64 ==> !#[trigger] bitof(0u64, t),
        forall|t: int| 0 <= t < 64 ==> #[trigger] bitof(0xffff_ffff_ffff_ffffu64, t),
{
    assert forall|t: int| 0 <= t < 64 implies !#[trigger] bitof(0u64, t) by {
        let tu = t as u64;
        assert((0u64 >> tu) & 1u64 == 0u64) by (bit_vector)
            requires
                tu < 64,
        ;
    }
    assert forall|t: int| 0 <= t < 64 implies #[trigger] bitof(0xffff_ffff_ffff_ffffu64, t) by {
        let tu = t as u64;
        assert((0xffff_ffff_ffff_ffffu64 >> tu) & 1u64 == 1u64) by (bit_vector)
            requires
                tu < 64,
        ;
    }
}

/// Setting bit `b` of `w` sets exactly that bit.
pub(crate) proof fn lemma_set_bit(w: u64, b: u64)
    requires
        b < 64,
    ensures
        forall|t: int|
            0 <= t < 64 ==> #[trigger] bitof(w | (1u64 << b), t) == (bitof(w, t) || t == b),
{
    assert forall|t: int| 0 <= t < 64 implies #[trigger] bitof(w | (1u64 << b), t) == (bitof(w, t)
        || t == b) by {
        let tu = t as u64;
        assert(((w | (1u64 << b)) >> tu) & 1u64 == (if ((w >> tu) & 1u64 == 1u64) || tu == b {
            1u64
        } else {
            0u64
        })) by (bit_vector)
            requires
                tu < 64,
                b < 64,
        ;
    }
}

/// Clearing bit `b` of `w` clears exactly that bit.
pub(crate) proof fn lemma_clear_bit(w: u64, b: u64)
    requires
        b < 64,
    ensures
        forall|t: int|
            0 <= t < 64 ==> #[trigger] bitof(w & !(1u64 << b), t) == (bitof(w, t) && t != b),
{
    assert forall|t: int| 0 <= t < 64 implies #[trigger] bitof(w & !(1u64 << b), t) == (bitof(w, t)
        && t != b) by {
        let tu = t as u64;
        assert(((w & !(1u64 << b)) >> tu) & 1u64 == (if ((w >> tu) & 1u64 == 1u64) && tu != b {
            1u64
        } else {
            0u64
        })) by (bit_vector)
            requires
                tu < 64,
                b < 64,
        ;
    }
}

/// Reading bit `b` of `w` by shift-and-mask agrees with `bitof`.
pub(crate) proof fn lemma_read_bit(w: u64, b: u64)
    requires
        b < 64,
    ensures
        ((w >> b) & 1u64 == 1u64) == bitof(w, b as int),
{
}

/// An index below `w * 64` falls in a word below `w`.
pub(crate) proof fn lemma_div_below(i: int, w: int)
    requires
        0 <= i < w * 64,
    ensures
        i / 64 < w,
        0 <= i % 64 < 64,
{
    vstd::arithmetic::div_mod::lemma_div_is_ordered(i, w * 64 - 1, 64);
    assert(w * 64 - 1 == (w - 1) * 64 + 63) by (nonlinear_arith);
    vstd::arithmetic::div_mod::lemma_fundamental_div_mod_converse(w * 64 - 1, 64, w - 1, 63);
    vstd::arithmetic::div_mod::lemma_mod_bound(i, 64);
}

/// A bitsliced ternary vector of fixed logical length.
#[derive(Clone, Debug, PartialEq, Eq)]
pub struct BitslicedTritVec {
    /// Number of logical trits.
    pub len: usize,
    /// Positive plane: bit `i` set means lane `i` is +1.
    pub pos: Vec<u64>,
    /// Negative plane: bit `i` set means lane `i` is −1.
    pub neg: Vec<u64>,
}

impl BitslicedTritVec {
    /// Number of 64-bit words needed for `len` trits.
    pub open spec fn spec_word_count(len: int) -> int {
        (len + 63) / 64
    }

    /// Well-formedness: both planes sized to the length, no lane with both
    /// bits set, and the trailing bits of the final word clear.
    pub open spec fn wf(self) -> bool {
        &&& self.pos@.len() == Self::spec_word_count(self.len as int)
        &&& self.neg@.len() == Self::spec_word_count(self.len as int)
        &&& forall|i: int|
            self.len <= i < self.pos@.len() * 64 ==> !plane_bit(self.pos@, i) && !plane_bit(
                self.neg@,
                i,
            )
        &&& forall|i: int|
            0 <= i < self.len ==> !(plane_bit(self.pos@, i) && plane_bit(self.neg@, i))
    }

    /// The trit at lane `i`: +1, −1 or 0.
    pub open spec fn trit_at(self, i: int) -> int {
        if plane_bit(self.pos@, i) {
            1
        } else if plane_bit(self.neg@, i) {
            -1
        } else {
            0
        }
    }

    /// The number of non-zero lanes among the first `k`.
    pub open spec fn nnz_upto(self, k: int) -> int
        decreases k,
    {
        if k <= 0 {
            0
        } else {
            self.nnz_upto(k - 1) + if self.trit_at(k - 1) == 0 {
                0int
            } else {
                1int
            }
        }
    }

    /// Number of 64-bit words needed for `len` trits.
    pub fn word_count(len: usize) -> (r: usize)
        ensures
            r == Self::spec_word_count(len as int),
    {
        if len > usize::MAX - 63 {
            proof {
                vstd::arithmetic::div_mod::lemma_div_plus_one((len - 1) as int, 64);
            }
            (len - 1) / 64 + 1
        } else {
            (len + 63) / 64
        }
    }

    /// The all-zero vector of a given length.
    pub fn new_zero(len: usize) -> (r: BitslicedTritVec)
        ensures
            r.wf(),
            r.len@ == len,
            forall|i: int| 0 <= i < len ==> r.trit_at(i) == 0,
    {
        let words = Self::word_count(len);
        let mut pos: Vec<u64> = Vec::new();
        let mut neg: Vec<u64> = Vec::new();
        for w in 0..words
            invariant
                pos@.len() == w,
                neg@.len() == w,
                forall|k: int| 0 <= k < w ==> pos@[k] == 0u64 && neg@[k] == 0u64,
        {
            pos.push(0);
            neg.push(0);
        }
        let r = BitslicedTritVec { len, pos, neg };
        proof {
            lemma_const_words();
            lemma_same_words(r.pos@.len() as int, len as int);
            assert forall|i: int| 0 <= i < r.pos@.len() * 64 implies !plane_bit(r.pos@, i)
                && !plane_bit(r.neg@, i) by {
                vstd::arithmetic::div_mod::lemma_mod_bound(i, 64);
                vstd::arithmetic::div_mod::lemma_div_pos_is_pos(i, 64);
                lemma_div_below(i, r.pos@.len() as int);
            }
        }
        r
    }

    /// Build from raw planes. The caller supplies planes that already obey
    /// the representation invariant.
    pub fn from_raw(len: usize, pos: Vec<u64>, neg: Vec<u64>) -> (r: BitslicedTritVec)
        requires
            pos@.len() == Self::spec_word_count(len as int),
            neg@.len() == Self::spec_word_count(len as int),
            forall|i: int|
                len <= i < pos@.len() * 64 ==> !plane_bit(pos@, i) && !plane_bit(neg@, i),
            forall|i: int| 0 <= i < len ==> !(plane_bit(pos@, i) && plane_bit(neg@, i)),
        ensures
            r.wf(),
            r.len@ == len,
            r.pos@ == pos@,
            r.neg@ == neg@,
    {
        BitslicedTritVec { len, pos, neg }
    }

    /// The number of trits.
    pub fn len(&self) -> (r: usize)
        ensures
            r == self.len@,
    {
        self.len
    }

    /// Whether the vector has no trits.
    pub fn is_empty(&self) -> (r: bool)
        ensures
            r == (self.len@ == 0),
    {
        self.len == 0
    }

    /// Read-only access to the positive plane.
    pub fn pos_plane(&self) -> (r: &[u64])
        ensures
            r@ == self.pos@,
    {
        self.pos.as_slice()
    }

    /// Read-only access to the negative plane.
    pub fn neg_plane(&self) -> (r: &[u64])
        ensures
            r@ == self.neg@,
    {
        self.neg.as_slice()
    }

    /// One word of the positive plane; zero out of range.
    pub fn pos_word(&self, word_idx: usize) -> (r: u64)
        ensures
            r == if word_idx < self.pos@.len() {
                self.pos@[word_idx as int]
            } else {
                0u64
            },
    {
        if word_idx < self.pos.len() {
            self.pos[word_idx]
        } else {
            0
        }
    }

    /// One word of the negative plane; zero out of range.
    pub fn neg_word(&self, word_idx: usize) -> (r: u64)
        ensures
            r == if word_idx < self.neg@.len() {
                self.neg@[word_idx as int]
            } else {
                0u64
            },
    {
        if word_idx < self.neg.len() {
            self.neg[word_idx]
        } else {
            0
        }
    }

    /// The trit at lane `i`; `Z` out of range.
    pub fn get(&self, i: usize) -> (t: Trit)
        requires
            self.wf(),
        ensures
            i < self.len@ ==> t.value() == self.trit_at(i as int),
            i >= self.len@ ==> t == Trit::Z,
    {
        if i >= self.len {
            return Trit::Z;
        }
        let word = i / 64;
        let bit = (i % 64) as u64;
        proof {
            vstd::arithmetic::div_mod::lemma_mod_bound(i as int, 64);
            vstd::arithmetic::div_mod::lemma_div_pos_is_pos(i as int, 64);
            lemma_div_below(i as int, self.pos@.len() as int);
            lemma_read_bit(self.pos@[word as int], bit);
            lemma_read_bit(self.neg@[word as int], bit);
        }
        let p = (self.pos[word] >> bit) & 1;
        let n = (self.neg[word] >> bit) & 1;
        if p == 1 {
            Trit::P
        } else if n == 1 {
            Trit::N
        } else {
            Trit::Z
        }
    }

    /// Set the trit at lane `i`; out-of-range writes are ignored.
    pub fn set(&mut self, i: usize, t: Trit)
        requires
            old(self).wf(),
        ensures
            final(self).wf(),
            final(self).len@ == old(self).len@,
            i < old(self).len@ ==> forall|k: int|
                0 <= k < old(self).len@ ==> final(self).trit_at(k) == (if k == i {
                    t.value()
                } else {
                    old(self).trit_at(k)
                }),
            i >= old(self).len@ ==> *final(self) == *old(self),
    {
        if i >= self.len {
            return ;
        }
        let word = i / 64;
        let bit = (i % 64) as u64;
        proof {
            vstd::arithmetic::div_mod::lemma_mod_bound(i as int, 64);
            vstd::arithmetic::div_mod::lemma_div_pos_is_pos(i as int, 64);
            lemma_div_below(i as int, self.pos@.len() as int);
        }
        let mask: u64 = 1u64 << bit;
        let pw = self.pos[word];
        let nw = self.neg[word];
        proof {
            lemma_clear_bit(pw, bit);
            lemma_clear_bit(nw, bit);
            lemma_set_bit(pw & !(1u64 << bit), bit);
            lemma_set_bit(nw & !(1u64 << bit), bit);
        }
        let (npw, nnw): (u64, u64) = match t {
            Trit::P => ((pw & !mask) | mask, nw & !mask),
            Trit::N => (pw & !mask, (nw & !mask) | mask),
            Trit::Z => (pw & !mask, nw & !mask),
        };
        self.pos.set(word, npw);
        self.neg.set(word, nnw);
        proof {
            let new = *self;
            let old0 = *old(self);
            assert forall|k: int| 0 <= k < new.pos@.len() * 64 && k / 64 != word as int implies (
            plane_bit(new.pos@, k) == plane_bit(old0.pos@, k) && plane_bit(new.neg@, k)
                == plane_bit(old0.neg@, k)) by {}
            assert forall|k: int| 0 <= k < new.pos@.len() * 64 && k / 64 == word as int implies (
            plane_bit(new.pos@, k) == (if k == i {
                t == Trit::P
            } else {
                plane_bit(old0.pos@, k)
            }) && plane_bit(new.neg@, k) == (if k == i {
                t == Trit::N
            } else {
                plane_bit(old0.neg@, k)
            })) by {
                vstd::arithmetic::div_mod::lemma_mod_bound(k, 64);
                assert(k == (k / 64) * 64 + k % 64) by {
                    vstd::arithmetic::div_mod::lemma_fundamental_div_mod(k, 64);
                }
                assert(i as int == (i as int / 64) * 64 + (i as int) % 64) by {
                    vstd::arithmetic::div_mod::lemma_fundamental_div_mod(i as int, 64);
                }
            }
            assert forall|k: int|
                new.len <= k < new.pos@.len() * 64 implies !plane_bit(new.pos@, k) && !plane_bit(
                new.neg@,
                k,
            ) by {}
        }
    }

    /// A verified copy of the vector.
    pub fn clone_vec(&self) -> (r: BitslicedTritVec)
        ensures
            r.len == self.len,
            r.pos@ == self.pos@,
            r.neg@ == self.neg@,
    {
        BitslicedTritVec { len: self.len, pos: clone_words(&self.pos), neg: clone_words(&self.neg) }
    }

    /// Count the non-zero lanes.
    pub fn nnz(&self) -> (r: usize)
        requires
            self.wf(),
        ensures
            r as int == self.nnz_upto(self.len@ as int),
            r <= self.len@,
    {
        let mut r: usize = 0;
        let n = self.len;
        for i in 0..n
            invariant
                self.wf(),
                n == self.len@,
                r as int == self.nnz_upto(i as int),
                r <= i,
        {
            let t = self.get(i);
            if !t.is_zero() {
                r = r + 1;
            }
        }
        r
    }

    /// Word-wise bind: lane-wise trit multiplication.
    pub fn bind(&self, other: &BitslicedTritVec) -> (r: BitslicedTritVec)
        requires
            self.wf(),
            other.wf(),
            self.len@ == other.len@,
        ensures
            r.wf(),
            r.len@ == self.len@,
            forall|i: int|
                0 <= i < self.len@ ==> r.trit_at(i) == self.trit_at(i) * other.trit_at(i),
    {
        let words = self.pos.len();
        let mut pos: Vec<u64> = Vec::new();
        let mut neg: Vec<u64> = Vec::new();
        for w in 0..words
            invariant
                self.wf(),
                other.wf(),
                self.len@ == other.len@,
                words == self.pos@.len(),
                pos@.len() == w,
                neg@.len() == w,
                forall|k: int|
                    0 <= k < w ==> #[trigger] pos@[k] == (self.pos@[k] & other.pos@[k]) | (
                    self.neg@[k] & other.neg@[k]),
                forall|k: int|
                    0 <= k < w ==> #[trigger] neg@[k] == (self.pos@[k] & other.neg@[k]) | (
                    self.neg@[k] & other.pos@[k]),
        {
            let ap = self.pos[w];
            let an = self.neg[w];
            let bp = other.pos[w];
            let bn = other.neg[w];
            pos.push((ap & bp) | (an & bn));
            neg.push((ap & bn) | (an & bp));
        }
        let r = BitslicedTritVec { len: self.len, pos, neg };
        proof {
            lemma_same_words(self.pos@.len() as int, self.len as int);
            assert forall|i: int| 0 <= i < r.pos@.len() * 64 implies (plane_bit(r.pos@, i) == ((
            plane_bit(self.pos@, i) && plane_bit(other.pos@, i)) || (plane_bit(self.neg@, i)
                && plane_bit(other.neg@, i)))) && (plane_bit(r.neg@, i) == ((plane_bit(
                self.pos@,
                i,
            ) && plane_bit(other.neg@, i)) || (plane_bit(self.neg@, i) && plane_bit(
                other.pos@,
                i,
            )))) by {
                lemma_div_below(i, r.pos@.len() as int);
                let wi = i / 64;
                let ap = self.pos@[wi];
                let an = self.neg@[wi];
                let bp = other.pos@[wi];
                let bn = other.neg@[wi];
                lemma_bitwise_ops(ap, bp);
                lemma_bitwise_ops(an, bn);
                lemma_bitwise_ops(ap, bn);
                lemma_bitwise_ops(an, bp);
                lemma_bitwise_ops(ap & bp, an & bn);
                lemma_bitwise_ops(ap & bn, an & bp);
            }
            assert forall|i: int|
                r.len <= i < r.pos@.len() * 64 implies !plane_bit(r.pos@, i) && !plane_bit(
                r.neg@,
                i,
            ) by {}
            assert forall|i: int| 0 <= i < self.len@ implies r.trit_at(i) == self.trit_at(i)
                * other.trit_at(i) by {}
        }
        r
    }

    /// Word-wise bundle: lane-wise saturating addition with conflict
    /// cancel.
    pub fn bundle(&self, other: &BitslicedTritVec) -> (r: BitslicedTritVec)
        requires
            self.wf(),
            other.wf(),
            self.len@ == other.len@,
        ensures
            r.wf(),
            r.len@ == self.len@,
            forall|i: int|
                0 <= i < self.len@ ==> r.trit_at(i) == crate::ternary::Trit::add_saturating_spec(
                    trit_of_value(self.trit_at(i)),
                    trit_of_value(other.trit_at(i)),
                ).value(),
    {
        let words = self.pos.len();
        let mut pos: Vec<u64> = Vec::new();
        let mut neg: Vec<u64> = Vec::new();
        for w in 0..words
            invariant
                self.wf(),
                other.wf(),
                self.len@ == other.len@,
                words == self.pos@.len(),
                pos@.len() == w,
                neg@.len() == w,
                forall|k: int|
                    0 <= k < w ==> #[trigger] pos@[k] == (self.pos@[k] & !other.neg@[k]) | (
                    other.pos@[k] & !self.neg@[k]),
                forall|k: int|
                    0 <= k < w ==> #[trigger] neg@[k] == (self.neg@[k] & !other.pos@[k]) | (
                    other.neg@[k] & !self.pos@[k]),
        {
            let ap = self.pos[w];
            let an = self.neg[w];
            let bp = other.pos[w];
            let bn = other.neg[w];
            pos.push((ap & !bn) | (bp & !an));
            neg.push((an & !bp) | (bn & !ap));
        }
        let r = BitslicedTritVec { len: self.len, pos, neg };
        proof {
            lemma_same_words(self.pos@.len() as int, self.len as int);
            assert forall|i: int| 0 <= i < r.pos@.len() * 64 implies (plane_bit(r.pos@, i) == ((
            plane_bit(self.pos@, i) && !plane_bit(other.neg@, i)) || (plane_bit(other.pos@, i)
                && !plane_bit(self.neg@, i)))) && (plane_bit(r.neg@, i) == ((plane_bit(
                self.neg@,
                i,
            ) && !plane_bit(other.pos@, i)) || (plane_bit(other.neg@, i) && !plane_bit(
                self.pos@,
                i,
            )))) by {
                lemma_div_below(i, r.pos@.len() as int);
                let wi = i / 64;
                let ap = self.pos@[wi];
                let an = self.neg@[wi];
                let bp = other.pos@[wi];
                let bn = other.neg@[wi];
                lemma_bitwise_ops(bn, bn);
                lemma_bitwise_ops(an, an);
                lemma_bitwise_ops(bp, bp);
                lemma_bitwise_ops(ap, ap);
                lemma_bitwise_ops(ap, !bn);
                lemma_bitwise_ops(bp, !an);
                lemma_bitwise_ops(an, !bp);
                lemma_bitwise_ops(bn, !ap);
                lemma_bitwise_ops(ap & !bn, bp & !an);
                lemma_bitwise_ops(an & !bp, bn & !ap);
            }
            assert forall|i: int|
                r.len <= i < r.pos@.len() * 64 implies !plane_bit(r.pos@, i) && !plane_bit(
                r.neg@,
                i,
            ) by {}
            assert forall|i: int| 0 <= i < r.len implies !(plane_bit(r.pos@, i) && plane_bit(
                r.neg@,
                i,
            )) by {}
            assert forall|i: int|
                0 <= i < self.len@ implies r.trit_at(i)
                == crate::ternary::Trit::add_saturating_spec(
                trit_of_value(self.trit_at(i)),
                trit_of_value(other.trit_at(i)),
            ).value() by {}
        }
        r
    }

    /// Bind in place: overwrite `out` with the lane-wise product of the
    /// two operands.
    pub fn bind_into(&self, other: &BitslicedTritVec, out: &mut BitslicedTritVec)
        requires
            self.wf(),
            other.wf(),
            self.len@ == other.len@,
        ensures
            final(out).wf(),
            final(out).len@ == self.len@,
            forall|i: int|
                0 <= i < self.len@ ==> final(out).trit_at(i) == self.trit_at(i) * other.trit_at(
                    i,
                ),
    {
        *out = self.bind(other);
    }

    /// Bundle in place: overwrite `out` with the saturating lane-wise sum
    /// of the two operands.
    pub fn bundle_into(&self, other: &BitslicedTritVec, out: &mut BitslicedTritVec)
        requires
            self.wf(),
            other.wf(),
            self.len@ == other.len@,
        ensures
            final(out).wf(),
            final(out).len@ == self.len@,
            forall|i: int|
                0 <= i < self.len@ ==> final(out).trit_at(i)
                    == crate::ternary::Trit::add_saturating_spec(
                    trit_of_value(self.trit_at(i)),
                    trit_of_value(other.trit_at(i)),
                ).value(),
    {
        *out = self.bundle(other);
    }

    /// Swap the planes: every lane negates.
    pub fn negate(&self) -> (r: BitslicedTritVec)
        requires
            self.wf(),
        ensures
            r.wf(),
            r.len@ == self.len@,
            forall|i: int| 0 <= i < self.len@ ==> r.trit_at(i) == -self.trit_at(i),
    {
        let r = BitslicedTritVec {
            len: self.len,
            pos: clone_words(&self.neg),
            neg: clone_words(&self.pos),
        };
        proof {
            assert forall|i: int| 0 <= i < self.len@ implies r.trit_at(i) == -self.trit_at(i) by {}
        }
        r
    }

    /// Swap the planes, with the same effect as `negate`, accepting any
    /// value: the planes trade places whether or not the invariant holds.
    pub fn negate_checked(&self) -> (r: BitslicedTritVec)
        ensures
            r.len == self.len,
            r.pos@ == self.neg@,
            r.neg@ == self.pos@,
            self.wf() ==> r.wf(),
            self.wf() ==> forall|i: int| 0 <= i < self.len ==> r.trit_at(i) == -self.trit_at(i),
    {
        let r = BitslicedTritVec {
            len: self.len,
            pos: clone_words(&self.neg),
            neg: clone_words(&self.pos),
        };
        proof {
            if self.wf() {
                assert forall|i: int| 0 <= i < self.len implies r.trit_at(i) == -self.trit_at(
                    i,
                ) by {}
            }
        }
        r
    }

    /// Swap the planes in place.
    pub fn negate_in_place(&mut self)
        requires
            old(self).wf(),
        ensures
            final(self).wf(),
            final(self).len@ == old(self).len@,
            forall|i: int|
                0 <= i < old(self).len@ ==> final(self).trit_at(i) == -old(self).trit_at(i),
    {
        let r = self.negate();
        *self = r;
    }

    /// The exact ternary dot product, lane by lane.
    pub fn dot(&self, other: &BitslicedTritVec) -> (r: i32)
        requires
            self.wf(),
            other.wf(),
            self.len@ == other.len@,
            self.len@ <= i32::MAX,
        ensures
            r as int == dot_upto(*self, *other, self.len@ as int),
    {
        let mut acc: i32 = 0;
        let n = self.len;
        for i in 0..n
            invariant
                self.wf(),
                other.wf(),
                self.len@ == other.len@,
                n == self.len@,
                n <= i32::MAX,
                acc as int == dot_upto(*self, *other, i as int),
                -(i as int) <= acc as int <= i as int,
        {
            let a = self.get(i);
            let b = other.get(i);
            let m = a.mul(b);
            acc = acc + m.to_i8() as i32;
        }
        acc
    }
}

/// The trit with the given value in −1..=1.
pub open spec fn trit_of_value(v: int) -> Trit {
    if v == 1 {
        Trit::P
    } else if v == -1 {
        Trit::N
    } else {
        Trit::Z
    }
}

/// The dot product over the first `k` lanes.
pub open spec fn dot_upto(a: BitslicedTritVec, b: BitslicedTritVec, k: int) -> int
    decreases k,
{
    if k <= 0 {
        0
    } else {
        dot_upto(a, b, k - 1) + a.trit_at(k - 1) * b.trit_at(k - 1)
    }
}

/// A word count times 64 covers the length.
pub(crate) proof fn lemma_same_words(words: int, len: int)
    requires
        words == (len + 63) / 64,
        len >= 0,
    ensures
        words * 64 >= len,
{
    vstd::arithmetic::div_mod::lemma_fundamental_div_mod(len + 63, 64);
    vstd::arithmetic::div_mod::lemma_mod_bound(len + 63, 64);
}

/// A 32-lane word count times 32 covers the length.
pub(crate) proof fn lemma_same_words32(words: int, len: int)
    requires
        words == (len + 31) / 32,
        len >= 0,
    ensures
        words * 32 >= len,
{
    vstd::arithmetic::div_mod::lemma_fundamental_div_mod(len + 31, 32);
    vstd::arithmetic::div_mod::lemma_mod_bound(len + 31, 32);
}

/// A copy of a word vector.
fn clone_words(v: &Vec<u64>) -> (r: Vec<u64>)
    ensures
        r@ == v@,
{
    let mut r: Vec<u64> = Vec::new();
    let n = v.len();
    for i in 0..n
        invariant
            n == v@.len(),
            r@ == v@.take(i as int),
    {
        r.push(v[i]);
        proof {
            assert(r@ =~= v@.take(i + 1));
        }
    }
    proof {
        assert(v@.take(n as int) =~= v@);
    }
    r
}


/// The source lane that a cyclic shift by `s` reads for output lane `i`.
pub open spec fn src_lane(i: int, shift: int, len: int) -> int {
    (i + len - (shift % len)) % len
}

impl BitslicedTritVec {
    /// Cyclic permutation, lane by lane: output lane `i` carries the trit
    /// of source lane `(i − shift) mod len`.
    pub fn permute(&self, shift: usize) -> (r: BitslicedTritVec)
        requires
            self.wf(),
        ensures
            r.wf(),
            r.len@ == self.len@,
            forall|i: int|
                0 <= i < self.len@ ==> r.trit_at(i) == self.trit_at(
                    src_lane(i, shift as int, self.len@ as int),
                ),
    {
        let len = self.len;
        let mut out = BitslicedTritVec::new_zero(len);
        if len == 0 {
            return out;
        }
        let s = shift % len;
        for i in 0..len
            invariant
                self.wf(),
                out.wf(),
                len == self.len@,
                len >= 1,
                out.len@ == len,
                s == shift as int % len as int,
                s < len,
                forall|k: int|
                    0 <= k < i ==> out.trit_at(k) == self.trit_at(
                        src_lane(k, shift as int, len as int),
                    ),
        {
            let si = if i >= s {
                i - s
            } else {
                i + (len - s)
            };
            proof {
                if i >= s {
                    vstd::arithmetic::div_mod::lemma_mod_add_multiples_vanish(
                        (i - s) as int,
                        len as int,
                    );
                    vstd::arithmetic::div_mod::lemma_small_mod((i - s) as nat, len as nat);
                } else {
                    vstd::arithmetic::div_mod::lemma_small_mod(
                        (i + len - s) as nat,
                        len as nat,
                    );
                }
                assert(si as int == src_lane(i as int, shift as int, len as int));
            }
            let t = self.get(si);
            out.set(i, t);
        }
        out
    }

    /// Permute by whole-word rotation where the length and the shift are
    /// both multiples of 64; otherwise fall back to the lane-by-lane
    /// reference path. Both paths compute the same permutation.
    pub fn permute_optimized(&self, shift: usize) -> (r: BitslicedTritVec)
        requires
            self.wf(),
        ensures
            r.wf(),
            r.len@ == self.len@,
            forall|i: int|
                0 <= i < self.len@ ==> r.trit_at(i) == self.trit_at(
                    src_lane(i, shift as int, self.len@ as int),
                ),
    {
        let len = self.len;
        if len == 0 || len % 64 != 0 {
            return self.permute(shift);
        }
        let s = shift % len;
        if s % 64 != 0 {
            return self.permute(shift);
        }
        // Aligned: rotate whole words.
        let q = s / 64;
        let words = self.pos.len();
        proof {
            assert(words == (len + 63) / 64);
            assert(words * 64 == len) by {
                vstd::arithmetic::div_mod::lemma_fundamental_div_mod(len as int + 63, 64);
                vstd::arithmetic::div_mod::lemma_fundamental_div_mod(len as int, 64);
                vstd::arithmetic::div_mod::lemma_mod_bound(len as int + 63, 64);
            }
            assert(q < words) by {
                vstd::arithmetic::div_mod::lemma_div_is_ordered(s as int, len as int - 1, 64);
                vstd::arithmetic::div_mod::lemma_fundamental_div_mod_converse(
                    len as int - 1,
                    64,
                    words as int - 1,
                    63,
                );
            }
        }
        let mut pos: Vec<u64> = Vec::new();
        let mut neg: Vec<u64> = Vec::new();
        for w in 0..words
            invariant
                self.wf(),
                len == self.len@,
                words == self.pos@.len(),
                words * 64 == len,
                q < words,
                pos@.len() == w,
                neg@.len() == w,
                forall|k: int|
                    0 <= k < w ==> #[trigger] pos@[k] == self.pos@[(k + words - q) % (
                    words as int)],
                forall|k: int|
                    0 <= k < w ==> #[trigger] neg@[k] == self.neg@[(k + words - q) % (
                    words as int)],
        {
            let sw = (w + words - q) % words;
            proof {
                vstd::arithmetic::div_mod::lemma_mod_bound((w + words - q) as int, words as int);
            }
            pos.push(self.pos[sw]);
            neg.push(self.neg[sw]);
        }
        let r = BitslicedTritVec { len, pos, neg };
        proof {
            let wordsi = words as int;
            let leni = len as int;
            let si = s as int;
            assert(si == shift as int % leni);
            assert(si == 64 * (q as int)) by {
                vstd::arithmetic::div_mod::lemma_fundamental_div_mod(si, 64);
            }
            assert forall|i: int| 0 <= i < leni implies (plane_bit(r.pos@, i) == plane_bit(
                self.pos@,
                src_lane(i, shift as int, leni),
            )) && (plane_bit(r.neg@, i) == plane_bit(self.neg@, src_lane(i, shift as int, leni)))
                && 0 <= src_lane(i, shift as int, leni) < leni by {
                lemma_div_below(i, wordsi);
                let wi = i / 64;
                let b = i % 64;
                let sw = (wi + wordsi - q) % wordsi;
                vstd::arithmetic::div_mod::lemma_mod_bound(wi + wordsi - q, wordsi);
                assert(r.pos@[wi] == self.pos@[sw]);
                assert(r.neg@[wi] == self.neg@[sw]);
                // The rotated word carries the lanes shifted by 64·q.
                assert(src_lane(i, shift as int, leni) == 64 * sw + b) by {
                    assert(i + leni - si == 64 * (wi + wordsi - q) + b) by {
                        vstd::arithmetic::div_mod::lemma_fundamental_div_mod(i, 64);
                        assert(64 * (wi + wordsi - q) == 64 * wi + 64 * wordsi - 64 * q)
                            by (nonlinear_arith);
                    }
                    lemma_mul_mod_split(wi + wordsi - q, b, wordsi);
                }
                assert(plane_bit(self.pos@, 64 * sw + b) == bitof(self.pos@[sw], b)) by {
                    lemma_mul_div_mod(sw, b, wordsi);
                }
                assert(plane_bit(self.neg@, 64 * sw + b) == bitof(self.neg@[sw], b)) by {
                    lemma_mul_div_mod(sw, b, wordsi);
                }
                assert(plane_bit(r.pos@, i) == bitof(r.pos@[wi], b));
                assert(plane_bit(r.neg@, i) == bitof(r.neg@[wi], b));
            }
            assert forall|i: int|
                r.len <= i < r.pos@.len() * 64 implies !plane_bit(r.pos@, i) && !plane_bit(
                r.neg@,
                i,
            ) by {}
            assert forall|i: int| 0 <= i < leni implies r.trit_at(i) == self.trit_at(
                src_lane(i, shift as int, leni),
            ) by {}
        }
        r
    }

    /// Build from a sparse vector: lane `i` takes the sparse vector's sign
    /// at `i`; indices at or beyond `len` are dropped.
    pub fn from_sparse(sparse: &SparseVec, len: usize) -> (r: BitslicedTritVec)
        requires
            sparse.wf(),
        ensures
            r.wf(),
            r.len@ == len,
            forall|i: int|
                0 <= i < len ==> r.trit_at(i) == sparse.lane(i as usize),
    {
        let mut out = BitslicedTritVec::new_zero(len);
        let np = sparse.pos.len();
        proof {
            assert(sparse.pos@.take(0) =~= Seq::<usize>::empty());
        }
        for j in 0..np
            invariant
                sparse.wf(),
                out.wf(),
                out.len@ == len,
                np == sparse.pos@.len(),
                forall|i: int|
                    0 <= i < len ==> out.trit_at(i) == (
                    if sparse.pos@.take(j as int).contains(i as usize) {
                        1int
                    } else {
                        0int
                    }),
        {
            let idx = sparse.pos[j];
            proof {
                crate::sparse::lemma_take_succ_contains(sparse.pos@, j as int);
                assert(!sparse.pos@.take(j as int).contains(idx)) by {
                    if sparse.pos@.take(j as int).contains(idx) {
                        let k = choose|k: int|
                            0 <= k < j && #[trigger] sparse.pos@.take(j as int)[k] == idx;
                        assert(sparse.pos@[k] < sparse.pos@[j as int]);
                    }
                }
            }
            if idx < len {
                out.set(idx, Trit::P);
            }
        }
        proof {
            assert(sparse.pos@.take(np as int) =~= sparse.pos@);
        }
        let nn = sparse.neg.len();
        proof {
            assert(sparse.neg@.take(0) =~= Seq::<usize>::empty());
        }
        for j in 0..nn
            invariant
                sparse.wf(),
                out.wf(),
                out.len@ == len,
                nn == sparse.neg@.len(),
                forall|i: int|
                    0 <= i < len ==> out.trit_at(i) == (if sparse.pos@.contains(i as usize) {
                        1int
                    } else if sparse.neg@.take(j as int).contains(i as usize) {
                        -1int
                    } else {
                        0int
                    }),
        {
            let idx = sparse.neg[j];
            proof {
                crate::sparse::lemma_take_succ_contains(sparse.neg@, j as int);
                assert(!sparse.neg@.take(j as int).contains(idx)) by {
                    if sparse.neg@.take(j as int).contains(idx) {
                        let k = choose|k: int|
                            0 <= k < j && #[trigger] sparse.neg@.take(j as int)[k] == idx;
                        assert(sparse.neg@[k] < sparse.neg@[j as int]);
                    }
                }
                assert(!sparse.pos@.contains(idx)) by {
                    assert(sparse.neg@.contains(idx));
                }
            }
            if idx < len {
                out.set(idx, Trit::N);
            }
        }
        proof {
            assert(sparse.neg@.take(nn as int) =~= sparse.neg@);
        }
        out
    }

    /// Collapse to a sparse vector: the sorted lists of +1 and −1 lanes.
    pub fn to_sparse(&self) -> (r: SparseVec)
        requires
            self.wf(),
        ensures
            sorted_strict(r.pos@),
            sorted_strict(r.neg@),
            forall|x: usize| #[trigger] r.pos@.contains(x) <==> (x < self.len@ && self.trit_at(x as int) == 1),
            forall|x: usize| #[trigger] r.neg@.contains(x) <==> (x < self.len@ && self.trit_at(x as int) == -1),
            self.len@ <= crate::sparse::DIM ==> r.wf(),
    {
        let mut pos: Vec<usize> = Vec::new();
        let mut neg: Vec<usize> = Vec::new();
        let n = self.len;
        for i in 0..n
            invariant
                self.wf(),
                n == self.len@,
                sorted_strict(pos@),
                sorted_strict(neg@),
                forall|k: int| 0 <= k < pos@.len() ==> #[trigger] pos@[k] < i,
                forall|k: int| 0 <= k < neg@.len() ==> #[trigger] neg@[k] < i,
                forall|x: usize|
                    #[trigger] pos@.contains(x) <==> (x < i && self.trit_at(x as int) == 1),
                forall|x: usize|
                    #[trigger] neg@.contains(x) <==> (x < i && self.trit_at(x as int) == -1),
        {
            let ghost ppos = pos@;
            let ghost pneg = neg@;
            let t = self.get(i);
            match t {
                Trit::P => {
                    pos.push(i);
                    proof {
                        crate::sparse::lemma_push_contains(ppos, pos@, i);
                        assert(forall|k: int| 0 <= k < ppos.len() ==> pos@[k] == ppos[k]);
                        assert(pos@.last() == i);
                    }
                },
                Trit::N => {
                    neg.push(i);
                    proof {
                        crate::sparse::lemma_push_contains(pneg, neg@, i);
                        assert(forall|k: int| 0 <= k < pneg.len() ==> neg@[k] == pneg[k]);
                        assert(neg@.last() == i);
                    }
                },
                Trit::Z => {},
            }
        }
        let r = SparseVec { pos, neg };
        proof {
            if self.len@ <= crate::sparse::DIM {
                assert forall|x: usize| !(r.pos@.contains(x) && #[trigger] r.neg@.contains(x)) by {}
                assert forall|k: int| 0 <= k < r.pos@.len() implies r.pos@[k]
                    < crate::sparse::DIM by {
                    assert(r.pos@.contains(r.pos@[k]));
                }
                assert forall|k: int| 0 <= k < r.neg@.len() implies r.neg@[k]
                    < crate::sparse::DIM by {
                    assert(r.neg@.contains(r.neg@[k]));
                }
            }
        }
        r
    }

    /// Overwrite one word of the positive plane. The new word must respect
    /// the representation: no overlap with the negative plane and no bits
    /// past the logical length.
    pub fn set_pos_word(&mut self, word_idx: usize, value: u64)
        requires
            old(self).wf(),
            word_idx < old(self).pos@.len(),
            forall|t: int|
                0 <= t < 64 ==> !(#[trigger] bitof(value, t) && bitof(
                    old(self).neg@[word_idx as int],
                    t,
                )),
            forall|t: int|
                0 <= t < 64 && word_idx * 64 + t >= old(self).len@ ==> !#[trigger] bitof(value, t),
        ensures
            final(self).wf(),
            final(self).len@ == old(self).len@,
            final(self).pos@ == old(self).pos@.update(word_idx as int, value),
            final(self).neg@ == old(self).neg@,
    {
        self.pos.set(word_idx, value);
        proof {
            lemma_wf_after_plane_update(
                *old(self),
                *self,
                old(self).pos@,
                self.pos@,
                old(self).neg@,
                word_idx as int,
                value,
            );
        }
    }

    /// Overwrite one word of the negative plane, under the same conditions
    /// as `set_pos_word`.
    pub fn set_neg_word(&mut self, word_idx: usize, value: u64)
        requires
            old(self).wf(),
            word_idx < old(self).neg@.len(),
            forall|t: int|
                0 <= t < 64 ==> !(#[trigger] bitof(value, t) && bitof(
                    old(self).pos@[word_idx as int],
                    t,
                )),
            forall|t: int|
                0 <= t < 64 && word_idx * 64 + t >= old(self).len@ ==> !#[trigger] bitof(value, t),
        ensures
            final(self).wf(),
            final(self).len@ == old(self).len@,
            final(self).neg@ == old(self).neg@.update(word_idx as int, value),
            final(self).pos@ == old(self).pos@,
    {
        self.neg.set(word_idx, value);
        proof {
            lemma_wf_after_plane_update(
                *old(self),
                *self,
                old(self).neg@,
                self.neg@,
                old(self).pos@,
                word_idx as int,
                value,
            );
        }
    }
}

/// Updating one word of one plane with a value that avoids the other
/// plane's bits and the tail region keeps the vector well-formed.
proof fn lemma_wf_after_plane_update(
    old0: BitslicedTritVec,
    new0: BitslicedTritVec,
    oldp: Seq<u64>,
    newp: Seq<u64>,
    othr: Seq<u64>,
    w: int,
    value: u64,
)
    requires
        old0.wf(),
        new0.len == old0.len,
        0 <= w < oldp.len(),
        newp == oldp.update(w, value),
        (old0.pos@ == oldp && old0.neg@ == othr && new0.pos@ == newp && new0.neg@ == othr) || (
        old0.neg@ == oldp && old0.pos@ == othr && new0.neg@ == newp && new0.pos@ == othr),
        forall|t: int| 0 <= t < 64 ==> !(#[trigger] bitof(value, t) && bitof(othr[w], t)),
        forall|t: int| 0 <= t < 64 && w * 64 + t >= old0.len ==> !#[trigger] bitof(value, t),
    ensures
        new0.wf(),
{
    let words = oldp.len() as int;
    assert forall|i: int| new0.len <= i < words * 64 implies !plane_bit(newp, i) && !plane_bit(
        othr,
        i,
    ) by {
        lemma_div_below(i, words);
        assert(!plane_bit(old0.pos@, i) && !plane_bit(old0.neg@, i));
        if i / 64 == w {
            assert(i == w * 64 + i % 64) by {
                vstd::arithmetic::div_mod::lemma_fundamental_div_mod(i, 64);
            }
            assert(!bitof(value, i % 64));
            assert(newp[i / 64] == value);
        } else {
            assert(newp[i / 64] == oldp[i / 64]);
            assert(plane_bit(newp, i) == plane_bit(oldp, i));
        }
    }
    assert forall|i: int| 0 <= i < new0.len implies !(plane_bit(newp, i) && plane_bit(
        othr,
        i,
    )) by {
        lemma_same_words(words, new0.len as int);
        lemma_div_below(i, words);
        if i / 64 == w {
            assert(i == w * 64 + i % 64) by {
                vstd::arithmetic::div_mod::lemma_fundamental_div_mod(i, 64);
            }
            assert(!(bitof(value, i % 64) && bitof(othr[w], i % 64)));
            assert(newp[i / 64] == value);
        } else {
            assert(newp[i / 64] == oldp[i / 64]);
            assert(plane_bit(newp, i) == plane_bit(oldp, i));
            assert(!(plane_bit(old0.pos@, i) && plane_bit(old0.neg@, i)));
        }
    }
    assert forall|i: int| 0 <= i < new0.len implies !(plane_bit(new0.pos@, i) && plane_bit(
        new0.neg@,
        i,
    )) by {}
    assert forall|i: int|
        new0.len <= i < new0.pos@.len() * 64 implies !plane_bit(new0.pos@, i) && !plane_bit(
        new0.neg@,
        i,
    ) by {}
}

/// Splitting an index into word and bit: `(64a + b) % (64n) == 64(a % n) + b`
/// and the division and remainder of `64a + b` by 64 are `a` and `b`.
proof fn lemma_mul_mod_split(a: int, b: int, n: int)
    requires
        0 <= b < 64,
        n > 0,
        a >= 0,
    ensures
        (64 * a + b) % (64 * n) == 64 * (a % n) + b,
{
    vstd::arithmetic::div_mod::lemma_breakdown(64 * a + b, 64, n);
    assert((64 * a + b) % 64 == b && (64 * a + b) / 64 == a) by {
        vstd::arithmetic::div_mod::lemma_fundamental_div_mod_converse(64 * a + b, 64, a, b);
    }
}

/// The lane `64w + b` falls in word `w` at bit `b`.
proof fn lemma_mul_div_mod(w: int, b: int, n: int)
    requires
        0 <= b < 64,
        0 <= w,
    ensures
        (64 * w + b) / 64 == w,
        (64 * w + b) % 64 == b,
{
    vstd::arithmetic::div_mod::lemma_fundamental_div_mod_converse(64 * w + b, 64, w, b);
}


/// In a well-formed vector, each word's bits avoid the other plane and the
/// tail region.
pub(crate) proof fn lemma_bv_word_wf(v: BitslicedTritVec, w: int)
    requires
        v.wf(),
        0 <= w < v.pos@.len(),
    ensures
        forall|t: int|
            0 <= t < 64 ==> !(bitof(v.pos@[w], t) && #[trigger] bitof(v.neg@[w], t)),
        forall|t: int|
            0 <= t < 64 && w * 64 + t >= v.len ==> !(#[trigger] bitof(v.pos@[w], t)) && !bitof(
                v.neg@[w],
                t,
            ),
        forall|t: int|
            0 <= t < 64 ==> #[trigger] bitof(v.pos@[w], t) == plane_bit(v.pos@, w * 64 + t),
        forall|t: int|
            0 <= t < 64 ==> #[trigger] bitof(v.neg@[w], t) == plane_bit(v.neg@, w * 64 + t),
{
    let n = v.pos@.len() as int;
    assert forall|t: int| 0 <= t < 64 implies (#[trigger] bitof(v.pos@[w], t) == plane_bit(
        v.pos@,
        w * 64 + t,
    )) && (bitof(v.neg@[w], t) == plane_bit(v.neg@, w * 64 + t)) && (w * 64 + t < n * 64) by {
        let i = w * 64 + t;
        assert(i < n * 64 && i >= 0) by (nonlinear_arith)
            requires
                i == w * 64 + t,
                w < n,
                0 <= t < 64,
                w >= 0,
        ;
        lemma_mul_div_mod(w, t, n);
    }
    assert forall|t: int| 0 <= t < 64 implies #[trigger] bitof(v.neg@[w], t) == plane_bit(
        v.neg@,
        w * 64 + t,
    ) by {}
    assert forall|t: int| 0 <= t < 64 implies !(bitof(v.pos@[w], t) && #[trigger] bitof(
        v.neg@[w],
        t,
    )) by {
        let i = w * 64 + t;
        if i < v.len {
            assert(!(plane_bit(v.pos@, i) && plane_bit(v.neg@, i)));
        } else {
            assert(!plane_bit(v.pos@, i));
        }
    }
    assert forall|t: int|
        0 <= t < 64 && w * 64 + t >= v.len implies !(#[trigger] bitof(v.pos@[w], t)) && !bitof(
        v.neg@[w],
        t,
    ) by {
        let i = w * 64 + t;
        assert(!plane_bit(v.pos@, i) && !plane_bit(v.neg@, i));
    }
}


impl BitslicedTritVec {
    /// Build from the interleaved two-bit encoding, lane by lane.
    pub fn from_packed(packed: &crate::packed::PackedTritVec) -> (r: BitslicedTritVec)
        requires
            packed.wf(),
        ensures
            r.wf(),
            r.len == packed.len,
            forall|i: int| 0 <= i < packed.len ==> r.trit_at(i) == packed.trit_at(i),
    {
        let n = packed.len();
        let mut out = BitslicedTritVec::new_zero(n);
        for i in 0..n
            invariant
                packed.wf(),
                out.wf(),
                packed.len == n,
                out.len == n,
                forall|k: int| 0 <= k < i ==> out.trit_at(k) == packed.trit_at(k),
                forall|k: int| i <= k < n ==> out.trit_at(k) == 0,
        {
            let t = packed.get(i);
            out.set(i, t);
        }
        out
    }

    /// Collapse to the interleaved two-bit encoding, lane by lane.
    pub fn to_packed(&self) -> (r: crate::packed::PackedTritVec)
        requires
            self.wf(),
        ensures
            r.wf(),
            r.len == self.len,
            forall|i: int| 0 <= i < self.len ==> r.trit_at(i) == self.trit_at(i),
    {
        let n = self.len;
        let mut out = crate::packed::PackedTritVec::new_zero(n);
        for i in 0..n
            invariant
                self.wf(),
                out.wf(),
                self.len == n,
                out.len == n,
                forall|k: int| 0 <= k < i ==> out.trit_at(k) == self.trit_at(k),
                forall|k: int| i <= k < n ==> out.trit_at(k) == 0,
        {
            let t = self.get(i);
            out.set(i, t);
        }
        out
    }
}

/// Conversion round trips: a sparse vector pushed through the bitsliced
/// form and back keeps every lane, and so do the packed and block-sparse
/// forms. With well-formedness, equal lanes pin the sorted index lists
/// themselves.
pub proof fn lemma_representation_roundtrip(
    s: crate::sparse::SparseVec,
    b: BitslicedTritVec,
    s2: crate::sparse::SparseVec,
)
    requires
        s.wf(),
        b.wf(),
        b.len == crate::sparse::DIM,
        forall|i: int| 0 <= i < crate::sparse::DIM ==> b.trit_at(i) == s.lane(i as usize),
        sorted_strict(s2.pos@),
        sorted_strict(s2.neg@),
        forall|x: usize| #[trigger] s2.pos@.contains(x) <==> (x < b.len && b.trit_at(x as int) == 1),
        forall|x: usize|
            #[trigger] s2.neg@.contains(x) <==> (x < b.len && b.trit_at(x as int) == -1),
    ensures
        s2.pos@ =~= s.pos@,
        s2.neg@ =~= s.neg@,
{
    assert forall|x: usize| s2.pos@.contains(x) <==> s.pos@.contains(x) by {
        if s.pos@.contains(x) {
            let k = choose|k: int| 0 <= k < s.pos@.len() && s.pos@[k] == x;
            assert(x < crate::sparse::DIM);
            assert(s.lane(x) == 1);
        }
        if s2.pos@.contains(x) {
            assert(b.trit_at(x as int) == 1);
        }
    }
    assert forall|x: usize| s2.neg@.contains(x) <==> s.neg@.contains(x) by {
        if s.neg@.contains(x) {
            let k = choose|k: int| 0 <= k < s.neg@.len() && s.neg@[k] == x;
            assert(x < crate::sparse::DIM);
            assert(s.lane(x) == -1);
            assert(!s.pos@.contains(x));
        }
        if s2.neg@.contains(x) {
            assert(b.trit_at(x as int) == -1);
        }
    }
    crate::sparse::lemma_sorted_set_unique(s2.pos@, s.pos@);
    crate::sparse::lemma_sorted_set_unique(s2.neg@, s.neg@);
}

} // verus!
