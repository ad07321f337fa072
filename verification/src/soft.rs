//! Soft ternary vectors: a 3-bit magnitude and a sign per lane, used as an
//! accumulator for many-way bundling.
//!
//! Accumulating a hard ternary vector reinforces same-sign lanes up to a
//! saturation magnitude of seven, starts fresh lanes at one, and cancels
//! opposing votes one step toward zero, dropping the sign at zero.
//! Hardening collapses the accumulator back to a hard ternary vector by a
//! magnitude threshold.

use vstd::prelude::*;

use crate::bitsliced::{
    bitof, lemma_clear_bit, lemma_const_words, lemma_div_below, lemma_read_bit, lemma_same_words,
    lemma_set_bit, plane_bit, BitslicedTritVec,
};
use crate::sparse::SparseVec;
use crate::ternary::Trit;

verus! {

/// A soft ternary vector: four bit-planes holding per-lane magnitude bits
/// and a sign bit.
#[derive(Clone, Debug)]
pub struct SoftTernaryVec {
    /// Number of lanes.
    pub len: usize,
    /// Bit 0 of each lane's magnitude.
    pub mag_lo: Vec<u64>,
    /// Bit 1 of each lane's magnitude.
    pub mag_mi: Vec<u64>,
    /// Bit 2 of each lane's magnitude.
    pub mag_hi: Vec<u64>,
    /// Sign of each lane; set means negative. Clear whenever the magnitude
    /// is zero.
    pub sign: Vec<u64>,
}

impl SoftTernaryVec {
    /// The magnitude at lane `i`, in 0..=7.
    pub open spec fn mag_at(self, i: int) -> int {
        (if plane_bit(self.mag_lo@, i) {
            1int
        } else {
            0int
        }) + (if plane_bit(self.mag_mi@, i) {
            2int
        } else {
            0int
        }) + (if plane_bit(self.mag_hi@, i) {
            4int
        } else {
            0int
        })
    }

    /// Whether lane `i` is negative.
    pub open spec fn neg_at(self, i: int) -> bool {
        plane_bit(self.sign@, i)
    }

    /// The signed value of lane `i`, in −7..=7.
    pub open spec fn signed_at(self, i: int) -> int {
        if self.neg_at(i) {
            -self.mag_at(i)
        } else {
            self.mag_at(i)
        }
    }

    /// Well-formedness: planes sized to the length, tail bits clear, and
    /// no sign bit on a zero magnitude.
    pub open spec fn wf(self) -> bool {
        &&& self.mag_lo@.len() == BitslicedTritVec::spec_word_count(self.len as int)
        &&& self.mag_mi@.len() == self.mag_lo@.len()
        &&& self.mag_hi@.len() == self.mag_lo@.len()
        &&& self.sign@.len() == self.mag_lo@.len()
        &&& forall|i: int|
            self.len <= i < self.mag_lo@.len() * 64 ==> !plane_bit(self.mag_lo@, i) && !plane_bit(
                self.mag_mi@,
                i,
            ) && !plane_bit(self.mag_hi@, i) && !plane_bit(self.sign@, i)
        &&& forall|i: int| 0 <= i < self.len && self.mag_at(i) == 0 ==> !self.neg_at(i)
    }

    /// The all-zero accumulator of a given length.
    pub fn new_zero(len: usize) -> (r: SoftTernaryVec)
        ensures
            r.wf(),
            r.len == len,
            forall|i: int| 0 <= i < len ==> r.mag_at(i) == 0 && !r.neg_at(i),
    {
        let words = BitslicedTritVec::word_count(len);
        let mut mag_lo: Vec<u64> = Vec::new();
        let mut mag_mi: Vec<u64> = Vec::new();
        let mut mag_hi: Vec<u64> = Vec::new();
        let mut sign: Vec<u64> = Vec::new();
        for w in 0..words
            invariant
                mag_lo@.len() == w,
                mag_mi@.len() == w,
                mag_hi@.len() == w,
                sign@.len() == w,
                forall|k: int|
                    0 <= k < w ==> mag_lo@[k] == 0u64 && mag_mi@[k] == 0u64 && mag_hi@[k] == 0u64
                        && sign@[k] == 0u64,
        {
            mag_lo.push(0);
            mag_mi.push(0);
            mag_hi.push(0);
            sign.push(0);
        }
        let r = SoftTernaryVec { len, mag_lo, mag_mi, mag_hi, sign };
        proof {
            lemma_const_words();
            assert forall|i: int| 0 <= i < r.mag_lo@.len() * 64 implies !plane_bit(r.mag_lo@, i)
                && !plane_bit(r.mag_mi@, i) && !plane_bit(r.mag_hi@, i) && !plane_bit(
                r.sign@,
                i,
            ) by {
                lemma_div_below(i, r.mag_lo@.len() as int);
            }
            lemma_same_words(r.mag_lo@.len() as int, len as int);
        }
        r
    }

    /// The number of lanes.
    pub fn len(&self) -> (r: usize)
        ensures
            r == self.len,
    {
        self.len
    }

    /// Whether the accumulator has no lanes.
    pub fn is_empty(&self) -> (r: bool)
        ensures
            r == (self.len == 0),
    {
        self.len == 0
    }

    /// The magnitude and sign of lane `idx`.
    pub fn get(&self, idx: usize) -> (r: (u8, bool))
        requires
            self.wf(),
            idx < self.len,
        ensures
            r.0 as int == self.mag_at(idx as int),
            r.1 == self.neg_at(idx as int),
            r.0 <= 7,
    {
        let word = idx / 64;
        let bit = (idx % 64) as u64;
        proof {
            lemma_same_words(self.mag_lo@.len() as int, self.len as int);
            lemma_div_below(idx as int, self.mag_lo@.len() as int);
            lemma_read_bit(self.mag_lo@[word as int], bit);
            lemma_read_bit(self.mag_mi@[word as int], bit);
            lemma_read_bit(self.mag_hi@[word as int], bit);
            lemma_read_bit(self.sign@[word as int], bit);
        }
        let wlo = self.mag_lo[word];
        let wmi = self.mag_mi[word];
        let whi = self.mag_hi[word];
        proof {
            assert((wlo >> bit) & 1u64 == 0u64 || (wlo >> bit) & 1u64 == 1u64) by (bit_vector);
            assert((wmi >> bit) & 1u64 == 0u64 || (wmi >> bit) & 1u64 == 1u64) by (bit_vector);
            assert((whi >> bit) & 1u64 == 0u64 || (whi >> bit) & 1u64 == 1u64) by (bit_vector);
        }
        let lo: u8 = ((wlo >> bit) & 1) as u8;
        let mi: u8 = ((wmi >> bit) & 1) as u8;
        let hi: u8 = ((whi >> bit) & 1) as u8;
        let sg = (self.sign[word] >> bit) & 1 == 1;
        (lo + 2 * mi + 4 * hi, sg)
    }

    /// The signed value of lane `idx`, in −7..=7.
    pub fn get_signed(&self, idx: usize) -> (r: i8)
        requires
            self.wf(),
            idx < self.len,
        ensures
            r as int == self.signed_at(idx as int),
    {
        let (mag, neg) = self.get(idx);
        if neg {
            -(mag as i8)
        } else {
            mag as i8
        }
    }

    /// Set the magnitude and sign of lane `idx`. A zero magnitude clears
    /// the sign.
    pub fn set(&mut self, idx: usize, magnitude: u8, is_negative: bool)
        requires
            old(self).wf(),
            idx < old(self).len,
            magnitude <= 7,
        ensures
            final(self).wf(),
            final(self).len == old(self).len,
            forall|k: int|
                0 <= k < old(self).len ==> final(self).mag_at(k) == (if k == idx {
                    magnitude as int
                } else {
                    old(self).mag_at(k)
                }),
            forall|k: int|
                0 <= k < old(self).len ==> final(self).neg_at(k) == (if k == idx {
                    is_negative && magnitude > 0
                } else {
                    old(self).neg_at(k)
                }),
    {
        let word = idx / 64;
        let bit = (idx % 64) as u64;
        proof {
            lemma_same_words(self.mag_lo@.len() as int, self.len as int);
            lemma_div_below(idx as int, self.mag_lo@.len() as int);
        }
        let mask: u64 = 1u64 << bit;
        let lo0 = self.mag_lo[word];
        let mi0 = self.mag_mi[word];
        let hi0 = self.mag_hi[word];
        let sg0 = self.sign[word];
        proof {
            lemma_clear_bit(lo0, bit);
            lemma_clear_bit(mi0, bit);
            lemma_clear_bit(hi0, bit);
            lemma_clear_bit(sg0, bit);
            lemma_set_bit(lo0 & !(1u64 << bit), bit);
            lemma_set_bit(mi0 & !(1u64 << bit), bit);
            lemma_set_bit(hi0 & !(1u64 << bit), bit);
            lemma_set_bit(sg0 & !(1u64 << bit), bit);
        }
        let lo1 = if magnitude & 1 != 0 {
            (lo0 & !mask) | mask
        } else {
            lo0 & !mask
        };
        let mi1 = if magnitude & 2 != 0 {
            (mi0 & !mask) | mask
        } else {
            mi0 & !mask
        };
        let hi1 = if magnitude & 4 != 0 {
            (hi0 & !mask) | mask
        } else {
            hi0 & !mask
        };
        let sg1 = if is_negative && magnitude > 0 {
            (sg0 & !mask) | mask
        } else {
            sg0 & !mask
        };
        proof {
            assert((magnitude & 1 != 0) == (magnitude as int % 2 == 1) && (magnitude & 2 != 0) == (
            (magnitude as int / 2) % 2 == 1) && (magnitude & 4 != 0) == ((magnitude as int / 4) % 2
                == 1)) by (bit_vector);
        }
        self.mag_lo.set(word, lo1);
        self.mag_mi.set(word, mi1);
        self.mag_hi.set(word, hi1);
        self.sign.set(word, sg1);
        proof {
            let new = *self;
            let old0 = *old(self);
            let wi = word as int;
            assert forall|k: int|
                0 <= k < new.mag_lo@.len() * 64 implies (new.mag_at(k) == (if k == idx {
                magnitude as int
            } else {
                old0.mag_at(k)
            })) && (new.neg_at(k) == (if k == idx {
                is_negative && magnitude > 0
            } else {
                old0.neg_at(k)
            })) by {
                lemma_div_below(k, new.mag_lo@.len() as int);
                if k / 64 == wi {
                    assert(k == (k / 64) * 64 + k % 64) by {
                        vstd::arithmetic::div_mod::lemma_fundamental_div_mod(k, 64);
                    }
                    assert(idx as int == wi * 64 + (idx as int) % 64) by {
                        vstd::arithmetic::div_mod::lemma_fundamental_div_mod(idx as int, 64);
                    }
                    if k != idx {
                        assert(k % 64 != (idx as int) % 64);
                    } else {
                        assert(magnitude as int == (if magnitude as int % 2 == 1 {
                            1int
                        } else {
                            0int
                        }) + (if (magnitude as int / 2) % 2 == 1 {
                            2int
                        } else {
                            0int
                        }) + (if (magnitude as int / 4) % 2 == 1 {
                            4int
                        } else {
                            0int
                        })) by (nonlinear_arith)
                            requires
                                0 <= magnitude <= 7,
                        ;
                    }
                } else {
                    assert(new.mag_lo@[k / 64] == old0.mag_lo@[k / 64]);
                    assert(new.mag_mi@[k / 64] == old0.mag_mi@[k / 64]);
                    assert(new.mag_hi@[k / 64] == old0.mag_hi@[k / 64]);
                    assert(new.sign@[k / 64] == old0.sign@[k / 64]);
                    assert(plane_bit(new.mag_lo@, k) == plane_bit(old0.mag_lo@, k));
                    assert(plane_bit(new.mag_mi@, k) == plane_bit(old0.mag_mi@, k));
                    assert(plane_bit(new.mag_hi@, k) == plane_bit(old0.mag_hi@, k));
                    assert(plane_bit(new.sign@, k) == plane_bit(old0.sign@, k));
                }
            }
            assert forall|i: int|
                new.len <= i < new.mag_lo@.len() * 64 implies !plane_bit(new.mag_lo@, i)
                && !plane_bit(new.mag_mi@, i) && !plane_bit(new.mag_hi@, i) && !plane_bit(
                new.sign@,
                i,
            ) by {
                assert(new.mag_at(i) == old0.mag_at(i) && new.neg_at(i) == old0.neg_at(i));
                assert(!plane_bit(old0.mag_lo@, i) && !plane_bit(old0.mag_mi@, i) && !plane_bit(
                    old0.mag_hi@,
                    i,
                ) && !plane_bit(old0.sign@, i));
            }
        }
    }

    /// Count the lanes with a non-zero magnitude.
    pub fn nnz(&self) -> (r: usize)
        requires
            self.wf(),
        ensures
            r as int == soft_nnz_upto(*self, self.len as int),
            r <= self.len,
    {
        let mut r: usize = 0;
        let n = self.len;
        for i in 0..n
            invariant
                self.wf(),
                n == self.len,
                r as int == soft_nnz_upto(*self, i as int),
                r <= i,
        {
            let (mag, _neg) = self.get(i);
            if mag != 0 {
                r = r + 1;
            }
        }
        r
    }

    /// Fold one hard ternary vote vector into the accumulator: same-sign
    /// votes reinforce up to seven, fresh votes start at one, opposing
    /// votes cancel one step toward zero.
    pub fn accumulate(&mut self, hard: &BitslicedTritVec)
        requires
            old(self).wf(),
            hard.wf(),
            hard.len == old(self).len,
        ensures
            final(self).wf(),
            final(self).len == old(self).len,
            forall|i: int|
                0 <= i < old(self).len ==> final(self).signed_at(i) == soft_step(
                    old(self).signed_at(i),
                    hard.trit_at(i),
                ),
    {
        let n = self.len;
        let ghost orig = *self;
        for i in 0..n
            invariant
                self.wf(),
                hard.wf(),
                hard.len == n,
                self.len == n,
                orig == *old(self),
                forall|k: int|
                    0 <= k < i ==> self.signed_at(k) == soft_step(
                        orig.signed_at(k),
                        hard.trit_at(k),
                    ),
                forall|k: int|
                    i <= k < n ==> self.mag_at(k) == orig.mag_at(k) && self.neg_at(k)
                        == orig.neg_at(k),
        {
            let ghost prev = *self;
            let t = hard.get(i);
            let (mag, neg) = self.get(i);
            let ghost cur = self.signed_at(i as int);
            let ghost vote = hard.trit_at(i as int);
            proof {
                assert(cur == orig.signed_at(i as int));
                assert(mag as int == if cur >= 0 {
                    cur
                } else {
                    -cur
                });
            }
            match t {
                Trit::Z => {},
                Trit::P => {
                    if mag == 0 {
                        self.set(i, 1, false);
                    } else if !neg {
                        let nm = if mag < 7 {
                            mag + 1
                        } else {
                            7
                        };
                        self.set(i, nm, false);
                    } else {
                        self.set(i, mag - 1, true);
                    }
                },
                Trit::N => {
                    if mag == 0 {
                        self.set(i, 1, true);
                    } else if neg {
                        let nm = if mag < 7 {
                            mag + 1
                        } else {
                            7
                        };
                        self.set(i, nm, true);
                    } else {
                        self.set(i, mag - 1, false);
                    }
                },
            }
            proof {
                assert(self.signed_at(i as int) == soft_step(cur, vote));
                assert forall|k: int| 0 <= k < i + 1 implies self.signed_at(k) == soft_step(
                    orig.signed_at(k),
                    hard.trit_at(k),
                ) by {
                    if k < i {
                        assert(self.mag_at(k) == prev.mag_at(k) && self.neg_at(k) == prev.neg_at(
                            k,
                        ));
                        assert(prev.signed_at(k) == soft_step(orig.signed_at(k), hard.trit_at(k)));
                    }
                }
                assert forall|k: int|
                    i + 1 <= k < n implies self.mag_at(k) == orig.mag_at(k) && self.neg_at(k)
                    == orig.neg_at(k) by {
                    assert(self.mag_at(k) == prev.mag_at(k) && self.neg_at(k) == prev.neg_at(k));
                }
            }
        }
    }

    /// Add two soft vectors: the signed lane values add and clamp to the
    /// magnitude range.
    pub fn soft_bundle(&self, other: &SoftTernaryVec) -> (r: SoftTernaryVec)
        requires
            self.wf(),
            other.wf(),
            self.len == other.len,
        ensures
            r.wf(),
            r.len == self.len,
            forall|i: int|
                0 <= i < self.len ==> r.signed_at(i) == clamp7(
                    self.signed_at(i) + other.signed_at(i),
                ),
    {
        let n = self.len;
        let mut out = SoftTernaryVec::new_zero(n);
        for i in 0..n
            invariant
                self.wf(),
                other.wf(),
                out.wf(),
                self.len == n,
                other.len == n,
                out.len == n,
                forall|k: int|
                    0 <= k < i ==> out.signed_at(k) == clamp7(
                        self.signed_at(k) + other.signed_at(k),
                    ),
                forall|k: int| i <= k < n ==> out.mag_at(k) == 0 && !out.neg_at(k),
        {
            let ghost prev = out;
            let a = self.get_signed(i);
            let b = other.get_signed(i);
            let sum: i8 = a + b;
            let clamped: i8 = if sum > 7 {
                7
            } else if sum < -7 {
                -7
            } else {
                sum
            };
            if clamped >= 0 {
                out.set(i, clamped as u8, false);
            } else {
                out.set(i, (-clamped) as u8, true);
            }
            proof {
                assert(out.signed_at(i as int) == clamp7(
                    self.signed_at(i as int) + other.signed_at(i as int),
                ));
                assert forall|k: int| 0 <= k < i + 1 implies out.signed_at(k) == clamp7(
                    self.signed_at(k) + other.signed_at(k),
                ) by {
                    if k < i {
                        assert(out.mag_at(k) == prev.mag_at(k) && out.neg_at(k) == prev.neg_at(
                            k,
                        ));
                        assert(prev.signed_at(k) == clamp7(
                            self.signed_at(k) + other.signed_at(k),
                        ));
                    }
                }
                assert forall|k: int|
                    i + 1 <= k < n implies out.mag_at(k) == 0 && !out.neg_at(k) by {
                    assert(out.mag_at(k) == prev.mag_at(k) && out.neg_at(k) == prev.neg_at(k));
                }
            }
        }
        out
    }

    /// Collapse to a hard ternary vector: lanes at or above the threshold
    /// keep their sign, the rest go to zero.
    pub fn harden(&self, threshold: u8) -> (r: BitslicedTritVec)
        requires
            self.wf(),
            1 <= threshold <= 7,
        ensures
            r.wf(),
            r.len == self.len,
            forall|i: int|
                0 <= i < self.len ==> r.trit_at(i) == (if self.mag_at(i) >= threshold {
                    if self.neg_at(i) {
                        -1int
                    } else {
                        1int
                    }
                } else {
                    0int
                }),
    {
        let n = self.len;
        let mut out = BitslicedTritVec::new_zero(n);
        for i in 0..n
            invariant
                self.wf(),
                out.wf(),
                self.len == n,
                out.len == n,
                1 <= threshold <= 7,
                forall|k: int|
                    0 <= k < i ==> out.trit_at(k) == (if self.mag_at(k) >= threshold {
                        if self.neg_at(k) {
                            -1int
                        } else {
                            1int
                        }
                    } else {
                        0int
                    }),
                forall|k: int| i <= k < n ==> out.trit_at(k) == 0,
        {
            let (mag, neg) = self.get(i);
            if mag >= threshold {
                out.set(
                    i,
                    if neg {
                        Trit::N
                    } else {
                        Trit::P
                    },
                );
            }
        }
        out
    }

    /// Collapse with the lowest threshold: any vote counts.
    pub fn harden_any(&self) -> (r: BitslicedTritVec)
        requires
            self.wf(),
        ensures
            r.wf(),
            r.len == self.len,
            forall|i: int|
                0 <= i < self.len ==> r.trit_at(i) == (if self.mag_at(i) >= 1 {
                    if self.neg_at(i) {
                        -1int
                    } else {
                        1int
                    }
                } else {
                    0int
                }),
    {
        self.harden(1)
    }

    /// Start from a hard ternary vector: every non-zero lane gets
    /// magnitude one with its sign.
    pub fn from_bitsliced(hard: &BitslicedTritVec) -> (r: SoftTernaryVec)
        requires
            hard.wf(),
        ensures
            r.wf(),
            r.len == hard.len,
            forall|i: int| 0 <= i < hard.len ==> r.signed_at(i) == hard.trit_at(i),
    {
        let n = hard.len();
        let mut out = SoftTernaryVec::new_zero(n);
        for i in 0..n
            invariant
                hard.wf(),
                out.wf(),
                hard.len == n,
                out.len == n,
                forall|k: int| 0 <= k < i ==> out.signed_at(k) == hard.trit_at(k),
                forall|k: int| i <= k < n ==> out.mag_at(k) == 0 && !out.neg_at(k),
        {
            let t = hard.get(i);
            match t {
                Trit::P => out.set(i, 1, false),
                Trit::N => out.set(i, 1, true),
                Trit::Z => {},
            }
        }
        out
    }

    /// Start from a sparse vector: lanes below `len` get magnitude one
    /// with the sparse sign.
    pub fn from_sparse(sparse: &SparseVec, len: usize) -> (r: SoftTernaryVec)
        requires
            sparse.wf(),
        ensures
            r.wf(),
            r.len == len,
            forall|i: int| 0 <= i < len ==> r.signed_at(i) == sparse.lane(i as usize),
    {
        let hard = BitslicedTritVec::from_sparse(sparse, len);
        SoftTernaryVec::from_bitsliced(&hard)
    }

    /// The dot product of the soft values against a hard vote vector.
    pub fn dot_with_hard(&self, hard: &BitslicedTritVec) -> (r: i64)
        requires
            self.wf(),
            hard.wf(),
            hard.len == self.len,
            self.len <= 0x1000_0000_0000_0000,
        ensures
            r as int == soft_dot_upto(*self, *hard, self.len as int),
    {
        let mut acc: i64 = 0;
        let n = self.len;
        for i in 0..n
            invariant
                self.wf(),
                hard.wf(),
                hard.len == n,
                self.len == n,
                n <= 0x1000_0000_0000_0000,
                acc as int == soft_dot_upto(*self, *hard, i as int),
                -7 * (i as int) <= acc as int <= 7 * (i as int),
        {
            let s = self.get_signed(i);
            let t = hard.get(i);
            let prod: i64 = match t {
                Trit::P => s as i64,
                Trit::N => -(s as i64),
                Trit::Z => 0,
            };
            acc = acc + prod;
        }
        acc
    }

    /// The same dot product; the lane loop is already the reference path.
    pub fn dot_with_hard_fast(&self, hard: &BitslicedTritVec) -> (r: i64)
        requires
            self.wf(),
            hard.wf(),
            hard.len == self.len,
            self.len <= 0x1000_0000_0000_0000,
        ensures
            r as int == soft_dot_upto(*self, *hard, self.len as int),
    {
        self.dot_with_hard(hard)
    }

    /// Clear every lane.
    pub fn reset(&mut self)
        requires
            old(self).wf(),
        ensures
            final(self).wf(),
            final(self).len == old(self).len,
            forall|i: int|
                0 <= i < old(self).len ==> final(self).mag_at(i) == 0 && !final(self).neg_at(i),
    {
        let fresh = SoftTernaryVec::new_zero(self.len);
        *self = fresh;
    }
}

/// A signed value clamped to −7..=7.
pub open spec fn clamp7(v: int) -> int {
    if v > 7 {
        7
    } else if v < -7 {
        -7
    } else {
        v
    }
}

/// One accumulation step on a lane: reinforce toward saturation, start
/// fresh lanes at one, cancel opposing votes one step toward zero.
pub open spec fn soft_step(cur: int, vote: int) -> int {
    if vote == 0 {
        cur
    } else if cur == 0 {
        vote
    } else if (cur > 0) == (vote > 0) {
        clamp7(cur + vote)
    } else {
        cur + vote
    }
}

/// Lanes with non-zero magnitude among the first `k`.
pub open spec fn soft_nnz_upto(v: SoftTernaryVec, k: int) -> int
    decreases k,
{
    if k <= 0 {
        0
    } else {
        soft_nnz_upto(v, k - 1) + if v.mag_at(k - 1) == 0 {
            0int
        } else {
            1int
        }
    }
}

/// The soft-against-hard dot product over the first `k` lanes.
pub open spec fn soft_dot_upto(v: SoftTernaryVec, hard: BitslicedTritVec, k: int) -> int
    decreases k,
{
    if k <= 0 {
        0
    } else {
        soft_dot_upto(v, hard, k - 1) + v.signed_at(k - 1) * hard.trit_at(k - 1)
    }
}


/// The sign of a vote total: −1, 0 or +1.
pub open spec fn sgn(v: int) -> int {
    if v > 0 {
        1int
    } else if v < 0 {
        -1int
    } else {
        0int
    }
}

/// A carry-save accumulator for multi-way bundling: per-lane vote totals
/// that collapse to a majority-vote ternary vector.
///
/// After every third accumulation the totals are normalised to a single
/// majority vote per lane, so the per-lane counters never overflow.
#[derive(Clone, Debug)]
pub struct CarrySaveBundle {
    /// Number of lanes.
    pub len: usize,
    /// The running per-lane vote totals.
    pub acc: SoftTernaryVec,
    /// Vectors accumulated since the last normalisation.
    pub count: usize,
}

impl CarrySaveBundle {
    /// Well-formedness: the totals cover the lanes and stay within the
    /// un-normalised vote count.
    pub open spec fn wf(self) -> bool {
        &&& self.acc.wf()
        &&& self.acc.len == self.len
        &&& self.count <= 2
        &&& forall|i: int|
            0 <= i < self.len ==> -(self.count as int) <= #[trigger] self.acc.signed_at(i)
                <= self.count as int
    }

    /// A fresh accumulator of a given dimension.
    pub fn new(len: usize) -> (r: CarrySaveBundle)
        ensures
            r.wf(),
            r.len == len,
            r.count == 0,
            forall|i: int| 0 <= i < len ==> r.acc.signed_at(i) == 0,
    {
        CarrySaveBundle { len, acc: SoftTernaryVec::new_zero(len), count: 0 }
    }

    /// Clear every lane and the vote count.
    pub fn reset(&mut self)
        requires
            old(self).wf(),
        ensures
            final(self).wf(),
            final(self).len == old(self).len,
            final(self).count == 0,
            forall|i: int| 0 <= i < old(self).len ==> final(self).acc.signed_at(i) == 0,
    {
        self.acc.reset();
        self.count = 0;
    }

    /// The number of vectors folded in since the last normalisation.
    pub fn count(&self) -> (r: usize)
        ensures
            r == self.count,
    {
        self.count
    }

    /// Fold one hard ternary vote vector into the totals. Every lane adds
    /// its vote; after a third accumulation the totals collapse to a
    /// single majority vote per lane.
    pub fn accumulate(&mut self, vec: &BitslicedTritVec)
        requires
            old(self).wf(),
            vec.wf(),
            vec.len == old(self).len,
        ensures
            final(self).wf(),
            final(self).len == old(self).len,
            final(self).count == if old(self).count >= 2 {
                1int
            } else {
                old(self).count + 1
            },
            old(self).count < 2 ==> forall|i: int|
                0 <= i < old(self).len ==> #[trigger] final(self).acc.signed_at(i) == old(
                    self,
                ).acc.signed_at(i) + vec.trit_at(i),
            old(self).count >= 2 ==> forall|i: int|
                0 <= i < old(self).len ==> #[trigger] final(self).acc.signed_at(i) == sgn(
                    old(self).acc.signed_at(i) + vec.trit_at(i),
                ),
    {
        self.acc.accumulate(vec);
        proof {
            assert forall|i: int| 0 <= i < self.len implies #[trigger] self.acc.signed_at(i)
                == old(self).acc.signed_at(i) + vec.trit_at(i) by {
                assert(self.acc.signed_at(i) == soft_step(
                    old(self).acc.signed_at(i),
                    vec.trit_at(i),
                ));
            }
        }
        if self.count >= 2 {
            let hard = self.acc.harden_any();
            let normalized = SoftTernaryVec::from_bitsliced(&hard);
            proof {
                assert forall|i: int| 0 <= i < self.len implies normalized.signed_at(i) == sgn(
                    old(self).acc.signed_at(i) + vec.trit_at(i),
                ) by {
                    assert(normalized.signed_at(i) == hard.trit_at(i));
                    assert(self.acc.signed_at(i) == old(self).acc.signed_at(i) + vec.trit_at(i));
                    assert(hard.trit_at(i) == (if self.acc.mag_at(i) >= 1 {
                        if self.acc.neg_at(i) {
                            -1int
                        } else {
                            1int
                        }
                    } else {
                        0int
                    }));
                    if self.acc.mag_at(i) == 0 {
                        assert(!self.acc.neg_at(i));
                    }
                }
            }
            self.acc = normalized;
            self.count = 1;
        } else {
            self.count = self.count + 1;
        }
    }

    /// The majority vote per lane: the sign of the accumulated total.
    pub fn finalize(&self) -> (r: BitslicedTritVec)
        requires
            self.wf(),
        ensures
            r.wf(),
            r.len == self.len,
            forall|i: int| 0 <= i < self.len ==> r.trit_at(i) == sgn(self.acc.signed_at(i)),
    {
        let r = self.acc.harden_any();
        proof {
            assert forall|i: int| 0 <= i < self.len implies r.trit_at(i) == sgn(
                self.acc.signed_at(i),
            ) by {}
        }
        r
    }
}

} // verus!
