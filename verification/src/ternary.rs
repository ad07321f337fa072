//! Single-trit balanced-ternary algebra, plus the 3-trit and 6-trit word
//! types built on it.
//!
//! A trit takes the values −1 (`N`), 0 (`Z`) and +1 (`P`). Multiplication is
//! the bind primitive, saturating addition is the bundle primitive, and the
//! carried addition supports multi-digit arithmetic. `Tryte3` packs three
//! trits (27 states, values −13..=13) and `Word6` packs six (729 states,
//! values −364..=364).

use vstd::prelude::*;

verus! {

/// A balanced-ternary digit: `N` = −1, `Z` = 0, `P` = +1.
#[derive(Clone, Copy, Debug, PartialEq, Eq, Hash, Structural)]
pub enum Trit {
    /// Negative: −1
    N,
    /// Zero: 0
    Z,
    /// Positive: +1
    P,
}

impl Default for Trit {
    fn default() -> (r: Trit)
        ensures
            r == Trit::Z,
    {
        Trit::Z
    }
}

impl Trit {
    /// The integer this trit stands for: −1, 0 or +1.
    pub open spec fn value(self) -> int {
        match self {
            Trit::N => -1,
            Trit::Z => 0,
            Trit::P => 1,
        }
    }

    /// Trit multiplication as a mathematical function (the bind primitive).
    pub open spec fn mul_spec(a: Trit, b: Trit) -> Trit {
        match (a, b) {
            (Trit::Z, _) => Trit::Z,
            (_, Trit::Z) => Trit::Z,
            (Trit::P, Trit::P) => Trit::P,
            (Trit::N, Trit::N) => Trit::P,
            (Trit::P, Trit::N) => Trit::N,
            (Trit::N, Trit::P) => Trit::N,
        }
    }

    /// Saturating addition as a mathematical function (the bundle primitive).
    pub open spec fn add_saturating_spec(a: Trit, b: Trit) -> Trit {
        if a.value() + b.value() <= -1 {
            Trit::N
        } else if a.value() + b.value() >= 1 {
            Trit::P
        } else {
            Trit::Z
        }
    }

    /// Negation as a mathematical function.
    pub open spec fn neg_spec(self) -> Trit {
        match self {
            Trit::N => Trit::P,
            Trit::Z => Trit::Z,
            Trit::P => Trit::N,
        }
    }

    /// Convert from an `i8`, clamping to the trit range by sign.
    pub fn from_i8_clamped(v: i8) -> (t: Trit)
        ensures
            v < 0 ==> t == Trit::N,
            v == 0 ==> t == Trit::Z,
            v > 0 ==> t == Trit::P,
    {
        if v < 0 {
            Trit::N
        } else if v == 0 {
            Trit::Z
        } else {
            Trit::P
        }
    }

    /// Convert from an `i8`, returning `None` outside −1..=1.
    pub fn from_i8_exact(v: i8) -> (t: Option<Trit>)
        ensures
            t is Some <==> -1 <= v <= 1,
            t is Some ==> t->0.value() == v as int,
    {
        if v == -1 {
            Some(Trit::N)
        } else if v == 0 {
            Some(Trit::Z)
        } else if v == 1 {
            Some(Trit::P)
        } else {
            None
        }
    }

    /// The trit as an `i8` in −1..=1.
    pub fn to_i8(self) -> (r: i8)
        ensures
            r as int == self.value(),
    {
        match self {
            Trit::N => -1,
            Trit::Z => 0,
            Trit::P => 1,
        }
    }

    /// Negate: −N = P, −Z = Z, −P = N.
    pub fn neg(self) -> (r: Trit)
        ensures
            r == self.neg_spec(),
            r.value() == -self.value(),
    {
        match self {
            Trit::N => Trit::P,
            Trit::Z => Trit::Z,
            Trit::P => Trit::N,
        }
    }

    /// Absolute value: |N| = P, |Z| = Z, |P| = P.
    pub fn abs(self) -> (r: Trit)
        ensures
            r.value() == if self.value() < 0 {
                -self.value()
            } else {
                self.value()
            },
            r != Trit::N,
    {
        match self {
            Trit::N => Trit::P,
            Trit::Z => Trit::Z,
            Trit::P => Trit::P,
        }
    }

    /// Sign as an integer: −1, 0 or 1.
    pub fn sign(self) -> (r: i8)
        ensures
            r as int == self.value(),
    {
        self.to_i8()
    }

    /// Whether this trit is zero.
    pub fn is_zero(self) -> (b: bool)
        ensures
            b == (self == Trit::Z),
    {
        match self {
            Trit::Z => true,
            _ => false,
        }
    }

    /// Whether this trit is non-zero.
    pub fn is_nonzero(self) -> (b: bool)
        ensures
            b == (self != Trit::Z),
    {
        !self.is_zero()
    }

    /// Trit multiplication (the bind operation). Self-inverse on non-zero
    /// trits: `t.mul(t) == P` for `t != Z`.
    pub fn mul(self, other: Trit) -> (r: Trit)
        ensures
            r == Trit::mul_spec(self, other),
            r.value() == self.value() * other.value(),
    {
        match (self, other) {
            (Trit::Z, _) => Trit::Z,
            (_, Trit::Z) => Trit::Z,
            (Trit::P, Trit::P) => Trit::P,
            (Trit::N, Trit::N) => Trit::P,
            (Trit::P, Trit::N) => Trit::N,
            (Trit::N, Trit::P) => Trit::N,
        }
    }

    /// Addition with carry for multi-digit balanced-ternary arithmetic.
    /// The pair `(sum, carry)` satisfies `sum + 3·carry = a + b + carry_in`,
    /// which pins it uniquely since both components lie in −1..=1.
    pub fn add_with_carry(self, other: Trit, carry_in: Trit) -> (r: (Trit, Trit))
        ensures
            r.0.value() + 3 * r.1.value() == self.value() + other.value() + carry_in.value(),
    {
        let sum = self.to_i8() + other.to_i8() + carry_in.to_i8();
        if sum == -3 {
            (Trit::Z, Trit::N)
        } else if sum == -2 {
            (Trit::P, Trit::N)
        } else if sum == -1 {
            (Trit::N, Trit::Z)
        } else if sum == 0 {
            (Trit::Z, Trit::Z)
        } else if sum == 1 {
            (Trit::P, Trit::Z)
        } else if sum == 2 {
            (Trit::N, Trit::P)
        } else {
            (Trit::Z, Trit::P)
        }
    }

    /// Saturating addition, used for pairwise bundle voting. Not associative
    /// across three or more operands; multi-way bundling must go through a
    /// carry-save accumulator instead.
    pub fn add_saturating(self, other: Trit) -> (r: Trit)
        ensures
            r == Trit::add_saturating_spec(self, other),
    {
        let sum = self.to_i8() + other.to_i8();
        Trit::from_i8_clamped(sum)
    }

    /// Majority of three trits: the sign of their sum.
    pub fn majority3(a: Trit, b: Trit, c: Trit) -> (r: Trit)
        ensures
            a.value() + b.value() + c.value() < 0 ==> r == Trit::N,
            a.value() + b.value() + c.value() == 0 ==> r == Trit::Z,
            a.value() + b.value() + c.value() > 0 ==> r == Trit::P,
    {
        let sum = a.to_i8() + b.to_i8() + c.to_i8();
        Trit::from_i8_clamped(sum)
    }

    /// Decode a trit from two bits: `(false, false)` is `Z`,
    /// `(false, true)` is `P`, `(true, false)` is `N`, and `(true, true)` is
    /// the one invalid state.
    pub fn from_bits(b1: bool, b0: bool) -> (t: Option<Trit>)
        ensures
            t is Some <==> !(b1 && b0),
            !b1 && !b0 ==> t == Some(Trit::Z),
            !b1 && b0 ==> t == Some(Trit::P),
            b1 && !b0 ==> t == Some(Trit::N),
    {
        if b1 && b0 {
            None
        } else if b0 {
            Some(Trit::P)
        } else if b1 {
            Some(Trit::N)
        } else {
            Some(Trit::Z)
        }
    }

    /// Encode a trit as two bits, the inverse of `from_bits`.
    pub fn to_bits(self) -> (r: (bool, bool))
        ensures
            r == match self {
                Trit::Z => (false, false),
                Trit::P => (false, true),
                Trit::N => (true, false),
            },
            !(r.0 && r.1),
    {
        match self {
            Trit::Z => (false, false),
            Trit::P => (false, true),
            Trit::N => (true, false),
        }
    }
}

/// Two trits with the same value are the same trit.
pub proof fn lemma_trit_value_injective(a: Trit, b: Trit)
    requires
        a.value() == b.value(),
    ensures
        a == b,
{
}

/// Trit multiplication is commutative.
pub proof fn lemma_trit_mul_commutative(a: Trit, b: Trit)
    ensures
        Trit::mul_spec(a, b) == Trit::mul_spec(b, a),
{
}

/// Trit multiplication is associative.
pub proof fn lemma_trit_mul_associative(a: Trit, b: Trit, c: Trit)
    ensures
        Trit::mul_spec(Trit::mul_spec(a, b), c) == Trit::mul_spec(a, Trit::mul_spec(b, c)),
{
}

/// Every non-zero trit is its own multiplicative inverse, and `Z`
/// annihilates.
pub proof fn lemma_trit_self_inverse(a: Trit)
    ensures
        a != Trit::Z ==> Trit::mul_spec(a, a) == Trit::P,
        Trit::mul_spec(a, Trit::Z) == Trit::Z,
{
}

/// Negation is an involution.
pub proof fn lemma_trit_neg_involution(a: Trit)
    ensures
        a.neg_spec().neg_spec() == a,
{
}

/// Saturating trit addition is commutative.
pub proof fn lemma_trit_add_saturating_commutative(a: Trit, b: Trit)
    ensures
        Trit::add_saturating_spec(a, b) == Trit::add_saturating_spec(b, a),
{
}

/// A tryte of exactly three trits: 27 states, values −13..=13.
/// `trits[0]` is the least significant digit.
#[derive(Clone, Copy, Debug, PartialEq, Eq, Hash)]
pub struct Tryte3 {
    /// The three digits, least significant first.
    pub trits: [Trit; 3],
}

impl Tryte3 {
    /// Largest representable value.
    pub const MAX_VALUE: i8 = 13;

    /// Smallest representable value.
    pub const MIN_VALUE: i8 = -13;

    /// Number of distinct states.
    pub const NUM_STATES: u8 = 27;

    /// The integer this tryte stands for.
    pub open spec fn spec_value(self) -> int {
        self.trits[0].value() + 3 * self.trits[1].value() + 9 * self.trits[2].value()
    }

    /// The packed form: each digit shifted to 0..=2 and read as a base-3
    /// numeral, giving a value in 0..=26.
    pub open spec fn spec_pack(self) -> int {
        (self.trits[0].value() + 1) + 3 * (self.trits[1].value() + 1) + 9 * (self.trits[2].value()
            + 1)
    }

    /// The all-zero tryte.
    pub fn zero() -> (r: Tryte3)
        ensures
            r.spec_value() == 0,
            r.trits[0] == Trit::Z && r.trits[1] == Trit::Z && r.trits[2] == Trit::Z,
    {
        Tryte3 { trits: [Trit::Z, Trit::Z, Trit::Z] }
    }

    /// Build from three digits, least significant first.
    pub fn new(t0: Trit, t1: Trit, t2: Trit) -> (r: Tryte3)
        ensures
            r.trits[0] == t0 && r.trits[1] == t1 && r.trits[2] == t2,
    {
        Tryte3 { trits: [t0, t1, t2] }
    }

    /// Build the balanced-ternary digits of a value in −13..=13;
    /// `None` outside that range.
    pub fn from_i8(value: i8) -> (r: Option<Tryte3>)
        ensures
            r is Some <==> -13 <= value <= 13,
            r is Some ==> r->0.spec_value() == value as int,
    {
        if value < -13 || value > 13 {
            return None;
        }
        let negative = value < 0;
        let v: i8 = if negative {
            -value
        } else {
            value
        };
        // v is now in 0..=13; extract base-3 digits with a balanced carry.
        let r0: i8 = v % 3;
        let q0: i8 = v / 3;
        let (t0, q1): (Trit, i8) = if r0 == 0 {
            (Trit::Z, q0)
        } else if r0 == 1 {
            (Trit::P, q0)
        } else {
            (Trit::N, q0 + 1)
        };
        let r1: i8 = q1 % 3;
        let q2: i8 = q1 / 3;
        let (t1, q3): (Trit, i8) = if r1 == 0 {
            (Trit::Z, q2)
        } else if r1 == 1 {
            (Trit::P, q2)
        } else {
            (Trit::N, q2 + 1)
        };
        let t2: Trit = if q3 == 0 {
            Trit::Z
        } else {
            Trit::P
        };
        let out = if negative {
            Tryte3 { trits: [t0.neg(), t1.neg(), t2.neg()] }
        } else {
            Tryte3 { trits: [t0, t1, t2] }
        };
        Some(out)
    }

    /// The value of this tryte as an `i8` in −13..=13.
    pub fn to_i8(self) -> (r: i8)
        ensures
            r as int == self.spec_value(),
            -13 <= r <= 13,
    {
        self.trits[0].to_i8() + 3 * self.trits[1].to_i8() + 9 * self.trits[2].to_i8()
    }

    /// Negate every digit; the value negates with them.
    pub fn neg(self) -> (r: Tryte3)
        ensures
            r.spec_value() == -self.spec_value(),
            forall|i: int| 0 <= i < 3 ==> r.trits[i] == self.trits[i].neg_spec(),
    {
        Tryte3 { trits: [self.trits[0].neg(), self.trits[1].neg(), self.trits[2].neg()] }
    }

    /// Digit-wise multiplication (bind).
    pub fn mul(self, other: Tryte3) -> (r: Tryte3)
        ensures
            forall|i: int|
                0 <= i < 3 ==> r.trits[i] == Trit::mul_spec(self.trits[i], other.trits[i]),
    {
        Tryte3 {
            trits: [
                self.trits[0].mul(other.trits[0]),
                self.trits[1].mul(other.trits[1]),
                self.trits[2].mul(other.trits[2]),
            ],
        }
    }

    /// Digit-wise saturating addition (bundle).
    pub fn bundle(self, other: Tryte3) -> (r: Tryte3)
        ensures
            forall|i: int|
                0 <= i < 3 ==> r.trits[i] == Trit::add_saturating_spec(
                    self.trits[i],
                    other.trits[i],
                ),
    {
        Tryte3 {
            trits: [
                self.trits[0].add_saturating(other.trits[0]),
                self.trits[1].add_saturating(other.trits[1]),
                self.trits[2].add_saturating(other.trits[2]),
            ],
        }
    }

    /// Ripple-carry addition; the result and carry-out satisfy
    /// `sum + 27·carry = a + b + carry_in`.
    pub fn add_with_carry(self, other: Tryte3, carry_in: Trit) -> (r: (Tryte3, Trit))
        ensures
            r.0.spec_value() + 27 * r.1.value() == self.spec_value() + other.spec_value()
                + carry_in.value(),
    {
        let (t0, c0) = self.trits[0].add_with_carry(other.trits[0], carry_in);
        let (t1, c1) = self.trits[1].add_with_carry(other.trits[1], c0);
        let (t2, c2) = self.trits[2].add_with_carry(other.trits[2], c1);
        (Tryte3 { trits: [t0, t1, t2] }, c2)
    }

    /// Dot product of the two digit vectors, in −3..=3.
    pub fn dot(self, other: Tryte3) -> (r: i8)
        ensures
            r as int == self.trits[0].value() * other.trits[0].value() + self.trits[1].value()
                * other.trits[1].value() + self.trits[2].value() * other.trits[2].value(),
    {
        self.trits[0].to_i8() * other.trits[0].to_i8() + self.trits[1].to_i8()
            * other.trits[1].to_i8() + self.trits[2].to_i8() * other.trits[2].to_i8()
    }

    /// Count of non-zero digits.
    pub fn nnz(self) -> (r: u8)
        ensures
            r as int == (if self.trits[0] != Trit::Z {
                1int
            } else {
                0int
            }) + (if self.trits[1] != Trit::Z {
                1int
            } else {
                0int
            }) + (if self.trits[2] != Trit::Z {
                1int
            } else {
                0int
            }),
    {
        let mut count: u8 = 0;
        if self.trits[0].is_nonzero() {
            count = count + 1;
        }
        if self.trits[1].is_nonzero() {
            count = count + 1;
        }
        if self.trits[2].is_nonzero() {
            count = count + 1;
        }
        count
    }

    /// Pack into a byte in 0..=26 (base-3, digits shifted to 0..=2).
    pub fn pack(self) -> (r: u8)
        ensures
            r as int == self.spec_pack(),
            r < 27,
    {
        let t0 = (self.trits[0].to_i8() + 1) as u8;
        let t1 = (self.trits[1].to_i8() + 1) as u8;
        let t2 = (self.trits[2].to_i8() + 1) as u8;
        t0 + 3 * t1 + 9 * t2
    }

    /// Unpack a byte in 0..=26; `None` otherwise. The result re-packs to the
    /// same byte.
    pub fn unpack(byte: u8) -> (r: Option<Tryte3>)
        ensures
            r is Some <==> byte < 27,
            r is Some ==> r->0.spec_pack() == byte as int,
    {
        if byte >= 27 {
            return None;
        }
        let d0: u8 = byte % 3;
        let d1: u8 = (byte / 3) % 3;
        let d2: u8 = byte / 9;
        let t0 = Trit::from_i8_exact(d0 as i8 - 1).unwrap();
        let t1 = Trit::from_i8_exact(d1 as i8 - 1).unwrap();
        let t2 = Trit::from_i8_exact(d2 as i8 - 1).unwrap();
        Some(Tryte3 { trits: [t0, t1, t2] })
    }
}

/// Two trytes with the same packed form have the same digits: the pack is a
/// bijection onto 0..=26, so `unpack` inverts `pack`.
pub proof fn lemma_tryte3_pack_injective(a: Tryte3, b: Tryte3)
    requires
        a.spec_pack() == b.spec_pack(),
    ensures
        a == b,
{
    assert(a.trits[0] == b.trits[0] && a.trits[1] == b.trits[1] && a.trits[2] == b.trits[2]);
    assert(a.trits =~= b.trits);
}

/// Two trytes with the same value have the same digits: the balanced-ternary
/// representation in three digits is unique, so `from_i8` inverts `to_i8`.
pub proof fn lemma_tryte3_value_injective(a: Tryte3, b: Tryte3)
    requires
        a.spec_value() == b.spec_value(),
    ensures
        a == b,
{
    assert(a.trits[0] == b.trits[0] && a.trits[1] == b.trits[1] && a.trits[2] == b.trits[2]);
    assert(a.trits =~= b.trits);
}

/// A word of six trits, stored as two trytes: 729 states, values −364..=364.
#[derive(Clone, Copy, Debug, PartialEq, Eq, Hash)]
pub struct Word6 {
    /// Less significant tryte.
    pub low: Tryte3,
    /// More significant tryte, weight 27.
    pub high: Tryte3,
}

impl Word6 {
    /// Largest representable value.
    pub const MAX_VALUE: i16 = 364;

    /// Smallest representable value.
    pub const MIN_VALUE: i16 = -364;

    /// Number of distinct states.
    pub const NUM_STATES: u16 = 729;

    /// The integer this word stands for.
    pub open spec fn spec_value(self) -> int {
        self.low.spec_value() + 27 * self.high.spec_value()
    }

    /// The packed form in 0..=728.
    pub open spec fn spec_pack(self) -> int {
        self.low.spec_pack() + 27 * self.high.spec_pack()
    }

    /// The all-zero word.
    pub fn zero() -> (r: Word6)
        ensures
            r.spec_value() == 0,
    {
        Word6 { low: Tryte3::zero(), high: Tryte3::zero() }
    }

    /// Build the balanced representation of a value in −364..=364;
    /// `None` outside that range. The low tryte carries the balanced
    /// remainder modulo 27, the high tryte the balanced quotient.
    pub fn from_i16(value: i16) -> (r: Option<Word6>)
        ensures
            r is Some <==> -364 <= value <= 364,
            r is Some ==> r->0.spec_value() == value as int,
    {
        if value < -364 || value > 364 {
            return None;
        }
        let negative = value < 0;
        let v: i16 = if negative {
            -value
        } else {
            value
        };
        // v in 0..=364: balanced split v = low + 27*high with low in −13..=13.
        let raw_low: i16 = v % 27;
        let raw_high: i16 = v / 27;
        let (low_val, high_val): (i16, i16) = if raw_low > 13 {
            (raw_low - 27, raw_high + 1)
        } else {
            (raw_low, raw_high)
        };
        let (low_signed, high_signed): (i16, i16) = if negative {
            (-low_val, -high_val)
        } else {
            (low_val, high_val)
        };
        let low = Tryte3::from_i8(low_signed as i8).unwrap();
        let high = Tryte3::from_i8(high_signed as i8).unwrap();
        Some(Word6 { low, high })
    }

    /// The value of this word as an `i16` in −364..=364.
    pub fn to_i16(self) -> (r: i16)
        ensures
            r as int == self.spec_value(),
            -364 <= r <= 364,
    {
        self.low.to_i8() as i16 + 27 * self.high.to_i8() as i16
    }

    /// Digit-wise multiplication (bind).
    pub fn mul(self, other: Word6) -> (r: Word6)
        ensures
            forall|i: int|
                0 <= i < 3 ==> r.low.trits[i] == Trit::mul_spec(self.low.trits[i], other.low.trits[i]),
            forall|i: int|
                0 <= i < 3 ==> r.high.trits[i] == Trit::mul_spec(
                    self.high.trits[i],
                    other.high.trits[i],
                ),
    {
        Word6 { low: self.low.mul(other.low), high: self.high.mul(other.high) }
    }

    /// Digit-wise saturating addition (bundle).
    pub fn bundle(self, other: Word6) -> (r: Word6)
        ensures
            forall|i: int|
                0 <= i < 3 ==> r.low.trits[i] == Trit::add_saturating_spec(
                    self.low.trits[i],
                    other.low.trits[i],
                ),
            forall|i: int|
                0 <= i < 3 ==> r.high.trits[i] == Trit::add_saturating_spec(
                    self.high.trits[i],
                    other.high.trits[i],
                ),
    {
        Word6 { low: self.low.bundle(other.low), high: self.high.bundle(other.high) }
    }

    /// Pack into ten bits, a value in 0..=728.
    pub fn pack(self) -> (r: u16)
        ensures
            r as int == self.spec_pack(),
            r < 729,
    {
        self.low.pack() as u16 + 27 * self.high.pack() as u16
    }

    /// Unpack a value in 0..=728; `None` otherwise. The result re-packs to
    /// the same value.
    pub fn unpack(bits: u16) -> (r: Option<Word6>)
        ensures
            r is Some <==> bits < 729,
            r is Some ==> r->0.spec_pack() == bits as int,
    {
        if bits >= 729 {
            return None;
        }
        let low = Tryte3::unpack((bits % 27) as u8).unwrap();
        let high = Tryte3::unpack((bits / 27) as u8).unwrap();
        Some(Word6 { low, high })
    }
}

/// Two words with the same packed form are equal.
pub proof fn lemma_word6_pack_injective(a: Word6, b: Word6)
    requires
        a.spec_pack() == b.spec_pack(),
    ensures
        a == b,
{
    assert(0 <= a.low.spec_pack() < 27 && 0 <= b.low.spec_pack() < 27);
    assert(a.low.spec_pack() == b.low.spec_pack() && a.high.spec_pack() == b.high.spec_pack());
    lemma_tryte3_pack_injective(a.low, b.low);
    lemma_tryte3_pack_injective(a.high, b.high);
}

/// Two words with the same value are equal: the 6-digit balanced
/// representation is unique.
pub proof fn lemma_word6_value_injective(a: Word6, b: Word6)
    requires
        a.spec_value() == b.spec_value(),
    ensures
        a == b,
{
    assert(-13 <= a.low.spec_value() <= 13 && -13 <= b.low.spec_value() <= 13);
    assert(a.low.spec_value() == b.low.spec_value() && a.high.spec_value()
        == b.high.spec_value());
    lemma_tryte3_value_injective(a.low, b.low);
    lemma_tryte3_value_injective(a.high, b.high);
}

/// A reconstruction correction record: the exact bytes that belong at a
/// position, kept beside a short verification hash of the original.
#[derive(Clone, Debug)]
pub struct CorrectionEntry {
    /// Position in the data.
    pub position: u64,
    /// The exact value that should be there.
    pub exact_value: Vec<u8>,
    /// Hash of the original, for verification.
    pub verification_hash: [u8; 8],
}

/// The signed sum of a sequence of trits.
pub open spec fn trit_sum(s: Seq<Trit>) -> int
    decreases s.len(),
{
    if s.len() == 0 {
        0
    } else {
        trit_sum(s.drop_last()) + s.last().value()
    }
}

/// The parity trit of a trit sequence: the residue of the signed sum modulo
/// 3, mapped through 0 → Z, 1 → P, 2 → N. A cheap single-digit error
/// detector, not an error-correcting layer.
pub open spec fn parity_of(s: Seq<Trit>) -> Trit {
    let m = trit_sum(s) % 3;
    if m == 0 {
        Trit::Z
    } else if m == 1 {
        Trit::P
    } else {
        Trit::N
    }
}

/// Parity trit over a trit sequence.
#[derive(Clone, Copy, Debug, PartialEq, Eq, Structural)]
pub struct ParityTrit(pub Trit);

impl ParityTrit {
    /// Compute the parity of a slice of trits.
    pub fn compute(trits: &[Trit]) -> (r: ParityTrit)
        ensures
            r.0 == parity_of(trits@),
    {
        let mut acc: u8 = 0;
        let n = trits.len();
        assert(trits@.take(0) =~= Seq::<Trit>::empty());
        for i in 0..n
            invariant
                n == trits@.len(),
                0 <= acc < 3,
                acc as int == trit_sum(trits@.take(i as int)) % 3,
        {
            let t = trits[i];
            // Shift the trit value into 0..=2 modulo 3: N adds 2, Z adds 0,
            // P adds 1.
            let add: u8 = match t {
                Trit::N => 2,
                Trit::Z => 0,
                Trit::P => 1,
            };
            proof {
                let prefix = trits@.take(i as int);
                let next = trits@.take(i + 1);
                assert(next.drop_last() =~= prefix);
                assert(next.last() == trits@[i as int]);
                vstd::arithmetic::div_mod::lemma_add_mod_noop(
                    trit_sum(prefix),
                    trits@[i as int].value(),
                    3,
                );
                vstd::arithmetic::div_mod::lemma_mod_twice(trits@[i as int].value(), 3);
            }
            acc = (acc + add) % 3;
            proof {
                let prefix = trits@.take(i as int);
                vstd::arithmetic::div_mod::lemma_add_mod_noop(
                    trit_sum(prefix) % 3,
                    add as int,
                    3,
                );
                assert((trits@[i as int].value()) % 3 == add as int) by {
                    assert(add as int == (trits@[i as int].value() + 3) % 3) by {
                        vstd::arithmetic::div_mod::lemma_mod_add_multiples_vanish(
                            trits@[i as int].value(),
                            3,
                        );
                    }
                }
            }
        }
        assert(trits@.take(n as int) =~= trits@);
        if acc == 0 {
            ParityTrit(Trit::Z)
        } else if acc == 1 {
            ParityTrit(Trit::P)
        } else {
            ParityTrit(Trit::N)
        }
    }

    /// Whether the stored parity matches the parity of `trits`.
    pub fn verify(&self, trits: &[Trit]) -> (b: bool)
        ensures
            b == (self.0 == parity_of(trits@)),
    {
        let computed = Self::compute(trits);
        match (computed.0, self.0) {
            (Trit::N, Trit::N) => true,
            (Trit::Z, Trit::Z) => true,
            (Trit::P, Trit::P) => true,
            _ => false,
        }
    }
}

} // verus!
