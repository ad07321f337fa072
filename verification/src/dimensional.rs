//! Variable-precision trytes: a trit digit type and trit vectors of
//! configurable depth, with balanced base-3 value semantics.
//!
//! A `Tryte` of `n` trits represents a value in the balanced range
//! ±(3ⁿ − 1)/2. Bind and bundle act digit-wise; the integer conversions
//! are exact and inverse to each other on the representable range.

use vstd::prelude::*;

verus! {

/// A balanced-ternary digit.
#[derive(Clone, Copy, Debug, PartialEq, Eq, Hash, Structural)]
pub enum Trit {
    /// −1
    Neg,
    /// 0
    Zero,
    /// +1
    Pos,
}

impl Trit {
    /// The integer this digit stands for.
    pub open spec fn value(self) -> int {
        match self {
            Trit::Neg => -1,
            Trit::Zero => 0,
            Trit::Pos => 1,
        }
    }

    /// Digit multiplication (the bind primitive).
    pub fn mul(self, other: Trit) -> (r: Trit)
        ensures
            r.value() == self.value() * other.value(),
    {
        match (self, other) {
            (Trit::Zero, _) => Trit::Zero,
            (_, Trit::Zero) => Trit::Zero,
            (Trit::Pos, Trit::Pos) => Trit::Pos,
            (Trit::Neg, Trit::Neg) => Trit::Pos,
            (Trit::Pos, Trit::Neg) => Trit::Neg,
            (Trit::Neg, Trit::Pos) => Trit::Neg,
        }
    }

    /// Addition with carry: the pair satisfies
    /// `sum + 3·carry = a + b + carry_in`.
    pub fn add_with_carry(self, other: Trit, carry_in: Trit) -> (r: (Trit, Trit))
        ensures
            r.0.value() + 3 * r.1.value() == self.value() + other.value() + carry_in.value(),
    {
        let sum = self.to_i8() + other.to_i8() + carry_in.to_i8();
        if sum == -3 {
            (Trit::Zero, Trit::Neg)
        } else if sum == -2 {
            (Trit::Pos, Trit::Neg)
        } else if sum == -1 {
            (Trit::Neg, Trit::Zero)
        } else if sum == 0 {
            (Trit::Zero, Trit::Zero)
        } else if sum == 1 {
            (Trit::Pos, Trit::Zero)
        } else if sum == 2 {
            (Trit::Neg, Trit::Pos)
        } else {
            (Trit::Zero, Trit::Pos)
        }
    }

    /// Negation.
    pub fn neg(self) -> (r: Trit)
        ensures
            r.value() == -self.value(),
    {
        match self {
            Trit::Neg => Trit::Pos,
            Trit::Zero => Trit::Zero,
            Trit::Pos => Trit::Neg,
        }
    }

    /// The digit with the sign of an integer.
    pub fn from_i8(v: i8) -> (r: Trit)
        ensures
            v < 0 ==> r == Trit::Neg,
            v == 0 ==> r == Trit::Zero,
            v > 0 ==> r == Trit::Pos,
    {
        if v < 0 {
            Trit::Neg
        } else if v == 0 {
            Trit::Zero
        } else {
            Trit::Pos
        }
    }

    /// The digit as an integer in −1..=1.
    pub fn to_i8(self) -> (r: i8)
        ensures
            r as int == self.value(),
    {
        match self {
            Trit::Neg => -1,
            Trit::Zero => 0,
            Trit::Pos => 1,
        }
    }
}

/// 3 to the `k`-th power.
pub open spec fn pow3(k: int) -> int
    decreases k,
{
    if k <= 0 {
        1
    } else {
        3 * pow3(k - 1)
    }
}

/// The balanced base-3 value of the first `k` digits, least significant
/// first.
pub open spec fn trits_value(s: Seq<Trit>, k: int) -> int
    decreases k,
{
    if k <= 0 {
        0
    } else {
        trits_value(s, k - 1) + s[k - 1].value() * pow3(k - 1)
    }
}

/// Powers of three grow monotonically and stay positive.
proof fn lemma_pow3_bounds(k: int, cap: int)
    requires
        0 <= k <= cap,
    ensures
        1 <= pow3(k) <= pow3(cap),
    decreases cap,
{
    if cap > 0 {
        if k == cap {
            lemma_pow3_bounds(0, cap - 1);
            assert(pow3(cap) == 3 * pow3(cap - 1));
            lemma_pow3_pos(cap - 1);
        } else {
            lemma_pow3_bounds(k, cap - 1);
            lemma_pow3_pos(cap - 1);
        }
    }
}

/// Powers of three are positive.
proof fn lemma_pow3_pos(k: int)
    ensures
        pow3(k) >= 1,
    decreases k,
{
    if k > 0 {
        lemma_pow3_pos(k - 1);
    }
}

/// A digit string's value stays within the balanced range of its length.
proof fn lemma_trits_value_bound(s: Seq<Trit>, k: int)
    requires
        0 <= k,
    ensures
        -(pow3(k) - 1) / 2 <= trits_value(s, k) <= (pow3(k) - 1) / 2,
        2 * trits_value(s, k) <= pow3(k) - 1,
        -2 * trits_value(s, k) <= pow3(k) - 1,
    decreases k,
{
    if k > 0 {
        lemma_trits_value_bound(s, k - 1);
        lemma_pow3_pos(k - 1);
    }
}

/// A tryte of configurable depth: trits, least significant first.
#[derive(Clone, Debug, PartialEq, Eq, Hash)]
pub struct Tryte {
    /// The digits, least significant first.
    pub trits: Vec<Trit>,
}

impl Tryte {
    /// The integer this tryte stands for.
    pub open spec fn spec_value(self) -> int {
        trits_value(self.trits@, self.trits@.len() as int)
    }

    /// The zero tryte of a given depth.
    pub fn zero(num_trits: usize) -> (r: Tryte)
        ensures
            r.trits@.len() == num_trits,
            r.spec_value() == 0,
            forall|i: int| 0 <= i < num_trits ==> r.trits@[i] == Trit::Zero,
    {
        let mut trits: Vec<Trit> = Vec::new();
        for i in 0..num_trits
            invariant
                trits@.len() == i,
                forall|k: int| 0 <= k < i ==> trits@[k] == Trit::Zero,
                trits_value(trits@, i as int) == 0,
        {
            let ghost prev = trits@;
            trits.push(Trit::Zero);
            proof {
                assert(trits@[i as int] == Trit::Zero);
                lemma_trits_value_prefix(prev, trits@, i as int);
            }
        }
        Tryte { trits }
    }

    /// The number of digits.
    pub fn len(&self) -> (r: usize)
        ensures
            r == self.trits@.len(),
    {
        self.trits.len()
    }

    /// Whether the tryte has no digits.
    pub fn is_empty(&self) -> (r: bool)
        ensures
            r == (self.trits@.len() == 0),
    {
        self.trits.len() == 0
    }

    /// The largest value of a tryte with `num_trits` digits.
    pub fn max_value(num_trits: usize) -> (r: i64)
        requires
            num_trits <= 38,
        ensures
            r as int == (pow3(num_trits as int) - 1) / 2,
    {
        let p = pow3_exec(num_trits);
        proof {
            lemma_pow3_pos(num_trits as int);
        }
        (p - 1) / 2
    }

    /// The smallest value of a tryte with `num_trits` digits.
    pub fn min_value(num_trits: usize) -> (r: i64)
        requires
            num_trits <= 38,
        ensures
            r as int == -((pow3(num_trits as int) - 1) / 2),
    {
        let m = Tryte::max_value(num_trits);
        proof {
            lemma_pow3_pos(num_trits as int);
        }
        -m
    }

    /// The balanced base-3 digits of a value; exact whenever the value
    /// fits the depth's range.
    pub fn from_i64(value: i64, num_trits: usize) -> (r: Tryte)
        requires
            num_trits <= 38,
            -((pow3(num_trits as int) - 1) / 2) <= value <= (pow3(num_trits as int) - 1) / 2,
        ensures
            r.trits@.len() == num_trits,
            r.spec_value() == value,
    {
        proof {
            lemma_pow3_values();
            lemma_pow3_bounds(num_trits as int, 38);
            vstd::arithmetic::div_mod::lemma_div_is_ordered(
                pow3(num_trits as int) - 1,
                pow3(38) - 1,
                2,
            );
        }
        let negative = value < 0;
        let mut rem: i64 = if negative {
            -value
        } else {
            value
        };
        let ghost v_abs: int = rem as int;
        let mut trits: Vec<Trit> = Vec::new();
        proof {
            lemma_pow3_pos(num_trits as int);
        }
        for i in 0..num_trits
            invariant
                num_trits <= 38,
                trits@.len() == i,
                rem >= 0,
                v_abs <= (pow3(num_trits as int) - 1) / 2,
                2 * v_abs <= pow3(num_trits as int) - 1,
                trits_value(trits@, i as int) + pow3(i as int) * (rem as int) == v_abs,
        {
            let ghost prev = trits@;
            let ghost rem0 = rem as int;
            let digit_rem = rem % 3;
            let mut q = rem / 3;
            let d: Trit = if digit_rem == 0 {
                Trit::Zero
            } else if digit_rem == 1 {
                Trit::Pos
            } else {
                q = q + 1;
                Trit::Neg
            };
            proof {
                vstd::arithmetic::div_mod::lemma_fundamental_div_mod(rem0, 3);
                vstd::arithmetic::div_mod::lemma_mod_bound(rem0, 3);
                vstd::arithmetic::div_mod::lemma_div_pos_is_pos(rem0, 3);
                assert(rem0 == d.value() + 3 * (q as int));
            }
            trits.push(d);
            rem = q;
            proof {
                lemma_trits_value_prefix(prev, trits@, i as int);
                assert(trits_value(trits@, i + 1) == trits_value(prev, i as int) + d.value()
                    * pow3(i as int));
                assert(pow3(i + 1) == 3 * pow3(i as int));
                assert(pow3(i as int) * rem0 == pow3(i as int) * d.value() + pow3(i + 1) * (
                q as int)) by (nonlinear_arith)
                    requires
                        rem0 == d.value() + 3 * (q as int),
                        pow3(i + 1) == 3 * pow3(i as int),
                ;
                assert(d.value() * pow3(i as int) == pow3(i as int) * d.value())
                    by (nonlinear_arith);
                // The remainder stays within range: it only shrinks.
                lemma_pow3_bounds(i + 1, num_trits as int);
                assert((rem as int) * pow3(i + 1) <= pow3(i + 1) * (rem as int))
                    by (nonlinear_arith);
            }
        }
        proof {
            // The final remainder must be zero: anything left would push
            // the value past the representable range.
            lemma_trits_value_bound(trits@, num_trits as int);
            lemma_pow3_pos(num_trits as int);
            assert(rem as int == 0) by (nonlinear_arith)
                requires
                    trits_value(trits@, num_trits as int) + pow3(num_trits as int) * (rem as int)
                        == v_abs,
                    2 * v_abs <= pow3(num_trits as int) - 1,
                    -2 * trits_value(trits@, num_trits as int) <= pow3(num_trits as int) - 1,
                    rem >= 0,
                    pow3(num_trits as int) >= 1,
            ;
        }
        if negative {
            let r = negate_tryte(&Tryte { trits });
            proof {
                assert(r.spec_value() == -v_abs);
            }
            r
        } else {
            Tryte { trits }
        }
    }

    /// The integer value of this tryte.
    pub fn to_i64(&self) -> (r: i64)
        requires
            self.trits@.len() <= 38,
        ensures
            r as int == self.spec_value(),
    {
        let n = self.trits.len();
        let mut acc: i64 = 0;
        let mut power: i64 = 1;
        for i in 0..n
            invariant
                n == self.trits@.len(),
                n <= 38,
                i < n ==> power as int == pow3(i as int),
                acc as int == trits_value(self.trits@, i as int),
                2 * (if acc >= 0 {
                    acc as int
                } else {
                    -(acc as int)
                }) <= pow3(i as int) - 1,
        {
            proof {
                lemma_pow3_values();
                lemma_pow3_bounds(i as int, 38);
                lemma_pow3_bounds(i + 1, 38);
                lemma_pow3_pos(i as int);
            }
            let t = self.trits[i];
            let tv = t.to_i8();
            let prod: i64 = if tv == 1 {
                power
            } else if tv == -1 {
                -power
            } else {
                0
            };
            proof {
                assert(prod as int == self.trits@[i as int].value() * pow3(i as int))
                    by (nonlinear_arith)
                    requires
                        prod as int == (if self.trits@[i as int].value() == 1 {
                            pow3(i as int)
                        } else if self.trits@[i as int].value() == -1 {
                            -pow3(i as int)
                        } else {
                            0int
                        }),
                        -1 <= self.trits@[i as int].value() <= 1,
                ;
            }
            acc = acc + prod;
            if i + 1 < n {
                power = 3 * power;
            }
        }
        acc
    }

    /// Digit-wise multiplication (bind); the depths must match.
    pub fn bind(&self, other: &Tryte) -> (r: Tryte)
        requires
            self.trits@.len() == other.trits@.len(),
        ensures
            r.trits@.len() == self.trits@.len(),
            forall|i: int|
                0 <= i < r.trits@.len() ==> (#[trigger] r.trits@[i]).value() == self.trits@[
                i].value() * other.trits@[i].value(),
    {
        let n = self.trits.len();
        let mut trits: Vec<Trit> = Vec::new();
        for i in 0..n
            invariant
                n == self.trits@.len(),
                n == other.trits@.len(),
                trits@.len() == i,
                forall|k: int|
                    0 <= k < i ==> (#[trigger] trits@[k]).value() == self.trits@[k].value()
                        * other.trits@[k].value(),
        {
            trits.push(self.trits[i].mul(other.trits[i]));
        }
        Tryte { trits }
    }

    /// Digit-wise majority (bundle): the sign of each digit pair's sum;
    /// the depths must match.
    pub fn bundle(&self, other: &Tryte) -> (r: Tryte)
        requires
            self.trits@.len() == other.trits@.len(),
        ensures
            r.trits@.len() == self.trits@.len(),
            forall|i: int|
                0 <= i < r.trits@.len() ==> (#[trigger] r.trits@[i]).value() == sign_of(
                    self.trits@[i].value() + other.trits@[i].value(),
                ),
    {
        let n = self.trits.len();
        let mut trits: Vec<Trit> = Vec::new();
        for i in 0..n
            invariant
                n == self.trits@.len(),
                n == other.trits@.len(),
                trits@.len() == i,
                forall|k: int|
                    0 <= k < i ==> (#[trigger] trits@[k]).value() == sign_of(
                        self.trits@[k].value() + other.trits@[k].value(),
                    ),
        {
            let sum = self.trits[i].to_i8() + other.trits[i].to_i8();
            trits.push(Trit::from_i8(sum));
        }
        Tryte { trits }
    }

    /// The dot product of the digit strings; the depths must match.
    pub fn dot(&self, other: &Tryte) -> (r: i64)
        requires
            vstd::math::min(self.trits@.len() as int, other.trits@.len() as int)
                <= 0x1000_0000_0000_0000,
        ensures
            r as int == tryte_dot_upto(
                *self,
                *other,
                vstd::math::min(self.trits@.len() as int, other.trits@.len() as int),
            ),
    {
        let n = if self.trits.len() < other.trits.len() {
            self.trits.len()
        } else {
            other.trits.len()
        };
        let mut acc: i64 = 0;
        for i in 0..n
            invariant
                n as int == vstd::math::min(self.trits@.len() as int, other.trits@.len() as int),
                n <= 0x1000_0000_0000_0000,
                acc as int == tryte_dot_upto(*self, *other, i as int),
                -(i as int) <= acc as int <= i as int,
        {
            let m = self.trits[i].mul(other.trits[i]);
            acc = acc + m.to_i8() as i64;
        }
        acc
    }

    /// The count of non-zero digits, which is the squared Euclidean norm
    /// of a ternary digit string.
    pub fn norm_squared(&self) -> (r: i64)
        requires
            self.trits@.len() <= 0x1000_0000_0000_0000,
        ensures
            r as int == tryte_nnz_upto(*self, self.trits@.len() as int),
    {
        let n = self.trits.len();
        let mut acc: i64 = 0;
        for i in 0..n
            invariant
                n == self.trits@.len(),
                n <= 0x1000_0000_0000_0000,
                acc as int == tryte_nnz_upto(*self, i as int),
                0 <= acc as int <= i as int,
        {
            let z = match self.trits[i] {
                Trit::Zero => true,
                _ => false,
            };
            if !z {
                acc = acc + 1;
            }
        }
        acc
    }
}

/// The sign of an integer as a digit value.
pub open spec fn sign_of(v: int) -> int {
    if v > 0 {
        1int
    } else if v < 0 {
        -1int
    } else {
        0int
    }
}

/// The dot product of two digit strings over the first `k` digits.
pub open spec fn tryte_dot_upto(a: Tryte, b: Tryte, k: int) -> int
    decreases k,
{
    if k <= 0 {
        0
    } else {
        tryte_dot_upto(a, b, k - 1) + a.trits@[k - 1].value() * b.trits@[k - 1].value()
    }
}

/// The count of non-zero digits among the first `k`.
pub open spec fn tryte_nnz_upto(a: Tryte, k: int) -> int
    decreases k,
{
    if k <= 0 {
        0
    } else {
        tryte_nnz_upto(a, k - 1) + if a.trits@[k - 1] == Trit::Zero {
            0int
        } else {
            1int
        }
    }
}

/// Appending a digit adds its weighted value.
proof fn lemma_trits_value_prefix(prev: Seq<Trit>, cur: Seq<Trit>, k: int)
    requires
        0 <= k == prev.len(),
        cur.len() == k + 1,
        forall|j: int| 0 <= j < k ==> cur[j] == prev[j],
    ensures
        trits_value(cur, k + 1) == trits_value(prev, k) + cur[k].value() * pow3(k),
        trits_value(cur, k) == trits_value(prev, k),
    decreases k,
{
    lemma_trits_value_agree(prev, cur, k);
}

/// Digit strings that agree on a prefix value the prefix equally.
proof fn lemma_trits_value_agree(a: Seq<Trit>, b: Seq<Trit>, k: int)
    requires
        0 <= k,
        k <= a.len(),
        k <= b.len(),
        forall|j: int| 0 <= j < k ==> b[j] == a[j],
    ensures
        trits_value(b, k) == trits_value(a, k),
    decreases k,
{
    if k > 0 {
        lemma_trits_value_agree(a, b, k - 1);
        assert(b[k - 1] == a[k - 1]);
    }
}

/// Written-out powers of three up to the depth that fits the value range.
proof fn lemma_pow3_values()
    ensures
        pow3(0) == 1,
        pow3(38) == 1350851717672992089,
{
    assert(pow3(0) == 1);
    assert(pow3(1) == 3);
    assert(pow3(2) == 9);
    assert(pow3(3) == 27);
    assert(pow3(4) == 81);
    assert(pow3(5) == 243);
    assert(pow3(6) == 729);
    assert(pow3(7) == 2187);
    assert(pow3(8) == 6561);
    assert(pow3(9) == 19683);
    assert(pow3(10) == 59049);
    assert(pow3(11) == 177147);
    assert(pow3(12) == 531441);
    assert(pow3(13) == 1594323);
    assert(pow3(14) == 4782969);
    assert(pow3(15) == 14348907);
    assert(pow3(16) == 43046721);
    assert(pow3(17) == 129140163);
    assert(pow3(18) == 387420489);
    assert(pow3(19) == 1162261467);
    assert(pow3(20) == 3486784401);
    assert(pow3(21) == 10460353203);
    assert(pow3(22) == 31381059609);
    assert(pow3(23) == 94143178827);
    assert(pow3(24) == 282429536481);
    assert(pow3(25) == 847288609443);
    assert(pow3(26) == 2541865828329);
    assert(pow3(27) == 7625597484987);
    assert(pow3(28) == 22876792454961);
    assert(pow3(29) == 68630377364883);
    assert(pow3(30) == 205891132094649);
    assert(pow3(31) == 617673396283947);
    assert(pow3(32) == 1853020188851841);
    assert(pow3(33) == 5559060566555523);
    assert(pow3(34) == 16677181699666569);
    assert(pow3(35) == 50031545098999707);
    assert(pow3(36) == 150094635296999121);
    assert(pow3(37) == 450283905890997363);
    assert(pow3(38) == 1350851717672992089);
}

/// The exec power of three, for depths whose powers fit the value range.
fn pow3_exec(k: usize) -> (r: i64)
    requires
        k <= 38,
    ensures
        r as int == pow3(k as int),
{
    let mut p: i64 = 1;
    proof {
        lemma_pow3_values();
    }
    for i in 0..k
        invariant
            k <= 38,
            p as int == pow3(i as int),
    {
        proof {
            lemma_pow3_values();
            lemma_pow3_bounds(i + 1, 38);
        }
        p = 3 * p;
    }
    p
}

/// Negate every digit: the value negates.
fn negate_tryte(t: &Tryte) -> (r: Tryte)
    ensures
        r.trits@.len() == t.trits@.len(),
        r.spec_value() == -t.spec_value(),
        forall|i: int|
            0 <= i < t.trits@.len() ==> (#[trigger] r.trits@[i]).value() == -t.trits@[i].value(),
{
    let n = t.trits.len();
    let mut trits: Vec<Trit> = Vec::new();
    for i in 0..n
        invariant
            n == t.trits@.len(),
            trits@.len() == i,
            forall|k: int|
                0 <= k < i ==> (#[trigger] trits@[k]).value() == -t.trits@[k].value(),
            trits_value(trits@, i as int) == -trits_value(t.trits@, i as int),
    {
        let ghost prev = trits@;
        trits.push(t.trits[i].neg());
        proof {
            lemma_trits_value_prefix(prev, trits@, i as int);
            lemma_pow3_pos(i as int);
            assert(trits@[i as int].value() * pow3(i as int) == -(t.trits@[i as int].value()
                * pow3(i as int))) by (nonlinear_arith)
                requires
                    trits@[i as int].value() == -t.trits@[i as int].value(),
            ;
        }
    }
    Tryte { trits }
}


/// How the digit depth is assigned across dimensions.
#[derive(Clone, Debug, PartialEq, Eq)]
pub enum TritDepthConfig {
    /// Every dimension has the same depth.
    Uniform(u8),
    /// Each dimension has its own depth; dimensions past the list fall
    /// back to six digits.
    Variable(Vec<u8>),
    /// A base depth that adaptive precision may later widen.
    Adaptive {
        /// The depth dimensions start at.
        base_depth: u8,
        /// The widest depth adaptive precision may use.
        max_depth: u8,
    },
}

/// Tuning of the variable-precision vector space. The sparsity target is
/// held in per-mille so the configuration stays in integers.
#[derive(Clone, Debug, PartialEq, Eq)]
pub struct DimensionalConfig {
    /// Number of dimensions in the vector space.
    pub num_dimensions: usize,
    /// Digit depth per dimension.
    pub trit_depth: TritDepthConfig,
    /// Sparsity target, in non-zero dimensions per thousand.
    pub target_sparsity_per_mille: u32,
    /// Whether adaptive precision is enabled.
    pub adaptive_precision: bool,
}

/// Whether two configurations describe the same space: same size and
/// targets, and the same depth at every dimension.
pub open spec fn config_equiv(a: DimensionalConfig, b: DimensionalConfig) -> bool {
    &&& a.num_dimensions == b.num_dimensions
    &&& a.target_sparsity_per_mille == b.target_sparsity_per_mille
    &&& a.adaptive_precision == b.adaptive_precision
    &&& forall|dim: usize| #[trigger] spec_depth(a, dim) == spec_depth(b, dim)
}

/// The digit depth a configuration assigns to one dimension.
pub open spec fn spec_depth(cfg: DimensionalConfig, dim: usize) -> int {
    match cfg.trit_depth {
        TritDepthConfig::Uniform(d) => d as int,
        TritDepthConfig::Variable(ds) => if dim < ds@.len() {
            ds@[dim as int] as int
        } else {
            6
        },
        TritDepthConfig::Adaptive { base_depth, max_depth } => base_depth as int,
    }
}

impl DimensionalConfig {
    /// Every assigned depth is non-trivial and fits the exact integer
    /// conversions, and the space is non-empty.
    pub open spec fn wf(self) -> bool {
        &&& self.num_dimensions >= 1
        &&& forall|dim: usize| 1 <= #[trigger] spec_depth(self, dim) <= 38
    }

    /// The balanced default: ten thousand dimensions of six digits at a
    /// two percent sparsity target.
    pub fn new_default() -> (r: DimensionalConfig)
        ensures
            r == (DimensionalConfig {
                num_dimensions: 10000,
                trit_depth: TritDepthConfig::Uniform(6),
                target_sparsity_per_mille: 20,
                adaptive_precision: false,
            }),
            r.wf(),
    {
        DimensionalConfig {
            num_dimensions: 10000,
            trit_depth: TritDepthConfig::Uniform(6),
            target_sparsity_per_mille: 20,
            adaptive_precision: false,
        }
    }

    /// A high-precision configuration: more dimensions, deeper digits,
    /// sparser support.
    pub fn high_precision() -> (r: DimensionalConfig)
        ensures
            r.num_dimensions == 100000,
            r.trit_depth == TritDepthConfig::Uniform(8),
            r.target_sparsity_per_mille == 2,
            r.adaptive_precision,
            r.wf(),
    {
        DimensionalConfig {
            num_dimensions: 100000,
            trit_depth: TritDepthConfig::Uniform(8),
            target_sparsity_per_mille: 2,
            adaptive_precision: true,
        }
    }

    /// A compact configuration for constrained environments.
    pub fn compact() -> (r: DimensionalConfig)
        ensures
            r.num_dimensions == 4096,
            r.trit_depth == TritDepthConfig::Uniform(4),
            r.target_sparsity_per_mille == 50,
            !r.adaptive_precision,
            r.wf(),
    {
        DimensionalConfig {
            num_dimensions: 4096,
            trit_depth: TritDepthConfig::Uniform(4),
            target_sparsity_per_mille: 50,
            adaptive_precision: false,
        }
    }

    /// An adaptive configuration aiming at about two hundred non-zero
    /// dimensions.
    pub fn adaptive(num_dims: usize, base_depth: u8, max_depth: u8) -> (r: DimensionalConfig)
        requires
            num_dims >= 1,
            1 <= base_depth <= 38,
        ensures
            r.num_dimensions == num_dims,
            r.trit_depth == (TritDepthConfig::Adaptive { base_depth, max_depth }),
            r.target_sparsity_per_mille as int == 200000int / num_dims as int,
            r.adaptive_precision,
            r.wf(),
    {
        let per_mille: u32 = #[verifier::truncate] ((200000u64 / num_dims as u64) as u32);
        proof {
            assert(200000u64 / num_dims as u64 <= 200000) by (nonlinear_arith)
                requires
                    num_dims >= 1,
            ;
        }
        DimensionalConfig {
            num_dimensions: num_dims,
            trit_depth: TritDepthConfig::Adaptive { base_depth, max_depth },
            target_sparsity_per_mille: per_mille,
            adaptive_precision: true,
        }
    }

    /// The digit depth of one dimension.
    pub fn depth_for_dimension(&self, dim: usize) -> (r: u8)
        ensures
            r as int == spec_depth(*self, dim),
    {
        match &self.trit_depth {
            TritDepthConfig::Uniform(d) => *d,
            TritDepthConfig::Variable(depths) => if dim < depths.len() {
                depths[dim]
            } else {
                6
            },
            TritDepthConfig::Adaptive { base_depth, .. } => *base_depth,
        }
    }

    /// An owned copy of the configuration.
    pub fn clone_config(&self) -> (r: DimensionalConfig)
        ensures
            config_equiv(r, *self),
            self.wf() ==> r.wf(),
    {
        let trit_depth = match &self.trit_depth {
            TritDepthConfig::Uniform(d) => TritDepthConfig::Uniform(*d),
            TritDepthConfig::Variable(depths) => {
                let mut ds: Vec<u8> = Vec::new();
                let n = depths.len();
                for i in 0..n
                    invariant
                        n == depths@.len(),
                        ds@.len() == i,
                        forall|k: int| 0 <= k < i ==> ds@[k] == depths@[k],
                {
                    ds.push(depths[i]);
                }
                proof {
                    assert(ds@ =~= depths@);
                }
                TritDepthConfig::Variable(ds)
            },
            TritDepthConfig::Adaptive { base_depth, max_depth } => TritDepthConfig::Adaptive {
                base_depth: *base_depth,
                max_depth: *max_depth,
            },
        };
        DimensionalConfig {
            num_dimensions: self.num_dimensions,
            trit_depth,
            target_sparsity_per_mille: self.target_sparsity_per_mille,
            adaptive_precision: self.adaptive_precision,
        }
    }
}

/// The tryte stored under a dimension key.
pub open spec fn hv_find(s: Seq<(usize, Tryte)>, d: usize) -> Option<Tryte>
    decreases s.len(),
{
    if s.len() == 0 {
        None
    } else if s.last().0 == d {
        Some(s.last().1)
    } else {
        hv_find(s.drop_last(), d)
    }
}

/// The integer value a dimension carries: the stored tryte's value, or
/// zero where nothing is stored.
pub open spec fn hv_value(s: Seq<(usize, Tryte)>, d: usize) -> int {
    match hv_find(s, d) {
        Some(t) => t.spec_value(),
        None => 0,
    }
}

/// The digit string a dimension carries, an all-zero string of the
/// dimension's depth where nothing is stored.
pub open spec fn digits_at(s: Seq<(usize, Tryte)>, d: usize, depth: int) -> Seq<Trit> {
    match hv_find(s, d) {
        Some(t) => t.trits@,
        None => zero_digits(depth),
    }
}

/// An all-zero digit string.
pub open spec fn zero_digits(n: int) -> Seq<Trit> {
    Seq::new(n as nat, |i: int| Trit::Zero)
}

/// The digit whose value is the sign of an integer.
pub open spec fn trit_sign(v: int) -> Trit {
    if v < 0 {
        Trit::Neg
    } else if v > 0 {
        Trit::Pos
    } else {
        Trit::Zero
    }
}

/// The digit-wise bundle of two equally deep digit strings.
pub open spec fn bundle_digits(a: Seq<Trit>, b: Seq<Trit>) -> Seq<Trit> {
    Seq::new(a.len(), |i: int| trit_sign(a[i].value() + b[i].value()))
}

/// The digit-wise product of two equally deep digit strings.
pub open spec fn bind_digits(a: Seq<Trit>, b: Seq<Trit>) -> Seq<Trit> {
    Seq::new(a.len(), |i: int| trit_sign(a[i].value() * b[i].value()))
}

/// An all-zero digit string has value zero over any inspected prefix.
proof fn lemma_zero_prefix_value(s: Seq<Trit>, k: int)
    requires
        0 <= k <= s.len(),
        forall|i: int| 0 <= i < k ==> (#[trigger] s[i]).value() == 0,
    ensures
        trits_value(s, k) == 0,
    decreases k,
{
    if k > 0 {
        lemma_zero_prefix_value(s, k - 1);
    }
}

/// Appending a binding extends the lookup at exactly that dimension.
proof fn lemma_hv_find_push(
    prev: Seq<(usize, Tryte)>,
    cur: Seq<(usize, Tryte)>,
    d: usize,
    t: Tryte,
)
    requires
        cur.len() == prev.len() + 1,
        forall|k: int| 0 <= k < prev.len() ==> cur[k] == prev[k],
        cur.last().0 == d,
        cur.last().1 == t,
    ensures
        hv_find(cur, d) == Some(t),
        forall|q: usize| q != d ==> #[trigger] hv_find(cur, q) == hv_find(prev, q),
{
    assert(cur.drop_last() =~= prev);
}

/// A dimension with no binding looks up to nothing.
proof fn lemma_hv_find_absent(s: Seq<(usize, Tryte)>, d: usize)
    requires
        forall|k: int| 0 <= k < s.len() ==> (#[trigger] s[k]).0 != d,
    ensures
        hv_find(s, d) is None,
    decreases s.len(),
{
    if s.len() > 0 {
        assert(s.last() == s[s.len() - 1]);
        lemma_hv_find_absent(s.drop_last(), d);
    }
}

/// A binding with no later entry of the same key is what the lookup
/// finds.
proof fn lemma_hv_find_at(s: Seq<(usize, Tryte)>, k: int, d: usize)
    requires
        0 <= k < s.len(),
        s[k].0 == d,
        forall|m: int| k < m < s.len() ==> (#[trigger] s[m]).0 != d,
    ensures
        hv_find(s, d) == Some(s[k].1),
    decreases s.len(),
{
    if s.len() > 0 {
        if k == s.len() - 1 {
            assert(s.last() == s[k]);
        } else {
            assert(s.last() == s[s.len() - 1]);
            lemma_hv_find_at(s.drop_last(), k, d);
        }
    }
}

/// A lookup succeeds exactly where some entry carries the key.
proof fn lemma_hv_find_exists(s: Seq<(usize, Tryte)>, d: usize)
    ensures
        (hv_find(s, d) is Some) <==> exists|k: int| 0 <= k < s.len() && (#[trigger] s[k]).0 == d,
    decreases s.len(),
{
    if s.len() > 0 {
        lemma_hv_find_exists(s.drop_last(), d);
        assert(s.last() == s[s.len() - 1]);
        if hv_find(s.drop_last(), d) is Some {
            let k = choose|k: int|
                0 <= k < s.drop_last().len() && (#[trigger] s.drop_last()[k]).0 == d;
            assert(s.drop_last()[k] == s[k]);
            assert(s[k].0 == d);
        }
        if exists|k: int| 0 <= k < s.len() && (#[trigger] s[k]).0 == d {
            let k = choose|k: int| 0 <= k < s.len() && (#[trigger] s[k]).0 == d;
            if k < s.len() - 1 {
                assert(s.drop_last()[k] == s[k]);
                assert(exists|k2: int|
                    0 <= k2 < s.drop_last().len() && (#[trigger] s.drop_last()[k2]).0 == d);
            }
        }
    }
}

/// A sparse vector of variable-precision trytes, held as a sorted
/// association list from dimension index to non-zero digit string.
#[derive(Clone, Debug)]
pub struct HyperVec {
    /// The space this vector lives in.
    pub config: DimensionalConfig,
    /// The non-zero dimensions, keyed by index, strictly increasing.
    pub dimensions: Vec<(usize, Tryte)>,
}

impl HyperVec {
    /// Keys strictly increasing and inside the space, every stored tryte
    /// of its dimension's depth, and no stored zero.
    pub open spec fn wf(self) -> bool {
        &&& self.config.wf()
        &&& forall|k1: int, k2: int|
            0 <= k1 < k2 < self.dimensions@.len() ==> self.dimensions@[k1].0
                < self.dimensions@[k2].0
        &&& forall|k: int|
            0 <= k < self.dimensions@.len() ==> (#[trigger] self.dimensions@[k]).0
                < self.config.num_dimensions
        &&& forall|k: int|
            0 <= k < self.dimensions@.len() ==> (#[trigger] self.dimensions@[k]).1.trits@.len()
                == spec_depth(self.config, self.dimensions@[k].0)
        &&& forall|k: int|
            0 <= k < self.dimensions@.len() ==> (#[trigger] self.dimensions@[k]).1.spec_value()
                != 0
    }

    /// The empty vector of a space.
    pub fn new(config: DimensionalConfig) -> (r: HyperVec)
        requires
            config.wf(),
        ensures
            r.wf(),
            r.config == config,
            r.dimensions@.len() == 0,
            forall|d: usize| #[trigger] hv_find(r.dimensions@, d) is None,
    {
        let r = HyperVec { config, dimensions: Vec::new() };
        proof {
            assert forall|d: usize| #[trigger] hv_find(r.dimensions@, d) is None by {
                lemma_hv_find_absent(r.dimensions@, d);
            }
        }
        r
    }

    /// How many dimensions are non-zero.
    pub fn nnz(&self) -> (r: usize)
        ensures
            r == self.dimensions@.len(),
    {
        self.dimensions.len()
    }

    /// The value at a dimension, zero where nothing is stored.
    pub fn get(&self, dim: usize) -> (r: i64)
        requires
            self.wf(),
        ensures
            r as int == hv_value(self.dimensions@, dim),
    {
        proof {
            lemma_hv_find_exists(self.dimensions@, dim);
            if hv_find(self.dimensions@, dim) is Some {
                let k = choose|k: int|
                    0 <= k < self.dimensions@.len() && (#[trigger] self.dimensions@[k]).0 == dim;
                assert forall|m: int|
                    k < m < self.dimensions@.len() implies (#[trigger] self.dimensions@[m]).0
                    != dim by {
                    assert(self.dimensions@[k].0 < self.dimensions@[m].0);
                }
                lemma_hv_find_at(self.dimensions@, k, dim);
                assert(spec_depth(self.config, dim) <= 38);
            }
        }
        match hv_get(&self.dimensions, dim) {
            Some(t) => t.to_i64(),
            None => 0,
        }
    }

    /// Build a vector from a dense value list: dimension `d` carries
    /// `values[d]`, dimensions past the list are zero.
    pub fn from_dense(config: DimensionalConfig, values: &[i64]) -> (r: HyperVec)
        requires
            config.wf(),
            values@.len() <= config.num_dimensions,
            forall|j: int|
                0 <= j < values@.len() ==> -((pow3(spec_depth(config, j as usize)) - 1) / 2) <= (
                #[trigger] values@[j]) <= (pow3(spec_depth(config, j as usize)) - 1) / 2,
        ensures
            r.wf(),
            r.config == config,
            forall|d: usize|
                (d as int) < values@.len() ==> #[trigger] hv_value(r.dimensions@, d) == values@[
                d as int],
            forall|d: usize|
                (d as int) >= values@.len() ==> #[trigger] hv_find(r.dimensions@, d) is None,
    {
        let n = values.len();
        let mut dims: Vec<(usize, Tryte)> = Vec::new();
        proof {
            assert forall|d: usize| #[trigger] hv_find(dims@, d) is None by {
                lemma_hv_find_absent(dims@, d);
            }
        }
        for j in 0..n
            invariant
                n == values@.len(),
                config.wf(),
                n <= config.num_dimensions,
                forall|j2: int|
                    0 <= j2 < n ==> -((pow3(spec_depth(config, j2 as usize)) - 1) / 2) <= (
                    #[trigger] values@[j2]) <= (pow3(spec_depth(config, j2 as usize)) - 1) / 2,
                forall|k1: int, k2: int|
                    0 <= k1 < k2 < dims@.len() ==> dims@[k1].0 < dims@[k2].0,
                forall|k: int| 0 <= k < dims@.len() ==> (#[trigger] dims@[k]).0 < j,
                forall|k: int|
                    0 <= k < dims@.len() ==> (#[trigger] dims@[k]).1.trits@.len() == spec_depth(
                        config,
                        dims@[k].0,
                    ),
                forall|k: int|
                    0 <= k < dims@.len() ==> (#[trigger] dims@[k]).1.spec_value() != 0,
                forall|d: usize|
                    (d as int) < j ==> #[trigger] hv_value(dims@, d) == values@[d as int],
                forall|d: usize| (d as int) >= j ==> #[trigger] hv_find(dims@, d) is None,
        {
            let v = values[j];
            if v != 0 {
                let depth = config.depth_for_dimension(j);
                let t = Tryte::from_i64(v, depth as usize);
                let ghost prev = dims@;
                dims.push((j, t));
                proof {
                    lemma_hv_find_push(prev, dims@, j, t);
                    assert forall|d: usize|
                        (d as int) < j + 1 implies #[trigger] hv_value(dims@, d) == values@[
                    d as int] by {
                        if d != j {
                            assert(hv_find(dims@, d) == hv_find(prev, d));
                            assert(hv_value(prev, d) == values@[d as int]);
                        }
                    }
                    assert forall|d: usize|
                        (d as int) >= j + 1 implies #[trigger] hv_find(dims@, d) is None by {
                        assert(hv_find(dims@, d) == hv_find(prev, d));
                    }
                }
            } else {
                proof {
                    assert forall|d: usize|
                        (d as int) < j + 1 implies #[trigger] hv_value(dims@, d) == values@[
                    d as int] by {
                        if d == j {
                            assert(hv_find(dims@, d) is None);
                        }
                    }
                }
            }
        }
        HyperVec { config, dimensions: dims }
    }
}

/// The digit-wise merge selected by the flag: products when binding,
/// signs of sums when bundling.
pub open spec fn merge_digits(op_bind: bool, a: Seq<Trit>, b: Seq<Trit>) -> Seq<Trit> {
    if op_bind {
        bind_digits(a, b)
    } else {
        bundle_digits(a, b)
    }
}

/// The per-dimension statement of a digit-wise merge: the output stores
/// exactly the non-zero merged digit strings.
pub open spec fn merged_entry_ok(
    merged: Seq<Trit>,
    out: Seq<(usize, Tryte)>,
    d: usize,
) -> bool {
    &&& ((hv_find(out, d) is Some) <==> trits_value(merged, merged.len() as int) != 0)
    &&& (hv_find(out, d) is Some ==> hv_find(out, d)->0.trits@ == merged)
}

/// What a well-formed vector's lookup returns: a digit string of the
/// dimension's depth with a non-zero value.
proof fn lemma_wf_found(v: HyperVec, d: usize)
    requires
        v.wf(),
    ensures
        hv_find(v.dimensions@, d) matches Some(t) ==> t.trits@.len() == spec_depth(v.config, d)
            && t.spec_value() != 0,
        hv_find(v.dimensions@, d) is Some ==> d < v.config.num_dimensions,
{
    lemma_hv_find_exists(v.dimensions@, d);
    if hv_find(v.dimensions@, d) is Some {
        let k = choose|k: int|
            0 <= k < v.dimensions@.len() && (#[trigger] v.dimensions@[k]).0 == d;
        assert forall|m: int|
            k < m < v.dimensions@.len() implies (#[trigger] v.dimensions@[m]).0 != d by {
            assert(v.dimensions@[k].0 < v.dimensions@[m].0);
        }
        lemma_hv_find_at(v.dimensions@, k, d);
    }
}

/// The keys of an association list, in stored order.
fn keys_of(s: &Vec<(usize, Tryte)>) -> (r: Vec<usize>)
    ensures
        r@.len() == s@.len(),
        forall|k: int| 0 <= k < s@.len() ==> #[trigger] r@[k] == s@[k].0,
{
    let n = s.len();
    let mut r: Vec<usize> = Vec::new();
    for i in 0..n
        invariant
            n == s@.len(),
            r@.len() == i,
            forall|k: int| 0 <= k < i ==> #[trigger] r@[k] == s@[k].0,
    {
        r.push(s[i].0);
    }
    r
}

/// A key list's membership is the lookup's success.
proof fn lemma_keys_contains(keys: Seq<usize>, s: Seq<(usize, Tryte)>, d: usize)
    requires
        keys.len() == s.len(),
        forall|k: int| 0 <= k < s.len() ==> #[trigger] keys[k] == s[k].0,
    ensures
        keys.contains(d) <==> (hv_find(s, d) is Some),
{
    lemma_hv_find_exists(s, d);
    if keys.contains(d) {
        let k = choose|k: int| 0 <= k < keys.len() && keys[k] == d;
        assert(s[k].0 == d);
    }
    if hv_find(s, d) is Some {
        let k = choose|k: int| 0 <= k < s.len() && (#[trigger] s[k]).0 == d;
        assert(keys[k] == d);
    }
}

impl HyperVec {
    /// Store a value at a dimension: a non-zero value replaces or adds
    /// the entry, zero removes it.
    #[verifier::rlimit(60)]
    pub fn set(&mut self, dim: usize, value: i64)
        requires
            old(self).wf(),
            (dim as int) < old(self).config.num_dimensions,
            -((pow3(spec_depth(old(self).config, dim)) - 1) / 2) <= value <= (pow3(
                spec_depth(old(self).config, dim),
            ) - 1) / 2,
        ensures
            final(self).wf(),
            final(self).config == old(self).config,
            hv_value(final(self).dimensions@, dim) == value,
            (hv_find(final(self).dimensions@, dim) is Some) == (value != 0),
            forall|q: usize|
                q != dim ==> ((#[trigger] hv_find(final(self).dimensions@, q) is Some)
                    == (hv_find(old(self).dimensions@, q) is Some) && (hv_find(
                    old(self).dimensions@,
                    q,
                ) is Some ==> hv_find(final(self).dimensions@, q)->0.trits@ == hv_find(
                    old(self).dimensions@,
                    q,
                )->0.trits@)),
    {
        let ghost odims = self.dimensions@;
        let n = self.dimensions.len();
        let mut out: Vec<(usize, Tryte)> = Vec::new();
        let mut i: usize = 0;
        while i < n && self.dimensions[i].0 < dim
            invariant
                n == self.dimensions@.len(),
                self.dimensions@ == odims,
                self.wf(),
                i <= n,
                out@.len() == i,
                forall|k: int|
                    0 <= k < i ==> (#[trigger] out@[k]).0 == odims[k].0 && out@[k].1.trits@
                        == odims[k].1.trits@,
                forall|k: int| 0 <= k < i ==> (#[trigger] odims[k]).0 < dim,
            decreases n - i,
        {
            let (key, t) = &self.dimensions[i];
            out.push((*key, clone_tryte(t)));
            i = i + 1;
        }
        let skip: bool = i < n && self.dimensions[i].0 == dim;
        let j0: usize = if skip {
            i + 1
        } else {
            i
        };
        proof {
            assert forall|k: int| j0 <= k < n implies (#[trigger] odims[k]).0 > dim by {
                if k > j0 {
                    assert(odims[j0 as int].0 < odims[k].0);
                }
            }
        }
        let mid: usize = if value != 0 {
            let depth = self.config.depth_for_dimension(dim);
            let t = Tryte::from_i64(value, depth as usize);
            out.push((dim, t));
            1
        } else {
            0
        };
        let mut j: usize = j0;
        while j < n
            invariant
                n == self.dimensions@.len(),
                self.dimensions@ == odims,
                self.wf(),
                i <= j0 <= j <= n,
                mid == if value != 0 {
                    1int
                } else {
                    0int
                },
                out@.len() == i + mid + (j - j0),
                forall|k: int|
                    0 <= k < i ==> (#[trigger] out@[k]).0 == odims[k].0 && out@[k].1.trits@
                        == odims[k].1.trits@,
                forall|k: int| 0 <= k < i ==> (#[trigger] odims[k]).0 < dim,
                forall|k: int| j0 <= k < n ==> (#[trigger] odims[k]).0 > dim,
                mid == 1 ==> out@[i as int].0 == dim && out@[i as int].1.trits@.len()
                    == spec_depth(self.config, dim) && out@[i as int].1.spec_value() == value,
                forall|k: int|
                    i + mid <= k < out@.len() ==> (#[trigger] out@[k]).0 == odims[k - mid
                        + (j0 - i)].0 && out@[k].1.trits@ == odims[k - mid + (j0 - i)].1.trits@,
            decreases n - j,
        {
            let (key, t) = &self.dimensions[j];
            out.push((*key, clone_tryte(t)));
            j = j + 1;
        }
        proof {
            assert forall|k1: int, k2: int|
                0 <= k1 < k2 < out@.len() implies out@[k1].0 < out@[k2].0 by {
                if k1 < i && k2 < i {
                    assert(odims[k1].0 < odims[k2].0);
                } else if k1 < i {
                    assert(out@[k1].0 < dim);
                    if !(mid == 1 && k2 == i) {
                        assert(out@[k2].0 > dim);
                    }
                } else if mid == 1 && k1 == i {
                    assert(out@[k2].0 > dim);
                } else {
                    assert(odims[k1 - mid + (j0 - i)].0 < odims[k2 - mid + (j0 - i)].0);
                }
            }
        }
        self.dimensions = out;
        proof {
            let fin = self.dimensions@;
            // The written dimension.
            if value != 0 {
                assert(fin[i as int].0 == dim);
                assert forall|m: int| i < m < fin.len() implies (#[trigger] fin[m]).0 != dim by {
                    assert(fin[i as int].0 < fin[m].0);
                }
                lemma_hv_find_at(fin, i as int, dim);
            } else {
                assert forall|m: int| 0 <= m < fin.len() implies (#[trigger] fin[m]).0 != dim by {
                    if m < i {
                        assert(odims[m].0 < dim);
                    } else {
                        assert(odims[m - mid + (j0 - i)].0 > dim);
                    }
                }
                lemma_hv_find_absent(fin, dim);
            }
            // Every other dimension.
            assert forall|q: usize|
                q != dim implies ((#[trigger] hv_find(fin, q) is Some) == (hv_find(
                odims,
                q,
            ) is Some) && (hv_find(odims, q) is Some ==> hv_find(fin, q)->0.trits@ == hv_find(
                odims,
                q,
            )->0.trits@)) by {
                lemma_hv_find_exists(odims, q);
                lemma_hv_find_exists(fin, q);
                if hv_find(odims, q) is Some {
                    let k = choose|k: int| 0 <= k < odims.len() && (#[trigger] odims[k]).0 == q;
                    assert forall|m: int|
                        k < m < odims.len() implies (#[trigger] odims[m]).0 != q by {
                        assert(odims[k].0 < odims[m].0);
                    }
                    lemma_hv_find_at(odims, k, q);
                    assert(k < i || j0 <= k);
                    let k2: int = if k < i {
                        k
                    } else {
                        k + mid - (j0 - i)
                    };
                    assert(fin[k2].0 == q);
                    assert forall|m: int|
                        k2 < m < fin.len() implies (#[trigger] fin[m]).0 != q by {
                        assert(fin[k2].0 < fin[m].0);
                    }
                    lemma_hv_find_at(fin, k2, q);
                    assert(fin[k2].1.trits@ == odims[k].1.trits@);
                } else {
                    if hv_find(fin, q) is Some {
                        let k2 = choose|k: int| 0 <= k < fin.len() && (#[trigger] fin[k]).0 == q;
                        assert(k2 < i || (mid == 1 && k2 == i) || k2 >= i + mid);
                        if k2 < i {
                            assert(odims[k2].0 == q);
                        } else if k2 >= i + mid {
                            assert(odims[k2 - mid + (j0 - i)].0 == q);
                        }
                    }
                    assert(hv_find(fin, q) is None);
                }
            }
        }
    }

    /// Cyclic shift: the entry of dimension `d` moves to dimension
    /// `(d + shift) mod n`.
    #[verifier::rlimit(60)]
    pub fn permute(&self, shift: usize) -> (r: HyperVec)
        requires
            self.wf(),
            forall|d1: usize, d2: usize|
                #[trigger] spec_depth(self.config, d1) == #[trigger] spec_depth(self.config, d2),
        ensures
            r.wf(),
            config_equiv(r.config, self.config),
            forall|d: usize|
                (d as int) < self.config.num_dimensions ==> {
                    let found = #[trigger] hv_find(
                        r.dimensions@,
                        hv_shift(
                            d,
                            (shift as int) % (self.config.num_dimensions as int),
                            self.config.num_dimensions as int,
                        ),
                    );
                    &&& (found is Some) == (hv_find(self.dimensions@, d) is Some)
                    &&& (hv_find(self.dimensions@, d) is Some ==> found->0.trits@ == hv_find(
                        self.dimensions@,
                        d,
                    )->0.trits@)
                },
    {
        let n = self.config.num_dimensions;
        let sh = shift % n;
        let len = self.dimensions.len();
        // Entries that wrap come first: their shifted keys lie below `sh`,
        // the others' at or above it.
        let mut split: usize = len;
        let mut k: usize = 0;
        while k < len
            invariant
                n >= 1,
                sh < n,
                len == self.dimensions@.len(),
                k <= len,
                split == len || (split < k && self.dimensions@[split as int].0 + sh >= n),
                forall|m: int|
                    0 <= m < k && m < split ==> (#[trigger] self.dimensions@[m]).0 + sh < n,
            decreases len - k,
        {
            if split == len && self.dimensions[k].0 >= n - sh {
                split = k;
            }
            k = k + 1;
        }
        proof {
            assert forall|m2: int|
                split <= m2 < len implies (#[trigger] self.dimensions@[m2]).0 + sh >= n by {
                if m2 > split {
                    assert(self.dimensions@[split as int].0 < self.dimensions@[m2].0);
                }
            }
        }
        let mut out: Vec<(usize, Tryte)> = Vec::new();
        let ghost gs = sh as int;
        let ghost gn = n as int;
        for m in split..len
            invariant
                self.wf(),
                sh < n,
                gs == sh as int,
                gn == n as int,
                n == self.config.num_dimensions,
                len == self.dimensions@.len(),
                split <= m <= len,
                forall|m2: int|
                    0 <= m2 < split ==> (#[trigger] self.dimensions@[m2]).0 + sh < n,
                forall|m2: int|
                    split <= m2 < len ==> (#[trigger] self.dimensions@[m2]).0 + sh >= n,
                out@.len() == m - split,
                forall|k2: int|
                    0 <= k2 < out@.len() ==> (#[trigger] out@[k2]).0 == hv_shift(
                        self.dimensions@[split + k2].0,
                        gs,
                        gn,
                    ) && out@[k2].1.trits@ == self.dimensions@[split + k2].1.trits@ && (
                    out@[k2].0 as int) == self.dimensions@[split + k2].0 as int + gs - gn,
                forall|k1: int, k2: int| 0 <= k1 < k2 < out@.len() ==> out@[k1].0 < out@[k2].0,
            decreases len - m,
        {
            let (key, t) = &self.dimensions[m];
            let nk = hv_shift_exec(*key, sh, n);
            proof {
                assert(self.dimensions@[m as int].0 + sh >= n);
                vstd::arithmetic::div_mod::lemma_fundamental_div_mod_converse(
                    (*key + sh) as int,
                    gn,
                    1,
                    (*key + sh) as int - gn,
                );
                assert(nk as int == self.dimensions@[m as int].0 as int + gs - gn);
            }
            let ghost prev = out@;
            out.push((nk, clone_tryte(t)));
            proof {
                assert forall|k1: int, k2: int|
                    0 <= k1 < k2 < out@.len() implies out@[k1].0 < out@[k2].0 by {
                    if k2 == out@.len() - 1 && k1 < out@.len() - 1 {
                        assert(out@[k1] == prev[k1]);
                        assert(self.dimensions@[split + k1].0 < self.dimensions@[m as int].0);
                    }
                }
            }
        }
        let wrapped = out.len();
        for m in 0..split
            invariant
                self.wf(),
                sh < n,
                gs == sh as int,
                gn == n as int,
                n == self.config.num_dimensions,
                len == self.dimensions@.len(),
                split <= len,
                wrapped == len - split,
                forall|m2: int|
                    0 <= m2 < split ==> (#[trigger] self.dimensions@[m2]).0 + sh < n,
                forall|m2: int|
                    split <= m2 < len ==> (#[trigger] self.dimensions@[m2]).0 + sh >= n,
                out@.len() == wrapped + m,
                forall|k2: int|
                    0 <= k2 < wrapped ==> (#[trigger] out@[k2]).0 == hv_shift(
                        self.dimensions@[split + k2].0,
                        gs,
                        gn,
                    ) && out@[k2].1.trits@ == self.dimensions@[split + k2].1.trits@ && (
                    out@[k2].0 as int) == self.dimensions@[split + k2].0 as int + gs - gn,
                forall|k2: int|
                    wrapped <= k2 < out@.len() ==> (#[trigger] out@[k2]).0 == hv_shift(
                        self.dimensions@[k2 - wrapped].0,
                        gs,
                        gn,
                    ) && out@[k2].1.trits@ == self.dimensions@[k2 - wrapped].1.trits@ && (
                    out@[k2].0 as int) == self.dimensions@[k2 - wrapped].0 as int + gs,
                forall|k1: int, k2: int| 0 <= k1 < k2 < out@.len() ==> out@[k1].0 < out@[k2].0,
            decreases split - m,
        {
            let (key, t) = &self.dimensions[m];
            let nk = hv_shift_exec(*key, sh, n);
            proof {
                assert(self.dimensions@[m as int].0 + sh < n);
                vstd::arithmetic::div_mod::lemma_small_mod((*key + sh) as nat, n as nat);
                assert(nk as int == self.dimensions@[m as int].0 as int + gs);
            }
            let ghost prev = out@;
            out.push((nk, clone_tryte(t)));
            proof {
                assert forall|k1: int, k2: int|
                    0 <= k1 < k2 < out@.len() implies out@[k1].0 < out@[k2].0 by {
                    if k2 == out@.len() - 1 && k1 < out@.len() - 1 {
                        assert(out@[k1] == prev[k1]);
                        if k1 >= wrapped {
                            assert(self.dimensions@[k1 - wrapped].0 < self.dimensions@[
                            m as int].0);
                        }
                    }
                }
            }
        }
        let r = HyperVec { config: self.config.clone_config(), dimensions: out };
        proof {
            assert forall|d: usize|
                (d as int) < self.config.num_dimensions implies {
                let found = #[trigger] hv_find(r.dimensions@, hv_shift(d, gs, gn));
                &&& (found is Some) == (hv_find(self.dimensions@, d) is Some)
                &&& (hv_find(self.dimensions@, d) is Some ==> found->0.trits@ == hv_find(
                    self.dimensions@,
                    d,
                )->0.trits@)
            } by {
                let img = hv_shift(d, gs, gn);
                vstd::arithmetic::div_mod::lemma_mod_bound(d as int + gs, gn);
                lemma_hv_find_exists(self.dimensions@, d);
                lemma_hv_find_exists(r.dimensions@, img);
                if hv_find(self.dimensions@, d) is Some {
                    let k = choose|k: int|
                        0 <= k < self.dimensions@.len() && (#[trigger] self.dimensions@[k]).0
                            == d;
                    assert forall|m2: int|
                        k < m2 < self.dimensions@.len() implies (#[trigger] self.dimensions@[
                    m2]).0 != d by {
                        assert(self.dimensions@[k].0 < self.dimensions@[m2].0);
                    }
                    lemma_hv_find_at(self.dimensions@, k, d);
                    let k2: int = if k >= split {
                        k - split
                    } else {
                        k + wrapped
                    };
                    if k >= split {
                        vstd::arithmetic::div_mod::lemma_fundamental_div_mod_converse(
                            d as int + gs,
                            gn,
                            1,
                            d as int + gs - gn,
                        );
                    } else {
                        vstd::arithmetic::div_mod::lemma_small_mod((d + sh) as nat, n as nat);
                    }
                    assert(r.dimensions@[k2].0 == img);
                    assert forall|m2: int|
                        k2 < m2 < r.dimensions@.len() implies (#[trigger] r.dimensions@[m2]).0
                        != img by {
                        assert(r.dimensions@[k2].0 < r.dimensions@[m2].0);
                    }
                    lemma_hv_find_at(r.dimensions@, k2, img);
                    assert(hv_find(r.dimensions@, img)->0.trits@ == hv_find(
                        self.dimensions@,
                        d,
                    )->0.trits@);
                } else {
                    if hv_find(r.dimensions@, img) is Some {
                        let k2 = choose|k: int|
                            0 <= k < r.dimensions@.len() && (#[trigger] r.dimensions@[k]).0
                                == img;
                        let k: int = if k2 < wrapped {
                            split + k2
                        } else {
                            k2 - wrapped
                        };
                        assert(img == hv_shift(self.dimensions@[k].0, gs, gn));
                        lemma_hv_shift_injective(self.dimensions@[k].0, d, gs, gn);
                        assert(self.dimensions@[k].0 == d);
                    }
                    assert(hv_find(r.dimensions@, img) is None);
                }
            }
        }
        r
    }

    /// The inverse cyclic shift: undoes `permute` with the same shift.
    pub fn inverse_permute(&self, shift: usize) -> (r: HyperVec)
        requires
            self.wf(),
            forall|d1: usize, d2: usize|
                #[trigger] spec_depth(self.config, d1) == #[trigger] spec_depth(self.config, d2),
        ensures
            r.wf(),
            config_equiv(r.config, self.config),
            forall|d: usize|
                (d as int) < self.config.num_dimensions ==> {
                    let found = #[trigger] hv_find(
                        r.dimensions@,
                        hv_shift(
                            d,
                            (self.config.num_dimensions as int - (shift as int)
                                % (self.config.num_dimensions as int))
                                % (self.config.num_dimensions as int),
                            self.config.num_dimensions as int,
                        ),
                    );
                    &&& (found is Some) == (hv_find(self.dimensions@, d) is Some)
                    &&& (hv_find(self.dimensions@, d) is Some ==> found->0.trits@ == hv_find(
                        self.dimensions@,
                        d,
                    )->0.trits@)
                },
    {
        let n = self.config.num_dimensions;
        let sh = shift % n;
        let back = (n - sh) % n;
        let r = self.permute(back);
        proof {
            assert(back as int == (n as int - (shift as int) % (n as int)) % (n as int));
            assert((back as int) % (n as int) == back as int) by {
                vstd::arithmetic::div_mod::lemma_mod_bound(
                    n as int - (shift as int) % (n as int),
                    n as int,
                );
                vstd::arithmetic::div_mod::lemma_small_mod(back as nat, n as nat);
            }
        }
        r
    }

    /// Merge two vectors digit-wise: `op` false bundles (digit-wise sign
    /// of sums), `op` true binds (digit-wise products). Only non-zero
    /// merged strings are stored.
    #[verifier::rlimit(30)]
    fn merge_pointwise(&self, other: &HyperVec, op_bind: bool) -> (r: HyperVec)
        requires
            self.wf(),
            other.wf(),
            config_equiv(self.config, other.config),
        ensures
            r.wf(),
            config_equiv(r.config, self.config),
            forall|d: usize|
                #[trigger] merged_entry_ok(
                    merge_digits(
                        op_bind,
                        digits_at(self.dimensions@, d, spec_depth(self.config, d)),
                        digits_at(other.dimensions@, d, spec_depth(self.config, d)),
                    ),
                    r.dimensions@,
                    d,
                ),
    {
        let ka = keys_of(&self.dimensions);
        let kb = keys_of(&other.dimensions);
        proof {
            assert forall|k1: int, k2: int| 0 <= k1 < k2 < ka@.len() implies ka@[k1] < ka@[k2] by {
                assert(ka@[k1] == self.dimensions@[k1].0);
                assert(ka@[k2] == self.dimensions@[k2].0);
            }
            assert forall|k1: int, k2: int| 0 <= k1 < k2 < kb@.len() implies kb@[k1] < kb@[k2] by {
                assert(kb@[k1] == other.dimensions@[k1].0);
                assert(kb@[k2] == other.dimensions@[k2].0);
            }
            assert(crate::sparse::sorted_strict(ka@));
            assert(crate::sparse::sorted_strict(kb@));
        }
        let keys = crate::sparse::union_sorted(&ka, &kb);
        let nk = keys.len();
        let mut out: Vec<(usize, Tryte)> = Vec::new();
        proof {
            assert forall|d: usize| #[trigger] hv_find(out@, d) is None by {
                lemma_hv_find_absent(out@, d);
            }
        }
        for ki in 0..nk
            invariant
                self.wf(),
                other.wf(),
                config_equiv(self.config, other.config),
                nk == keys@.len(),
                ka@.len() == self.dimensions@.len(),
                forall|k: int| 0 <= k < ka@.len() ==> #[trigger] ka@[k] == self.dimensions@[k].0,
                kb@.len() == other.dimensions@.len(),
                forall|k: int| 0 <= k < kb@.len() ==> #[trigger] kb@[k] == other.dimensions@[k].0,
                crate::sparse::sorted_strict(keys@),
                forall|x: usize| keys@.contains(x) <==> (ka@.contains(x) || kb@.contains(x)),
                forall|k1: int, k2: int| 0 <= k1 < k2 < out@.len() ==> out@[k1].0 < out@[k2].0,
                forall|k: int|
                    0 <= k < out@.len() ==> (#[trigger] out@[k]).0 < self.config.num_dimensions,
                forall|k: int|
                    0 <= k < out@.len() ==> (#[trigger] out@[k]).1.trits@.len() == spec_depth(
                        self.config,
                        out@[k].0,
                    ),
                forall|k: int| 0 <= k < out@.len() ==> (#[trigger] out@[k]).1.spec_value() != 0,
                out@.len() > 0 ==> exists|j: int| 0 <= j < ki && keys@[j] == out@.last().0,
                forall|m: int|
                    0 <= m < ki ==> merged_entry_ok(
                        merge_digits(
                            op_bind,
                            digits_at(
                                self.dimensions@,
                                #[trigger] keys@[m],
                                spec_depth(self.config, keys@[m]),
                            ),
                            digits_at(
                                other.dimensions@,
                                keys@[m],
                                spec_depth(self.config, keys@[m]),
                            ),
                        ),
                        out@,
                        keys@[m],
                    ),
                forall|d: usize|
                    #[trigger] hv_find(out@, d) is Some ==> exists|m: int|
                        0 <= m < ki && keys@[m] == d,
        {
            let u = keys[ki];
            let depth = self.config.depth_for_dimension(u);
            let zt = Tryte::zero(depth as usize);
            let ta: &Tryte = match hv_get(&self.dimensions, u) {
                Some(t) => t,
                None => &zt,
            };
            let tb: &Tryte = match hv_get(&other.dimensions, u) {
                Some(t) => t,
                None => &zt,
            };
            proof {
                lemma_wf_found(*self, u);
                lemma_wf_found(*other, u);
                assert(spec_depth(other.config, u) == spec_depth(self.config, u));
                assert(ta.trits@ == digits_at(self.dimensions@, u, depth as int));
                assert(tb.trits@ == digits_at(other.dimensions@, u, depth as int));
            }
            let merged = if op_bind {
                ta.bind(tb)
            } else {
                ta.bundle(tb)
            };
            let ghost gm = merge_digits(
                op_bind,
                digits_at(self.dimensions@, u, spec_depth(self.config, u)),
                digits_at(other.dimensions@, u, spec_depth(self.config, u)),
            );
            proof {
                assert forall|i: int| 0 <= i < depth implies merged.trits@[i] == gm[i] by {
                    assert(merged.trits@[i].value() == gm[i].value());
                }
                assert(merged.trits@ =~= gm);
            }
            let nz = merged.to_i64();
            if nz != 0 {
                let ghost prev = out@;
                proof {
                    if out@.len() > 0 {
                        let j = choose|j: int| 0 <= j < ki && keys@[j] == out@.last().0;
                        assert(keys@[j] < keys@[ki as int]);
                    }
                    if hv_find(prev, u) is Some {
                        let m0 = choose|m: int| 0 <= m < ki && keys@[m] == u;
                        assert(keys@[m0] == keys@[ki as int]);
                    }
                    assert(hv_find(prev, u) is None);
                    assert(keys@.contains(keys@[ki as int]));
                    lemma_keys_contains(ka@, self.dimensions@, u);
                    lemma_keys_contains(kb@, other.dimensions@, u);
                    lemma_wf_found(*self, u);
                    lemma_wf_found(*other, u);
                }
                out.push((u, merged));
                proof {
                    lemma_hv_find_push(prev, out@, u, merged);
                    assert forall|k1: int, k2: int|
                        0 <= k1 < k2 < out@.len() implies out@[k1].0 < out@[k2].0 by {
                        if k2 == out@.len() - 1 {
                            if out@.len() >= 2 && k1 < out@.len() - 1 {
                                assert(out@[k1] == prev[k1]);
                            }
                        }
                    }
                    assert forall|m: int|
                        0 <= m < ki + 1 implies merged_entry_ok(
                        merge_digits(
                            op_bind,
                            digits_at(
                                self.dimensions@,
                                #[trigger] keys@[m],
                                spec_depth(self.config, keys@[m]),
                            ),
                            digits_at(
                                other.dimensions@,
                                keys@[m],
                                spec_depth(self.config, keys@[m]),
                            ),
                        ),
                        out@,
                        keys@[m],
                    ) by {
                        if m == ki {
                            assert(hv_find(out@, u) == Some(merged));
                            assert(merged.trits@ == gm);
                            assert(merged.spec_value() != 0);
                            assert(trits_value(gm, gm.len() as int) != 0);
                        } else {
                            assert(keys@[m] < keys@[ki as int]);
                            assert(hv_find(out@, keys@[m]) == hv_find(prev, keys@[m]));
                        }
                    }
                    assert forall|d: usize|
                        #[trigger] hv_find(out@, d) is Some implies exists|m: int|
                        0 <= m < ki + 1 && keys@[m] == d by {
                        if d != u {
                            assert(hv_find(out@, d) == hv_find(prev, d));
                            let m0 = choose|m: int| 0 <= m < ki && keys@[m] == d;
                            assert(0 <= m0 < ki + 1 && keys@[m0] == d);
                        } else {
                            assert(0 <= ki < ki + 1 && keys@[ki as int] == d);
                        }
                    }
                }
            } else {
                proof {
                    if hv_find(out@, u) is Some {
                        let m0 = choose|m: int| 0 <= m < ki && keys@[m] == u;
                        assert(keys@[m0] == keys@[ki as int]);
                    }
                    assert(hv_find(out@, u) is None);
                    assert(merged.spec_value() == 0);
                    assert(trits_value(gm, gm.len() as int) == 0);
                    assert forall|m: int|
                        0 <= m < ki + 1 implies merged_entry_ok(
                        merge_digits(
                            op_bind,
                            digits_at(
                                self.dimensions@,
                                #[trigger] keys@[m],
                                spec_depth(self.config, keys@[m]),
                            ),
                            digits_at(
                                other.dimensions@,
                                keys@[m],
                                spec_depth(self.config, keys@[m]),
                            ),
                        ),
                        out@,
                        keys@[m],
                    ) by {
                        if m == ki {
                            assert(merged_entry_ok(gm, out@, u));
                        }
                    }
                    assert forall|d: usize|
                        #[trigger] hv_find(out@, d) is Some implies exists|m: int|
                        0 <= m < ki + 1 && keys@[m] == d by {
                        let m0 = choose|m: int| 0 <= m < ki && keys@[m] == d;
                        assert(0 <= m0 < ki + 1 && keys@[m0] == d);
                    }
                }
            }
        }
        let r = HyperVec { config: self.config.clone_config(), dimensions: out };
        proof {
            assert forall|d: usize|
                #[trigger] merged_entry_ok(
                    merge_digits(
                        op_bind,
                        digits_at(self.dimensions@, d, spec_depth(self.config, d)),
                        digits_at(other.dimensions@, d, spec_depth(self.config, d)),
                    ),
                    r.dimensions@,
                    d,
                ) by {
                if keys@.contains(d) {
                    let m = choose|m: int| 0 <= m < keys@.len() && keys@[m] == d;
                    assert(merged_entry_ok(
                        merge_digits(
                            op_bind,
                            digits_at(self.dimensions@, keys@[m], spec_depth(self.config, keys@[m])),
                            digits_at(
                                other.dimensions@,
                                keys@[m],
                                spec_depth(self.config, keys@[m]),
                            ),
                        ),
                        r.dimensions@,
                        keys@[m],
                    ));
                } else {
                    lemma_keys_contains(ka@, self.dimensions@, d);
                    lemma_keys_contains(kb@, other.dimensions@, d);
                    assert(hv_find(self.dimensions@, d) is None);
                    assert(hv_find(other.dimensions@, d) is None);
                    if hv_find(r.dimensions@, d) is Some {
                        let m = choose|m: int| 0 <= m < nk && keys@[m] == d;
                        assert(keys@.contains(keys@[m]));
                    }
                    assert(hv_find(r.dimensions@, d) is None);
                    let depth = spec_depth(self.config, d);
                    let gm = merge_digits(
                        op_bind,
                        digits_at(self.dimensions@, d, depth),
                        digits_at(other.dimensions@, d, depth),
                    );
                    assert(self.config.wf());
                    assert(1 <= spec_depth(self.config, d));
                    assert forall|i: int| 0 <= i < gm.len() implies (#[trigger] gm[i]).value()
                        == 0 by {
                        assert(zero_digits(depth)[i] == Trit::Zero);
                    }
                    lemma_zero_prefix_value(gm, gm.len() as int);
                }
            }
        }
        r
    }

    /// Bundle: digit-wise majority over the union of stored dimensions;
    /// dimensions whose merged digits are all zero are dropped.
    pub fn bundle(&self, other: &HyperVec) -> (r: HyperVec)
        requires
            self.wf(),
            other.wf(),
            config_equiv(self.config, other.config),
        ensures
            r.wf(),
            config_equiv(r.config, self.config),
            forall|d: usize|
                #[trigger] merged_entry_ok(
                    bundle_digits(
                        digits_at(self.dimensions@, d, spec_depth(self.config, d)),
                        digits_at(other.dimensions@, d, spec_depth(self.config, d)),
                    ),
                    r.dimensions@,
                    d,
                ),
    {
        let r = self.merge_pointwise(other, false);
        proof {
            assert forall|d: usize|
                #[trigger] merged_entry_ok(
                    bundle_digits(
                        digits_at(self.dimensions@, d, spec_depth(self.config, d)),
                        digits_at(other.dimensions@, d, spec_depth(self.config, d)),
                    ),
                    r.dimensions@,
                    d,
                ) by {
                assert(merged_entry_ok(
                    merge_digits(
                        false,
                        digits_at(self.dimensions@, d, spec_depth(self.config, d)),
                        digits_at(other.dimensions@, d, spec_depth(self.config, d)),
                    ),
                    r.dimensions@,
                    d,
                ));
            }
        }
        r
    }

    /// Bind: digit-wise product; only dimensions stored in both vectors
    /// can survive.
    pub fn bind(&self, other: &HyperVec) -> (r: HyperVec)
        requires
            self.wf(),
            other.wf(),
            config_equiv(self.config, other.config),
        ensures
            r.wf(),
            config_equiv(r.config, self.config),
            forall|d: usize|
                #[trigger] merged_entry_ok(
                    bind_digits(
                        digits_at(self.dimensions@, d, spec_depth(self.config, d)),
                        digits_at(other.dimensions@, d, spec_depth(self.config, d)),
                    ),
                    r.dimensions@,
                    d,
                ),
    {
        let r = self.merge_pointwise(other, true);
        proof {
            assert forall|d: usize|
                #[trigger] merged_entry_ok(
                    bind_digits(
                        digits_at(self.dimensions@, d, spec_depth(self.config, d)),
                        digits_at(other.dimensions@, d, spec_depth(self.config, d)),
                    ),
                    r.dimensions@,
                    d,
                ) by {
                assert(merged_entry_ok(
                    merge_digits(
                        true,
                        digits_at(self.dimensions@, d, spec_depth(self.config, d)),
                        digits_at(other.dimensions@, d, spec_depth(self.config, d)),
                    ),
                    r.dimensions@,
                    d,
                ));
            }
        }
        r
    }
}

/// The dimension a cyclic shift by `s` carries `d` to.
pub open spec fn hv_shift(d: usize, s: int, n: int) -> usize {
    (((d + s) % n)) as usize
}

/// A cyclic shift is injective on the dimensions.
proof fn lemma_hv_shift_injective(a: usize, b: usize, s: int, n: int)
    requires
        0 <= (a as int) < n,
        0 <= (b as int) < n,
        0 <= s < n,
        n <= usize::MAX,
        hv_shift(a, s, n) == hv_shift(b, s, n),
    ensures
        a == b,
{
    let ia = a as int + s;
    let ib = b as int + s;
    vstd::arithmetic::div_mod::lemma_mod_bound(ia, n);
    vstd::arithmetic::div_mod::lemma_mod_bound(ib, n);
    if ia < n {
        vstd::arithmetic::div_mod::lemma_small_mod(ia as nat, n as nat);
    } else {
        vstd::arithmetic::div_mod::lemma_fundamental_div_mod_converse(ia, n, 1, ia - n);
    }
    if ib < n {
        vstd::arithmetic::div_mod::lemma_small_mod(ib as nat, n as nat);
    } else {
        vstd::arithmetic::div_mod::lemma_fundamental_div_mod_converse(ib, n, 1, ib - n);
    }
}

/// The shifted dimension, computed without overflow.
fn hv_shift_exec(d: usize, s: usize, n: usize) -> (r: usize)
    requires
        d < n,
        s < n,
    ensures
        r == hv_shift(d, s as int, n as int),
        r < n,
{
    if d >= n - s {
        proof {
            vstd::arithmetic::div_mod::lemma_fundamental_div_mod_converse(
                d as int + s as int,
                n as int,
                1,
                d as int + s as int - n as int,
            );
        }
        d - (n - s)
    } else {
        proof {
            vstd::arithmetic::div_mod::lemma_small_mod((d + s) as nat, n as nat);
        }
        d + s
    }
}

/// An owned copy of a tryte.
fn clone_tryte(t: &Tryte) -> (r: Tryte)
    ensures
        r.trits@ == t.trits@,
{
    let n = t.trits.len();
    let mut trits: Vec<Trit> = Vec::new();
    for i in 0..n
        invariant
            n == t.trits@.len(),
            trits@.len() == i,
            forall|k: int| 0 <= k < i ==> trits@[k] == t.trits@[k],
    {
        trits.push(t.trits[i]);
    }
    proof {
        assert(trits@ =~= t.trits@);
    }
    Tryte { trits }
}

/// Find a stored tryte by dimension.
fn hv_get<'a>(s: &'a Vec<(usize, Tryte)>, d: usize) -> (r: Option<&'a Tryte>)
    ensures
        match r {
            Some(t) => hv_find(s@, d) == Some(*t),
            None => hv_find(s@, d) is None,
        },
{
    let n = s.len();
    let mut k = n;
    while k > 0
        invariant
            n == s@.len(),
            k <= n,
            forall|m: int| k <= m < n ==> (#[trigger] s@[m]).0 != d,
        decreases k,
    {
        k = k - 1;
        if s[k].0 == d {
            proof {
                lemma_hv_find_at(s@, k as int, d);
            }
            return Some(&s[k].1);
        }
    }
    proof {
        lemma_hv_find_absent(s@, d);
    }
    None
}

} // verus!
