//! Real numbers of the trading model.
//!
//! Prices, quantities and capital are IEEE-754 binary64 values. The library
//! holds each of them as its 64-bit pattern, so that every decision it takes
//! on them (ordering, "is this a normal number", NaN as a marker for "no
//! value") is stated and proved exactly on integers.
use vstd::prelude::*;

verus! {

/// The sign bit of a binary64 pattern.
pub const SIGN_BIT: u64 = 0x8000_0000_0000_0000u64;

/// Magnitude bits of an infinity; every larger magnitude encodes a NaN.
pub const INF_MAGNITUDE: u64 = 0x7ff0_0000_0000_0000u64;

/// Magnitude bits of the smallest positive normal number.
pub const MIN_NORMAL_MAGNITUDE: u64 = 0x0010_0000_0000_0000u64;

/// The pattern of the quiet NaN that a computation produces by default.
pub const NAN_BITS: u64 = 0x7ff8_0000_0000_0000u64;

/// A binary64 value, held as its bit pattern.
///
/// `==`, [`Num::le`] and [`Num::lt`] follow IEEE-754: a NaN is neither equal
/// to nor ordered against anything (itself included), and `-0` equals `+0`.
#[derive(Clone, Copy, Debug)]
pub struct Num(pub u64);

/// The bits of a pattern without its sign bit.
pub open spec fn magnitude(bits: u64) -> int {
    if bits >= SIGN_BIT {
        bits - SIGN_BIT
    } else {
        bits as int
    }
}

/// A position on the number line that is monotone in the value encoded by a
/// non-NaN pattern: negative values get the negated magnitude, so `-0` and
/// `+0` share the key 0.
pub open spec fn order_key(bits: u64) -> int {
    if bits >= SIGN_BIT {
        -(bits - SIGN_BIT)
    } else {
        bits as int
    }
}

impl Num {
    /// The value is a NaN (all exponent bits set, mantissa not zero).
    pub open spec fn nan(self) -> bool {
        magnitude(self.0) > INF_MAGNITUDE
    }

    /// The value is a normal number: neither zero, subnormal, infinite nor NaN.
    pub open spec fn normal(self) -> bool {
        MIN_NORMAL_MAGNITUDE <= magnitude(self.0) < INF_MAGNITUDE
    }

    pub open spec fn key(self) -> int {
        order_key(self.0)
    }
}

/// IEEE-754 `a <= b`.
pub open spec fn num_le(a: Num, b: Num) -> bool {
    !a.nan() && !b.nan() && a.key() <= b.key()
}

/// IEEE-754 `a == b`.
pub open spec fn num_eq(a: Num, b: Num) -> bool {
    !a.nan() && !b.nan() && a.key() == b.key()
}

/// IEEE-754 `a < b`.
pub open spec fn num_lt(a: Num, b: Num) -> bool {
    !a.nan() && !b.nan() && a.key() < b.key()
}

impl Num {
    /// The quiet NaN that marks a missing value.
    pub fn nan_value() -> (r: Num)
        ensures
            r.0 == NAN_BITS,
            r.nan(),
            !r.normal(),
    {
        Num(NAN_BITS)
    }

    /// The number zero.
    pub fn zero() -> (r: Num)
        ensures
            r.0 == 0,
            !r.nan(),
            r.key() == 0,
    {
        Num(0)
    }

    /// The bits of the value without its sign.
    fn magnitude_bits(self) -> (r: u64)
        ensures
            r == magnitude(self.0),
    {
        if self.0 >= SIGN_BIT {
            self.0 - SIGN_BIT
        } else {
            self.0
        }
    }

    /// `f64::is_nan`.
    pub fn is_nan(self) -> (r: bool)
        ensures
            r == self.nan(),
    {
        self.magnitude_bits() > INF_MAGNITUDE
    }

    /// `f64::is_normal`.
    pub fn is_normal(self) -> (r: bool)
        ensures
            r == self.normal(),
    {
        let m = self.magnitude_bits();
        MIN_NORMAL_MAGNITUDE <= m && m < INF_MAGNITUDE
    }

    /// IEEE-754 `self <= other`.
    pub fn le(self, other: Num) -> (r: bool)
        ensures
            r == num_le(self, other),
    {
        if self.is_nan() || other.is_nan() {
            return false;
        }
        let a = self.0;
        let b = other.0;
        if a >= SIGN_BIT {
            if b >= SIGN_BIT {
                b - SIGN_BIT <= a - SIGN_BIT
            } else {
                true
            }
        } else {
            if b >= SIGN_BIT {
                a == 0 && b == SIGN_BIT
            } else {
                a <= b
            }
        }
    }

    /// IEEE-754 `self < other`.
    pub fn lt(self, other: Num) -> (r: bool)
        ensures
            r == num_lt(self, other),
    {
        if self.is_nan() || other.is_nan() {
            return false;
        }
        let a = self.0;
        let b = other.0;
        if a >= SIGN_BIT {
            if b >= SIGN_BIT {
                b - SIGN_BIT < a - SIGN_BIT
            } else {
                !(a == SIGN_BIT && b == 0)
            }
        } else {
            if b >= SIGN_BIT {
                false
            } else {
                a < b
            }
        }
    }

    /// IEEE-754 `self >= other`.
    pub fn ge(self, other: Num) -> (r: bool)
        ensures
            r == num_le(other, self),
    {
        other.le(self)
    }
}


/// `2^e`.
pub open spec fn two_pow(e: nat) -> nat
    decreases e,
{
    if e == 0 {
        1
    } else {
        2 * two_pow((e - 1) as nat)
    }
}

/// The position of the highest set bit of `n` (0 for 0 and 1).
pub open spec fn top_bit(n: nat) -> nat
    decreases n,
{
    if n < 2 {
        0
    } else {
        1 + top_bit(n / 2)
    }
}

/// The binary64 pattern of the whole number `n`: zero, or the normal number
/// with unbiased exponent `top_bit(n)` and the bits of `n` below its top bit
/// as the leading bits of the 52-bit mantissa.
pub open spec fn whole_bits(n: nat) -> int {
    if n == 0 {
        0
    } else {
        (1023 + top_bit(n)) * two_pow(52) + (n - two_pow(top_bit(n))) * two_pow(
            (52 - top_bit(n)) as nat,
        )
    }
}

/// The largest whole number up to which every whole number is a binary64
/// value: `2^53`.
pub const EXACT_WHOLE_LIMIT: u64 = 0x20_0000_0000_0000u64;

proof fn lemma_two_pow_values()
    ensures
        two_pow(52) == 0x10_0000_0000_0000,
        two_pow(53) == 0x20_0000_0000_0000,
{
    reveal_with_fuel(two_pow, 54);
}

proof fn lemma_two_pow_positive(e: nat)
    ensures
        1 <= two_pow(e),
    decreases e,
{
    if e > 0 {
        lemma_two_pow_positive((e - 1) as nat);
    }
}

proof fn lemma_two_pow_monotone(a: nat, b: nat)
    requires
        a <= b,
    ensures
        two_pow(a) <= two_pow(b),
        1 <= two_pow(a),
    decreases b,
{
    lemma_two_pow_positive(a);
    if a < b {
        lemma_two_pow_monotone(a, (b - 1) as nat);
        lemma_two_pow_positive((b - 1) as nat);
    }
}

proof fn lemma_top_bit(n: nat, p: nat)
    requires
        two_pow(p) <= n < two_pow(p + 1),
    ensures
        top_bit(n) == p,
    decreases p,
{
    if p > 0 {
        assert(two_pow(p) == 2 * two_pow((p - 1) as nat));
        lemma_top_bit(n / 2, (p - 1) as nat);
    }
}

impl Num {
    /// The binary64 value of a whole number below `2^53`, which is exact.
    pub fn from_index(n: usize) -> (r: Num)
        requires
            n < EXACT_WHOLE_LIMIT,
        ensures
            r.0 == whole_bits(n as nat),
    {
        if n == 0 {
            return Num(0);
        }
        let n64 = n as u64;
        proof {
            lemma_two_pow_values();
        }
        let mut top: u64 = 1;
        let mut p: u64 = 0;
        while top <= n64 / 2
            invariant
                1 <= n64 < EXACT_WHOLE_LIMIT,
                top == two_pow(p as nat),
                1 <= top <= n64,
                p <= 52,
                two_pow(53) == EXACT_WHOLE_LIMIT,
            decreases n64 - top,
        {
            top = top * 2;
            p = p + 1;
            proof {
                if p > 52 {
                    lemma_two_pow_monotone(53, p as nat);
                }
            }
        }
        proof {
            assert(two_pow((p + 1) as nat) == 2 * two_pow(p as nat));
            lemma_top_bit(n64 as nat, p as nat);
        }
        let mut m: u64 = n64 - top;
        let mut q: u64 = p;
        assert(two_pow(0) == 1);
        assert(((q - p) as nat) == 0);
        while q < 52
            invariant
                p <= q <= 52,
                top == two_pow(p as nat),
                m == (n64 - top) * two_pow((q - p) as nat),
                m < two_pow(q as nat),
                two_pow(52) == 0x10_0000_0000_0000,
            decreases 52 - q,
        {
            proof {
                lemma_two_pow_monotone((q + 1) as nat, 52);
                assert(two_pow((q + 1 - p) as nat) == 2 * two_pow((q - p) as nat));
                assert(two_pow((q + 1) as nat) == 2 * two_pow(q as nat));
                assert((n64 - top) * two_pow((q + 1 - p) as nat) == 2 * ((n64 - top) * two_pow(
                    (q - p) as nat,
                ))) by (nonlinear_arith)
                    requires
                        two_pow((q + 1 - p) as nat) == 2 * two_pow((q - p) as nat),
                ;
            }
            m = m * 2;
            q = q + 1;
        }
        Num((1023 + p) * 0x10_0000_0000_0000 + m)
    }
}

impl PartialEq for Num {
    fn eq(&self, other: &Self) -> (r: bool) {
        self.le(*other) && other.le(*self)
    }
}

impl vstd::std_specs::cmp::PartialEqSpecImpl for Num {
    open spec fn obeys_eq_spec() -> bool {
        true
    }

    open spec fn eq_spec(&self, other: &Self) -> bool {
        num_eq(*self, *other)
    }
}

/// `==` on values is IEEE-754 equality: the two zeros are equal, a NaN is
/// equal to nothing, and any other two values are equal exactly when their
/// patterns are.
pub proof fn lemma_eq_is_ieee(a: Num, b: Num)
    ensures
        num_eq(a, b) <==> num_le(a, b) && num_le(b, a),
        a.nan() ==> !num_eq(a, b),
        magnitude(a.0) == 0 && magnitude(b.0) == 0 ==> num_eq(a, b),
        num_eq(a, b) && magnitude(a.0) != 0 ==> a == b,
{
}

/// `<=` on non-NaN values is a total order up to the two zeros: reflexive,
/// transitive and total, and a NaN is neither below nor above anything.
pub proof fn lemma_le_total_order(a: Num, b: Num, c: Num)
    ensures
        !a.nan() ==> num_le(a, a),
        num_le(a, b) && num_le(b, c) ==> num_le(a, c),
        !a.nan() && !b.nan() ==> num_le(a, b) || num_le(b, a),
        a.nan() ==> !num_le(a, b) && !num_le(b, a),
        num_lt(a, b) <==> num_le(a, b) && !num_le(b, a),
{
}

/// The two zeros are equal and every other pair of non-NaN values with equal
/// keys has equal patterns.
pub proof fn lemma_key_identifies_value(a: Num, b: Num)
    requires
        !a.nan(),
        !b.nan(),
        num_le(a, b),
        num_le(b, a),
    ensures
        a == b || (magnitude(a.0) == 0 && magnitude(b.0) == 0),
{
}

} // verus!
