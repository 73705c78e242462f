//! Total-ordering wrappers for floating-point scores.
//!
//! IEEE-754 floats are only partially ordered (`NaN` is unordered), which keeps them
//! out of sorted collections. Search ranks vectors by scores constantly, so a total
//! order is needed. These wrappers impose the `totalOrder` predicate: every value is
//! ordered, `NaN` included, and `-0 < +0`.
//!
//! A value is held as its *sort key*, a signed integer. For a non-negative float the
//! key is the bit pattern; for a negative one it is `-1 - magnitude`, where the
//! magnitude is the bit pattern without the sign bit. Comparing keys as integers is
//! the total order, and the bit pattern is recovered from the key exactly, so two
//! values are equal if and only if they compare equal.

use vstd::prelude::*;
use vstd::arithmetic::power2::*;

verus! {

/// The sign bit of a binary32 pattern.
pub const SIGN_BIT_32: u32 = 0x8000_0000;

/// The sign bit of a binary64 pattern.
pub const SIGN_BIT_64: u64 = 0x8000_0000_0000_0000;

/// The key of positive infinity in binary32; every larger key is a positive `NaN`.
pub const INFINITY_KEY_32: i32 = 0x7f80_0000;

/// The key of positive infinity in binary64; every larger key is a positive `NaN`.
pub const INFINITY_KEY_64: i64 = 0x7ff0_0000_0000_0000;

/// The sort key of a binary32 bit pattern.
pub open spec fn key_of_bits_32(bits: u32) -> int {
    if bits < SIGN_BIT_32 {
        bits as int
    } else {
        SIGN_BIT_32 - 1 - bits
    }
}

/// The sort key of a binary64 bit pattern.
pub open spec fn key_of_bits_64(bits: u64) -> int {
    if bits < SIGN_BIT_64 {
        bits as int
    } else {
        SIGN_BIT_64 - 1 - bits
    }
}

/// A totally-ordered binary32 float.
#[derive(Clone, Copy, PartialEq, Eq, PartialOrd, Ord, Hash, Debug, Structural)]
pub struct OrderedF32 {
    /// The sort key.
    pub key: i32,
}

/// A totally-ordered binary64 float.
#[derive(Clone, Copy, PartialEq, Eq, PartialOrd, Ord, Hash, Debug, Structural)]
pub struct OrderedF64 {
    /// The sort key.
    pub key: i64,
}

impl OrderedF32 {
    /// Whether the value is a `NaN` of either sign.
    pub open spec fn is_nan(self) -> bool {
        self.key > INFINITY_KEY_32 || -1 - self.key > INFINITY_KEY_32
    }

    /// The numeric "less than" of IEEE-754: false when either side is a `NaN`, and
    /// false between the two zeroes.
    pub open spec fn numerically_below(self, other: OrderedF32) -> bool {
        !self.is_nan() && !other.is_nan() && self.key < other.key && !(self.key == -1 && other.key
            == 0)
    }

    /// The value with its sign flipped.
    pub open spec fn negated(self) -> OrderedF32 {
        OrderedF32 { key: (-1 - self.key) as i32 }
    }

    /// Wraps the float with the given bit pattern (`NaN` is permitted).
    pub fn new(bits: u32) -> (value: OrderedF32)
        ensures
            value.key == key_of_bits_32(bits),
    {
        if bits < SIGN_BIT_32 {
            OrderedF32 { key: bits as i32 }
        } else {
            OrderedF32 { key: -1 - ((bits - SIGN_BIT_32) as i32) }
        }
    }

    /// Returns the wrapped float's bit pattern.
    pub fn into_inner(self) -> (bits: u32)
        ensures
            key_of_bits_32(bits) == self.key,
    {
        if self.key >= 0 {
            self.key as u32
        } else {
            SIGN_BIT_32 + ((-1 - self.key) as u32)
        }
    }

    /// Flips the sign.
    pub fn neg(self) -> (value: OrderedF32)
        ensures
            value == self.negated(),
    {
        OrderedF32 { key: -1 - self.key }
    }

    /// Whether `self` is numerically less than `other`.
    pub fn below(self, other: OrderedF32) -> (r: bool)
        ensures
            r == self.numerically_below(other),
    {
        let self_nan = self.key > INFINITY_KEY_32 || -1 - self.key > INFINITY_KEY_32;
        let other_nan = other.key > INFINITY_KEY_32 || -1 - other.key > INFINITY_KEY_32;
        !self_nan && !other_nan && self.key < other.key && !(self.key == -1 && other.key == 0)
    }

    /// The float nearest to the integer `v`, ties to even.
    pub fn from_i32(v: i32) -> (value: OrderedF32)
        ensures
            value.key == key_of_integer(v as int),
    {
        if v == 0 {
            return OrderedF32 { key: 0 };
        }
        let magnitude: u64 = if v > 0 {
            v as u64
        } else {
            (-(v as i64)) as u64
        };
        let (exponent, significand) = binary32_parts(magnitude);
        proof {
            lemma_exponent_bounds(magnitude as nat);
            if exponent >= 32 {
                lemma2_to64();
                if exponent > 32 {
                    lemma_pow2_strictly_increases(32, exponent as nat);
                }
            }
        }
        let key: i32 = (exponent as i32 + 126) * 0x80_0000 + (significand as i32);
        if v > 0 {
            OrderedF32 { key }
        } else {
            OrderedF32 { key: -1 - key }
        }
    }
}

impl OrderedF64 {
    /// Whether the value is a `NaN` of either sign.
    pub open spec fn is_nan(self) -> bool {
        self.key > INFINITY_KEY_64 || -1 - self.key > INFINITY_KEY_64
    }

    /// The numeric "less than" of IEEE-754: false when either side is a `NaN`, and
    /// false between the two zeroes.
    pub open spec fn numerically_below(self, other: OrderedF64) -> bool {
        !self.is_nan() && !other.is_nan() && self.key < other.key && !(self.key == -1 && other.key
            == 0)
    }

    /// Wraps the float with the given bit pattern (`NaN` is permitted).
    pub fn new(bits: u64) -> (value: OrderedF64)
        ensures
            value.key == key_of_bits_64(bits),
    {
        if bits < SIGN_BIT_64 {
            OrderedF64 { key: bits as i64 }
        } else {
            OrderedF64 { key: -1 - ((bits - SIGN_BIT_64) as i64) }
        }
    }

    /// Returns the wrapped float's bit pattern.
    pub fn into_inner(self) -> (bits: u64)
        ensures
            key_of_bits_64(bits) == self.key,
    {
        if self.key >= 0 {
            self.key as u64
        } else {
            SIGN_BIT_64 + ((-1 - self.key) as u64)
        }
    }

    /// Whether `self` is numerically less than `other`.
    pub fn below(self, other: OrderedF64) -> (r: bool)
        ensures
            r == self.numerically_below(other),
    {
        let self_nan = self.key > INFINITY_KEY_64 || -1 - self.key > INFINITY_KEY_64;
        let other_nan = other.key > INFINITY_KEY_64 || -1 - other.key > INFINITY_KEY_64;
        !self_nan && !other_nan && self.key < other.key && !(self.key == -1 && other.key == 0)
    }

    /// Whether two values are numerically equal: the two zeroes are, a `NaN` never is.
    pub open spec fn numerically_equal(self, other: OrderedF64) -> bool {
        !self.is_nan() && !other.is_nan() && (self.key == other.key || (self.key == -1 && other.key
            == 0) || (self.key == 0 && other.key == -1))
    }

    /// Whether two values are numerically equal.
    pub fn equal(self, other: OrderedF64) -> (r: bool)
        ensures
            r == self.numerically_equal(other),
    {
        !self.nan() && !other.nan() && (self.key == other.key || (self.key == -1 && other.key == 0)
            || (self.key == 0 && other.key == -1))
    }

    /// The float nearest to a positive integer, ties to even.
    fn from_magnitude(v: u64) -> (value: OrderedF64)
        requires
            v > 0,
        ensures
            value.key == wide_key_of_magnitude(v as nat),
    {
        proof {
            lemma2_to64_rest();
        }
        let (exponent, significand) = float_parts(v, 52, 0x10_0000_0000_0000);
        let key: i64 = (exponent as i64 + 1022) * 0x10_0000_0000_0000 + (significand as i64);
        OrderedF64 { key }
    }

    /// The float nearest to `v`, ties to even.
    pub fn from_u64(v: u64) -> (value: OrderedF64)
        ensures
            value.key == wide_key_of_integer(v as int),
    {
        if v == 0 {
            OrderedF64 { key: 0 }
        } else {
            OrderedF64::from_magnitude(v)
        }
    }

    /// The float nearest to `v`, ties to even.
    pub fn from_i64(v: i64) -> (value: OrderedF64)
        ensures
            value.key == wide_key_of_integer(v as int),
    {
        if v >= 0 {
            OrderedF64::from_u64(v as u64)
        } else {
            let magnitude: u64 = if v == i64::MIN {
                0x8000_0000_0000_0000
            } else {
                (-v) as u64
            };
            let positive = OrderedF64::from_magnitude(magnitude);
            OrderedF64 { key: -1 - positive.key }
        }
    }

    /// Whether the value is a `NaN`.
    pub fn nan(self) -> (r: bool)
        ensures
            r == self.is_nan(),
    {
        self.key > INFINITY_KEY_64 || -1 - self.key > INFINITY_KEY_64
    }
}

/// A bit pattern is recovered exactly from its key: distinct patterns have distinct keys.
pub proof fn law_key_identifies_bits(a: u32, b: u32)
    requires
        key_of_bits_32(a) == key_of_bits_32(b),
    ensures
        a == b,
{
}

/// Flipping the sign twice gives the value back, and reverses the order of two values.
pub proof fn law_negation_reverses_order(a: OrderedF32, b: OrderedF32)
    ensures
        a.negated().negated() == a,
        (a.key < b.key) == (b.negated().key < a.negated().key),
{
}

/// The binary exponent of a positive integer: `2^exponent <= v < 2^(exponent + 1)`.
pub open spec fn exponent_of(v: nat) -> nat
    decreases v,
{
    if v <= 1 {
        0
    } else {
        exponent_of(v / 2) + 1
    }
}

/// `v` divided by `unit`, rounded to the nearest integer with ties to even.
pub open spec fn divide_half_even(v: nat, unit: nat) -> nat {
    let q = v / unit;
    let r = v % unit;
    if 2 * r > unit || (2 * r == unit && q % 2 == 1) {
        q + 1
    } else {
        q
    }
}

/// The significand to which a positive integer rounds in a format with `fraction` bits
/// after the leading one. It reaches `2^(fraction + 1)` where rounding carries into the
/// next binade.
pub open spec fn significand_in(v: nat, fraction: nat) -> nat {
    let e = exponent_of(v);
    if e <= fraction {
        v * pow2((fraction - e) as nat)
    } else {
        divide_half_even(v, pow2((e - fraction) as nat))
    }
}

/// The significand to which a positive integer rounds in binary32.
pub open spec fn significand_of(v: nat) -> nat {
    significand_in(v, 23)
}

/// The sort key of the binary32 float nearest to the integer `v`.
pub open spec fn key_of_integer(v: int) -> int {
    if v == 0 {
        0
    } else if v > 0 {
        key_of_integer_magnitude(v as nat) as int
    } else {
        -1 - key_of_integer_magnitude((-v) as nat)
    }
}

/// The sort key of the binary32 float nearest to the positive integer `v`.
pub open spec fn key_of_integer_magnitude(v: nat) -> nat {
    (exponent_of(v) + 126) * 0x80_0000 + significand_of(v)
}

/// The sort key of the binary64 float nearest to the integer `v`.
pub open spec fn wide_key_of_integer(v: int) -> int {
    if v == 0 {
        0
    } else if v > 0 {
        wide_key_of_magnitude(v as nat) as int
    } else {
        -1 - wide_key_of_magnitude((-v) as nat)
    }
}

/// The sort key of the binary64 float nearest to the positive integer `v`.
pub open spec fn wide_key_of_magnitude(v: nat) -> nat {
    (exponent_of(v) + 1022) * 0x10_0000_0000_0000 + significand_in(v, 52)
}

/// The integer that a positive integer becomes when rounded to binary32.
pub open spec fn rounded_to_binary32(v: nat) -> nat {
    if exponent_of(v) <= 23 {
        v
    } else {
        significand_of(v) * pow2((exponent_of(v) - 23) as nat)
    }
}

/// The binade of a positive integer is where its exponent says.
pub proof fn lemma_exponent_bounds(v: nat)
    requires
        v > 0,
    ensures
        pow2(exponent_of(v)) <= v < pow2(exponent_of(v) + 1),
    decreases v,
{
    if v <= 1 {
        lemma2_to64();
    } else {
        lemma_exponent_bounds(v / 2);
        lemma_pow2_unfold(exponent_of(v));
        lemma_pow2_unfold(exponent_of(v) + 1);
    }
}

/// The significand has its leading bit at `fraction`, or is one more binade after a carry.
pub proof fn lemma_significand_bounds(v: nat, fraction: nat)
    requires
        v > 0,
    ensures
        pow2(fraction) <= significand_in(v, fraction) <= 2 * pow2(fraction),
{
    let e = exponent_of(v);
    lemma_exponent_bounds(v);
    lemma_pow2_unfold(fraction + 1);
    if e <= fraction {
        let f = pow2((fraction - e) as nat);
        lemma_pow2_adds(e, (fraction - e) as nat);
        lemma_pow2_adds(e + 1, (fraction - e) as nat);
        assert(v * f >= pow2(e) * f) by (nonlinear_arith)
            requires
                v >= pow2(e),
        ;
        assert(v * f <= pow2(e + 1) * f) by (nonlinear_arith)
            requires
                v <= pow2(e + 1),
        ;
    } else {
        let u = pow2((e - fraction) as nat);
        let low = pow2(fraction);
        lemma_pow2_pos((e - fraction) as nat);
        lemma_pow2_adds(fraction, (e - fraction) as nat);
        lemma_pow2_adds(fraction + 1, (e - fraction) as nat);
        let q = v / u;
        assert(low * u <= v < (2 * low) * u);
        assert(low <= q) by (nonlinear_arith)
            requires
                low * u <= v,
                u > 0,
                q == v / u,
        ;
        assert(q < 2 * low) by (nonlinear_arith)
            requires
                v < (2 * low) * u,
                u > 0,
                q == v / u,
        ;
    }
}

/// The exponent and the significand of a positive integer rounded to a format with
/// `fraction` bits after the leading one, `leading` being the value of that bit.
fn float_parts(v: u64, fraction: u32, leading: u64) -> (parts: (u32, u64))
    requires
        v > 0,
        fraction <= 52,
        leading == pow2(fraction as nat),
    ensures
        parts.0 == exponent_of(v as nat),
        parts.1 == significand_in(v as nat, fraction as nat),
        parts.0 < 64,
        leading <= parts.1 <= 2 * leading,
{
    let mut exponent: u32 = 0;
    let mut power: u64 = 1;
    proof {
        lemma2_to64();
        lemma2_to64_rest();
        if fraction < 52 {
            lemma_pow2_strictly_increases(fraction as nat, 52);
        }
    }
    while v / power >= 2
        invariant
            v > 0,
            exponent < 64,
            power == pow2(exponent as nat),
            power >= 1,
            v / power >= 1,
            exponent_of(v as nat) == exponent + exponent_of((v / power) as nat),
        decreases v / power,
    {
        let ghost before = power;
        proof {
            lemma_pow2_unfold((exponent + 1) as nat);
            assert(2 * power <= v) by (nonlinear_arith)
                requires
                    v / power >= 2,
                    power >= 1,
            ;
            assert(v / ((2 * power) as u64) == (v / power) / 2) by {
                vstd::arithmetic::div_mod::lemma_div_denominator(v as int, power as int, 2);
                assert(power * 2 == 2 * power);
            }
            if exponent == 63 {
                lemma2_to64_rest();
            }
        }
        power = 2 * power;
        exponent = exponent + 1;
    }
    proof {
        assert(v / power == 1);
        assert(exponent_of(1) == 0);
        lemma_significand_bounds(v as nat, fraction as nat);
    }
    if exponent <= fraction {
        let shift: u64 = leading / power;
        proof {
            lemma_pow2_adds(exponent as nat, (fraction - exponent) as nat);
            let f = pow2((fraction - exponent) as nat) as int;
            assert(leading == f * power) by (nonlinear_arith)
                requires
                    pow2(exponent as nat) * pow2((fraction - exponent) as nat) == leading,
                    f == pow2((fraction - exponent) as nat),
                    power == pow2(exponent as nat),
            ;
            vstd::arithmetic::div_mod::lemma_div_by_multiple(f, power as int);
            assert(shift == f);
        }
        (exponent, v * shift)
    } else {
        let unit: u64 = power / leading;
        proof {
            lemma_pow2_adds(fraction as nat, (exponent - fraction) as nat);
            lemma_pow2_pos((exponent - fraction) as nat);
            let u = pow2((exponent - fraction) as nat) as int;
            assert(power == u * leading) by (nonlinear_arith)
                requires
                    pow2(fraction as nat) * pow2((exponent - fraction) as nat) == power,
                    u == pow2((exponent - fraction) as nat),
                    leading == pow2(fraction as nat),
            ;
            vstd::arithmetic::div_mod::lemma_div_by_multiple(u, leading as int);
            assert(unit == pow2((exponent - fraction) as nat));
        }
        let q: u64 = v / unit;
        let r: u64 = v % unit;
        let rest: u64 = unit - r;
        if r > rest || (r == rest && q % 2 == 1) {
            (exponent, q + 1)
        } else {
            (exponent, q)
        }
    }
}

/// The exponent and the significand of a positive integer rounded to binary32.
pub(crate) fn binary32_parts(v: u64) -> (parts: (u32, u64))
    requires
        v > 0,
    ensures
        parts.0 == exponent_of(v as nat),
        parts.1 == significand_of(v as nat),
        parts.0 < 64,
        0x80_0000 <= parts.1 <= 0x100_0000,
{
    proof {
        lemma2_to64();
    }
    float_parts(v, 23, 0x80_0000)
}

} // verus!
