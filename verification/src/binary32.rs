//! IEEE 754 single precision, read from its 32-bit pattern.
//!
//! A pattern that is not a NaN denotes the number `scaled(bits) / 2^149`, where
//! `scaled` is an integer: the smallest subnormal is one unit. The two infinities
//! stand at `2^277` units, beyond every finite pattern.

use vstd::prelude::*;
use vstd::arithmetic::div_mod::{lemma_div_is_ordered, lemma_fundamental_div_mod};
use vstd::arithmetic::mul::{
    lemma_mul_inequality, lemma_mul_is_commutative, lemma_mul_strict_inequality,
};
use vstd::arithmetic::power2::{
    lemma2_to64, lemma_pow2_pos, lemma_pow2_strictly_increases, lemma_pow2_unfold, pow2,
};

verus! {

/// Bit 31, the sign.
pub const SIGN: u32 = 0x8000_0000;

/// Positive infinity. A pattern whose lower 31 bits exceed this one is a NaN.
pub const INFINITY: u32 = 0x7f80_0000;

/// Bit 23: the lowest bit of the exponent field, and the leading one that a normal
/// significand has on top of its 23 stored bits.
pub const LEADING_ONE: u32 = 0x0080_0000;

/// Positive zero.
pub const ZERO: u32 = 0;

/// The number -1.
pub const MINUS_ONE: u32 = 0xbf80_0000;

/// The pattern without its sign bit.
pub open spec fn abs_bits(bits: u32) -> nat {
    (bits % SIGN) as nat
}

pub open spec fn is_negative(bits: u32) -> bool {
    bits >= SIGN
}

pub open spec fn is_nan(bits: u32) -> bool {
    abs_bits(bits) > INFINITY
}

/// The biased exponent field, 0 to 255.
pub open spec fn exponent(bits: u32) -> nat {
    abs_bits(bits) / (LEADING_ONE as nat)
}

/// The 23 stored bits of the significand.
pub open spec fn fraction(bits: u32) -> nat {
    abs_bits(bits) % (LEADING_ONE as nat)
}

/// The significand as an integer: subnormals have no leading one.
pub open spec fn significand(bits: u32) -> nat {
    if exponent(bits) == 0 {
        fraction(bits)
    } else {
        LEADING_ONE as nat + fraction(bits)
    }
}

/// The power of two by which the significand is multiplied, counted from the
/// subnormal range.
pub open spec fn shift(bits: u32) -> nat {
    if exponent(bits) == 0 {
        0
    } else {
        (exponent(bits) - 1) as nat
    }
}

/// The absolute value in units of `2^-149`.
pub open spec fn magnitude(bits: u32) -> nat {
    significand(bits) * pow2(shift(bits))
}

/// The value in units of `2^-149`. Both zeros give 0.
pub open spec fn scaled(bits: u32) -> int {
    if is_negative(bits) {
        -(magnitude(bits) as int)
    } else {
        magnitude(bits) as int
    }
}

/// `a > b` as IEEE 754 orders numbers: false as soon as one side is a NaN, and
/// the two zeros are equal.
pub open spec fn greater(a: u32, b: u32) -> bool {
    !is_nan(a) && !is_nan(b) && scaled(a) > scaled(b)
}

/// A larger pattern (sign aside) denotes a larger magnitude.
pub proof fn lemma_magnitude_increases(x: u32, y: u32)
    requires
        abs_bits(x) < abs_bits(y),
    ensures
        magnitude(x) < magnitude(y),
{
    let one = LEADING_ONE as nat;
    let (ex, ey) = (exponent(x), exponent(y));
    let (sx, sy) = (significand(x), significand(y));
    let (px, py) = (pow2(shift(x)), pow2(shift(y)));
    lemma_pow2_pos(shift(x));
    lemma_pow2_pos(shift(y));
    assert(abs_bits(x) == one * ex + fraction(x)) by {
        lemma_fundamental_div_mod(abs_bits(x) as int, one as int);
    }
    assert(abs_bits(y) == one * ey + fraction(y)) by {
        lemma_fundamental_div_mod(abs_bits(y) as int, one as int);
    }
    assert(ex <= ey) by {
        lemma_div_is_ordered(abs_bits(x) as int, abs_bits(y) as int, one as int);
    }
    if ex == ey {
        assert(sx < sy);
        lemma_mul_strict_inequality(sx as int, sy as int, px as int);
    } else {
        // The whole range of one exponent lies below the next.
        assert(sx * px < one * py) by {
            if ex == 0 {
                assert(px == 1) by {
                    lemma2_to64();
                }
                assert(1 <= py);
                lemma_mul_inequality(1, py as int, one as int);
                lemma_mul_is_commutative(py as int, one as int);
            } else {
                lemma_mul_strict_inequality(sx as int, 2 * one as int, px as int);
                assert(sx * px < 2 * one * px);
                assert(2 * one * px == one * (2 * px)) by (nonlinear_arith);
                lemma_pow2_unfold(shift(x) + 1);
                assert(2 * px == pow2(shift(x) + 1));
                if shift(x) + 1 < shift(y) {
                    lemma_pow2_strictly_increases(shift(x) + 1, shift(y));
                }
                assert(pow2(shift(x) + 1) <= py);
                lemma_mul_inequality(pow2(shift(x) + 1) as int, py as int, one as int);
                lemma_mul_is_commutative(py as int, one as int);
                lemma_mul_is_commutative(pow2(shift(x) + 1) as int, one as int);
            }
        }
        lemma_mul_inequality(one as int, sy as int, py as int);
    }
}

/// Only the two zeros have magnitude 0.
pub proof fn lemma_magnitude_zero(x: u32)
    ensures
        magnitude(x) == 0 <==> abs_bits(x) == 0,
{
    if abs_bits(x) == 0 {
        assert(significand(x) == 0);
        assert(magnitude(x) == 0) by (nonlinear_arith)
            requires
                magnitude(x) == significand(x) * pow2(shift(x)),
                significand(x) == 0,
        ;
    } else {
        lemma_magnitude_increases(ZERO, x);
    }
}

/// Whether the pattern is a NaN.
pub fn nan(bits: u32) -> (r: bool)
    ensures
        r == is_nan(bits),
{
    bits % SIGN > INFINITY
}

/// Whether `a > b`, decided on the patterns alone.
pub fn gt(a: u32, b: u32) -> (r: bool)
    ensures
        r == greater(a, b),
{
    if nan(a) || nan(b) {
        return false;
    }
    let ma: u32 = a % SIGN;
    let mb: u32 = b % SIGN;
    proof {
        lemma_magnitude_zero(a);
        lemma_magnitude_zero(b);
        if ma < mb {
            lemma_magnitude_increases(a, b);
        }
        if mb < ma {
            lemma_magnitude_increases(b, a);
        }
    }
    if a >= SIGN {
        b >= SIGN && ma < mb
    } else if b >= SIGN {
        ma != 0 || mb != 0
    } else {
        ma > mb
    }
}

} // verus!
