//! Doubles read from their IEEE 754 encodings.
//!
//! A finite encoding stands for the number `scaled(bits) / 2^1075`, which is
//! exact: every finite double is a whole multiple of `2^-1075`. Order and
//! sign of the numbers are decided on the encodings and proved against that
//! value.

use vstd::arithmetic::power2::lemma_pow2_pos;
use vstd::arithmetic::power2::lemma_pow2_strictly_increases;
use vstd::arithmetic::power2::lemma_pow2_unfold;
use vstd::arithmetic::power2::pow2;
use vstd::prelude::*;

verus! {

/// The sign bit of a double's encoding.
pub const SIGN_BIT: u64 = 0x8000_0000_0000_0000;

/// The encoding of positive infinity: every finite encoding has a smaller
/// magnitude, every other encoding that is not finite a larger one.
pub const INFINITY: u64 = 0x7ff0_0000_0000_0000;

/// Two to the power 52, the weight of the hidden bit of a double's mantissa.
pub const HIDDEN_BIT: u64 = 0x10_0000_0000_0000;

/// The encoding without its sign bit.
pub open spec fn magnitude_of(bits: u64) -> int {
    if bits >= SIGN_BIT {
        bits - SIGN_BIT
    } else {
        bits as int
    }
}

/// The sign bit is set.
pub open spec fn sign_of(bits: u64) -> bool {
    bits >= SIGN_BIT
}

/// The biased exponent: bits 52 to 62 of the encoding.
pub open spec fn exponent_of(bits: u64) -> int {
    magnitude_of(bits) / (HIDDEN_BIT as int)
}

/// The fraction: bits 0 to 51 of the encoding.
pub open spec fn fraction_of(bits: u64) -> int {
    magnitude_of(bits) % (HIDDEN_BIT as int)
}

/// The encoding stands for a number: its exponent is not all ones.
pub open spec fn finite(bits: u64) -> bool {
    magnitude_of(bits) < INFINITY
}

/// The mantissa of a finite encoding as a whole number: the fraction, with the
/// hidden bit in front of it unless the number is subnormal.
pub open spec fn mantissa_of(bits: u64) -> int {
    if exponent_of(bits) == 0 {
        fraction_of(bits)
    } else {
        HIDDEN_BIT + fraction_of(bits)
    }
}

/// The power of two that the mantissa of a finite encoding is scaled by, plus
/// 1075. Subnormal numbers share the scale of the smallest normal ones.
pub open spec fn scale_of(bits: u64) -> nat {
    if exponent_of(bits) == 0 {
        1
    } else {
        exponent_of(bits) as nat
    }
}

/// The absolute value of the number that a finite encoding stands for,
/// multiplied by two to the power 1075, which makes it a whole number.
pub open spec fn weight_of(bits: u64) -> int {
    mantissa_of(bits) * pow2(scale_of(bits))
}

/// The number that a finite encoding stands for, multiplied by two to the
/// power 1075. Both encodings of zero give zero.
pub open spec fn scaled(bits: u64) -> int {
    if sign_of(bits) {
        -weight_of(bits)
    } else {
        weight_of(bits)
    }
}

/// `x` and `y` stand for numbers, and the first is not greater than the second.
pub open spec fn at_most(x: u64, y: u64) -> bool {
    finite(x) && finite(y) && scaled(x) <= scaled(y)
}

/// Among encodings of numbers that are not negative, a larger encoding stands
/// for a larger number.
pub proof fn lemma_weight_increases(x: u64, y: u64)
    requires
        x < y,
        y < INFINITY,
    ensures
        0 <= weight_of(x) < weight_of(y),
{
    let sx = scale_of(x);
    let sy = scale_of(y);
    let mx = mantissa_of(x);
    let my = mantissa_of(y);
    lemma_pow2_pos(sx);
    lemma_pow2_pos(sy);
    assert(exponent_of(x) <= exponent_of(y));
    assert(0 <= mx * pow2(sx)) by (nonlinear_arith)
        requires
            0 <= mx,
            0 < pow2(sx),
    ;
    if exponent_of(x) == exponent_of(y) {
        assert(mx * pow2(sx) < my * pow2(sx)) by (nonlinear_arith)
            requires
                mx < my,
                0 < pow2(sx),
        ;
    } else {
        // the next scale doubles the weight of the hidden bit
        let next: nat = if exponent_of(x) == 0 {
            1
        } else {
            sx + 1
        };
        assert(mx * pow2(sx) < HIDDEN_BIT * pow2(next)) by {
            if exponent_of(x) == 0 {
                assert(mx * pow2(sx) < HIDDEN_BIT * pow2(sx)) by (nonlinear_arith)
                    requires
                        mx < HIDDEN_BIT,
                        0 < pow2(sx),
                ;
            } else {
                lemma_pow2_unfold(next);
                assert(mx * pow2(sx) < HIDDEN_BIT * (2 * pow2(sx))) by (nonlinear_arith)
                    requires
                        mx < 2 * HIDDEN_BIT,
                        0 < pow2(sx),
                ;
            }
        }
        assert(pow2(next) <= pow2(sy)) by {
            if next < sy {
                lemma_pow2_strictly_increases(next, sy);
            }
        }
        assert(HIDDEN_BIT * pow2(next) <= my * pow2(sy)) by (nonlinear_arith)
            requires
                HIDDEN_BIT <= my,
                0 < pow2(next) <= pow2(sy),
        ;
    }
}

/// Only the encodings of zero have weight zero, and no weight is negative.
pub proof fn lemma_weight_of_zero(bits: u64)
    requires
        finite(bits),
    ensures
        0 <= weight_of(bits),
        weight_of(bits) == 0 <==> magnitude_of(bits) == 0,
{
    let m = magnitude_of(bits) as u64;
    assert(weight_of(bits) == weight_of(m));
    if m > 0 {
        lemma_weight_increases(0, m);
    }
    assert(weight_of(0) == 0) by {
        assert(mantissa_of(0) == 0);
        assert(0 * pow2(scale_of(0)) == 0);
    }
}

/// Numbers are ordered by absolute value as the magnitudes of their encodings
/// are ordered.
pub proof fn lemma_order_of_magnitudes(x: u64, y: u64)
    requires
        finite(x),
        finite(y),
    ensures
        magnitude_of(x) <= magnitude_of(y) <==> weight_of(x) <= weight_of(y),
{
    let mx = magnitude_of(x) as u64;
    let my = magnitude_of(y) as u64;
    assert(weight_of(x) == weight_of(mx));
    assert(weight_of(y) == weight_of(my));
    if mx < my {
        lemma_weight_increases(mx, my);
    }
    if my < mx {
        lemma_weight_increases(my, mx);
    }
}

/// The order of two numbers read off their encodings: among numbers that are
/// not negative the larger magnitude is the larger number, among negative
/// numbers the smaller one, a negative number is below every number that is
/// not negative, and the two zeros are equal.
pub open spec fn at_most_by_encoding(x: u64, y: u64) -> bool {
    &&& finite(x)
    &&& finite(y)
    &&& if sign_of(x) {
        sign_of(y) ==> magnitude_of(x) >= magnitude_of(y)
    } else if sign_of(y) {
        magnitude_of(x) == 0 && magnitude_of(y) == 0
    } else {
        magnitude_of(x) <= magnitude_of(y)
    }
}

/// The order read off the encodings is the order of the numbers.
pub proof fn lemma_order_by_encoding(x: u64, y: u64)
    ensures
        at_most(x, y) == at_most_by_encoding(x, y),
{
    if finite(x) && finite(y) {
        lemma_weight_of_zero(x);
        lemma_weight_of_zero(y);
        lemma_order_of_magnitudes(x, y);
        lemma_order_of_magnitudes(y, x);
    }
}

/// The encoding without its sign bit.
pub fn magnitude(bits: u64) -> (m: u64)
    ensures
        m == magnitude_of(bits),
{
    proof {
        assert(bits & 0x7fff_ffff_ffff_ffff == if bits >= 0x8000_0000_0000_0000 {
            (bits - 0x8000_0000_0000_0000) as u64
        } else {
            bits
        }) by (bit_vector);
    }
    bits & 0x7fff_ffff_ffff_ffff
}

/// Whether the encoding stands for a number.
pub fn is_finite(bits: u64) -> (yes: bool)
    ensures
        yes == finite(bits),
{
    magnitude(bits) < INFINITY
}

/// Whether both encodings stand for numbers and the first number is not
/// greater than the second.
pub fn le(x: u64, y: u64) -> (yes: bool)
    ensures
        yes == at_most(x, y),
{
    let mx = magnitude(x);
    let my = magnitude(y);
    proof {
        lemma_order_by_encoding(x, y);
    }
    if mx >= INFINITY || my >= INFINITY {
        return false;
    }
    if x >= SIGN_BIT {
        if y >= SIGN_BIT {
            mx >= my
        } else {
            true
        }
    } else {
        if y >= SIGN_BIT {
            mx == 0 && my == 0
        } else {
            mx <= my
        }
    }
}

} // verus!
