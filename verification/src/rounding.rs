//! Whole numbers next to a double: its ceiling and its nearest whole number,
//! computed on the encoding and proved against the number it stands for.

use crate::ieee::finite;
use crate::ieee::is_finite;
use crate::ieee::magnitude;
use crate::ieee::mantissa_of;
use crate::ieee::scale_of;
use crate::ieee::scaled;
use crate::ieee::sign_of;
use crate::ieee::weight_of;
use crate::ieee::HIDDEN_BIT;
use crate::ieee::SIGN_BIT;
use vstd::arithmetic::div_mod::lemma_fundamental_div_mod_converse;
use vstd::arithmetic::power2::lemma2_to64;
use vstd::arithmetic::power2::lemma2_to64_rest;
use vstd::arithmetic::power2::lemma_pow2_adds;
use vstd::arithmetic::power2::lemma_pow2_pos;
use vstd::arithmetic::power2::lemma_pow2_strictly_increases;
use vstd::arithmetic::power2::pow2;
use vstd::bits::lemma_u64_shl_is_mul;
use vstd::bits::lemma_u64_shr_is_div;
use vstd::prelude::*;

verus! {

/// Two to the power 1075, the factor by which [`scaled`] and [`weight_of`]
/// enlarge a number: the whole number `n` is enlarged to `n * unit()`.
pub open spec fn unit() -> int {
    pow2(1075) as int
}

/// The least whole number that is not below the number that a finite
/// encoding stands for.
pub open spec fn ceiling_of(bits: u64) -> int {
    -((-scaled(bits)) / unit())
}

/// The whole number nearest to the number that a finite encoding stands for;
/// a number halfway between two whole numbers goes to the one farther from
/// zero.
pub open spec fn nearest_of(bits: u64) -> int {
    let away = (2 * weight_of(bits) + unit()) / (2 * unit());
    if sign_of(bits) {
        -away
    } else {
        away
    }
}

/// The level or column that no grid holds: what stands for a sample that is no
/// number or too large for an `i64`.
pub const OFF_GRID: i64 = i64::MIN;

/// The whole pixel that a sample given by its encoding falls on: the whole
/// number nearest to it, or [`OFF_GRID`] where there is none within `i64`.
pub open spec fn pixel_of(bits: u64) -> i64 {
    if finite(bits) && i64::MIN <= nearest_of(bits) <= i64::MAX {
        nearest_of(bits) as i64
    } else {
        OFF_GRID
    }
}

/// How the part of a number behind the point compares with a half.
#[derive(Clone, Copy, PartialEq, Eq, Structural)]
enum Fraction {
    Nothing,
    BelowHalf,
    HalfOrMore,
}

/// `whole` is the whole part of the absolute value of the number, and `rest`
/// tells how the part behind the point compares with a half.
spec fn splits(bits: u64, whole: int, rest: Fraction) -> bool {
    &&& whole * unit() <= weight_of(bits) < (whole + 1) * unit()
    &&& rest is Nothing <==> weight_of(bits) == whole * unit()
    &&& rest is HalfOrMore <==> 2 * weight_of(bits) >= (2 * whole + 1) * unit()
}

/// Splits the absolute value of a number into its whole part and the part
/// behind the point. `None` when the whole part needs more than 64 bits.
fn whole_part(bits: u64) -> (parts: Option<(u64, Fraction)>)
    requires
        finite(bits),
    ensures
        match parts {
            Some((whole, rest)) => splits(bits, whole as int, rest),
            None => weight_of(bits) >= 0x1_0000_0000_0000_0000 * unit(),
        },
{
    let m = magnitude(bits);
    let e = m >> 52;
    let f = m & 0xf_ffff_ffff_ffff;
    proof {
        assert(m >> 52 == m / 0x10_0000_0000_0000) by (bit_vector);
        assert(m & 0xf_ffff_ffff_ffff == m % 0x10_0000_0000_0000) by (bit_vector);
        lemma2_to64();
        lemma2_to64_rest();
    }
    let mant: u64 = if e == 0 {
        f
    } else {
        HIDDEN_BIT + f
    };
    let scale: u64 = if e == 0 {
        1
    } else {
        e
    };
    assert(mant == mantissa_of(bits));
    assert(scale == scale_of(bits));
    assert(mant < 0x20_0000_0000_0000);
    assert(1 <= scale < 2047);
    let ghost power = pow2(scale as nat) as int;
    proof {
        lemma_pow2_pos(scale as nat);
        lemma_unit_positive();
        assert(weight_of(bits) == mant * power);
    }
    if scale >= 1087 {
        proof {
            lemma_pow2_adds(12, 1075);
            if scale > 1087 {
                lemma_pow2_strictly_increases(1087, scale as nat);
            }
            assert(pow2(12) == 0x1000) by {
                lemma_pow2_adds(6, 6);
            }
            assert(mant * power >= 0x1_0000_0000_0000_0000 * unit()) by (nonlinear_arith)
                requires
                    mant >= 0x10_0000_0000_0000,
                    power >= 0x1000 * unit(),
                    unit() > 0,
            ;
        }
        None
    } else if scale >= 1075 {
        let k = scale - 1075;
        proof {
            lemma_pow2_adds(k as nat, 1075);
            lemma_pow2_pos(k as nat);
            if k < 11 {
                lemma_pow2_strictly_increases(k as nat, 11);
            }
            assert(pow2(11) == 0x800) by {
                lemma_pow2_adds(5, 6);
            }
            assert(mant * pow2(k as nat) <= u64::MAX) by (nonlinear_arith)
                requires
                    mant < 0x20_0000_0000_0000,
                    0 < pow2(k as nat) <= 0x800,
            ;
            lemma_u64_shl_is_mul(mant, k);
            assert(mant * power == (mant * pow2(k as nat)) * unit()) by (nonlinear_arith)
                requires
                    power == pow2(k as nat) * unit(),
            ;
        }
        let whole = mant << k;
        proof {
            assert((whole + 1) * unit() == whole * unit() + unit()) by (nonlinear_arith);
            assert((2 * whole + 1) * unit() == 2 * (whole * unit()) + unit()) by (nonlinear_arith);
            assert(splits(bits, whole as int, Fraction::Nothing));
        }
        Some((whole, Fraction::Nothing))
    } else {
        let s = 1075 - scale;
        let ghost step = pow2(s as nat) as int;
        proof {
            lemma_pow2_adds(s as nat, scale as nat);
            lemma_pow2_pos(s as nat);
            assert(unit() == step * power);
        }
        if s >= 54 {
            proof {
                if s > 54 {
                    lemma_pow2_strictly_increases(54, s as nat);
                }
                assert(2 * (mant * power) < step * power) by (nonlinear_arith)
                    requires
                        0 <= mant < 0x20_0000_0000_0000,
                        step >= 0x40_0000_0000_0000,
                        power > 0,
                ;
                assert(mant == 0 <==> mant * power == 0) by (nonlinear_arith)
                    requires
                        0 <= mant,
                        power > 0,
                ;
                assert(0 <= mant * power) by (nonlinear_arith)
                    requires
                        0 <= mant,
                        power > 0,
                ;
            }
            assert(splits(
                bits,
                0,
                if mant == 0 {
                    Fraction::Nothing
                } else {
                    Fraction::BelowHalf
                },
            ));
            if mant == 0 {
                Some((0, Fraction::Nothing))
            } else {
                Some((0, Fraction::BelowHalf))
            }
        } else {
            let whole = mant >> s;
            proof {
                lemma_u64_shr_is_div(mant, s);
                vstd::arithmetic::div_mod::lemma_fundamental_div_mod(mant as int, step);
                vstd::arithmetic::div_mod::lemma_mod_pos_bound(mant as int, step);
                assert(whole * step <= mant) by (nonlinear_arith)
                    requires
                        mant == step * whole + (mant as int) % step,
                        0 <= (mant as int) % step,
                ;
                lemma_u64_shl_is_mul(whole, s);
                lemma_pow2_adds((s - 1) as nat, 1);
                lemma_pow2_pos((s - 1) as nat);
                lemma_pow2_strictly_increases((s - 1) as nat, s as nat);
                if s < 54 {
                    lemma_pow2_strictly_increases(s as nat, 54);
                }
                lemma_u64_shl_is_mul(1, (s - 1) as u64);
            }
            let rest = mant - (whole << s);
            let half = 1u64 << (s - 1);
            proof {
                assert(rest == (mant as int) % step) by (nonlinear_arith)
                    requires
                        mant == step * whole + (mant as int) % step,
                        rest == mant - whole * step,
                ;
                assert(step == 2 * half);
                lemma_split_scales(
                    mant as int,
                    whole as int,
                    rest as int,
                    step,
                    power,
                );
            }
            assert(splits(
                bits,
                whole as int,
                if rest == 0 {
                    Fraction::Nothing
                } else if rest < half {
                    Fraction::BelowHalf
                } else {
                    Fraction::HalfOrMore
                },
            ));
            if rest == 0 {
                Some((whole, Fraction::Nothing))
            } else if rest < half {
                Some((whole, Fraction::BelowHalf))
            } else {
                Some((whole, Fraction::HalfOrMore))
            }
        }
    }
}

/// The least whole number not below the number that `bits` encodes, where
/// `bits` stands for a number and that whole number is a `usize`.
pub fn ceiling(bits: u64) -> (up: Option<usize>)
    ensures
        match up {
            Some(n) => finite(bits) && n == ceiling_of(bits),
            None => !finite(bits) || ceiling_of(bits) < 0 || ceiling_of(bits) > usize::MAX,
        },
{
    if !is_finite(bits) {
        return None;
    }
    proof {
        lemma_unit_positive();
    }
    let ghost weight = weight_of(bits);
    match whole_part(bits) {
        None => {
            proof {
                lemma_quotient_at_least(weight, unit(), 0x1_0000_0000_0000_0000);
                lemma_floor_negated(weight, unit());
            }
            None
        },
        Some((whole, rest)) => {
            proof {
                lemma_floor(weight, unit(), whole as int);
                if rest is Nothing {
                    assert((-(whole as int)) * unit() == -weight) by (nonlinear_arith)
                        requires
                            weight == whole * unit(),
                    ;
                    assert((-(whole as int) + 1) * unit() == -weight + unit()) by (nonlinear_arith)
                        requires
                            weight == whole * unit(),
                    ;
                    lemma_floor(-weight, unit(), -(whole as int));
                } else {
                    assert((-(whole as int) - 1) * unit() == -((whole + 1) * unit()))
                        by (nonlinear_arith);
                    assert((-(whole as int) - 1 + 1) * unit() == -(whole * unit()))
                        by (nonlinear_arith);
                    lemma_floor(-weight, unit(), -(whole as int) - 1);
                }
            }
            if bits >= SIGN_BIT {
                if whole == 0 {
                    Some(0)
                } else {
                    None
                }
            } else {
                let up = match rest {
                    Fraction::Nothing => Some(whole),
                    _ => whole.checked_add(1),
                };
                match up {
                    Some(n) => if n <= usize::MAX as u64 {
                        Some(n as usize)
                    } else {
                        None
                    },
                    None => None,
                }
            }
        },
    }
}

/// The whole number nearest to the number that `bits` encodes, halfway cases
/// away from zero, where `bits` stands for a number and that whole number is
/// an `i64`.
pub fn nearest(bits: u64) -> (near: Option<i64>)
    ensures
        match near {
            Some(n) => finite(bits) && n == nearest_of(bits),
            None => !finite(bits) || nearest_of(bits) < i64::MIN || nearest_of(bits) > i64::MAX,
        },
{
    if !is_finite(bits) {
        return None;
    }
    proof {
        lemma_unit_positive();
    }
    let ghost weight = weight_of(bits);
    match whole_part(bits) {
        None => {
            proof {
                assert(2 * weight + unit() >= 0x1_0000_0000_0000_0000 * (2 * unit()))
                    by (nonlinear_arith)
                    requires
                        weight >= 0x1_0000_0000_0000_0000 * unit(),
                        unit() > 0,
                ;
                lemma_quotient_at_least(2 * weight + unit(), 2 * unit(), 0x1_0000_0000_0000_0000);
            }
            None
        },
        Some((whole, rest)) => {
            let ghost away: int = if rest is HalfOrMore {
                whole + 1
            } else {
                whole as int
            };
            proof {
                assert(away * (2 * unit()) <= 2 * weight + unit() < (away + 1) * (2 * unit()))
                    by (nonlinear_arith)
                    requires
                        whole * unit() <= weight < (whole + 1) * unit(),
                        rest is HalfOrMore <==> 2 * weight >= (2 * whole + 1) * unit(),
                        away == (if rest is HalfOrMore {
                            whole + 1
                        } else {
                            whole as int
                        }),
                        unit() > 0,
                ;
                lemma_floor(2 * weight + unit(), 2 * unit(), away);
            }
            let bumped = match rest {
                Fraction::HalfOrMore => whole.checked_add(1),
                _ => Some(whole),
            };
            match bumped {
                None => None,
                Some(k) => if bits >= SIGN_BIT {
                    if k < 0x8000_0000_0000_0000 {
                        Some(-(k as i64))
                    } else if k == 0x8000_0000_0000_0000 {
                        Some(i64::MIN)
                    } else {
                        None
                    }
                } else {
                    if k < 0x8000_0000_0000_0000 {
                        Some(k as i64)
                    } else {
                        None
                    }
                },
            }
        },
    }
}

/// The whole pixel that the sample `bits` falls on, see [`pixel_of`].
pub fn to_pixel(bits: u64) -> (pixel: i64)
    ensures
        pixel == pixel_of(bits),
{
    match nearest(bits) {
        Some(n) => n,
        None => OFF_GRID,
    }
}

/// The ceiling is the least whole number not below the number: it is not
/// below it, and the whole number before it is.
pub proof fn lemma_ceiling_is_least(bits: u64)
    requires
        finite(bits),
    ensures
        (ceiling_of(bits) - 1) * unit() < scaled(bits) <= ceiling_of(bits) * unit(),
{
    lemma_unit_positive();
    let x = -scaled(bits);
    vstd::arithmetic::div_mod::lemma_fundamental_div_mod(x, unit());
    vstd::arithmetic::div_mod::lemma_mod_bound(x, unit());
    let q = x / unit();
    assert((-q - 1) * unit() < -x <= (-q) * unit()) by (nonlinear_arith)
        requires
            x == unit() * q + x % unit(),
            0 <= x % unit() < unit(),
    ;
}

/// The nearest whole number is at most a half away from the number, and a
/// number halfway between two whole numbers goes to the one farther from
/// zero.
pub proof fn lemma_nearest_is_nearest(bits: u64)
    requires
        finite(bits),
    ensures
        !sign_of(bits) ==> -unit() < 2 * (nearest_of(bits) * unit() - scaled(bits)) <= unit(),
        sign_of(bits) ==> -unit() <= 2 * (nearest_of(bits) * unit() - scaled(bits)) < unit(),
{
    lemma_unit_positive();
    let x = 2 * weight_of(bits) + unit();
    let d = 2 * unit();
    vstd::arithmetic::div_mod::lemma_fundamental_div_mod(x, d);
    vstd::arithmetic::div_mod::lemma_mod_bound(x, d);
    let k = x / d;
    assert(-unit() < 2 * (k * unit() - weight_of(bits)) <= unit()) by (nonlinear_arith)
        requires
            2 * weight_of(bits) + unit() == (2 * unit()) * k + x % d,
            0 <= x % d < 2 * unit(),
    ;
    assert((-k) * unit() == -(k * unit())) by (nonlinear_arith);
}

/// A dividend between `q * d` and `(q + 1) * d` has quotient `q`.
proof fn lemma_floor(x: int, d: int, q: int)
    requires
        0 < d,
        q * d <= x < (q + 1) * d,
    ensures
        x / d == q,
{
    assert((q + 1) * d == q * d + d) by (nonlinear_arith);
    lemma_fundamental_div_mod_converse(x, d, q, x - q * d);
}

/// A dividend of at least `q * d` has a quotient of at least `q`.
proof fn lemma_quotient_at_least(x: int, d: int, q: int)
    requires
        0 < d,
        q * d <= x,
    ensures
        x / d >= q,
{
    vstd::arithmetic::div_mod::lemma_fundamental_div_mod(x, d);
    vstd::arithmetic::div_mod::lemma_mod_bound(x, d);
    assert(x / d >= q) by (nonlinear_arith)
        requires
            x == d * (x / d) + x % d,
            0 <= x % d < d,
            q * d <= x,
            0 < d,
    ;
}

/// The quotient of a negated dividend is at most the negated quotient.
proof fn lemma_floor_negated(x: int, d: int)
    requires
        0 < d,
    ensures
        (-x) / d <= -(x / d),
        (-x) / d >= -(x / d) - 1,
{
    vstd::arithmetic::div_mod::lemma_fundamental_div_mod(x, d);
    vstd::arithmetic::div_mod::lemma_mod_bound(x, d);
    vstd::arithmetic::div_mod::lemma_fundamental_div_mod(-x, d);
    vstd::arithmetic::div_mod::lemma_mod_bound(-x, d);
    let a = x / d;
    let b = (-x) / d;
    assert(b <= -a && b >= -a - 1) by (nonlinear_arith)
        requires
            x == d * a + x % d,
            -x == d * b + (-x) % d,
            0 <= x % d < d,
            0 <= (-x) % d < d,
            0 < d,
    ;
}

/// The unit is positive.
pub proof fn lemma_unit_positive()
    ensures
        unit() > 0,
{
    lemma_pow2_pos(1075);
}

/// A mantissa split as `whole * step + rest` is split in the same way after
/// both sides are multiplied by `power`.
proof fn lemma_split_scales(mant: int, whole: int, rest: int, step: int, power: int)
    requires
        mant == whole * step + rest,
        0 <= rest < step,
        0 < power,
    ensures
        whole * (step * power) <= mant * power < (whole + 1) * (step * power),
        rest == 0 <==> mant * power == whole * (step * power),
        2 * rest >= step <==> 2 * (mant * power) >= (2 * whole + 1) * (step * power),
{
    assert(mant * power == whole * (step * power) + rest * power) by (nonlinear_arith)
        requires
            mant == whole * step + rest,
    ;
    assert((whole + 1) * (step * power) == whole * (step * power) + step * power)
        by (nonlinear_arith);
    assert((2 * whole + 1) * (step * power) == 2 * (whole * (step * power)) + step * power)
        by (nonlinear_arith);
    assert(0 <= rest * power < step * power) by (nonlinear_arith)
        requires
            0 <= rest < step,
            0 < power,
    ;
    assert(rest == 0 <==> rest * power == 0) by (nonlinear_arith)
        requires
            0 <= rest,
            0 < power,
    ;
    assert(2 * rest >= step <==> 2 * (rest * power) >= step * power) by (nonlinear_arith)
        requires
            0 < power,
    ;
}

} // verus!
