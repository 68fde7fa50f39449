//! Fixed-point scalar arithmetic.
//!
//! Scalars are Q47.16 fixed-point numbers: an `i64` holding `value * 65536`.
//! Every operation is total; results outside the `i64` range saturate, which
//! plays the role that infinities play for floating-point callers.
//! Multiplication and division truncate toward zero.

use vstd::prelude::*;

verus! {

/// The fixed-point scale: `1.0` is represented by this many units.
pub const FX_SCALE: i64 = 65536;

/// `1.0` in fixed point.
pub const FX_ONE: i64 = 65536;

/// Pi in fixed point (`round(pi * 65536)`).
pub const FX_PI: i64 = 205887;

/// One degree in radians, in fixed point (`round(pi / 180 * 65536)`).
pub const FX_RAD_PER_DEG: i64 = 1144;

/// Absolute value of a mathematical integer.
pub open spec fn iabs(x: int) -> int {
    if x < 0 {
        -x
    } else {
        x
    }
}

/// Saturation of a mathematical integer to the `i64` range.
pub open spec fn sat64(x: int) -> int {
    if x > i64::MAX {
        i64::MAX as int
    } else if x < i64::MIN {
        i64::MIN as int
    } else {
        x
    }
}

/// Division truncating toward zero, as machine division does.
pub open spec fn div_trunc(x: int, d: int) -> int
    recommends
        d != 0,
{
    let q = iabs(x) / iabs(d);
    if (x < 0) == (d < 0) {
        q
    } else {
        -q
    }
}

/// Fixed-point addition, saturating.
pub open spec fn fx_add_s(a: int, b: int) -> int {
    sat64(a + b)
}

/// Fixed-point subtraction, saturating.
pub open spec fn fx_sub_s(a: int, b: int) -> int {
    sat64(a - b)
}

/// Fixed-point negation, saturating.
pub open spec fn fx_neg_s(a: int) -> int {
    sat64(-a)
}

/// Fixed-point multiplication: truncating rescale of the exact product,
/// then saturation.
pub open spec fn fx_mul_s(a: int, b: int) -> int {
    sat64(div_trunc(a * b, FX_SCALE as int))
}

/// Fixed-point division. Division by zero saturates by the sign of the
/// dividend, standing in for the infinities of floating point.
pub open spec fn fx_div_s(a: int, b: int) -> int {
    if b == 0 {
        if a >= 0 {
            i64::MAX as int
        } else {
            i64::MIN as int
        }
    } else {
        sat64(div_trunc(a * (FX_SCALE as int), b))
    }
}

/// Division of a fixed-point value by a small positive integer count
/// (not itself in fixed point), truncating toward zero.
pub open spec fn fx_divi_s(a: int, d: int) -> int
    recommends
        d > 0,
{
    sat64(div_trunc(a, d))
}

/// Saturates an `i128` intermediate into the `i64` range.
fn clamp64(x: i128) -> (r: i64)
    ensures
        r as int == sat64(x as int),
{
    if x > i64::MAX as i128 {
        i64::MAX
    } else if x < i64::MIN as i128 {
        i64::MIN
    } else {
        x as i64
    }
}

/// Magnitude of an `i128` as a `u128`.
fn mag128(x: i128) -> (r: u128)
    requires
        x != i128::MIN,
    ensures
        r as int == iabs(x as int),
{
    if x >= 0 {
        x as u128
    } else {
        (-x) as u128
    }
}

/// Saturating fixed-point addition.
pub fn fx_add(a: i64, b: i64) -> (r: i64)
    ensures
        r as int == fx_add_s(a as int, b as int),
{
    clamp64((a as i128) + (b as i128))
}

/// Saturating fixed-point subtraction.
pub fn fx_sub(a: i64, b: i64) -> (r: i64)
    ensures
        r as int == fx_sub_s(a as int, b as int),
{
    clamp64((a as i128) - (b as i128))
}

/// Saturating fixed-point negation.
pub fn fx_neg(a: i64) -> (r: i64)
    ensures
        r as int == fx_neg_s(a as int),
{
    clamp64(-(a as i128))
}

/// Fixed-point multiplication: exact product in `i128`, truncating rescale,
/// saturation to `i64`.
pub fn fx_mul(a: i64, b: i64) -> (r: i64)
    ensures
        r as int == fx_mul_s(a as int, b as int),
{
    proof {
        assert((a as int) * (b as int) <= 0x4000_0000_0000_0000_0000_0000_0000_0000int
            && (a as int) * (b as int) >= -0x4000_0000_0000_0000_0000_0000_0000_0000int)
            by (nonlinear_arith)
            requires
                -0x8000_0000_0000_0000int <= a as int <= 0x7FFF_FFFF_FFFF_FFFFint,
                -0x8000_0000_0000_0000int <= b as int <= 0x7FFF_FFFF_FFFF_FFFFint,
        ;
    }
    let p: i128 = (a as i128) * (b as i128);
    let m: u128 = mag128(p);
    let qm: u128 = m / 65536;
    proof {
        assert(qm <= m) by (nonlinear_arith)
            requires
                qm == m / 65536,
        ;
    }
    let q: i128 = if p < 0 {
        -(qm as i128)
    } else {
        qm as i128
    };
    clamp64(q)
}

/// Fixed-point division; division by zero saturates by the dividend's sign.
pub fn fx_div(a: i64, b: i64) -> (r: i64)
    ensures
        r as int == fx_div_s(a as int, b as int),
{
    if b == 0 {
        if a >= 0 {
            i64::MAX
        } else {
            i64::MIN
        }
    } else {
        let n: i128 = (a as i128) * 65536;
        let mn: u128 = mag128(n);
        let mb: u128 = mag128(b as i128);
        let qm: u128 = mn / mb;
        proof {
            assert(qm <= mn) by (nonlinear_arith)
                requires
                    qm == mn / mb,
                    mb >= 1,
            ;
        }
        let neg = (a < 0) != (b < 0);
        let q: i128 = if neg {
            -(qm as i128)
        } else {
            qm as i128
        };
        clamp64(q)
    }
}

/// Division of a fixed-point value by a small positive integer count,
/// truncating toward zero.
pub fn fx_divi(a: i64, d: i64) -> (r: i64)
    requires
        d > 0,
    ensures
        r as int == fx_divi_s(a as int, d as int),
{
    let ma: u128 = mag128(a as i128);
    let qm: u128 = ma / (d as u128);
    proof {
        assert(qm <= ma) by (nonlinear_arith)
            requires
                qm == ma / (d as u128),
                d >= 1,
        ;
    }
    let q: i128 = if a < 0 {
        -(qm as i128)
    } else {
        qm as i128
    };
    clamp64(q)
}

/// Sine by a degree-7 Taylor polynomial evaluated in fixed point:
/// `x - x^3/6 + x^5/120 - x^7/5040`, each step truncating and saturating.
pub open spec fn sin_s(x: int) -> int {
    let x2 = fx_mul_s(x, x);
    let x3 = fx_mul_s(x2, x);
    let x5 = fx_mul_s(x3, x2);
    let x7 = fx_mul_s(x5, x2);
    fx_sub_s(fx_add_s(fx_sub_s(x, fx_divi_s(x3, 6)), fx_divi_s(x5, 120)), fx_divi_s(x7, 5040))
}

/// Cosine by a degree-6 Taylor polynomial evaluated in fixed point:
/// `1 - x^2/2 + x^4/24 - x^6/720`, each step truncating and saturating.
pub open spec fn cos_s(x: int) -> int {
    let x2 = fx_mul_s(x, x);
    let x4 = fx_mul_s(x2, x2);
    let x6 = fx_mul_s(x4, x2);
    fx_sub_s(fx_add_s(fx_sub_s(FX_ONE as int, fx_divi_s(x2, 2)), fx_divi_s(x4, 24)), fx_divi_s(
        x6,
        720,
    ))
}

/// Tangent as the quotient of the sine and cosine polynomials; saturates
/// where the cosine polynomial is zero.
pub open spec fn tan_s(x: int) -> int {
    fx_div_s(sin_s(x), cos_s(x))
}

/// Degrees to radians in fixed point.
pub open spec fn deg_to_rad_s(deg: int) -> int {
    fx_mul_s(deg, FX_RAD_PER_DEG as int)
}

/// Fixed-point sine (Taylor polynomial; accurate for arguments within
/// about a half turn of zero, saturating garbage far outside it, as the
/// underlying polynomial is).
pub fn sin_fx(x: i64) -> (r: i64)
    ensures
        r as int == sin_s(x as int),
{
    let x2 = fx_mul(x, x);
    let x3 = fx_mul(x2, x);
    let x5 = fx_mul(x3, x2);
    let x7 = fx_mul(x5, x2);
    fx_sub(fx_add(fx_sub(x, fx_divi(x3, 6)), fx_divi(x5, 120)), fx_divi(x7, 5040))
}

/// Fixed-point cosine (Taylor polynomial).
pub fn cos_fx(x: i64) -> (r: i64)
    ensures
        r as int == cos_s(x as int),
{
    let x2 = fx_mul(x, x);
    let x4 = fx_mul(x2, x2);
    let x6 = fx_mul(x4, x2);
    fx_sub(fx_add(fx_sub(FX_ONE, fx_divi(x2, 2)), fx_divi(x4, 24)), fx_divi(x6, 720))
}

/// Fixed-point tangent.
pub fn tan_fx(x: i64) -> (r: i64)
    ensures
        r as int == tan_s(x as int),
{
    fx_div(sin_fx(x), cos_fx(x))
}

/// Degrees to radians in fixed point.
pub fn deg_to_rad(deg: i64) -> (r: i64)
    ensures
        r as int == deg_to_rad_s(deg as int),
{
    fx_mul(deg, FX_RAD_PER_DEG)
}

} // verus!
