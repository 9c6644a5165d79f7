//! Scalars of the numeric tower: IEEE-754 double-precision values, carried as
//! their 64-bit patterns.  Structural operations (sign, absolute value,
//! ordering, the factorial domain test) are implemented and specified exactly
//! over the bits; rounding arithmetic is performed by outside software
//! implementations of the format behind named, trusted results.

use vstd::prelude::*;
use rustc_apfloat::Float;
use core::str::FromStr;

verus! {

/// Bit pattern of +0.0.
pub const ZERO_BITS: u64 = 0;

/// Bit pattern of 1.0.
pub const ONE_BITS: u64 = 0x3FF0_0000_0000_0000;

/// Bit pattern of the constant pi.
pub const PI_BITS: u64 = 0x4009_21FB_5444_2D18;

/// Bit pattern of Euler's number e.
pub const E_BITS: u64 = 0x4005_BF0A_8B14_5769;

/// Bit pattern of the divisor guard 1e-7: a divisor or modulus whose
/// magnitude is at most this is treated as zero by the evaluator.
pub const DELTA_BITS: u64 = 0x3E7A_D7F2_9ABC_AF48;

/// Bit pattern of positive infinity.
pub const INF_BITS: u64 = 0x7FF0_0000_0000_0000;

/// Bit pattern of negative infinity.
pub const NEG_INF_BITS: u64 = 0xFFF0_0000_0000_0000;

/// Bit pattern of the quiet NaN that literal parsing produces.
pub const NAN_BITS: u64 = 0x7FF8_0000_0000_0000;

/// Bit pattern of the quiet NaN with its sign bit set.
pub const NEG_NAN_BITS: u64 = 0xFFF8_0000_0000_0000;

/// The value is a NaN: all exponent bits set and a nonzero fraction.
pub open spec fn is_nan_bits(a: u64) -> bool {
    (a >> 52) & 0x7FF == 0x7FF && a & 0xF_FFFF_FFFF_FFFF != 0
}

/// Absolute value: the sign bit cleared.
pub open spec fn abs_bits(a: u64) -> u64 {
    a & 0x7FFF_FFFF_FFFF_FFFF
}

/// Negation: the sign bit flipped.
pub open spec fn neg_bits(a: u64) -> u64 {
    a ^ 0x8000_0000_0000_0000
}

/// A key that orders non-NaN doubles as the format does: negative values
/// map below the positives, both zeros meet at the midpoint 2^63.
pub open spec fn order_key(a: u64) -> u64 {
    if a >> 63 == 1 {
        (0x8000_0000_0000_0000 - abs_bits(a)) as u64
    } else {
        (0x8000_0000_0000_0000 + a) as u64
    }
}

/// IEEE `<`: false when either side is NaN.
pub open spec fn lt_bits(a: u64, b: u64) -> bool {
    !is_nan_bits(a) && !is_nan_bits(b) && order_key(a) < order_key(b)
}

/// IEEE `==`: false for NaN, true for the two zeros.
pub open spec fn eq_bits(a: u64, b: u64) -> bool {
    !is_nan_bits(a) && !is_nan_bits(b) && order_key(a) == order_key(b)
}

pub fn scalar_is_nan(a: u64) -> (r: bool)
    ensures
        r == is_nan_bits(a),
{
    (a >> 52) & 0x7FF == 0x7FF && a & 0xF_FFFF_FFFF_FFFF != 0
}

pub fn scalar_abs(a: u64) -> (r: u64)
    ensures
        r == abs_bits(a),
{
    a & 0x7FFF_FFFF_FFFF_FFFF
}

pub fn scalar_neg(a: u64) -> (r: u64)
    ensures
        r == neg_bits(a),
{
    a ^ 0x8000_0000_0000_0000
}

fn exec_order_key(a: u64) -> (r: u64)
    ensures
        r == order_key(a),
{
    if a >> 63 == 1 {
        proof {
            assert(a & 0x7FFF_FFFF_FFFF_FFFF <= 0x8000_0000_0000_0000) by (bit_vector);
        }
        0x8000_0000_0000_0000 - (a & 0x7FFF_FFFF_FFFF_FFFF)
    } else {
        proof {
            assert(a >> 63 != 1 ==> a <= 0x7FFF_FFFF_FFFF_FFFF) by (bit_vector);
        }
        0x8000_0000_0000_0000 + a
    }
}

pub fn scalar_lt(a: u64, b: u64) -> (r: bool)
    ensures
        r == lt_bits(a, b),
{
    if scalar_is_nan(a) || scalar_is_nan(b) {
        false
    } else {
        exec_order_key(a) < exec_order_key(b)
    }
}

pub fn scalar_eq(a: u64, b: u64) -> (r: bool)
    ensures
        r == eq_bits(a, b),
{
    if scalar_is_nan(a) || scalar_is_nan(b) {
        false
    } else {
        exec_order_key(a) == exec_order_key(b)
    }
}

/// The factorial operand encoded by `b`, when the factorial is defined of
/// it: a non-negative integral double no greater than 25.  `None` for every
/// NaN, infinite, negative, fractional or larger value.
pub open spec fn fac_operand_bits(b: u64) -> Option<u64> {
    if abs_bits(b) == 0 {
        Some(0u64)
    } else if b >> 63 == 1 {
        None
    } else {
        let e = (b >> 52) & 0x7FF;
        let m = b & 0xF_FFFF_FFFF_FFFF;
        if e < 1023 || e > 1027 {
            None
        } else {
            let shift = (1075 - e) as u64;
            if (m >> shift) << shift != m {
                None
            } else {
                let n = (0x10_0000_0000_0000u64 | m) >> shift;
                if n > 25 {
                    None
                } else {
                    Some(n)
                }
            }
        }
    }
}

/// Extracts the factorial operand from a bit pattern, as
/// `fac_operand_bits` describes.
pub fn scalar_fac_operand(b: u64) -> (r: Option<u64>)
    ensures
        r == fac_operand_bits(b),
{
    if b & 0x7FFF_FFFF_FFFF_FFFF == 0 {
        Some(0)
    } else if b >> 63 == 1 {
        None
    } else {
        let e = (b >> 52) & 0x7FF;
        let m = b & 0xF_FFFF_FFFF_FFFF;
        if e < 1023 || e > 1027 {
            None
        } else {
            let shift = 1075 - e;
            if (m >> shift) << shift != m {
                None
            } else {
                let n = (0x10_0000_0000_0000u64 | m) >> shift;
                if n > 25 {
                    None
                } else {
                    Some(n)
                }
            }
        }
    }
}

/// The double encoding of a small positive integer `n` (at most 25).
pub open spec fn small_int_bits(n: u64) -> u64
    recommends
        1 <= n <= 25,
{
    let e: u64 = if n < 2 {
        0
    } else if n < 4 {
        1
    } else if n < 8 {
        2
    } else if n < 16 {
        3
    } else {
        4
    };
    (((1023 + e) as u64) << 52) | ((n << ((52 - e) as u64)) & 0xF_FFFF_FFFF_FFFF)
}

fn exec_small_int_bits(n: u64) -> (r: u64)
    requires
        1 <= n <= 25,
    ensures
        r == small_int_bits(n),
{
    let e: u64 = if n < 2 {
        0
    } else if n < 4 {
        1
    } else if n < 8 {
        2
    } else if n < 16 {
        3
    } else {
        4
    };
    ((1023 + e) << 52) | ((n << (52 - e)) & 0xF_FFFF_FFFF_FFFF)
}

/// The factorial accumulation `acc * k * (k-1) * ... * 1`, each product
/// rounded as the doubles are.
pub open spec fn fac_from_bits(acc: u64, k: u64) -> u64
    decreases k,
{
    if k == 0 {
        acc
    } else {
        fac_from_bits(mul_bits(acc, small_int_bits(k)), (k - 1) as u64)
    }
}

/// The factorial of `n` under float accumulation, starting from 1.0 and
/// multiplying the factors downward, as the evaluator computes it.
pub open spec fn fac_bits(n: u64) -> u64 {
    fac_from_bits(ONE_BITS, n)
}

/// Computes the factorial of a small integer by repeated double
/// multiplication, highest factor first.
pub fn scalar_fac(n: u64) -> (r: u64)
    requires
        n <= 25,
    ensures
        r == fac_bits(n),
{
    let mut acc: u64 = ONE_BITS;
    let mut counter: u64 = n;
    while counter > 0
        invariant
            counter <= 25,
            fac_from_bits(acc, counter) == fac_bits(n),
        decreases counter,
    {
        acc = scalar_mul(acc, exec_small_int_bits(counter));
        counter = counter - 1;
    }
    acc
}

/// The sum of the doubles with bit patterns `a` and `b`, rounded to nearest.
pub uninterp spec fn add_bits(a: u64, b: u64) -> u64;

/// The difference of the doubles with bit patterns `a` and `b`.
pub uninterp spec fn sub_bits(a: u64, b: u64) -> u64;

/// The product of the doubles with bit patterns `a` and `b`.
pub uninterp spec fn mul_bits(a: u64, b: u64) -> u64;

/// The quotient of the doubles with bit patterns `a` and `b`.
pub uninterp spec fn div_bits(a: u64, b: u64) -> u64;

/// The floating remainder (sign follows the dividend) of the doubles `a`, `b`.
pub uninterp spec fn rem_bits(a: u64, b: u64) -> u64;

/// `a` raised to the power `b`, as doubles.
pub uninterp spec fn pow_bits(a: u64, b: u64) -> u64;

/// The exponential of the double with bit pattern `a`.
pub uninterp spec fn exp_bits(a: u64) -> u64;

/// The sine of the double with bit pattern `a`.
pub uninterp spec fn sin_bits(a: u64) -> u64;

/// The cosine of the double with bit pattern `a`.
pub uninterp spec fn cos_bits(a: u64) -> u64;

/// The square root of the double with bit pattern `a`.
pub uninterp spec fn sqrt_bits(a: u64) -> u64;

/// Relies on rustc_apfloat's `Double`: software IEEE-754 addition,
/// round to nearest, ties to even; addition of non-NaN values is symmetric.
#[verifier::external_body]
pub(crate) fn scalar_add(a: u64, b: u64) -> (r: u64)
    ensures
        r == add_bits(a, b),
        !is_nan_bits(a) && !is_nan_bits(b) ==> r == add_bits(b, a),
{
    let x = rustc_apfloat::ieee::Double::from_bits(a as u128);
    let y = rustc_apfloat::ieee::Double::from_bits(b as u128);
    (x + y).value.to_bits() as u64
}

/// Relies on rustc_apfloat's `Double`: software IEEE-754 subtraction.
#[verifier::external_body]
pub(crate) fn scalar_sub(a: u64, b: u64) -> (r: u64)
    ensures
        r == sub_bits(a, b),
{
    let x = rustc_apfloat::ieee::Double::from_bits(a as u128);
    let y = rustc_apfloat::ieee::Double::from_bits(b as u128);
    (x - y).value.to_bits() as u64
}

/// Relies on rustc_apfloat's `Double`: software IEEE-754 multiplication;
/// multiplication of non-NaN values is symmetric.
#[verifier::external_body]
pub(crate) fn scalar_mul(a: u64, b: u64) -> (r: u64)
    ensures
        r == mul_bits(a, b),
        !is_nan_bits(a) && !is_nan_bits(b) ==> r == mul_bits(b, a),
{
    let x = rustc_apfloat::ieee::Double::from_bits(a as u128);
    let y = rustc_apfloat::ieee::Double::from_bits(b as u128);
    (x * y).value.to_bits() as u64
}

/// Relies on rustc_apfloat's `Double`: software IEEE-754 division.
#[verifier::external_body]
pub(crate) fn scalar_div(a: u64, b: u64) -> (r: u64)
    ensures
        r == div_bits(a, b),
{
    let x = rustc_apfloat::ieee::Double::from_bits(a as u128);
    let y = rustc_apfloat::ieee::Double::from_bits(b as u128);
    (x / y).value.to_bits() as u64
}

/// Relies on rustc_apfloat's `c_fmod` (through `%`): the floating remainder
/// with the sign of the dividend, as Rust's `%` computes it.
#[verifier::external_body]
pub(crate) fn scalar_rem(a: u64, b: u64) -> (r: u64)
    ensures
        r == rem_bits(a, b),
{
    let x = rustc_apfloat::ieee::Double::from_bits(a as u128);
    let y = rustc_apfloat::ieee::Double::from_bits(b as u128);
    (x % y).value.to_bits() as u64
}

/// Relies on num-bigfloat's `pow` (40 decimal digits of working precision)
/// and on rustc_apfloat's decimal printing and parsing to move between the
/// bit pattern and the decimal form; the result depends on the bits alone.
#[verifier::external_body]
pub(crate) fn scalar_pow(a: u64, b: u64) -> (r: u64)
    ensures
        r == pow_bits(a, b),
{
    let x = rustc_apfloat::ieee::Double::from_bits(a as u128);
    let y = rustc_apfloat::ieee::Double::from_bits(b as u128);
    let bx = num_bigfloat::BigFloat::from_str(&format!("{}", x)).unwrap_or(num_bigfloat::NAN);
    let by = num_bigfloat::BigFloat::from_str(&format!("{}", y)).unwrap_or(num_bigfloat::NAN);
    let v = bx.pow(&by);
    if v.is_nan() { return 0x7FF8_0000_0000_0000 }
    if v.is_inf_pos() { return 0x7FF0_0000_0000_0000 }
    if v.is_inf_neg() { return 0xFFF0_0000_0000_0000 }
    match rustc_apfloat::ieee::Double::from_str(&format!("{}", v)) {
        Ok(d) => d.to_bits() as u64,
        Err(_) => 0x7FF8_0000_0000_0000,
    }
}

/// Relies on num-bigfloat's `exp`, converting as `scalar_pow` does.
#[verifier::external_body]
pub(crate) fn scalar_exp(a: u64) -> (r: u64)
    ensures
        r == exp_bits(a),
{
    let x = rustc_apfloat::ieee::Double::from_bits(a as u128);
    let bx = num_bigfloat::BigFloat::from_str(&format!("{}", x)).unwrap_or(num_bigfloat::NAN);
    let v = bx.exp();
    if v.is_nan() { return 0x7FF8_0000_0000_0000 }
    if v.is_inf_pos() { return 0x7FF0_0000_0000_0000 }
    if v.is_inf_neg() { return 0xFFF0_0000_0000_0000 }
    match rustc_apfloat::ieee::Double::from_str(&format!("{}", v)) {
        Ok(d) => d.to_bits() as u64,
        Err(_) => 0x7FF8_0000_0000_0000,
    }
}

/// Relies on num-bigfloat's `sin`, converting as `scalar_pow` does.
#[verifier::external_body]
pub(crate) fn scalar_sin(a: u64) -> (r: u64)
    ensures
        r == sin_bits(a),
{
    let x = rustc_apfloat::ieee::Double::from_bits(a as u128);
    let bx = num_bigfloat::BigFloat::from_str(&format!("{}", x)).unwrap_or(num_bigfloat::NAN);
    let v = bx.sin();
    if v.is_nan() { return 0x7FF8_0000_0000_0000 }
    if v.is_inf_pos() { return 0x7FF0_0000_0000_0000 }
    if v.is_inf_neg() { return 0xFFF0_0000_0000_0000 }
    match rustc_apfloat::ieee::Double::from_str(&format!("{}", v)) {
        Ok(d) => d.to_bits() as u64,
        Err(_) => 0x7FF8_0000_0000_0000,
    }
}

/// Relies on num-bigfloat's `cos`, converting as `scalar_pow` does.
#[verifier::external_body]
pub(crate) fn scalar_cos(a: u64) -> (r: u64)
    ensures
        r == cos_bits(a),
{
    let x = rustc_apfloat::ieee::Double::from_bits(a as u128);
    let bx = num_bigfloat::BigFloat::from_str(&format!("{}", x)).unwrap_or(num_bigfloat::NAN);
    let v = bx.cos();
    if v.is_nan() { return 0x7FF8_0000_0000_0000 }
    if v.is_inf_pos() { return 0x7FF0_0000_0000_0000 }
    if v.is_inf_neg() { return 0xFFF0_0000_0000_0000 }
    match rustc_apfloat::ieee::Double::from_str(&format!("{}", v)) {
        Ok(d) => d.to_bits() as u64,
        Err(_) => 0x7FF8_0000_0000_0000,
    }
}

/// Relies on num-bigfloat's `sqrt`, converting as `scalar_pow` does.
#[verifier::external_body]
pub(crate) fn scalar_sqrt(a: u64) -> (r: u64)
    ensures
        r == sqrt_bits(a),
{
    let x = rustc_apfloat::ieee::Double::from_bits(a as u128);
    let bx = num_bigfloat::BigFloat::from_str(&format!("{}", x)).unwrap_or(num_bigfloat::NAN);
    let v = bx.sqrt();
    if v.is_nan() { return 0x7FF8_0000_0000_0000 }
    if v.is_inf_pos() { return 0x7FF0_0000_0000_0000 }
    if v.is_inf_neg() { return 0xFFF0_0000_0000_0000 }
    match rustc_apfloat::ieee::Double::from_str(&format!("{}", v)) {
        Ok(d) => d.to_bits() as u64,
        Err(_) => 0x7FF8_0000_0000_0000,
    }
}

} // verus!
