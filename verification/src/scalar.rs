//! Scalars are IEEE-754 binary64 values carried as their 64-bit patterns.
//!
//! Sign tests, magnitude extraction, NaN/finiteness tests and the numeric
//! order are plain integer logic on the bit pattern and are verified here.
//! The four rounding operations (addition, subtraction, multiplication,
//! division) and the integer conversion are delegated to a software
//! implementation of IEEE-754 arithmetic; their results are named by
//! uninterpreted spec functions.

use vstd::prelude::*;
use rustc_apfloat::Float;

verus! {

/// Bit mask of the sign bit of a binary64 value.
pub const SIGN_MASK: u64 = 0x8000_0000_0000_0000;

/// The fraction field occupies the low 52 bits.
pub const FRAC_MOD: u64 = 0x10_0000_0000_0000;

/// Bits of `1.0`.
pub const ONE_BITS: u64 = 0x3FF0_0000_0000_0000;

/// Bits of `0.5`.
pub const HALF_BITS: u64 = 0x3FE0_0000_0000_0000;

/// Bits of `2.0`.
pub const TWO_BITS: u64 = 0x4000_0000_0000_0000;

/// Bits of the linear tolerance `1.0e-7`.
pub const TOL_BITS: u64 = 0x3E7A_D7F2_9ABC_AF48;

/// Bits of the quadratic tolerance `1.0e-14`.
pub const TOL2_BITS: u64 = 0x3D06_849B_86A1_2B9B;

/// The sign bit of `a`.
pub open spec fn sign_of(a: u64) -> bool {
    a >= SIGN_MASK
}

/// The bit pattern of `a` with the sign bit cleared: exponent and fraction.
pub open spec fn mag_of(a: u64) -> u64 {
    if a >= SIGN_MASK {
        (a - SIGN_MASK) as u64
    } else {
        a
    }
}

/// The 11-bit biased exponent field of `a`.
pub open spec fn exp_of(a: u64) -> u64 {
    mag_of(a) / FRAC_MOD
}

/// The 52-bit fraction field of `a`.
pub open spec fn frac_of(a: u64) -> u64 {
    a % FRAC_MOD
}

/// `a` is a NaN pattern: exponent all ones, fraction non-zero.
pub open spec fn is_nan_bits(a: u64) -> bool {
    exp_of(a) == 0x7FF && frac_of(a) != 0
}

/// `a` is finite: neither an infinity nor a NaN.
pub open spec fn is_finite_bits(a: u64) -> bool {
    exp_of(a) != 0x7FF
}

/// Order key of a non-NaN pattern.  Non-negative values order by their
/// magnitude bits, negative values in reverse; both zeros map to 0, so the
/// key order is exactly the IEEE-754 comparison order on non-NaN values.
pub open spec fn key_of(a: u64) -> int {
    if sign_of(a) {
        -(mag_of(a) as int)
    } else {
        mag_of(a) as int
    }
}

/// IEEE-754 `a <= b` on bit patterns: false on NaN, key order otherwise.
pub open spec fn le_bits(a: u64, b: u64) -> bool {
    !is_nan_bits(a) && !is_nan_bits(b) && key_of(a) <= key_of(b)
}

/// IEEE-754 `a < b` on bit patterns.
pub open spec fn lt_bits(a: u64, b: u64) -> bool {
    !is_nan_bits(a) && !is_nan_bits(b) && key_of(a) < key_of(b)
}

/// IEEE-754 `a == b` on bit patterns; identifies the two zeros.
pub open spec fn eq_bits(a: u64, b: u64) -> bool {
    !is_nan_bits(a) && !is_nan_bits(b) && key_of(a) == key_of(b)
}

/// The bit pattern of `a` with the sign bit cleared: IEEE-754 `abs`.
pub open spec fn abs_bits(a: u64) -> u64 {
    mag_of(a)
}

/// The bit pattern of `a` with the sign bit flipped: IEEE-754 `negate`.
pub open spec fn neg_bits(a: u64) -> u64 {
    if a >= SIGN_MASK {
        (a - SIGN_MASK) as u64
    } else {
        (a + SIGN_MASK) as u64
    }
}

/// Tests whether `a` is a NaN pattern.
pub fn is_nan(a: u64) -> (r: bool)
    ensures
        r == is_nan_bits(a),
{
    let m: u64 = if a >= SIGN_MASK {
        a - SIGN_MASK
    } else {
        a
    };
    m / FRAC_MOD == 0x7FF && a % FRAC_MOD != 0
}

/// Tests whether `a` is finite.
pub fn is_finite(a: u64) -> (r: bool)
    ensures
        r == is_finite_bits(a),
{
    let m: u64 = if a >= SIGN_MASK {
        a - SIGN_MASK
    } else {
        a
    };
    m / FRAC_MOD != 0x7FF
}

/// IEEE-754 `a <= b` decided on the bit patterns.
pub fn le(a: u64, b: u64) -> (r: bool)
    ensures
        r == le_bits(a, b),
{
    if is_nan(a) || is_nan(b) {
        return false;
    }
    let sa = a >= SIGN_MASK;
    let sb = b >= SIGN_MASK;
    let ma: u64 = if sa { a - SIGN_MASK } else { a };
    let mb: u64 = if sb { b - SIGN_MASK } else { b };
    if sa && sb {
        mb <= ma
    } else if sa {
        true
    } else if sb {
        ma == 0 && mb == 0
    } else {
        ma <= mb
    }
}

/// IEEE-754 `a < b` decided on the bit patterns.
pub fn lt(a: u64, b: u64) -> (r: bool)
    ensures
        r == lt_bits(a, b),
{
    if is_nan(a) || is_nan(b) {
        return false;
    }
    let sa = a >= SIGN_MASK;
    let sb = b >= SIGN_MASK;
    let ma: u64 = if sa { a - SIGN_MASK } else { a };
    let mb: u64 = if sb { b - SIGN_MASK } else { b };
    if sa && sb {
        mb < ma
    } else if sa {
        !(ma == 0 && mb == 0)
    } else if sb {
        false
    } else {
        ma < mb
    }
}

/// IEEE-754 `a == b` decided on the bit patterns.
pub fn eq(a: u64, b: u64) -> (r: bool)
    ensures
        r == eq_bits(a, b),
{
    if is_nan(a) || is_nan(b) {
        return false;
    }
    let sa = a >= SIGN_MASK;
    let sb = b >= SIGN_MASK;
    let ma: u64 = if sa { a - SIGN_MASK } else { a };
    let mb: u64 = if sb { b - SIGN_MASK } else { b };
    if sa == sb {
        ma == mb
    } else {
        ma == 0 && mb == 0
    }
}

/// IEEE-754 `abs`: clears the sign bit.
pub fn abs(a: u64) -> (r: u64)
    ensures
        r == abs_bits(a),
{
    if a >= SIGN_MASK {
        a - SIGN_MASK
    } else {
        a
    }
}

/// IEEE-754 `negate`: flips the sign bit.
pub fn neg(a: u64) -> (r: u64)
    ensures
        r == neg_bits(a),
{
    if a >= SIGN_MASK {
        a - SIGN_MASK
    } else {
        a + SIGN_MASK
    }
}

/// The rounded IEEE-754 sum of the two patterns.
pub uninterp spec fn add_bits(a: u64, b: u64) -> u64;

/// The rounded IEEE-754 difference of the two patterns.
pub uninterp spec fn sub_bits(a: u64, b: u64) -> u64;

/// The rounded IEEE-754 product of the two patterns.
pub uninterp spec fn mul_bits(a: u64, b: u64) -> u64;

/// The rounded IEEE-754 quotient of the two patterns.
pub uninterp spec fn div_bits(a: u64, b: u64) -> u64;

/// The binary64 pattern nearest to the integer `n`.
pub uninterp spec fn int_bits(n: int) -> u64;

/// Relies on rustc_apfloat's binary64 addition (`ieee::Double::add_r`,
/// round to nearest, ties to even): the result depends on the operand
/// bits alone.  Adding positive zero returns the other operand
/// unchanged, except that a negative zero would become positive.
#[verifier::external_body]
pub(crate) fn fadd(a: u64, b: u64) -> (r: u64)
    ensures
        r == add_bits(a, b),
        a == 0u64 && !is_nan_bits(b) && b != SIGN_MASK ==> r == b,
{
    let x = rustc_apfloat::ieee::Double::from_bits(a as u128);
    let y = rustc_apfloat::ieee::Double::from_bits(b as u128);
    x.add_r(y, rustc_apfloat::Round::NearestTiesToEven).value.to_bits() as u64
}

/// Relies on rustc_apfloat's binary64 subtraction (`ieee::Double::sub_r`,
/// round to nearest, ties to even).  IEEE-754 subtraction of a finite
/// value from itself yields positive zero under this rounding, and
/// subtracting positive zero returns the other operand unchanged.
#[verifier::external_body]
pub(crate) fn fsub(a: u64, b: u64) -> (r: u64)
    ensures
        r == sub_bits(a, b),
        a == b && is_finite_bits(a) ==> r == 0u64,
        b == 0u64 && !is_nan_bits(a) ==> r == a,
{
    let x = rustc_apfloat::ieee::Double::from_bits(a as u128);
    let y = rustc_apfloat::ieee::Double::from_bits(b as u128);
    x.sub_r(y, rustc_apfloat::Round::NearestTiesToEven).value.to_bits() as u64
}

/// Relies on rustc_apfloat's binary64 multiplication (`ieee::Double::mul_r`,
/// round to nearest, ties to even).
#[verifier::external_body]
pub(crate) fn fmul(a: u64, b: u64) -> (r: u64)
    ensures
        r == mul_bits(a, b),
{
    let x = rustc_apfloat::ieee::Double::from_bits(a as u128);
    let y = rustc_apfloat::ieee::Double::from_bits(b as u128);
    x.mul_r(y, rustc_apfloat::Round::NearestTiesToEven).value.to_bits() as u64
}

/// Relies on rustc_apfloat's binary64 division (`ieee::Double::div_r`,
/// round to nearest, ties to even).  IEEE-754 division gives exactly one
/// for a finite non-zero value divided by itself, positive zero for
/// positive zero divided by a positive non-NaN value, and division by
/// one returns the dividend unchanged.
#[verifier::external_body]
pub(crate) fn fdiv(a: u64, b: u64) -> (r: u64)
    ensures
        r == div_bits(a, b),
        a == b && is_finite_bits(a) && key_of(a) != 0 ==> r == ONE_BITS,
        a == 0u64 && !is_nan_bits(b) && key_of(b) > 0 ==> r == 0u64,
        b == ONE_BITS && !is_nan_bits(a) ==> r == a,
{
    let x = rustc_apfloat::ieee::Double::from_bits(a as u128);
    let y = rustc_apfloat::ieee::Double::from_bits(b as u128);
    x.div_r(y, rustc_apfloat::Round::NearestTiesToEven).value.to_bits() as u64
}

/// Relies on rustc_apfloat's integer conversion (`ieee::Double::from_u128_r`,
/// round to nearest, ties to even): the result depends on the integer alone.
#[verifier::external_body]
pub(crate) fn from_int(n: usize) -> (r: u64)
    ensures
        r == int_bits(n as int),
{
    rustc_apfloat::ieee::Double::from_u128_r(
        n as u128,
        rustc_apfloat::Round::NearestTiesToEven,
    ).value.to_bits() as u64
}

/// One Newton step of the square-root iteration: `(x + a/x) / 2`.
pub open spec fn sqrt_step(a: u64, x: u64) -> u64 {
    mul_bits(add_bits(x, div_bits(a, x)), HALF_BITS)
}

/// `n` Newton steps of the square-root iteration starting at `x`.
pub open spec fn sqrt_iter(a: u64, x: u64, n: nat) -> u64
    decreases n,
{
    if n == 0 {
        x
    } else {
        sqrt_iter(a, sqrt_step(a, x), (n - 1) as nat)
    }
}

/// Initial square-root estimate: halving the bit pattern halves the
/// exponent, and the additive constant restores the bias.
pub open spec fn sqrt_seed(a: u64) -> u64 {
    (a / 2 + 0x1FF8_0000_0000_0000) as u64
}

/// The square root approximation computed by `sqrt`.
pub open spec fn sqrt_bits(a: u64) -> u64 {
    sqrt_iter(a, sqrt_seed(a), 8)
}

/// Newton's method for the square root on an exponent-halving seed; eight
/// steps bring the seed's few-percent error below one unit in the last
/// place for positive finite inputs.
pub fn sqrt(a: u64) -> (r: u64)
    ensures
        r == sqrt_bits(a),
{
    let mut x: u64 = a / 2 + 0x1FF8_0000_0000_0000;
    let mut i: usize = 0;
    while i < 8
        invariant
            i <= 8,
            sqrt_iter(a, x, (8 - i) as nat) == sqrt_bits(a),
        decreases 8 - i,
    {
        let q = fdiv(a, x);
        let s = fadd(x, q);
        x = fmul(s, HALF_BITS);
        i = i + 1;
    }
    x
}

} // verus!
