//! Tolerance predicates and the guarded inverse.
//!
//! `near` and `near2` compare two scalars up to the linear and quadratic
//! tolerances; `so_small` tests a scalar against the linear tolerance; and
//! `inv_or_zero` is the only guard the kernel ever places in front of a
//! denominator that could vanish.

use vstd::prelude::*;
use crate::scalar::{
    abs_bits, add_bits, sub_bits, mul_bits, div_bits, le_bits, lt_bits,
    ONE_BITS, TOL_BITS, TOL2_BITS,
};
use crate::scalar;

verus! {

/// `|x| <= TOL` on bit patterns; false on NaN.
pub open spec fn so_small_bits(x: u64) -> bool {
    le_bits(abs_bits(x), TOL_BITS)
}

/// The larger of `1`, `|a|` and `|b|` in the IEEE-754 order.
pub open spec fn near_scale(a: u64, b: u64) -> u64 {
    let m0 = if lt_bits(ONE_BITS, abs_bits(a)) {
        abs_bits(a)
    } else {
        ONE_BITS
    };
    if lt_bits(m0, abs_bits(b)) {
        abs_bits(b)
    } else {
        m0
    }
}

/// `|a - b| <= tol * max(1, |a|, |b|)` computed in rounded binary64
/// arithmetic on bit patterns.
pub open spec fn near_gen(a: u64, b: u64, tol: u64) -> bool {
    le_bits(abs_bits(sub_bits(a, b)), mul_bits(tol, near_scale(a, b)))
}

/// Nearness up to the linear tolerance.
pub open spec fn near_bits(a: u64, b: u64) -> bool {
    near_gen(a, b, TOL_BITS)
}

/// Nearness up to the quadratic tolerance.
pub open spec fn near2_bits(a: u64, b: u64) -> bool {
    near_gen(a, b, TOL2_BITS)
}

/// `0` when `|x| <= TOL`, the rounded reciprocal of `x` otherwise.
pub open spec fn inv_or_zero_bits(x: u64) -> u64 {
    if so_small_bits(x) {
        0u64
    } else {
        div_bits(ONE_BITS, x)
    }
}

/// Tests `|x| <= TOL`.
pub fn so_small(x: u64) -> (r: bool)
    ensures
        r == so_small_bits(x),
{
    let m = scalar::abs(x);
    scalar::le(m, TOL_BITS)
}

/// Decides `near_gen(a, b, tol)`.
fn near_with(a: u64, b: u64, tol: u64) -> (r: bool)
    ensures
        r == near_gen(a, b, tol),
{
    let d = scalar::abs(scalar::fsub(a, b));
    let aa = scalar::abs(a);
    let ab = scalar::abs(b);
    let m0 = if scalar::lt(ONE_BITS, aa) { aa } else { ONE_BITS };
    let m1 = if scalar::lt(m0, ab) { ab } else { m0 };
    scalar::le(d, scalar::fmul(tol, m1))
}

/// Tests nearness up to the linear tolerance.
pub fn near(a: u64, b: u64) -> (r: bool)
    ensures
        r == near_bits(a, b),
{
    near_with(a, b, TOL_BITS)
}

/// Tests nearness up to the quadratic tolerance.
pub fn near2(a: u64, b: u64) -> (r: bool)
    ensures
        r == near2_bits(a, b),
{
    near_with(a, b, TOL2_BITS)
}

/// The guarded inverse: zero under the linear tolerance, `1/x` otherwise.
pub fn inv_or_zero(x: u64) -> (r: u64)
    ensures
        r == inv_or_zero_bits(x),
{
    if so_small(x) {
        0u64
    } else {
        scalar::fdiv(ONE_BITS, x)
    }
}

} // verus!
