//! Binary32 arithmetic on bit patterns, delegated to `rustc_apfloat`'s
//! IEEE-754 implementation with round-to-nearest-even.  Each operation's
//! full result is named by an uninterpreted function; beside the name
//! stand only the short IEEE-754 facts that the distance laws need.

use vstd::prelude::*;
use crate::bits::{is_finite_bits, is_nan_bits, sign_field, flip_sign};

verus! {

/// The bit pattern of the binary32 sum of two bit patterns under
/// round-to-nearest-even.
pub uninterp spec fn add_of(a: u32, b: u32) -> u32;

/// The bit pattern of the binary32 difference of two bit patterns under
/// round-to-nearest-even.
pub uninterp spec fn sub_of(a: u32, b: u32) -> u32;

/// The bit pattern of the binary32 product of two bit patterns under
/// round-to-nearest-even.
pub uninterp spec fn mul_of(a: u32, b: u32) -> u32;

/// Relies on `rustc_apfloat::ieee::Single`'s `Add` (round-to-nearest-even).
/// The extra clauses are IEEE-754 facts: `+0.0 + +0.0` is `+0.0`, and a sum
/// of two non-negative non-NaN terms is non-negative and never NaN.
#[verifier::external_body]
pub(crate) fn add_bits(a: u32, b: u32) -> (r: u32)
    ensures
        r == add_of(a, b),
        a == 0 && b == 0 ==> r == 0,
        sign_field(a) == 0 && sign_field(b) == 0 && !is_nan_bits(a) && !is_nan_bits(b)
            ==> sign_field(r) == 0 && !is_nan_bits(r),
{
    let x = <rustc_apfloat::ieee::Single as rustc_apfloat::Float>::from_bits(a as u128);
    let y = <rustc_apfloat::ieee::Single as rustc_apfloat::Float>::from_bits(b as u128);
    rustc_apfloat::Float::to_bits((x + y).value) as u32
}

/// Relies on `rustc_apfloat::ieee::Single`'s `Sub` (round-to-nearest-even).
/// The extra clauses are IEEE-754 facts: `x - x` is `+0.0` for finite `x`
/// (whichever way round it is taken), a difference of finite values is
/// never NaN, and rounding is symmetric under negation, so for distinct
/// patterns `b - a` is the sign-flip of `a - b`.
#[verifier::external_body]
pub(crate) fn sub_bits(a: u32, b: u32) -> (r: u32)
    ensures
        r == sub_of(a, b),
        is_finite_bits(a) && b == a ==> r == 0 && sub_of(b, a) == r,
        is_finite_bits(a) && is_finite_bits(b) ==> !is_nan_bits(r),
        is_finite_bits(a) && is_finite_bits(b) && a != b ==> sub_of(b, a) == flip_sign(r),
{
    let x = <rustc_apfloat::ieee::Single as rustc_apfloat::Float>::from_bits(a as u128);
    let y = <rustc_apfloat::ieee::Single as rustc_apfloat::Float>::from_bits(b as u128);
    rustc_apfloat::Float::to_bits((x - y).value) as u32
}

/// Relies on `rustc_apfloat::ieee::Single`'s `Mul` (round-to-nearest-even).
/// The extra clauses are IEEE-754 facts: `+0.0 * +0.0` is `+0.0`, a square
/// of a non-NaN value is non-negative and never NaN, and flipping the sign
/// of both factors leaves the product unchanged.
#[verifier::external_body]
pub(crate) fn mul_bits(a: u32, b: u32) -> (r: u32)
    ensures
        r == mul_of(a, b),
        a == 0 && b == 0 ==> r == 0,
        b == a && !is_nan_bits(a) ==> sign_field(r) == 0 && !is_nan_bits(r),
        !is_nan_bits(a) && !is_nan_bits(b) ==> mul_of(flip_sign(a), flip_sign(b)) == r,
{
    let x = <rustc_apfloat::ieee::Single as rustc_apfloat::Float>::from_bits(a as u128);
    let y = <rustc_apfloat::ieee::Single as rustc_apfloat::Float>::from_bits(b as u128);
    rustc_apfloat::Float::to_bits((x * y).value) as u32
}

} // verus!
