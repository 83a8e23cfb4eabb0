//! Views of an IEEE-754 binary32 bit pattern: its fields and the classes
//! (zero, finite, infinite, not-a-number) that the rest of the crate
//! speaks of.

use vstd::prelude::*;

verus! {

/// Bit pattern of the canonical quiet NaN returned where a computation
/// has no numeric result.
pub const QNAN_BITS: u32 = 0x7FC0_0000;

/// Bit pattern of positive infinity.
pub const POS_INF_BITS: u32 = 0x7F80_0000;

/// The sign field: 0 for non-negative values, 1 for negative ones.
pub open spec fn sign_field(x: u32) -> u32 {
    x >> 31
}

/// The biased exponent field, 0 ..= 255.
pub open spec fn exp_field(x: u32) -> u32 {
    (x >> 23) & 0xFF
}

/// The 23-bit fraction field.
pub open spec fn frac_field(x: u32) -> u32 {
    x & 0x7F_FFFF
}

/// Both zeros, +0.0 and -0.0.
pub open spec fn is_zero_bits(x: u32) -> bool {
    x & 0x7FFF_FFFF == 0
}

pub open spec fn is_nan_bits(x: u32) -> bool {
    exp_field(x) == 0xFF && frac_field(x) != 0
}

pub open spec fn is_inf_bits(x: u32) -> bool {
    exp_field(x) == 0xFF && frac_field(x) == 0
}

/// Finite: anything that is neither an infinity nor a NaN.
pub open spec fn is_finite_bits(x: u32) -> bool {
    exp_field(x) != 0xFF
}

/// The same magnitude with the opposite sign.
pub open spec fn flip_sign(x: u32) -> u32 {
    x ^ 0x8000_0000
}

/// Every element of the sequence is a finite value.
pub open spec fn all_finite(v: Seq<u32>) -> bool {
    forall|i: int| 0 <= i < v.len() ==> is_finite_bits(#[trigger] v[i])
}

/// The significand with the hidden bit made explicit: subnormal values
/// keep the bare fraction, normal values gain bit 23.
pub open spec fn significand_of(x: u32) -> nat {
    if exp_field(x) == 0 {
        frac_field(x) as nat
    } else {
        (frac_field(x) + 0x80_0000) as nat
    }
}

/// The power of two that one unit of the significand stands for,
/// so that a finite value equals `significand_of(x) * 2^(ulp_exp_of(x))`.
pub open spec fn ulp_exp_of(x: u32) -> int {
    if exp_field(x) == 0 {
        -149
    } else {
        exp_field(x) - 150
    }
}

} // verus!
