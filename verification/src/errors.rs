//! The caller-visible failures: malformed text on decode, and operands of
//! unequal dimension on a distance computation.  Both are returned, never
//! panicked.

use vstd::prelude::*;

verus! {

/// Why a piece of text is not a vector.
#[derive(Clone, Copy, PartialEq, Eq, Structural, Debug)]
pub enum DecodeError {
    /// The text does not begin with `[` and end with `]`.
    MissingBrackets,
    /// A comma-separated token is not a numeric literal.
    BadToken,
    /// The text holds characters outside the codec's ASCII repertoire.
    Encoding,
}

/// The two operands of a distance computation have different lengths.
/// Carries both lengths for diagnostics.
#[derive(Clone, Copy, PartialEq, Eq, Structural, Debug)]
pub struct DimensionMismatchError {
    pub left: usize,
    pub right: usize,
}

} // verus!
