//! A fixed-element numeric vector value with a canonical bracketed text
//! form and a Euclidean (L2) distance metric.
//!
//! Elements are IEEE-754 binary32 values, carried everywhere as their
//! 32-bit patterns so that equality, hashing, codec framing and the
//! distance pipeline can be reasoned about exactly.  The only operations
//! taken on trust are the softfloat arithmetic steps and the decimal
//! conversions, each behind a small contract in `arith` and `codec`.

pub mod bits;
pub mod errors;
pub mod vector;
pub mod arith;
pub mod sqrt;
pub mod distance;
pub mod codec;

pub use distance::l2_distance;
pub use errors::{DecodeError, DimensionMismatchError};
pub use vector::Vector;
