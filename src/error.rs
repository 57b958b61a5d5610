//! The errors that the scheme's operations report.
use vstd::prelude::*;

verus! {

/// Why an operation could not produce its result.
#[derive(Clone, Copy, Debug, PartialEq, Eq, Structural)]
pub enum CustomError {
    /// An internal step failed in a way that valid inputs never cause.
    UnexpectedError,
    /// A size, an index, or a pair of lengths is not acceptable.
    InvalidParameter,
    /// The scalar field has no evaluation domain of the requested size.
    DomainUnavailable,
    /// A field inversion met zero.
    ArithmeticFailure,
}

} // verus!
