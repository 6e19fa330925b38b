//! The failures that the library reports.

use vstd::prelude::*;

verus! {

/// Why an operation of the library gave no result.
#[derive(Clone, Copy, Debug, PartialEq, Eq, Structural)]
pub enum SharingError {
    /// The threshold is below one or above the number of shares.
    InvalidThreshold,
    /// Fewer points were supplied than the threshold asks for.
    InsufficientShares,
    /// Two of the supplied points have the same `x`.
    DuplicateShareIndex,
    /// A fraction with a zero denominator was asked for.
    DegenerateArithmetic,
    /// The supplied points do not interpolate to an integer.
    ReconstructionError,
    /// A modulus is not positive, or an exponent is negative.
    DomainError,
    /// No coefficient other than zero could be drawn.
    ExhaustedDraws,
}

} // verus!
