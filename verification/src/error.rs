//! The ways in which an input can be unusable.

use vstd::prelude::*;

verus! {

/// Why an input was rejected. Nothing is computed from a rejected input.
#[derive(Clone, Copy, Debug, PartialEq, Eq, Structural)]
pub enum InvalidInput {
    /// A number to factor was zero or negative.
    NonPositiveMagnitude,
    /// A polynomial has no coefficients at all.
    EmptyCoefficients,
    /// The coefficient of the highest-degree term is zero.
    ZeroLeadingCoefficient,
    /// The constant term is zero.
    ZeroTrailingCoefficient,
    /// The number of verdicts differs from the number of candidates.
    VerdictCountMismatch,
}

} // verus!
