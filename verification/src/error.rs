//! The ways in which a statistic or a score can be undefined.

use vstd::prelude::*;

verus! {

/// Why a statistic or a score has no value.
#[derive(Debug, Clone, Copy, PartialEq, Eq, Structural)]
pub enum EvaluationError {
    /// The universe holds no asset.
    EmptyUniverse,
    /// A return series holds no period, so it has no mean.
    EmptySeries,
    /// Two series share a single period, so they have no sample covariance.
    InsufficientData,
    /// The standard deviation that a score divides by is zero.
    ZeroRisk,
}

/// The mathematical value of a computed result.
pub open spec fn outcome(r: Result<i128, EvaluationError>) -> Result<int, EvaluationError> {
    match r {
        Ok(v) => Ok(v as int),
        Err(e) => Err(e),
    }
}

} // verus!
