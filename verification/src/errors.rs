//! The error taxonomy of the simulation.
//!
//! All failures are either setup-time validation errors or logic
//! invariants; there are no transient faults and no retries.

use vstd::prelude::*;

verus! {

#[derive(Debug, Clone, Copy, PartialEq, Eq, Structural)]
pub enum ElectionError {
    /// Invalid network-construction parameters; fatal to that
    /// construction call.
    ParameterError,
    /// Mismatched array lengths for names/preferences/party-count.
    ArityMismatch,
    /// Comparing preference vectors of unequal dimension.
    DimensionMismatch,
    /// All-zero input to sum-normalization: a zero-weight distribution
    /// is undefined for the downstream weighted draw, so it is rejected.
    DegenerateNormalization,
    /// A runoff second-round vote fell outside the two-candidate set.
    InvariantViolation,
}

impl ElectionError {
    /// A human-readable description of the error.
    pub fn message(&self) -> (r: &'static str)
    {
        match self {
            ElectionError::ParameterError => "invalid network parameters: mean degree must be even and N >= K >= ln N >= 1 with beta in [0,1]",
            ElectionError::ArityMismatch => "party names and preference vectors must match the party count",
            ElectionError::DimensionMismatch => "preference vectors are not of the same dimension",
            ElectionError::DegenerateNormalization => "cannot normalize a vector whose total weight is zero",
            ElectionError::InvariantViolation => "an agent voted for an eliminated party",
        }
    }
}

} // verus!
