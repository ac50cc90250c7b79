//! What can go wrong when a commitment or a proof is built.

use vstd::prelude::*;

verus! {

/// Why a commitment or a proof could not be built. Verification never fails
/// this way: it answers `false`.
#[derive(Clone, Copy, Debug, PartialEq, Eq, Structural)]
pub enum CommitError {
    /// The polynomial's degree is above the bound of the reference string.
    DegreeExceeded,
    /// The length of a vector is not a power of two, or not the one asked for.
    InvalidLength,
    /// A claimed value is not the polynomial's value, so that dividing out
    /// the claimed root leaves a remainder.
    DivisionRemainderNonzero,
}

} // verus!
