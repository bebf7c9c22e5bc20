//! Failure conditions of the diff engine.

use vstd::prelude::*;

verus! {

/// What can go wrong while computing or replaying an edit script.
#[derive(Debug, Clone, Copy, PartialEq, Eq, Structural)]
pub enum DiffError {
    /// The path search failed to reach the far corner of the edit graph
    /// within its provable round bound. Verification shows the search
    /// cannot take this exit; the variant remains only for its defensive
    /// dead branch.
    AlgorithmInvariantViolation,
    /// A command's effective position fell outside the bounds of the
    /// sequence being patched; `index` is the position of the offending
    /// command within the script.
    ApplyRangeError { index: usize },
}

} // verus!
