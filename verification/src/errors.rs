//! The fatal error taxonomy of the search core.

use vstd::prelude::*;

verus! {

/// A fatal condition of one search run.  No operation in this core is
/// retried: the whole computation is deterministic given start, goal and
/// key material, so a retry has no corrective value.
#[derive(Clone, Copy, PartialEq, Eq, Debug)]
pub enum SearchError {
    /// An identity referenced by the selector, by a parent link or by a
    /// frontier lookup could not be found in either the open or the closed
    /// set.  The payload is the offending identity.
    InternalConsistencyViolation(i32),
    /// The open set became empty (or the identity space was spent) before
    /// the goal was reached: no solution was found.
    SearchExhausted,
    /// A client-oracle call was asked to decrypt a value that is not under
    /// its key.
    DecryptionFailure,
}

} // verus!
