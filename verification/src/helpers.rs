//! Error type shared by the heap operations.

use vstd::prelude::*;

verus! {

/// Why a heap operation was refused.
#[derive(Debug, Clone, Copy, PartialEq, Eq, Structural)]
pub enum GcError {
    /// The node's layout is not a valid memory layout.
    AllocationFailed,
    /// A reference did not denote a usable node.
    InvalidReference,
    /// The memory limit of the heap would be exceeded.
    PartitionFull,
    /// No partition has the given id.
    PartitionNotFound,
    /// The partition still holds nodes.
    PartitionNotEmpty,
}

/// Result of a heap operation.
pub type GcResult<T> = Result<T, GcError>;

/// Passes a condition through; the name marks a branch that is rarely taken.
#[inline(always)]
pub fn unlikely(b: bool) -> (r: bool)
    ensures
        r == b,
{
    b
}

} // verus!
