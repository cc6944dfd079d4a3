//! Protection classes for segments and the branch-protection configuration.

use vstd::prelude::*;

verus! {

/// The page permission a segment will hold once it is finalized: read-only
/// data, read-write scratch, or read-execute code.
///
/// Segments are writable while they are open, whatever their class; the
/// class only determines the permission applied by finalization.
#[derive(Clone, Copy, Debug, PartialEq, Eq, Structural)]
pub enum Protection {
    Read,
    ReadWrite,
    ReadExecute,
}

/// Type of branch protection to apply to executable memory.
///
/// Accepted as configuration but not yet wired into the allocation path:
/// it has no effect on segment creation or finalization.
#[derive(Clone, Copy, Debug, PartialEq, Eq, Structural)]
pub enum BranchProtection {
    /// No protection.
    Off,
    /// Use the Branch Target Identification extension of the Arm architecture.
    Bti,
}

} // verus!
