//! Failures that end the check of one repository, or of one branch,
//! without ending the run.

use vstd::prelude::*;

verus! {

/// Why a repository, or one of its branches, produced no report.
///
/// Every other failure a run can meet is absorbed locally: an unreadable
/// filesystem entry is skipped by the crawler, a failed status query drops
/// only the local-change entry, and an unresolvable upstream drops only
/// that one remote.
#[derive(Clone, Copy, Debug, PartialEq, Eq, Structural)]
pub enum Error {
    /// The repository's local branches could not be enumerated; the whole
    /// repository is skipped.
    BranchEnumeration,
    /// The repository's remote names could not be enumerated; the branch
    /// under check is skipped.
    RemoteEnumeration,
}

} // verus!
