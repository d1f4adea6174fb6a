//! What a run does once its uploads, and then its commit, have returned.

use vstd::prelude::*;

verus! {

/// Why a run failed.
#[derive(Clone, Copy, Debug, PartialEq, Eq, Structural)]
pub enum SyncError {
    /// The local tree could not be read.
    Scan,
    /// The remote manifest could not be fetched.
    ManifestFetch,
    /// The upload of a chunk failed.
    Upload,
    /// The commit failed after every upload had succeeded.
    Commit,
}

/// The next thing a run does.
#[derive(Clone, Copy, Debug, PartialEq, Eq, Structural)]
pub enum Action {
    /// Ask the store to commit.
    Commit,
    /// End the run: the store holds what the local tree holds.
    Succeed,
    /// End the run as failed.
    Fail(SyncError),
}

/// Every upload succeeded.
pub open spec fn all_succeeded(outcomes: Seq<bool>) -> bool {
    forall|i: int| 0 <= i < outcomes.len() ==> #[trigger] outcomes[i]
}

/// What follows the uploads, one outcome for each chunk: a failed upload
/// fails the run; else a run with chunks commits, and one without is done.
pub open spec fn step_after_uploads(outcomes: Seq<bool>) -> Action {
    if !all_succeeded(outcomes) {
        Action::Fail(SyncError::Upload)
    } else if outcomes.len() > 0 {
        Action::Commit
    } else {
        Action::Succeed
    }
}

/// What follows the commit.
pub open spec fn step_after_commit(committed: bool) -> Action {
    if committed {
        Action::Succeed
    } else {
        Action::Fail(SyncError::Commit)
    }
}

/// Decides what follows the uploads, once all of them have returned.
pub fn after_uploads(outcomes: &Vec<bool>) -> (action: Action)
    ensures
        action == step_after_uploads(outcomes@),
{
    for k in 0..outcomes.len()
        invariant
            forall|i: int| 0 <= i < k ==> #[trigger] outcomes@[i],
    {
        if !outcomes[k] {
            return Action::Fail(SyncError::Upload);
        }
    }
    if outcomes.len() > 0 {
        Action::Commit
    } else {
        Action::Succeed
    }
}

/// Decides what follows the commit.
pub fn after_commit(committed: bool) -> (action: Action)
    ensures
        action == step_after_commit(committed),
{
    if committed {
        Action::Succeed
    } else {
        Action::Fail(SyncError::Commit)
    }
}

} // verus!
