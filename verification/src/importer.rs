//! What the importer decides when it commits a produced block.

use vstd::prelude::*;

verus! {

/// Seconds between a failed commit and the next attempt.
pub const COMMIT_RETRY_DELAY: u64 = 1;

/// What follows an attempt to commit.
#[derive(Clone, Copy, Debug, PartialEq, Eq, Structural)]
pub enum CommitAction {
    /// The block is committed: announce it, once.
    Announce,
    /// Wait for the given number of seconds, then commit the same changes
    /// again.
    RetryAfter(u64),
    /// The service is stopping: give the block up.
    GiveUp,
}

/// What follows an attempt to commit: a commit that failed is tried again
/// after a fixed delay, however often it failed before, unless the service
/// is stopping.
pub fn after_commit_attempt(committed: bool, stopping: bool) -> (action: CommitAction)
    ensures
        committed ==> action == CommitAction::Announce,
        !committed && !stopping ==> action == CommitAction::RetryAfter(COMMIT_RETRY_DELAY),
        !committed && stopping ==> action == CommitAction::GiveUp,
{
    if committed {
        CommitAction::Announce
    } else if stopping {
        CommitAction::GiveUp
    } else {
        CommitAction::RetryAfter(COMMIT_RETRY_DELAY)
    }
}

/// Whether a block was new to the storage. `replaced` tells of each write,
/// that of the block, of its seal and of each of its transactions, whether
/// it replaced something. The block was new if and only if no write did.
pub fn store_new_block(replaced: &Vec<bool>) -> (new_block: bool)
    ensures
        new_block == (forall|x: int| 0 <= x < replaced@.len() ==> !replaced@[x]),
{
    let mut found: bool = false;
    let mut x: usize = 0;
    while x < replaced.len()
        invariant
            x <= replaced.len(),
            found == (exists|y: int| 0 <= y < x && replaced@[y]),
        decreases replaced.len() - x,
    {
        if replaced[x] {
            found = true;
        }
        x += 1;
    }
    !found
}

} // verus!
