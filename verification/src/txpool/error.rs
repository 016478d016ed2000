//! Why the pool refuses or drops a transaction.

use vstd::prelude::*;
use crate::txpool::collision_manager::Collision;
use crate::txpool::types::{Input, TxId};

verus! {

#[derive(Clone, Copy, Debug, PartialEq, Eq, Structural)]
pub enum InputValidationError {
    /// The transaction is known already: pooled, spent or committed.
    DuplicateTxId(TxId),
    MaxGasZero,
    /// The blob that the transaction carries exists already.
    NotInsertedBlobIdAlreadyTaken(u64),
    /// The input was spent by a recent transaction.
    InputSpent(Input),
    /// Nothing known provides the input.
    UnknownInput(Input),
}

#[derive(Clone, Copy, Debug, PartialEq, Eq, Structural)]
pub enum DependencyError {
    /// A pooled transaction holds a resource of the candidate, and the
    /// candidate depends on it.
    NotInsertedCollisionIsDependency,
}

#[derive(Clone, Copy, Debug, PartialEq, Eq, Structural)]
pub enum RemovedReason {
    /// The transaction made room for the more valuable transaction named.
    LessWorth(TxId),
}

/// Why a transaction left the pool after its block was built without it.
#[derive(Clone, Copy, Debug, PartialEq, Eq, Structural)]
pub enum SkipCause {
    /// The transaction itself was skipped.
    Skipped(TxId),
    /// The transaction named, which made an input of this one, was skipped.
    ParentSkipped(TxId),
}

#[derive(Clone, Copy, Debug, PartialEq, Eq, Structural)]
pub enum Error {
    InputValidation(InputValidationError),
    Dependency(DependencyError),
    /// A pooled transaction holds a resource of the candidate and is worth
    /// at least as much.
    Collided(Collision),
    NotInsertedLimitHit,
    /// The candidate spends the black-listed input named.
    Blacklisted(Input),
    Removed(RemovedReason),
    SkippedTransaction(SkipCause),
}

} // verus!
