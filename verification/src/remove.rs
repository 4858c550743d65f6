//! File removal: a batch that stops at the first failure.
//!
//! The paths of a batch are known by their position in the caller's list. The
//! batch names the next path to delete, takes the outcome of that deletion,
//! and stops for good at the first one that fails. What was deleted before
//! stays deleted.

use vstd::prelude::*;

verus! {

/// Why a deletion failed.
#[derive(Clone, Copy, Debug, PartialEq, Eq, Structural)]
pub enum FailureKind {
    /// The path does not exist.
    NotFound,
    /// The caller may not delete the path.
    PermissionDenied,
    /// The path is a directory.
    IsDirectory,
    /// Any other cause.
    Other,
}

/// The failure that stopped a batch.
#[derive(Clone, Copy, Debug, PartialEq, Eq, Structural)]
pub struct DeletionError {
    /// The position of the path that could not be deleted.
    pub index: usize,
    /// Why it could not be deleted.
    pub kind: FailureKind,
}

/// A batch removal in progress.
pub struct Removal {
    total: usize,
    deleted: usize,
    failure: Option<FailureKind>,
}

impl Removal {
    #[verifier::type_invariant]
    spec fn well_formed(self) -> bool {
        &&& self.deleted <= self.total
        &&& self.failure is Some ==> self.deleted < self.total
    }

    /// How many paths the batch holds.
    pub closed spec fn total(&self) -> nat {
        self.total as nat
    }

    /// How many paths have been deleted; they are the first of the batch.
    pub closed spec fn deleted(&self) -> nat {
        self.deleted as nat
    }

    /// The failure that stopped the batch, if one did.
    pub closed spec fn failure(&self) -> Option<DeletionError> {
        match self.failure {
            Some(kind) => Some(DeletionError { index: self.deleted, kind }),
            None => None,
        }
    }

    /// Starts a batch of `total` paths: none is deleted and none has failed.
    pub fn new(total: usize) -> (batch: Removal)
        ensures
            batch.total() == total,
            batch.deleted() == 0,
            batch.failure() is None,
    {
        Removal { total, deleted: 0, failure: None }
    }

    /// The position of the path to delete next: the first that has not been
    /// deleted. `None` when all are deleted or one has failed.
    pub fn current(&self) -> (index: Option<usize>)
        ensures
            index == if self.failure() is None && self.deleted() < self.total() {
                Some(self.deleted() as usize)
            } else {
                None
            },
    {
        proof {
            use_type_invariant(self);
        }
        match self.failure {
            Some(_) => None,
            None => if self.deleted < self.total {
                Some(self.deleted)
            } else {
                None
            },
        }
    }

    /// Takes the outcome of deleting the current path, `None` for success,
    /// and gives the batch's next state. A success moves on to the next
    /// path; a failure stops the batch at this path. When the batch has
    /// ended, nothing changes.
    pub fn record(self, outcome: Option<FailureKind>) -> (next: Removal)
        ensures
            next.total() == self.total(),
            self.failure() is Some || self.deleted() >= self.total() ==> next.deleted()
                == self.deleted() && next.failure() == self.failure(),
            self.failure() is None && self.deleted() < self.total() ==> match outcome {
                None => next.deleted() == self.deleted() + 1 && next.failure() is None,
                Some(kind) => next.deleted() == self.deleted() && next.failure() == Some(
                    DeletionError { index: self.deleted() as usize, kind },
                ),
            },
    {
        proof {
            use_type_invariant(&self);
        }
        let Removal { total, deleted, failure } = self;
        if failure.is_some() || deleted >= total {
            return Removal { total, deleted, failure };
        }
        match outcome {
            None => Removal { total, deleted: deleted + 1, failure },
            Some(kind) => Removal { total, deleted, failure: Some(kind) },
        }
    }

    /// How the batch stands: the failure that stopped it, with the position
    /// of the path and the cause, or success so far. Every path before the
    /// one that failed was deleted.
    pub fn result(&self) -> (result: Result<usize, DeletionError>)
        ensures
            match result {
                Ok(count) => self.failure() is None && count == self.deleted(),
                Err(error) => self.failure() == Some(error) && error.index == self.deleted()
                    && error.index < self.total(),
            },
    {
        proof {
            use_type_invariant(self);
        }
        match self.failure {
            Some(kind) => Err(DeletionError { index: self.deleted, kind }),
            None => Ok(self.deleted),
        }
    }
}

} // verus!
