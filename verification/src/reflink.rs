//! Replaying copies as copy-on-write clones.
//!
//! A clone makes the destination share the data of the source without
//! copying bytes. The request itself is the caller's to issue; what its
//! result means, and how a run over many copies goes on or stops, is
//! decided here.

use vstd::prelude::*;
use crate::changeset::{copy_models, CopyOp};

verus! {

/// The number of the request that clones a file on Linux (`FICLONE`).
pub const FICLONE: u64 = 0x4004_9409;

/// A failure of the operating system, by its error number.
#[derive(Clone, Copy, PartialEq, Eq, Structural, Debug)]
pub struct OsError {
    pub code: i32,
}

/// What the status that a clone request returned means: a negative status
/// is a failure, with the error number that the system holds for it, and
/// any other is success.
pub fn clone_outcome(status: i32, code: i32) -> (r: Result<(), OsError>)
    ensures
        r == if status < 0 {
            Err::<(), OsError>(OsError { code })
        } else {
            Ok::<(), OsError>(())
        },
{
    if status < 0 {
        Err(OsError { code })
    } else {
        Ok(())
    }
}

/// A run that replays copies one after the other and stops at the first
/// that fails. Nothing that was cloned before a failure is undone.
#[derive(Debug)]
pub struct Replay {
    copies: Vec<CopyOp>,
    done: usize,
    failure: Option<OsError>,
}

impl Replay {
    /// The copies to replay, in their order.
    pub closed spec fn copies(&self) -> Seq<(Seq<u8>, Seq<u8>)> {
        copy_models(self.copies@)
    }

    /// The number of copies that were cloned.
    pub closed spec fn done(&self) -> nat {
        self.done as nat
    }

    /// The failure that stopped the run.
    pub closed spec fn failure(&self) -> Option<OsError> {
        self.failure
    }

    /// No more copies are cloned than there are.
    pub closed spec fn well_formed(&self) -> bool {
        self.done <= self.copies@.len()
    }

    /// The copy to clone next: the first that was not cloned, unless the
    /// run has failed.
    pub open spec fn next(&self) -> Option<(Seq<u8>, Seq<u8>)> {
        if self.failure() is None && self.done() < self.copies().len() {
            Some(self.copies()[self.done() as int])
        } else {
            None
        }
    }

    /// How the run ended: with the failure that stopped it, or with the
    /// number of copies where all were cloned. While a copy is left to
    /// clone the run has not ended.
    pub open spec fn result(&self) -> Option<Result<usize, OsError>> {
        match self.failure() {
            Some(error) => Some(Err(error)),
            None => if self.done() == self.copies().len() {
                Some(Ok(self.done() as usize))
            } else {
                None
            },
        }
    }

    /// A run over `copies`, of which none is cloned yet.
    pub fn new(copies: Vec<CopyOp>) -> (run: Replay)
        ensures
            run.well_formed(),
            run.copies() == copy_models(copies@),
            run.done() == 0,
            run.failure() is None,
    {
        Replay { copies, done: 0, failure: None }
    }

    /// The copy to clone next, while the run goes on.
    pub fn pending(&self) -> (copy: Option<&CopyOp>)
        requires
            self.well_formed(),
        ensures
            match copy {
                Some(copy) => self.next() == Some(copy@),
                None => self.next() is None,
            },
    {
        if self.failure.is_none() && self.done < self.copies.len() {
            Some(&self.copies[self.done])
        } else {
            None
        }
    }

    /// Takes the outcome of cloning the pending copy. After a failure no
    /// copy is pending any more.
    pub fn record(&mut self, outcome: Result<(), OsError>)
        requires
            old(self).well_formed(),
            old(self).next() is Some,
        ensures
            final(self).well_formed(),
            final(self).copies() == old(self).copies(),
            match outcome {
                Ok(_) => final(self).done() == old(self).done() + 1 && final(self).failure()
                    is None,
                Err(error) => final(self).done() == old(self).done() && final(self).failure()
                    == Some(error),
            },
    {
        match outcome {
            Ok(_) => {
                assert(self.done < self.copies.len());
                self.done += 1;
            },
            Err(error) => {
                self.failure = Some(error);
            },
        }
    }

    /// How the run ended, once it has.
    pub fn outcome(&self) -> (r: Option<Result<usize, OsError>>)
        requires
            self.well_formed(),
        ensures
            r == self.result(),
    {
        match self.failure {
            Some(error) => Some(Err(error)),
            None => if self.done == self.copies.len() {
                Some(Ok(self.done))
            } else {
                None
            },
        }
    }
}

} // verus!
