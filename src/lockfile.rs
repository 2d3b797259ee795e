//! The lockfile protocol: a target file `P` is replaced by writing
//! `P.lock`, created exclusively, and renaming it over `P`. The state kept
//! here says whether the lock is held; the caller performs the file
//! operations and reports their outcome.

use vstd::prelude::*;
use crate::codec::{copy_range, put_bytes};

pub use crate::errors::LockError;

verus! {

/// `.lock`.
pub open spec fn lock_suffix() -> Seq<u8> {
    seq![46u8, 108, 111, 99, 107]
}

/// What the exclusive creation of a lock file came to.
pub enum CreateOutcome {
    Created,
    /// The lock file existed already.
    Exists,
    /// Another I/O failure, by kind.
    Failed(std::io::ErrorKind),
}

/// A lock on one file.
pub struct Lockfile {
    pub file_path: Vec<u8>,
    pub lock_path: Vec<u8>,
    pub held: bool,
}

impl Lockfile {
    /// Whether the lock is held.
    pub open spec fn is_held(&self) -> bool {
        self.held
    }

    /// A lock, not yet held, on the file at `path`; the lock file is
    /// `path` with `.lock` appended.
    pub fn new(path: Vec<u8>) -> (r: Lockfile)
        ensures
            r.file_path@ == path@,
            r.lock_path@ == path@ + lock_suffix(),
            !r.is_held(),
    {
        let mut lock_path = copy_range(path.as_slice(), 0, path.len());
        put_bytes(&mut lock_path, &[46u8, 108, 111, 99, 107]);
        proof {
            assert(lock_path@ =~= path@ + lock_suffix());
        }
        Lockfile { file_path: path, lock_path, held: false }
    }

    /// Record the outcome of the exclusive creation of the lock file: the
    /// lock is held when it was created, denied when the file existed, and
    /// any other failure is reported by its kind.
    pub fn hold_for_update(&mut self, outcome: CreateOutcome) -> (r: Result<(), LockError>)
        ensures
            outcome is Created ==> r is Ok && final(self).is_held(),
            outcome is Exists ==> (r matches Err(LockError::Denied)),
            outcome matches CreateOutcome::Failed(k) ==> r == Err::<(), LockError>(LockError::Other(k)),
            !(outcome is Created) ==> final(self).is_held() == old(self).is_held(),
            final(self).file_path == old(self).file_path,
            final(self).lock_path == old(self).lock_path,
    {
        match outcome {
            CreateOutcome::Created => {
                self.held = true;
                Ok(())
            },
            CreateOutcome::Exists => Err(LockError::Denied),
            CreateOutcome::Failed(kind) => Err(LockError::Other(kind)),
        }
    }

    /// Fails with `StaleLock` unless the lock is held.
    pub fn guard_stale_lock(&self) -> (r: Result<(), LockError>)
        ensures
            self.is_held() <==> r is Ok,
            !self.is_held() ==> r matches Err(LockError::StaleLock),
    {
        if self.held {
            Ok(())
        } else {
            Err(LockError::StaleLock)
        }
    }

    /// Give the lock up once the lock file was renamed into place
    /// (commit) or removed (rollback).
    pub fn release(&mut self) -> (r: Result<(), LockError>)
        ensures
            old(self).is_held() <==> r is Ok,
            !old(self).is_held() ==> r matches Err(LockError::StaleLock),
            !final(self).is_held(),
            final(self).file_path == old(self).file_path,
            final(self).lock_path == old(self).lock_path,
    {
        let r = self.guard_stale_lock();
        self.held = false;
        r
    }
}

} // verus!
