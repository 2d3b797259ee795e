//! The errors that the core reports.

use vstd::prelude::*;

verus! {

#[verifier::external_type_specification]
#[verifier::external_body]
pub struct ExIoError(std::io::Error);

#[verifier::external_type_specification]
#[verifier::external_body]
pub struct ExErrorKind(std::io::ErrorKind);

/// Failures of the lockfile protocol.
#[derive(Debug)]
pub enum LockError {
    /// An operation on a lock that is not held.
    StaleLock,
    /// The lock file exists already: another writer holds it.
    Denied,
    /// Another I/O failure, by kind.
    Other(std::io::ErrorKind),
}

/// Failures to read or write the index.
#[derive(Debug)]
pub enum IndexError {
    /// The index file is not a valid index.
    Parse(String),
    /// The index file could not be read to its end.
    Io,
    Lock(LockError),
}

/// Failure to update a ref.
#[derive(Debug)]
pub struct RefsError;

/// Every failure that an operation may report.
#[derive(Debug)]
pub enum RitError {
    Io(std::io::Error),
    Env,
    Index(IndexError),
    Lock(LockError),
    Refs(RefsError),
    MissingFile(String),
    PermissionDenied(String),
    UnknownCommand(String),
}

impl From<LockError> for IndexError {
    fn from(err: LockError) -> (r: IndexError)
        ensures
            r == IndexError::Lock(err),
    {
        IndexError::Lock(err)
    }
}

impl From<LockError> for RefsError {
    fn from(err: LockError) -> (r: RefsError)
        ensures
            r == RefsError,
    {
        RefsError
    }
}

impl From<IndexError> for RitError {
    fn from(err: IndexError) -> (r: RitError)
        ensures
            r == RitError::Index(err),
    {
        RitError::Index(err)
    }
}

impl From<LockError> for RitError {
    fn from(err: LockError) -> (r: RitError)
        ensures
            r == RitError::Lock(err),
    {
        RitError::Lock(err)
    }
}

impl From<RefsError> for RitError {
    fn from(err: RefsError) -> (r: RitError)
        ensures
            r == RitError::Refs(err),
    {
        RitError::Refs(err)
    }
}

impl vstd::std_specs::convert::FromSpecImpl<LockError> for IndexError {
    open spec fn obeys_from_spec() -> bool {
        true
    }

    open spec fn from_spec(v: LockError) -> IndexError {
        IndexError::Lock(v)
    }
}

impl vstd::std_specs::convert::FromSpecImpl<LockError> for RefsError {
    open spec fn obeys_from_spec() -> bool {
        true
    }

    open spec fn from_spec(v: LockError) -> RefsError {
        RefsError
    }
}

impl vstd::std_specs::convert::FromSpecImpl<IndexError> for RitError {
    open spec fn obeys_from_spec() -> bool {
        true
    }

    open spec fn from_spec(v: IndexError) -> RitError {
        RitError::Index(v)
    }
}

impl vstd::std_specs::convert::FromSpecImpl<LockError> for RitError {
    open spec fn obeys_from_spec() -> bool {
        true
    }

    open spec fn from_spec(v: LockError) -> RitError {
        RitError::Lock(v)
    }
}

impl vstd::std_specs::convert::FromSpecImpl<RefsError> for RitError {
    open spec fn obeys_from_spec() -> bool {
        true
    }

    open spec fn from_spec(v: RefsError) -> RitError {
        RitError::Refs(v)
    }
}

} // verus!
