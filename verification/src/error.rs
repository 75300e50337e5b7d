//! The error type shared by the storage and the routing half.

use vstd::prelude::*;

verus! {

/// What went wrong, without the accompanying text.
#[derive(Clone, Copy, Debug, PartialEq, Eq, Structural)]
pub enum ErrorKind {
    /// An on-disk structure is malformed.
    Corrupted,
    /// A routing lookup found nothing.
    NotFound,
    /// The underlying reader or writer failed.
    Io,
    /// The caller broke a documented input condition.
    InvalidArgument,
    /// The cached shard list disagrees with the collection's slot count.
    ExpiredShardInfo,
}

/// An error with a human-readable context.
#[derive(Debug)]
pub enum Error {
    Corrupted(String),
    NotFound(String),
    Io(String),
    InvalidArgument(String),
    ExpiredShardInfo(String),
}

impl Error {
    /// The variant of the error.
    pub open spec fn spec_kind(&self) -> ErrorKind {
        match self {
            Error::Corrupted(_) => ErrorKind::Corrupted,
            Error::NotFound(_) => ErrorKind::NotFound,
            Error::Io(_) => ErrorKind::Io,
            Error::InvalidArgument(_) => ErrorKind::InvalidArgument,
            Error::ExpiredShardInfo(_) => ErrorKind::ExpiredShardInfo,
        }
    }

    /// The text carried by the error.
    pub open spec fn text(&self) -> Seq<char> {
        match self {
            Error::Corrupted(m) => m@,
            Error::NotFound(m) => m@,
            Error::Io(m) => m@,
            Error::InvalidArgument(m) => m@,
            Error::ExpiredShardInfo(m) => m@,
        }
    }

    /// The variant of the error.
    #[verifier::when_used_as_spec(spec_kind)]
    pub fn kind(&self) -> (k: ErrorKind)
        ensures
            k == self.spec_kind(),
    {
        match self {
            Error::Corrupted(_) => ErrorKind::Corrupted,
            Error::NotFound(_) => ErrorKind::NotFound,
            Error::Io(_) => ErrorKind::Io,
            Error::InvalidArgument(_) => ErrorKind::InvalidArgument,
            Error::ExpiredShardInfo(_) => ErrorKind::ExpiredShardInfo,
        }
    }

    /// The text carried by the error, as an owned string.
    pub fn message(&self) -> (m: String)
        ensures
            m@ == self.text(),
    {
        match self {
            Error::Corrupted(m) => m.clone(),
            Error::NotFound(m) => m.clone(),
            Error::Io(m) => m.clone(),
            Error::InvalidArgument(m) => m.clone(),
            Error::ExpiredShardInfo(m) => m.clone(),
        }
    }
}

impl Clone for Error {
    fn clone(&self) -> (e: Error)
        ensures
            e == *self,
    {
        match self {
            Error::Corrupted(m) => Error::Corrupted(m.clone()),
            Error::NotFound(m) => Error::NotFound(m.clone()),
            Error::Io(m) => Error::Io(m.clone()),
            Error::InvalidArgument(m) => Error::InvalidArgument(m.clone()),
            Error::ExpiredShardInfo(m) => Error::ExpiredShardInfo(m.clone()),
        }
    }
}

} // verus!
