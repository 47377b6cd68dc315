//! The error kinds that the engine reports.
use vstd::prelude::*;

verus! {

/// What went wrong in an engine operation.
#[derive(Debug, Clone, Copy, PartialEq, Eq, Structural)]
pub enum Error {
    /// A stored object or reference does not have the expected shape.
    Unexpected,
    /// No repository was found at or above the given directory.
    NotAGetRepo,
    /// A repository already exists in the given directory.
    RepoAlreadyExist,
    /// Text that must be UTF-8 is not.
    UnsupportedEncoding,
    /// An underlying storage or filesystem operation failed.
    IoError,
    /// The requested commit is not in the object store.
    CommitNotFound,
    /// A tree or blob that a stored object refers to is not in the object store.
    ObjectNotFound,
    /// The working directory holds an entry that cannot be versioned (a symbolic link).
    Unsupported,
}

} // verus!
