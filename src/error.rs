//! The ways an operation on a repository can fail.
use vstd::prelude::*;

verus! {

#[derive(Clone, Copy, Debug, PartialEq, Eq, Structural)]
pub enum GitError {
    /// A missing object, branch, path or revision.
    NotFound,
    /// A branch of that name exists already.
    AlreadyExists,
    /// The operation is not allowed in the repository's present state.
    InvalidState,
    /// Unresolved merge stages, or changes that cannot be applied cleanly.
    Conflict,
    /// An object that is not what its id or its use says it is.
    Corrupt,
    /// The digest of an object could not be computed.
    Digest,
}

} // verus!
