//! An in-memory version-control engine: a content-addressed object store,
//! a staging index with conflict stages, branches and HEAD, and the commit,
//! log, checkout, merge, revert and reset operations over them.
pub mod bytes;
pub mod pathmap;
pub mod object;
pub mod error;
pub mod store;
pub mod index;
pub mod repo;
pub mod sync;
pub mod refs;
pub mod history;
pub mod merge;
pub mod ops;
pub mod laws;
pub mod stage_all;
pub mod diff;

pub use error::GitError;
pub use object::{Object, ObjectKind, Signature};
pub use ops::ResetMode;
pub use repo::{Head, Repository};
