//! Error surface of the storage core. Every fallible operation returns a
//! typed variant; the node codecs themselves only produce
//! `DeserializationError` (malformed or truncated buffer) and the tree
//! helpers `DatabaseCorrupted` (a structural invariant broken at a higher
//! level).

use vstd::prelude::*;

verus! {

/// Typed error returned by the storage core.
#[derive(Debug, Clone, Copy, PartialEq, Eq)]
pub enum DbError {
    /// An underlying file error, passed through by the I/O layer.
    Io,
    /// A node buffer was malformed or truncated: corruption or version
    /// mismatch. Carries a short static description.
    DeserializationError(&'static str),
    /// A higher-level invariant was broken, e.g. a child-id mismatch during
    /// split propagation.
    DatabaseCorrupted(&'static str),
    /// A lookup for a position or page beyond the allocated range.
    NotFound,
    /// An operation would produce a node exceeding the page budget despite
    /// splits: a misconfigured page size.
    NodeTooLarge,
}

/// Result alias used throughout the storage core.
pub type DbResult<T> = Result<T, DbError>;

} // verus!
