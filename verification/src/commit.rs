//! Commit objects: a tree plus its provenance.
//!
//! Building and persisting commits is outside this library's core; the
//! value itself is kept so that callers can carry one around.

use vstd::prelude::*;

verus! {

/// A commit: a snapshot's root tree and where it came from.
pub struct Commit {
    /// Hex hash of the root tree object.
    pub tree: String,
    /// Hex hashes of the parent commits.
    pub parent_commits: Vec<String>,
    pub author: String,
    pub committer: String,
    pub message: String,
}

} // verus!
