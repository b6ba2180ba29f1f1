//! The error taxonomy shared by every fallible operation of the library.

use vstd::prelude::*;

verus! {

/// Why an operation on the object store or the staging index failed.
///
/// `Io` stands for a filesystem access that failed (reported by the caller
/// that performed the access); `Format` for malformed bytes: a bad object
/// header, a bad signature or version, a truncated record, or an invalid
/// UTF-8 path; `NotFound` for a hash prefix or path with no match;
/// `AmbiguousHash` for a hash prefix matching more than one stored object;
/// `Corruption` for a stored object whose recomputed hash does not equal the
/// hash it was requested under.
#[derive(Clone, Copy, Debug, PartialEq, Eq, Structural)]
pub enum UgitError {
    Io,
    Format,
    NotFound,
    AmbiguousHash,
    Corruption,
}

} // verus!
