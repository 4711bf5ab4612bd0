//! Errors of archive reading and writing.

use vstd::prelude::*;

use super::entries::{EntryError, EntryFault};
use super::header::HeaderFault;

verus! {

#[verifier::external_type_specification]
#[verifier::external_body]
pub struct ExGlobError(globset::Error);

/// What went wrong in an I/O operation.
#[derive(Debug, Clone, PartialEq, Eq)]
pub enum IoFailure {
    /// The input ended before the expected number of bytes.
    UnexpectedEof,
    /// Any other failure, as the system described it.
    Other(String),
}

/// Why a header is refused, or a tree edit is impossible.
#[derive(Debug, Clone, PartialEq, Eq)]
pub enum HeaderProblem {
    /// The fixed-size frame is malformed.
    Frame(HeaderFault),
    /// The tree has no top-level `files` object.
    RootFilesMissing,
    /// A component on the way to an entry is not a directory.
    NotADirectory(String),
    /// The entry whose integrity is recorded is not an object.
    LeafNotObject(String),
    /// A component on the way to an entry does not exist.
    IntermediateMissing(String),
    /// Recording the real integrity changed the header's byte length.
    LengthChanged { was: usize, now: usize },
}

/// An archive error.
#[derive(Debug)]
pub enum AsarError {
    Io { path: String, failure: IoFailure },
    MalformedHeader(HeaderProblem),
    InvalidJson(String),
    InvalidEntry { path: String, reason: EntryFault },
    BadGlob(globset::Error),
    Walk(String),
    Cancelled,
}

impl AsarError {
    /// An I/O error at `path`.
    pub fn io(path: String, failure: IoFailure) -> (e: Self)
        ensures
            e == (AsarError::Io { path, failure }),
    {
        AsarError::Io { path, failure }
    }
}

/// The archive error for a refused header frame: running out of bytes is an
/// I/O error at no particular path, anything else a malformed header.
pub fn frame_error(f: HeaderFault) -> (e: AsarError)
    ensures
        f == HeaderFault::Truncated ==> (e matches AsarError::Io { path, failure } && path@.len()
            == 0 && failure == IoFailure::UnexpectedEof),
        f != HeaderFault::Truncated ==> e == AsarError::MalformedHeader(HeaderProblem::Frame(f)),
{
    match f {
        HeaderFault::Truncated => AsarError::Io { path: String::new(), failure: IoFailure::UnexpectedEof },
        _ => AsarError::MalformedHeader(HeaderProblem::Frame(f)),
    }
}

/// The archive error for a refused entry.
pub fn entry_error(e: EntryError) -> (r: AsarError)
    ensures
        r matches AsarError::InvalidEntry { path, reason } && path@ == e@.0 && reason@ == e@.1,
{
    AsarError::InvalidEntry { path: e.path, reason: e.reason }
}

} // verus!
