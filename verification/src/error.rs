//! The error type shared by every fallible operation of this crate.

use vstd::prelude::*;

verus! {

/// An error from one of the version operations: a human-readable message.
#[derive(Debug, Clone)]
pub struct Error {
    pub message: String,
}

impl Error {
    /// Create an error carrying the given message.
    pub fn new(msg: &str) -> (e: Error)
        ensures
            e.message@ == msg@,
    {
        Error { message: msg.to_owned() }
    }
}

/// Record `err` as the most recent error, replacing any previous one. The
/// slot is explicit caller-owned state: callers that expose a "last error"
/// convention keep one slot per call context and consult it after a failure.
pub fn update_last_error(slot: &mut Option<Error>, err: Error)
    ensures
        *final(slot) == Some(err),
{
    *slot = Some(err);
}

} // verus!
