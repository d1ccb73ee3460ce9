//! Failures of the outside world: ports and files.

use vstd::prelude::*;

verus! {

/// What kind of failure was reported.
#[derive(Debug, Clone, Copy, PartialEq, Eq, Structural)]
pub enum IoErrorKind {
    NotFound,
    PermissionDenied,
    NotConnected,
    BrokenPipe,
    TimedOut,
    Interrupted,
    Other,
}

/// A failure that a port or a file reported.
#[derive(Debug)]
pub struct IoError {
    pub kind: IoErrorKind,
    pub message: String,
}

impl IoError {
    pub fn new(kind: IoErrorKind, message: &str) -> (e: Self)
        ensures
            e.kind == kind,
            e.message@ == message@,
    {
        IoError { kind, message: message.to_string() }
    }
}

} // verus!
