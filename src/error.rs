//! The library's error type: a kind and a message for display.
use vstd::prelude::*;

verus! {

/// What went wrong, by kind.
#[derive(Debug, Clone, Copy, PartialEq, Eq, Structural)]
pub enum ErrorKind {
    /// A path does not exist.
    NotFound,
    /// Insufficient rights to open or create a file.
    PermissionDenied,
    /// A path, a file name or a size text is not acceptable.
    InvalidInput,
    /// The operation's precondition does not hold: a file too small to split,
    /// an incomplete chunk set, an output that already exists.
    PreconditionFailed,
    /// A read or write failed otherwise.
    IoFailure,
}

/// An error of a split or a join, with a message for display.
#[derive(Debug)]
pub struct Error {
    pub kind: ErrorKind,
    pub message: String,
}

/// How an I/O operation failed, as far as the error messages tell apart.
#[derive(Debug, Clone, Copy, PartialEq, Eq, Structural)]
pub enum IoFault {
    PermissionDenied,
    NotFound,
    AlreadyExists,
    Other,
}

/// An error of kind `kind` whose message is `message`.
pub open spec fn is_error(e: Error, kind: ErrorKind, message: Seq<char>) -> bool {
    e.kind == kind && e.message@ == message
}

impl Error {
    /// An error of the given kind with the given message.
    pub fn new(kind: ErrorKind, message: &str) -> (e: Error)
        ensures
            is_error(e, kind, message@),
    {
        Error { kind, message: String::from_str(message) }
    }

    /// The error reported for a failed I/O operation.
    pub fn from_io(fault: IoFault) -> (e: Error)
        ensures
            is_error(e, ErrorKind::PermissionDenied, "Permission denied."@) <==> fault
                == IoFault::PermissionDenied,
            is_error(e, ErrorKind::NotFound, "File not found."@) <==> fault == IoFault::NotFound,
            is_error(e, ErrorKind::IoFailure, "Unknown error."@) <==> (fault
                == IoFault::AlreadyExists || fault == IoFault::Other),
    {
        match fault {
            IoFault::PermissionDenied => Error::new(ErrorKind::PermissionDenied, "Permission denied."),
            IoFault::NotFound => Error::new(ErrorKind::NotFound, "File not found."),
            _ => Error::new(ErrorKind::IoFailure, "Unknown error."),
        }
    }

    /// The message of this error.
    pub fn message(&self) -> (r: String)
        ensures
            r@ == self.message@,
    {
        self.message.clone()
    }
}

/// `prefix`, then `middle`, then `suffix`.
pub fn surround(prefix: &str, middle: &str, suffix: &str) -> (r: String)
    ensures
        r@ == prefix@ + middle@ + suffix@,
{
    let mut r = String::from_str(prefix);
    r.append(middle);
    r.append(suffix);
    r
}

} // verus!
