//! Kinds of errors.
use vstd::prelude::*;

verus! {

/// What kind of error a failure is.
#[derive(Clone, Copy, Debug, PartialEq, Eq, Structural)]
pub enum ErrorKind {
    NotFound,
    PermissionDenied,
    InvalidInput,
    InvalidData,
    UnexpectedEof,
    ResourceBusy,
    Unsupported,
    BrokenPipe,
    ConnectionAborted,
    ConnectionReset,
    NotConnected,
    AlreadyExists,
    WouldBlock,
    Interrupted,
    TimedOut,
    WriteZero,
    Other,
}

/// A failure that the system told.
#[derive(Debug)]
pub struct Fault {
    pub kind: ErrorKind,
    pub text: String,
}

/// A failure with other words.
pub open spec fn is_fault(fault: Fault, kind: ErrorKind, text: Seq<char>) -> bool {
    fault.kind == kind && fault.text@ == text
}

} // verus!
