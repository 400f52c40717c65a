//! Plain values for the I/O failures that the library tells apart or reports.
use vstd::prelude::*;

verus! {

/// The kinds of I/O failure that decide what happens next.
#[derive(Clone, Copy, Debug, PartialEq, Eq, Structural)]
pub enum ErrorKind {
    NotFound,
    Interrupted,
    WouldBlock,
    InvalidData,
    Other,
}

/// A failure that the library itself reports.
#[derive(Clone, Copy, Debug)]
pub struct Failure {
    pub kind: ErrorKind,
    pub message: &'static str,
}

/// The failure reported for received data that does not follow the protocol.
pub fn invalid_data(message: &'static str) -> (e: Failure)
    ensures
        e == (Failure { kind: ErrorKind::InvalidData, message }),
{
    Failure { kind: ErrorKind::InvalidData, message }
}

} // verus!
