//! Failure codes carried inside `Error` responses.

use vstd::prelude::*;

verus! {

/// Failure descriptor inside an `Error` response. `OK` is a legacy
/// placeholder that successful responses never carry: successes are the
/// `Ok` and `NagList` response variants instead.
#[derive(Clone, Copy, PartialEq, Eq, Structural, Debug)]
pub enum ErrorCode {
    OK,
    InvalidFormat,
    UnknownCommand,
    NotImplemented,
}

/// The name of a code, as shown in messages.
pub open spec fn code_name_of(code: ErrorCode) -> Seq<char> {
    match code {
        ErrorCode::OK => "OK"@,
        ErrorCode::InvalidFormat => "InvalidFormat"@,
        ErrorCode::UnknownCommand => "UnknownCommand"@,
        ErrorCode::NotImplemented => "NotImplemented"@,
    }
}

impl ErrorCode {
    /// The name of this code, as shown in messages.
    pub fn name(&self) -> (r: &'static str)
        ensures
            r@ == code_name_of(*self),
    {
        match self {
            ErrorCode::OK => "OK",
            ErrorCode::InvalidFormat => "InvalidFormat",
            ErrorCode::UnknownCommand => "UnknownCommand",
            ErrorCode::NotImplemented => "NotImplemented",
        }
    }
}

} // verus!
