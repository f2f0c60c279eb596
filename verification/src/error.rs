//! Common error codes for node protocol requests.

use vstd::prelude::*;

verus! {

/// Status of a failed protocol request, one code per failure class.
#[derive(Clone, Copy, Debug, PartialEq, Eq, Structural)]
pub enum Code {
    Canceled,
    Unknown,
    InvalidArgument,
    NotFound,
    FailedPrecondition,
    Aborted,
    Unimplemented,
    Internal,
    Unavailable,
}

/// An error the node protocol implementation reports: its status code and
/// a description of what went wrong underneath.
#[derive(Clone, Debug)]
pub struct Error {
    code: Code,
    source: String,
}

impl Error {
    /// The error's status code.
    pub closed spec fn code_spec(self) -> Code {
        self.code
    }

    /// The underlying description.
    pub closed spec fn source_spec(self) -> Seq<char> {
        self.source@
    }

    /// Wraps an underlying description under a status code.
    pub fn new(code: Code, source: String) -> (r: Self)
        ensures
            r.code_spec() == code,
            r.source_spec() == source@,
    {
        Error { code, source }
    }

    /// The error's status code.
    pub fn code(&self) -> (r: Code)
        ensures
            r == self.code_spec(),
    {
        self.code
    }

    /// The underlying description.
    pub fn source(&self) -> (r: &str)
        ensures
            r@ == self.source_spec(),
    {
        self.source.as_str()
    }

    /// The fixed wording of the error's status code.
    pub fn message(&self) -> (m: &'static str)
        ensures
            match self.code_spec() {
                Code::Canceled => m@ == "processing canceled"@,
                Code::Unknown => m@ == "unknown error"@,
                Code::InvalidArgument => m@ == "invalid request data"@,
                Code::NotFound => m@ == "not found"@,
                Code::FailedPrecondition => m@ == "system state does not permit the operation"@,
                Code::Aborted => m@ == "the operation was aborted"@,
                Code::Unimplemented => m@ == "not implemented"@,
                Code::Internal => m@ == "internal processing error"@,
                Code::Unavailable => m@ == "the service is unavailable"@,
            },
    {
        match self.code {
            Code::Canceled => "processing canceled",
            Code::Unknown => "unknown error",
            Code::InvalidArgument => "invalid request data",
            Code::NotFound => "not found",
            Code::FailedPrecondition => "system state does not permit the operation",
            Code::Aborted => "the operation was aborted",
            Code::Unimplemented => "not implemented",
            Code::Internal => "internal processing error",
            Code::Unavailable => "the service is unavailable",
        }
    }
}

} // verus!
