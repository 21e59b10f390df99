//! The error type of the scanner.

use vstd::prelude::*;

verus! {

/// An error of the operating system, carried as it came.
#[verifier::external_type_specification]
#[verifier::external_body]
pub struct ExIoError(std::io::Error);

/// Why a job could not run.
#[derive(Debug)]
pub enum IncError {
    /// Reading a file failed.
    IO(std::io::Error),
    /// Another component failed; holds its message.
    StdErr(String),
    /// A fixed message.
    Literal(&'static str),
}

/// The result of an operation that may fail with an `IncError`.
pub type IncResult<T> = Result<T, IncError>;

impl From<std::io::Error> for IncError {
    fn from(e: std::io::Error) -> (r: IncError)
        ensures
            r == IncError::IO(e),
    {
        IncError::IO(e)
    }
}

impl vstd::std_specs::convert::FromSpecImpl<std::io::Error> for IncError {
    open spec fn obeys_from_spec() -> bool {
        true
    }

    open spec fn from_spec(e: std::io::Error) -> IncError {
        IncError::IO(e)
    }
}

impl From<&'static str> for IncError {
    fn from(e: &'static str) -> (r: IncError)
        ensures
            r == IncError::Literal(e),
    {
        IncError::Literal(e)
    }
}

impl vstd::std_specs::convert::FromSpecImpl<&'static str> for IncError {
    open spec fn obeys_from_spec() -> bool {
        true
    }

    open spec fn from_spec(e: &'static str) -> IncError {
        IncError::Literal(e)
    }
}

} // verus!
