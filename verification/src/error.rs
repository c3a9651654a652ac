//! The error taxonomy of the library: every fallible operation reports one of
//! these variants.

use vstd::prelude::*;

verus! {

/// Why an operation failed.
#[derive(Clone, Copy, Debug, PartialEq, Eq, Structural)]
pub enum TodoError {
    /// A file could not be opened, read, written or copied.
    IoError,
    /// The backing file's contents could not be decoded.
    ParseError,
    /// The task list could not be encoded for saving.
    SerializeError,
    /// A command argument was missing or unrecognized.
    InvalidArgument,
    /// No command matches the given name.
    NoMatchingCommand,
}

impl TodoError {
    /// A human-readable message for the error, for the surrounding program to
    /// print.
    pub fn message(&self) -> (r: &'static str)
        ensures
            r@ == self.message_spec(),
    {
        match self {
            TodoError::IoError => "FILE-ERROR",
            TodoError::ParseError => "PARSE-ERROR",
            TodoError::SerializeError => "SERIALIZE-ERROR",
            TodoError::InvalidArgument => "INVALID-ARGUMENT",
            TodoError::NoMatchingCommand => "NO-MATCHING-COMMAND",
        }
    }

    /// The message that `message` returns for each variant.
    pub open spec fn message_spec(&self) -> Seq<char> {
        match self {
            TodoError::IoError => "FILE-ERROR"@,
            TodoError::ParseError => "PARSE-ERROR"@,
            TodoError::SerializeError => "SERIALIZE-ERROR"@,
            TodoError::InvalidArgument => "INVALID-ARGUMENT"@,
            TodoError::NoMatchingCommand => "NO-MATCHING-COMMAND"@,
        }
    }
}

} // verus!
