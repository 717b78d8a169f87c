//! The closed set of failures of the codec.

use vstd::prelude::*;

verus! {

/// Errors that can occur during RLP encoding/decoding.
#[derive(Debug, Clone, Copy, PartialEq, Eq, Structural)]
pub enum Error {
    /// Input bytes are too short
    InputTooShort,
    /// Value length exceeds max allowed
    ValueTooLong,
    /// Non-minimal encoding used for length
    NonMinimalEncoding,
    /// Length prefix is invalid
    InvalidLength,
    /// Expected list, got something else
    UnexpectedString,
    /// Expected string, got something else
    UnexpectedList,
    /// Input contains additional data after valid RLP
    UnexpectedTrailing,
    /// Invalid UTF-8 while decoding a String.
    InvalidUtf8,
}

/// The human-readable description of each error.
pub open spec fn message_of(e: Error) -> &'static str {
    match e {
        Error::InputTooShort => "RLP input too short",
        Error::ValueTooLong => "RLP value length exceeds maximum",
        Error::NonMinimalEncoding => "Non-minimal length encoding",
        Error::InvalidLength => "Invalid length prefix",
        Error::UnexpectedString => "Expected list, got string",
        Error::UnexpectedList => "Expected string, got list",
        Error::UnexpectedTrailing => "Unexpected trailing bytes",
        Error::InvalidUtf8 => "Invalid UTF-8 while decoding a String",
    }
}

impl Error {
    /// A human-readable description of the error.
    pub fn message(&self) -> (r: &'static str)
        ensures
            r == message_of(*self),
    {
        match self {
            Error::InputTooShort => "RLP input too short",
            Error::ValueTooLong => "RLP value length exceeds maximum",
            Error::NonMinimalEncoding => "Non-minimal length encoding",
            Error::InvalidLength => "Invalid length prefix",
            Error::UnexpectedString => "Expected list, got string",
            Error::UnexpectedList => "Expected string, got list",
            Error::UnexpectedTrailing => "Unexpected trailing bytes",
            Error::InvalidUtf8 => "Invalid UTF-8 while decoding a String",
        }
    }
}

} // verus!
