//! The error taxonomy shared by split generation and reading.
//!
//! Every fallible operation of this crate returns exactly one of these
//! tagged errors. Diagnostic text travels inside the error value; nothing
//! here logs or retries.

use vstd::prelude::*;
use vstd::string::StringExecFns;

verus! {

/// Error raised by split generation and reading operations.
#[derive(Debug, Clone, PartialEq, Eq)]
pub enum SplitsError {
    /// A filesystem operation failed.
    Io(String),
    /// The external index library reported a failure.
    IndexLibrary(String),
    /// Hotcache encoding or decoding failed.
    Serialization(String),
    /// A split's structure or footer is invalid, or a required file is missing.
    InvalidSplit(String),
    /// A requested field is absent or lacks the requested byte range.
    FieldError(String),
    /// Bad arguments, an unknown handle, or a non-positive configuration value.
    InvalidOperation(String),
}

impl SplitsError {
    /// The diagnostic text carried inside the error.
    pub fn detail(&self) -> (r: &String)
        ensures
            r@ == match self {
                SplitsError::Io(m) => m@,
                SplitsError::IndexLibrary(m) => m@,
                SplitsError::Serialization(m) => m@,
                SplitsError::InvalidSplit(m) => m@,
                SplitsError::FieldError(m) => m@,
                SplitsError::InvalidOperation(m) => m@,
            },
    {
        match self {
            SplitsError::Io(m) => m,
            SplitsError::IndexLibrary(m) => m,
            SplitsError::Serialization(m) => m,
            SplitsError::InvalidSplit(m) => m,
            SplitsError::FieldError(m) => m,
            SplitsError::InvalidOperation(m) => m,
        }
    }

    /// A rendered description: the error's kind followed by its detail.
    pub fn message(&self) -> (r: String)
        ensures
            r@ == match self {
                SplitsError::Io(m) => "IO error: "@ + m@,
                SplitsError::IndexLibrary(m) => "Index library error: "@ + m@,
                SplitsError::Serialization(m) => "Serialization error: "@ + m@,
                SplitsError::InvalidSplit(m) => "Invalid split: "@ + m@,
                SplitsError::FieldError(m) => "Field error: "@ + m@,
                SplitsError::InvalidOperation(m) => "Invalid operation: "@ + m@,
            },
    {
        match self {
            SplitsError::Io(m) => String::from_str("IO error: ").concat(m.as_str()),
            SplitsError::IndexLibrary(m) => String::from_str("Index library error: ").concat(
                m.as_str(),
            ),
            SplitsError::Serialization(m) => String::from_str("Serialization error: ").concat(
                m.as_str(),
            ),
            SplitsError::InvalidSplit(m) => String::from_str("Invalid split: ").concat(m.as_str()),
            SplitsError::FieldError(m) => String::from_str("Field error: ").concat(m.as_str()),
            SplitsError::InvalidOperation(m) => String::from_str("Invalid operation: ").concat(
                m.as_str(),
            ),
        }
    }
}

} // verus!
