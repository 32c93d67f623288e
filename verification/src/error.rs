//! The error type shared by every engine operation.

use vstd::prelude::*;

verus! {

/// Why an engine operation failed.
#[derive(Clone, Debug, PartialEq, Eq, Structural)]
pub enum KvsError {
    /// A filesystem or network failure, reported by the host as text.
    Io,
    /// A log record or wire message did not parse.
    Decode,
    /// `remove` was asked for a key that is not present.
    KeyNotFound,
    /// An index entry resolved to a `Remove` record: the log is corrupt.
    UnexpectedCommandType,
}

impl KvsError {
    /// The human-readable message for this error, as printed by the
    /// command-line tools and sent in wire error responses.
    pub fn message(&self) -> (r: String)
        ensures
            self is KeyNotFound ==> r@ == "Key not found"@,
            self is Decode ==> r@ == "Decode error"@,
    {
        proof {
            reveal_strlit("Key not found");
            reveal_strlit("Decode error");
        }
        match self {
            KvsError::Io => String::from_str("I/O error"),
            KvsError::Decode => String::from_str("Decode error"),
            KvsError::KeyNotFound => String::from_str("Key not found"),
            KvsError::UnexpectedCommandType => String::from_str("Unexpected command type"),
        }
    }
}

} // verus!
