//! What can go wrong in a store.

use vstd::prelude::*;
use vstd::std_specs::convert::FromSpecImpl;

verus! {

/// What can go wrong in a store operation.
#[derive(Debug, Clone, Copy, PartialEq, Eq, Structural)]
pub enum KvError {
    /// The log file could not be created, opened, read or written. The
    /// library touches no file: this is for the caller that does.
    IoError,
    /// A command could not be written as a line, or a line of the log is no
    /// well-formed command.
    SerdeError,
    /// A removal named a key that is not bound.
    KeyNotFound,
}

/// The error of the standard library's input and output. Nothing is known
/// of what it holds.
#[verifier::external_type_specification]
#[verifier::external_body]
pub struct ExIoError(std::io::Error);

impl From<std::io::Error> for KvError {
    fn from(io_error: std::io::Error) -> (error: KvError) {
        KvError::IoError
    }
}

impl FromSpecImpl<std::io::Error> for KvError {
    open spec fn obeys_from_spec() -> bool {
        true
    }

    open spec fn from_spec(io_error: std::io::Error) -> KvError {
        KvError::IoError
    }
}

impl From<serde_json::Error> for KvError {
    fn from(serde_error: serde_json::Error) -> (error: KvError) {
        KvError::SerdeError
    }
}

impl FromSpecImpl<serde_json::Error> for KvError {
    open spec fn obeys_from_spec() -> bool {
        true
    }

    open spec fn from_spec(serde_error: serde_json::Error) -> KvError {
        KvError::SerdeError
    }
}

} // verus!
