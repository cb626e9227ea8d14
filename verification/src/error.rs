//! Classified failures shared by every backend.

use vstd::prelude::*;

verus! {

/// The class of a failed filesystem operation.
#[derive(Debug, Clone, Copy, PartialEq, Eq, Structural)]
pub enum ErrorKind {
    /// The path does not lead to an entry of the wanted type.
    NotFound,
    /// An entry already occupies the path.
    AlreadyExists,
    /// The path or the seek position is malformed.
    InvalidInput,
    /// The archive is corrupt.
    InvalidData,
    /// The path leaves the sandbox.
    PermissionDenied,
    /// The backend does not offer the operation.
    Unsupported,
    /// Any other failure of the underlying medium.
    Other,
}

/// A classified failure.
#[derive(Debug, Clone, Copy, PartialEq, Eq, Structural)]
pub struct Error {
    /// The class of the failure.
    pub kind: ErrorKind,
}

impl Error {
    /// Builds an error of the given class.
    pub fn new(kind: ErrorKind) -> (e: Error)
        ensures
            e == (Error { kind }),
    {
        Error { kind }
    }

    /// The class of this error.
    pub fn kind(&self) -> (k: ErrorKind)
        ensures
            k == self.kind,
    {
        self.kind
    }
}

/// The error of the standard library's input and output. Nothing inside it is read here.
#[verifier::external_type_specification]
#[verifier::external_body]
pub struct ExIoError(std::io::Error);

/// `std::io::Error::kind`, with the variants of the standard library's `ErrorKind` told
/// apart: the error of this library for an error of the standard library's input and
/// output. The class is kept, as far as this library has one for it, and the message is
/// not. Nothing is promised of the outcome.
#[verifier::external_body]
pub(crate) fn io_failure(e: std::io::Error) -> Error {
    Error {
        kind: match e.kind() {
            std::io::ErrorKind::NotFound => ErrorKind::NotFound,
            std::io::ErrorKind::AlreadyExists => ErrorKind::AlreadyExists,
            std::io::ErrorKind::InvalidInput => ErrorKind::InvalidInput,
            std::io::ErrorKind::InvalidData => ErrorKind::InvalidData,
            std::io::ErrorKind::PermissionDenied => ErrorKind::PermissionDenied,
            std::io::ErrorKind::Unsupported => ErrorKind::Unsupported,
            _ => ErrorKind::Other,
        },
    }
}

} // verus!
