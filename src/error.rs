use vstd::prelude::*;

verus! {

#[verifier::external_type_specification]
#[verifier::external_body]
pub struct ExIoError(std::io::Error);

#[verifier::external_type_specification]
#[verifier::external_body]
pub struct ExJsonError(serde_json::Error);

/// Error types used by the store.
#[derive(Debug)]
pub enum KvsError {
    /// A lower-level I/O failure.
    Io(std::io::Error),
    /// A record could not be encoded or decoded.
    Serde(serde_json::Error),
    /// `remove` was called on a key that is not in the store.
    KeyNotFound,
    /// A directory entry points at bytes that are not a `Set` record, which
    /// indicates a corrupted log or a program bug.
    UnexpectedCommandType,
}

/// The result type of the store's fallible operations.
pub type Result<T> = core::result::Result<T, KvsError>;

} // verus!
