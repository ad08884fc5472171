//! The single error taxonomy shared by the engine, the server and the client.

use vstd::prelude::*;

verus! {

/// Errors reported by the key-value store and its protocol layers.
#[derive(Debug, Clone, PartialEq, Eq)]
pub enum KvsError {
    /// An underlying filesystem or network operation failed.
    Io(String),
    /// A record or message failed to encode or decode.
    Serde(String),
    /// `remove` was asked for a key that is not present.
    KeyNotFound,
    /// The index pointed at a record that is not a `Set` record.
    UnexpectedCommandType,
    /// A server-produced error message carried across the wire.
    StringError(String),
    /// Bytes that should have held a UTF-8 string did not.
    Utf8,
    /// The embedded alternative engine reported an error.
    Sled(String),
}

impl KvsError {
    /// A human-readable description of the error.
    pub fn message(&self) -> (msg: String)
        ensures
            self is KeyNotFound ==> msg@ == "Key not found"@,
    {
        match self {
            KvsError::Io(m) => m.clone(),
            KvsError::Serde(m) => m.clone(),
            KvsError::KeyNotFound => "Key not found".to_owned(),
            KvsError::UnexpectedCommandType => "Unknown command type".to_owned(),
            KvsError::StringError(m) => m.clone(),
            KvsError::Utf8 => "UTF-8 error".to_owned(),
            KvsError::Sled(m) => m.clone(),
        }
    }
}

} // verus!
