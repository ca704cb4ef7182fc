//! The error taxonomy shared by the engine, the server and the client.

use vstd::prelude::*;

verus! {

/// Everything that can go wrong inside the store or on the wire.
#[derive(Debug, Clone, Copy, PartialEq, Eq, Structural)]
pub enum KvsError {
    /// `remove` was called on a key that is not in the store.
    KeyNotFound,
    /// A location named by the index decoded to a record of the wrong
    /// variant: the index and the log have diverged.
    UnexpectedCommandType,
    /// A log file or a wire message failed to decode as a record stream.
    Serialization,
    /// The underlying byte transport failed, or a log position left `u64`.
    Io,
    /// The directory was initialised by a different storage backend.
    EngineMismatch,
}

/// The fixed text that each error surfaces.
pub open spec fn message_spec(e: KvsError) -> Seq<char> {
    match e {
        KvsError::KeyNotFound => "Key not found"@,
        KvsError::UnexpectedCommandType => "unexpected command type in log"@,
        KvsError::Serialization => "serialization failure"@,
        KvsError::Io => "i/o failure"@,
        KvsError::EngineMismatch => "wrong storage engine for this directory"@,
    }
}

impl KvsError {
    /// The human-readable message that clients and the command line surface.
    pub fn message(&self) -> (r: &'static str)
        ensures
            r@ == message_spec(*self),
    {
        match self {
            KvsError::KeyNotFound => "Key not found",
            KvsError::UnexpectedCommandType => "unexpected command type in log",
            KvsError::Serialization => "serialization failure",
            KvsError::Io => "i/o failure",
            KvsError::EngineMismatch => "wrong storage engine for this directory",
        }
    }
}

} // verus!
