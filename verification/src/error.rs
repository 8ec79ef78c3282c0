//! The store's error taxonomy.

use vstd::prelude::*;
use vstd::string::StringExecFns;

verus! {

/// Every failure the store and its surrounding layers can report.
#[derive(Debug, Clone, Copy, PartialEq, Eq, Structural)]
pub enum KvsError {
    /// A file or socket operation failed.
    IoError,
    /// A record that was expected to be well formed could not be encoded or
    /// decoded.
    SerializationError,
    /// A removal was asked for a key that has no live value.
    KeyNotFound,
    /// The index pointed at a record that is not a `Set` record: the store's
    /// invariant was violated.
    StoreCorruption,
    /// A request on the wire was malformed or used an unknown operation.
    ProtocolError,
    /// The selected storage backend does not match the data already on disk.
    EngineMismatch,
    /// The worker pool was configured with an invalid size.
    ThreadPoolError,
}

impl KvsError {
    /// The text each failure shows to a user.
    pub open spec fn spec_message(self) -> Seq<char> {
        match self {
            KvsError::IoError => "IO error"@,
            KvsError::SerializationError => "Serialization error"@,
            KvsError::KeyNotFound => "Key not found"@,
            KvsError::StoreCorruption => "Store corruption error"@,
            KvsError::ProtocolError => "Protocol error"@,
            KvsError::EngineMismatch => "Engine mismatch error"@,
            KvsError::ThreadPoolError => "Thread pool error"@,
        }
    }

    /// Renders the failure as its message.
    pub fn message(&self) -> (r: String)
        ensures
            r@ == self.spec_message(),
    {
        match self {
            KvsError::IoError => String::from_str("IO error"),
            KvsError::SerializationError => String::from_str("Serialization error"),
            KvsError::KeyNotFound => String::from_str("Key not found"),
            KvsError::StoreCorruption => String::from_str("Store corruption error"),
            KvsError::ProtocolError => String::from_str("Protocol error"),
            KvsError::EngineMismatch => String::from_str("Engine mismatch error"),
            KvsError::ThreadPoolError => String::from_str("Thread pool error"),
        }
    }
}

} // verus!
