//! The common contract of a storage backend: `get`, `set` and `remove`
//! against one key-value mapping.
//!
//! Each engine says, through its spec functions, what mapping it holds,
//! what its internal well-formedness is, and whether its operations are
//! guaranteed to succeed.  The log-structured engine is reliable: it runs in
//! memory and its file input/output sits outside these calls.  A backend
//! that delegates to an embedded database is not: a device error can surface
//! from any call.

use vstd::prelude::*;
use crate::error::KvsError;

verus! {

/// A storage backend.  All three operations speak about `kv_map`, the
/// mapping the engine holds; `reliable` says whether failure is possible at
/// all.
pub trait KvsEngine: Sized {
    /// The key-value mapping the engine currently holds.
    spec fn kv_map(&self) -> Map<Seq<char>, Seq<char>>;

    /// The engine's internal well-formedness.
    spec fn inv(&self) -> bool;

    /// Whether operations are guaranteed to succeed.
    spec fn reliable(&self) -> bool;

    /// Assigns `value` to `key`.
    fn set(&mut self, key: String, value: String) -> (r: Result<(), KvsError>)
        requires
            old(self).inv(),
        ensures
            final(self).inv(),
            r is Ok ==> final(self).kv_map() == old(self).kv_map().insert(key@, value@),
            r is Err ==> !old(self).reliable(),
    ;

    /// Reads the value of `key`; an absent key is not an error.  A read can
    /// fail only on an unreliable engine, and only for a device failure or a
    /// stored value that does not decode.
    fn get(&self, key: String) -> (r: Result<Option<String>, KvsError>)
        requires
            self.inv(),
        ensures
            match r {
                Ok(Some(v)) => self.kv_map().contains_key(key@) && v@ == self.kv_map()[key@],
                Ok(None) => !self.kv_map().contains_key(key@),
                Err(e) => !self.reliable() && (e == KvsError::IoError
                    || e == KvsError::SerializationError),
            },
    ;

    /// Withdraws `key`; fails with `KeyNotFound` when it has no value.
    fn remove(&mut self, key: String) -> (r: Result<(), KvsError>)
        requires
            old(self).inv(),
        ensures
            final(self).inv(),
            r is Ok ==> old(self).kv_map().contains_key(key@) && final(self).kv_map() == old(
                self,
            ).kv_map().remove(key@),
            r == Err::<(), KvsError>(KvsError::KeyNotFound) ==> !old(self).kv_map().contains_key(
                key@,
            ) && final(self).kv_map() == old(self).kv_map(),
            r is Err ==> r == Err::<(), KvsError>(KvsError::KeyNotFound) || !old(
                self,
            ).reliable(),
    ;
}

} // verus!
