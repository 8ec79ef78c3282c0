//! The engine handle: one open store behind a reader-writer lock, cheap to
//! clone and share across worker threads.
//!
//! Writers — `set`, `remove`, and the dispatcher serving a mutation — hold
//! the store exclusively for the whole of {index change, log append, pointer
//! move}, so record positions and assigned pointers never diverge; readers
//! share it.  The lock's invariant keeps every state any thread sees well
//! formed.

use vstd::prelude::*;
use vstd::rwlock::RwLock;
use vstd::rwlock::RwLockPredicate;
use std::sync::Arc;
use crate::codec::encode_log;
use crate::error::KvsError;
use crate::server::KvsServer;
use crate::server::Req;
use crate::server::not_found_response;
use crate::server::ok_response;
use crate::server::parse_request;
use crate::server::split_fields_spec;
use crate::server::value_response;
use crate::store::KvStore;

verus! {

/// The lock's invariant: the store it guards is always well formed.
pub struct StorePred {}

impl RwLockPredicate<KvStore> for StorePred {
    open spec fn inv(self, v: KvStore) -> bool {
        v.wf()
    }
}

/// A shareable, internally synchronized handle to one open store.  Opening
/// happens once; clones of the handle refer to the same store.
pub struct SharedKvStore {
    lock: Arc<RwLock<KvStore, StorePred>>,
}

impl Clone for SharedKvStore {
    /// Relies on `Arc::clone`: the new handle refers to the same store.
    #[verifier::external_body]
    fn clone(&self) -> (s: Self)
        ensures
            s == *self,
    {
        SharedKvStore { lock: Arc::clone(&self.lock) }
    }
}

impl SharedKvStore {
    /// Wraps a well-formed store for sharing.
    pub fn new(store: KvStore) -> (s: SharedKvStore)
        requires
            store.wf(),
    {
        SharedKvStore { lock: Arc::new(RwLock::new(store, Ghost(StorePred {}))) }
    }

    /// Assigns `value` to `key`, holding the store exclusively for the whole
    /// operation.
    pub fn set(&self, key: String, value: String) -> (r: Result<(), KvsError>)
        ensures
            r is Ok,
    {
        let (mut store, handle) = self.lock.acquire_write();
        let r = store.set(key, value);
        handle.release_write(store);
        r
    }

    /// Reads the live value of `key`; readers share the store.
    pub fn get(&self, key: String) -> (r: Result<Option<String>, KvsError>)
        ensures
            r is Ok,
    {
        let read_handle = self.lock.acquire_read();
        let r = read_handle.borrow().get(key);
        read_handle.release_read();
        r
    }

    /// Withdraws `key`, holding the store exclusively; fails with
    /// `KeyNotFound` when the key has no live value.
    pub fn remove(&self, key: String) -> (r: Result<(), KvsError>)
        ensures
            r is Ok || r == Err::<(), KvsError>(KvsError::KeyNotFound),
    {
        let (mut store, handle) = self.lock.acquire_write();
        let r = store.remove(key);
        handle.release_write(store);
        r
    }

    /// Serves one request buffer against the shared store.  The store never
    /// fails of itself, so only a malformed request is refused, and every
    /// parsed request is answered with a response of its operation's shape:
    /// a mutation with `+OK`, a read with a value line or the not-found
    /// line, a removal with `+OK` or the not-found line.
    pub fn handle_request(&self, buffer: &[u8]) -> (r: Result<Vec<u8>, KvsError>)
        ensures
            match parse_request(split_fields_spec(buffer@)) {
                Some(req) => match req {
                    Req::Get { .. } => r matches Ok(resp) && (resp@ == not_found_response()
                        || exists|v: Seq<char>| resp@ == #[trigger] value_response(v)),
                    Req::Put { .. } => r matches Ok(resp) && resp@ == ok_response(),
                    Req::Rm { .. } => r matches Ok(resp) && (resp@ == ok_response() || resp@
                        == not_found_response()),
                },
                None => r == Err::<Vec<u8>, KvsError>(KvsError::ProtocolError),
            },
    {
        let (mut store, handle) = self.lock.acquire_write();
        let r = KvsServer::handle_request(&mut store, buffer);
        handle.release_write(store);
        r
    }

    /// The bytes the log file should hold for the store's current state;
    /// the caller writes them to disk after a mutation.
    pub fn encoded_log(&self) -> (r: Vec<u8>) {
        let read_handle = self.lock.acquire_read();
        let r = encode_log(&read_handle.borrow().log);
        read_handle.release_read();
        r
    }
}

} // verus!
