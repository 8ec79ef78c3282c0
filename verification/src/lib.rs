//! A log-structured, persistent key-value store.
//!
//! Every mutation is a record appended to a log; an in-memory index maps each
//! live key to the position of its most recent `Put` record in that log.
//! Opening a store replays the log into a fresh index and compacts it, so the
//! log holds exactly one record per live key afterwards.  A minimal line-based
//! wire protocol and a shared, internally synchronized handle round the store
//! out for use by a server.

pub mod client;
pub mod codec;
pub mod engine;
pub mod error;
pub mod server;
pub mod shared;
pub mod sled_engine;
pub mod store;
pub mod thread_pool;
