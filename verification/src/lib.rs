//! A minimal durable key-value store: an in-memory index over an append-only
//! log of `key,value` lines. The log is the source of truth; the index is
//! rebuilt from it by replay at startup and updated only after a record has
//! been durably appended.
pub mod codec;
pub mod store;

pub use store::Store;
