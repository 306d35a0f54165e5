//! A small task store: an in-memory collection of task records keyed by id,
//! together with a byte-level codec for the JSON document in which the store
//! is persisted.
//!
//! The store offers upsert-style insert/update, lookup, listing and idempotent
//! delete. The codec turns a store into the bytes of a JSON object mapping
//! string-encoded ids to task objects, and parses such bytes back; parsing a
//! saved store is proved to recover exactly the saved contents.

pub mod codec;
pub mod model;
pub mod store;

pub use model::Task;
pub use store::Db;
