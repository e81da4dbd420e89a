//! A persistent, single-node, embeddable key-value store.
//!
//! Keys and values are UTF-8 strings. The store is log-structured: every
//! mutation appends a length-prefixed record to the active log segment, an
//! in-memory index maps each live key to the byte offset of its most recent
//! record, and an online compaction pass rewrites live records into a fresh
//! segment once the active one grows past a size threshold.
//!
//! The engine itself ([`kv::KvStore`]) works on the segment contents as plain
//! bytes; an embedding program keeps a directory on disk in step with them.

pub mod client;
pub mod codec;
pub mod common;
pub mod engine;
pub mod error;
pub mod kv;
pub mod manifest;
pub mod replay;
pub mod server;

pub use common::Command;
pub use engine::KvsEngine;
pub use error::KvError;
pub use kv::KvStore;
