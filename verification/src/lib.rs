//! A single-node, log-structured key-value store with a minimal
//! request/response protocol and a pluggable storage-engine contract.
//!
//! The store appends every mutation to a log of records, keeps an in-memory
//! index from each key to the byte span of its most recent `Set` record, and
//! compacts the log once the bytes no longer reachable from the index cross a
//! fixed threshold. The log is the source of truth: the index is rebuilt by
//! replaying the log from the start.

pub mod codec;
pub mod command;
pub mod engine;
pub mod error;
pub mod index;
pub mod protocol;
pub mod store;

pub use command::Command;
pub use command::CommandView;
pub use engine::KvsEngine;
pub use error::KvsError;
pub use index::LogInFile;
pub use store::KvStore;
