//! An embedded ordered key-value storage engine built on a log-structured
//! merge design.
//!
//! The engine keeps the authoritative copy of every file it manages as plain
//! bytes in memory: the write-ahead log is a byte vector, and every sorted run
//! ("table") is a parsed, sorted vector of entries.  Each mutating operation
//! returns the list of [`table_manager::FileOp`] actions that a caller must
//! mirror to durable storage to keep the on-disk directory in step with the
//! verified state.  Opening an engine takes the raw bytes read back from that
//! directory.

pub mod bytes;
pub mod cache;
pub mod codec;
pub mod filter;
pub mod log;
pub mod lsm_forest;
pub mod memtable;
pub mod table_manager;
