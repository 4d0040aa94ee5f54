//! Write path of a log-structured-merge key-value storage engine.
//!
//! The core turns a stream of put/delete operations into a crash-durable
//! on-disk record and a queryable in-memory sorted structure, while
//! keeping a crash-consistent directory of metadata:
//!
//! - [`internal_key`]: the versioned, totally ordered key encoding;
//! - [`skiplist`]: the ordered map the in-memory buffer is built on;
//! - [`memtable`]: the size-bounded buffer of recent writes;
//! - [`wal`]: the binary log format, its checksummed records and replay;
//! - [`file_manager`]: the directory protocol's names, numbers and
//!   manifest format;
//! - [`config`] and [`config_errors`]: validated configuration consumed
//!   by the surrounding layers.
//!
//! All filesystem work (opening, syncing, renaming) belongs to the
//! embedding system; this crate decides what bytes move and what they
//! mean.

pub mod config;
pub mod config_errors;
pub mod encoding;
pub mod file_manager;
pub mod internal_key;
pub mod logentry;
pub mod memtable;
pub mod skiplist;
pub mod storage_errors;
pub mod wal;
