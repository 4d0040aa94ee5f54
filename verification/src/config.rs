//! Configuration structs consumed by the layers around the storage core.
//!
//! None of these drive an algorithm here; each is validated as a batch,
//! collecting every violated rule.

pub mod cache;
pub mod compaction;
pub mod mvcc;
pub mod performance;
pub mod tconfig;
