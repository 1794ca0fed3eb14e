//! The compaction core of a log-structured merge-tree storage engine:
//! the table file format, the merging iterators, the compaction
//! strategies and the executor that rewrites tables, with every routine
//! specified over mathematical models and machine-checked.

pub mod block;
pub mod compact;
pub mod error;
pub mod iterators;
pub mod key;
pub mod lsm_storage;
pub mod table;
pub mod wire;
