//! Streaming ingestion and aggregation pipeline for per-operator profiling
//! data from a distributed dataflow engine.
//!
//! The library consumes differential change feeds (inserts and retracts
//! tagged with a logical time and periodic progress markers), merges them
//! into a single globally time-ordered batch stream via frontier tracking,
//! folds the batches into per-(operator, worker) counters, converts
//! cumulative scheduling times into exclusive per-node times using the
//! operator nesting hierarchy, and builds a deduplicated call-tree profile
//! artifact.

pub mod aggregate;
pub mod collect;
pub mod encode;
pub mod kv;
pub mod pprof;
pub mod subscribe;
pub mod text;
pub mod types;
