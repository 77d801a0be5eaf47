//! Core of a disk-usage analyzer: a bounded top-N selector, a path interning
//! pool, a single-pass categorizing collector, a sharded collector that merges
//! per-worker shards, and a staged duplicate-content detector.

pub mod bounded_heap;
pub mod categorize;
pub mod checkpoint;
pub mod cli;
pub mod collector;
pub mod config;
pub mod duplicates;
pub mod parallel_scanner;
pub mod path_pool;
pub mod rank;
pub mod scanner;
pub mod sharded_collector;
pub mod text;
pub mod types;
