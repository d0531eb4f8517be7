//! Per-key min/mean/max aggregation over a delimited text file of
//! `<key>;<decimal-value>` records.
//!
//! The file is split into line-aligned byte ranges, each range is scanned
//! into an independent per-key statistics map, and the per-range maps are
//! merged into one result. Every component is specified and verified:
//! the fixed-grammar decimal parser, the FNV-1a hash, the statistics map,
//! the range partitioner, the chunk scanner, and the merge step.

pub mod coordinator;
pub mod duration;
pub mod fnv;
pub mod laws;
pub mod lines;
pub mod model;
pub mod partition;
pub mod registry;
pub mod scanner;
pub mod stats;
pub mod temperature;
