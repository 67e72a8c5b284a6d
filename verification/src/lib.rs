//! An in-memory time-series store with Gorilla-style compression: delta-of-delta
//! encoding for timestamps and XOR-based encoding for floating-point value bit
//! patterns, organized into fixed-duration blocks indexed by series key.

pub mod bitstream;
pub mod timestamp;
pub mod value;
pub mod block;
pub mod series;
pub mod tsmap;
pub mod tsdb;
