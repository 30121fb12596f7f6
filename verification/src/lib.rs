//! Per-key aggregate statistics over a directory of compressed,
//! space-delimited text logs: each file is decompressed and decoded into
//! records, its valid rows are folded into a partial per-key accumulator
//! map, the partial maps are merged into one combined map, and the result is
//! serialized as a CSV report sorted by key.
//!
//! - [`order`]: byte-lexicographic key comparison.
//! - [`value`]: whitespace trimming, integer parsing, decimal rendering.
//! - [`codec`]: the external collaborators (gzip decoder, record decoder,
//!   CSV line writer) behind named, trusted contracts.
//! - [`stats`]: row classification, per-file aggregation, the merge, and the
//!   laws the aggregation obeys.
//! - [`report`]: the sorted CSV report.
pub mod codec;
pub mod order;
pub mod report;
pub mod stats;
pub mod value;
