//! Near-duplicate image detection: a cache-backed perceptual-hashing pipeline
//! feeding a metric-index-based grouping algorithm, together with the helpers
//! around it (scanning by extension, capture-date resolution, date-bucketed
//! destination paths).

pub mod cache;
pub mod codec;
pub mod folder;
pub mod grouping;
pub mod hashing;
pub mod index;
pub mod metadata;
pub mod pipeline;
pub mod scanner;
pub mod sorter;
