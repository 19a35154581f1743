//! Mergeable descriptive statistics over streams of scalar samples.
//!
//! Each aggregate is built incrementally from samples, can be folded into
//! another aggregate of the same kind without re-reading the raw data, and
//! answers its statistic queries from the combined state alone.

pub mod commute;
pub mod minmax;
pub mod order;
pub mod unsorted;

pub use commute::merge_all;
pub use commute::Commute;
pub use minmax::MinMax;
pub use order::Ordered;
pub use unsorted::antimodes;
pub use unsorted::mad;
pub use unsorted::median;
pub use unsorted::mode;
pub use unsorted::modes;
pub use unsorted::quartiles;
pub use unsorted::Unsorted;
pub use unsorted::DEFAULT_PARALLEL_THRESHOLD;
