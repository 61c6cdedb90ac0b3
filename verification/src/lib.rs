//! Locates compiler-emitted assembly or IR text for a requested source-level
//! function across a set of build artifact files, and resolves ambiguity when
//! the exact function cannot be found: artifact discovery (filtering, merging,
//! sorting, deduplication of candidate files) and function resolution
//! (first-match short-circuit scanning, order-independent catalog
//! aggregation, and edit-distance suggestion ranking).

pub mod discover;
pub mod order;
pub mod report;
pub mod resolve;
pub mod style;
pub mod suggest;
