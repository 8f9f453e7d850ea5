//! Streaming sub-graph pattern matching with temporal-order constraints.
//!
//! A pattern is a small set of labelled edges with a partial temporal order.
//! It is decomposed into edge-disjoint sub-patterns; each sub-pattern is
//! matched against batches of timestamped input edges; the sub-pattern
//! matches are then joined pairwise, bottom-up, into matches of the whole
//! pattern, inside a bounded time window.
pub mod binding;
pub mod input_edge;
pub mod match_edge;
pub mod pattern;
pub mod pattern_match;
pub mod process_layers;
pub mod sorted;
pub mod sub_pattern;
pub mod sub_pattern_match;
