//! Probabilistic set-membership filters over fixed-size bit arrays.
//!
//! A filter answers "may this value have been inserted?" with no false
//! negatives and a tunable rate of false positives.

pub mod bloom_filters;
