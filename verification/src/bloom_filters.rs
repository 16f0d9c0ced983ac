//! The filter family: bit storage, index derivation and the filters.

pub mod base;
pub mod bit_array;
pub mod classical_bloom_filter;
pub mod hashing;
pub mod partitioned_bloom_filter;

pub use base::{ConstructionError, Filter};
pub use classical_bloom_filter::ClassicalBloomFilter;
pub use partitioned_bloom_filter::PartitionedBloomFilter;
