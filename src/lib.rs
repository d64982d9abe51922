//! Approximate set-membership filters: a counting bloom filter over packed
//! saturating counters, and a cuckoo filter over bins of one-byte fingerprints.
pub mod bloom;
pub mod cuckoo;
pub mod hashing;

pub use bloom::{calc_max_counter, CountingBloomFilter, Error};
pub use cuckoo::CuckooFilter;
pub use hashing::SeededHash;
