//! A multi-field packet classifier built on a range-vector hash decomposition.
//!
//! Rules — tuples of fields, contiguous-prefix masks, and a positive
//! priority — are partitioned across a bank of range-vector hash tables,
//! each specialized to one rectangular region of prefix-length space.
//! Lookup scans the bank in descending order of per-table maximum priority
//! and terminates early once no later table can beat the current best.

pub mod classifier;
pub mod range_vector_hash_map;
pub mod types;

pub use classifier::RVHClassifier;
pub use range_vector_hash_map::RVHashMap;
