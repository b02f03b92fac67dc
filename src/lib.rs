//! Memoized deferred proofs of query results, kept in a LogUp multiset accumulator whose
//! Fiat-Shamir challenge is the hash of a content-addressed transcript.
pub mod circuit;
pub mod field;
pub mod memo;
pub mod query;
pub mod scope;
pub mod store;
pub mod transcript;
