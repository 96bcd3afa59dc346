//! Tries held in memory: lookup, insertion and removal, the canonical shape
//! and the Merkle hash, and how a trie is written to the store and read back.

pub mod lookup;
pub mod shape;
pub mod insert;
pub mod remove;
pub mod merkle;
pub mod unique;
pub mod batch;
pub mod store;
pub mod persist;
