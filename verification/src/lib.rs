//! A versioned Merkle-trie storage engine.
//!
//! Keys and values are byte strings. They are held in a radix-16 trie
//! whose root hash authenticates all of its content. Batches of puts and
//! deletes become proposals on the current revision; one proposal at a
//! time is committed and becomes the current revision; a bounded number
//! of committed revisions is kept and can be read by root hash.
//!
//! The library touches no file. A database is opened on the bytes of its
//! store, and every commit queues the storage operations that make it
//! durable, in the order in which they must be carried out.
//!
//! - [`node`]: trie nodes, their records, and their one-line description.
//! - [`trie`]: lookup, insertion and removal on tries held in memory, the
//!   Merkle hash, and how a trie lies in the store.
//! - [`storage`]: the header of the store and the queue of storage operations.
//! - [`revision`], [`index`], [`manager`]: committed revisions and
//!   proposals, and the manager that orders commits and bounds the history.
//! - [`db`], [`recovery`]: the database, and what reopening finds after a
//!   commit or a crash.
//! - [`workload`]: batches over keys that are digests of row numbers.

pub mod address;
pub mod hash;
pub mod digest;
pub mod shared;
pub mod node;
pub mod trie;
pub mod storage;
pub mod revision;
pub mod index;
pub mod manager;
pub mod db;
pub mod recovery;
pub mod workload;
