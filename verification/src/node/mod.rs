//! The trie node model: paths, leaves and branches, the bytes of their
//! records, and their one-line description.

pub mod path;
pub mod branch;
pub mod entries;
pub mod codec;
pub mod text;
