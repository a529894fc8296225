//! A sixteen-slot byte trie resolved with lane-parallel bit operations.
//!
//! A rooted, edge-labelled tree of at most sixteen edges and depth at most
//! eight is packed into two sixteen-byte arrays.  A key of one to eight bytes
//! is then resolved with a fixed number of lane-wise operations into a miss,
//! a branch rank or a value rank.

pub mod builder;
pub mod counting;
pub mod edge;
pub mod error;
pub mod grow;
pub mod lanes;
pub mod laws;
pub mod oracle;
pub mod packed;
pub mod shape;
pub mod tree;
pub mod trie;

pub use crate::builder::build_tree;
pub use crate::edge::{Edge, Lookup};
pub use crate::error::TrieError;
pub use crate::oracle::TestTree;
pub use crate::trie::ByteTrie16;
