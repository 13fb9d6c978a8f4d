//! A fixed-height, array-backed Merkle tree.
//!
//! The tree commits to a sequence of appended string values through an
//! injected hashing capability.  Leaves hold the hashes of inserted values;
//! internal nodes hold the hash of their children's hashes, computed lazily
//! on demand.  The single root hash authenticates the whole leaf set.

pub mod addressing;
pub mod hash;
pub mod laws;
pub mod tree;

pub use hash::{BasicHasher, HashFunction};
pub use tree::{MerkleTree, MerkleTreeError, Opening};
