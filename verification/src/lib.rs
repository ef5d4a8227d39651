//! Complete binary Merkle tree (CBMT): tree construction from an ordered leaf
//! sequence, compressed multi-leaf inclusion proofs, and proof verification,
//! generic over the node value type and the binary combining operation.

pub mod laws;
pub mod merge;
pub mod merkle_tree;
pub mod model;
pub mod sorting;
pub mod tree_index;

pub use crate::merge::Merge;
pub use crate::merge::MergeI32;
pub use crate::merkle_tree::MerkleProof;
pub use crate::merkle_tree::MerkleTree;
pub use crate::merkle_tree::CBMT;
