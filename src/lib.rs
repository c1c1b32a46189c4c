//! A perfect (power-of-two, padded) Merkle tree over byte items, generic over
//! the hash function, with inclusion proofs and their validation.

pub mod hash;
pub mod lemmas;
pub mod merkle_tree;

pub use merkle_tree::{MerkleProof, MerkleTree, PositionedHash};
