//! Merkle commitments over an ordered list of byte blocks: tree construction,
//! inclusion proofs by value or by position, and proof validation.

pub mod hashing;
pub mod shape;
pub mod tree;
pub mod builder;
pub mod codec;
pub mod inclusion;
pub mod laws;
pub mod merkletree;
