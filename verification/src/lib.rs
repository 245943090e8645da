//! A binary Merkle tree over an ordered list of records, with Keccak-256
//! digests rendered as lowercase hexadecimal strings.
//!
//! The tree pads its leaf level to a power of two by repeating the last leaf
//! digest, reduces levels pairwise to a root, and produces and checks
//! membership paths.
pub mod digest;
pub mod pow2;
pub mod levels;
pub mod merkle_tree;
pub mod laws;
