//! Cryptographic primitives: prime-field arithmetic and the Merkle tree.

pub mod fermat;
pub mod field;
pub mod merkle;
