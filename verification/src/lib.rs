//! Verifiable state accumulation: modular field arithmetic, a SHA-256 Merkle
//! authentication tree, and a Reed-Solomon style accumulator with a
//! commit/open/fold protocol, all carrying machine-checked contracts.

pub mod accumulator;
pub mod consensus;
pub mod crypto;

pub use accumulator::reed_solomon::ReedSolomonAccumulator;
pub use accumulator::Accumulator;
pub use consensus::density::{Block, DensityConsensus};
pub use crypto::field::FieldElement;
