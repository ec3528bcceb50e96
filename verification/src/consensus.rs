//! The consensus-facing surface: blocks carrying an accumulator and a proof,
//! and the slot arithmetic block validation rests on. The density heuristic
//! itself is a consumer of this crate, not part of it.

pub mod density;
