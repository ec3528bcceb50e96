//! Blocks and the slot arithmetic of density-based consensus. A block is
//! validated by two checks: its timestamp's slot must not lie in the future,
//! and the state proof it carries must verify against the accumulator it
//! carries. The floating-point density windowing built on top of these
//! numbers lives with the consensus consumer, outside this crate.

use vstd::prelude::*;
use crate::accumulator::reed_solomon::{RSProof, ReedSolomonAccumulator};

verus! {

/// Seconds each slot lasts.
pub const SLOT_DURATION: u64 = 1;

/// The number of blocks a density window considers.
pub const WINDOW_SIZE: u64 = 50;

/// A block as the consensus layer carries it: chain position, a committed
/// accumulator snapshot, and the proof for its state.
#[derive(Clone, Debug)]
pub struct Block {
    pub parent_hash: [u8; 32],
    pub height: u64,
    pub timestamp: u64,
    pub state_proof: RSProof,
    pub accumulator: ReedSolomonAccumulator,
}

/// Configuration of the density-based fork-choice rule.
pub struct DensityConsensus {
    window_size: u64,
    slot_duration: u64,
}

impl DensityConsensus {
    /// The configured density window, in blocks.
    pub closed spec fn spec_window_size(self) -> u64 {
        self.window_size
    }

    /// The configured slot length, in seconds.
    pub closed spec fn spec_slot_duration(self) -> u64 {
        self.slot_duration
    }

    /// Slot arithmetic never divides by zero.
    pub open spec fn wf(self) -> bool {
        self.spec_slot_duration() > 0
    }

    /// The standard configuration.
    pub fn new() -> (r: Self)
        ensures
            r.wf(),
            r.spec_window_size() == WINDOW_SIZE,
            r.spec_slot_duration() == SLOT_DURATION,
    {
        DensityConsensus { window_size: WINDOW_SIZE, slot_duration: SLOT_DURATION }
    }

    /// The configured density window, in blocks.
    pub fn window_size(&self) -> (r: u64)
        ensures
            r == self.spec_window_size(),
    {
        self.window_size
    }

    /// The configured slot length, in seconds.
    pub fn slot_duration(&self) -> (r: u64)
        ensures
            r == self.spec_slot_duration(),
    {
        self.slot_duration
    }

    /// The number of whole slots a time window spans.
    pub fn expected_slots(&self, start_time: u64, end_time: u64) -> (r: u64)
        requires
            self.wf(),
            start_time <= end_time,
        ensures
            r == (end_time - start_time) as int / self.spec_slot_duration() as int,
    {
        (end_time - start_time) / self.slot_duration
    }

    /// The slot a wall-clock instant falls in; the caller reads the clock and
    /// hands the instant in, as seconds since the epoch.
    pub fn current_slot(&self, now_secs: u64) -> (r: u64)
        requires
            self.wf(),
        ensures
            r == now_secs as int / self.spec_slot_duration() as int,
    {
        now_secs / self.slot_duration
    }

    /// Validate a block at a given wall-clock instant: its slot must not lie
    /// in the future, and the proof it carries must verify against the
    /// accumulator it carries. A failed check is an ordinary `false`.
    pub fn validate_block(&self, block: &Block, now_secs: u64) -> (r: bool)
        requires
            self.wf(),
            block.accumulator.wf(),
        ensures
            r == (block.timestamp as int / self.spec_slot_duration() as int <= now_secs as int
                / self.spec_slot_duration() as int && block.accumulator.accepts(
                block.state_proof,
            )),
    {
        let current_slot = self.current_slot(now_secs);
        let block_slot = block.timestamp / self.slot_duration;
        if block_slot > current_slot {
            return false;
        }
        block.accumulator.verify(&block.state_proof)
    }
}

} // verus!
