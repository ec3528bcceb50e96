//! The abstract commit/verify/fold interface an accumulator offers, and the
//! failures its operations can report.

use vstd::prelude::*;

pub mod reed_solomon;

verus! {

/// Failure of an accumulator operation.
#[derive(Clone, Copy, Debug, PartialEq, Eq, Structural)]
pub enum AccumulatorError {
    /// `accumulate` was handed more elements than the evaluation domain holds.
    StateTooLarge,
}

/// The commit/verify/fold contract any accumulator implementation satisfies:
/// a fresh instance is well formed, every operation preserves well-formedness,
/// and each implementation names which states it accepts and which pairs it
/// can fold.
pub trait Accumulator: Sized {
    type Proof;

    type State;

    /// The implementation's internal invariant.
    spec fn inv(&self) -> bool;

    /// The states `accumulate` is prepared to commit to.
    spec fn state_ok(state: &Self::State) -> bool;

    /// The pairs of instances `fold` is prepared to combine.
    spec fn foldable(&self, other: &Self) -> bool;

    /// A fresh, empty accumulator.
    fn new() -> (r: Self)
        ensures
            r.inv(),
    ;

    /// Commit to a state vector, yielding a proof, or report that the state
    /// does not fit the domain.
    fn accumulate(&mut self, state: Self::State) -> (r: Result<Self::Proof, AccumulatorError>)
        requires
            old(self).inv(),
            Self::state_ok(&state),
        ensures
            final(self).inv(),
    ;

    /// Check a proof; a failed check is an ordinary `false`, never an abort.
    fn verify(&self, pf: &Self::Proof) -> bool
        requires
            self.inv(),
    ;

    /// Combine another accumulator's state into this one, yielding a proof
    /// for the combined state. Destructive on `self`, read-only on `other`.
    fn fold(&mut self, other: &Self) -> (r: Self::Proof)
        requires
            old(self).inv(),
            other.inv(),
            old(self).foldable(other),
        ensures
            final(self).inv(),
    ;
}

} // verus!
