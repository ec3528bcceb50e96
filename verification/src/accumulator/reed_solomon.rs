//! The Reed-Solomon accumulator: a state vector is held as polynomial
//! evaluations over a fixed domain, committed to with a Merkle root over the
//! serialized evaluations, opened at spot-checked domain positions, and
//! probed at out-of-domain challenge points via barycentric Lagrange
//! interpolation. Two accumulated states fold into one by a random linear
//! combination, after which a fresh commitment and proof are produced.

use vstd::prelude::*;
use vstd::arithmetic::div_mod::lemma_small_mod;
use vstd::slice::slice_to_vec;
use vstd::pervasive::unreached;
use crate::accumulator::{Accumulator, AccumulatorError};
use crate::crypto::field::{
    f_add, f_div, f_mul, f_sub, in_field, lemma_sub_nonzero, random_u64, FieldElement,
    FIELD_PRIME,
};
use crate::crypto::merkle::{byte_rows, merkle_root_of, proof_checks, MerkleTree};

verus! {

/// The cardinality of the fixed evaluation domain.
pub const EVAL_DOMAIN_SIZE: usize = 256;

/// How many domain positions are spot-checked, and how many out-of-domain
/// challenge points are sampled, per proof.
pub const NUM_CHALLENGES: usize = 2;

/// The fixed-width little-endian serialization of a residue: the byte string
/// every component must match to reproduce the same Merkle root.
pub open spec fn le8(v: u64) -> Seq<u8> {
    seq![
        (v & 0xff) as u8,
        ((v >> 8) & 0xff) as u8,
        ((v >> 16) & 0xff) as u8,
        ((v >> 24) & 0xff) as u8,
        ((v >> 32) & 0xff) as u8,
        ((v >> 40) & 0xff) as u8,
        ((v >> 48) & 0xff) as u8,
        ((v >> 56) & 0xff) as u8,
    ]
}

/// The Merkle leaves for a table of evaluations: each serialized to its fixed
/// eight-byte form.
pub open spec fn serialized_leaves(evals: Seq<FieldElement>) -> Seq<Seq<u8>> {
    Seq::new(evals.len(), |i: int| le8(evals[i].value))
}

/// A self-contained, re-verifiable proof bundle. A proof owns copies of all
/// it needs: no field borrows accumulator-internal state.
#[derive(Clone, Debug)]
pub struct RSProof {
    /// Claimed polynomial values at the out-of-domain challenge points.
    pub challenge_evals: Vec<FieldElement>,
    /// The out-of-domain challenge points themselves.
    pub challenge_points: Vec<FieldElement>,
    /// Claimed evaluation values at the spot-checked domain positions.
    pub domain_evals: Vec<FieldElement>,
    /// The spot-checked domain positions.
    pub eval_indices: Vec<usize>,
    /// The Merkle root committed to when the proof was generated.
    pub merkle_root: Vec<u8>,
    /// One Merkle audit path per spot-checked position.
    pub merkle_proofs: Vec<Vec<Vec<u8>>>,
}

/// The Reed-Solomon accumulator's state: a fixed evaluation domain, the
/// committed evaluation table, the number of meaningful positions, and the
/// Merkle root over the serialized meaningful evaluations.
#[derive(Clone, Debug)]
pub struct ReedSolomonAccumulator {
    evaluations: Vec<FieldElement>,
    domain: Vec<FieldElement>,
    degree: usize,
    merkle_root: Vec<u8>,
}

impl ReedSolomonAccumulator {
    /// The structural invariant: the domain is the canonical mapping of
    /// `0..EVAL_DOMAIN_SIZE`, the degree fits the domain, every held residue
    /// is normalized, and the stored root commits to the serialized
    /// evaluations below the degree.
    pub closed spec fn wf(self) -> bool {
        &&& self.degree <= EVAL_DOMAIN_SIZE
        &&& self.domain@.len() == EVAL_DOMAIN_SIZE
        &&& forall|i: int|
            0 <= i < EVAL_DOMAIN_SIZE ==> (#[trigger] self.domain@[i]).value == i
        &&& self.degree <= self.evaluations@.len()
        &&& self.evaluations@.len() <= EVAL_DOMAIN_SIZE
        &&& forall|i: int|
            0 <= i < self.evaluations@.len() ==> (#[trigger] self.evaluations@[i]).wf()
        &&& self.merkle_root@ == merkle_root_of(
            serialized_leaves(self.evaluations@.take(self.degree as int)),
        )
    }

    /// The number of meaningful positions in the evaluation table.
    pub closed spec fn spec_degree(self) -> nat {
        self.degree as nat
    }

    /// The committed evaluation table, meaningful below `spec_degree`.
    pub closed spec fn spec_evals(self) -> Seq<FieldElement> {
        self.evaluations@
    }

    /// The evaluation at a domain position, with positions at or beyond the
    /// degree read as the additive identity.
    pub closed spec fn eval_or_zero(self, i: int) -> int {
        if 0 <= i < self.degree && i < self.evaluations@.len() {
            self.evaluations@[i].value as int
        } else {
            0
        }
    }

    /// The running barycentric weight for query point `x` against domain
    /// position `i`, after folding in the first `j` domain positions: the
    /// product of `(x - domain[t]) / (domain[i] - domain[t])` over `t != i`.
    closed spec fn weight_at(self, x: int, i: int, j: int) -> int
        decreases j,
    {
        if j <= 0 {
            1
        } else if j - 1 == i {
            self.weight_at(x, i, j - 1)
        } else {
            f_div(
                f_mul(self.weight_at(x, i, j - 1), f_sub(x, self.domain@[j - 1].value as int)),
                f_sub(self.domain@[i].value as int, self.domain@[j - 1].value as int),
            )
        }
    }

    /// The full barycentric weight for query point `x` against position `i`.
    closed spec fn weight(self, x: int, i: int) -> int {
        self.weight_at(x, i, self.degree as int)
    }

    /// The weighted numerator accumulated over the first `k` positions.
    closed spec fn num_at(self, x: int, k: int) -> int
        decreases k,
    {
        if k <= 0 {
            0
        } else {
            f_add(
                self.num_at(x, k - 1),
                f_mul(self.weight(x, k - 1), self.evaluations@[k - 1].value as int),
            )
        }
    }

    /// The weight sum accumulated over the first `k` positions.
    closed spec fn den_at(self, x: int, k: int) -> int
        decreases k,
    {
        if k <= 0 {
            0
        } else {
            f_add(self.den_at(x, k - 1), self.weight(x, k - 1))
        }
    }

    /// The value the committed polynomial takes at `x`: a direct table lookup
    /// on a domain point, otherwise the barycentric quotient, with an empty
    /// table and a vanished weight sum both read as the additive identity.
    pub closed spec fn spec_evaluate_at(self, x: int) -> int {
        if self.degree == 0 {
            0
        } else if 0 <= x < self.degree {
            self.evaluations@[x].value as int
        } else {
            let den = self.den_at(x, self.degree as int);
            if den == 0 {
                0
            } else {
                f_div(self.num_at(x, self.degree as int), den)
            }
        }
    }

    /// What `verify` decides for a proof against this accumulator: the proof
    /// is well shaped, every audit path reproduces the proof's own root for
    /// the claimed serialized value, and every claimed challenge evaluation
    /// matches what this accumulator's table yields at that point.
    pub closed spec fn accepts(self, proof: RSProof) -> bool {
        &&& proof.eval_indices@.len() == proof.merkle_proofs@.len()
        &&& proof.eval_indices@.len() == proof.domain_evals@.len()
        &&& proof.challenge_points@.len() == proof.challenge_evals@.len()
        &&& forall|j: int|
            0 <= j < proof.eval_indices@.len() ==> proof_checks(
                proof.merkle_root@,
                le8((#[trigger] proof.domain_evals@[j]).value),
                byte_rows(proof.merkle_proofs@[j]@),
                proof.eval_indices@[j] as int,
            )
        &&& forall|j: int|
            0 <= j < proof.challenge_points@.len() ==> (#[trigger] proof.challenge_points@[j]).wf()
        &&& forall|j: int|
            0 <= j < proof.challenge_points@.len() ==> (#[trigger] proof.challenge_evals@[j]).value
                == self.spec_evaluate_at(proof.challenge_points@[j].value as int)
    }

    /// The post-fold table: every meaningful position holds the original
    /// value plus `alpha` times the other accumulator's value, missing
    /// positions read as the additive identity.
    pub open spec fn is_fold_of(
        self,
        orig: ReedSolomonAccumulator,
        other: ReedSolomonAccumulator,
        alpha: int,
    ) -> bool {
        &&& self.spec_degree() == if orig.spec_degree() >= other.spec_degree() {
            orig.spec_degree()
        } else {
            other.spec_degree()
        }
        &&& forall|i: int|
            0 <= i < self.spec_degree() ==> (#[trigger] self.spec_evals()[i]).value == f_add(
                orig.eval_or_zero(i),
                f_mul(alpha, other.eval_or_zero(i)),
            )
    }

    /// Serialize a residue to its fixed eight-byte little-endian form.
    pub fn serialize_field_element(fe: &FieldElement) -> (r: Vec<u8>)
        ensures
            r@ == le8(fe.value),
    {
        let v = fe.value;
        let mut r: Vec<u8> = Vec::new();
        proof {
            assert((v & 0xff) < 256 && ((v >> 8) & 0xff) < 256 && ((v >> 16) & 0xff) < 256 && ((v
                >> 24) & 0xff) < 256 && ((v >> 32) & 0xff) < 256 && ((v >> 40) & 0xff) < 256 && ((v
                >> 48) & 0xff) < 256 && ((v >> 56) & 0xff) < 256) by (bit_vector);
        }
        r.push((v & 0xff) as u8);
        r.push(((v >> 8) & 0xff) as u8);
        r.push(((v >> 16) & 0xff) as u8);
        r.push(((v >> 24) & 0xff) as u8);
        r.push(((v >> 32) & 0xff) as u8);
        r.push(((v >> 40) & 0xff) as u8);
        r.push(((v >> 48) & 0xff) as u8);
        r.push(((v >> 56) & 0xff) as u8);
        proof {
            assert(r@ =~= le8(v));
        }
        r
    }

    /// Evaluate the committed polynomial at `x` by barycentric Lagrange
    /// interpolation over the meaningful domain positions, short-circuiting
    /// to a table lookup when `x` is itself a domain point.
    pub fn evaluate_at(&self, x: FieldElement) -> (r: FieldElement)
        requires
            self.wf(),
            x.wf(),
        ensures
            r.wf(),
            r.value == self.spec_evaluate_at(x.value as int),
    {
        if self.degree == 0 {
            return FieldElement::zero();
        }
        let mut i: usize = 0;
        while i < self.degree
            invariant
                self.wf(),
                x.wf(),
                i <= self.degree,
                1 <= self.degree,
                forall|t: int| 0 <= t < i ==> x.value != (#[trigger] self.domain@[t]).value,
            decreases self.degree - i,
        {
            if x.value == self.domain[i].value {
                return self.evaluations[i];
            }
            i += 1;
        }
        proof {
            if 0 <= x.value < self.degree {
                assert(x.value != self.domain@[x.value as int].value);
                assert(false);
            }
        }
        let mut num = FieldElement::zero();
        let mut den = FieldElement::zero();
        let mut i: usize = 0;
        while i < self.degree
            invariant
                self.wf(),
                x.wf(),
                i <= self.degree,
                1 <= self.degree,
                !(0 <= x.value < self.degree),
                num.wf(),
                den.wf(),
                num.value == self.num_at(x.value as int, i as int),
                den.value == self.den_at(x.value as int, i as int),
            decreases self.degree - i,
        {
            let mut weight = FieldElement::one();
            let mut j: usize = 0;
            while j < self.degree
                invariant
                    self.wf(),
                    x.wf(),
                    i < self.degree,
                    j <= self.degree,
                    weight.wf(),
                    weight.value == self.weight_at(x.value as int, i as int, j as int),
                decreases self.degree - j,
            {
                if i != j {
                    let dx = x.sub(self.domain[j]);
                    let dd = self.domain[i].sub(self.domain[j]);
                    proof {
                        lemma_sub_nonzero(i as int, j as int);
                    }
                    weight = match weight.mul(dx).div(dd) {
                        Ok(w) => w,
                        Err(_) => unreached(),
                    };
                }
                j += 1;
            }
            num = num.add(weight.mul(self.evaluations[i]));
            den = den.add(weight);
            i += 1;
        }
        if den.value() == 0 {
            return FieldElement::zero();
        }
        match num.div(den) {
            Ok(v) => v,
            Err(_) => unreached(),
        }
    }

    /// Build the Merkle tree over the first `degree` evaluations, each
    /// serialized to its fixed eight-byte form.
    fn build_merkle_tree(evals: &Vec<FieldElement>, degree: usize) -> (t: MerkleTree)
        requires
            degree <= evals@.len(),
            degree <= EVAL_DOMAIN_SIZE,
        ensures
            t.wf(),
            t@ == serialized_leaves(evals@.take(degree as int)),
    {
        let mut leaves: Vec<Vec<u8>> = Vec::new();
        let mut i: usize = 0;
        while i < degree
            invariant
                degree <= evals@.len(),
                i <= degree,
                leaves@.len() == i,
                forall|t: int|
                    0 <= t < i ==> (#[trigger] leaves@[t])@ == le8(evals@[t].value),
            decreases degree - i,
        {
            leaves.push(Self::serialize_field_element(&evals[i]));
            i += 1;
        }
        let t = MerkleTree::new(leaves);
        proof {
            assert(t@ =~= serialized_leaves(evals@.take(degree as int)));
        }
        t
    }

    /// Draw a field element outside the meaningful domain positions: uniform
    /// over the residues at or above `degree`.
    fn sample_out_of_domain(degree: usize) -> (r: FieldElement)
        requires
            1 <= degree <= EVAL_DOMAIN_SIZE,
        ensures
            r.wf(),
            degree <= r.value,
    {
        let raw = random_u64();
        let m: u64 = FIELD_PRIME - (degree as u64);
        let off: u64 = raw % m;
        FieldElement { value: off + (degree as u64) }
    }

    /// The postcondition a successful `accumulate` establishes: the table now
    /// holds exactly the given state, the stored root commits to its
    /// serialization, and the returned proof both verifies and opens the
    /// dictated spot-check positions.
    pub open spec fn accumulated_from(self, state: Seq<FieldElement>, bundle: RSProof) -> bool {
        &&& self.spec_evals() == state
        &&& self.spec_degree() == state.len()
        &&& self.accepts(bundle)
        &&& bundle.eval_indices@.len() == NUM_CHALLENGES
        &&& bundle.domain_evals@.len() == NUM_CHALLENGES
        &&& bundle.merkle_proofs@.len() == NUM_CHALLENGES
        &&& bundle.challenge_points@.len() == NUM_CHALLENGES
        &&& bundle.challenge_evals@.len() == NUM_CHALLENGES
        &&& forall|j: int|
            0 <= j < NUM_CHALLENGES ==> #[trigger] bundle.eval_indices@[j] as int == j % (
            state.len() as int)
        &&& forall|j: int|
            0 <= j < NUM_CHALLENGES ==> #[trigger] bundle.domain_evals@[j] == state[j % (
            state.len() as int)]
        &&& bundle.merkle_root@ == merkle_root_of(serialized_leaves(state))
        &&& forall|j: int|
            0 <= j < NUM_CHALLENGES ==> state.len() <= (
            #[trigger] bundle.challenge_points@[j]).value
        &&& forall|j: int|
            0 <= j < NUM_CHALLENGES ==> (#[trigger] bundle.challenge_evals@[j]).value
                == self.spec_evaluate_at(bundle.challenge_points@[j].value as int)
    }

    /// A fresh accumulator: the canonical domain, an all-zero table, no
    /// meaningful positions, and the sentinel commitment of the empty tree.
    pub fn new() -> (r: Self)
        ensures
            r.wf(),
            r.spec_degree() == 0,
    {
        let mut domain: Vec<FieldElement> = Vec::new();
        let mut i: usize = 0;
        while i < EVAL_DOMAIN_SIZE
            invariant
                i <= EVAL_DOMAIN_SIZE,
                domain@.len() == i,
                forall|t: int| 0 <= t < i ==> (#[trigger] domain@[t]).value == t,
            decreases EVAL_DOMAIN_SIZE - i,
        {
            proof {
                lemma_small_mod(i as nat, FIELD_PRIME as nat);
            }
            domain.push(FieldElement::new(i as u64));
            i += 1;
        }
        let mut evaluations: Vec<FieldElement> = Vec::new();
        let mut i: usize = 0;
        while i < EVAL_DOMAIN_SIZE
            invariant
                i <= EVAL_DOMAIN_SIZE,
                evaluations@.len() == i,
                forall|t: int| 0 <= t < i ==> (#[trigger] evaluations@[t]).wf(),
            decreases EVAL_DOMAIN_SIZE - i,
        {
            evaluations.push(FieldElement::zero());
            i += 1;
        }
        let tree = MerkleTree::new(Vec::new());
        let merkle_root = tree.root();
        let r = ReedSolomonAccumulator { evaluations, domain, degree: 0, merkle_root };
        proof {
            assert(r.evaluations@.take(0) =~= Seq::<FieldElement>::empty());
            assert(serialized_leaves(Seq::<FieldElement>::empty())
                =~= Seq::<Seq<u8>>::empty());
            assert(tree@ =~= Seq::<Seq<u8>>::empty());
        }
        r
    }

    /// Commit to a state vector: overwrite the table, rebuild the Merkle
    /// commitment, open the dictated spot-check positions, and probe the
    /// polynomial at fresh out-of-domain challenge points. A state larger
    /// than the domain is rejected, never silently truncated.
    pub fn accumulate(&mut self, state: Vec<FieldElement>) -> (r: Result<
        RSProof,
        AccumulatorError,
    >)
        requires
            old(self).wf(),
            state@.len() >= 1,
            forall|i: int| 0 <= i < state@.len() ==> (#[trigger] state@[i]).wf(),
        ensures
            final(self).wf(),
            state@.len() > EVAL_DOMAIN_SIZE ==> r == Result::<RSProof, AccumulatorError>::Err(
                AccumulatorError::StateTooLarge,
            ) && *final(self) == *old(self),
            state@.len() <= EVAL_DOMAIN_SIZE ==> r is Ok && final(self).accumulated_from(
                state@,
                r.unwrap(),
            ),
    {
        if state.len() > EVAL_DOMAIN_SIZE {
            return Err(AccumulatorError::StateTooLarge);
        }
        let deg = state.len();
        self.evaluations = state;
        self.degree = deg;
        let tree = Self::build_merkle_tree(&self.evaluations, deg);
        self.merkle_root = tree.root();
        proof {
            assert(self.evaluations@.take(self.degree as int) =~= self.evaluations@);
            assert(self.wf());
        }
        let mut eval_indices: Vec<usize> = Vec::new();
        let mut domain_evals: Vec<FieldElement> = Vec::new();
        let mut merkle_proofs: Vec<Vec<Vec<u8>>> = Vec::new();
        let mut k: usize = 0;
        while k < NUM_CHALLENGES
            invariant
                self.wf(),
                1 <= self.degree,
                tree.wf(),
                tree@ == serialized_leaves(self.evaluations@.take(self.degree as int)),
                tree@.len() == self.degree,
                self.merkle_root@ == merkle_root_of(tree@),
                k <= NUM_CHALLENGES,
                eval_indices@.len() == k,
                domain_evals@.len() == k,
                merkle_proofs@.len() == k,
                forall|t: int|
                    0 <= t < k ==> #[trigger] eval_indices@[t] as int == t % (self.degree as int),
                forall|t: int|
                    0 <= t < k ==> #[trigger] domain_evals@[t] == self.evaluations@[
                    eval_indices@[t] as int],
                forall|t: int|
                    0 <= t < k ==> proof_checks(
                        self.merkle_root@,
                        le8((#[trigger] domain_evals@[t]).value),
                        byte_rows(merkle_proofs@[t]@),
                        eval_indices@[t] as int,
                    ),
            decreases NUM_CHALLENGES - k,
        {
            let idx = k % self.degree;
            eval_indices.push(idx);
            domain_evals.push(self.evaluations[idx]);
            let path = tree.generate_proof(idx);
            proof {
                assert(tree@[idx as int] == le8(self.evaluations@[idx as int].value));
            }
            merkle_proofs.push(path);
            k += 1;
        }
        let mut challenge_points: Vec<FieldElement> = Vec::new();
        let mut challenge_evals: Vec<FieldElement> = Vec::new();
        let mut k: usize = 0;
        while k < NUM_CHALLENGES
            invariant
                self.wf(),
                1 <= self.degree <= EVAL_DOMAIN_SIZE,
                k <= NUM_CHALLENGES,
                challenge_points@.len() == k,
                challenge_evals@.len() == k,
                forall|t: int| 0 <= t < k ==> (#[trigger] challenge_points@[t]).wf(),
                forall|t: int|
                    0 <= t < k ==> self.degree <= (#[trigger] challenge_points@[t]).value,
                forall|t: int|
                    0 <= t < k ==> (#[trigger] challenge_evals@[t]).value == self.spec_evaluate_at(
                        challenge_points@[t].value as int,
                    ),
            decreases NUM_CHALLENGES - k,
        {
            let point = Self::sample_out_of_domain(self.degree);
            let ev = self.evaluate_at(point);
            challenge_points.push(point);
            challenge_evals.push(ev);
            k += 1;
        }
        let root_copy = slice_to_vec(self.merkle_root.as_slice());
        let bundle = RSProof {
            challenge_evals,
            challenge_points,
            domain_evals,
            eval_indices,
            merkle_root: root_copy,
            merkle_proofs,
        };
        proof {
            assert(self.accepts(bundle));
        }
        Ok(bundle)
    }

    /// Check a proof: every audit path must reproduce the proof's own root
    /// for its claimed serialized value, and every claimed challenge
    /// evaluation must match what this accumulator's table yields. Both
    /// checks must pass; a malformed proof is simply rejected.
    pub fn verify(&self, pf: &RSProof) -> (r: bool)
        requires
            self.wf(),
        ensures
            r == self.accepts(*pf),
    {
        if pf.eval_indices.len() != pf.merkle_proofs.len() {
            return false;
        }
        if pf.eval_indices.len() != pf.domain_evals.len() {
            return false;
        }
        if pf.challenge_points.len() != pf.challenge_evals.len() {
            return false;
        }
        let mut j: usize = 0;
        while j < pf.eval_indices.len()
            invariant
                self.wf(),
                j <= pf.eval_indices@.len(),
                pf.eval_indices@.len() == pf.merkle_proofs@.len(),
                pf.eval_indices@.len() == pf.domain_evals@.len(),
                forall|t: int|
                    0 <= t < j ==> proof_checks(
                        pf.merkle_root@,
                        le8((#[trigger] pf.domain_evals@[t]).value),
                        byte_rows(pf.merkle_proofs@[t]@),
                        pf.eval_indices@[t] as int,
                    ),
            decreases pf.eval_indices@.len() - j,
        {
            let leaf = Self::serialize_field_element(&pf.domain_evals[j]);
            let ok = MerkleTree::verify_proof(
                pf.merkle_root.as_slice(),
                leaf.as_slice(),
                pf.merkle_proofs[j].as_slice(),
                pf.eval_indices[j],
            );
            if !ok {
                return false;
            }
            j += 1;
        }
        let mut j: usize = 0;
        while j < pf.challenge_points.len()
            invariant
                self.wf(),
                j <= pf.challenge_points@.len(),
                pf.eval_indices@.len() == pf.merkle_proofs@.len(),
                pf.eval_indices@.len() == pf.domain_evals@.len(),
                pf.challenge_points@.len() == pf.challenge_evals@.len(),
                forall|t: int|
                    0 <= t < pf.eval_indices@.len() ==> proof_checks(
                        pf.merkle_root@,
                        le8((#[trigger] pf.domain_evals@[t]).value),
                        byte_rows(pf.merkle_proofs@[t]@),
                        pf.eval_indices@[t] as int,
                    ),
                forall|t: int| 0 <= t < j ==> (#[trigger] pf.challenge_points@[t]).wf(),
                forall|t: int|
                    0 <= t < j ==> (#[trigger] pf.challenge_evals@[t]).value
                        == self.spec_evaluate_at(pf.challenge_points@[t].value as int),
            decreases pf.challenge_points@.len() - j,
        {
            let pt = pf.challenge_points[j];
            if pt.value >= FIELD_PRIME {
                return false;
            }
            let computed = self.evaluate_at(pt);
            if computed.value != pf.challenge_evals[j].value {
                return false;
            }
            j += 1;
        }
        true
    }

    /// Fold another accumulator's state into this one with a given
    /// coefficient: every position up to the larger degree becomes
    /// `self[i] + alpha * other[i]`, missing positions read as the additive
    /// identity, and the combined table is re-accumulated for a fresh proof.
    pub fn fold_with(&mut self, other: &Self, alpha: FieldElement) -> (r: RSProof)
        requires
            old(self).wf(),
            other.wf(),
            alpha.wf(),
            old(self).spec_degree() >= 1 || other.spec_degree() >= 1,
        ensures
            final(self).wf(),
            final(self).is_fold_of(*old(self), *other, alpha.value as int),
            final(self).accumulated_from(final(self).spec_evals(), r),
            final(self).accepts(r),
    {
        let max_deg = if self.degree >= other.degree {
            self.degree
        } else {
            other.degree
        };
        let mut combined: Vec<FieldElement> = Vec::new();
        let mut i: usize = 0;
        while i < max_deg
            invariant
                self.wf(),
                other.wf(),
                alpha.wf(),
                max_deg as nat == if self.spec_degree() >= other.spec_degree() {
                    self.spec_degree()
                } else {
                    other.spec_degree()
                },
                1 <= max_deg <= EVAL_DOMAIN_SIZE,
                i <= max_deg,
                combined@.len() == i,
                forall|t: int| 0 <= t < i ==> (#[trigger] combined@[t]).wf(),
                forall|t: int|
                    0 <= t < i ==> (#[trigger] combined@[t]).value == f_add(
                        self.eval_or_zero(t),
                        f_mul(alpha.value as int, other.eval_or_zero(t)),
                    ),
            decreases max_deg - i,
        {
            let a = if i < self.degree {
                self.evaluations[i]
            } else {
                FieldElement::zero()
            };
            let b = if i < other.degree {
                other.evaluations[i]
            } else {
                FieldElement::zero()
            };
            combined.push(a.add(alpha.mul(b)));
            i += 1;
        }
        let res = self.accumulate(combined);
        match res {
            Ok(p) => p,
            Err(_) => unreached(),
        }
    }

    /// Fold with a freshly sampled random coefficient. The combined table is
    /// a random linear combination of the two input states, and the returned
    /// proof verifies against the mutated accumulator.
    pub fn fold(&mut self, other: &Self) -> (r: RSProof)
        requires
            old(self).wf(),
            other.wf(),
            old(self).spec_degree() >= 1 || other.spec_degree() >= 1,
        ensures
            final(self).wf(),
            final(self).accumulated_from(final(self).spec_evals(), r),
            final(self).accepts(r),
            exists|a: int| in_field(a) && final(self).is_fold_of(*old(self), *other, a),
    {
        let alpha = FieldElement::random();
        let p = self.fold_with(other, alpha);
        proof {
            assert(in_field(alpha.value as int) && self.is_fold_of(
                *old(self),
                *other,
                alpha.value as int,
            ));
        }
        p
    }
}

impl Accumulator for ReedSolomonAccumulator {
    type Proof = RSProof;

    type State = Vec<FieldElement>;

    open spec fn inv(&self) -> bool {
        self.wf()
    }

    open spec fn state_ok(state: &Vec<FieldElement>) -> bool {
        &&& state@.len() >= 1
        &&& forall|i: int| 0 <= i < state@.len() ==> (#[trigger] state@[i]).wf()
    }

    open spec fn foldable(&self, other: &Self) -> bool {
        self.spec_degree() >= 1 || other.spec_degree() >= 1
    }

    fn new() -> (r: Self) {
        ReedSolomonAccumulator::new()
    }

    fn accumulate(&mut self, state: Vec<FieldElement>) -> (r: Result<RSProof, AccumulatorError>) {
        ReedSolomonAccumulator::accumulate(self, state)
    }

    fn verify(&self, pf: &RSProof) -> bool {
        ReedSolomonAccumulator::verify(self, pf)
    }

    fn fold(&mut self, other: &Self) -> (r: RSProof) {
        ReedSolomonAccumulator::fold(self, other)
    }
}

} // verus!
