use endgame::accumulator::reed_solomon::{EVAL_DOMAIN_SIZE, NUM_CHALLENGES};
use endgame::accumulator::AccumulatorError;
use endgame::crypto::field::{FieldError, FIELD_PRIME};
use endgame::crypto::merkle::{MerkleError, MerkleTree};
use endgame::{Block, DensityConsensus, FieldElement, ReedSolomonAccumulator};
use sha2::{Digest, Sha256};

fn fe(v: u64) -> FieldElement {
    FieldElement::new(v)
}

#[test]
fn field_laws_concrete() {
    let a = fe(FIELD_PRIME - 1);
    let b = fe(2_000_000_000);
    let c = fe(77);
    assert_eq!(a.add(b).add(c), a.add(b.add(c)));
    assert_eq!(a.mul(b).mul(c), a.mul(b.mul(c)));
    assert_eq!(a.mul(b.add(c)), a.mul(b).add(a.mul(c)));
    assert_eq!(a.add(FieldElement::zero()), a);
    assert_eq!(a.mul(FieldElement::one()), a);
    assert_eq!(a.mul(a.inverse().unwrap()), FieldElement::one());
    assert_eq!(b.mul(b.inverse().unwrap()), FieldElement::one());
}

#[test]
fn field_exact_values() {
    // 2^31 - 1 reduces to zero; one past it to one.
    assert_eq!(fe(FIELD_PRIME).value(), 0);
    assert_eq!(fe(FIELD_PRIME + 1).value(), 1);
    // Subtraction wraps into the field.
    assert_eq!(fe(0).sub(fe(1)).value(), FIELD_PRIME - 1);
    // 3 * 5 = 15; 15 / 5 = 3.
    assert_eq!(fe(3).mul(fe(5)).value(), 15);
    assert_eq!(fe(15).div(fe(5)).unwrap().value(), 3);
    // pow(0) is one for any base, by convention; pow follows the residue.
    assert_eq!(fe(0).pow(0), FieldElement::one());
    assert_eq!(fe(123).pow(0), FieldElement::one());
    assert_eq!(fe(2).pow(10).value(), 1024);
    assert_eq!(fe(2).pow(31).value(), 1); // 2^31 = P + 1
}

#[test]
fn division_by_zero_reported() {
    let a = fe(42);
    assert_eq!(a.div(FieldElement::zero()), Err(FieldError::DivisionByZero));
    assert_eq!(FieldElement::zero().inverse(), None);
}

#[test]
fn accumulate_verify_round_trip_lengths() {
    for len in [1usize, 2, 3, 5, EVAL_DOMAIN_SIZE] {
        let mut acc = ReedSolomonAccumulator::new();
        let state: Vec<FieldElement> = (0..len).map(|i| fe(i as u64 * 31 + 7)).collect();
        let proof = acc.accumulate(state).unwrap();
        assert!(acc.verify(&proof), "round trip failed at length {}", len);
        assert_eq!(proof.eval_indices.len(), NUM_CHALLENGES);
        assert_eq!(proof.challenge_points.len(), NUM_CHALLENGES);
    }
}

#[test]
fn oversized_state_rejected() {
    let mut acc = ReedSolomonAccumulator::new();
    let state: Vec<FieldElement> = (0..EVAL_DOMAIN_SIZE + 1).map(|i| fe(i as u64)).collect();
    let r = acc.accumulate(state);
    assert_eq!(r.err(), Some(AccumulatorError::StateTooLarge));
    // The rejected state must not have disturbed the accumulator.
    let ok: Vec<FieldElement> = vec![fe(9)];
    let proof = acc.accumulate(ok).unwrap();
    assert!(acc.verify(&proof));
}

#[test]
fn tampered_proof_rejected() {
    let mut acc = ReedSolomonAccumulator::new();
    let state = vec![fe(1), fe(2), fe(3)];
    let proof = acc.accumulate(state).unwrap();
    assert!(acc.verify(&proof));

    // A claimed spot-check value off by one.
    let mut bad = proof.clone();
    bad.domain_evals[0] = bad.domain_evals[0].add(FieldElement::one());
    assert!(!acc.verify(&bad));

    // A claimed challenge evaluation off by one.
    let mut bad = proof.clone();
    bad.challenge_evals[0] = bad.challenge_evals[0].add(FieldElement::one());
    assert!(!acc.verify(&bad));

    // A changed spot-check index.
    let mut bad = proof.clone();
    bad.eval_indices[0] = bad.eval_indices[0] + 1;
    assert!(!acc.verify(&bad));

    // Every byte of every audit-path element, flipped one at a time.
    for path_idx in 0..proof.merkle_proofs.len() {
        for elem_idx in 0..proof.merkle_proofs[path_idx].len() {
            for byte_idx in 0..proof.merkle_proofs[path_idx][elem_idx].len() {
                let mut bad = proof.clone();
                bad.merkle_proofs[path_idx][elem_idx][byte_idx] ^= 0x01;
                assert!(!acc.verify(&bad), "flip at {}/{}/{} accepted", path_idx, elem_idx, byte_idx);
            }
        }
    }

    // Every byte of the committed root, flipped one at a time.
    for byte_idx in 0..proof.merkle_root.len() {
        let mut bad = proof.clone();
        bad.merkle_root[byte_idx] ^= 0x01;
        assert!(!acc.verify(&bad), "root flip at {} accepted", byte_idx);
    }
}

#[test]
fn merkle_tamper_sensitivity() {
    let leaves: Vec<Vec<u8>> = (0..5).map(|i| vec![i as u8, 0xaa]).collect();
    let tree = MerkleTree::new(leaves.clone());
    let root = tree.root();

    for (i, leaf) in leaves.iter().enumerate() {
        let proof = tree.generate_proof(i);
        assert!(MerkleTree::verify_proof(&root, leaf, &proof, i));

        // Flip each byte of the leaf.
        for b in 0..leaf.len() {
            let mut bad_leaf = leaf.clone();
            bad_leaf[b] ^= 0x01;
            assert!(!MerkleTree::verify_proof(&root, &bad_leaf, &proof, i));
        }

        // Flip each byte of each proof element.
        for e in 0..proof.len() {
            for b in 0..proof[e].len() {
                let mut bad = proof.clone();
                bad[e][b] ^= 0x01;
                assert!(!MerkleTree::verify_proof(&root, leaf, &bad, i));
            }
        }

        // A wrong index.
        let wrong = if i == 0 { 1 } else { i - 1 };
        assert!(!MerkleTree::verify_proof(&root, leaf, &proof, wrong));
    }
}

#[test]
fn root_matches_hash_formula() {
    // MerkleTree over [[1], [2]]: root must be Hash(Hash([1]) || Hash([2])),
    // and the audit path for leaf 0 must be exactly [Hash([2])].
    let tree = MerkleTree::new(vec![vec![1u8], vec![2u8]]);

    let h1 = Sha256::digest([1u8]).to_vec();
    let h2 = Sha256::digest([2u8]).to_vec();
    let mut hasher = Sha256::new();
    hasher.update(&h1);
    hasher.update(&h2);
    let expected_root = hasher.finalize().to_vec();

    assert_eq!(tree.root(), expected_root);
    assert_eq!(tree.generate_proof(0), vec![h2]);
    assert_eq!(tree.generate_proof(1), vec![h1]);
}

#[test]
fn proof_for_out_of_range_index_reported() {
    let tree = MerkleTree::new(vec![vec![1u8], vec![2u8], vec![3u8]]);
    assert!(tree.try_generate_proof(2).is_ok());
    assert_eq!(tree.try_generate_proof(3), Err(MerkleError::IndexOutOfRange));
    let empty = MerkleTree::new(vec![]);
    assert_eq!(empty.try_generate_proof(0), Err(MerkleError::IndexOutOfRange));
}

#[test]
fn audit_path_shape() {
    // A single-leaf tree yields an empty path; a four-leaf tree a two-element
    // one; equal indices always yield equal paths.
    let one = MerkleTree::new(vec![vec![7u8]]);
    assert_eq!(one.generate_proof(0), Vec::<Vec<u8>>::new());

    let four = MerkleTree::new((0..4).map(|i| vec![i as u8]).collect());
    for i in 0..4 {
        let path = four.generate_proof(i);
        assert_eq!(path.len(), 2);
        assert_eq!(path, four.generate_proof(i));
    }
}

#[test]
fn empty_tree_root_is_sentinel() {
    let tree = MerkleTree::new(vec![]);
    assert_eq!(tree.root(), vec![0u8; 32]);
}

#[test]
fn fold_linearity_with_known_coefficient() {
    let mut acc1 = ReedSolomonAccumulator::new();
    let mut acc2 = ReedSolomonAccumulator::new();
    let state1 = vec![fe(10), fe(20)];
    let state2 = vec![fe(3), fe(4), fe(5)];
    acc1.accumulate(state1.clone()).unwrap();
    acc2.accumulate(state2.clone()).unwrap();

    let alpha = fe(7);
    let proof = acc1.fold_with(&acc2, alpha);
    assert!(acc1.verify(&proof), "post-fold proof must verify");

    // Post-fold evaluation at each domain position i must equal
    // orig1[i] + alpha * orig2[i], missing positions read as zero.
    let expected = [
        state1[0].add(alpha.mul(state2[0])),
        state1[1].add(alpha.mul(state2[1])),
        FieldElement::zero().add(alpha.mul(state2[2])),
    ];
    for (i, want) in expected.iter().enumerate() {
        let got = acc1.evaluate_at(fe(i as u64));
        assert_eq!(got, *want, "fold linearity failed at position {}", i);
    }
}

#[test]
fn fold_preserves_verifiability_asymmetric() {
    // An empty accumulator folded with a committed one still yields a
    // verifying proof.
    let mut acc1 = ReedSolomonAccumulator::new();
    let mut acc2 = ReedSolomonAccumulator::new();
    acc2.accumulate(vec![fe(5), fe(6), fe(7), fe(8)]).unwrap();
    let proof = acc1.fold(&acc2);
    assert!(acc1.verify(&proof));
}

#[test]
fn out_of_domain_evaluation_consistent() {
    let mut acc = ReedSolomonAccumulator::new();
    acc.accumulate(vec![fe(1), fe(4), fe(9)]).unwrap();
    // On a domain position the table is read directly.
    assert_eq!(acc.evaluate_at(fe(2)).value(), 9);
    // Off-domain evaluation is deterministic.
    let x = fe(1000);
    assert_eq!(acc.evaluate_at(x), acc.evaluate_at(x));
}

#[test]
fn block_validation() {
    let consensus = DensityConsensus::new();
    let mut acc = ReedSolomonAccumulator::new();
    let proof = acc.accumulate(vec![fe(42)]).unwrap();

    let block = Block {
        parent_hash: [0u8; 32],
        height: 1,
        timestamp: 100,
        state_proof: proof,
        accumulator: acc,
    };

    // Valid at or after its own slot; a future slot is rejected.
    assert!(consensus.validate_block(&block, 100));
    assert!(consensus.validate_block(&block, 5000));
    assert!(!consensus.validate_block(&block, 99));

    // A block whose proof does not match its accumulator is rejected.
    let mut bad = block.clone();
    bad.state_proof.challenge_evals[0] =
        bad.state_proof.challenge_evals[0].add(FieldElement::one());
    assert!(!consensus.validate_block(&bad, 5000));
}

#[test]
fn slot_arithmetic() {
    let consensus = DensityConsensus::new();
    assert_eq!(consensus.slot_duration(), 1);
    assert_eq!(consensus.window_size(), 50);
    assert_eq!(consensus.expected_slots(10, 60), 50);
    assert_eq!(consensus.current_slot(12345), 12345);
}
