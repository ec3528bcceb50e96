use endgame::crypto::merkle::MerkleTree;
use endgame::{FieldElement, ReedSolomonAccumulator};

fn hex_str(bytes: &[u8]) -> String {
    bytes.iter().map(|b| format!("{:02x}", b)).collect()
}

#[test]
fn test_serialization_consistency() {
    let fe = FieldElement::new(123);
    let bytes = ReedSolomonAccumulator::serialize_field_element(&fe);
    assert_eq!(bytes.len(), 8, "Serialized field element should be 8 bytes");

    // Verify value can be recovered
    let mut value_bytes = [0u8; 8];
    value_bytes.copy_from_slice(&bytes);
    let value = u64::from_le_bytes(value_bytes);
    assert_eq!(value, fe.value());
}

#[test]
fn test_merkle_tree_basic() {
    println!("\nRunning basic Merkle tree test");

    let leaves: Vec<Vec<u8>> = vec![vec![1, 0, 0, 0, 0, 0, 0, 0], vec![2, 0, 0, 0, 0, 0, 0, 0]];

    println!("Building tree with leaves:");
    for (i, leaf) in leaves.iter().enumerate() {
        println!("Leaf {}: {}", i, hex_str(leaf));
    }

    let tree = MerkleTree::new(leaves.clone());
    let root = tree.root();
    println!("Tree root: {}", hex_str(&root));

    let proof = tree.generate_proof(0);
    let verified = MerkleTree::verify_proof(&root, &leaves[0], &proof, 0);
    assert!(verified, "Basic Merkle proof verification failed");
}

#[test]
fn test_merkle_proof_verification() {
    let mut acc = ReedSolomonAccumulator::new();
    let state = vec![FieldElement::new(1), FieldElement::new(2)];
    let proof = acc.accumulate(state).unwrap();
    assert!(acc.verify(&proof), "Basic Merkle proof verification failed");
}

#[test]
fn test_accumulator_basic() {
    let mut acc = ReedSolomonAccumulator::new();
    let state = vec![
        FieldElement::new(1),
        FieldElement::new(2),
        FieldElement::new(3),
    ];
    let proof = acc.accumulate(state).unwrap();
    assert!(acc.verify(&proof), "Basic test failed");
}

#[test]
fn test_accumulator_fold() {
    let mut acc1 = ReedSolomonAccumulator::new();
    let mut acc2 = ReedSolomonAccumulator::new();

    let state1 = vec![FieldElement::new(1), FieldElement::new(2)];
    let state2 = vec![FieldElement::new(3), FieldElement::new(4)];

    let proof1 = acc1.accumulate(state1).unwrap();
    assert!(
        acc1.verify(&proof1),
        "First accumulator verification failed"
    );

    let proof2 = acc2.accumulate(state2).unwrap();
    assert!(
        acc2.verify(&proof2),
        "Second accumulator verification failed"
    );

    let folded_proof = acc1.fold(&acc2);
    assert!(acc1.verify(&folded_proof), "Folded verification failed");
}

#[test]
fn test_accumulator_large_state() {
    let mut acc = ReedSolomonAccumulator::new();
    let state: Vec<FieldElement> = (0..5).map(|i| FieldElement::new(i as u64)).collect();
    let proof = acc.accumulate(state).unwrap();
    assert!(acc.verify(&proof), "Large state verification failed");
}
