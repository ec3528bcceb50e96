use endgame::crypto::merkle::MerkleTree;
use sha2::{Digest, Sha256};

#[test]
fn test_empty_tree() {
    let tree = MerkleTree::new(vec![]);
    assert_eq!(tree.node_count(), 1);
    assert_eq!(tree.leaf_count(), 0);
}

#[test]
fn test_single_leaf() {
    let leaf = vec![1u8, 2u8, 3u8];
    let tree = MerkleTree::new(vec![leaf.clone()]);

    let mut hasher = Sha256::new();
    hasher.update(&leaf);
    let expected_hash = hasher.finalize().to_vec();

    assert_eq!(tree.root(), expected_hash);
    assert_eq!(tree.leaf_count(), 1);
}

#[test]
fn test_two_leaves() {
    let leaf1 = vec![1u8];
    let leaf2 = vec![2u8];
    let tree = MerkleTree::new(vec![leaf1.clone(), leaf2.clone()]);

    // Calculate expected hashes
    let mut hasher = Sha256::new();
    hasher.update(&leaf1);
    let hash1 = hasher.finalize().to_vec();

    let mut hasher = Sha256::new();
    hasher.update(&leaf2);
    let hash2 = hasher.finalize().to_vec();

    let mut hasher = Sha256::new();
    hasher.update(&hash1);
    hasher.update(&hash2);
    let root_hash = hasher.finalize().to_vec();

    assert_eq!(tree.root(), root_hash);

    // Verify proofs for both leaves
    let proof0 = tree.generate_proof(0);
    let proof1 = tree.generate_proof(1);

    assert!(MerkleTree::verify_proof(&root_hash, &leaf1, &proof0, 0));
    assert!(MerkleTree::verify_proof(&root_hash, &leaf2, &proof1, 1));
}

fn bytes_to_hex(bytes: &[u8]) -> String {
    bytes.iter().map(|b| format!("{:02x}", b)).collect()
}

#[test]
fn test_four_leaves() {
    let leaves: Vec<Vec<u8>> = (0..4).map(|i| vec![i as u8]).collect();
    let tree = MerkleTree::new(leaves.clone());

    let root = tree.root();
    println!("\nRoot hash: {}", bytes_to_hex(&root));

    // Test proofs for all leaves
    for (i, leaf) in leaves.iter().enumerate() {
        println!("\nTesting proof for leaf {}:", i);
        let proof = tree.generate_proof(i);

        println!("Proof elements:");
        for (j, p) in proof.iter().enumerate() {
            println!("  {}: {}", j, bytes_to_hex(p));
        }

        assert!(
            MerkleTree::verify_proof(&root, leaf, &proof, i),
            "Proof verification failed for leaf {}",
            i
        );
    }
}

#[test]
fn test_invalid_proof() {
    let leaves = vec![vec![1u8], vec![2u8]];
    let tree = MerkleTree::new(leaves.clone());
    let root = tree.root();

    // Generate proof for leaf 0
    let proof = tree.generate_proof(0);

    // Try to verify with wrong leaf
    let wrong_leaf = vec![3u8];
    assert!(!MerkleTree::verify_proof(&root, &wrong_leaf, &proof, 0));

    // Try to verify with wrong index
    assert!(!MerkleTree::verify_proof(&root, &leaves[0], &proof, 1));

    // Try to verify with modified proof
    let mut bad_proof = proof.clone();
    if !bad_proof.is_empty() {
        bad_proof[0] = vec![0u8; 32];
    }
    assert!(!MerkleTree::verify_proof(&root, &leaves[0], &bad_proof, 0));
}

#[test]
fn test_proof_consistency() {
    let leaves: Vec<Vec<u8>> = (0..8).map(|i| vec![i as u8]).collect();
    let tree = MerkleTree::new(leaves.clone());
    let root = tree.root();

    // Generate and verify all proofs
    for (i, leaf) in leaves.iter().enumerate() {
        let proof1 = tree.generate_proof(i);
        let proof2 = tree.generate_proof(i);

        // Same index should generate identical proofs
        assert_eq!(proof1, proof2);

        // Both proofs should verify
        assert!(MerkleTree::verify_proof(&root, leaf, &proof1, i));
        assert!(MerkleTree::verify_proof(&root, leaf, &proof2, i));
    }
}
