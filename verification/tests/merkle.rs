use pillar_core::hashing::DefaultHash;
use pillar_core::merkle::generate_tree;
use pillar_core::proofs::{generate_proof_of_inclusion, verify_proof_of_inclusion};
use pillar_core::transaction::Transaction;

fn transaction(nonce: u64) -> Transaction {
    Transaction::new([0; 32], [0; 32], 0, 0, nonce, &mut DefaultHash::new())
}

#[test]
fn test_generate_tree() {
    let mut hash_function = DefaultHash::new();
    let data = vec![transaction(0), transaction(1), transaction(2), transaction(3)];
    let merkle_tree = generate_tree(&data, &mut hash_function).unwrap();
    assert!(merkle_tree.get_root_hash().is_some());
    assert!(!merkle_tree.leaf_hashes().is_empty());
    assert_eq!(merkle_tree.height(), 2);
    // every level pairs up the one below it
    assert_eq!(merkle_tree.level(0).len(), 4);
    assert_eq!(merkle_tree.level(1).len(), 2);
    assert_eq!(merkle_tree.level(2).len(), 1);
}

#[test]
fn test_generate_proof_of_inclusion() {
    let mut hash_function = DefaultHash::new();
    let data = vec![transaction(0), transaction(1), transaction(2), transaction(3)];
    let merkle_tree = generate_tree(&data, &mut hash_function).unwrap();
    let proof = generate_proof_of_inclusion(&merkle_tree, data[0].hash, &mut hash_function).unwrap();
    assert_eq!(proof.hashes.len(), 2);
}

#[test]
fn test_verification_of_proof() {
    let mut hash_function = DefaultHash::new();
    let data = vec![transaction(0), transaction(1), transaction(2), transaction(3)];
    let merkle_tree = generate_tree(&data, &mut hash_function).unwrap();
    let proof = generate_proof_of_inclusion(&merkle_tree, data[2].hash, &mut hash_function).unwrap();
    assert_eq!(proof.hashes.len(), 2);
    let root = merkle_tree.get_root_hash().unwrap();
    // pass
    assert!(verify_proof_of_inclusion(data[2].hash, &proof, root, &mut hash_function));
    // fail
    assert!(!verify_proof_of_inclusion(data[0].hash, &proof, root, &mut hash_function));
}

#[test]
fn test_empty_tree() {
    let mut hash_function = DefaultHash::new();
    let data: Vec<Transaction> = vec![];
    let merkle_tree = generate_tree(&data, &mut hash_function);
    assert!(merkle_tree.is_err());
}

#[test]
fn test_odd_tree() {
    let mut hash_function = DefaultHash::new();
    let data = vec![transaction(0), transaction(1), transaction(2)];
    let merkle_tree = generate_tree(&data, &mut hash_function).unwrap();
    assert!(merkle_tree.get_root_hash().is_some());
    assert!(!merkle_tree.leaf_hashes().is_empty());
}

#[test]
fn test_odd_tree_proof() {
    let mut hash_function = DefaultHash::new();
    let data = vec![transaction(0), transaction(1), transaction(2)];
    let merkle_tree = generate_tree(&data, &mut hash_function).unwrap();
    let proof = generate_proof_of_inclusion(&merkle_tree, data[0].hash, &mut hash_function).unwrap();
    assert_eq!(proof.hashes.len(), 2);
    let root = merkle_tree.get_root_hash().unwrap();
    // test verification
    assert!(verify_proof_of_inclusion(data[0].hash, &proof, root, &mut hash_function));
    // test failure
    assert!(!verify_proof_of_inclusion(data[1].hash, &proof, root, &mut hash_function));
}

#[test]
fn merkle_single_leaf_root_is_the_leaf() {
    let mut hash_function = DefaultHash::new();
    let data = vec![transaction(7)];
    let merkle_tree = generate_tree(&data, &mut hash_function).unwrap();
    assert_eq!(merkle_tree.height(), 0);
    assert_eq!(merkle_tree.get_root_hash().unwrap(), merkle_tree.leaf_hashes()[0]);
    let proof = generate_proof_of_inclusion(&merkle_tree, data[0].hash, &mut hash_function).unwrap();
    assert!(proof.hashes.is_empty());
    assert!(verify_proof_of_inclusion(data[0].hash, &proof, proof.root, &mut hash_function));
}

#[test]
fn merkle_proof_for_missing_item_is_none() {
    let mut hash_function = DefaultHash::new();
    let data = vec![transaction(0), transaction(1)];
    let merkle_tree = generate_tree(&data, &mut hash_function).unwrap();
    let other = transaction(9);
    assert!(generate_proof_of_inclusion(&merkle_tree, other.hash, &mut hash_function).is_none());
}
