use pillar_core::hashing::DefaultHash;
use pillar_core::merkle_trie::{generate_proof_of_state, to_nibbles, MerkleTrie, TrieError};
use pillar_core::serialize::PillarSerialize;

/// An account's balance and nonce, encoded as two little-endian `u64`s.
type AccountState = (u64, u64);

fn root_hash_of(trie: &MerkleTrie<&'static str, AccountState>, root: &[u8; 32]) -> [u8; 32] {
    let root_key = trie.root_key(root).expect("Root not found");
    trie.get_hash_for(root_key, &mut DefaultHash::new()).unwrap()
}

#[test]
fn test_trie_insert_and_get() {
    let initial_account_info = (100, 1);

    let mut trie = MerkleTrie::<&str, AccountState>::new();
    let initial_root = trie.create_genesis("account0", initial_account_info.clone()).expect("Failed to create genesis");
    let account = (100, 1);

    trie.insert("account1", account.clone(), initial_root).unwrap();
    assert_eq!(trie.get(&"account1", initial_root), Some(account.clone()));

    let account2 = (200, 2);
    trie.insert("account2", account2.clone(), initial_root).unwrap();
    assert_eq!(trie.get(&"account2", initial_root), Some(account2.clone()));

    let r = trie.insert("account2", account2.clone(), initial_root);
    assert!(r.is_err(), "Inserting an existing key should return an error");

    assert_eq!(trie.get(&"non_existent", initial_root), None);

    // branching: account1 changes in the new state, account2 does not
    let new_account = (300, 3);
    let branch_keys = vec![("account1", new_account.clone())];
    let new_root = trie.branch(Some(initial_root), branch_keys).unwrap();
    assert_eq!(trie.get(&"account1", new_root), Some(new_account.clone()));
    assert_eq!(trie.get(&"account2", new_root), Some(account2.clone()));
    // no change at old root
    assert_eq!(trie.get(&"account1", initial_root), Some(account.clone()));
    assert_eq!(trie.get(&"account2", initial_root), Some(account2.clone()));
    // insert to new root - assert not in old root
    let account3 = (400, 4);
    trie.insert("account3", account3.clone(), new_root).unwrap();
    assert_eq!(trie.get(&"account3", new_root), Some(account3.clone()));
    assert_eq!(trie.get(&"account3", initial_root), None);

    // now secondary branch off of new root
    let branch_keys2 = vec![
        ("account2", (500, 5)),
        ("account3", (600, 6)),
    ];
    let new_root2 = trie.branch(Some(new_root), branch_keys2).unwrap();
    assert_eq!(trie.get(&"account1", new_root2), Some(new_account.clone()));
    assert_eq!(trie.get(&"account2", new_root2), Some((500, 5)));
    assert_eq!(trie.get(&"account3", new_root2), Some((600, 6)));
    // account2 and account3 are unchanged in the old root
    assert_eq!(trie.get(&"account2", initial_root), Some(account2.clone()));
    assert_eq!(trie.get(&"account3", initial_root), None);
    // and in new_root
    assert_eq!(trie.get(&"account2", new_root), Some(account2));
    assert_eq!(trie.get(&"account3", new_root), Some(account3));
    // update the original root with no impact to the new ones
    let new_account2 = (700, 7);
    trie.insert("account4", new_account2.clone(), initial_root).unwrap();
    assert_eq!(trie.get(&"account4", initial_root), Some(new_account2.clone()));
    assert_eq!(trie.get(&"account4", new_root), None);
    assert_eq!(trie.get(&"account4", new_root2), None);
}

#[test]
fn test_proofs() {
    let initial_account_info = (100, 1);
    let mut trie = MerkleTrie::<&str, AccountState>::new();
    let initial_root = trie.create_genesis("account0", initial_account_info.clone()).expect("Failed to create genesis");

    let account1 = (200, 2);
    trie.insert("account1", account1.clone(), initial_root).unwrap();

    let (proof, _) = generate_proof_of_state(&trie, "account0", Some(initial_root), &mut DefaultHash::new())
        .expect("Proof generation failed");
    let valid = proof.verify(
        initial_account_info.serialize_pillar(),
        root_hash_of(&trie, &initial_root),
        &mut DefaultHash::new(),
    );
    assert!(valid, "Proof verification failed");

    let bin = account1.serialize_pillar();
    let valid2 = proof.verify(bin, root_hash_of(&trie, &initial_root), &mut DefaultHash::new());
    assert!(!valid2, "Proof verification should fail for a different account");
}

#[test]
fn test_proof_for_single_key() {
    let initial_account_info = (100, 1);
    let mut trie = MerkleTrie::<&str, AccountState>::new();
    let initial_root = trie.create_genesis("account0", initial_account_info.clone()).expect("Failed to create genesis");

    let (proof, _) = generate_proof_of_state(&trie, "account0", Some(initial_root), &mut DefaultHash::new())
        .expect("Proof generation failed");
    let valid = proof.verify(
        initial_account_info.serialize_pillar(),
        root_hash_of(&trie, &initial_root),
        &mut DefaultHash::new(),
    );
    assert!(valid, "Proof verification failed for single key");
}

#[test]
fn test_proof_for_multiple_keys() {
    let initial_account_info = (100, 1);
    let mut trie = MerkleTrie::<&str, AccountState>::new();
    let initial_root = trie.create_genesis("account0", initial_account_info.clone()).expect("Failed to create genesis");

    let account1 = (200, 2);
    let account2 = (300, 3);
    trie.insert("account1", account1.clone(), initial_root).unwrap();
    trie.insert("account2", account2.clone(), initial_root).unwrap();

    let (proof1, _) = generate_proof_of_state(&trie, "account1", Some(initial_root), &mut DefaultHash::new())
        .expect("Proof generation failed for account1");
    let (proof2, _) = generate_proof_of_state(&trie, "account2", Some(initial_root), &mut DefaultHash::new())
        .expect("Proof generation failed for account2");

    let valid1 = proof1.verify(account1.serialize_pillar(), root_hash_of(&trie, &initial_root), &mut DefaultHash::new());
    assert!(valid1, "Proof verification failed for account1");

    let valid2 = proof2.verify(account2.serialize_pillar(), root_hash_of(&trie, &initial_root), &mut DefaultHash::new());
    assert!(valid2, "Proof verification failed for account2");
}

#[test]
fn test_proof_verification_failure() {
    let initial_account_info = (100, 1);
    let mut trie = MerkleTrie::<&str, AccountState>::new();
    let initial_root = trie.create_genesis("account0", initial_account_info.clone()).expect("Failed to create genesis");

    let account1 = (200, 2);
    trie.insert("account1", account1.clone(), initial_root).unwrap();

    let (proof, _) = generate_proof_of_state(&trie, "account1", Some(initial_root), &mut DefaultHash::new())
        .expect("Proof generation failed");

    let invalid_account = (500, 5);
    let valid = proof.verify(
        invalid_account.serialize_pillar(),
        root_hash_of(&trie, &initial_root),
        &mut DefaultHash::new(),
    );
    assert!(!valid, "Proof verification should fail for invalid account");
}

#[test]
fn test_proof_for_branch() {
    let initial_account_info = (100, 1);
    let mut trie = MerkleTrie::<&str, AccountState>::new();
    let initial_root = trie.create_genesis("account0", initial_account_info.clone()).expect("Failed to create genesis");

    let account1 = (200, 2);
    trie.insert("account1", account1.clone(), initial_root).unwrap();

    let branch_keys = vec![("account1", (300, 3))];
    let new_root = trie.branch(Some(initial_root), branch_keys).unwrap();

    let (proof, _) = generate_proof_of_state(&trie, "account1", Some(new_root), &mut DefaultHash::new())
        .expect("Proof generation failed for branch");

    let valid = proof.verify(
        (300u64, 3u64).serialize_pillar(),
        root_hash_of(&trie, &new_root),
        &mut DefaultHash::new(),
    );
    assert!(valid, "Proof verification failed for branch");

    let valid = proof.verify(
        (300u64, 3u64).serialize_pillar(),
        root_hash_of(&trie, &new_root),
        &mut DefaultHash::new(),
    );
    assert!(valid, "Proof verification failed for branch");
}

#[test]
fn test_branch_with_new_account() {
    let initial_account_info = (100, 1);
    let mut trie = MerkleTrie::<&str, AccountState>::new();
    let initial_root = trie.create_genesis("account0", initial_account_info.clone()).expect("Failed to create genesis");

    let account1 = (200, 2);
    trie.insert("account1", account1.clone(), initial_root).unwrap();

    let branch_keys = vec![("account2", (300, 3))];
    let new_root = trie.branch(Some(initial_root), branch_keys).unwrap();

    assert_eq!(trie.get(&"account2", new_root), Some((300, 3)));
    assert_eq!(trie.get(&"account1", new_root), Some(account1));
}

#[test]
fn test_branch_twice_same() {
    let initial_account_info = (100, 1);
    let mut trie = MerkleTrie::<&str, AccountState>::new();
    let initial_root = trie.create_genesis("account0", initial_account_info.clone()).expect("Failed to create genesis");

    let account1 = (200, 2);
    trie.insert("account1", account1.clone(), initial_root).unwrap();

    let branch_keys = vec![("account2", (300, 3))];
    let new_root = trie.branch(Some(initial_root), branch_keys.clone()).unwrap();

    // now branch again with the same keys
    let new_root2 = trie.branch(Some(initial_root), branch_keys).unwrap();

    assert_eq!(new_root, new_root2);
}

#[test]
fn test_branch_multiple_times_with_complexity() {
    let initial_account_info = (100, 1);
    let mut trie = MerkleTrie::<&str, AccountState>::new();
    let initial_root = trie.create_genesis("account0", initial_account_info.clone()).expect("Failed to create genesis");

    let account1 = (200, 2);
    trie.insert("account1", account1.clone(), initial_root).unwrap();

    let account2 = (300, 3);
    trie.insert("account2", account2.clone(), initial_root).unwrap();

    // First branch with updates
    let branch_keys = vec![
        ("account1", (400, 4)),
        ("account3", (500, 5)),
    ];
    let new_root = trie.branch(Some(initial_root), branch_keys.clone()).unwrap();

    assert_eq!(trie.get(&"account1", new_root), Some((400, 4)));
    assert_eq!(trie.get(&"account3", new_root), Some((500, 5)));
    assert_eq!(trie.get(&"account2", new_root), Some(account2.clone()));

    // Create the same branch again
    let new_root2 = trie.branch(Some(initial_root), branch_keys.clone()).unwrap();

    assert_eq!(new_root, new_root2);
    assert_eq!(trie.get(&"account1", new_root2), Some((400, 4)));
    assert_eq!(trie.get(&"account3", new_root2), Some((500, 5)));
    assert_eq!(trie.get(&"account2", new_root2), Some(account2.clone()));

    // Branch from the first branch
    let branch_keys2 = vec![
        ("account3", (600, 6)),
        ("account4", (700, 7)),
    ];
    let new_root3 = trie.branch(Some(new_root), branch_keys2).unwrap();

    assert_eq!(trie.get(&"account1", new_root3), Some((400, 4)));
    assert_eq!(trie.get(&"account3", new_root3), Some((600, 6)));
    assert_eq!(trie.get(&"account4", new_root3), Some((700, 7)));
    assert_eq!(trie.get(&"account2", new_root3), Some(account2.clone()));

    // The original and first branch remain unchanged
    assert_eq!(trie.get(&"account3", new_root), Some((500, 5)));
    assert_eq!(trie.get(&"account4", new_root), None);
    assert_eq!(trie.get(&"account3", initial_root), None);
    assert_eq!(trie.get(&"account4", initial_root), None);
}

#[test]
fn test_get_all() {
    let initial_account_info = (100, 1);
    let mut trie = MerkleTrie::<&str, AccountState>::new();
    let initial_root = trie.create_genesis("account0", initial_account_info.clone()).expect("Failed to create genesis");

    let account1 = (200, 2);
    trie.insert("account1", account1.clone(), initial_root).unwrap();

    let account2 = (300, 3);
    trie.insert("account2", account2.clone(), initial_root).unwrap();

    let account3 = (400, 4);
    trie.insert("account3", account3.clone(), initial_root).unwrap();

    let account4 = (4000, 0);
    let updates = vec![("account4", account4.clone())];
    let _ = trie.branch(Some(initial_root), updates).unwrap();

    let all_values = trie.get_all(initial_root);

    assert_eq!(all_values.len(), 4); // account0, account1, account2, account3
    assert!(all_values.contains(&initial_account_info));
    assert!(all_values.contains(&account1));
    assert!(all_values.contains(&account2));
    assert!(all_values.contains(&account3));
    assert!(!all_values.contains(&account4));
}

#[test]
fn test_trim() {
    let initial_account_info = (100, 1);
    let mut trie = MerkleTrie::<&str, AccountState>::new();
    let initial_root = trie.create_genesis("account0", initial_account_info.clone()).expect("Failed to create genesis");

    let account1 = (200, 2);
    trie.insert("account1", account1.clone(), initial_root).unwrap();

    let account2 = (300, 3);
    trie.insert("account2", account2.clone(), initial_root).unwrap();

    let updates = vec![("account3", (0, 1))];
    let new_root = trie.branch(Some(initial_root), updates).unwrap();

    let all_values = trie.get_all(initial_root);
    assert_eq!(all_values.len(), 3); // account0, account1, account2

    let account3_bytes = (0u64, 1u64).serialize_pillar();
    assert!(trie.node_values().contains(&account3_bytes));

    trie.trim_branch(new_root).expect("Failed to trim branch");

    // the trimmed root is gone
    assert!(trie.get(&"account3", new_root).is_none());

    // the old root is still there
    assert_eq!(trie.get(&"account1", initial_root), Some(account1));
    assert_eq!(trie.get(&"account2", initial_root), Some(account2));
    assert_eq!(trie.get(&"account0", initial_root), Some(initial_account_info));

    let all_values = trie.get_all(initial_root);
    assert_eq!(all_values.len(), 3); // account0, account1, account2

    // no node holds account3's value any more
    assert!(!trie.node_values().contains(&account3_bytes), "Node with account3 value still exists after trim");
}

#[test]
fn test_trim_complex() {
    let initial_account_info = (100, 1);
    let mut trie = MerkleTrie::<&str, AccountState>::new();
    let initial_root = trie.create_genesis("account0", initial_account_info.clone()).expect("Failed to create genesis");

    let account1 = (200, 2);
    trie.insert("account1", account1.clone(), initial_root).unwrap();

    let account2 = (300, 3);
    trie.insert("account2", account2.clone(), initial_root).unwrap();

    let updates = vec![("account3", (2000, 44))];
    let new_root = trie.branch(Some(initial_root), updates).unwrap();

    let updates2 = vec![("accont4", (0, 1))];
    let new_root2 = trie.branch(Some(new_root), updates2).unwrap();

    assert!(trie.get(&"account3", new_root).is_some());
    assert!(trie.get(&"accont4", new_root2).is_some());

    assert_eq!(trie.get(&"account1", initial_root), Some(account1.clone()));
    assert_eq!(trie.get(&"account2", initial_root), Some(account2.clone()));
    assert_eq!(trie.get(&"account0", initial_root), Some(initial_account_info.clone()));

    let all_values = trie.get_all(initial_root);
    assert_eq!(all_values.len(), 3); // account0, account1, account2

    trie.trim_branch(new_root).expect("Failed to trim branch");

    assert!(trie.get(&"account3", new_root).is_none());
    assert!(trie.get(&"account3", new_root2).is_some());

    assert_eq!(trie.get(&"account1", initial_root), Some(account1));
    assert_eq!(trie.get(&"account2", initial_root), Some(account2));
    assert_eq!(trie.get(&"account0", initial_root), Some(initial_account_info));
}

#[test]
fn trie_refuses_what_it_cannot_do() {
    let mut trie = MerkleTrie::<&str, AccountState>::new();
    // a branch with nothing to apply
    assert_eq!(trie.branch(Some([0u8; 32]), vec![]), Err(TrieError::EmptyUpdates));
    let root = trie.create_genesis("a", (1, 0)).unwrap();
    // only one genesis
    assert_eq!(trie.create_genesis("b", (1, 0)), Err(TrieError::AlreadyExists));
    // an unknown root
    let unknown = [7u8; 32];
    assert_eq!(trie.insert("b", (1, 0), unknown), Err(TrieError::NotFound));
    assert_eq!(
        trie.branch(Some(unknown), vec![("b", (1, 0))]),
        Err(TrieError::NotFound)
    );
    assert_eq!(trie.trim_branch(unknown), Err(TrieError::NotFound));
    assert!(trie.get(&"a", unknown).is_none());
    assert!(trie.get_all(unknown).is_empty());
    // no origin given
    assert_eq!(
        trie.branch(None, vec![("b", (1, 0))]),
        Err(TrieError::AlreadyExists)
    );
    // a key with no value has no proof
    assert!(generate_proof_of_state(&trie, "b", Some(root), &mut DefaultHash::new()).is_none());
}

#[test]
fn trie_later_update_of_a_key_wins() {
    let mut trie = MerkleTrie::<&str, AccountState>::new();
    let root = trie.create_genesis("a", (1, 0)).unwrap();
    let updates = vec![
        ("b", (2, 0)),
        ("b", (3, 0)),
    ];
    let branched = trie.branch(Some(root), updates).unwrap();
    assert_eq!(trie.get(&"b", branched), Some((3, 0)));
    assert_eq!(trie.get(&"a", branched), Some((1, 0)));
    assert_eq!(trie.get(&"b", root), None);
}

#[test]
fn trie_key_paths_are_nibbles_of_the_key_hash() {
    let path = to_nibbles(&"account0");
    assert_eq!(path.len(), 64);
    assert!(path.iter().all(|n| *n < 16));
    // the same key always gives the same path, another key another one
    assert_eq!(path, to_nibbles(&"account0"));
    assert_ne!(path, to_nibbles(&"account1"));
}

#[test]
fn trie_root_hash_changes_with_the_state() {
    let mut trie = MerkleTrie::<&str, AccountState>::new();
    let root = trie.create_genesis("a", (1, 0)).unwrap();
    // the returned hash is the hash of the root node
    assert_eq!(root_hash_of(&trie, &root), root);
    let branched = trie.branch(Some(root), vec![("a", (2, 0))]).unwrap();
    assert_ne!(root, branched);
    assert_eq!(root_hash_of(&trie, &branched), branched);
}
