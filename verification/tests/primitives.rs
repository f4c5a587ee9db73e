use pillar_core::block::{BlockHeader, BlockTail, Stamp};
use pillar_core::hashing::{DefaultHash, Hashable};
use pillar_core::signing::{DefaultSigner, SigFunction, SigVerFunction};
use pillar_core::transaction::{Transaction, TransactionHeader};
use pillar_core::N_TRANSMISSION_SIGNATURES;

#[test]
fn test_tail() {
    let mut tail = BlockTail::default();
    assert_eq!(tail.n_stamps(), 0);
    tail.stamps[0] = Stamp { signature: [1; 64], address: [1; 32] };
    assert_eq!(tail.n_stamps(), 1);
    tail.collapse();
    assert_eq!(tail.n_stamps(), 1);
}

#[test]
fn test_complex_collapse() {
    let mut tail = BlockTail::default();
    tail.stamps[0] = Stamp { signature: [1; 64], address: [1; 32] };
    tail.stamps[1] = Stamp { signature: [2; 64], address: [2; 32] };
    tail.stamps[2] = Stamp { signature: [3; 64], address: [3; 32] };
    tail.stamps[3] = Stamp { signature: [0; 64], address: [0; 32] };
    tail.collapse();
    assert_eq!(tail.n_stamps(), 3);
}

#[test]
fn test_collapse_with_move() {
    let mut tail = BlockTail::default();
    tail.stamps[0] = Stamp { signature: [1; 64], address: [1; 32] };
    tail.stamps[1] = Stamp { signature: [2; 64], address: [2; 32] };
    tail.stamps[2] = Stamp { signature: [3; 64], address: [3; 32] };
    tail.stamps[4] = Stamp { signature: [4; 64], address: [4; 32] };
    tail.collapse();
    assert_eq!(tail.n_stamps(), 4);
    // make sure the empty space is at the end
    assert_eq!(tail.stamps[3].signature, [1; 64]);
}

#[test]
fn test_very_complex_collapse() {
    let mut tail = BlockTail::default();
    tail.stamps[0] = Stamp { signature: [1; 64], address: [1; 32] };
    tail.stamps[1] = Stamp { signature: [2; 64], address: [2; 32] };
    tail.stamps[3] = Stamp { signature: [3; 64], address: [3; 32] };
    tail.stamps[5] = Stamp { signature: [4; 64], address: [4; 32] };
    tail.stamps[8] = Stamp { signature: [5; 64], address: [5; 32] };
    tail.collapse();
    assert_eq!(tail.n_stamps(), 5);
    assert_eq!(tail.stamps[0].signature, [5; 64]);
    assert_eq!(tail.stamps[1].signature, [4; 64]);
    assert_eq!(tail.stamps[2].signature, [3; 64]);
    assert_eq!(tail.stamps[3].signature, [2; 64]);
    assert_eq!(tail.stamps[4].signature, [1; 64]);
}

#[test]
fn test_collapse_with_duplicates() {
    let mut tail = BlockTail::default();
    tail.stamps[0] = Stamp { signature: [1; 64], address: [1; 32] };
    tail.stamps[1] = Stamp { signature: [2; 64], address: [2; 32] };
    tail.stamps[2] = Stamp { signature: [1; 64], address: [1; 32] };
    tail.collapse();
    assert_eq!(tail.n_stamps(), 2);
    assert_eq!(tail.stamps[1].address, [1; 32]);
    assert_eq!(tail.stamps[0].address, [2; 32]);
}

#[test]
fn test_clean_invalid_signatures() {
    let mut tail = BlockTail::default();
    let target = BlockHeader::default();
    let private = DefaultSigner::generate_random();
    let public = private.get_verifying_function().to_bytes();
    tail.stamps[0] = Stamp { signature: [1; 64], address: public };
    let mut private = DefaultSigner::generate_random();
    let public = private.get_verifying_function().to_bytes();
    tail.stamps[1] = Stamp { signature: private.sign(&target), address: public };
    tail.clean(&target);
    assert_eq!(tail.n_stamps(), 1);
}

#[test]
fn clean_removes_a_bad_stamp_after_an_empty_slot() {
    let target = BlockHeader::default();
    let mut good = DefaultSigner::generate_random();
    let good_public = good.get_verifying_function().to_bytes();
    let bad = DefaultSigner::generate_random();
    let bad_public = bad.get_verifying_function().to_bytes();
    let mut tail = BlockTail::default();
    tail.stamps[0] = Stamp { signature: good.sign(&target), address: good_public };
    tail.stamps[3] = Stamp { signature: [7; 64], address: bad_public };
    tail.clean(&target);
    assert_eq!(tail.n_stamps(), 1);
    assert_eq!(tail.stamps[0].address, good_public);
    for i in 1..N_TRANSMISSION_SIGNATURES {
        assert_eq!(tail.stamps[i], Stamp::default());
    }
}

#[test]
fn test_stamp_addition() {
    let mut tail = BlockTail::default();
    let stamp = Stamp { signature: [1; 64], address: [1; 32] };
    assert!(tail.stamp(stamp).is_ok());
    assert_eq!(tail.n_stamps(), 1);
    assert_eq!(tail.stamps[0].address, [1; 32]);
}

#[test]
fn test_stamp_overflow() {
    let mut tail = BlockTail::default();
    for i in 0..N_TRANSMISSION_SIGNATURES {
        tail.stamps[i] = Stamp { signature: [(i + 1) as u8; 64], address: [(i + 1) as u8; 32] };
    }
    let new_stamp = Stamp { signature: [255; 64], address: [255; 32] };
    assert!(tail.stamp(new_stamp).is_err());
}

#[test]
fn test_block_header_hash() {
    let previous_hash = [0u8; 32];
    let merkle_root = [1u8; 32];
    let miner_address = [2u8; 32];
    let nonce = 12345;
    let timestamp = 1622547800;
    let state_root = [3u8; 32];

    let block_header = BlockHeader::new(
        None,
        previous_hash,
        merkle_root,
        Some(state_root),
        nonce,
        timestamp,
        Some(miner_address),
        BlockTail::default(),
        0,
        Some(1),
    );
    let hash = block_header.hash(&mut DefaultHash::new());

    assert_eq!(hash.unwrap().len(), 32);
}

#[test]
fn test_transaction_header_hash() {
    let sender = [0u8; 32];
    let receiver = [1u8; 32];
    let amount = 100;
    let timestamp = 1622547800;
    let nonce = 12345;

    let transaction_header = TransactionHeader::new(sender, receiver, amount, timestamp, nonce);
    let hash = transaction_header.hash(&mut DefaultHash::new());

    assert_eq!(hash.len(), 32);
}

#[test]
fn test_transaction_sign() {
    let sender = [0u8; 32];
    let receiver = [1u8; 32];
    let amount = 100;
    let timestamp = 1622547800;
    let nonce = 12345;

    let mut hash_function = DefaultHash::new();

    let mut transaction = Transaction::new(sender, receiver, amount, timestamp, nonce, &mut hash_function);
    assert_eq!(transaction.signature, [0u8; 64]);

    let mut signing_key = DefaultSigner::generate_random();

    transaction.sign(&mut signing_key);
    assert_ne!(transaction.signature, [0u8; 64]);
    // Verify the signature
    assert!(signing_key.get_verifying_function().verify(&transaction.signature, &transaction));

    let transaction2 = Transaction::new(sender, receiver, amount, timestamp, nonce + 1, &mut hash_function);
    assert!(!signing_key.get_verifying_function().verify(&transaction.signature, &transaction2));
}
