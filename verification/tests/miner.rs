use pillar_core::hashing::DefaultHash;
use pillar_core::miner::{pool_step, PoolAction, PoolState, MAX_BLOCK_TRANSACTION_SIZE, MAX_TRANSACTION_WAIT_TIME};
use pillar_core::account::Account;
use pillar_core::errors::BlockValidationError;
use pillar_core::ledger::{validate_transaction, validate_transaction_set};
use pillar_core::signing::{DefaultSigner, SigFunction, SigVerFunction};
use pillar_core::transaction::Transaction;

fn tx(nonce: u64) -> Transaction {
    Transaction::new([1; 32], [2; 32], 3, 4, nonce, &mut DefaultHash::new())
}

#[test]
fn pool_waits_then_proposes_after_quiet_time() {
    let mut pool = PoolState::new();
    assert!(matches!(pool_step(&mut pool, Some(tx(0)), true, 100), PoolAction::Wait));
    assert!(matches!(pool_step(&mut pool, Some(tx(1)), true, 101), PoolAction::Wait));
    assert!(matches!(pool_step(&mut pool, None, false, 105), PoolAction::Wait));
    match pool_step(&mut pool, None, false, 101 + MAX_TRANSACTION_WAIT_TIME) {
        PoolAction::Propose(v) => {
            assert_eq!(v.len(), 2);
            assert_eq!(v[0], tx(0));
            assert_eq!(v[1], tx(1));
        },
        PoolAction::Wait => panic!("a block is due"),
    }
    assert!(pool.pending.is_empty());
    assert_eq!(pool.last_polled_at, None);
    assert!(matches!(pool_step(&mut pool, None, false, 1000), PoolAction::Wait));
}

#[test]
fn pool_drops_invalid_and_duplicate_transactions() {
    let mut pool = PoolState::new();
    assert!(matches!(pool_step(&mut pool, Some(tx(0)), false, 10), PoolAction::Wait));
    assert!(pool.pending.is_empty());
    assert_eq!(pool.last_polled_at, None);
    pool_step(&mut pool, Some(tx(0)), true, 10);
    pool_step(&mut pool, Some(tx(0)), true, 11);
    assert_eq!(pool.pending.len(), 1);
    assert_eq!(pool.last_polled_at, Some(11));
}

#[test]
fn pool_proposes_when_full() {
    let mut pool = PoolState::new();
    for i in 0..(MAX_BLOCK_TRANSACTION_SIZE as u64 - 1) {
        assert!(matches!(pool_step(&mut pool, Some(tx(i)), true, 50), PoolAction::Wait));
    }
    match pool_step(&mut pool, Some(tx(99)), true, 50) {
        PoolAction::Propose(v) => assert_eq!(v.len(), MAX_BLOCK_TRANSACTION_SIZE),
        PoolAction::Wait => panic!("the pool is full"),
    }
}

fn signed_transaction(signer: &mut DefaultSigner, amount: u64) -> Transaction {
    let sender = signer.get_verifying_function().to_bytes();
    let mut t = Transaction::new(sender, [2; 32], amount, 4, 0, &mut DefaultHash::new());
    t.sign(signer);
    t
}

#[test]
fn valid_transaction_passes() {
    let mut signer = DefaultSigner::generate_random();
    let t = signed_transaction(&mut signer, 30);
    let account = Account::new(t.header.meta.sender, 30);
    assert!(validate_transaction(&t, Some(&account)).is_ok());
}

#[test]
fn unsigned_transaction_is_refused() {
    let t = Transaction::new([1; 32], [2; 32], 3, 4, 0, &mut DefaultHash::new());
    let account = Account::new([1; 32], 100);
    assert!(matches!(validate_transaction(&t, Some(&account)), Err(BlockValidationError::TransactionInvalidSignature)));
}

#[test]
fn altered_transaction_fails_its_hash() {
    let mut signer = DefaultSigner::generate_random();
    let mut t = signed_transaction(&mut signer, 3);
    let declared = t.hash;
    t.header.meta.amount = 4;
    let account = Account::new(t.header.meta.sender, 100);
    match validate_transaction(&t, Some(&account)) {
        Err(BlockValidationError::HashMismatch(a, b)) => {
            assert_eq!(a, declared);
            assert_ne!(b, declared);
        },
        other => panic!("expected a hash mismatch, got {:?}", other),
    }
}

#[test]
fn poor_sender_is_refused() {
    let mut signer = DefaultSigner::generate_random();
    let t = signed_transaction(&mut signer, 31);
    let account = Account::new(t.header.meta.sender, 30);
    assert!(matches!(validate_transaction(&t, Some(&account)), Err(BlockValidationError::TransactionInsufficientBalance(30))));
    assert!(matches!(validate_transaction(&t, None), Err(BlockValidationError::TransactionInsufficientBalance(0))));
}

fn signed_with_nonce(signer: &mut DefaultSigner, amount: u64, nonce: u64) -> Transaction {
    let sender = signer.get_verifying_function().to_bytes();
    let mut t = Transaction::new(sender, [2; 32], amount, 4, nonce, &mut DefaultHash::new());
    t.sign(signer);
    t
}

#[test]
fn transaction_set_with_consecutive_nonces_passes() {
    let mut alice = DefaultSigner::generate_random();
    let mut bob = DefaultSigner::generate_random();
    let txs = vec![
        signed_with_nonce(&mut alice, 10, 1),
        signed_with_nonce(&mut bob, 5, 0),
        signed_with_nonce(&mut alice, 10, 0),
    ];
    let mut alice_account = Account::new(txs[0].header.meta.sender, 20);
    alice_account.nonce = 0;
    let accounts = vec![alice_account];
    // bob has no account: his balance is 0
    assert!(matches!(validate_transaction_set(&txs, &accounts), Err(BlockValidationError::TransactionInsufficientBalance(0))));
    let accounts = vec![Account::new(txs[0].header.meta.sender, 20), Account::new(txs[1].header.meta.sender, 5)];
    assert!(validate_transaction_set(&txs, &accounts).is_ok());
}

#[test]
fn transaction_set_refuses_overspending_and_nonce_gaps() {
    let mut alice = DefaultSigner::generate_random();
    let txs = vec![signed_with_nonce(&mut alice, 10, 0), signed_with_nonce(&mut alice, 11, 1)];
    let accounts = vec![Account::new(txs[0].header.meta.sender, 20)];
    assert!(matches!(validate_transaction_set(&txs, &accounts), Err(BlockValidationError::TransactionInsufficientBalance(20))));
    let txs = vec![signed_with_nonce(&mut alice, 1, 0), signed_with_nonce(&mut alice, 1, 2)];
    match validate_transaction_set(&txs, &accounts) {
        Err(BlockValidationError::TransactionNonceMismatch(expected, found)) => {
            assert_eq!(expected, 1);
            assert_eq!(found, 2);
        },
        other => panic!("expected a nonce gap, got {:?}", other),
    }
    let txs = vec![signed_with_nonce(&mut alice, 1, 3), signed_with_nonce(&mut alice, 1, 4)];
    match validate_transaction_set(&txs, &accounts) {
        Err(BlockValidationError::TransactionNonceMismatch(expected, found)) => {
            assert_eq!(expected, 0);
            assert_eq!(found, 3);
        },
        other => panic!("expected a first-nonce mismatch, got {:?}", other),
    }
}
