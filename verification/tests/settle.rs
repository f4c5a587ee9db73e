use pillar_core::block::{Block, BlockHeader, BlockTail, HeaderCompletion, Stamp};
use pillar_core::hashing::DefaultHash;
use pillar_core::merkle_trie::MerkleTrie;
use pillar_core::settle::{settle_block, Holding};
use pillar_core::state::{apply_block, ApplyError, StateManager};
use pillar_core::sync::{choose_extensions, record_extension, Extension};
use pillar_core::transaction::Transaction;

const NOW: u64 = 1_700_000_000;
const ALICE: [u8; 32] = [1; 32];
const BOB: [u8; 32] = [2; 32];
const MINER: [u8; 32] = [9; 32];
const STAMPER: [u8; 32] = [8; 32];

fn block_with(transactions: Vec<Transaction>, tail: BlockTail, depth: u64) -> Block {
    Block::new([0; 32], 0, NOW, transactions, None, tail.stamps, depth, None, None, &mut DefaultHash::new())
}

fn transfer(sender: [u8; 32], receiver: [u8; 32], amount: u64, nonce: u64) -> Transaction {
    Transaction::new(sender, receiver, amount, NOW, nonce, &mut DefaultHash::new())
}

fn find(holdings: &[Holding], address: [u8; 32]) -> Option<Holding> {
    holdings.iter().copied().find(|h| h.address == address)
}

fn stamped_tail() -> BlockTail {
    let mut tail = BlockTail::default();
    tail.stamps[0] = Stamp { signature: [7; 64], address: STAMPER };
    tail
}

#[test]
fn settle_moves_balance_from_sender_to_receiver() {
    let prior = vec![Holding { address: ALICE, balance: 10, nonce: 0 }];
    let block = block_with(vec![transfer(ALICE, BOB, 3, 0)], BlockTail::default(), 1);
    let settled = settle_block(&block, MINER, false, &vec![], &prior).unwrap();
    assert_eq!(settled.len(), 3);
    assert_eq!(find(&settled, ALICE), Some(Holding { address: ALICE, balance: 7, nonce: 1 }));
    assert_eq!(find(&settled, BOB), Some(Holding { address: BOB, balance: 3, nonce: 0 }));
    // No stamps, no reward; the miner still has an account.
    assert_eq!(find(&settled, MINER), Some(Holding { address: MINER, balance: 0, nonce: 0 }));
}

#[test]
fn settle_applies_transactions_in_order() {
    let prior = vec![Holding { address: ALICE, balance: 5, nonce: 2 }];
    let block = block_with(
        vec![transfer(ALICE, BOB, 5, 2), transfer(BOB, ALICE, 4, 0), transfer(ALICE, ALICE, 1, 3)],
        BlockTail::default(),
        1,
    );
    let settled = settle_block(&block, MINER, false, &vec![], &prior).unwrap();
    assert_eq!(find(&settled, ALICE), Some(Holding { address: ALICE, balance: 4, nonce: 4 }));
    assert_eq!(find(&settled, BOB), Some(Holding { address: BOB, balance: 1, nonce: 1 }));
}

#[test]
fn settle_refuses_overdraft() {
    let prior = vec![Holding { address: ALICE, balance: 10, nonce: 0 }];
    let block = block_with(vec![transfer(ALICE, BOB, 11, 0)], BlockTail::default(), 1);
    assert!(settle_block(&block, MINER, false, &vec![], &prior).is_none());
    let later = block_with(vec![transfer(ALICE, BOB, 6, 0), transfer(ALICE, BOB, 6, 1)], BlockTail::default(), 1);
    assert!(settle_block(&later, MINER, false, &vec![], &prior).is_none());
}

#[test]
fn settle_refuses_balance_overflow() {
    let prior = vec![
        Holding { address: ALICE, balance: 10, nonce: 0 },
        Holding { address: BOB, balance: u64::MAX, nonce: 0 },
    ];
    let block = block_with(vec![transfer(ALICE, BOB, 1, 0)], BlockTail::default(), 1);
    assert!(settle_block(&block, MINER, false, &vec![], &prior).is_none());
}

#[test]
fn settle_rewards_miner_with_whole_reward() {
    // Depth 1 with one stamp: 10000 * 1 / (1 * 10) = 1000.
    let block = block_with(vec![], stamped_tail(), 1);
    let settled = settle_block(&block, MINER, false, &vec![], &vec![]).unwrap();
    assert_eq!(find(&settled, MINER), Some(Holding { address: MINER, balance: 1000, nonce: 0 }));
    assert_eq!(find(&settled, STAMPER), Some(Holding { address: STAMPER, balance: 0, nonce: 0 }));
    assert_eq!(settled.len(), 2);
}

#[test]
fn settle_shares_reward_under_reputation() {
    let block = block_with(vec![], stamped_tail(), 1);
    let admitted = vec![STAMPER, BOB];
    let prior = vec![Holding { address: MINER, balance: 5, nonce: 3 }];
    let settled = settle_block(&block, MINER, true, &admitted, &prior).unwrap();
    assert_eq!(find(&settled, MINER), Some(Holding { address: MINER, balance: 505, nonce: 3 }));
    assert_eq!(find(&settled, STAMPER), Some(Holding { address: STAMPER, balance: 250, nonce: 0 }));
    assert_eq!(find(&settled, BOB), Some(Holding { address: BOB, balance: 250, nonce: 0 }));
}

#[test]
fn settle_rounds_miner_share_up() {
    // Depth 9 with one stamp: 10000 / (3 * 10) = 333, an odd reward.
    let block = block_with(vec![], stamped_tail(), 9);
    let settled = settle_block(&block, MINER, true, &vec![STAMPER], &vec![]).unwrap();
    assert_eq!(find(&settled, MINER).unwrap().balance, 167);
    assert_eq!(find(&settled, STAMPER).unwrap().balance, 166);
    let none_admitted = settle_block(&block, MINER, true, &vec![], &vec![]).unwrap();
    assert_eq!(find(&none_admitted, MINER).unwrap().balance, 167);
}

#[test]
fn settle_reads_first_prior_holding() {
    let prior = vec![
        Holding { address: ALICE, balance: 4, nonce: 1 },
        Holding { address: ALICE, balance: 100, nonce: 9 },
    ];
    let block = block_with(vec![transfer(ALICE, BOB, 4, 1)], BlockTail::default(), 1);
    let settled = settle_block(&block, MINER, false, &vec![], &prior).unwrap();
    assert_eq!(find(&settled, ALICE), Some(Holding { address: ALICE, balance: 0, nonce: 2 }));
}

fn offer(leaf: u8, depth: u64, shard: usize) -> Extension {
    Extension { leaf: [leaf; 32], depth, shard }
}

#[test]
fn sync_keeps_first_deepest_offer_per_leaf() {
    let offers = vec![offer(1, 5, 0), offer(2, 3, 1), offer(1, 7, 2), offer(1, 7, 3), offer(2, 2, 4)];
    assert_eq!(choose_extensions(&offers), vec![offer(1, 7, 2), offer(2, 3, 1)]);
}

#[test]
fn sync_records_offers_one_at_a_time() {
    let mut kept = vec![];
    record_extension(&mut kept, offer(4, 2, 0));
    assert_eq!(kept, vec![offer(4, 2, 0)]);
    record_extension(&mut kept, offer(4, 2, 1));
    assert_eq!(kept, vec![offer(4, 2, 0)]);
    record_extension(&mut kept, offer(5, 1, 2));
    record_extension(&mut kept, offer(4, 3, 3));
    assert_eq!(kept, vec![offer(4, 3, 3), offer(5, 1, 2)]);
    assert!(choose_extensions(&vec![]).is_empty());
}

fn genesis_trie() -> (MerkleTrie<[u8; 32], Holding>, [u8; 32]) {
    let mut trie = MerkleTrie::new();
    let root = trie.create_genesis(ALICE, Holding { address: ALICE, balance: 10, nonce: 0 }).unwrap();
    (trie, root)
}

#[test]
fn apply_block_branches_settled_state() {
    let (mut trie, genesis) = genesis_trie();
    let block = block_with(vec![transfer(ALICE, BOB, 3, 0)], stamped_tail(), 1);
    let root = apply_block(&mut trie, genesis, &block, MINER, false, &vec![]).unwrap();
    assert_ne!(root, genesis);
    assert_eq!(trie.get(&ALICE, root), Some(Holding { address: ALICE, balance: 7, nonce: 1 }));
    assert_eq!(trie.get(&BOB, root), Some(Holding { address: BOB, balance: 3, nonce: 0 }));
    assert_eq!(trie.get(&MINER, root), Some(Holding { address: MINER, balance: 1000, nonce: 0 }));
    assert_eq!(trie.get(&STAMPER, root), Some(Holding { address: STAMPER, balance: 0, nonce: 0 }));
    // The parent's state is kept.
    assert_eq!(trie.get(&ALICE, genesis), Some(Holding { address: ALICE, balance: 10, nonce: 0 }));
    assert_eq!(trie.get(&BOB, genesis), None);
}

#[test]
fn apply_block_keeps_untouched_accounts() {
    let (mut trie, genesis) = genesis_trie();
    let block = block_with(vec![], BlockTail::default(), 1);
    let root = apply_block(&mut trie, genesis, &block, MINER, false, &vec![]).unwrap();
    assert_eq!(trie.get(&ALICE, root), Some(Holding { address: ALICE, balance: 10, nonce: 0 }));
    assert_eq!(trie.get(&MINER, root), Some(Holding { address: MINER, balance: 0, nonce: 0 }));
}

#[test]
fn apply_block_errors_change_nothing() {
    let (mut trie, genesis) = genesis_trie();
    let block = block_with(vec![transfer(ALICE, BOB, 11, 0)], BlockTail::default(), 1);
    assert_eq!(apply_block(&mut trie, genesis, &block, MINER, false, &vec![]), Err(ApplyError::DoesNotSettle));
    assert_eq!(apply_block(&mut trie, [4; 32], &block, MINER, false, &vec![]), Err(ApplyError::UnknownRoot));
    assert_eq!(trie.get(&ALICE, genesis), Some(Holding { address: ALICE, balance: 10, nonce: 0 }));
    assert_eq!(trie.root_key(&[4; 32]), None);
}

#[test]
fn state_manager_reads_and_branches() {
    let mut manager = StateManager::new();
    let genesis = manager.state_trie.create_genesis(ALICE, Holding { address: ALICE, balance: 10, nonce: 0 }).unwrap();
    assert_eq!(manager.get_account(&ALICE, genesis), Some(Holding { address: ALICE, balance: 10, nonce: 0 }));
    assert_eq!(manager.get_account(&BOB, genesis), None);
    assert_eq!(manager.get_account_or_default(&BOB, genesis), Holding { address: BOB, balance: 0, nonce: 0 });
    let block = block_with(vec![transfer(ALICE, BOB, 4, 0)], BlockTail::default(), 1);
    let root = manager.branch_from_block_internal(&block, genesis, &MINER, false, &vec![]).unwrap();
    assert_eq!(manager.get_account_or_default(&BOB, root), Holding { address: BOB, balance: 4, nonce: 0 });
    let mut all = manager.get_all_accounts(root);
    all.sort_by_key(|h| h.address);
    assert_eq!(
        all,
        vec![
            Holding { address: ALICE, balance: 6, nonce: 1 },
            Holding { address: BOB, balance: 4, nonce: 0 },
            Holding { address: MINER, balance: 0, nonce: 0 },
        ]
    );
    manager.remove_branch(root);
    assert_eq!(manager.get_account(&BOB, root), None);
    assert_eq!(manager.get_account(&ALICE, genesis), Some(Holding { address: ALICE, balance: 10, nonce: 0 }));
    assert_eq!(manager.get_all_accounts(genesis).len(), 1);
}

#[test]
fn state_manager_branches_from_mined_block() {
    let mut manager = StateManager::new();
    let genesis = manager.state_trie.create_genesis(ALICE, Holding { address: ALICE, balance: 10, nonce: 0 }).unwrap();
    let mut prev_header = BlockHeader::default();
    prev_header.completion = HeaderCompletion::new([0; 32], [0; 32], genesis, 1);
    let mut block = block_with(vec![transfer(ALICE, BOB, 2, 0)], stamped_tail(), 1);
    block.header.completion = HeaderCompletion::new([0; 32], MINER, [0; 32], 1);
    let root = manager.branch_from_block(&block, &prev_header, false, &vec![]).unwrap();
    assert_eq!(manager.get_account(&MINER, root), Some(Holding { address: MINER, balance: 1000, nonce: 0 }));
    assert_eq!(manager.get_account(&ALICE, root), Some(Holding { address: ALICE, balance: 8, nonce: 1 }));
    prev_header.completion = HeaderCompletion::new([0; 32], [0; 32], [5; 32], 1);
    assert_eq!(manager.branch_from_block(&block, &prev_header, false, &vec![]), Err(ApplyError::UnknownRoot));
}
