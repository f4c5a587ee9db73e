use pillar_core::account::Account;
use pillar_core::block::{BlockHeader, BlockTail, Stamp};
use pillar_core::block_content::get_genesis_block;
use pillar_core::block::Block;
use pillar_core::chain_shard::{deepest_shard, ChainShard};
use pillar_core::difficulty::{get_base_difficulty_from_depth, get_reward_from_depth_and_stampers, isqrt, MIN_DIFFICULTY};
use pillar_core::errors::{BlockValidationError, QueryError};
use pillar_core::hashing::{DefaultHash, HashFunction, Hashable};
use pillar_core::history::NodeHistory;
use pillar_core::node_state::NodeState;
use pillar_core::peer::{Peer, PillarIPAddr};
use pillar_core::pow::{is_valid_hash, mine as mine_block};
use pillar_core::signing::{DefaultSigner, SigFunction, SigVerFunction};
use pillar_core::transaction::{FilterMatch, Transaction, TransactionFilter};
use pillar_core::trie_proof::{ProofStep, TrieMerkleProof};
use pillar_core::versions::Versions;
use pillar_core::endian::PillarNativeEndian;

const NOW: u64 = 1_700_000_000;

fn mine(previous_hash: [u8; 32], depth: u64, timestamp: u64, tail: BlockTail, difficulty: u64) -> BlockHeader {
    let mut nonce = 0u64;
    loop {
        let header = BlockHeader::new(
            None,
            previous_hash,
            [1; 32],
            Some([3; 32]),
            nonce,
            timestamp,
            Some([2; 32]),
            tail,
            depth,
            Some(difficulty),
        );
        let hash = header.completion.as_ref().unwrap().hash;
        if is_valid_hash(difficulty, &hash) {
            return header;
        }
        nonce += 1;
    }
}

fn hash_of(header: &BlockHeader) -> [u8; 32] {
    header.completion.as_ref().unwrap().hash
}

#[test]
fn header_hash_is_stored_in_completion() {
    let header = mine([0; 32], 1, NOW, BlockTail::default(), 1);
    assert_eq!(header.hash(&mut DefaultHash::new()).unwrap(), hash_of(&header));
    assert!(BlockHeader::default().hash(&mut DefaultHash::new()).is_err());
}

#[test]
fn header_validates_when_mined() {
    let header = mine([0; 32], 1, NOW, BlockTail::default(), 4);
    assert!(header.validate(hash_of(&header), &mut DefaultHash::new()).is_ok());
    assert!(header.validate_at(hash_of(&header), &mut DefaultHash::new(), NOW).is_ok());
}

#[test]
fn header_without_completion_is_rejected() {
    let header = BlockHeader::default();
    match header.validate_at([0; 32], &mut DefaultHash::new(), NOW) {
        Err(BlockValidationError::NoMinerAddress(h)) => assert_eq!(h, header),
        other => panic!("unexpected {:?}", other),
    }
}

#[test]
fn header_with_wrong_hash_is_rejected() {
    let header = mine([0; 32], 1, NOW, BlockTail::default(), 1);
    match header.validate_at([9; 32], &mut DefaultHash::new(), NOW) {
        Err(BlockValidationError::HashMismatch(expected, actual)) => {
            assert_eq!(expected, [9; 32]);
            assert_eq!(actual, hash_of(&header));
        }
        other => panic!("unexpected {:?}", other),
    }
}

#[test]
fn header_below_difficulty_is_rejected() {
    let header = BlockHeader::new(None, [0; 32], [1; 32], Some([3; 32]), 0, NOW, Some([2; 32]), BlockTail::default(), 1, Some(250));
    match header.validate_at(hash_of(&header), &mut DefaultHash::new(), NOW) {
        Err(BlockValidationError::DifficultyMismatch(d, h)) => {
            assert_eq!(d, 250);
            assert_eq!(h, header);
        }
        other => panic!("unexpected {:?}", other),
    }
}

#[test]
fn header_with_bad_stamp_is_rejected() {
    let mut tail = BlockTail::default();
    tail.stamps[0] = Stamp { signature: [7; 64], address: [8; 32] };
    let header = mine([0; 32], 1, NOW, tail, 1);
    match header.validate_at(hash_of(&header), &mut DefaultHash::new(), NOW) {
        Err(BlockValidationError::InvalidStampSignature(a)) => assert_eq!(a, [8; 32]),
        other => panic!("unexpected {:?}", other),
    }
}

#[test]
fn header_with_good_stamp_validates() {
    let unstamped = mine([0; 32], 1, NOW, BlockTail::default(), 1);
    let mut signer = DefaultSigner::generate_random();
    let signature = signer.sign(&unstamped);
    let mut tail = BlockTail::default();
    tail.stamps[0] = Stamp { signature, address: signer.get_verifying_function().to_bytes() };
    let header = mine([0; 32], 1, NOW, tail, 1);
    assert!(header.validate_at(hash_of(&header), &mut DefaultHash::new(), NOW).is_ok());
}

#[test]
fn header_from_the_future_is_rejected() {
    let header = mine([0; 32], 1, NOW + 3601, BlockTail::default(), 1);
    match header.validate_at(hash_of(&header), &mut DefaultHash::new(), NOW) {
        Err(BlockValidationError::FutureTimestamp(t)) => assert_eq!(t, NOW + 3601),
        other => panic!("unexpected {:?}", other),
    }
    let header = mine([0; 32], 1, NOW + 3600, BlockTail::default(), 1);
    assert!(header.validate_at(hash_of(&header), &mut DefaultHash::new(), NOW).is_ok());
}

#[test]
fn header_checked_constructor_rejects_wrong_hash() {
    let header = mine([0; 32], 1, NOW, BlockTail::default(), 1);
    let again = BlockHeader::new_checked(Some(hash_of(&header)), [0; 32], [1; 32], Some([3; 32]), header.nonce, NOW, Some([2; 32]), BlockTail::default(), 1, Some(1));
    assert_eq!(again, Some(header));
    let wrong = BlockHeader::new_checked(Some([5; 32]), [0; 32], [1; 32], Some([3; 32]), header.nonce, NOW, Some([2; 32]), BlockTail::default(), 1, Some(1));
    assert!(wrong.is_none());
}

fn transaction(nonce: u64) -> Transaction {
    Transaction::new([1; 32], [2; 32], 3, 4, nonce, &mut DefaultHash::new())
}

#[test]
fn block_includes_its_transactions() {
    let transactions = vec![transaction(0), transaction(1), transaction(2)];
    let block = Block::new([0; 32], 0, NOW, transactions.clone(), None, BlockTail::default().stamps, 1, None, None, &mut DefaultHash::new());
    assert_eq!(block.header.merkle_root, block.get_merkle_tree().unwrap().get_root_hash().unwrap());
    for t in &transactions {
        assert!(block.validate_transaction(t.hash));
        assert!(block.get_proof_for_transaction(t.hash).is_some());
    }
    let other = transaction(3);
    assert!(!block.validate_transaction(other.hash));
    assert!(block.get_proof_for_transaction(other.hash).is_none());
}

#[test]
fn block_with_foreign_root_includes_nothing() {
    let transactions = vec![transaction(0)];
    let block = Block::new([0; 32], 0, NOW, transactions.clone(), None, BlockTail::default().stamps, 1, None, None, &mut DefaultHash::new());
    let mut header = block.header;
    header.merkle_root = [4; 32];
    let forged = Block::new_from_header_and_transactions(header, transactions.clone());
    assert!(forged.get_proof_for_transaction(transactions[0].hash).is_some());
    assert!(!forged.validate_transaction(transactions[0].hash));
}

#[test]
fn filter_matches_blocks_and_transactions() {
    let t = Transaction::new([1; 32], [2; 32], 3, 4, 5, &mut DefaultHash::new());
    let block = Block::new([0; 32], 0, NOW, vec![t.clone()], None, BlockTail::default().stamps, 1, None, None, &mut DefaultHash::new());
    assert!(TransactionFilter::new(Some([1; 32]), None, None).matches(&t));
    assert!(TransactionFilter::new(Some([1; 32]), Some([2; 32]), Some(3)).matches(&block));
    assert!(!TransactionFilter::new(None, None, Some(4)).matches(&t));
    assert!(!TransactionFilter::new(Some([2; 32]), None, None).matches(&block));
    let f: TransactionFilter = t.clone().into();
    assert!(f.matches(&t));
    assert_eq!(f, TransactionFilter::new(Some([1; 32]), Some([2; 32]), Some(3)));
}

#[test]
fn genesis_block_is_fixed() {
    let block = get_genesis_block(Some([0; 32]));
    assert_eq!(block.header.depth, 0);
    assert_eq!(block.header.previous_hash, [0; 32]);
    assert_eq!(block.transactions.len(), 1);
    let completion = block.header.completion.as_ref().unwrap();
    assert_eq!(completion.difficulty_target, MIN_DIFFICULTY);
    assert_eq!(completion.miner_address, [0; 32]);
    assert_eq!(completion.hash, block.header.hash(&mut DefaultHash::new()).unwrap());
    assert_eq!(get_genesis_block(Some([0; 32])).header, block.header);
    assert_ne!(get_genesis_block(Some([1; 32])).header, block.header);
    assert!(block.validate_transaction(block.transactions[0].hash));
}

fn plain(previous_hash: [u8; 32], depth: u64) -> BlockHeader {
    BlockHeader::new(None, previous_hash, [0; 32], None, 0, depth, None, BlockTail::default(), depth, None)
}

fn line_shard(length: u8) -> ChainShard {
    let mut headers = vec![([0u8; 32], plain([255; 32], 0))];
    for i in 1..=length {
        headers.push(([i; 32], plain([i - 1; 32], i as u64)));
    }
    ChainShard { headers, leaves: vec![[length; 32]] }
}

#[test]
fn shard_lookup_finds_first_entry() {
    let shard = line_shard(3);
    assert_eq!(shard.get_block(&[2; 32]).unwrap().depth, 2);
    assert!(shard.get_block(&[9; 32]).is_none());
}

#[test]
fn shard_without_genesis_is_invalid() {
    assert!(!ChainShard { headers: vec![], leaves: vec![] }.validate_at(NOW));
    assert!(!line_shard(2).validate_at(NOW));
}

#[test]
fn shard_with_only_genesis_validates_like_genesis() {
    let genesis = get_genesis_block(Some([0; 32])).header;
    let key = hash_of(&genesis);
    let shard = ChainShard { headers: vec![(key, genesis)], leaves: vec![key] };
    let expected = genesis.validate_at(key, &mut DefaultHash::new(), NOW).is_ok();
    assert_eq!(shard.validate_at(NOW), expected);
    let twice = ChainShard { headers: vec![(key, genesis), (key, genesis)], leaves: vec![key] };
    assert!(!twice.validate_at(NOW));
}

#[test]
fn trim_removes_short_fork() {
    let mut shard = line_shard(11);
    shard.headers.push(([100; 32], plain([0; 32], 1)));
    shard.leaves.push([100; 32]);
    shard.trim();
    assert!(shard.get_block(&[100; 32]).is_none());
    assert_eq!(shard.leaves, vec![[11; 32]]);
    assert_eq!(shard.headers.len(), 12);
    assert!(shard.get_block(&[0; 32]).is_some());
}

#[test]
fn trim_keeps_close_forks() {
    let mut shard = line_shard(9);
    shard.headers.push(([100; 32], plain([0; 32], 1)));
    shard.leaves.push([100; 32]);
    shard.trim();
    assert!(shard.get_block(&[100; 32]).is_some());
    assert_eq!(shard.leaves.len(), 2);
}

#[test]
fn trim_keeps_shared_ancestors_of_dropped_forks() {
    let mut shard = line_shard(13);
    shard.headers.push(([100; 32], plain([1; 32], 2)));
    shard.headers.push(([101; 32], plain([100; 32], 3)));
    shard.leaves.push([101; 32]);
    shard.trim();
    assert!(shard.get_block(&[100; 32]).is_none());
    assert!(shard.get_block(&[101; 32]).is_none());
    assert!(shard.get_block(&[1; 32]).is_some());
    assert_eq!(shard.headers.len(), 14);
}

#[test]
fn deepest_shard_takes_the_last_deepest() {
    assert!(matches!(deepest_shard(&[]), Err(QueryError::NoReply)));
    let a = line_shard(5);
    let b = line_shard(11);
    let mut c = line_shard(11);
    c.headers.push(([200; 32], plain([0; 32], 1)));
    let shards = vec![a, b, c];
    let deepest = deepest_shard(&shards).unwrap();
    assert_eq!(deepest.headers.len(), 13);
    assert_eq!(deepest.deepest_depth(), 11);
}

fn mined_by(miner: [u8; 32], previous_hash: [u8; 32], depth: u64) -> BlockHeader {
    BlockHeader::new(None, previous_hash, [0; 32], Some([0; 32]), 0, depth, Some(miner), BlockTail::default(), depth, Some(1))
}

#[test]
fn history_extracts_mined_blocks() {
    let me = [7; 32];
    let other = [8; 32];
    let mut shard = ChainShard {
        headers: vec![
            ([0; 32], mined_by(other, [255; 32], 0)),
            ([1; 32], mined_by(me, [0; 32], 1)),
            ([2; 32], mined_by(me, [1; 32], 2)),
            ([3; 32], mined_by(other, [2; 32], 3)),
        ],
        leaves: vec![[3; 32]],
    };
    let history = NodeHistory::extract(&mut shard, me, &mut DefaultHash::new());
    assert_eq!(history.public_key, me);
    assert_eq!(history.n_blocks_mined(), 2);
    assert_eq!(history.n_blocks_stamped(), 0);
    let depths: Vec<u64> = history.blocks_mined().iter().map(|s| s.depth).collect();
    assert_eq!(depths, vec![2, 1]);
}

#[test]
fn history_records_settled_blocks() {
    let mut signer = DefaultSigner::generate_random();
    let me = signer.get_verifying_function().to_bytes();
    let header = mine([0; 32], 1, NOW, BlockTail::default(), 1);
    let mut tail = BlockTail::default();
    tail.stamps[0] = Stamp { signature: signer.sign(&header), address: me };
    let stamped = BlockHeader { tail, ..header };
    let mut history = NodeHistory::new(me);
    history.settle_miner(header);
    history.settle_stampers(stamped);
    assert_eq!(history.n_blocks_mined(), 1);
    assert_eq!(history.n_blocks_stamped(), 1);
    assert_eq!(history.blocks_stamped()[0].n_stamps, 1);
    assert_eq!(history.blocks_mined()[0].n_stamps, 0);
}

#[test]
fn node_states_track_or_consume() {
    for s in [NodeState::ICD, NodeState::ChainOutdated, NodeState::ChainLoading, NodeState::ChainSyncing] {
        assert!(s.is_track());
        assert!(s.is_forward());
        assert!(!s.is_consume());
    }
    assert!(!NodeState::Serving.is_track());
    assert!(NodeState::Serving.is_forward());
    assert!(NodeState::Serving.is_consume());
}

#[test]
fn account_starts_with_its_balance() {
    let empty = Account::new([1; 32], 0);
    assert!(empty.history.is_empty());
    assert_eq!(empty.nonce, 0);
    let funded = Account::new([1; 32], 50);
    assert_eq!(funded.balance, 50);
    assert_eq!(funded.history.len(), 1);
    assert_eq!(funded.history[0].block_hash, [0; 32]);
}

#[test]
fn ip_addresses_round_trip() {
    let v4 = PillarIPAddr::from_ipv4([127, 0, 0, 1]);
    assert_eq!(v4.ipv4_octets(), Some([127, 0, 0, 1]));
    assert_eq!(v4.octets()[12..], [127, 0, 0, 1]);
    let mut bytes = [0u8; 16];
    bytes[0] = 0xfe;
    let v6 = PillarIPAddr::from_ipv6(bytes);
    assert_eq!(v6.ipv4_octets(), None);
    let peer = Peer::new([3; 32], v4, 13000);
    assert_eq!(peer.ip_address, v4);
    assert_eq!(peer.port, 13000);
}

fn digest(parts: &[&[u8]]) -> [u8; 32] {
    let mut h = DefaultHash::new();
    for p in parts {
        h.update(p);
    }
    h.digest().unwrap()
}

#[test]
fn trie_proof_verifies_its_path() {
    let value = vec![9u8, 9, 9];
    let bottom = ProofStep { native: 0, siblings: vec![(1, [5; 32])], value: Some((16, Vec::new())) };
    let top = ProofStep { native: 3, siblings: vec![(1, [6; 32]), (7, [8; 32])], value: None };
    let level = digest(&[&[1], &[5; 32], &[16], &value]);
    let root = digest(&[&[1], &[6; 32], &[3], &level, &[7], &[8; 32]]);
    let proof = TrieMerkleProof::new(vec![top, bottom]);
    assert!(proof.verify(value.clone(), root, &mut DefaultHash::new()));
    assert!(!proof.verify(vec![9u8, 9], root, &mut DefaultHash::new()));
    assert!(!proof.verify(value, level, &mut DefaultHash::new()));
}

#[test]
fn trie_level_puts_the_path_after_smaller_siblings() {
    let step = ProofStep { native: 5, siblings: vec![(1, [6; 32]), (2, [8; 32])], value: Some((16, vec![4])) };
    let expected = digest(&[&[1], &[6; 32], &[2], &[8; 32], &[5], &[3; 32], &[16], &[4]]);
    assert_eq!(step.compute_level([3; 32], &mut DefaultHash::new()), expected);
}

#[test]
fn versions_encode_their_numbers() {
    assert_eq!(Versions::from_u16(1), Some(Versions::V1V4));
    assert_eq!(Versions::from_u16(2), Some(Versions::V1V6));
    assert_eq!(Versions::from_u16(3), None);
    assert_eq!(Versions::V1V6.to_u16(), 2);
    assert_eq!(Versions::V1V4.to_le_bytes(), [1, 0]);
    assert_eq!(Versions::default(), Versions::V1V4);
    assert_eq!(Versions::V1V6.to_ne_bytes(), 2u16.to_ne_bytes());
}

#[test]
fn difficulty_and_reward_schedule() {
    assert_eq!(get_base_difficulty_from_depth(0), 0);
    assert_eq!(get_base_difficulty_from_depth(499), 4);
    assert_eq!(get_base_difficulty_from_depth(1000), 8);
    assert_eq!(isqrt(0), 0);
    assert_eq!(isqrt(15), 3);
    assert_eq!(isqrt(16), 4);
    assert_eq!(get_reward_from_depth_and_stampers(4, 5), 2500);
    assert_eq!(get_reward_from_depth_and_stampers(100, 10), 1000);
}

#[test]
fn proof_of_work_counts_leading_zero_bits() {
    let mut hash = [0u8; 32];
    hash[1] = 0b0001_0000;
    assert!(is_valid_hash(11, &hash));
    assert!(!is_valid_hash(12, &hash));
    assert!(is_valid_hash(0, &[255; 32]));
    assert!(is_valid_hash(256, &[0; 32]));
}

#[test]
fn little_endian_conversion_keeps_the_bytes() {
    let mut x: u64 = 0x0102_0304_0506_0708;
    PillarNativeEndian::to_le(&mut x);
    assert_eq!(x.to_ne_bytes(), 0x0102_0304_0506_0708u64.to_le_bytes());
    let mut a = [7u8; 32];
    PillarNativeEndian::to_le(&mut a);
    assert_eq!(a, [7u8; 32]);
}

#[test]
fn test_peer_new() {
    let peer = Peer::new([1u8; 32], PillarIPAddr::from_ipv4([127, 0, 0, 1]), 8080);
    assert_eq!(peer.public_key, [1u8; 32]);
    assert_eq!(peer.ip_address, PillarIPAddr::from_ipv4([127, 0, 0, 1]));
    assert_eq!(peer.ip_address.octets(), [0, 0, 0, 0, 0, 0, 0, 0, 0, 0, 0, 0, 127, 0, 0, 1]);
    assert_eq!(peer.port, 8080);
}

#[test]
fn mining_finds_the_first_nonce_that_meets_the_difficulty() {
    let mut block = Block::new([0; 32], 7, NOW, vec![transaction(0)], None, BlockTail::default().stamps, 1, None, None, &mut DefaultHash::new());
    let before = block.header;
    assert!(mine_block(&mut block, [5; 32], [6; 32], 8, None, DefaultHash::new()));
    let c = block.header.completion.as_ref().unwrap();
    assert_eq!(c.miner_address, [5; 32]);
    assert_eq!(c.state_root, [6; 32]);
    assert_eq!(c.difficulty_target, 8);
    assert!(is_valid_hash(8, &c.hash));
    assert_eq!(block.header.hash(&mut DefaultHash::new()).unwrap(), c.hash);
    assert!(block.header.validate_at(c.hash, &mut DefaultHash::new(), NOW).is_ok());
    assert_eq!(block.header.previous_hash, before.previous_hash);
    assert_eq!(block.header.merkle_root, before.merkle_root);
    assert_eq!(block.header.depth, before.depth);
    for n in 0..block.header.nonce {
        let mut earlier = block.header;
        earlier.nonce = n;
        assert!(!is_valid_hash(8, &earlier.hash(&mut DefaultHash::new()).unwrap()));
    }
}

#[test]
fn mining_stops_when_the_block_depth_is_signalled() {
    let mut block = Block::new([0; 32], 0, NOW, vec![transaction(0)], None, BlockTail::default().stamps, 3, None, None, &mut DefaultHash::new());
    let (sender, receiver) = flume::unbounded();
    sender.send(2).unwrap();
    sender.send(3).unwrap();
    assert!(!mine_block(&mut block, [5; 32], [6; 32], 255, Some(receiver), DefaultHash::new()));
    assert_eq!(block.header.nonce, 1);
    let c = block.header.completion.as_ref().unwrap();
    assert_eq!(c.hash, [0; 32]);
    assert_eq!(c.difficulty_target, 255);
}

#[test]
fn test_genesis_block() {
    let block = get_genesis_block(Some([0u8; 32]));
    let hash = Hashable::hash(&block.header, &mut DefaultHash::new()).unwrap();
    assert!(is_valid_hash(MIN_DIFFICULTY, &hash));
}
