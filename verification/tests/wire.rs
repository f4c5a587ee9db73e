use pillar_core::account::TransactionStub;
use pillar_core::block::{Block, BlockHeader, BlockTail, Stamp};
use pillar_core::hashing::{DefaultHash, Hashable};
use pillar_core::peer::{Peer, PillarIPAddr};
use pillar_core::transaction::{Transaction, TransactionFilter};
use pillar_core::versions::Versions;
use pillar_core::wire::{deserialize_arrays, package_standard_message, serialize_arrays, WireError};
use pillar_core::N_TRANSMISSION_SIGNATURES;

#[test]
fn test_header_serialize() {
    let header = BlockHeader::default();
    let serialized = header.serialize_pillar().unwrap();
    let deserialized: BlockHeader = BlockHeader::deserialize_pillar(&serialized).unwrap();
    assert_eq!(header, deserialized);
    // more complex
    let previous_hash = [2; 32];
    let sender = [3; 32];
    let receiver = [4; 32];
    let amount = 5;
    let timestamp = 6;
    let nonce = 7;
    let depth = 9;
    let miner_address = [1; 32];
    let difficulty = 10;
    let state_root = [5; 32];
    let mut hash_function = DefaultHash::new();
    let transaction = Transaction::new(sender, receiver, amount, timestamp, nonce, &mut hash_function);
    let header = Block::new(
        previous_hash,
        0,
        timestamp,
        vec![transaction],
        Some(miner_address),
        [Stamp::default(); N_TRANSMISSION_SIGNATURES],
        depth,
        Some(difficulty),
        Some(state_root),
        &mut DefaultHash::new(),
    )
    .header;
    let serialized = header.serialize_pillar().unwrap();
    let deserialized: BlockHeader = BlockHeader::deserialize_pillar(&serialized).unwrap();
    assert_eq!(header, deserialized);
}

#[test]
fn header_wire_layout() {
    let transaction = Transaction::new([3; 32], [4; 32], 5, 6, 7, &mut DefaultHash::new());
    let block = Block::new([2; 32], 0, 6, vec![transaction], Some([1; 32]), [Stamp::default(); N_TRANSMISSION_SIGNATURES], 9, Some(10), Some([5; 32]), &mut DefaultHash::new());
    let bytes = block.header.serialize_pillar().unwrap();
    assert_eq!(bytes.len(), 1160);
    assert_eq!(bytes[0..32], [2; 32]);
    assert_eq!(bytes[32..64], block.header.merkle_root);
    assert_eq!(bytes[64..72], [0; 8]);
    assert_eq!(bytes[72..80], 6u64.to_le_bytes());
    assert_eq!(bytes[80..88], 9u64.to_le_bytes());
    assert_eq!(bytes[88..90], Versions::default().to_le_bytes());
    assert_eq!(bytes[90..96], [0; 6]);
    assert!(bytes[96..1056].iter().all(|b| *b == 0));
    assert_eq!(bytes[1056..1088], block.header.hash(&mut DefaultHash::new()).unwrap());
    assert_eq!(bytes[1088..1120], [1; 32]);
    assert_eq!(bytes[1120..1152], [5; 32]);
    assert_eq!(bytes[1152..1160], 10u64.to_le_bytes());
}

#[test]
fn header_with_stamps_round_trips() {
    let mut tail = BlockTail::default();
    tail.stamps[3] = Stamp { signature: [9; 64], address: [8; 32] };
    let header = BlockHeader::new(None, [1; 32], [2; 32], Some([3; 32]), 77, 88, Some([4; 32]), tail, 99, Some(5));
    let bytes = header.serialize_pillar().unwrap();
    assert_eq!(bytes[96 + 3 * 96..96 + 3 * 96 + 64], [9; 64]);
    assert_eq!(BlockHeader::deserialize_pillar(&bytes).unwrap(), header);
}

#[test]
fn short_header_is_rejected() {
    let bytes = BlockHeader::default().serialize_pillar().unwrap();
    assert_eq!(BlockHeader::deserialize_pillar(&bytes[..1159]), Err(WireError::InsufficientData));
    assert_eq!(BlockHeader::deserialize_pillar(&[]), Err(WireError::InsufficientData));
}

#[test]
fn peer_and_stub_round_trip() {
    let peer = Peer::new([6; 32], PillarIPAddr::from_ipv4([10, 0, 0, 7]), 13000);
    let bytes = peer.serialize_pillar().unwrap();
    assert_eq!(bytes.len(), 50);
    assert_eq!(bytes[48..50], 13000u16.to_le_bytes());
    assert_eq!(Peer::deserialize_pillar(&bytes).unwrap(), peer);
    assert_eq!(Peer::deserialize_pillar(&bytes[..49]), Err(WireError::InsufficientData));
    let stub = TransactionStub { block_hash: [7; 32], transaction_hash: [8; 32] };
    let bytes = stub.serialize_pillar().unwrap();
    assert_eq!(bytes.len(), 64);
    assert_eq!(TransactionStub::deserialize_pillar(&bytes).unwrap(), stub);
}

#[test]
fn full_filter_round_trips() {
    let filter = TransactionFilter::new(Some([1; 32]), Some([2; 32]), Some(3));
    let bytes = filter.serialize_pillar().unwrap();
    assert_eq!(bytes.len(), 75);
    assert_eq!(bytes[0], 1);
    assert_eq!(bytes[33], 1);
    assert_eq!(bytes[66], 1);
    assert_eq!(TransactionFilter::deserialize_pillar(&bytes).unwrap(), filter);
}

#[test]
fn partial_filter_keeps_the_fixed_layout() {
    let filter = TransactionFilter::new(None, Some([2; 32]), Some(3));
    let bytes = filter.serialize_pillar().unwrap();
    assert_eq!(bytes.len(), 75);
    assert_eq!(bytes[0..33], [0u8; 33]);
    assert_eq!(bytes[33], 1);
    assert_eq!(TransactionFilter::deserialize_pillar(&bytes).unwrap(), filter);
    for f in [
        TransactionFilter::new(None, None, None),
        TransactionFilter::new(Some([1; 32]), None, None),
        TransactionFilter::new(None, Some([2; 32]), None),
        TransactionFilter::new(None, None, Some(7)),
        TransactionFilter::new(Some([1; 32]), Some([2; 32]), None),
    ] {
        let b = f.serialize_pillar().unwrap();
        assert_eq!(b.len(), 75);
        assert_eq!(TransactionFilter::deserialize_pillar(&b).unwrap(), f);
    }
    let empty = TransactionFilter::new(None, None, None).serialize_pillar().unwrap();
    assert_eq!(empty, vec![0u8; 75]);
}

#[test]
fn hash_lists_round_trip() {
    let hashes = vec![[1u8; 32], [2u8; 32], [3u8; 32]];
    let bytes = serialize_arrays(&hashes);
    assert_eq!(bytes.len(), 96);
    assert_eq!(deserialize_arrays(&bytes), hashes);
    assert!(deserialize_arrays(&[]).is_empty());
}

#[test]
fn messages_are_length_prefixed() {
    let framed = package_standard_message(&[9, 8, 7]);
    assert_eq!(framed, vec![3, 0, 0, 0, 9, 8, 7]);
    assert_eq!(package_standard_message(&[]), vec![0, 0, 0, 0]);
}
