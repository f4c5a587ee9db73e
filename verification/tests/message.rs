use pillar_core::account::TransactionStub;
use pillar_core::block::BlockHeader;
use pillar_core::errors::BlockValidationError;
use pillar_core::message::{deserialize_message, serialize_message, Message};
use pillar_core::peer::{Peer, PillarIPAddr};
use pillar_core::transaction::TransactionFilter;
use pillar_core::wire::WireError;

fn peer() -> Peer {
    Peer::new([6; 32], PillarIPAddr::from_ipv4([10, 0, 0, 7]), 13000)
}

fn round_trip(m: Message) -> Vec<u8> {
    let bytes = serialize_message(&m);
    assert_eq!(deserialize_message(&bytes), Ok(m));
    bytes
}

#[test]
fn message_bare_codes_round_trip() {
    assert_eq!(round_trip(Message::Ping), vec![0]);
    assert_eq!(round_trip(Message::ChainRequest), vec![1]);
    assert_eq!(round_trip(Message::TransactionFilterAck), vec![17]);
    assert_eq!(round_trip(Message::DiscoveryRequest), vec![24]);
}

#[test]
fn message_bare_code_ignores_what_follows() {
    assert_eq!(deserialize_message(&[9, 1, 2, 3]), Ok(Message::BlockAck));
}

#[test]
fn message_with_peer_round_trips() {
    let bytes = round_trip(Message::Declaration(peer()));
    assert_eq!(bytes.len(), 51);
    assert_eq!(bytes[0], 5);
    assert_eq!(&bytes[1..33], &[6u8; 32]);
    round_trip(Message::DiscoveryResponse(peer()));
    let list = round_trip(Message::PeerResponse(vec![peer(), peer()]));
    assert_eq!(list.len(), 101);
    round_trip(Message::PercentileFilteredPeerResponse(vec![]));
}

#[test]
fn message_block_request_carries_the_hash() {
    let bytes = round_trip(Message::BlockRequest([5; 32]));
    let mut expected = vec![10u8];
    expected.extend_from_slice(&[5u8; 32]);
    assert_eq!(bytes, expected);
}

#[test]
fn message_sync_request_lists_leaves() {
    let bytes = round_trip(Message::ChainSyncRequest(vec![[1; 32], [2; 32]]));
    assert_eq!(bytes.len(), 65);
    assert_eq!(bytes[0], 19);
    assert_eq!(bytes[33], 2);
}

#[test]
fn message_percentiles_travel_as_float_bits() {
    let lo = 0.25f32.to_bits();
    let hi = 0.75f32.to_bits();
    let bytes = round_trip(Message::PercentileFilteredPeerRequest(lo, hi));
    assert_eq!(&bytes[1..5], &0.25f32.to_le_bytes());
    assert_eq!(&bytes[5..9], &0.75f32.to_le_bytes());
}

#[test]
fn message_filter_is_length_prefixed() {
    let filter = TransactionFilter::new(Some([1; 32]), None, Some(9));
    let bytes = round_trip(Message::TransactionFilterRequest(filter.clone(), peer()));
    assert_eq!(bytes.len(), 1 + 4 + 75 + 50);
    assert_eq!(&bytes[1..5], &[75, 0, 0, 0]);
    let header = BlockHeader::default();
    let response = round_trip(Message::TransactionFilterResponse(filter, header));
    assert_eq!(response.len(), 1 + 4 + 75 + 1160);
}

#[test]
fn message_carried_bytes_round_trip() {
    let bytes = round_trip(Message::Carried(8, vec![1, 2, 3]));
    assert_eq!(bytes, vec![8, 1, 2, 3]);
}

#[test]
fn message_errors() {
    assert_eq!(deserialize_message(&[]), Err(WireError::InsufficientData));
    assert_eq!(deserialize_message(&[26]), Err(WireError::UnknownCode));
    assert_eq!(deserialize_message(&[5, 1, 2]), Err(WireError::Malformed));
    assert_eq!(deserialize_message(&[4; 50]), Err(WireError::Malformed));
    assert_eq!(deserialize_message(&[21, 0, 0, 0]), Err(WireError::Malformed));
    let mut wrong_length = serialize_message(&Message::TransactionFilterRequest(TransactionFilter::new(None, None, None), peer()));
    wrong_length[1] = 74;
    assert_eq!(deserialize_message(&wrong_length), Err(WireError::Malformed));
}

#[test]
fn validation_error_texts() {
    assert_eq!(BlockValidationError::FutureTimestamp(1234).message(), "Block timestamp is in the future: 1234");
    assert_eq!(BlockValidationError::TransactionNonceMismatch(0, 17).message(), "Transaction nonce mismatch: expected 0, got 17");
    assert_eq!(BlockValidationError::TransactionInsufficientBalance(u64::MAX).message(), "Transaction has insufficient balance: 18446744073709551615");
    let mut a = [0u8; 32];
    a[0] = 255;
    a[31] = 7;
    let expected = format!("{:?}", a);
    assert!(expected.starts_with("[255, 0, 0"));
    assert!(expected.ends_with(", 0, 7]"));
    assert_eq!(BlockValidationError::InvalidStampSignature(a).message(), format!("Invalid tail signature from address: {expected}"));
    assert_eq!(
        BlockValidationError::HashMismatch([1; 32], a).message(),
        format!("Block hash mismatch: expected {:?}, got {expected}", [1u8; 32])
    );
    assert_eq!(BlockValidationError::MalformedBlock("bad".to_string()).message(), "bad");
    assert_eq!(BlockValidationError::Other("why".to_string()).message(), "Block validation error: why");
    assert_eq!(BlockValidationError::MerkleGenerationFailed.message(), "Failed to generate Merkle tree");
    let header = BlockHeader::default();
    let text = BlockValidationError::DifficultyMismatch(4, header).message();
    assert!(text.starts_with("Block difficulty mismatch: expected 4, got BlockHeader"));
    assert!(BlockValidationError::NoStateRoot(header).message().starts_with("Block has no state root: BlockHeader"));
}

fn assert_roundtrip(msg: &Message) {
    let bytes = serialize_message(msg);
    let rt = deserialize_message(&bytes).expect("deserialize");
    let bytes2 = serialize_message(&rt);
    assert_eq!(bytes, bytes2, "Round-trip bytes must match for {:?}", msg);
}

fn make_peer(pk: u8, port: u16) -> Peer {
    Peer::new([pk; 32], PillarIPAddr::from_ipv4([127, 0, 0, 1]), port)
}

fn make_tx_stub() -> TransactionStub {
    TransactionStub { block_hash: [7; 32], transaction_hash: [8; 32] }
}

fn make_filter() -> TransactionFilter {
    TransactionFilter::new(Some([1; 32]), Some([2; 32]), Some(3))
}

#[test]
fn test_message_ping() { assert_roundtrip(&Message::Ping); }

#[test]
fn test_message_chain_request() { assert_roundtrip(&Message::ChainRequest); }

#[test]
fn test_message_peer_request() { assert_roundtrip(&Message::PeerRequest); }

#[test]
fn test_message_peer_response() { assert_roundtrip(&Message::PeerResponse(vec![make_peer(5, 18080), make_peer(6, 18081)])); }

#[test]
fn test_message_declaration() { assert_roundtrip(&Message::Declaration(make_peer(7, 18082))); }

#[test]
fn test_message_transaction_ack() { assert_roundtrip(&Message::TransactionAck); }

#[test]
fn test_message_block_ack() { assert_roundtrip(&Message::BlockAck); }

#[test]
fn test_message_block_request() { assert_roundtrip(&Message::BlockRequest([9; 32])); }

#[test]
fn test_message_chain_shard_request() { assert_roundtrip(&Message::ChainShardRequest); }

#[test]
fn test_message_tx_proof_request() { assert_roundtrip(&Message::TransactionProofRequest(make_tx_stub())); }

#[test]
fn test_message_tx_filter_request() { assert_roundtrip(&Message::TransactionFilterRequest(make_filter(), make_peer(11, 18083))); }

#[test]
fn test_message_tx_filter_ack() { assert_roundtrip(&Message::TransactionFilterAck); }

#[test]
fn test_message_tx_filter_response() { assert_roundtrip(&Message::TransactionFilterResponse(make_filter(), BlockHeader::default())); }

#[test]
fn test_message_chain_sync_request() { assert_roundtrip(&Message::ChainSyncRequest(vec![[1; 32], [2; 32]])); }

#[test]
fn test_message_percentile_filtered_peer_request() {
    assert_roundtrip(&Message::PercentileFilteredPeerRequest(0.1f32.to_bits(), 0.9f32.to_bits()));
}

#[test]
fn test_message_percentile_filtered_peer_response() { assert_roundtrip(&Message::PercentileFilteredPeerResponse(vec![make_peer(21, 19000)])); }

#[test]
fn test_message_error() {
    // An error text travels as its length and its UTF-8 bytes, carried as bytes.
    let mut text = vec![4u8, 0, 0, 0];
    text.extend_from_slice("oops".as_bytes());
    assert_roundtrip(&Message::Carried(23, text));
}

#[test]
fn test_message_block_response_none() {
    // No block: the optional block's tag byte 0, carried as bytes.
    assert_roundtrip(&Message::Carried(11, vec![0]));
}

#[test]
fn message_codes_and_encryption() {
    assert_eq!(Message::Ping.code(), 0);
    assert_eq!(Message::DiscoveryResponse(peer()).code(), 25);
    assert_eq!(Message::Carried(20, vec![]).code(), 20);
    assert!(Message::Ping.encryption_supported());
    assert!(!Message::BlockAck.encryption_supported());
}

#[test]
fn message_names() {
    assert_eq!(Message::Ping.name(), "Ping");
    assert_eq!(Message::TransactionFilterRequest(make_filter(), peer()).name(), "TransactionFilterRequest");
    assert_eq!(Message::Carried(8, vec![]).name(), "BlockTransmission");
    assert_eq!(Message::Carried(23, vec![]).name(), "Error");
}
