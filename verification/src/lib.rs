//! Core data structures and protocol rules of the Pillar ledger.
//!
//! Block and transaction primitives, the stamp tail of a block, header
//! validation and proof of work, the validation of a transaction against its
//! sender's account, how a block moves balances and rewards its miner and
//! stampers and the state it branches in the state trie, the miner's
//! transaction pool, how a node answers a peer's request, which shards a node
//! keeps when it catches up with its peers, the difficulty and reward
//! schedule, Merkle trees with proofs of inclusion, the state trie with its
//! branching roots and proofs of state, chain shards and their trimming, the
//! reputation history of a node, encrypted channels between peers, the
//! messages between nodes and the text of validation errors, and the binary
//! wire format of fixed-size values.

pub mod bytes;
pub mod crypto;
pub mod hashing;
pub mod signing;
pub mod versions;
pub mod difficulty;
pub mod pow;
pub mod transaction;
pub mod merkle;
pub mod proofs;
pub mod block;
pub mod errors;
pub mod header;
pub mod clock;
pub mod block_content;
pub mod chain_shard;
pub mod node_state;
pub mod account;
pub mod peer;
pub mod trie_proof;
pub mod endian;
pub mod history;
pub mod encryption;
pub mod wire;
pub mod serialize;
pub mod merkle_trie;
pub mod miner;
pub mod ledger;
pub mod serve;
pub mod sync;
pub mod settle;
pub mod message;
pub mod state;

use vstd::prelude::*;

verus! {

/// The TCP port on which nodes speak the protocol.
pub const PROTOCOL_PORT: u16 = 13000;

/// The largest amount of transaction data a block may carry (64 KiB).
pub const MAX_BLOCK_DATA_SIZE: usize = 65536;

/// The number of stamp slots in the tail of a block.
pub const N_TRANSMISSION_SIGNATURES: usize = 10;

} // verus!
