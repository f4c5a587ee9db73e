//! Errors of block validation and of queries to peers.

use vstd::prelude::*;

use vstd::string::StringExecFns;

use crate::block::BlockHeader;
use crate::bytes::StdByteArray;

verus! {

/// `std::io::Error`, carried by query errors.
#[verifier::external_type_specification]
#[verifier::external_body]
pub struct ExIoError(std::io::Error);

/// Why a block, a shard or a transaction is invalid.
#[derive(Debug)]
pub enum BlockValidationError {
    /// The block is malformed.
    MalformedBlock(String),
    /// The shard is malformed.
    MalformedShard(String),
    /// The block has no miner address (it is not mined).
    NoMinerAddress(BlockHeader),
    /// The block has no state root.
    NoStateRoot(BlockHeader),
    /// The declared hash (first) does not match the computed one (second).
    HashMismatch(StdByteArray, StdByteArray),
    /// The hash does not meet the declared difficulty.
    DifficultyMismatch(u64, BlockHeader),
    /// The timestamp is too far in the future.
    FutureTimestamp(u64),
    /// A stamp in the tail has an invalid signature; the stamper's address.
    InvalidStampSignature(StdByteArray),
    /// The block contains an invalid transaction.
    InvalidTransaction(String),
    /// The transaction has no sender.
    TransactionNoSender,
    /// The transaction has no receiver.
    TransactionNoReceiver,
    /// The transaction timestamp is in the future.
    TransactionFutureTimestamp,
    /// The transaction nonce is not the expected one (expected, actual).
    TransactionNonceMismatch(u64, u64),
    /// The transaction signature does not match.
    TransactionSignatureMismatch,
    /// The sender's balance does not cover the transaction.
    TransactionInsufficientBalance(u64),
    /// The transaction signature is invalid.
    TransactionInvalidSignature,
    /// The Merkle tree could not be generated.
    MerkleGenerationFailed,
    /// Any other reason.
    Other(String),
}

/// Why a query to a peer failed.
#[derive(Debug)]
pub enum QueryError {
    /// The response is not the one asked for.
    InvalidResponse,
    /// The peer sent an invalid block.
    BadBlock(BlockValidationError),
    /// No peer replied.
    NoReply,
    /// Communication failed.
    IOError(std::io::Error),
    /// Information needed for the query is missing.
    InsufficientInfo(String),
}

/// The character of the decimal digit `d`.
pub open spec fn digit_char(d: nat) -> char {
    (48 + d) as char
}

/// A number in decimal, without leading zeros.
pub open spec fn decimal(n: nat) -> Seq<char>
    decreases n,
{
    if n < 10 {
        seq![digit_char(n)]
    } else {
        decimal(n / 10).push(digit_char(n % 10))
    }
}

/// The numbers of a list in decimal, separated by a comma and a space.
pub open spec fn items_text(s: Seq<u8>) -> Seq<char>
    decreases s.len(),
{
    if s.len() == 0 {
        Seq::empty()
    } else if s.len() == 1 {
        decimal(s[0] as nat)
    } else {
        items_text(s.drop_last()) + seq![',', ' '] + decimal(s.last() as nat)
    }
}

/// A list of bytes as `std` debug-prints it: its numbers in decimal between
/// square brackets.
pub open spec fn list_text(s: Seq<u8>) -> Seq<char> {
    seq!['['] + items_text(s) + seq![']']
}

/// `u64::to_string`: the number in decimal.
#[verifier::external_body]
fn number_text(n: u64) -> (r: String)
    ensures
        r@ == decimal(n as nat),
{
    n.to_string()
}

/// `format!("{:?}")` of a 32-byte array: its bytes in decimal, separated by
/// a comma and a space, between square brackets.
#[verifier::external_body]
fn array_text(a: &StdByteArray) -> (r: String)
    ensures
        r@ == list_text(a@),
{
    format!("{:?}", a)
}

/// `format!("{:?}")` of a header, as its derived `Debug` writes it; nothing
/// is stated of the text.
#[verifier::external_body]
fn header_text(h: &BlockHeader) -> (r: String) {
    format!("{:?}", h)
}

/// The text of an error; for one that carries a header, the words before the
/// header's debug text.
pub open spec fn message_text(e: BlockValidationError) -> Seq<char> {
    match e {
        BlockValidationError::MalformedBlock(m) => m@,
        BlockValidationError::MalformedShard(reason) => "Malformed shard: "@ + reason@,
        BlockValidationError::HashMismatch(expected, actual) => "Block hash mismatch: expected "@ + list_text(expected@)
            + ", got "@ + list_text(actual@),
        BlockValidationError::FutureTimestamp(t) => "Block timestamp is in the future: "@ + decimal(t as nat),
        BlockValidationError::InvalidStampSignature(address) => "Invalid tail signature from address: "@ + list_text(
            address@,
        ),
        BlockValidationError::InvalidTransaction(reason) => "Block contains an invalid transaction: "@ + reason@,
        BlockValidationError::TransactionNoSender => "Transaction has no sender"@,
        BlockValidationError::TransactionNoReceiver => "Transaction has no receiver"@,
        BlockValidationError::TransactionFutureTimestamp => "Transaction timestamp is in the future"@,
        BlockValidationError::TransactionNonceMismatch(expected, actual) => "Transaction nonce mismatch: expected "@
            + decimal(expected as nat) + ", got "@ + decimal(actual as nat),
        BlockValidationError::TransactionSignatureMismatch => "Transaction signature does not match"@,
        BlockValidationError::TransactionInsufficientBalance(b) => "Transaction has insufficient balance: "@ + decimal(
            b as nat,
        ),
        BlockValidationError::TransactionInvalidSignature => "Transaction has an invalid signature"@,
        BlockValidationError::MerkleGenerationFailed => "Failed to generate Merkle tree"@,
        BlockValidationError::Other(reason) => "Block validation error: "@ + reason@,
        BlockValidationError::NoMinerAddress(_) => "Block has no miner address: "@,
        BlockValidationError::NoStateRoot(_) => "Block has no state root: "@,
        BlockValidationError::DifficultyMismatch(expected, _) => "Block difficulty mismatch: expected "@ + decimal(
            expected as nat,
        ) + ", got "@,
    }
}

/// The errors whose text ends with the debug text of a header.
pub open spec fn carries_header(e: BlockValidationError) -> bool {
    ||| e is NoMinerAddress
    ||| e is NoStateRoot
    ||| e is DifficultyMismatch
}

impl BlockValidationError {
    /// The error as text. An error that carries a header ends with the
    /// header's debug text, after the words that `message_text` gives.
    pub fn message(&self) -> (r: String)
        ensures
            !carries_header(*self) ==> r@ == message_text(*self),
            carries_header(*self) ==> r@.len() >= message_text(*self).len() && r@.subrange(
                0,
                message_text(*self).len() as int,
            ) == message_text(*self),
    {
        let r = match self {
            BlockValidationError::MalformedBlock(m) => m.clone(),
            BlockValidationError::MalformedShard(reason) => {
                let mut s = String::from_str("Malformed shard: ");
                s.append(reason.as_str());
                s
            },
            BlockValidationError::NoMinerAddress(header) => {
                let mut s = String::from_str("Block has no miner address: ");
                let h = header_text(header);
                s.append(h.as_str());
                s
            },
            BlockValidationError::NoStateRoot(header) => {
                let mut s = String::from_str("Block has no state root: ");
                let h = header_text(header);
                s.append(h.as_str());
                s
            },
            BlockValidationError::HashMismatch(expected, actual) => {
                let mut s = String::from_str("Block hash mismatch: expected ");
                let a = array_text(expected);
                s.append(a.as_str());
                s.append(", got ");
                let b = array_text(actual);
                s.append(b.as_str());
                s
            },
            BlockValidationError::DifficultyMismatch(expected, header) => {
                let mut s = String::from_str("Block difficulty mismatch: expected ");
                let n = number_text(*expected);
                s.append(n.as_str());
                s.append(", got ");
                let h = header_text(header);
                s.append(h.as_str());
                s
            },
            BlockValidationError::FutureTimestamp(t) => {
                let mut s = String::from_str("Block timestamp is in the future: ");
                let n = number_text(*t);
                s.append(n.as_str());
                s
            },
            BlockValidationError::InvalidStampSignature(address) => {
                let mut s = String::from_str("Invalid tail signature from address: ");
                let a = array_text(address);
                s.append(a.as_str());
                s
            },
            BlockValidationError::InvalidTransaction(reason) => {
                let mut s = String::from_str("Block contains an invalid transaction: ");
                s.append(reason.as_str());
                s
            },
            BlockValidationError::TransactionNoSender => String::from_str("Transaction has no sender"),
            BlockValidationError::TransactionNoReceiver => String::from_str("Transaction has no receiver"),
            BlockValidationError::TransactionFutureTimestamp => String::from_str("Transaction timestamp is in the future"),
            BlockValidationError::TransactionNonceMismatch(expected, actual) => {
                let mut s = String::from_str("Transaction nonce mismatch: expected ");
                let a = number_text(*expected);
                s.append(a.as_str());
                s.append(", got ");
                let b = number_text(*actual);
                s.append(b.as_str());
                s
            },
            BlockValidationError::TransactionSignatureMismatch => String::from_str("Transaction signature does not match"),
            BlockValidationError::TransactionInsufficientBalance(b) => {
                let mut s = String::from_str("Transaction has insufficient balance: ");
                let n = number_text(*b);
                s.append(n.as_str());
                s
            },
            BlockValidationError::TransactionInvalidSignature => String::from_str("Transaction has an invalid signature"),
            BlockValidationError::MerkleGenerationFailed => String::from_str("Failed to generate Merkle tree"),
            BlockValidationError::Other(reason) => {
                let mut s = String::from_str("Block validation error: ");
                s.append(reason.as_str());
                s
            },
        };
        r
    }
}

} // verus!
