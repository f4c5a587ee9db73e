//! Transactions, their headers and transaction filters.

use vstd::prelude::*;
use vstd::bytes::{spec_u64_to_le_bytes, u64_to_le_bytes};

use crate::bytes::{eq32, StdByteArray};
use crate::hashing::{HashError, HashFunction, Hashable};
use crate::signing::{SigFunction, Signable};

verus! {

/// The fixed-size part of a transaction header.
#[derive(Debug, Clone, Copy, PartialEq, Eq, Hash)]
pub struct TransactionMeta {
    /// The ed25519 public key of the sender.
    pub sender: StdByteArray,
    /// The ed25519 public key of the receiver.
    pub receiver: StdByteArray,
    /// The amount of tokens transferred.
    pub amount: u64,
    /// The time the transaction was created.
    pub timestamp: u64,
    /// A number used once per sender, against replay.
    pub nonce: u64,
}

/// The signed content of a transaction.
#[derive(Debug, Clone, PartialEq, Eq, Hash)]
pub struct TransactionHeader {
    pub meta: TransactionMeta,
    /// Free-form data carried by the transaction.
    pub data: Vec<u8>,
}

/// A transaction: its header, the hash of the header and a signature.
#[derive(Debug, Clone, PartialEq, Eq, Hash)]
pub struct Transaction {
    pub header: TransactionHeader,
    /// The hash of the header.
    pub hash: StdByteArray,
    /// The signature over `hash`; all zero while unsigned.
    pub signature: [u8; 64],
}

/// A filter that light nodes send to full nodes to be told when a matching
/// transaction enters a block. A field that is `None` matches anything.
#[derive(Debug, Clone, PartialEq, Eq, Hash)]
pub struct TransactionFilter {
    pub sender: Option<StdByteArray>,
    pub receiver: Option<StdByteArray>,
    pub amount: Option<u64>,
}

/// The bytes that hashing a transaction header feeds to the hash function:
/// sender, receiver, amount, timestamp and nonce (little-endian), then data.
pub open spec fn header_hash_bytes(h: TransactionHeader) -> Seq<u8> {
    h.meta.sender@ + h.meta.receiver@ + spec_u64_to_le_bytes(h.meta.amount)
        + spec_u64_to_le_bytes(h.meta.timestamp) + spec_u64_to_le_bytes(h.meta.nonce)
        + h.data@
}

impl TransactionFilter {
    /// Creates a filter from its three optional fields.
    pub fn new(sender: Option<StdByteArray>, receiver: Option<StdByteArray>, amount: Option<u64>) -> (r: Self)
        ensures
            r.sender == sender,
            r.receiver == receiver,
            r.amount == amount,
    {
        TransactionFilter { sender, receiver, amount }
    }
}

/// Whether a filter matches a transaction: each field that the filter sets
/// equals the transaction's.
pub open spec fn filter_matches(f: TransactionFilter, t: Transaction) -> bool {
    &&& (f.sender matches Some(s) ==> s@ == t.header.meta.sender@)
    &&& (f.receiver matches Some(r) ==> r@ == t.header.meta.receiver@)
    &&& (f.amount matches Some(a) ==> a == t.header.meta.amount)
}

/// Matching an object against a filter.
pub trait FilterMatch<T> {
    /// Whether the filter matches `other`.
    spec fn spec_matches(&self, other: &T) -> bool;

    /// Whether the filter matches `other`.
    fn matches(&self, other: &T) -> (r: bool)
        ensures
            r == self.spec_matches(other),
    ;
}

impl FilterMatch<Transaction> for TransactionFilter {
    open spec fn spec_matches(&self, other: &Transaction) -> bool {
        filter_matches(*self, *other)
    }

    fn matches(&self, other: &Transaction) -> (r: bool) {
        if let Some(sender) = &self.sender {
            if !eq32(sender, &other.header.meta.sender) {
                return false;
            }
        }
        if let Some(receiver) = &self.receiver {
            if !eq32(receiver, &other.header.meta.receiver) {
                return false;
            }
        }
        if let Some(amount) = self.amount {
            if amount != other.header.meta.amount {
                return false;
            }
        }
        true
    }
}

/// The filter that matches exactly the sender, receiver and amount of a
/// transaction.
pub open spec fn filter_of(t: Transaction) -> TransactionFilter {
    TransactionFilter {
        sender: Some(t.header.meta.sender),
        receiver: Some(t.header.meta.receiver),
        amount: Some(t.header.meta.amount),
    }
}

impl vstd::std_specs::convert::FromSpecImpl<Transaction> for TransactionFilter {
    open spec fn obeys_from_spec() -> bool {
        true
    }

    open spec fn from_spec(t: Transaction) -> TransactionFilter {
        filter_of(t)
    }
}

impl From<Transaction> for TransactionFilter {
    fn from(transaction: Transaction) -> (r: Self) {
        TransactionFilter {
            sender: Some(transaction.header.meta.sender),
            receiver: Some(transaction.header.meta.receiver),
            amount: Some(transaction.header.meta.amount),
        }
    }
}

/// The filter made from a transaction matches that transaction.
pub proof fn lemma_filter_of_matches(t: Transaction)
    ensures
        filter_matches(filter_of(t), t),
{
}

/// A filter matches a transaction exactly when every field that it sets is
/// the transaction's: the sender it names is the sender, the receiver it
/// names is the receiver, and the amount it names is the amount.
pub proof fn lemma_filter_matches_fields(f: TransactionFilter, t: Transaction)
    ensures
        <TransactionFilter as FilterMatch<Transaction>>::spec_matches(&f, &t) <==> {
            &&& (f.sender is None || f.sender == Some(t.header.meta.sender))
            &&& (f.receiver is None || f.receiver == Some(t.header.meta.receiver))
            &&& (f.amount is None || f.amount == Some(t.header.meta.amount))
        },
{
    broadcast use vstd::array::axiom_array_ext_equal;
    if let Some(s) = f.sender {
        if s@ == t.header.meta.sender@ {
            assert(s =~= t.header.meta.sender);
        }
    }
    if let Some(r) = f.receiver {
        if r@ == t.header.meta.receiver@ {
            assert(r =~= t.header.meta.receiver);
        }
    }
}

/// A filter that names a receiver never matches a transaction to another
/// receiver, and likewise for the sender and the amount.
pub proof fn lemma_filter_rejects_other_fields(f: TransactionFilter, t: Transaction)
    ensures
        f.sender matches Some(s) && s != t.header.meta.sender ==> !<TransactionFilter as FilterMatch<
            Transaction,
        >>::spec_matches(&f, &t),
        f.receiver matches Some(r) && r != t.header.meta.receiver ==> !<TransactionFilter as FilterMatch<
            Transaction,
        >>::spec_matches(&f, &t),
        f.amount matches Some(a) && a != t.header.meta.amount ==> !<TransactionFilter as FilterMatch<
            Transaction,
        >>::spec_matches(&f, &t),
{
    lemma_filter_matches_fields(f, t);
}

/// A filter that sets no field matches every transaction, and the filter
/// made from a transaction matches exactly the transactions with its sender,
/// receiver and amount.
pub proof fn lemma_filter_extremes(t: Transaction, u: Transaction)
    ensures
        <TransactionFilter as FilterMatch<Transaction>>::spec_matches(
            &TransactionFilter { sender: None, receiver: None, amount: None },
            &u,
        ),
        <TransactionFilter as FilterMatch<Transaction>>::spec_matches(&filter_of(t), &u) <==> (u.header.meta.sender
            == t.header.meta.sender && u.header.meta.receiver == t.header.meta.receiver && u.header.meta.amount
            == t.header.meta.amount),
{
    lemma_filter_matches_fields(TransactionFilter { sender: None, receiver: None, amount: None }, u);
    lemma_filter_matches_fields(filter_of(t), u);
}

impl TransactionHeader {
    /// Creates a header with empty data.
    pub fn new(sender: StdByteArray, receiver: StdByteArray, amount: u64, timestamp: u64, nonce: u64) -> (r: Self)
        ensures
            r.meta.sender == sender,
            r.meta.receiver == receiver,
            r.meta.amount == amount,
            r.meta.timestamp == timestamp,
            r.meta.nonce == nonce,
            r.data@ == Seq::<u8>::empty(),
    {
        TransactionHeader {
            meta: TransactionMeta { sender, receiver, amount, timestamp, nonce },
            data: Vec::new(),
        }
    }

    /// Hashes the header: absorbs its bytes and returns the digest.
    pub fn hash<H: HashFunction>(&self, hasher: &mut H) -> (r: StdByteArray)
        ensures
            r@ == H::digest_of(old(hasher).absorbed() + header_hash_bytes(*self)),
            final(hasher).absorbed() == Seq::<u8>::empty(),
            !final(hasher).started(),
    {
        let ghost a = hasher.absorbed();
        hasher.update(self.meta.sender.as_slice());
        hasher.update(self.meta.receiver.as_slice());
        let amount = u64_to_le_bytes(self.meta.amount);
        hasher.update(amount.as_slice());
        let timestamp = u64_to_le_bytes(self.meta.timestamp);
        hasher.update(timestamp.as_slice());
        let nonce = u64_to_le_bytes(self.meta.nonce);
        hasher.update(nonce.as_slice());
        hasher.update(self.data.as_slice());
        assert(hasher.absorbed() =~= a + header_hash_bytes(*self));
        match hasher.digest() {
            Ok(h) => h,
            Err(_) => [0u8; 32],
        }
    }

    /// The amount transferred.
    pub fn ammount(&self) -> (r: u64)
        ensures
            r == self.meta.amount,
    {
        self.meta.amount
    }

    /// The sender's public key.
    pub fn sender(&self) -> (r: StdByteArray)
        ensures
            r == self.meta.sender,
    {
        self.meta.sender
    }

    /// The receiver's public key.
    pub fn receiver(&self) -> (r: StdByteArray)
        ensures
            r == self.meta.receiver,
    {
        self.meta.receiver
    }

    /// The time the transaction was created.
    pub fn timestamp(&self) -> (r: u64)
        ensures
            r == self.meta.timestamp,
    {
        self.meta.timestamp
    }

    /// The nonce of the transaction.
    pub fn nonce(&self) -> (r: u64)
        ensures
            r == self.meta.nonce,
    {
        self.meta.nonce
    }
}

impl Transaction {
    /// Creates an unsigned transaction whose hash is the hash of its header.
    pub fn new<H: HashFunction>(
        sender: StdByteArray,
        receiver: StdByteArray,
        amount: u64,
        timestamp: u64,
        nonce: u64,
        hash_function: &mut H,
    ) -> (r: Self)
        ensures
            r.header.meta.sender == sender,
            r.header.meta.receiver == receiver,
            r.header.meta.amount == amount,
            r.header.meta.timestamp == timestamp,
            r.header.meta.nonce == nonce,
            r.header.data@ == Seq::<u8>::empty(),
            r.hash@ == H::digest_of(old(hash_function).absorbed() + header_hash_bytes(r.header)),
            r.signature@ == crate::bytes::zero64(),
            final(hash_function).absorbed() == Seq::<u8>::empty(),
            !final(hash_function).started(),
    {
        let header = TransactionHeader::new(sender, receiver, amount, timestamp, nonce);
        let hash = header.hash(hash_function);
        let signature = [0u8; 64];
        assert(signature@ =~= crate::bytes::zero64());
        Transaction { header, hash, signature }
    }

    /// Signs the transaction's hash and stores the signature.
    pub fn sign<S: SigFunction>(&mut self, signing_function: &mut S) -> (r: [u8; 64])
        ensures
            r@ == crate::crypto::ed25519_signature(old(signing_function).secret(), old(self).hash@),
            final(self).signature == r,
            final(self).header == old(self).header,
            final(self).hash == old(self).hash,
    {
        let signature = signing_function.sign(&*self);
        self.signature = signature;
        signature
    }
}

impl Hashable for Transaction {
    open spec fn hash_input(&self) -> Option<Seq<u8>> {
        Some(header_hash_bytes(self.header))
    }

    fn hash<H: HashFunction>(&self, hasher: &mut H) -> (r: Result<StdByteArray, HashError>) {
        Ok(self.header.hash(hasher))
    }
}

impl Signable for Transaction {
    open spec fn signing_bytes(&self) -> Seq<u8> {
        self.hash@
    }

    fn get_signing_bytes(&self) -> (r: Vec<u8>) {
        let mut v: Vec<u8> = Vec::new();
        crate::bytes::extend_bytes(&mut v, self.hash.as_slice());
        v
    }
}

} // verus!
