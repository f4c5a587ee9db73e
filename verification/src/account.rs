//! Accounts of the ledger state.

use vstd::prelude::*;

use crate::bytes::{zero32, StdByteArray};

verus! {

/// A reference to the transaction that credited an account: the block it is
/// in and its hash.
#[derive(Debug, Clone, Copy, PartialEq, Eq)]
pub struct TransactionStub {
    /// The hash of the block that holds the transaction.
    pub block_hash: StdByteArray,
    /// The hash of the transaction.
    pub transaction_hash: StdByteArray,
}

/// An account: its address, balance and nonces, and the transactions that
/// led to its balance.
#[derive(Debug, PartialEq, Eq)]
pub struct Account {
    /// The address of the account: its public key.
    pub address: StdByteArray,
    /// The balance of the account.
    pub balance: u64,
    /// The nonce of the account, against replay.
    pub nonce: u64,
    /// The local copy of the next nonce to send.
    pub local_nonce: u64,
    /// The transactions that led to this balance.
    pub history: Vec<TransactionStub>,
}

impl Account {
    /// A new account with the given address and balance and zero nonces. An
    /// account created with a positive balance records one all-zero stub for
    /// the balance it starts with; one created empty records nothing.
    pub fn new(address: StdByteArray, balance: u64) -> (r: Self)
        ensures
            r.address == address,
            r.balance == balance,
            r.nonce == 0,
            r.local_nonce == 0,
            balance == 0 ==> r.history@.len() == 0,
            balance > 0 ==> r.history@.len() == 1 && r.history@[0].block_hash@ == zero32()
                && r.history@[0].transaction_hash@ == zero32(),
    {
        let history = if balance == 0 {
            Vec::new()
        } else {
            let z: [u8; 32] = [0u8; 32];
            assert(z@ =~= zero32());
            vec![TransactionStub { transaction_hash: z, block_hash: z }]
        };
        Account { address, balance, nonce: 0, local_nonce: 0, history }
    }
}

} // verus!
