//! The miner's transaction pool: the decisions of the loop that gathers
//! valid transactions and proposes a block once enough of them have arrived
//! or the pool has been quiet for long enough.
//!
//! The loop itself (popping from the shared pool, validating against the
//! chain, reading the clock, sleeping) runs around `pool_step`, which takes
//! what one round observed and says what to do.

use vstd::prelude::*;

use crate::bytes::{eq32, eq64};
use crate::transaction::Transaction;

verus! {

/// Seconds of quiet after the last accepted transaction before a block is
/// proposed.
pub const MAX_TRANSACTION_WAIT_TIME: u64 = 5;

/// The number of pending transactions at which a block is proposed at once.
pub const MAX_BLOCK_TRANSACTION_SIZE: usize = 10;

/// What the pool holds between rounds: the transactions gathered for the
/// next block, each once, and when the last of them was accepted.
pub struct PoolState {
    pub pending: Vec<Transaction>,
    pub last_polled_at: Option<u64>,
}

/// What a round of the pool decides.
pub enum PoolAction {
    /// Keep gathering.
    Wait,
    /// Propose a block with these transactions.
    Propose(Vec<Transaction>),
}

/// Two transactions are the same: equal headers (with equal data), hashes
/// and signatures.
pub open spec fn same_transaction(a: Transaction, b: Transaction) -> bool {
    &&& a.header.meta.sender@ == b.header.meta.sender@
    &&& a.header.meta.receiver@ == b.header.meta.receiver@
    &&& a.header.meta.amount == b.header.meta.amount
    &&& a.header.meta.timestamp == b.header.meta.timestamp
    &&& a.header.meta.nonce == b.header.meta.nonce
    &&& a.header.data@ == b.header.data@
    &&& a.hash@ == b.hash@
    &&& a.signature@ == b.signature@
}

/// Whether `s` holds a transaction that is the same as `t`.
pub open spec fn holds_transaction(s: Seq<Transaction>, t: Transaction) -> bool {
    exists|i: int| 0 <= i < s.len() && same_transaction(#[trigger] s[i], t)
}

/// The pending transactions after a round that received `incoming`: it is
/// added unless the same transaction is already pending.
pub open spec fn pending_after(pending: Seq<Transaction>, incoming: Transaction) -> Seq<Transaction> {
    if holds_transaction(pending, incoming) {
        pending
    } else {
        pending.push(incoming)
    }
}

/// Whether a block is due: the pool has been quiet for
/// `MAX_TRANSACTION_WAIT_TIME` seconds since the last accepted transaction,
/// or `MAX_BLOCK_TRANSACTION_SIZE` transactions are pending.
pub open spec fn block_due(n_pending: int, last_polled_at: Option<u64>, now: u64) -> bool {
    (last_polled_at matches Some(t) && now - t >= MAX_TRANSACTION_WAIT_TIME) || n_pending
        >= MAX_BLOCK_TRANSACTION_SIZE
}

/// Whether `v` holds a transaction that is the same as `x`.
fn holds_same(v: &Vec<Transaction>, x: &Transaction) -> (r: bool)
    ensures
        r == holds_transaction(v@, *x),
{
    let mut i: usize = 0;
    while i < v.len()
        invariant
            0 <= i <= v@.len(),
            forall|j: int| 0 <= j < i ==> !same_transaction(#[trigger] v@[j], *x),
        decreases v@.len() - i,
    {
        if same(&v[i], x) {
            return true;
        }
        i = i + 1;
    }
    false
}

/// Whether two transactions are the same.
fn same(a: &Transaction, b: &Transaction) -> (r: bool)
    ensures
        r == same_transaction(*a, *b),
{
    if !eq32(&a.header.meta.sender, &b.header.meta.sender) || !eq32(&a.header.meta.receiver, &b.header.meta.receiver)
        || a.header.meta.amount != b.header.meta.amount || a.header.meta.timestamp != b.header.meta.timestamp
        || a.header.meta.nonce != b.header.meta.nonce || !eq32(&a.hash, &b.hash) || !eq64(
        &a.signature,
        &b.signature,
    ) || a.header.data.len() != b.header.data.len() {
        return false;
    }
    let mut i: usize = 0;
    while i < a.header.data.len()
        invariant
            0 <= i <= a.header.data@.len(),
            a.header.data@.len() == b.header.data@.len(),
            forall|j: int| 0 <= j < i ==> a.header.data@[j] == b.header.data@[j],
        decreases a.header.data@.len() - i,
    {
        if a.header.data[i] != b.header.data[i] {
            return false;
        }
        i = i + 1;
    }
    assert(a.header.data@ =~= b.header.data@);
    true
}

impl PoolState {
    /// An empty pool that has received nothing yet.
    pub fn new() -> (r: Self)
        ensures
            r.pending@.len() == 0,
            r.last_polled_at is None,
    {
        PoolState { pending: Vec::new(), last_polled_at: None }
    }
}

/// One round of the pool. `incoming` is the transaction popped from the
/// shared pool this round, if any, `valid` whether it validated against the
/// chain, and `now` the time of the round.
///
/// An invalid transaction is dropped and the round ends there. A valid one
/// is added (once) and its time recorded. Then, when a block is due, the
/// pending transactions are handed out for a proposal and the pool starts
/// over empty; otherwise the pool waits.
pub fn pool_step(state: &mut PoolState, incoming: Option<Transaction>, valid: bool, now: u64) -> (r: PoolAction)
    requires
        incoming is None ==> (old(state).last_polled_at matches Some(t) ==> t <= now),
    ensures
        incoming is Some && !valid ==> r is Wait && final(state).pending@ == old(state).pending@
            && final(state).last_polled_at == old(state).last_polled_at,
        !(incoming is Some && !valid) ==> {
            let pending = match incoming {
                Some(t) => pending_after(old(state).pending@, t),
                None => old(state).pending@,
            };
            let last = if incoming is Some {
                Some(now)
            } else {
                old(state).last_polled_at
            };
            if block_due(pending.len() as int, last, now) {
                &&& r matches PoolAction::Propose(v) && v@ == pending
                &&& final(state).pending@.len() == 0
                &&& final(state).last_polled_at is None
            } else {
                &&& r is Wait
                &&& final(state).pending@ == pending
                &&& final(state).last_polled_at == last
            }
        },
{
    match incoming {
        Some(t) => {
            if !valid {
                return PoolAction::Wait;
            }
            if !holds_same(&state.pending, &t) {
                state.pending.push(t);
            }
            state.last_polled_at = Some(now);
        },
        None => {},
    }
    let quiet = match state.last_polled_at {
        Some(t) => now - t >= MAX_TRANSACTION_WAIT_TIME,
        None => false,
    };
    if quiet || state.pending.len() >= MAX_BLOCK_TRANSACTION_SIZE {
        let mut proposal: Vec<Transaction> = Vec::new();
        std::mem::swap(&mut proposal, &mut state.pending);
        state.last_polled_at = None;
        PoolAction::Propose(proposal)
    } else {
        PoolAction::Wait
    }
}

/// A round that receives a transaction keeps every pending transaction in
/// its place and afterwards holds the transaction: it appends it when no
/// pending transaction has its hash, and leaves the pending ones as they
/// are when one is the very same. Pending transactions that hold no two
/// same ones still hold none after the round.
pub proof fn lemma_pending_after(p: Seq<Transaction>, t: Transaction)
    ensures
        holds_transaction(pending_after(p, t), t),
        pending_after(p, t).len() <= p.len() + 1,
        pending_after(p, t).subrange(0, p.len() as int) == p,
        (forall|i: int| 0 <= i < p.len() ==> (#[trigger] p[i]).hash@ != t.hash@) ==> pending_after(p, t) == p.push(t),
        (exists|i: int| 0 <= i < p.len() && #[trigger] p[i] == t) ==> pending_after(p, t) == p,
        (forall|i: int, j: int| 0 <= i < j < p.len() ==> !same_transaction(#[trigger] p[i], #[trigger] p[j])) ==> forall|
            i: int,
            j: int,
        |
            0 <= i < j < pending_after(p, t).len() ==> !same_transaction(
                #[trigger] pending_after(p, t)[i],
                #[trigger] pending_after(p, t)[j],
            ),
{
    let q = pending_after(p, t);
    if holds_transaction(p, t) {
        assert(q.subrange(0, p.len() as int) =~= p);
    } else {
        assert(q[p.len() as int] == t);
        assert(q.subrange(0, p.len() as int) =~= p);
        assert(same_transaction(t, t));
        assert(holds_transaction(q, t));
        if forall|i: int, j: int| 0 <= i < j < p.len() ==> !same_transaction(#[trigger] p[i], #[trigger] p[j]) {
            assert forall|i: int, j: int| 0 <= i < j < q.len() implies !same_transaction(#[trigger] q[i], #[trigger] q[j]) by {
                if j == p.len() {
                    assert(q[i] == p[i]);
                    if same_transaction(p[i], t) {
                        assert(holds_transaction(p, t));
                    }
                } else {
                    assert(q[i] == p[i] && q[j] == p[j]);
                }
            }
        }
        if exists|i: int| 0 <= i < p.len() && #[trigger] p[i] == t {
            let i = choose|i: int| 0 <= i < p.len() && #[trigger] p[i] == t;
            assert(same_transaction(p[i], t));
        }
    }
    if (forall|i: int| 0 <= i < p.len() ==> (#[trigger] p[i]).hash@ != t.hash@) {
        if holds_transaction(p, t) {
            let i = choose|i: int| 0 <= i < p.len() && same_transaction(#[trigger] p[i], t);
            assert(p[i].hash@ == t.hash@);
        }
    }
}

/// A block is due once the pending transactions fill a block, or once the
/// pool has been quiet for the waiting time since the last accepted
/// transaction; otherwise it is not.
pub proof fn lemma_block_due(n_pending: int, last_polled_at: Option<u64>, now: u64)
    ensures
        n_pending >= MAX_BLOCK_TRANSACTION_SIZE ==> block_due(n_pending, last_polled_at, now),
        last_polled_at matches Some(t) && now - t >= MAX_TRANSACTION_WAIT_TIME ==> block_due(
            n_pending,
            last_polled_at,
            now,
        ),
        n_pending < MAX_BLOCK_TRANSACTION_SIZE && (last_polled_at is None || (last_polled_at matches Some(t) && now
            - t < MAX_TRANSACTION_WAIT_TIME)) ==> !block_due(n_pending, last_polled_at, now),
{
}

} // verus!
