//! How a block moves the balances of the ledger.
//!
//! The transactions of a block, in order, each debit their sender, whose
//! nonce advances, and credit their receiver. Then the miner is rewarded:
//! with the whole reward, or, under proof of reputation, with the reward
//! divided by `POR_MINER_SHARE_DIVISOR` and rounded up, the rest shared
//! equally among the stampers that reputation admits. Last, every stamper of
//! the block gets an account. Before the block, an address has the balance
//! and nonce that the previous state holds for it, or zero for both where
//! that state holds nothing for it.

use vstd::prelude::*;

use crate::block::{count_signed, lemma_count_signed_le_len, stamper_addresses, Block};
use crate::bytes::{eq32, extend_bytes, StdByteArray};
use crate::serialize::{le_bytes_u64, le_value_u64, lemma_le_u64_roundtrip, push_le_u64, read_le_u64, PillarSerialize};
use crate::difficulty::{block_reward, get_reward_from_depth_and_stampers, is_isqrt, lemma_isqrt_unique};
use crate::transaction::{Transaction, TransactionMeta};

verus! {

/// Under proof of reputation the miner takes the reward divided by this,
/// rounded up.
pub const POR_MINER_SHARE_DIVISOR: u64 = 2;

/// The balance and nonce of an address.
#[derive(Debug, Clone, Copy, PartialEq, Eq)]
pub struct Holding {
    /// The address of the account.
    pub address: StdByteArray,
    /// Its balance.
    pub balance: u64,
    /// Its nonce.
    pub nonce: u64,
}

/// A holding encodes as its address, then the little-endian bytes of its
/// balance and of its nonce; exactly 48 bytes decode.
impl PillarSerialize for Holding {
    open spec fn pillar_bytes(&self) -> Seq<u8> {
        self.address@ + le_bytes_u64(self.balance) + le_bytes_u64(self.nonce)
    }

    open spec fn from_pillar_bytes(data: Seq<u8>) -> Option<Self> {
        if data.len() == 48 {
            Some(
                Holding {
                    address: choose|a: [u8; 32]| a@ == data.subrange(0, 32),
                    balance: le_value_u64(data.subrange(32, 40)),
                    nonce: le_value_u64(data.subrange(40, 48)),
                },
            )
        } else {
            None
        }
    }

    proof fn lemma_pillar_roundtrip(v: Self) {
        broadcast use vstd::array::axiom_array_ext_equal;
        let b = v.pillar_bytes();
        assert(b.subrange(0, 32) =~= v.address@);
        assert(b.subrange(32, 40) =~= le_bytes_u64(v.balance));
        assert(b.subrange(40, 48) =~= le_bytes_u64(v.nonce));
        lemma_le_u64_roundtrip(v.balance);
        lemma_le_u64_roundtrip(v.nonce);
        let a = choose|a: [u8; 32]| a@ == b.subrange(0, 32);
        assert(a@ == v.address@);
        assert(a =~= v.address);
    }

    fn serialize_pillar(&self) -> (r: Vec<u8>) {
        let mut out: Vec<u8> = Vec::new();
        extend_bytes(&mut out, self.address.as_slice());
        push_le_u64(&mut out, self.balance);
        push_le_u64(&mut out, self.nonce);
        assert(out@ =~= self.address@ + le_bytes_u64(self.balance) + le_bytes_u64(self.nonce));
        out
    }

    fn deserialize_pillar(data: &[u8]) -> (r: Option<Self>) {
        broadcast use vstd::array::axiom_array_ext_equal;
        if data.len() != 48 {
            return None;
        }
        let mut a: [u8; 32] = [0u8; 32];
        let mut i: usize = 0;
        while i < 32
            invariant
                0 <= i <= 32,
                data@.len() == 48,
                forall|j: int| 0 <= j < i ==> a@[j] == data@[j],
            decreases 32 - i,
        {
            a[i] = data[i];
            i = i + 1;
        }
        let balance = read_le_u64(data, 32);
        let nonce = read_le_u64(data, 40);
        proof {
            assert(a@ =~= data@.subrange(0, 32));
            let w = choose|w: [u8; 32]| w@ == data@.subrange(0, 32);
            assert(w@ == a@);
            assert(w =~= a);
        }
        Some(Holding { address: a, balance, nonce })
    }
}

/// `j` is the first holding for `a`.
pub open spec fn is_first_holding(hs: Seq<Holding>, a: Seq<u8>, j: int) -> bool {
    &&& 0 <= j < hs.len()
    &&& hs[j].address@ == a
    &&& forall|k: int| 0 <= k < j ==> (#[trigger] hs[k]).address@ != a
}

/// The balance and nonce that the previous state holds for `a`: the first
/// holding for it, or zero for both.
pub open spec fn prior_holding(prior: Seq<Holding>, a: Seq<u8>) -> (int, int) {
    if exists|j: int| is_first_holding(prior, a, j) {
        let j = choose|j: int| is_first_holding(prior, a, j);
        (prior[j].balance as int, prior[j].nonce as int)
    } else {
        (0, 0)
    }
}

/// The balance and nonce of `a` once the changes `m` are made.
pub open spec fn current(m: Map<Seq<u8>, (int, int)>, prior: Seq<Holding>, a: Seq<u8>) -> (int, int) {
    if m.contains_key(a) {
        m[a]
    } else {
        prior_holding(prior, a)
    }
}

/// The changes after one more transaction: the sender is debited and its
/// nonce advances, then the receiver is credited.
pub open spec fn transfer(m: Map<Seq<u8>, (int, int)>, prior: Seq<Holding>, t: TransactionMeta) -> Map<Seq<u8>, (int, int)> {
    let s = current(m, prior, t.sender@);
    let m1 = m.insert(t.sender@, (s.0 - t.amount, s.1 + 1));
    let r = current(m1, prior, t.receiver@);
    m1.insert(t.receiver@, (r.0 + t.amount, r.1))
}

/// The sender can pay, and no balance or nonce leaves the range of a `u64`.
pub open spec fn transfer_fits(m: Map<Seq<u8>, (int, int)>, prior: Seq<Holding>, t: TransactionMeta) -> bool {
    let s = current(m, prior, t.sender@);
    let m1 = m.insert(t.sender@, (s.0 - t.amount, s.1 + 1));
    let r = current(m1, prior, t.receiver@);
    &&& t.amount <= s.0
    &&& s.1 + 1 <= u64::MAX
    &&& r.0 + t.amount <= u64::MAX
}

/// The changes after the transactions, taken in order.
pub open spec fn after_transfers(prior: Seq<Holding>, txs: Seq<TransactionMeta>) -> Map<Seq<u8>, (int, int)>
    decreases txs.len(),
{
    if txs.len() == 0 {
        Map::empty()
    } else {
        transfer(after_transfers(prior, txs.drop_last()), prior, txs.last())
    }
}

/// Every transaction, in turn, fits.
pub open spec fn transfers_fit(prior: Seq<Holding>, txs: Seq<TransactionMeta>) -> bool
    decreases txs.len(),
{
    if txs.len() == 0 {
        true
    } else {
        transfers_fit(prior, txs.drop_last()) && transfer_fits(after_transfers(prior, txs.drop_last()), prior, txs.last())
    }
}

/// The changes after crediting `c.1` to the address `c.0`.
pub open spec fn credit(m: Map<Seq<u8>, (int, int)>, prior: Seq<Holding>, c: (Seq<u8>, int)) -> Map<Seq<u8>, (int, int)> {
    let h = current(m, prior, c.0);
    m.insert(c.0, (h.0 + c.1, h.1))
}

/// The changes after the credits, taken in order.
pub open spec fn after_credits(m: Map<Seq<u8>, (int, int)>, prior: Seq<Holding>, cs: Seq<(Seq<u8>, int)>) -> Map<Seq<u8>, (int, int)>
    decreases cs.len(),
{
    if cs.len() == 0 {
        m
    } else {
        credit(after_credits(m, prior, cs.drop_last()), prior, cs.last())
    }
}

/// No credit, in turn, takes a balance past the range of a `u64`.
pub open spec fn credits_fit(m: Map<Seq<u8>, (int, int)>, prior: Seq<Holding>, cs: Seq<(Seq<u8>, int)>) -> bool
    decreases cs.len(),
{
    if cs.len() == 0 {
        true
    } else {
        credits_fit(m, prior, cs.drop_last()) && current(after_credits(m, prior, cs.drop_last()), prior, cs.last().0).0
            + cs.last().1 <= u64::MAX
    }
}

/// The miner's share of the reward.
pub open spec fn miner_share(reward: int, por: bool) -> int {
    if por {
        (reward + POR_MINER_SHARE_DIVISOR - 1) / (POR_MINER_SHARE_DIVISOR as int)
    } else {
        reward
    }
}

/// What each of `k` admitted stampers gets under proof of reputation.
pub open spec fn stamper_share(reward: int, k: int) -> int {
    if k == 0 {
        0
    } else {
        (reward - miner_share(reward, true)) / k
    }
}

/// The credits after the transactions: the miner's share; under proof of
/// reputation, the share of each admitted stamper; and nothing, which still
/// opens an account, to each stamper of the block.
pub open spec fn block_credits(
    miner: Seq<u8>,
    por: bool,
    reward: int,
    admitted: Seq<Seq<u8>>,
    stampers: Seq<Seq<u8>>,
) -> Seq<(Seq<u8>, int)> {
    seq![(miner, miner_share(reward, por))] + (if por {
        Seq::new(admitted.len(), |i: int| (admitted[i], stamper_share(reward, admitted.len() as int)))
    } else {
        Seq::empty()
    }) + Seq::new(stampers.len(), |i: int| (stampers[i], 0int))
}

/// The reward for a block at `depth` with `n` stamps.
pub open spec fn block_reward_at(depth: u64, n: usize) -> int {
    block_reward(depth, n, choose|s: int| is_isqrt(depth as int, s))
}

/// The transfers of a block, in order.
pub open spec fn block_transfers(block: Block) -> Seq<TransactionMeta> {
    block.transactions@.map_values(|t: Transaction| t.header.meta)
}

/// The credits that follow the transfers of `block`.
pub open spec fn settlement_credits(block: Block, miner: StdByteArray, por: bool, admitted: Seq<StdByteArray>) -> Seq<
    (Seq<u8>, int),
> {
    block_credits(
        miner@,
        por,
        block_reward_at(block.header.depth, count_signed(block.header.tail.stamps@) as usize),
        admitted.map_values(|a: StdByteArray| a@),
        stamper_addresses(block.header.tail.stamps@),
    )
}

/// Every transfer and every credit of the block fits.
pub open spec fn block_settles(prior: Seq<Holding>, block: Block, miner: StdByteArray, por: bool, admitted: Seq<StdByteArray>) -> bool {
    &&& transfers_fit(prior, block_transfers(block))
    &&& credits_fit(after_transfers(prior, block_transfers(block)), prior, settlement_credits(block, miner, por, admitted))
}

/// The balances and nonces that the block changes.
pub open spec fn settled(prior: Seq<Holding>, block: Block, miner: StdByteArray, por: bool, admitted: Seq<StdByteArray>) -> Map<
    Seq<u8>,
    (int, int),
> {
    after_credits(after_transfers(prior, block_transfers(block)), prior, settlement_credits(block, miner, por, admitted))
}

/// A transaction moves its amount from the sender to the receiver and
/// advances the sender's nonce; a transaction to oneself only advances the
/// nonce; every other address keeps its balance and nonce.
pub proof fn lemma_transfer_moves_amount(
    m: Map<Seq<u8>, (int, int)>,
    prior: Seq<Holding>,
    t: TransactionMeta,
    a: Seq<u8>,
)
    ensures
        t.sender@ != t.receiver@ ==> current(transfer(m, prior, t), prior, t.sender@) == (
            current(m, prior, t.sender@).0 - t.amount,
            current(m, prior, t.sender@).1 + 1,
        ),
        t.sender@ != t.receiver@ ==> current(transfer(m, prior, t), prior, t.receiver@) == (
            current(m, prior, t.receiver@).0 + t.amount,
            current(m, prior, t.receiver@).1,
        ),
        t.sender@ == t.receiver@ ==> current(transfer(m, prior, t), prior, t.sender@) == (
            current(m, prior, t.sender@).0,
            current(m, prior, t.sender@).1 + 1,
        ),
        a != t.sender@ && a != t.receiver@ ==> current(transfer(m, prior, t), prior, a) == current(m, prior, a),
{
}

/// The total that the credits give to `a`.
pub open spec fn credited_to(cs: Seq<(Seq<u8>, int)>, a: Seq<u8>) -> int
    decreases cs.len(),
{
    if cs.len() == 0 {
        0
    } else {
        credited_to(cs.drop_last(), a) + if cs.last().0 == a {
            cs.last().1
        } else {
            0
        }
    }
}

/// Credits only add: after them, every address has its balance before plus
/// what the credits give it, and its nonce unchanged.
pub proof fn lemma_credits_add(m: Map<Seq<u8>, (int, int)>, prior: Seq<Holding>, cs: Seq<(Seq<u8>, int)>, a: Seq<u8>)
    ensures
        current(after_credits(m, prior, cs), prior, a) == (
            current(m, prior, a).0 + credited_to(cs, a),
            current(m, prior, a).1,
        ),
    decreases cs.len(),
{
    if cs.len() > 0 {
        lemma_credits_add(m, prior, cs.drop_last(), a);
    }
}

/// The reward is shared out without creating tokens: without proof of
/// reputation the miner takes all of it; with it the miner takes at least
/// half (half rounded up), and the miner's share and the equal shares of
/// the admitted stampers together never exceed the reward.
pub proof fn lemma_reward_split(reward: int, k: int)
    requires
        reward >= 0,
        k >= 0,
    ensures
        miner_share(reward, false) == reward,
        2 * miner_share(reward, true) >= reward,
        miner_share(reward, true) <= reward,
        miner_share(reward, true) - 1 <= reward - miner_share(reward, true),
        stamper_share(reward, k) >= 0,
        miner_share(reward, true) + k * stamper_share(reward, k) <= reward,
{
    let sh = miner_share(reward, true);
    assert(sh == (reward + 1) / 2);
    if k > 0 {
        let rest = reward - sh;
        assert(rest >= 0);
        assert(k * (rest / k) <= rest) by (nonlinear_arith)
            requires
                k > 0,
                rest >= 0,
        ;
        assert(rest / k >= 0) by (nonlinear_arith)
            requires
                k > 0,
                rest >= 0,
        ;
    }
}

proof fn lemma_credits_keep_keys(m: Map<Seq<u8>, (int, int)>, prior: Seq<Holding>, cs: Seq<(Seq<u8>, int)>, a: Seq<u8>)
    ensures
        (m.contains_key(a) || exists|i: int| 0 <= i < cs.len() && (#[trigger] cs[i]).0 == a) ==> after_credits(
            m,
            prior,
            cs,
        ).contains_key(a),
    decreases cs.len(),
{
    if cs.len() > 0 {
        lemma_credits_keep_keys(m, prior, cs.drop_last(), a);
        if exists|i: int| 0 <= i < cs.len() && (#[trigger] cs[i]).0 == a {
            let i = choose|i: int| 0 <= i < cs.len() && (#[trigger] cs[i]).0 == a;
            if i < cs.len() - 1 {
                assert(cs.drop_last()[i] == cs[i]);
            }
        }
    }
}

proof fn lemma_transfers_keys(prior: Seq<Holding>, txs: Seq<TransactionMeta>, i: int)
    requires
        0 <= i < txs.len(),
    ensures
        after_transfers(prior, txs).contains_key(txs[i].sender@),
        after_transfers(prior, txs).contains_key(txs[i].receiver@),
    decreases txs.len(),
{
    if i < txs.len() - 1 {
        lemma_transfers_keys(prior, txs.drop_last(), i);
        assert(txs.drop_last()[i] == txs[i]);
    }
}

/// A block changes the holding of every sender and receiver of its
/// transactions, of its miner, of every stamper of the block and, under
/// proof of reputation, of every admitted stamper.
pub proof fn lemma_settled_addresses(
    prior: Seq<Holding>,
    block: Block,
    miner: StdByteArray,
    por: bool,
    admitted: Seq<StdByteArray>,
)
    ensures
        settled(prior, block, miner, por, admitted).contains_key(miner@),
        forall|i: int|
            0 <= i < block.transactions@.len() ==> settled(prior, block, miner, por, admitted).contains_key(
                (#[trigger] block.transactions@[i]).header.meta.sender@,
            ) && settled(prior, block, miner, por, admitted).contains_key(block.transactions@[i].header.meta.receiver@),
        forall|q: int|
            0 <= q < stamper_addresses(block.header.tail.stamps@).len() ==> settled(
                prior,
                block,
                miner,
                por,
                admitted,
            ).contains_key(#[trigger] stamper_addresses(block.header.tail.stamps@)[q]),
        por ==> forall|q: int|
            0 <= q < admitted.len() ==> settled(prior, block, miner, por, admitted).contains_key(
                (#[trigger] admitted[q])@,
            ),
{
    let txs = block_transfers(block);
    let mt = after_transfers(prior, txs);
    let cs = settlement_credits(block, miner, por, admitted);
    let sv = stamper_addresses(block.header.tail.stamps@);
    let av = admitted.map_values(|a: StdByteArray| a@);
    let k: int = if por { admitted.len() as int } else { 0 };
    assert(cs[0].0 == miner@);
    lemma_credits_keep_keys(mt, prior, cs, miner@);
    assert forall|i: int| 0 <= i < block.transactions@.len() implies settled(prior, block, miner, por, admitted).contains_key(
        (#[trigger] block.transactions@[i]).header.meta.sender@,
    ) && settled(prior, block, miner, por, admitted).contains_key(block.transactions@[i].header.meta.receiver@) by {
        assert(txs[i] == block.transactions@[i].header.meta);
        lemma_transfers_keys(prior, txs, i);
        lemma_credits_keep_keys(mt, prior, cs, txs[i].sender@);
        lemma_credits_keep_keys(mt, prior, cs, txs[i].receiver@);
    }
    assert forall|q: int| 0 <= q < sv.len() implies settled(prior, block, miner, por, admitted).contains_key(#[trigger] sv[q]) by {
        assert(cs[1 + k + q].0 == sv[q]);
        lemma_credits_keep_keys(mt, prior, cs, sv[q]);
    }
    if por {
        assert forall|q: int| 0 <= q < admitted.len() implies settled(prior, block, miner, por, admitted).contains_key(
            (#[trigger] admitted[q])@,
        ) by {
            assert(cs[1 + q].0 == av[q]);
            lemma_credits_keep_keys(mt, prior, cs, admitted[q]@);
        }
    }
}

/// `hs` holds exactly the changes `m`, one holding per address.
pub open spec fn represents(hs: Seq<Holding>, m: Map<Seq<u8>, (int, int)>) -> bool {
    &&& forall|i: int, j: int| 0 <= i < j < hs.len() ==> (#[trigger] hs[i]).address@ != (#[trigger] hs[j]).address@
    &&& forall|j: int|
        0 <= j < hs.len() ==> m.contains_key((#[trigger] hs[j]).address@) && m[hs[j].address@] == (
            hs[j].balance as int,
            hs[j].nonce as int,
        )
    &&& forall|a: Seq<u8>| #[trigger] m.contains_key(a) ==> exists|j: int| 0 <= j < hs.len() && (#[trigger] hs[j]).address@ == a
}

/// The index of the first holding for `a`, if any.
fn first_holding(hs: &Vec<Holding>, a: &StdByteArray) -> (r: Option<usize>)
    ensures
        r matches Some(j) ==> is_first_holding(hs@, a@, j as int),
        r is None ==> forall|k: int| 0 <= k < hs@.len() ==> (#[trigger] hs@[k]).address@ != a@,
{
    let mut i: usize = 0;
    while i < hs.len()
        invariant
            0 <= i <= hs.len(),
            forall|k: int| 0 <= k < i ==> (#[trigger] hs@[k]).address@ != a@,
        decreases hs.len() - i,
    {
        if eq32(&hs[i].address, a) {
            return Some(i);
        }
        i = i + 1;
    }
    None
}

proof fn lemma_first_holding(hs: Seq<Holding>, a: Seq<u8>, j: int)
    requires
        is_first_holding(hs, a, j),
    ensures
        prior_holding(hs, a) == (hs[j].balance as int, hs[j].nonce as int),
{
    let c = choose|c: int| is_first_holding(hs, a, c);
    assert(is_first_holding(hs, a, c));
    if c < j {
        assert(hs[c].address@ != a);
    } else if c > j {
        assert(hs[j].address@ != a);
    }
}

/// The balance and nonce of `a` once the changes held in `touched` are made.
fn holding_now(touched: &Vec<Holding>, prior: &Vec<Holding>, a: &StdByteArray, Ghost(m): Ghost<Map<Seq<u8>, (int, int)>>) -> (r: (
    u64,
    u64,
))
    requires
        represents(touched@, m),
    ensures
        r.0 as int == current(m, prior@, a@).0,
        r.1 as int == current(m, prior@, a@).1,
{
    match first_holding(touched, a) {
        Some(j) => {
            assert(touched@[j as int].address@ == a@);
            (touched[j].balance, touched[j].nonce)
        },
        None => {
            proof {
                if m.contains_key(a@) {
                    let j = choose|j: int| 0 <= j < touched@.len() && (#[trigger] touched@[j]).address@ == a@;
                    assert(touched@[j].address@ != a@);
                }
            }
            match first_holding(prior, a) {
                Some(j) => {
                    proof {
                        lemma_first_holding(prior@, a@, j as int);
                    }
                    (prior[j].balance, prior[j].nonce)
                },
                None => {
                    proof {
                        if exists|j: int| is_first_holding(prior@, a@, j) {
                            let j = choose|j: int| is_first_holding(prior@, a@, j);
                            assert(prior@[j].address@ != a@);
                        }
                    }
                    (0, 0)
                },
            }
        },
    }
}

/// Records `h` as the new balance and nonce of its address.
fn put_holding(touched: &mut Vec<Holding>, h: Holding, Ghost(m): Ghost<Map<Seq<u8>, (int, int)>>)
    requires
        represents(old(touched)@, m),
    ensures
        represents(final(touched)@, m.insert(h.address@, (h.balance as int, h.nonce as int))),
{
    let ghost m2 = m.insert(h.address@, (h.balance as int, h.nonce as int));
    let ghost before = touched@;
    match first_holding(touched, &h.address) {
        Some(j) => {
            touched.set(j, h);
            proof {
                let t = touched@;
                assert(t == before.update(j as int, h));
                assert forall|x: int, y: int| 0 <= x < y < t.len() implies (#[trigger] t[x]).address@ != (#[trigger] t[y]).address@ by {
                    if x != j as int && y != j as int {
                        assert(before[x].address@ != before[y].address@);
                    } else if x == j as int {
                        assert(before[x].address@ != before[y].address@);
                    } else {
                        assert(before[x].address@ != before[y].address@);
                    }
                }
                assert forall|k: int| 0 <= k < t.len() implies m2.contains_key((#[trigger] t[k]).address@) && m2[t[k].address@]
                    == (t[k].balance as int, t[k].nonce as int) by {
                    if k != j as int {
                        assert(before[k].address@ != before[j as int].address@ || k == j as int);
                    }
                }
                assert forall|a: Seq<u8>| #[trigger] m2.contains_key(a) implies exists|k: int| 0 <= k < t.len() && (#[trigger] t[k]).address@ == a by {
                    if a == h.address@ {
                        assert(t[j as int].address@ == a);
                    } else {
                        let k = choose|k: int| 0 <= k < before.len() && (#[trigger] before[k]).address@ == a;
                        assert(t[k].address@ == a);
                    }
                }
            }
        },
        None => {
            touched.push(h);
            proof {
                let t = touched@;
                assert(t == before.push(h));
                let n = before.len() as int;
                assert forall|x: int, y: int| 0 <= x < y < t.len() implies (#[trigger] t[x]).address@ != (#[trigger] t[y]).address@ by {
                    if y == n {
                        assert(t[x] == before[x]);
                    } else {
                        assert(before[x].address@ != before[y].address@);
                    }
                }
                assert forall|k: int| 0 <= k < t.len() implies m2.contains_key((#[trigger] t[k]).address@) && m2[t[k].address@]
                    == (t[k].balance as int, t[k].nonce as int) by {
                    if k < n {
                        assert(t[k] == before[k]);
                        assert(before[k].address@ != h.address@);
                    }
                }
                assert forall|a: Seq<u8>| #[trigger] m2.contains_key(a) implies exists|k: int| 0 <= k < t.len() && (#[trigger] t[k]).address@ == a by {
                    if a == h.address@ {
                        assert(t[n].address@ == a);
                    } else {
                        let k = choose|k: int| 0 <= k < before.len() && (#[trigger] before[k]).address@ == a;
                        assert(t[k] == before[k]);
                    }
                }
            }
        },
    }
}

/// A prefix of transfers that fit fits too.
proof fn lemma_transfers_prefix(prior: Seq<Holding>, txs: Seq<TransactionMeta>, i: int)
    requires
        transfers_fit(prior, txs),
        0 <= i <= txs.len(),
    ensures
        transfers_fit(prior, txs.take(i)),
    decreases txs.len(),
{
    if i == txs.len() {
        assert(txs.take(i) =~= txs);
    } else {
        lemma_transfers_prefix(prior, txs.drop_last(), i);
        assert(txs.drop_last().take(i) =~= txs.take(i));
    }
}

/// A prefix of credits that fit fits too.
proof fn lemma_credits_prefix(m: Map<Seq<u8>, (int, int)>, prior: Seq<Holding>, cs: Seq<(Seq<u8>, int)>, i: int)
    requires
        credits_fit(m, prior, cs),
        0 <= i <= cs.len(),
    ensures
        credits_fit(m, prior, cs.take(i)),
    decreases cs.len(),
{
    if i == cs.len() {
        assert(cs.take(i) =~= cs);
    } else {
        lemma_credits_prefix(m, prior, cs.drop_last(), i);
        assert(cs.drop_last().take(i) =~= cs.take(i));
    }
}

/// Credits `amount` to `a`; `false`, and nothing changed, where the balance
/// would pass the range of a `u64`.
fn credit_holding(
    touched: &mut Vec<Holding>,
    prior: &Vec<Holding>,
    a: &StdByteArray,
    amount: u64,
    Ghost(m): Ghost<Map<Seq<u8>, (int, int)>>,
) -> (r: bool)
    requires
        represents(old(touched)@, m),
    ensures
        r == (current(m, prior@, a@).0 + amount <= u64::MAX),
        r ==> represents(final(touched)@, credit(m, prior@, (a@, amount as int))),
{
    let (b, n) = holding_now(touched, prior, a, Ghost(m));
    if b > u64::MAX - amount {
        return false;
    }
    put_holding(touched, Holding { address: *a, balance: b + amount, nonce: n }, Ghost(m));
    true
}

/// The balances and nonces that `block` changes, where every transfer and
/// credit fits; `None` where one does not. The miner is `miner_address`;
/// `por_enabled` says whether proof of reputation applies, and `admitted` are
/// the stampers that reputation admits to a share; `prior` holds what the
/// previous state holds for the addresses of the block.
pub fn settle_block(
    block: &Block,
    miner_address: StdByteArray,
    por_enabled: bool,
    admitted: &Vec<StdByteArray>,
    prior: &Vec<Holding>,
) -> (r: Option<Vec<Holding>>)
    requires
        block.header.depth != 0,
    ensures
        r is Some <==> block_settles(prior@, *block, miner_address, por_enabled, admitted@),
        r matches Some(v) ==> represents(v@, settled(prior@, *block, miner_address, por_enabled, admitted@)),
{
    let ghost txs = block_transfers(*block);
    let mut touched: Vec<Holding> = Vec::new();
    let mut i: usize = 0;
    proof {
        assert(txs.take(0) =~= Seq::<TransactionMeta>::empty());
    }
    while i < block.transactions.len()
        invariant
            0 <= i <= block.transactions.len(),
            txs == block_transfers(*block),
            txs.len() == block.transactions.len(),
            represents(touched@, after_transfers(prior@, txs.take(i as int))),
            transfers_fit(prior@, txs.take(i as int)),
        decreases block.transactions.len() - i,
    {
        let t: TransactionMeta = block.transactions[i].header.meta;
        let ghost m0 = after_transfers(prior@, txs.take(i as int));
        proof {
            assert(txs.take(i + 1).drop_last() =~= txs.take(i as int));
            assert(txs.take(i + 1).last() == t);
        }
        let (sb, sn) = holding_now(&touched, prior, &t.sender, Ghost(m0));
        if sb < t.amount || sn == u64::MAX {
            proof {
                if transfers_fit(prior@, txs) {
                    lemma_transfers_prefix(prior@, txs, i + 1);
                }
            }
            return None;
        }
        let ghost m1 = m0.insert(t.sender@, (sb - t.amount, sn + 1));
        put_holding(&mut touched, Holding { address: t.sender, balance: sb - t.amount, nonce: sn + 1 }, Ghost(m0));
        let (rb, rn) = holding_now(&touched, prior, &t.receiver, Ghost(m1));
        if rb > u64::MAX - t.amount {
            proof {
                if transfers_fit(prior@, txs) {
                    lemma_transfers_prefix(prior@, txs, i + 1);
                }
            }
            return None;
        }
        put_holding(&mut touched, Holding { address: t.receiver, balance: rb + t.amount, nonce: rn }, Ghost(m1));
        i = i + 1;
    }
    proof {
        assert(txs.take(txs.len() as int) =~= txs);
    }
    let ghost mt = after_transfers(prior@, txs);
    let ghost cs = settlement_credits(*block, miner_address, por_enabled, admitted@);

    let n_stamps = block.header.tail.n_stamps();
    proof {
        lemma_count_signed_le_len(block.header.tail.stamps@);
    }
    let reward = get_reward_from_depth_and_stampers(block.header.depth, n_stamps);
    proof {
        let s = choose|s: int| is_isqrt(block.header.depth as int, s) && reward == block_reward(block.header.depth, n_stamps, s);
        let s0 = choose|s: int| is_isqrt(block.header.depth as int, s);
        lemma_isqrt_unique(block.header.depth as int, s, s0);
        assert(reward == block_reward_at(block.header.depth, n_stamps));
    }
    let share: u64 = if por_enabled {
        if reward % POR_MINER_SHARE_DIVISOR == 0 {
            reward / POR_MINER_SHARE_DIVISOR
        } else {
            reward / POR_MINER_SHARE_DIVISOR + 1
        }
    } else {
        reward
    };
    assert(share == miner_share(reward as int, por_enabled));
    let ghost admitted_views = admitted@.map_values(|a: StdByteArray| a@);
    let stampers = block.header.tail.get_stampers();
    let ghost stamper_views = stamper_addresses(block.header.tail.stamps@);
    proof {
        assert(stamper_views =~= Seq::new(stampers@.len(), |i: int| stampers@[i]@));
    }
    let ghost k_admitted: int = if por_enabled { admitted@.len() as int } else { 0 };
    proof {
        assert(cs == block_credits(miner_address@, por_enabled, reward as int, admitted_views, stamper_views));
        assert(cs.len() == 1 + k_admitted + stampers@.len());
        assert(cs[0] == (miner_address@, share as int));
        assert(cs.take(0) =~= Seq::<(Seq<u8>, int)>::empty());
        assert(cs.take(1).drop_last() =~= cs.take(0));
    }
    if !credit_holding(&mut touched, prior, &miner_address, share, Ghost(mt)) {
        proof {
            if credits_fit(mt, prior@, cs) {
                lemma_credits_prefix(mt, prior@, cs, 1);
            }
        }
        return None;
    }
    proof {
        assert(cs.take(1).last() == cs[0]);
        assert(cs.take(1).drop_last() =~= cs.take(0));
        assert(cs.take(0).len() == 0);
        assert(after_credits(mt, prior@, cs.take(0)) == mt);
        assert(credits_fit(mt, prior@, cs.take(0)));
        assert(after_credits(mt, prior@, cs.take(1)) == credit(mt, prior@, cs[0]));
        assert(credits_fit(mt, prior@, cs.take(1)));
    }
    let ghost mut c: int = 1;
    if por_enabled {
        let k = admitted.len();
        let each: u64 = if k == 0 {
            0
        } else {
            (reward - share) / (k as u64)
        };
        assert(each == stamper_share(reward as int, k as int));
        proof {
            assert forall|q: int| 0 <= q < k implies #[trigger] cs[1 + q] == (admitted@[q]@, each as int) by {
                assert(cs[1 + q] == (seq![(miner_address@, share as int)] + Seq::new(
                    admitted_views.len(),
                    |i: int| (admitted_views[i], stamper_share(reward as int, admitted_views.len() as int)),
                ))[1 + q]);
            }
        }
        let mut j: usize = 0;
        while j < k
            invariant
                0 <= j <= k,
                k == admitted@.len(),
                k_admitted == k,
                c == 1 + j,
                txs == block_transfers(*block),
                transfers_fit(prior@, txs),
                mt == after_transfers(prior@, txs),
                cs == settlement_credits(*block, miner_address, por_enabled, admitted@),
                cs.len() == 1 + k_admitted + stampers@.len(),
                forall|q: int| 0 <= q < k ==> #[trigger] cs[1 + q] == (admitted@[q]@, each as int),
                represents(touched@, after_credits(mt, prior@, cs.take(c))),
                credits_fit(mt, prior@, cs.take(c)),
            decreases k - j,
        {
            let ghost mc = after_credits(mt, prior@, cs.take(c));
            proof {
                assert(cs.take(c + 1).drop_last() =~= cs.take(c));
                assert(cs.take(c + 1).last() == cs[1 + j as int]);
            }
            if !credit_holding(&mut touched, prior, &admitted[j], each, Ghost(mc)) {
                proof {
                    if credits_fit(mt, prior@, cs) {
                        lemma_credits_prefix(mt, prior@, cs, c + 1);
                    }
                }
                return None;
            }
            j = j + 1;
            proof {
                c = c + 1;
            }
        }
    }
    proof {
        assert forall|q: int| 0 <= q < stampers@.len() implies #[trigger] cs[1 + k_admitted + q] == (stampers@[q]@, 0int) by {
            let head = seq![(miner_address@, share as int)] + (if por_enabled {
                Seq::new(admitted_views.len(), |i: int| (admitted_views[i], stamper_share(reward as int, admitted_views.len() as int)))
            } else {
                Seq::empty()
            });
            assert(head.len() == 1 + k_admitted);
            assert(cs == head + Seq::new(stamper_views.len(), |i: int| (stamper_views[i], 0int)));
            assert(cs[1 + k_admitted + q] == Seq::new(stamper_views.len(), |i: int| (stamper_views[i], 0int))[q]);
            assert(stamper_views[q] == stampers@[q]@);
        }
    }
    let mut j: usize = 0;
    while j < stampers.len()
        invariant
            0 <= j <= stampers@.len(),
            0 <= k_admitted,
            c == 1 + k_admitted + j,
            txs == block_transfers(*block),
            transfers_fit(prior@, txs),
            mt == after_transfers(prior@, txs),
            cs == settlement_credits(*block, miner_address, por_enabled, admitted@),
            cs.len() == 1 + k_admitted + stampers@.len(),
            forall|q: int| 0 <= q < stampers@.len() ==> #[trigger] cs[1 + k_admitted + q] == (stampers@[q]@, 0int),
            represents(touched@, after_credits(mt, prior@, cs.take(c))),
            credits_fit(mt, prior@, cs.take(c)),
        decreases stampers@.len() - j,
    {
        let ghost mc = after_credits(mt, prior@, cs.take(c));
        proof {
            assert(cs.take(c + 1).drop_last() =~= cs.take(c));
            assert(cs.take(c + 1).last() == cs[1 + k_admitted + j]);
        }
        if !credit_holding(&mut touched, prior, &stampers[j], 0, Ghost(mc)) {
            proof {
                if credits_fit(mt, prior@, cs) {
                    lemma_credits_prefix(mt, prior@, cs, c + 1);
                }
            }
            return None;
        }
        j = j + 1;
        proof {
            c = c + 1;
        }
    }
    proof {
        assert(cs.take(c) =~= cs);
    }
    Some(touched)
}

} // verus!
