//! The ledger state: balances and nonces in the state trie, one root per
//! block, and the root that applying a block branches off its parent's.

use vstd::prelude::*;

use crate::block::{stamper_addresses, Block, BlockHeader};
use crate::bytes::StdByteArray;
use crate::merkle_trie::{key_path, last_value_for, MerkleTrie};
use crate::settle::{
    after_credits, after_transfers, block_settles, block_transfers, is_first_holding, prior_holding, represents,
    settle_block, settled, settlement_credits, Holding,
};
use crate::transaction::TransactionMeta;

verus! {

/// Why a block could not be applied.
#[derive(Debug, Clone, Copy, PartialEq, Eq)]
pub enum ApplyError {
    /// The state trie has no root with the hash of the parent's state.
    UnknownRoot,
    /// A sender cannot pay, or a balance or nonce would leave the range of a
    /// `u64`.
    DoesNotSettle,
}

/// The senders and receivers of the transfers, in order.
pub open spec fn transfer_addresses(txs: Seq<TransactionMeta>) -> Seq<StdByteArray>
    decreases txs.len(),
{
    if txs.len() == 0 {
        Seq::empty()
    } else {
        transfer_addresses(txs.drop_last()).push(txs.last().sender).push(txs.last().receiver)
    }
}

/// The arrays with the given bytes.
pub open spec fn as_arrays(s: Seq<Seq<u8>>) -> Seq<StdByteArray> {
    s.map_values(|a: Seq<u8>| choose|k: StdByteArray| k@ == a)
}

/// The addresses whose balances a block reads: the senders and receivers,
/// the miner, under proof of reputation the admitted stampers, and the
/// stampers.
pub open spec fn touched_addresses(block: Block, miner: StdByteArray, por: bool, admitted: Seq<StdByteArray>) -> Seq<
    StdByteArray,
> {
    transfer_addresses(block_transfers(block)) + seq![miner] + (if por {
        admitted
    } else {
        Seq::empty()
    }) + as_arrays(stamper_addresses(block.header.tail.stamps@))
}

/// The holdings that the state of `root` has for the addresses, in order,
/// each under its address; an address that it does not hold has none.
pub open spec fn prior_from_trie(trie: MerkleTrie<StdByteArray, Holding>, root: Seq<u8>, addrs: Seq<StdByteArray>) -> Seq<
    Holding,
>
    decreases addrs.len(),
{
    if addrs.len() == 0 {
        Seq::empty()
    } else {
        let rest = prior_from_trie(trie, root, addrs.drop_last());
        let a = addrs.last();
        match trie.value_at(root, a) {
            Some(v) => rest.push(Holding { address: a, balance: v.balance, nonce: v.nonce }),
            None => rest,
        }
    }
}

/// The holdings before `block`, read from the state of `root`.
pub open spec fn block_prior(
    trie: MerkleTrie<StdByteArray, Holding>,
    root: Seq<u8>,
    block: Block,
    miner: StdByteArray,
    por: bool,
    admitted: Seq<StdByteArray>,
) -> Seq<Holding> {
    prior_from_trie(trie, root, touched_addresses(block, miner, por, admitted))
}

/// The holding that the state after the block has for `a`: the settled one
/// where the block changes `a`, else the one before.
pub open spec fn holding_after(
    m: Map<Seq<u8>, (int, int)>,
    trie: MerkleTrie<StdByteArray, Holding>,
    root: Seq<u8>,
    a: StdByteArray,
) -> Option<Holding> {
    if m.contains_key(a@) {
        Some(Holding { address: a, balance: m[a@].0 as u64, nonce: m[a@].1 as u64 })
    } else {
        trie.value_at(root, a)
    }
}

proof fn lemma_prior_entries(trie: MerkleTrie<StdByteArray, Holding>, root: Seq<u8>, addrs: Seq<StdByteArray>)
    ensures
        forall|j: int|
            0 <= j < prior_from_trie(trie, root, addrs).len() ==> (trie.value_at(
                root,
                (#[trigger] prior_from_trie(trie, root, addrs)[j]).address,
            ) matches Some(v) && v.balance == prior_from_trie(trie, root, addrs)[j].balance && v.nonce
                == prior_from_trie(trie, root, addrs)[j].nonce),
        forall|a: StdByteArray|
            #[trigger] addrs.contains(a) && trie.value_at(root, a) is Some ==> exists|j: int|
                0 <= j < prior_from_trie(trie, root, addrs).len() && (#[trigger] prior_from_trie(trie, root, addrs)[j]).address
                    == a,
    decreases addrs.len(),
{
    if addrs.len() > 0 {
        let rest = addrs.drop_last();
        lemma_prior_entries(trie, root, rest);
        let p = prior_from_trie(trie, root, rest);
        let q = prior_from_trie(trie, root, addrs);
        let last = addrs.last();
        assert forall|j: int| 0 <= j < p.len() implies #[trigger] q[j] == p[j] by {}
        assert forall|a: StdByteArray| #[trigger] addrs.contains(a) && trie.value_at(root, a) is Some implies exists|j: int|
            0 <= j < q.len() && (#[trigger] q[j]).address == a by {
            if a == last {
                assert(q[p.len() as int].address == a);
            } else {
                let i = choose|i: int| 0 <= i < addrs.len() && addrs[i] == a;
                assert(rest[i] == a);
                assert(rest.contains(a));
                let j = choose|j: int| 0 <= j < p.len() && (#[trigger] p[j]).address == a;
                assert(q[j] == p[j]);
            }
        }
    }
}

/// The holdings that a block is settled over are those that the state of
/// `root` has: for an address that the block touches, its balance and nonce
/// before the block are the ones that the state holds for it, or zero for
/// both where the state holds nothing for it.
pub proof fn lemma_block_prior_reads_trie(
    trie: MerkleTrie<StdByteArray, Holding>,
    root: Seq<u8>,
    block: Block,
    miner: StdByteArray,
    por: bool,
    admitted: Seq<StdByteArray>,
    a: StdByteArray,
)
    requires
        touched_addresses(block, miner, por, admitted).contains(a),
    ensures
        prior_holding(block_prior(trie, root, block, miner, por, admitted), a@) == match trie.value_at(root, a) {
            Some(v) => (v.balance as int, v.nonce as int),
            None => (0, 0),
        },
{
    broadcast use vstd::array::axiom_array_ext_equal;
    let addrs = touched_addresses(block, miner, por, admitted);
    let p = block_prior(trie, root, block, miner, por, admitted);
    lemma_prior_entries(trie, root, addrs);
    if exists|j: int| is_first_holding(p, a@, j) {
        let j = choose|j: int| is_first_holding(p, a@, j);
        assert(p[j].address =~= a);
    } else {
        if trie.value_at(root, a) is Some {
            let j = choose|j: int| 0 <= j < p.len() && (#[trigger] p[j]).address == a;
            lemma_first_index(p, a@, j);
        }
    }
}

/// Where some holding is for `a`, a first one is.
proof fn lemma_first_index(p: Seq<Holding>, a: Seq<u8>, j: int)
    requires
        0 <= j < p.len(),
        p[j].address@ == a,
    ensures
        exists|f: int| is_first_holding(p, a, f),
    decreases j,
{
    if exists|k: int| 0 <= k < j && (#[trigger] p[k]).address@ == a {
        let k = choose|k: int| 0 <= k < j && (#[trigger] p[k]).address@ == a;
        lemma_first_index(p, a, k);
    } else {
        assert(is_first_holding(p, a, j));
    }
}

/// Reads the holding of `a` in the state of `root` and appends it to
/// `prior`, under `a`, if the state holds one.
fn read_prior(
    trie: &MerkleTrie<StdByteArray, Holding>,
    root: StdByteArray,
    a: &StdByteArray,
    prior: &mut Vec<Holding>,
    Ghost(addrs): Ghost<Seq<StdByteArray>>,
)
    requires
        trie.wf(),
        old(prior)@ == prior_from_trie(*trie, root@, addrs),
    ensures
        final(prior)@ == prior_from_trie(*trie, root@, addrs.push(*a)),
{
    proof {
        assert(addrs.push(*a).drop_last() =~= addrs);
    }
    match trie.get(a, root) {
        Some(v) => {
            prior.push(Holding { address: *a, balance: v.balance, nonce: v.nonce });
        },
        None => {},
    }
}

/// Applies `block` to the state of `prev_root`: settles it over the holdings
/// that state has, and branches a new root off it with the settled holdings.
/// The miner is `miner_address`; `por_enabled` says whether proof of
/// reputation applies, and `admitted` are the stampers it admits to a share.
/// Fails, changing nothing, when the trie has no such root or the block does
/// not settle. Every other root keeps its state; the new root holds the
/// settled holding of each address that the block changes and the previous
/// holding of every other address (short of two addresses whose hashes
/// collide).
pub fn apply_block(
    trie: &mut MerkleTrie<StdByteArray, Holding>,
    prev_root: StdByteArray,
    block: &Block,
    miner_address: StdByteArray,
    por_enabled: bool,
    admitted: &Vec<StdByteArray>,
) -> (r: Result<StdByteArray, ApplyError>)
    requires
        old(trie).wf(),
        block.header.depth != 0,
    ensures
        final(trie).wf(),
        r is Err ==> *final(trie) == *old(trie),
        !old(trie).has_root(prev_root@) ==> r == Err::<StdByteArray, ApplyError>(ApplyError::UnknownRoot),
        old(trie).has_root(prev_root@) ==> (r is Ok <==> block_settles(
            block_prior(*old(trie), prev_root@, *block, miner_address, por_enabled, admitted@),
            *block,
            miner_address,
            por_enabled,
            admitted@,
        )),
        r is Err && old(trie).has_root(prev_root@) ==> r == Err::<StdByteArray, ApplyError>(ApplyError::DoesNotSettle),
        r matches Ok(h) ==> forall|g: Seq<u8>| #[trigger] final(trie).has_root(g) == (old(trie).has_root(g) || g == h@),
        r matches Ok(h) ==> forall|g: Seq<u8>, p: Seq<u8>|
            g != h@ ==> #[trigger] final(trie).state_at(g, p) == old(trie).state_at(g, p),
        r matches Ok(h) ==> forall|a: StdByteArray|
            (forall|b: StdByteArray|
                #![trigger key_path(b)]
                settled(
                    block_prior(*old(trie), prev_root@, *block, miner_address, por_enabled, admitted@),
                    *block,
                    miner_address,
                    por_enabled,
                    admitted@,
                ).contains_key(b@) && key_path(b) == key_path(a) ==> b == a) ==> #[trigger] final(trie).value_at(h@, a)
                == holding_after(
                settled(
                    block_prior(*old(trie), prev_root@, *block, miner_address, por_enabled, admitted@),
                    *block,
                    miner_address,
                    por_enabled,
                    admitted@,
                ),
                *old(trie),
                prev_root@,
                a,
            ),
{
    let ghost before = *trie;
    if trie.root_key(&prev_root).is_none() {
        return Err(ApplyError::UnknownRoot);
    }
    let ghost touched = touched_addresses(*block, miner_address, por_enabled, admitted@);
    let ghost txs = block_transfers(*block);
    let mut prior: Vec<Holding> = Vec::new();
    let ghost mut seen: Seq<StdByteArray> = Seq::empty();
    let mut i: usize = 0;
    while i < block.transactions.len()
        invariant
            trie.wf(),
            0 <= i <= block.transactions.len(),
            txs == block_transfers(*block),
            txs.len() == block.transactions.len(),
            seen == transfer_addresses(txs.take(i as int)),
            prior@ == prior_from_trie(*trie, prev_root@, seen),
        decreases block.transactions.len() - i,
    {
        let t: TransactionMeta = block.transactions[i].header.meta;
        proof {
            assert(txs.take(i + 1).drop_last() =~= txs.take(i as int));
            assert(txs.take(i + 1).last() == t);
        }
        read_prior(trie, prev_root, &t.sender, &mut prior, Ghost(seen));
        proof {
            seen = seen.push(t.sender);
        }
        read_prior(trie, prev_root, &t.receiver, &mut prior, Ghost(seen));
        proof {
            seen = seen.push(t.receiver);
        }
        i = i + 1;
    }
    proof {
        assert(txs.take(txs.len() as int) =~= txs);
    }
    read_prior(trie, prev_root, &miner_address, &mut prior, Ghost(seen));
    proof {
        seen = seen.push(miner_address);
    }
    if por_enabled {
        let mut j: usize = 0;
        while j < admitted.len()
            invariant
                trie.wf(),
                0 <= j <= admitted@.len(),
                seen == transfer_addresses(txs) + seq![miner_address] + admitted@.take(j as int),
                prior@ == prior_from_trie(*trie, prev_root@, seen),
            decreases admitted@.len() - j,
        {
            read_prior(trie, prev_root, &admitted[j], &mut prior, Ghost(seen));
            proof {
                assert(admitted@.take(j + 1) =~= admitted@.take(j as int).push(admitted@[j as int]));
                seen = seen.push(admitted@[j as int]);
            }
            j = j + 1;
        }
        proof {
            assert(admitted@.take(admitted@.len() as int) =~= admitted@);
        }
    } else {
        assert(seen =~= transfer_addresses(txs) + seq![miner_address] + Seq::<StdByteArray>::empty());
    }
    let ghost head = seen;
    let stampers = block.header.tail.get_stampers();
    let ghost sv = as_arrays(stamper_addresses(block.header.tail.stamps@));
    proof {
        broadcast use vstd::array::axiom_array_ext_equal;
        let views = stamper_addresses(block.header.tail.stamps@);
        assert(views =~= Seq::new(stampers@.len(), |q: int| stampers@[q]@));
        assert forall|q: int| 0 <= q < sv.len() implies #[trigger] sv[q] == stampers@[q] by {
            let kk = choose|k: StdByteArray| k@ == views[q];
            assert(views[q] == stampers@[q]@);
            assert(kk@ == stampers@[q]@);
            assert(kk =~= stampers@[q]);
        }
    }
    let mut j: usize = 0;
    while j < stampers.len()
        invariant
            trie.wf(),
            0 <= j <= stampers@.len(),
            sv.len() == stampers@.len(),
            forall|q: int| 0 <= q < sv.len() ==> #[trigger] sv[q] == stampers@[q],
            seen == head + sv.take(j as int),
            prior@ == prior_from_trie(*trie, prev_root@, seen),
        decreases stampers@.len() - j,
    {
        read_prior(trie, prev_root, &stampers[j], &mut prior, Ghost(seen));
        proof {
            assert(sv.take(j + 1) =~= sv.take(j as int).push(sv[j as int]));
            seen = seen.push(stampers@[j as int]);
        }
        j = j + 1;
    }
    proof {
        assert(sv.take(sv.len() as int) =~= sv);
        assert(seen =~= touched);
    }
    let holdings = match settle_block(block, miner_address, por_enabled, admitted, &prior) {
        Some(v) => v,
        None => return Err(ApplyError::DoesNotSettle),
    };
    let ghost m = settled(prior@, *block, miner_address, por_enabled, admitted@);
    let mut updates: Vec<(StdByteArray, Holding)> = Vec::new();
    let mut k: usize = 0;
    while k < holdings.len()
        invariant
            0 <= k <= holdings@.len(),
            updates@.len() == k,
            forall|q: int| 0 <= q < k ==> #[trigger] updates@[q] == (holdings@[q].address, holdings@[q]),
        decreases holdings@.len() - k,
    {
        updates.push((holdings[k].address, holdings[k]));
        k = k + 1;
    }
    proof {
        // The miner is always credited, so there is an update.
        assert(represents(holdings@, m));
        assert(m.contains_key(miner_address@)) by {
            lemma_settled_has_miner(prior@, *block, miner_address, por_enabled, admitted@);
        }
        let j = choose|j: int| 0 <= j < holdings@.len() && (#[trigger] holdings@[j]).address@ == miner_address@;
        assert(updates@[j] == (holdings@[j].address, holdings@[j]));
    }
    let ghost ups = updates@;
    let res = trie.branch(Some(prev_root), updates);
    match res {
        Ok(h) => {
            proof {
                assert forall|a: StdByteArray|
                    (forall|b: StdByteArray|
                        #![trigger key_path(b)]
                        m.contains_key(b@) && key_path(b) == key_path(a) ==> b == a) implies #[trigger] trie.value_at(h@, a)
                        == holding_after(m, before, prev_root@, a) by {
                    assert forall|q: int| 0 <= q < ups.len() && key_path((#[trigger] ups[q]).0) == key_path(a) implies ups[q].0
                        == a by {
                        assert(m.contains_key(holdings@[q].address@));
                    }
                    MerkleTrie::<StdByteArray, Holding>::lemma_branch_value_at_key(before, *trie, prev_root@, h@, ups, a);
                    lemma_last_value(holdings@, m, ups, a);
                }
            }
            Ok(h)
        },
        Err(e) => {
            assert(false);
            Err(ApplyError::UnknownRoot)
        },
    }
}

/// The ledger state: the state trie, one root per applied block.
pub struct StateManager {
    /// The trie of holdings by address.
    pub state_trie: MerkleTrie<StdByteArray, Holding>,
}

impl StateManager {
    /// A state manager with an empty trie.
    pub fn new() -> (r: Self)
        ensures
            r.state_trie.wf(),
            r.state_trie.counts_cover(),
            r.state_trie.root_hashes() == Set::<Seq<u8>>::empty(),
    {
        StateManager { state_trie: MerkleTrie::new() }
    }

    /// The holding of `address` in the state of `state_root`, if it has one.
    pub fn get_account(&self, address: &StdByteArray, state_root: StdByteArray) -> (r: Option<Holding>)
        requires
            self.state_trie.wf(),
        ensures
            r == self.state_trie.value_at(state_root@, *address),
    {
        self.state_trie.get(address, state_root)
    }

    /// The holding of `address` in the state of `state_root`, or an empty
    /// one for the address where the state has none.
    pub fn get_account_or_default(&self, address: &StdByteArray, state_root: StdByteArray) -> (r: Holding)
        requires
            self.state_trie.wf(),
        ensures
            r == match self.state_trie.value_at(state_root@, *address) {
                Some(v) => v,
                None => Holding { address: *address, balance: 0, nonce: 0 },
            },
    {
        match self.state_trie.get(address, state_root) {
            Some(v) => v,
            None => Holding { address: *address, balance: 0, nonce: 0 },
        }
    }

    /// Every holding in the state of `root`, each once.
    pub fn get_all_accounts(&self, root: StdByteArray) -> (r: Vec<Holding>)
        requires
            self.state_trie.wf(),
        ensures
            !self.state_trie.has_root(root@) ==> r@.len() == 0,
            exists|paths: Seq<Seq<u8>>| #[trigger] self.state_trie.lists_values_once(root@, r@, paths),
    {
        self.state_trie.get_all(root)
    }

    /// Removes the root `root` and the nodes that only it uses.
    pub fn remove_branch(&mut self, root: StdByteArray)
        requires
            old(self).state_trie.wf(),
            old(self).state_trie.has_root(root@),
        ensures
            final(self).state_trie.wf(),
            forall|g: Seq<u8>| #[trigger] final(self).state_trie.has_root(g) == (old(self).state_trie.has_root(g) && g != root@),
            forall|p: Seq<u8>| #[trigger] final(self).state_trie.state_at(root@, p) is None,
            old(self).state_trie.counts_cover() ==> final(self).state_trie.counts_cover(),
            old(self).state_trie.counts_cover() ==> forall|g: Seq<u8>, p: Seq<u8>|
                g != root@ ==> #[trigger] final(self).state_trie.state_at(g, p) == old(self).state_trie.state_at(g, p),
    {
        let _ = self.state_trie.trim_branch(root);
    }

    /// Applies a mined `block` to the state of its parent, whose header is
    /// `prev_header`: the full reward outside proof of reputation goes to the
    /// block's miner, and the state branched off is the parent's state root.
    /// Both headers must be mined.
    pub fn branch_from_block(
        &mut self,
        block: &Block,
        prev_header: &BlockHeader,
        por_enabled: bool,
        admitted: &Vec<StdByteArray>,
    ) -> (r: Result<StdByteArray, ApplyError>)
        requires
            old(self).state_trie.wf(),
            block.header.depth != 0,
            !block.header.completion.spec_is_none(),
            !prev_header.completion.spec_is_none(),
        ensures
            final(self).state_trie.wf(),
            r is Err ==> *final(self) == *old(self),
            !old(self).state_trie.has_root(prev_header.completion.fields().state_root@) ==> r == Err::<
                StdByteArray,
                ApplyError,
            >(ApplyError::UnknownRoot),
            old(self).state_trie.has_root(prev_header.completion.fields().state_root@) ==> (r is Ok <==> block_settles(
                block_prior(
                    old(self).state_trie,
                    prev_header.completion.fields().state_root@,
                    *block,
                    block.header.completion.fields().miner_address,
                    por_enabled,
                    admitted@,
                ),
                *block,
                block.header.completion.fields().miner_address,
                por_enabled,
                admitted@,
            )),
            r matches Ok(h) ==> forall|g: Seq<u8>, p: Seq<u8>|
                g != h@ ==> #[trigger] final(self).state_trie.state_at(g, p) == old(self).state_trie.state_at(g, p),
            r matches Ok(h) ==> forall|a: StdByteArray|
                (forall|b: StdByteArray|
                    #![trigger key_path(b)]
                    settled(
                        block_prior(
                            old(self).state_trie,
                            prev_header.completion.fields().state_root@,
                            *block,
                            block.header.completion.fields().miner_address,
                            por_enabled,
                            admitted@,
                        ),
                        *block,
                        block.header.completion.fields().miner_address,
                        por_enabled,
                        admitted@,
                    ).contains_key(b@) && key_path(b) == key_path(a) ==> b == a) ==> #[trigger] final(self).state_trie.value_at(h@, a)
                    == holding_after(
                    settled(
                        block_prior(
                            old(self).state_trie,
                            prev_header.completion.fields().state_root@,
                            *block,
                            block.header.completion.fields().miner_address,
                            por_enabled,
                            admitted@,
                        ),
                        *block,
                        block.header.completion.fields().miner_address,
                        por_enabled,
                        admitted@,
                    ),
                    old(self).state_trie,
                    prev_header.completion.fields().state_root@,
                    a,
                ),
    {
        let miner_address = block.header.completion.inner_fields().miner_address;
        let state_root = prev_header.completion.inner_fields().state_root;
        self.branch_from_block_internal(block, state_root, &miner_address, por_enabled, admitted)
    }

    /// Applies `block` to the state of `prev_root`, as `apply_block` does,
    /// with the full reward going to `miner_address` outside proof of
    /// reputation.
    pub fn branch_from_block_internal(
        &mut self,
        block: &Block,
        prev_root: StdByteArray,
        miner_address: &StdByteArray,
        por_enabled: bool,
        admitted: &Vec<StdByteArray>,
    ) -> (r: Result<StdByteArray, ApplyError>)
        requires
            old(self).state_trie.wf(),
            block.header.depth != 0,
        ensures
            final(self).state_trie.wf(),
            r is Err ==> *final(self) == *old(self),
            !old(self).state_trie.has_root(prev_root@) ==> r == Err::<StdByteArray, ApplyError>(ApplyError::UnknownRoot),
            old(self).state_trie.has_root(prev_root@) ==> (r is Ok <==> block_settles(
                block_prior(old(self).state_trie, prev_root@, *block, *miner_address, por_enabled, admitted@),
                *block,
                *miner_address,
                por_enabled,
                admitted@,
            )),
            r matches Ok(h) ==> forall|g: Seq<u8>| #[trigger] final(self).state_trie.has_root(g) == (old(self).state_trie.has_root(g) || g == h@),
            r matches Ok(h) ==> forall|g: Seq<u8>, p: Seq<u8>|
                g != h@ ==> #[trigger] final(self).state_trie.state_at(g, p) == old(self).state_trie.state_at(g, p),
            r matches Ok(h) ==> forall|a: StdByteArray|
                (forall|b: StdByteArray|
                    #![trigger key_path(b)]
                    settled(
                        block_prior(old(self).state_trie, prev_root@, *block, *miner_address, por_enabled, admitted@),
                        *block,
                        *miner_address,
                        por_enabled,
                        admitted@,
                    ).contains_key(b@) && key_path(b) == key_path(a) ==> b == a) ==> #[trigger] final(self).state_trie.value_at(h@, a)
                    == holding_after(
                    settled(
                        block_prior(old(self).state_trie, prev_root@, *block, *miner_address, por_enabled, admitted@),
                        *block,
                        *miner_address,
                        por_enabled,
                        admitted@,
                    ),
                    old(self).state_trie,
                    prev_root@,
                    a,
                ),
    {
        apply_block(&mut self.state_trie, prev_root, block, *miner_address, por_enabled, admitted)
    }
}

/// Every address that a credit names has a settled holding.
proof fn lemma_credits_keys(m: Map<Seq<u8>, (int, int)>, prior: Seq<Holding>, cs: Seq<(Seq<u8>, int)>, i: int)
    requires
        0 <= i < cs.len(),
    ensures
        after_credits(m, prior, cs).contains_key(cs[i].0),
    decreases cs.len(),
{
    if i < cs.len() - 1 {
        lemma_credits_keys(m, prior, cs.drop_last(), i);
        assert(cs.drop_last()[i] == cs[i]);
    }
}

/// The miner always has a settled holding.
proof fn lemma_settled_has_miner(prior: Seq<Holding>, block: Block, miner: StdByteArray, por: bool, admitted: Seq<StdByteArray>)
    ensures
        settled(prior, block, miner, por, admitted).contains_key(miner@),
{
    let cs = settlement_credits(block, miner, por, admitted);
    assert(cs[0].0 == miner@);
    lemma_credits_keys(after_transfers(prior, block_transfers(block)), prior, cs, 0);
}

proof fn lemma_last_value_none(ups: Seq<(StdByteArray, Holding)>, a: StdByteArray)
    requires
        forall|q: int| 0 <= q < ups.len() ==> (#[trigger] ups[q]).0 != a,
    ensures
        last_value_for(ups, a) is None,
    decreases ups.len(),
{
    if ups.len() > 0 {
        assert(ups.last() == ups[ups.len() - 1]);
        assert forall|q: int| 0 <= q < ups.drop_last().len() implies (#[trigger] ups.drop_last()[q]).0 != a by {
            assert(ups.drop_last()[q] == ups[q]);
        }
        lemma_last_value_none(ups.drop_last(), a);
    }
}

proof fn lemma_last_value_unique(ups: Seq<(StdByteArray, Holding)>, a: StdByteArray, j: int)
    requires
        0 <= j < ups.len(),
        ups[j].0 == a,
        forall|q: int| 0 <= q < ups.len() && q != j ==> (#[trigger] ups[q]).0 != a,
    ensures
        last_value_for(ups, a) == Some(ups[j].1),
    decreases ups.len(),
{
    if j < ups.len() - 1 {
        assert(ups.last() == ups[ups.len() - 1]);
        assert(ups.drop_last()[j] == ups[j]);
        assert forall|q: int| 0 <= q < ups.drop_last().len() && q != j implies (#[trigger] ups.drop_last()[q]).0 != a by {
            assert(ups.drop_last()[q] == ups[q]);
        }
        lemma_last_value_unique(ups.drop_last(), a, j);
    } else {
        assert(ups.last() == ups[j]);
    }
}

/// With one update per address, the last update for `a` is the settled
/// holding of `a`, or none where `a` is not settled.
proof fn lemma_last_value(hs: Seq<Holding>, m: Map<Seq<u8>, (int, int)>, ups: Seq<(StdByteArray, Holding)>, a: StdByteArray)
    requires
        represents(hs, m),
        ups.len() == hs.len(),
        forall|q: int| 0 <= q < ups.len() ==> #[trigger] ups[q] == (hs[q].address, hs[q]),
    ensures
        last_value_for(ups, a) == if m.contains_key(a@) {
            Some(Holding { address: a, balance: m[a@].0 as u64, nonce: m[a@].1 as u64 })
        } else {
            None
        },
{
    broadcast use vstd::array::axiom_array_ext_equal;
    if m.contains_key(a@) {
        let j = choose|j: int| 0 <= j < hs.len() && (#[trigger] hs[j]).address@ == a@;
        assert(hs[j].address =~= a);
        assert(ups[j] == (hs[j].address, hs[j]));
        assert forall|q: int| 0 <= q < ups.len() && q != j implies (#[trigger] ups[q]).0 != a by {
            assert(ups[q] == (hs[q].address, hs[q]));
            if q < j {
                assert(hs[q].address@ != hs[j].address@);
            } else {
                assert(hs[j].address@ != hs[q].address@);
            }
        }
        lemma_last_value_unique(ups, a, j);
        assert(m[a@] == (hs[j].balance as int, hs[j].nonce as int));
    } else {
        assert forall|q: int| 0 <= q < ups.len() implies (#[trigger] ups[q]).0 != a by {
            assert(ups[q] == (hs[q].address, hs[q]));
            assert(m.contains_key(hs[q].address@));
        }
        lemma_last_value_none(ups, a);
    }
}

} // verus!
