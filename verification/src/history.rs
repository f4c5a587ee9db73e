//! The history of a node: the blocks it mined and the blocks it stamped,
//! from which its reputation is computed.

use vstd::prelude::*;

use crate::block::{stamper_addresses, BlockHeader, Stamp};
use crate::N_TRANSMISSION_SIGNATURES;
use crate::bytes::{eq32, StdByteArray};
use crate::chain_shard::{is_kept_leaf, leaves_stored, lookup, survives_trim, walk, ChainShard};
use crate::hashing::{HashFunction, Hashable};
use crate::header::header_hash_input;

verus! {

/// What a history keeps of a block: its previous hash, number of stampers,
/// depth and time.
#[derive(Debug, Clone, Copy, PartialEq, Eq)]
pub struct HeaderShard {
    pub previous_hash: StdByteArray,
    /// The number of distinct nodes that stamped the block.
    pub n_stamps: u32,
    pub depth: u64,
    /// The time the block was created.
    pub timestamp: u64,
}

/// The record of a header in a history.
pub open spec fn header_shard_of(h: BlockHeader) -> HeaderShard {
    HeaderShard {
        previous_hash: h.previous_hash,
        n_stamps: stamper_addresses(h.tail.stamps@).len() as u32,
        depth: h.depth,
        timestamp: h.timestamp,
    }
}

impl vstd::std_specs::convert::FromSpecImpl<BlockHeader> for HeaderShard {
    open spec fn obeys_from_spec() -> bool {
        true
    }

    open spec fn from_spec(header: BlockHeader) -> HeaderShard {
        header_shard_of(header)
    }
}

impl From<BlockHeader> for HeaderShard {
    fn from(header: BlockHeader) -> (r: Self) {
        let stampers = header.tail.get_stampers();
        proof {
            assert(stampers@.len() == stamper_addresses(header.tail.stamps@).len());
        }
        HeaderShard {
            previous_hash: header.previous_hash,
            depth: header.depth,
            n_stamps: stampers.len() as u32,
            timestamp: header.timestamp,
        }
    }
}

/// The history of a node: everything needed to compute its reputation.
pub struct NodeHistory {
    /// The public key of the node.
    pub public_key: StdByteArray,
    blocks_mined: Vec<HeaderShard>,
    blocks_stamped: Vec<HeaderShard>,
}

/// `key` is reached from `from` by following previous hashes through the
/// stored headers.
pub open spec fn reaches_from(e: Seq<(StdByteArray, BlockHeader)>, from: Seq<u8>, key: Seq<u8>) -> bool {
    exists|k: nat| #[trigger] walk(e, from, k) == Some(key)
}

/// `h` is a header of the shard on the chain of one of its leaves.
pub open spec fn on_some_chain(s: ChainShard, h: BlockHeader) -> bool {
    exists|k: int, key: Seq<u8>|
        0 <= k < s.leaves@.len() && #[trigger] reaches_from(s.headers@, s.leaves@[k]@, key) && lookup(
            s.headers@,
            key,
        ) == Some(h)
}

/// Some entry of the shard holds `h`.
pub open spec fn is_stored(e: Seq<(StdByteArray, BlockHeader)>, h: BlockHeader) -> bool {
    exists|j: int| 0 <= j < e.len() && (#[trigger] e[j]).1 == h
}

/// A stored header is reached from `from` (`from` itself included).
pub open spec fn reaches_stored(e: Seq<(StdByteArray, BlockHeader)>, from: Seq<u8>, h: BlockHeader) -> bool {
    exists|x: Seq<u8>| #[trigger] reaches_from(e, from, x) && lookup(e, x) == Some(h)
}

/// Every stored header before `v` on its chain is among `visited`.
pub open spec fn ancestors_in(e: Seq<(StdByteArray, BlockHeader)>, v: BlockHeader, visited: Seq<BlockHeader>) -> bool {
    forall|h: BlockHeader| #[trigger] reaches_stored(e, v.previous_hash@, h) ==> visited.contains(h)
}

/// Distinct stored headers have distinct hashes under `H`.
pub open spec fn hashes_distinct<H: HashFunction>(e: Seq<(StdByteArray, BlockHeader)>) -> bool {
    forall|i: int, j: int|
        0 <= i < e.len() && 0 <= j < e.len() && header_hash_under::<H>(#[trigger] e[i].1) == header_hash_under::<H>(
            #[trigger] e[j].1,
        ) ==> e[i].1 == e[j].1
}

/// `x` records a header on the chain of a leaf of the shard that `miner`
/// mined.
pub open spec fn is_mined_record(s: ChainShard, miner: StdByteArray, x: HeaderShard) -> bool {
    exists|h: BlockHeader|
        #![trigger on_some_chain(s, h)]
        on_some_chain(s, h) && h.completion.fields().miner_address@ == miner@ && x == header_shard_of(h)
}

/// The records of the headers of `vis` that `miner` mined, in order.
pub open spec fn mined_shards(vis: Seq<BlockHeader>, miner: StdByteArray) -> Seq<HeaderShard>
    decreases vis.len(),
{
    if vis.len() == 0 {
        Seq::empty()
    } else {
        let r = mined_shards(vis.drop_last(), miner);
        let h = vis.last();
        if !h.completion.spec_is_none() && h.completion.fields().miner_address@ == miner@ {
            r.push(header_shard_of(h))
        } else {
            r
        }
    }
}

proof fn lemma_stamper_addresses_len(s: Seq<Stamp>)
    ensures
        stamper_addresses(s).len() <= s.len(),
    decreases s.len(),
{
    if s.len() > 0 {
        lemma_stamper_addresses_len(s.drop_last());
    }
}

/// The record of a header keeps its previous hash, depth and time, and
/// counts its distinct stampers, at most one per stamp slot.
pub proof fn lemma_header_shard_of(h: BlockHeader)
    ensures
        header_shard_of(h).previous_hash == h.previous_hash,
        header_shard_of(h).depth == h.depth,
        header_shard_of(h).timestamp == h.timestamp,
        header_shard_of(h).n_stamps == stamper_addresses(h.tail.stamps@).len(),
        header_shard_of(h).n_stamps <= N_TRANSMISSION_SIGNATURES,
{
    lemma_stamper_addresses_len(h.tail.stamps@);
}

/// Whether a header is mined, by `miner`.
pub open spec fn mined_by(miner: StdByteArray) -> spec_fn(BlockHeader) -> bool {
    |h: BlockHeader| !h.completion.spec_is_none() && h.completion.fields().miner_address@ == miner@
}

/// The mined records of a list of headers are the records of the headers
/// of the list that `miner` mined, in their order, one each.
pub proof fn lemma_mined_shards(vis: Seq<BlockHeader>, miner: StdByteArray)
    ensures
        mined_shards(vis, miner) == vis.filter(mined_by(miner)).map_values(|h: BlockHeader| header_shard_of(h)),
    decreases vis.len(),
{
    reveal(Seq::filter);
    if vis.len() > 0 {
        lemma_mined_shards(vis.drop_last(), miner);
        let f = vis.drop_last().filter(mined_by(miner));
        if mined_by(miner)(vis.last()) {
            assert(vis.filter(mined_by(miner)) == f.push(vis.last()));
            assert(f.push(vis.last()).map_values(|h: BlockHeader| header_shard_of(h)) =~= f.map_values(
                |h: BlockHeader| header_shard_of(h),
            ).push(header_shard_of(vis.last())));
        } else {
            assert(vis.filter(mined_by(miner)) == f);
        }
    } else {
        assert(vis.filter(mined_by(miner)).map_values(|h: BlockHeader| header_shard_of(h)) =~= Seq::<HeaderShard>::empty());
    }
}

/// The hash of a header under `H` (its hash when nothing was absorbed before).
pub open spec fn header_hash_under<H: HashFunction>(h: BlockHeader) -> Seq<u8> {
    H::digest_of(header_hash_input(h))
}

/// The number of the first `n` entries whose header hash is not in `seen`.
pub open spec fn n_unseen<H: HashFunction>(e: Seq<(StdByteArray, BlockHeader)>, seen: Seq<Seq<u8>>, n: int) -> nat
    decreases n,
{
    if n <= 0 {
        0
    } else {
        n_unseen::<H>(e, seen, n - 1) + if seen.contains(header_hash_under::<H>(e[n - 1].1)) {
            0nat
        } else {
            1nat
        }
    }
}

/// Marking a hash as seen does not add unseen entries, and removes one when
/// an entry has that hash and it was not seen before.
proof fn lemma_n_unseen_push<H: HashFunction>(
    e: Seq<(StdByteArray, BlockHeader)>,
    seen: Seq<Seq<u8>>,
    x: Seq<u8>,
    n: int,
    j: int,
)
    requires
        0 <= n <= e.len(),
    ensures
        n_unseen::<H>(e, seen.push(x), n) <= n_unseen::<H>(e, seen, n),
        0 <= j < n && header_hash_under::<H>(e[j].1) == x && !seen.contains(x) ==> n_unseen::<H>(
            e,
            seen.push(x),
            n,
        ) < n_unseen::<H>(e, seen, n),
    decreases n,
{
    if n > 0 {
        lemma_n_unseen_push::<H>(e, seen, x, n - 1, j);
        let y = header_hash_under::<H>(e[n - 1].1);
        if seen.contains(y) {
            let i = choose|i: int| 0 <= i < seen.len() && seen[i] == y;
            assert(seen.push(x)[i] == y);
        }
        if y == x {
            assert(seen.push(x)[seen.len() as int] == x);
        }
    }
}

/// One more step along the chain.
proof fn lemma_walk_next(e: Seq<(StdByteArray, BlockHeader)>, from: Seq<u8>, k: nat, key: Seq<u8>, h: BlockHeader)
    requires
        walk(e, from, k) == Some(key),
        lookup(e, key) == Some(h),
    ensures
        walk(e, from, k + 1) == Some(h.previous_hash@),
{
}

/// The header `h` is met `n` steps into the walk from `from`.
pub open spec fn met_at(e: Seq<(StdByteArray, BlockHeader)>, from: Seq<u8>, n: int, h: BlockHeader) -> bool {
    n >= 0 && walk(e, from, n as nat) is Some && lookup(e, walk(e, from, n as nat)->0) == Some(h)
}

/// Walking `a + b` steps from `from` is walking `b` steps from where `a`
/// steps lead.
proof fn lemma_walk_compose(e: Seq<(StdByteArray, BlockHeader)>, from: Seq<u8>, a: nat, b: nat, mid: Seq<u8>)
    requires
        walk(e, from, a) == Some(mid),
    ensures
        walk(e, from, a + b) == walk(e, mid, b),
    decreases b,
{
    if b > 0 {
        lemma_walk_compose(e, from, a, (b - 1) as nat, mid);
        assert((a + b - 1) as nat == a + (b - 1) as nat);
    }
}

/// Once two places of a walk hold the same header, the walk repeats: the
/// keys `m` steps after them are equal.
proof fn lemma_walk_repeats(e: Seq<(StdByteArray, BlockHeader)>, from: Seq<u8>, a: nat, b: nat, m: nat)
    requires
        walk(e, from, a) is Some,
        walk(e, from, b) is Some,
        lookup(e, walk(e, from, a)->0) is Some,
        lookup(e, walk(e, from, a)->0) == lookup(e, walk(e, from, b)->0),
        m >= 1,
    ensures
        walk(e, from, a + m) == walk(e, from, b + m),
    decreases m,
{
    if m > 1 {
        lemma_walk_repeats(e, from, a, b, (m - 1) as nat);
        assert((a + m - 1) as nat == a + (m - 1) as nat);
        assert((b + m - 1) as nat == b + (m - 1) as nat);
    }
}

/// In a walk that holds the same header at steps `a < b`, every header met
/// from step `a` on is met at some step in `[a, b)`.
proof fn lemma_walk_cycle(e: Seq<(StdByteArray, BlockHeader)>, from: Seq<u8>, a: nat, b: nat, n: nat)
    requires
        a < b,
        walk(e, from, a) is Some,
        walk(e, from, b) is Some,
        lookup(e, walk(e, from, a)->0) is Some,
        lookup(e, walk(e, from, a)->0) == lookup(e, walk(e, from, b)->0),
        walk(e, from, a + n) is Some,
        lookup(e, walk(e, from, a + n)->0) is Some,
    ensures
        exists|t: nat|
            a <= t < b && #[trigger] walk(e, from, t) is Some && lookup(e, walk(e, from, t)->0) == lookup(
                e,
                walk(e, from, a + n)->0,
            ),
    decreases n,
{
    if a + n < b {
        assert(walk(e, from, (a + n) as nat) is Some);
    } else if a + n == b {
        assert(walk(e, from, a) is Some);
    } else {
        let m = (a + n - b) as nat;
        lemma_walk_repeats(e, from, a, b, m);
        assert(a + n == b + m);
        let n2 = (n - (b - a)) as nat;
        assert(a + n2 == a + m);
        lemma_walk_cycle(e, from, a, b, n2);
    }
}

/// A walk from `from` after one step is the walk from the previous hash.
proof fn lemma_walk_shift(e: Seq<(StdByteArray, BlockHeader)>, from: Seq<u8>, h: BlockHeader, k: nat)
    requires
        lookup(e, from) == Some(h),
    ensures
        walk(e, from, k + 1) == walk(e, h.previous_hash@, k),
    decreases k,
{
    if k == 0 {
        assert(walk(e, from, 0) == Some(from));
        assert(walk(e, from, 1) == Some(h.previous_hash@));
    } else {
        lemma_walk_shift(e, from, h, (k - 1) as nat);
        assert(walk(e, from, k) == walk(e, h.previous_hash@, (k - 1) as nat));
        assert(walk(e, from, k + 1) == match walk(e, from, k) {
            Some(c) => match lookup(e, c) {
                Some(g) => Some(g.previous_hash@),
                None => None,
            },
            None => None,
        });
    }
}

/// `from` reaches itself.
proof fn lemma_reaches_self(e: Seq<(StdByteArray, BlockHeader)>, from: Seq<u8>)
    ensures
        reaches_from(e, from, from),
{
    assert(walk(e, from, 0) == Some(from));
}

/// The stored headers reached from `from`: the one stored under `from`, and
/// those reached from its previous hash.
proof fn lemma_reaches_stored_step(e: Seq<(StdByteArray, BlockHeader)>, from: Seq<u8>)
    ensures
        lookup(e, from) is None ==> forall|h: BlockHeader| !#[trigger] reaches_stored(e, from, h),
        lookup(e, from) matches Some(c) ==> forall|h: BlockHeader|
            #[trigger] reaches_stored(e, from, h) <==> (h == c || reaches_stored(e, c.previous_hash@, h)),
{
    assert forall|h: BlockHeader| #[trigger] reaches_stored(e, from, h) implies lookup(e, from) is Some && (
    h == lookup(e, from)->0 || reaches_stored(e, lookup(e, from)->0.previous_hash@, h)) by {
        let x = choose|x: Seq<u8>| #[trigger] reaches_from(e, from, x) && lookup(e, x) == Some(h);
        let k = choose|k: nat| #[trigger] walk(e, from, k) == Some(x);
        if k == 0 {
        } else {
            if lookup(e, from) is None {
                assert(walk(e, from, 0) == Some(from));
                assert(walk(e, from, 1) is None);
                lemma_walk_stops(e, from, 1, k);
            } else {
                let c = lookup(e, from)->0;
                lemma_walk_shift(e, from, c, (k - 1) as nat);
                assert(reaches_from(e, c.previous_hash@, x));
            }
        }
    }
    if lookup(e, from) is Some {
        let c = lookup(e, from)->0;
        assert forall|h: BlockHeader| (h == c || reaches_stored(e, c.previous_hash@, h)) implies #[trigger] reaches_stored(
            e,
            from,
            h,
        ) by {
            if h == c {
                lemma_reaches_self(e, from);
            } else {
                let x = choose|x: Seq<u8>| #[trigger] reaches_from(e, c.previous_hash@, x) && lookup(e, x) == Some(h);
                let k = choose|k: nat| #[trigger] walk(e, c.previous_hash@, k) == Some(x);
                lemma_walk_shift(e, from, c, k);
                assert(walk(e, from, k + 1) == Some(x));
                assert(reaches_from(e, from, x));
            }
        }
    }
}

/// Once a walk leaves the stored headers it stays out.
proof fn lemma_walk_stops(e: Seq<(StdByteArray, BlockHeader)>, from: Seq<u8>, k: nat, m: nat)
    requires
        walk(e, from, k) is None,
        k <= m,
    ensures
        walk(e, from, m) is None,
    decreases m - k,
{
    if k < m {
        lemma_walk_stops(e, from, k, (m - 1) as nat);
    }
}

/// A header that `lookup` finds is the header of one of the entries.
proof fn lemma_lookup_entry(e: Seq<(StdByteArray, BlockHeader)>, key: Seq<u8>)
    requires
        lookup(e, key) is Some,
    ensures
        exists|j: int| 0 <= j < e.len() && (#[trigger] e[j]).1 == lookup(e, key)->0,
{
    let j = choose|j: int| crate::chain_shard::is_first_entry(e, key, j);
    assert(e[j].1 == lookup(e, key)->0);
}

impl NodeHistory {
    /// The public key of the node.
    pub closed spec fn owner(&self) -> StdByteArray {
        self.public_key
    }

    /// The records of the blocks mined by the node.
    pub closed spec fn mined(&self) -> Seq<HeaderShard> {
        self.blocks_mined@
    }

    /// The records of the blocks stamped by the node.
    pub closed spec fn stamped(&self) -> Seq<HeaderShard> {
        self.blocks_stamped@
    }

    /// An empty history for the node `public_key`.
    pub fn new(public_key: StdByteArray) -> (r: Self)
        ensures
            r.owner() == public_key,
            r.mined().len() == 0,
            r.stamped().len() == 0,
    {
        NodeHistory { public_key, blocks_mined: Vec::new(), blocks_stamped: Vec::new() }
    }

    /// The records of the blocks mined by the node.
    pub fn blocks_mined(&self) -> (r: &Vec<HeaderShard>)
        ensures
            r@ == self.mined(),
    {
        &self.blocks_mined
    }

    /// The records of the blocks stamped by the node.
    pub fn blocks_stamped(&self) -> (r: &Vec<HeaderShard>)
        ensures
            r@ == self.stamped(),
    {
        &self.blocks_stamped
    }

    /// The history of the miner `miner` in a shard. The shard is trimmed
    /// first, so that dropped forks do not count; then the chain of each leaf
    /// is walked back, each block once (a block whose hash was met before
    /// ends the walk), and the blocks mined by `miner` are recorded.
    ///
    /// Every record is that of a block of the trimmed shard on the chain of a
    /// leaf and mined by `miner`. When nothing was absorbed by the hash
    /// function before and distinct headers of the trimmed shard have
    /// distinct hashes, the records are exactly those of the distinct headers
    /// on the chains of the leaves that `miner` mined, each once, whatever the
    /// shape of the chains (they may even loop).
    pub fn extract<H: HashFunction>(shard: &mut ChainShard, miner: StdByteArray, hash_function: &mut H) -> (r: NodeHistory)
        requires
            leaves_stored(*old(shard)),
            forall|i: int| 0 <= i < old(shard).headers@.len() ==> !(#[trigger] old(shard).headers@[i]).1.completion.spec_is_none(),
        ensures
            final(shard).leaves@ == old(shard).leaves@.filter(|l: StdByteArray| is_kept_leaf(*old(shard), l)),
            final(shard).headers@ == old(shard).headers@.filter(
                |entry: (StdByteArray, BlockHeader)| survives_trim(*old(shard), entry.0@),
            ),
            r.owner() == miner,
            r.stamped().len() == 0,
            forall|i: int|
                0 <= i < r.mined().len() ==> is_mined_record(*final(shard), miner, #[trigger] r.mined()[i]),
            old(hash_function).absorbed() == Seq::<u8>::empty() && hashes_distinct::<H>(final(shard).headers@) ==> forall|h: BlockHeader|
                on_some_chain(*final(shard), h) && h.completion.fields().miner_address@ == miner@ ==> r.mined().contains(
                    #[trigger] header_shard_of(h),
                ),
            old(hash_function).absorbed() == Seq::<u8>::empty() && hashes_distinct::<H>(final(shard).headers@) ==> exists|vis: Seq<BlockHeader>|
                #[trigger] mined_shards(vis, miner) == r.mined() && vis.no_duplicates() && forall|h: BlockHeader|
                    vis.contains(h) <==> on_some_chain(*final(shard), h),
    {
        let ghost before = *shard;
        shard.trim();
        let ghost t = *shard;
        let ghost e = shard.headers@;
        let ghost hyp = hash_function.absorbed() == Seq::<u8>::empty() && hashes_distinct::<H>(e);
        proof {
            assert forall|i: int| 0 <= i < e.len() implies !(#[trigger] e[i]).1.completion.spec_is_none() by {
                let pred = |entry: (StdByteArray, BlockHeader)| survives_trim(before, entry.0@);
                assert(before.headers@.filter(pred).contains(e[i]));
                before.headers@.lemma_filter_contains_rev(pred, e[i]);
            }
        }
        let mut blocks_mined: Vec<HeaderShard> = Vec::new();
        let mut seen: Vec<StdByteArray> = Vec::new();
        let ghost mut visited: Seq<BlockHeader> = Seq::empty();
        let mut k: usize = 0;
        while k < shard.leaves.len()
            invariant
                e == shard.headers@,
                t == *shard,
                0 <= k <= shard.leaves@.len(),
                forall|i: int| 0 <= i < e.len() ==> !(#[trigger] e[i]).1.completion.spec_is_none(),
                hash_function.absorbed().len() > 0 ==> seen@.len() == 0,
                forall|i: int|
                    0 <= i < blocks_mined@.len() ==> is_mined_record(t, miner, #[trigger] blocks_mined@[i]),
                blocks_mined@ == mined_shards(visited, miner),
                forall|i: int| 0 <= i < visited.len() ==> on_some_chain(t, #[trigger] visited[i]),
                hyp ==> visited.no_duplicates(),
                seen@.len() == visited.len(),
                forall|i: int| 0 <= i < visited.len() ==> is_stored(e, #[trigger] visited[i]),
                hyp ==> hash_function.absorbed() == Seq::<u8>::empty(),
                hyp ==> forall|i: int|
                    0 <= i < visited.len() ==> (#[trigger] seen@[i])@ == header_hash_under::<H>(visited[i]),
                hyp ==> forall|i: int| 0 <= i < visited.len() ==> #[trigger] ancestors_in(e, visited[i], visited),
                hyp ==> forall|j: int, h: BlockHeader|
                    0 <= j < k && #[trigger] reaches_stored(e, shard.leaves@[j]@, h) ==> visited.contains(h),
                hyp ==> forall|v: BlockHeader|
                    #[trigger] visited.contains(v) && v.completion.fields().miner_address@ == miner@ ==> blocks_mined@.contains(
                        header_shard_of(v),
                    ),
                hyp == (old(hash_function).absorbed() == Seq::<u8>::empty() && hashes_distinct::<H>(e)),
            decreases shard.leaves@.len() - k,
        {
            let leaf = shard.leaves[k];
            let mut next = shard.get_block(&leaf);
            let ghost mut steps: nat = 0;
            let ghost mut key: Seq<u8> = leaf@;
            let ghost walk_start = visited.len();
            proof {
                lemma_reaches_self(e, leaf@);
            }
            loop
                invariant
                    e == shard.headers@,
                    t == *shard,
                    0 <= k < shard.leaves@.len(),
                    leaf == shard.leaves@[k as int],
                    walk(e, leaf@, steps) == Some(key),
                    next == lookup(e, key),
                    forall|i: int| 0 <= i < e.len() ==> !(#[trigger] e[i]).1.completion.spec_is_none(),
                    hash_function.absorbed().len() > 0 ==> seen@.len() == 0,
                    forall|i: int|
                        0 <= i < blocks_mined@.len() ==> is_mined_record(t, miner, #[trigger] blocks_mined@[i]),
                    blocks_mined@ == mined_shards(visited, miner),
                    forall|i: int| 0 <= i < visited.len() ==> on_some_chain(t, #[trigger] visited[i]),
                    hyp ==> visited.no_duplicates(),
                    seen@.len() == visited.len(),
                    0 <= walk_start <= visited.len(),
                    forall|i: int| 0 <= i < visited.len() ==> is_stored(e, #[trigger] visited[i]),
                    hyp ==> hash_function.absorbed() == Seq::<u8>::empty(),
                    hyp ==> forall|i: int|
                        0 <= i < visited.len() ==> (#[trigger] seen@[i])@ == header_hash_under::<H>(visited[i]),
                    hyp ==> forall|i: int| 0 <= i < walk_start ==> #[trigger] ancestors_in(e, visited[i], visited),
                    hyp ==> forall|i: int, h: BlockHeader|
                        walk_start <= i < visited.len() && #[trigger] reaches_stored(e, visited[i].previous_hash@, h)
                            ==> visited.contains(h) || reaches_stored(e, key, h),
                    visited.len() == walk_start + steps,
                    forall|i: int| walk_start <= i < visited.len() ==> #[trigger] met_at(e, leaf@, i - walk_start, visited[i]),
                    hyp ==> forall|h: BlockHeader|
                        #[trigger] reaches_stored(e, leaf@, h) ==> visited.contains(h) || reaches_stored(e, key, h),
                    hyp ==> forall|j: int, h: BlockHeader|
                        0 <= j < k && #[trigger] reaches_stored(e, shard.leaves@[j]@, h) ==> visited.contains(h),
                    hyp ==> forall|v: BlockHeader|
                        #[trigger] visited.contains(v) && v.completion.fields().miner_address@ == miner@
                            ==> blocks_mined@.contains(header_shard_of(v)),
                    hyp == (old(hash_function).absorbed() == Seq::<u8>::empty() && hashes_distinct::<H>(e)),
                ensures
                    blocks_mined@ == mined_shards(visited, miner),
                    forall|i: int| 0 <= i < visited.len() ==> on_some_chain(t, #[trigger] visited[i]),
                    hyp ==> visited.no_duplicates(),
                    seen@.len() == visited.len(),
                    0 <= walk_start <= visited.len(),
                    forall|i: int| 0 <= i < visited.len() ==> is_stored(e, #[trigger] visited[i]),
                    hash_function.absorbed().len() > 0 ==> seen@.len() == 0,
                    forall|i: int|
                        0 <= i < blocks_mined@.len() ==> is_mined_record(t, miner, #[trigger] blocks_mined@[i]),
                    hyp ==> hash_function.absorbed() == Seq::<u8>::empty(),
                    hyp ==> forall|i: int|
                        0 <= i < visited.len() ==> (#[trigger] seen@[i])@ == header_hash_under::<H>(visited[i]),
                    hyp ==> forall|i: int| 0 <= i < walk_start ==> #[trigger] ancestors_in(e, visited[i], visited),
                    hyp ==> forall|i: int, h: BlockHeader|
                        walk_start <= i < visited.len() && #[trigger] reaches_stored(e, visited[i].previous_hash@, h)
                            ==> visited.contains(h) || reaches_stored(e, key, h),
                    hyp ==> forall|h: BlockHeader|
                        #[trigger] reaches_stored(e, leaf@, h) ==> visited.contains(h) || reaches_stored(e, key, h),
                    hyp ==> forall|h: BlockHeader| #[trigger] reaches_stored(e, key, h) ==> visited.contains(h),
                    hyp ==> forall|j: int, h: BlockHeader|
                        0 <= j < k && #[trigger] reaches_stored(e, shard.leaves@[j]@, h) ==> visited.contains(h),
                    hyp ==> forall|v: BlockHeader|
                        #[trigger] visited.contains(v) && v.completion.fields().miner_address@ == miner@
                            ==> blocks_mined@.contains(header_shard_of(v)),
                decreases n_unseen::<H>(e, Seq::new(seen@.len(), |m: int| seen@[m]@), e.len() as int), hash_function.absorbed().len(),
            {
                let cur = match next {
                    None => {
                        proof {
                            lemma_reaches_stored_step(e, key);
                        }
                        break;
                    },
                    Some(c) => c,
                };
                proof {
                    lemma_lookup_entry(e, key);
                    lemma_reaches_stored_step(e, key);
                }
                let ghost seen_before = Seq::new(seen@.len(), |m: int| seen@[m]@);
                let ghost absorbed_before = hash_function.absorbed();
                let hash = match cur.hash(hash_function) {
                    Ok(h) => h,
                    Err(_) => [0u8; 32],
                };
                let mut already = false;
                let mut m: usize = 0;
                while m < seen.len()
                    invariant
                        0 <= m <= seen@.len(),
                        already == exists|q: int| 0 <= q < m && (#[trigger] seen@[q])@ == hash@,
                    decreases seen@.len() - m,
                {
                    if eq32(&seen[m], &hash) {
                        already = true;
                    }
                    m = m + 1;
                }
                if already {
                    proof {
                        if hyp {
                            let q = choose|q: int| 0 <= q < seen@.len() && (#[trigger] seen@[q])@ == hash@;
                            assert(Seq::<u8>::empty() + header_hash_input(cur) =~= header_hash_input(cur));
                            assert(seen@[q]@ == header_hash_under::<H>(visited[q]));
                            let j1 = choose|j: int| 0 <= j < e.len() && (#[trigger] e[j]).1 == cur;
                            let j2 = choose|j: int| 0 <= j < e.len() && (#[trigger] e[j]).1 == visited[q];
                            assert(e[j1].1 == e[j2].1);
                            if q >= walk_start {
                                // the walk came round to a header it met before
                                let a = (q - walk_start) as nat;
                                assert(met_at(e, leaf@, q - walk_start, visited[q]));
                                assert forall|h: BlockHeader| #[trigger] reaches_stored(e, key, h) implies visited.contains(h) by {
                                    let x = choose|x: Seq<u8>| #[trigger] reaches_from(e, key, x) && lookup(e, x) == Some(h);
                                    let n = choose|n: nat| #[trigger] walk(e, key, n) == Some(x);
                                    lemma_walk_compose(e, leaf@, steps, n, key);
                                    let n2 = (steps - a + n) as nat;
                                    assert(a + n2 == steps + n);
                                    lemma_walk_cycle(e, leaf@, a, steps, n2);
                                    let t = choose|t: nat|
                                        a <= t < steps && #[trigger] walk(e, leaf@, t) is Some && lookup(
                                            e,
                                            walk(e, leaf@, t)->0,
                                        ) == lookup(e, walk(e, leaf@, a + n2)->0);
                                    let i: int = walk_start as int + t as int;
                                    assert((i - walk_start) as nat == t);
                                    assert(met_at(e, leaf@, i - walk_start, visited[i]));
                                    assert(visited[i] == h);
                                }
                            } else {
                                assert(ancestors_in(e, visited[q], visited));
                                assert forall|h: BlockHeader| #[trigger] reaches_stored(e, key, h) implies visited.contains(h) by {
                                    if h == cur {
                                        assert(visited[q] == h);
                                    }
                                }
                            }
                        }
                    }
                    break;
                }
                proof {
                    if seen_before.contains(hash@) {
                        let q = choose|q: int| 0 <= q < seen_before.len() && seen_before[q] == hash@;
                        assert(seen@[q]@ == hash@);
                    }
                    let j = choose|j: int| 0 <= j < e.len() && (#[trigger] e[j]).1 == cur;
                    if absorbed_before.len() == 0 {
                        assert(absorbed_before =~= Seq::<u8>::empty());
                        assert(Seq::<u8>::empty() + header_hash_input(cur) =~= header_hash_input(cur));
                    }
                    lemma_n_unseen_push::<H>(e, seen_before, hash@, e.len() as int, j);
                }
                seen.push(hash);
                let ghost visited_before = visited;
                proof {
                    visited = visited.push(cur);
                    assert(Seq::new(seen@.len(), |m: int| seen@[m]@) =~= seen_before.push(hash@));
                    if hyp {
                        assert(absorbed_before =~= Seq::<u8>::empty());
                        assert(Seq::<u8>::empty() + header_hash_input(cur) =~= header_hash_input(cur));
                        assert forall|q: int| 0 <= q < visited_before.len() implies visited_before[q] != cur by {
                            assert(seen@[q]@ == header_hash_under::<H>(visited_before[q]));
                            if visited_before[q] == cur {
                                assert((#[trigger] seen@[q])@ == hash@);
                            }
                        }
                        assert(visited.no_duplicates()) by {
                            assert forall|i: int, j: int| 0 <= i < visited.len() && 0 <= j < visited.len() && i != j
                                implies visited[i] != visited[j] by {
                                if i < visited_before.len() && j < visited_before.len() {
                                    assert(visited[i] == visited_before[i]);
                                    assert(visited[j] == visited_before[j]);
                                } else if i < visited_before.len() {
                                    assert(visited[i] == visited_before[i]);
                                } else {
                                    assert(visited[j] == visited_before[j]);
                                }
                            }
                        }
                    }
                    assert(reaches_from(e, leaf@, key));
                    assert(on_some_chain(t, cur));
                    assert forall|i: int| 0 <= i < visited.len() implies on_some_chain(t, #[trigger] visited[i]) by {
                        if i < visited_before.len() {
                            assert(visited[i] == visited_before[i]);
                        }
                    }
                    assert(visited.drop_last() =~= visited_before);
                    assert forall|i: int| 0 <= i < visited.len() implies is_stored(e, #[trigger] visited[i]) by {
                        if i < visited_before.len() {
                            assert(visited[i] == visited_before[i]);
                        }
                    }
                    assert forall|v: BlockHeader| #[trigger] visited_before.contains(v) implies visited.contains(v) by {
                        let i = choose|i: int| 0 <= i < visited_before.len() && visited_before[i] == v;
                        assert(visited[i] == v);
                    }
                    assert(visited.contains(cur)) by {
                        assert(visited[visited.len() - 1] == cur);
                    }
                    if hyp {
                        assert forall|i: int| 0 <= i < walk_start implies #[trigger] ancestors_in(e, visited[i], visited) by {
                            assert(visited[i] == visited_before[i]);
                            assert(ancestors_in(e, visited_before[i], visited_before));
                        }
                    }
                }
                let completion = cur.completion.get();
                let mined_by = match completion {
                    Some(c) => eq32(&c.miner_address, &miner),
                    None => false,
                };
                let ghost mined_before = blocks_mined@;
                if mined_by {
                    proof {
                        assert(reaches_from(e, leaf@, key));
                        assert(on_some_chain(t, cur));
                        assert(is_mined_record(t, miner, header_shard_of(cur)));
                    }
                    blocks_mined.push(HeaderShard::from(cur));
                }
                proof {
                    assert(blocks_mined@ == mined_shards(visited, miner));
                    assert forall|x: HeaderShard| mined_before.contains(x) implies blocks_mined@.contains(x) by {
                        let i = choose|i: int| 0 <= i < mined_before.len() && mined_before[i] == x;
                        assert(blocks_mined@[i] == x);
                    }
                    if mined_by {
                        assert(blocks_mined@[blocks_mined@.len() - 1] == header_shard_of(cur));
                    }
                    assert forall|v: BlockHeader| #[trigger] visited.contains(v) implies v == cur || visited_before.contains(v) by {
                        let i = choose|i: int| 0 <= i < visited.len() && visited[i] == v;
                        if i < visited_before.len() {
                            assert(visited_before[i] == v);
                        }
                    }
                    lemma_walk_next(e, leaf@, steps, key, cur);
                    let ghost steps_before = steps;
                    steps = steps + 1;
                    key = cur.previous_hash@;
                    assert forall|i: int| walk_start <= i < visited.len() implies #[trigger] met_at(
                        e,
                        leaf@,
                        i - walk_start,
                        visited[i],
                    ) by {
                        if i < visited_before.len() {
                            assert(visited[i] == visited_before[i]);
                            assert(met_at(e, leaf@, i - walk_start, visited_before[i]));
                        } else {
                            assert((i - walk_start) as nat == steps_before);
                            assert(visited[i] == cur);
                        }
                    }
                }
                next = shard.get_block(&cur.previous_hash);
                proof {
                    if hyp {
                        let j = choose|j: int| 0 <= j < e.len() && (#[trigger] e[j]).1 == cur;
                        assert(lookup(e, e[j].1.previous_hash@) == next);
                    }
                }
            }
            proof {
                if hyp {
                    assert forall|i: int| 0 <= i < visited.len() implies #[trigger] ancestors_in(e, visited[i], visited) by {
                    }
                }
            }
            k = k + 1;
        }
        proof {
            if hyp {
                assert forall|h: BlockHeader|
                    on_some_chain(t, h) && h.completion.fields().miner_address@ == miner@ implies blocks_mined@.contains(
                        #[trigger] header_shard_of(h),
                    ) by {
                    let (j, x) = choose|j: int, x: Seq<u8>|
                        0 <= j < t.leaves@.len() && #[trigger] reaches_from(t.headers@, t.leaves@[j]@, x) && lookup(
                            t.headers@,
                            x,
                        ) == Some(h);
                    assert(reaches_stored(e, t.leaves@[j]@, h));
                    assert(visited.contains(h));
                }
                assert forall|h: BlockHeader| visited.contains(h) <==> on_some_chain(t, h) by {
                    if visited.contains(h) {
                        let i = choose|i: int| 0 <= i < visited.len() && visited[i] == h;
                        assert(on_some_chain(t, visited[i]));
                    }
                    if on_some_chain(t, h) {
                        let (j, x) = choose|j: int, x: Seq<u8>|
                            0 <= j < t.leaves@.len() && #[trigger] reaches_from(t.headers@, t.leaves@[j]@, x) && lookup(
                                t.headers@,
                                x,
                            ) == Some(h);
                        assert(reaches_stored(e, t.leaves@[j]@, h));
                    }
                }
                assert(mined_shards(visited, miner) == blocks_mined@);
            }
        }
        NodeHistory { public_key: miner, blocks_mined, blocks_stamped: Vec::new() }
    }

    /// Records a block mined by the node.
    pub fn settle_miner(&mut self, block: BlockHeader)
        ensures
            final(self).owner() == old(self).owner(),
            final(self).mined() == old(self).mined().push(header_shard_of(block)),
            final(self).stamped() == old(self).stamped(),
    {
        self.blocks_mined.push(HeaderShard::from(block));
    }

    /// Records a block stamped by the node, which must be among the block's
    /// stampers.
    pub fn settle_stampers(&mut self, head: BlockHeader)
        requires
            stamper_addresses(head.tail.stamps@).contains(old(self).owner()@),
        ensures
            final(self).owner() == old(self).owner(),
            final(self).stamped() == old(self).stamped().push(header_shard_of(head)),
            final(self).mined() == old(self).mined(),
    {
        self.blocks_stamped.push(HeaderShard::from(head));
    }

    /// The number of blocks mined by the node.
    pub fn n_blocks_mined(&self) -> (r: usize)
        ensures
            r == self.mined().len(),
    {
        self.blocks_mined.len()
    }

    /// The number of blocks stamped by the node.
    pub fn n_blocks_stamped(&self) -> (r: usize)
        ensures
            r == self.stamped().len(),
    {
        self.blocks_stamped.len()
    }
}

} // verus!
