//! Chain shards: the headers of a chain keyed by their hashes, with the
//! hashes of its leaves. A new node builds and checks a chain from a shard
//! before it asks for the blocks themselves.

use vstd::prelude::*;

use crate::block::BlockHeader;
use crate::block_content::{get_genesis_block, is_genesis_header, lemma_genesis_header_unique};
use crate::bytes::{eq32, StdByteArray};
use crate::errors::QueryError;
use crate::hashing::DefaultHash;
use crate::header::header_valid_at;

verus! {

/// The headers of a chain, each with the hash it is stored under, and the
/// hashes of the chain's leaves.
pub struct ChainShard {
    /// The headers, each with its hash; a hash is looked up at its first entry.
    pub headers: Vec<(StdByteArray, BlockHeader)>,
    /// The hashes of the blocks that no other block follows.
    pub leaves: Vec<StdByteArray>,
}

/// Entry `i` is the first entry stored under `key`.
pub open spec fn is_first_entry(e: Seq<(StdByteArray, BlockHeader)>, key: Seq<u8>, i: int) -> bool {
    &&& 0 <= i < e.len()
    &&& e[i].0@ == key
    &&& forall|j: int| 0 <= j < i ==> (#[trigger] e[j]).0@ != key
}

/// The header stored under `key`: that of its first entry, if any.
pub open spec fn lookup(e: Seq<(StdByteArray, BlockHeader)>, key: Seq<u8>) -> Option<BlockHeader> {
    if exists|i: int| is_first_entry(e, key, i) {
        Some(e[choose|i: int| is_first_entry(e, key, i)].1)
    } else {
        None
    }
}

/// Whether entry `i` of a shard is valid at time `now`: its header is valid
/// against the hash it is stored under; a header at depth 0 is the genesis
/// header (for its own state root, which depends on the initial state); and
/// the previous block is in the shard one level up and not later, or, when
/// it is not in the shard, the header is at depth 0.
pub open spec fn entry_valid_at(e: Seq<(StdByteArray, BlockHeader)>, i: int, now: u64) -> bool {
    let key = e[i].0;
    let h = e[i].1;
    &&& header_valid_at::<DefaultHash>(h, key@, Seq::<u8>::empty(), now)
    &&& h.depth == 0 ==> is_genesis_header(h, h.completion.fields().state_root@)
    &&& match lookup(e, h.previous_hash@) {
        Some(p) => p.depth + 1 == h.depth && h.timestamp >= p.timestamp,
        None => h.depth == 0,
    }
}

/// Exactly one entry of a shard is at depth 0.
pub open spec fn has_single_genesis(e: Seq<(StdByteArray, BlockHeader)>) -> bool {
    exists|i: int|
        0 <= i < e.len() && (#[trigger] e[i]).1.depth == 0 && forall|j: int|
            0 <= j < e.len() && j != i ==> (#[trigger] e[j]).1.depth != 0
}

/// Whether a shard is valid at time `now`: every entry is valid and exactly
/// one is at depth 0.
pub open spec fn shard_valid_at(e: Seq<(StdByteArray, BlockHeader)>, now: u64) -> bool {
    &&& forall|i: int| 0 <= i < e.len() ==> #[trigger] entry_valid_at(e, i, now)
    &&& has_single_genesis(e)
}

/// Every leaf of a shard is stored in it.
pub open spec fn leaves_stored(s: ChainShard) -> bool {
    forall|k: int| 0 <= k < s.leaves@.len() ==> (#[trigger] lookup(s.headers@, s.leaves@[k]@)) is Some
}

/// The depth of the stored leaf `leaf`.
pub open spec fn leaf_depth(s: ChainShard, leaf: StdByteArray) -> u64 {
    lookup(s.headers@, leaf@)->0.depth
}

/// The greatest depth among the first `n` leaves of a shard (0 for none).
pub open spec fn max_leaf_depth(s: ChainShard, n: int) -> u64
    decreases n,
{
    if n <= 0 {
        0
    } else {
        let d = leaf_depth(s, s.leaves@[n - 1]);
        let m = max_leaf_depth(s, n - 1);
        if d > m {
            d
        } else {
            m
        }
    }
}

/// The depth of the deepest leaf of a shard.
pub open spec fn deepest_leaf_depth(s: ChainShard) -> u64 {
    max_leaf_depth(s, s.leaves@.len() as int)
}

/// A fork whose leaf is this many blocks or more behind the deepest leaf is
/// dropped by trimming.
pub const TRIM_DEPTH: u64 = 10;

/// The hash reached from `from` by following `k` previous hashes through the
/// stored headers; `None` once a hash on the way is not stored.
pub open spec fn walk(e: Seq<(StdByteArray, BlockHeader)>, from: Seq<u8>, k: nat) -> Option<Seq<u8>>
    decreases k,
{
    if k == 0 {
        Some(from)
    } else {
        match walk(e, from, (k - 1) as nat) {
            Some(c) => match lookup(e, c) {
                Some(h) => Some(h.previous_hash@),
                None => None,
            },
            None => None,
        }
    }
}

/// Whether `key` is on the chain that ends at `from`: reached from it by
/// following previous hashes, at most once per stored header.
pub open spec fn on_chain_of(e: Seq<(StdByteArray, BlockHeader)>, from: Seq<u8>, key: Seq<u8>) -> bool {
    exists|k: nat| k <= e.len() && #[trigger] walk(e, from, k) == Some(key)
}

/// A leaf survives trimming when it is less than `TRIM_DEPTH` blocks behind
/// the deepest leaf.
pub open spec fn is_kept_leaf(s: ChainShard, leaf: StdByteArray) -> bool {
    leaf_depth(s, leaf) + TRIM_DEPTH > deepest_leaf_depth(s)
}

/// `key` is on the chain of a leaf that survives trimming.
pub open spec fn on_kept_chain(s: ChainShard, key: Seq<u8>) -> bool {
    exists|k: int|
        0 <= k < s.leaves@.len() && is_kept_leaf(s, #[trigger] s.leaves@[k]) && on_chain_of(
            s.headers@,
            s.leaves@[k]@,
            key,
        )
}

/// `key` is on the chain of a leaf that trimming drops.
pub open spec fn on_dropped_chain(s: ChainShard, key: Seq<u8>) -> bool {
    exists|k: int|
        0 <= k < s.leaves@.len() && !is_kept_leaf(s, #[trigger] s.leaves@[k]) && on_chain_of(
            s.headers@,
            s.leaves@[k]@,
            key,
        )
}

/// A header survives trimming unless it is on a dropped fork only: on the
/// chain of a dropped leaf and not on the chain of a kept one.
pub open spec fn survives_trim(s: ChainShard, key: Seq<u8>) -> bool {
    on_kept_chain(s, key) || !on_dropped_chain(s, key)
}

/// Once a walk leaves the stored headers it stays out.
proof fn lemma_walk_stops(e: Seq<(StdByteArray, BlockHeader)>, from: Seq<u8>, k: nat, m: nat)
    requires
        walk(e, from, k) is None,
        k <= m,
    ensures
        walk(e, from, m) is None,
    decreases m - k,
{
    if k < m {
        lemma_walk_stops(e, from, k, (m - 1) as nat);
    }
}

/// Finding the first entry under a key.
proof fn lemma_first_entry_unique(e: Seq<(StdByteArray, BlockHeader)>, key: Seq<u8>, i: int)
    requires
        is_first_entry(e, key, i),
    ensures
        lookup(e, key) == Some(e[i].1),
{
    let c = choose|c: int| is_first_entry(e, key, c);
    if c < i {
        assert(e[c].0@ != key);
    } else if c > i {
        assert(e[i].0@ != key);
    }
}

/// What the header stored under a key is: that of the key's first entry.
proof fn lemma_lookup_entry(e: Seq<(StdByteArray, BlockHeader)>, key: Seq<u8>)
    requires
        lookup(e, key) is Some,
    ensures
        exists|i: int| is_first_entry(e, key, i) && e[i].1 == lookup(e, key)->0,
{
    let i = choose|i: int| is_first_entry(e, key, i);
    assert(is_first_entry(e, key, i));
}

/// In a valid shard every header is valid against the hash it is stored
/// under and not too far in the future; a header at depth 0 is the genesis
/// header and has no parent in the shard; every other header has its parent
/// in the shard, one level up, with a timestamp no later than its own.
pub proof fn lemma_valid_shard_entry(e: Seq<(StdByteArray, BlockHeader)>, now: u64, i: int)
    requires
        shard_valid_at(e, now),
        0 <= i < e.len(),
    ensures
        header_valid_at::<DefaultHash>(e[i].1, e[i].0@, Seq::<u8>::empty(), now),
        e[i].1.depth == 0 ==> is_genesis_header(e[i].1, e[i].1.completion.fields().state_root@),
        e[i].1.depth == 0 <==> lookup(e, e[i].1.previous_hash@) is None,
        lookup(e, e[i].1.previous_hash@) matches Some(p) ==> p.depth + 1 == e[i].1.depth && p.timestamp
            <= e[i].1.timestamp,
{
    assert(entry_valid_at(e, i, now));
}

/// A valid shard has exactly one header at depth 0, and a shard is valid
/// exactly when every entry is as `lemma_valid_shard_entry` describes and
/// exactly one is at depth 0.
pub proof fn lemma_shard_valid_iff(e: Seq<(StdByteArray, BlockHeader)>, now: u64)
    ensures
        shard_valid_at(e, now) <==> {
            &&& forall|i: int|
                0 <= i < e.len() ==> {
                    &&& header_valid_at::<DefaultHash>((#[trigger] e[i]).1, e[i].0@, Seq::<u8>::empty(), now)
                    &&& e[i].1.depth == 0 ==> is_genesis_header(e[i].1, e[i].1.completion.fields().state_root@)
                    &&& e[i].1.depth == 0 <==> lookup(e, e[i].1.previous_hash@) is None
                    &&& lookup(e, e[i].1.previous_hash@) matches Some(p) ==> p.depth + 1 == e[i].1.depth
                        && p.timestamp <= e[i].1.timestamp
                }
            &&& exists|g: int|
                0 <= g < e.len() && (#[trigger] e[g]).1.depth == 0 && forall|j: int|
                    0 <= j < e.len() && (#[trigger] e[j]).1.depth == 0 ==> j == g
        },
{
    if shard_valid_at(e, now) {
        assert forall|i: int| 0 <= i < e.len() implies {
            &&& header_valid_at::<DefaultHash>((#[trigger] e[i]).1, e[i].0@, Seq::<u8>::empty(), now)
            &&& e[i].1.depth == 0 ==> is_genesis_header(e[i].1, e[i].1.completion.fields().state_root@)
            &&& e[i].1.depth == 0 <==> lookup(e, e[i].1.previous_hash@) is None
            &&& lookup(e, e[i].1.previous_hash@) matches Some(p) ==> p.depth + 1 == e[i].1.depth && p.timestamp
                <= e[i].1.timestamp
        } by {
            lemma_valid_shard_entry(e, now, i);
        }
        let g = choose|g: int|
            0 <= g < e.len() && (#[trigger] e[g]).1.depth == 0 && forall|j: int|
                0 <= j < e.len() && j != g ==> (#[trigger] e[j]).1.depth != 0;
        assert(e[g].1.depth == 0);
    } else {
        if forall|i: int|
            0 <= i < e.len() ==> {
                &&& header_valid_at::<DefaultHash>((#[trigger] e[i]).1, e[i].0@, Seq::<u8>::empty(), now)
                &&& e[i].1.depth == 0 ==> is_genesis_header(e[i].1, e[i].1.completion.fields().state_root@)
                &&& e[i].1.depth == 0 <==> lookup(e, e[i].1.previous_hash@) is None
                &&& lookup(e, e[i].1.previous_hash@) matches Some(p) ==> p.depth + 1 == e[i].1.depth
                    && p.timestamp <= e[i].1.timestamp
            } {
            assert forall|i: int| 0 <= i < e.len() implies #[trigger] entry_valid_at(e, i, now) by {
                assert(header_valid_at::<DefaultHash>(e[i].1, e[i].0@, Seq::<u8>::empty(), now));
            }
            if exists|g: int|
                0 <= g < e.len() && (#[trigger] e[g]).1.depth == 0 && forall|j: int|
                    0 <= j < e.len() && (#[trigger] e[j]).1.depth == 0 ==> j == g {
                let g = choose|g: int|
                    0 <= g < e.len() && (#[trigger] e[g]).1.depth == 0 && forall|j: int|
                        0 <= j < e.len() && (#[trigger] e[j]).1.depth == 0 ==> j == g;
                assert forall|j: int| 0 <= j < e.len() && j != g implies (#[trigger] e[j]).1.depth != 0 by {}
                assert(has_single_genesis(e));
            }
        }
    }
}

/// In a valid shard, following previous hashes `k` times from a stored
/// header reaches, when it reaches a stored header, one exactly `k` levels
/// up whose timestamp is no later: depths fall by one and timestamps never
/// rise along every chain.
pub proof fn lemma_valid_shard_ancestors(
    e: Seq<(StdByteArray, BlockHeader)>,
    now: u64,
    key: Seq<u8>,
    k: nat,
    c: Seq<u8>,
)
    requires
        shard_valid_at(e, now),
        lookup(e, key) is Some,
        walk(e, key, k) == Some(c),
        lookup(e, c) is Some,
    ensures
        lookup(e, c)->0.depth + k == lookup(e, key)->0.depth,
        lookup(e, c)->0.timestamp <= lookup(e, key)->0.timestamp,
    decreases k,
{
    if k > 0 {
        let prev = walk(e, key, (k - 1) as nat);
        let c1 = prev->0;
        assert(lookup(e, c1) is Some);
        lemma_valid_shard_ancestors(e, now, key, (k - 1) as nat, c1);
        let h1 = lookup(e, c1)->0;
        assert(c == h1.previous_hash@);
        lemma_lookup_entry(e, c1);
        let j = choose|j: int| is_first_entry(e, c1, j) && e[j].1 == lookup(e, c1)->0;
        lemma_valid_shard_entry(e, now, j);
    }
}

impl ChainShard {
    /// The header stored under `hash`.
    pub fn get_block(&self, hash: &StdByteArray) -> (r: Option<BlockHeader>)
        ensures
            r == lookup(self.headers@, hash@),
    {
        let mut i: usize = 0;
        while i < self.headers.len()
            invariant
                0 <= i <= self.headers@.len(),
                forall|j: int| 0 <= j < i ==> (#[trigger] self.headers@[j]).0@ != hash@,
            decreases self.headers@.len() - i,
        {
            if eq32(&self.headers[i].0, hash) {
                proof {
                    lemma_first_entry_unique(self.headers@, hash@, i as int);
                }
                return Some(self.headers[i].1);
            }
            i = i + 1;
        }
        proof {
            if exists|c: int| is_first_entry(self.headers@, hash@, c) {
                let c = choose|c: int| is_first_entry(self.headers@, hash@, c);
                assert(self.headers@[c].0@ != hash@);
            }
        }
        None
    }

    /// Whether the shard is valid at time `now`: the hashes and depths work
    /// out, the headers are valid, and there is exactly one genesis header.
    pub fn validate_at(&self, now: u64) -> (r: bool)
        ensures
            r == shard_valid_at(self.headers@, now),
    {
        let ghost e = self.headers@;
        let mut genesis_found = false;
        let mut i: usize = 0;
        while i < self.headers.len()
            invariant
                e == self.headers@,
                0 <= i <= e.len(),
                forall|j: int| 0 <= j < i ==> #[trigger] entry_valid_at(e, j, now),
                genesis_found <==> exists|j: int| 0 <= j < i && (#[trigger] e[j]).1.depth == 0,
                forall|j1: int, j2: int|
                    0 <= j1 < j2 < i && (#[trigger] e[j1]).1.depth == 0 ==> (#[trigger] e[j2]).1.depth != 0,
            decreases e.len() - i,
        {
            let key = self.headers[i].0;
            let header = self.headers[i].1;
            if header.depth == 0 {
                if genesis_found {
                    proof {
                        let j = choose|j: int| 0 <= j < i && (#[trigger] e[j]).1.depth == 0;
                        if has_single_genesis(e) {
                            let g = choose|g: int|
                                0 <= g < e.len() && (#[trigger] e[g]).1.depth == 0 && forall|m: int|
                                    0 <= m < e.len() && m != g ==> (#[trigger] e[m]).1.depth != 0;
                            assert(e[j].1.depth == 0);
                            assert(e[i as int].1.depth == 0);
                        }
                    }
                    return false;
                }
                let state_root = match header.completion.get() {
                    Some(c) => c.state_root,
                    None => {
                        assert(!entry_valid_at(e, i as int, now));
                        return false;
                    },
                };
                let genesis = get_genesis_block(Some(state_root));
                if !(header == genesis.header) {
                    proof {
                        if is_genesis_header(header, header.completion.fields().state_root@) {
                            lemma_genesis_header_unique(header, genesis.header, state_root@);
                        }
                        assert(!entry_valid_at(e, i as int, now));
                    }
                    return false;
                }
                genesis_found = true;
            }
            let valid_header = match header.validate_at(key, &mut DefaultHash::new(), now) {
                Ok(()) => true,
                Err(_) => false,
            };
            if !valid_header {
                assert(!entry_valid_at(e, i as int, now));
                return false;
            }
            let previous = self.get_block(&header.previous_hash);
            let linked = match previous {
                Some(p) => p.depth < header.depth && header.depth - p.depth == 1 && header.timestamp
                    >= p.timestamp,
                None => header.depth == 0,
            };
            if !linked {
                assert(!entry_valid_at(e, i as int, now));
                return false;
            }
            assert(entry_valid_at(e, i as int, now));
            i = i + 1;
        }
        proof {
            if genesis_found {
                let j = choose|j: int| 0 <= j < i && (#[trigger] e[j]).1.depth == 0;
                assert forall|m: int| 0 <= m < e.len() && m != j implies (#[trigger] e[m]).1.depth != 0 by {
                    if m < j {
                        assert(e[m].1.depth != 0 || e[j].1.depth != 0);
                    }
                }
                assert(has_single_genesis(e));
            } else {
                if has_single_genesis(e) {
                    let g = choose|g: int|
                        0 <= g < e.len() && (#[trigger] e[g]).1.depth == 0 && forall|m: int|
                            0 <= m < e.len() && m != g ==> (#[trigger] e[m]).1.depth != 0;
                    assert(e[g].1.depth == 0);
                }
            }
        }
        genesis_found
    }

    /// Whether the shard is valid now, by the system clock; see `validate_at`.
    pub fn validate(&self) -> (r: bool)
        ensures
            exists|now: u64| r == #[trigger] shard_valid_at(self.headers@, now),
    {
        let now = crate::clock::unix_time_now();
        self.validate_at(now)
    }

    /// The depth of the deepest leaf.
    pub fn deepest_depth(&self) -> (r: u64)
        requires
            leaves_stored(*self),
        ensures
            r == deepest_leaf_depth(*self),
    {
        let mut best: u64 = 0;
        let mut k: usize = 0;
        while k < self.leaves.len()
            invariant
                0 <= k <= self.leaves@.len(),
                leaves_stored(*self),
                best == max_leaf_depth(*self, k as int),
            decreases self.leaves@.len() - k,
        {
            let header = self.get_block(&self.leaves[k]);
            assert(lookup(self.headers@, self.leaves@[k as int]@) is Some);
            let d = match header {
                Some(h) => h.depth,
                None => 0,
            };
            if d > best {
                best = d;
            }
            k = k + 1;
        }
        best
    }
}

impl ChainShard {
    /// The hashes on the chain that ends at `from`, from `from` back, at most
    /// one more than the number of stored headers.
    fn chain_of(&self, from: &StdByteArray) -> (r: Vec<StdByteArray>)
        ensures
            forall|key: Seq<u8>|
                #![trigger on_chain_of(self.headers@, from@, key)]
                on_chain_of(self.headers@, from@, key) <==> exists|j: int|
                    0 <= j < r@.len() && (#[trigger] r@[j])@ == key,
    {
        let ghost e = self.headers@;
        let n = self.headers.len();
        let mut out: Vec<StdByteArray> = Vec::new();
        let mut cur: StdByteArray = *from;
        out.push(cur);
        let mut i: usize = 0;
        let mut stopped = false;
        while i < n && !stopped
            invariant
                e == self.headers@,
                n == e.len(),
                0 <= i <= n,
                out@.len() == i + 1,
                forall|j: int| 0 <= j <= i ==> walk(e, from@, j as nat) == Some((#[trigger] out@[j])@),
                cur@ == out@[i as int]@,
                stopped ==> walk(e, from@, (i + 1) as nat) is None,
            decreases n - i, if stopped { 0int } else { 1int },
        {
            match self.get_block(&cur) {
                Some(h) => {
                    cur = h.previous_hash;
                    out.push(cur);
                    i = i + 1;
                },
                None => {
                    stopped = true;
                },
            }
        }
        proof {
            assert forall|key: Seq<u8>|
                #![trigger on_chain_of(self.headers@, from@, key)]
                on_chain_of(self.headers@, from@, key) implies exists|j: int|
                    0 <= j < out@.len() && (#[trigger] out@[j])@ == key by {
                let k = choose|k: nat| k <= e.len() && #[trigger] walk(e, from@, k) == Some(key);
                if k > i {
                    lemma_walk_stops(e, from@, (i + 1) as nat, k);
                }
                assert(out@[k as int]@ == key);
            }
            assert forall|key: Seq<u8>|
                (exists|j: int| 0 <= j < out@.len() && (#[trigger] out@[j])@ == key) implies on_chain_of(
                self.headers@,
                from@,
                key,
            ) by {
                let j = choose|j: int| 0 <= j < out@.len() && (#[trigger] out@[j])@ == key;
                assert(walk(e, from@, j as nat) == Some(key));
            }
        }
        out
    }

    /// Drops the forks that fell behind: every leaf `TRIM_DEPTH` or more
    /// blocks behind the deepest leaf is removed, with the headers of its
    /// chain that no remaining leaf's chain shares. The order of what remains
    /// is kept.
    pub fn trim(&mut self)
        requires
            leaves_stored(*old(self)),
        ensures
            final(self).leaves@ == old(self).leaves@.filter(|l: StdByteArray| is_kept_leaf(*old(self), l)),
            final(self).headers@ == old(self).headers@.filter(
                |entry: (StdByteArray, BlockHeader)| survives_trim(*old(self), entry.0@),
            ),
    {
        let ghost s = *self;
        let deepest = self.deepest_depth();
        let mut kept: Vec<StdByteArray> = Vec::new();
        let mut kept_chains: Vec<Vec<StdByteArray>> = Vec::new();
        let mut dropped_chains: Vec<Vec<StdByteArray>> = Vec::new();
        let mut k: usize = 0;
        while k < self.leaves.len()
            invariant
                s == *self,
                leaves_stored(s),
                deepest == deepest_leaf_depth(s),
                0 <= k <= s.leaves@.len(),
                kept@ == s.leaves@.subrange(0, k as int).filter(|l: StdByteArray| is_kept_leaf(s, l)),
                forall|key: Seq<u8>| #[trigger] leaf_chains_hold(s, k as int, true, key) <==> chains_hold(kept_chains@, key),
                forall|key: Seq<u8>| #[trigger] leaf_chains_hold(s, k as int, false, key) <==> chains_hold(dropped_chains@, key),
            decreases s.leaves@.len() - k,
        {
            let leaf = self.leaves[k];
            assert(lookup(s.headers@, s.leaves@[k as int]@) is Some);
            let d = match self.get_block(&leaf) {
                Some(h) => h.depth,
                None => 0,
            };
            let chain = self.chain_of(&leaf);
            proof {
                reveal_with_fuel(Seq::filter, 1);
                assert(s.leaves@.subrange(0, k + 1).drop_last() =~= s.leaves@.subrange(0, k as int));
            }
            assert(d == leaf_depth(s, leaf));
            assert(d <= deepest) by {
                lemma_leaf_depth_le_deepest(s, k as int);
            }
            let ghost old_kept = kept_chains@;
            let ghost old_dropped = dropped_chains@;
            let keep = deepest - d < TRIM_DEPTH;
            if keep {
                kept.push(leaf);
                kept_chains.push(chain);
            } else {
                dropped_chains.push(chain);
            }
            proof {
                assert(keep == is_kept_leaf(s, s.leaves@[k as int]));
                if keep {
                    assert(kept_chains@.drop_last() =~= old_kept);
                } else {
                    assert(dropped_chains@.drop_last() =~= old_dropped);
                }
                lemma_chains_step(s, k as int, true, chain@, old_kept, kept_chains@);
                lemma_chains_step(s, k as int, false, chain@, old_dropped, dropped_chains@);
            }
            k = k + 1;
        }
        assert(s.leaves@.subrange(0, s.leaves@.len() as int) =~= s.leaves@);
        assert forall|key: Seq<u8>| #[trigger] on_kept_chain(s, key) <==> leaf_chains_hold(s, s.leaves@.len() as int, true, key) by {}
        assert forall|key: Seq<u8>| #[trigger] on_dropped_chain(s, key) <==> leaf_chains_hold(s, s.leaves@.len() as int, false, key) by {}
        let mut headers: Vec<(StdByteArray, BlockHeader)> = Vec::new();
        let mut i: usize = 0;
        while i < self.headers.len()
            invariant
                s == *self,
                0 <= i <= s.headers@.len(),
                headers@ == s.headers@.subrange(0, i as int).filter(
                    |entry: (StdByteArray, BlockHeader)| survives_trim(s, entry.0@),
                ),
                forall|key: Seq<u8>| #[trigger] on_kept_chain(s, key) <==> chains_hold(kept_chains@, key),
                forall|key: Seq<u8>| #[trigger] on_dropped_chain(s, key) <==> chains_hold(dropped_chains@, key),
            decreases s.headers@.len() - i,
        {
            let entry = self.headers[i];
            let in_kept = chains_contain(&kept_chains, &entry.0);
            let in_dropped = chains_contain(&dropped_chains, &entry.0);
            proof {
                reveal_with_fuel(Seq::filter, 1);
                assert(s.headers@.subrange(0, i + 1).drop_last() =~= s.headers@.subrange(0, i as int));
                assert(on_kept_chain(s, entry.0@) == in_kept);
                assert(on_dropped_chain(s, entry.0@) == in_dropped);
            }
            if in_kept || !in_dropped {
                headers.push(entry);
            }
            i = i + 1;
        }
        assert(s.headers@.subrange(0, s.headers@.len() as int) =~= s.headers@);
        self.headers = headers;
        self.leaves = kept;
    }
}

/// Some chain of `chains` holds `key`.
pub open spec fn chains_hold(chains: Seq<Vec<StdByteArray>>, key: Seq<u8>) -> bool {
    exists|c: int, m: int| 0 <= c < chains.len() && 0 <= m < chains[c]@.len() && (#[trigger] chains[c]@[m])@ == key
}

/// The chain of one of the first `k` leaves, among those kept (or dropped)
/// by trimming, holds `key`.
pub open spec fn leaf_chains_hold(s: ChainShard, k: int, kept: bool, key: Seq<u8>) -> bool {
    exists|j: int|
        0 <= j < k && is_kept_leaf(s, #[trigger] s.leaves@[j]) == kept && on_chain_of(
            s.headers@,
            s.leaves@[j]@,
            key,
        )
}

/// Adding the chain of leaf `k` to the kept or to the dropped chains: the
/// chains of the class `which` (kept or dropped) of the first `k + 1` leaves
/// are those held.
proof fn lemma_chains_step(
    s: ChainShard,
    k: int,
    which: bool,
    chain: Seq<StdByteArray>,
    old_chains: Seq<Vec<StdByteArray>>,
    new_chains: Seq<Vec<StdByteArray>>,
)
    requires
        0 <= k < s.leaves@.len(),
        forall|key: Seq<u8>|
            #![trigger on_chain_of(s.headers@, s.leaves@[k]@, key)]
            on_chain_of(s.headers@, s.leaves@[k]@, key) <==> exists|j: int|
                0 <= j < chain.len() && (#[trigger] chain[j])@ == key,
        forall|key: Seq<u8>|
            #[trigger] leaf_chains_hold(s, k, which, key) <==> chains_hold(old_chains, key),
        is_kept_leaf(s, s.leaves@[k]) == which ==> new_chains.len() == old_chains.len() + 1
            && new_chains.drop_last() == old_chains && new_chains.last()@ == chain,
        is_kept_leaf(s, s.leaves@[k]) != which ==> new_chains == old_chains,
    ensures
        forall|key: Seq<u8>|
            #[trigger] leaf_chains_hold(s, k + 1, which, key) <==> chains_hold(new_chains, key),
{
    assert forall|key: Seq<u8>| #[trigger] leaf_chains_hold(s, k + 1, which, key) implies chains_hold(
        new_chains,
        key,
    ) by {
        let j = choose|j: int|
            0 <= j < k + 1 && is_kept_leaf(s, #[trigger] s.leaves@[j]) == which && on_chain_of(
                s.headers@,
                s.leaves@[j]@,
                key,
            );
        if j == k {
            assert(on_chain_of(s.headers@, s.leaves@[k]@, key));
            let m = choose|m: int| 0 <= m < chain.len() && (#[trigger] chain[m])@ == key;
            assert(new_chains[old_chains.len() as int]@ == chain);
            assert(new_chains[old_chains.len() as int]@[m]@ == key);
        } else {
            assert(leaf_chains_hold(s, k, which, key));
            assert(chains_hold(old_chains, key));
            let (c, m) = choose|c: int, m: int|
                0 <= c < old_chains.len() && 0 <= m < old_chains[c]@.len() && (#[trigger] old_chains[c]@[m])@
                    == key;
            assert(new_chains[c] == old_chains[c]);
            assert(new_chains[c]@[m]@ == key);
        }
    }
    assert forall|key: Seq<u8>| #[trigger] chains_hold(new_chains, key) implies leaf_chains_hold(
        s,
        k + 1,
        which,
        key,
    ) by {
        let (c, m) = choose|c: int, m: int|
            0 <= c < new_chains.len() && 0 <= m < new_chains[c]@.len() && (#[trigger] new_chains[c]@[m])@
                == key;
        if is_kept_leaf(s, s.leaves@[k]) == which && c == old_chains.len() {
            assert(chain[m]@ == key);
            assert(on_chain_of(s.headers@, s.leaves@[k]@, key));
        } else {
            assert(old_chains[c] == new_chains[c]);
            assert(old_chains[c]@[m]@ == key);
            assert(chains_hold(old_chains, key));
            assert(leaf_chains_hold(s, k, which, key));
            let j = choose|j: int|
                0 <= j < k && is_kept_leaf(s, #[trigger] s.leaves@[j]) == which && on_chain_of(
                    s.headers@,
                    s.leaves@[j]@,
                    key,
                );
            assert(0 <= j < k + 1);
        }
    }
}

/// Whether some chain of `chains` holds `key`.
fn chains_contain(chains: &Vec<Vec<StdByteArray>>, key: &StdByteArray) -> (r: bool)
    ensures
        r == chains_hold(chains@, key@),
{
    let mut c: usize = 0;
    while c < chains.len()
        invariant
            0 <= c <= chains@.len(),
            forall|c2: int, m: int|
                0 <= c2 < c && 0 <= m < chains@[c2]@.len() ==> (#[trigger] chains@[c2]@[m])@ != key@,
        decreases chains@.len() - c,
    {
        let chain = &chains[c];
        let mut m: usize = 0;
        while m < chain.len()
            invariant
                0 <= c < chains@.len(),
                0 <= m <= chain@.len(),
                chain@ == chains@[c as int]@,
                forall|m2: int| 0 <= m2 < m ==> (#[trigger] chain@[m2])@ != key@,
            decreases chain@.len() - m,
        {
            if eq32(&chain[m], key) {
                assert(chains@[c as int]@[m as int]@ == key@);
                return true;
            }
            m = m + 1;
        }
        c = c + 1;
    }
    false
}

/// Some leaf is as deep as the deepest depth.
proof fn lemma_max_leaf_attained(s: ChainShard, n: int)
    requires
        0 < n <= s.leaves@.len(),
    ensures
        exists|k: int| 0 <= k < n && leaf_depth(s, #[trigger] s.leaves@[k]) == max_leaf_depth(s, n),
    decreases n,
{
    if n > 1 {
        lemma_max_leaf_attained(s, n - 1);
        let d = leaf_depth(s, s.leaves@[n - 1]);
        if d <= max_leaf_depth(s, n - 1) {
            let k = choose|k: int| 0 <= k < n - 1 && leaf_depth(s, #[trigger] s.leaves@[k]) == max_leaf_depth(s, n - 1);
            assert(0 <= k < n);
        } else {
            assert(leaf_depth(s, s.leaves@[n - 1]) == max_leaf_depth(s, n));
        }
    } else {
        assert(max_leaf_depth(s, 0) == 0);
        assert(leaf_depth(s, s.leaves@[0]) == max_leaf_depth(s, 1));
    }
}

/// Trimming keeps the longest chain: a shard with leaves keeps a leaf as deep
/// as its deepest one, and every header on that leaf's chain.
pub proof fn lemma_trim_keeps_deepest(s: ChainShard)
    requires
        s.leaves@.len() > 0,
    ensures
        exists|k: int|
            {
                &&& 0 <= k < s.leaves@.len()
                &&& leaf_depth(s, #[trigger] s.leaves@[k]) == deepest_leaf_depth(s)
                &&& s.leaves@.filter(|l: StdByteArray| is_kept_leaf(s, l)).contains(s.leaves@[k])
                &&& forall|key: Seq<u8>| on_chain_of(s.headers@, s.leaves@[k]@, key) ==> #[trigger] survives_trim(s, key)
            },
{
    lemma_max_leaf_attained(s, s.leaves@.len() as int);
    let k = choose|k: int|
        0 <= k < s.leaves@.len() && leaf_depth(s, #[trigger] s.leaves@[k]) == max_leaf_depth(
            s,
            s.leaves@.len() as int,
        );
    let pred = |l: StdByteArray| is_kept_leaf(s, l);
    assert(is_kept_leaf(s, s.leaves@[k]));
    s.leaves@.filter_lemma(pred);
    assert forall|key: Seq<u8>| on_chain_of(s.headers@, s.leaves@[k]@, key) implies #[trigger] survives_trim(
        s,
        key,
    ) by {
        assert(on_kept_chain(s, key));
    }
}

/// The deepest leaf depth is the greatest depth of a leaf, and trimming
/// keeps exactly the leaves fewer than 10 blocks behind it: the deepest
/// leaves are kept, and a leaf 10 or more blocks behind is dropped.
pub proof fn lemma_trim_threshold(s: ChainShard, k: int)
    requires
        0 <= k < s.leaves@.len(),
    ensures
        leaf_depth(s, s.leaves@[k]) <= deepest_leaf_depth(s),
        exists|m: int| 0 <= m < s.leaves@.len() && leaf_depth(s, #[trigger] s.leaves@[m]) == deepest_leaf_depth(s),
        is_kept_leaf(s, s.leaves@[k]) <==> leaf_depth(s, s.leaves@[k]) + 10 > deepest_leaf_depth(s),
        leaf_depth(s, s.leaves@[k]) == deepest_leaf_depth(s) ==> is_kept_leaf(s, s.leaves@[k]),
{
    lemma_leaf_depth_le_deepest(s, k);
    lemma_max_leaf_attained(s, s.leaves@.len() as int);
    let m = choose|m: int|
        0 <= m < s.leaves@.len() && leaf_depth(s, #[trigger] s.leaves@[m]) == max_leaf_depth(s, s.leaves@.len() as int);
    assert(leaf_depth(s, s.leaves@[m]) == deepest_leaf_depth(s));
}

/// The depth of each leaf is at most that of the deepest leaf.
proof fn lemma_leaf_depth_le_deepest(s: ChainShard, k: int)
    requires
        0 <= k < s.leaves@.len(),
    ensures
        leaf_depth(s, s.leaves@[k]) <= deepest_leaf_depth(s),
{
    lemma_leaf_depth_le_max(s, k, s.leaves@.len() as int);
}

proof fn lemma_leaf_depth_le_max(s: ChainShard, k: int, n: int)
    requires
        0 <= k < n,
    ensures
        leaf_depth(s, s.leaves@[k]) <= max_leaf_depth(s, n),
    decreases n,
{
    if k < n - 1 {
        lemma_leaf_depth_le_max(s, k, n - 1);
    }
}

impl Clone for ChainShard {
    fn clone(&self) -> (r: Self)
        ensures
            r.headers@ == self.headers@,
            r.leaves@ == self.leaves@,
    {
        let mut headers: Vec<(StdByteArray, BlockHeader)> = Vec::new();
        let mut i: usize = 0;
        while i < self.headers.len()
            invariant
                0 <= i <= self.headers@.len(),
                headers@ == self.headers@.subrange(0, i as int),
            decreases self.headers@.len() - i,
        {
            headers.push(self.headers[i]);
            i = i + 1;
            assert(headers@ =~= self.headers@.subrange(0, i as int));
        }
        let mut leaves: Vec<StdByteArray> = Vec::new();
        let mut k: usize = 0;
        while k < self.leaves.len()
            invariant
                0 <= k <= self.leaves@.len(),
                leaves@ == self.leaves@.subrange(0, k as int),
            decreases self.leaves@.len() - k,
        {
            leaves.push(self.leaves[k]);
            k = k + 1;
            assert(leaves@ =~= self.leaves@.subrange(0, k as int));
        }
        assert(headers@ =~= self.headers@);
        assert(leaves@ =~= self.leaves@);
        ChainShard { headers, leaves }
    }
}

/// The deepest of the shards: the one whose deepest leaf is deepest, the last
/// such one when several are equally deep. Fails with `NoReply` when there is
/// no shard.
pub fn deepest_shard(shards: &[ChainShard]) -> (r: Result<ChainShard, QueryError>)
    requires
        forall|i: int| 0 <= i < shards@.len() ==> leaves_stored(#[trigger] shards@[i]),
    ensures
        shards@.len() == 0 <==> r is Err,
        r matches Err(e) ==> e is NoReply,
        r matches Ok(s) ==> exists|i: int|
            {
                &&& 0 <= i < shards@.len()
                &&& s.headers@ == (#[trigger] shards@[i]).headers@
                &&& s.leaves@ == shards@[i].leaves@
                &&& forall|j: int|
                    0 <= j < shards@.len() ==> deepest_leaf_depth(#[trigger] shards@[j]) <= deepest_leaf_depth(
                        shards@[i],
                    )
                &&& forall|j: int|
                    i < j < shards@.len() ==> deepest_leaf_depth(#[trigger] shards@[j]) < deepest_leaf_depth(
                        shards@[i],
                    )
            },
{
    if shards.len() == 0 {
        return Err(QueryError::NoReply);
    }
    let mut best: usize = 0;
    let mut best_depth: u64 = shards[0].deepest_depth();
    let mut i: usize = 1;
    while i < shards.len()
        invariant
            1 <= i <= shards@.len(),
            0 <= best < i,
            forall|m: int| 0 <= m < shards@.len() ==> leaves_stored(#[trigger] shards@[m]),
            best_depth == deepest_leaf_depth(shards@[best as int]),
            forall|j: int| 0 <= j < i ==> deepest_leaf_depth(#[trigger] shards@[j]) <= best_depth,
            forall|j: int| best < j < i ==> deepest_leaf_depth(#[trigger] shards@[j]) < best_depth,
        decreases shards@.len() - i,
    {
        let d = shards[i].deepest_depth();
        if d >= best_depth {
            best = i;
            best_depth = d;
        }
        i = i + 1;
    }
    let s = shards[best].clone();
    assert(s.headers@ == shards@[best as int].headers@);
    Ok(s)
}

} // verus!
