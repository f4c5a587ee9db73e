//! The state trie: a Merkle trie keyed by the nibbles of the SHA3-256 hash
//! of a key, holding encoded values at depth 64.
//!
//! The trie has several roots, one per state (competing chain tips each have
//! their own). A new root is made by branching from an existing one: the
//! nodes on the paths of the updated keys are copied, and everything else is
//! shared with the origin. Nodes live in an arena of slots; a freed slot is
//! empty.
//!
//! The model: from a node, a path of nibbles leads to the node it reaches (if
//! every step has a child), and the state of a root maps each path to the
//! value stored at the node that the path reaches. Every node sits at one
//! position, the path that leads to it from any root, which is what makes a
//! change at one node touch one path of a state.

use vstd::prelude::*;
use core::marker::PhantomData;

use crate::bytes::{eq32, StdByteArray};
use crate::crypto::sha3_256_digest;
use crate::hashing::{DefaultHash, HashFunction, Hashable};
use crate::serialize::PillarSerialize;
use crate::trie_proof::{
    first_level_input, level_bytes, level_input, native_before, siblings_bytes, siblings_sorted, slot_bytes,
    trie_value, value_bytes, value_index, well_formed_proof, ProofStep, TrieMerkleProof,
};

verus! {

/// Why a trie operation was refused.
#[derive(Debug, Clone, Copy, PartialEq, Eq)]
pub enum TrieError {
    /// The trie already has a genesis root, or the key already has a value.
    AlreadyExists,
    /// The root asked for is not in the trie.
    NotFound,
    /// A branch was asked for with no updates.
    EmptyUpdates,
}

/// A node of the trie: a child slot per nibble, an optional encoded value,
/// and a count of the references to it.
pub struct TrieNode {
    pub(crate) references: u16,
    pub(crate) children: [Option<usize>; 16],
    pub(crate) value: Option<Vec<u8>>,
}

/// A Merkle trie from keys `K` to values `V`, with several roots.
pub struct MerkleTrie<K, V> {
    nodes: Vec<Option<TrieNode>>,
    roots: Vec<(StdByteArray, usize)>,
    positions: Ghost<Seq<Seq<u8>>>,
    keys: PhantomData<K>,
    values: PhantomData<V>,
}

// ---------------------------------------------------------------------------
// The model over the arena of slots.

/// Slot `n` holds a node.
pub closed spec fn live(nodes: Seq<Option<TrieNode>>, n: int) -> bool {
    0 <= n < nodes.len() && nodes[n] is Some
}

/// The child of the node in slot `n` under nibble `i`.
pub closed spec fn child(nodes: Seq<Option<TrieNode>>, n: int, i: int) -> Option<usize> {
    if live(nodes, n) && 0 <= i < 16 {
        nodes[n]->0.children@[i]
    } else {
        None
    }
}

/// The value bytes held by the node in slot `n`.
pub closed spec fn value_of(nodes: Seq<Option<TrieNode>>, n: int) -> Option<Seq<u8>> {
    if live(nodes, n) {
        match nodes[n]->0.value {
            Some(v) => Some(v@),
            None => None,
        }
    } else {
        None
    }
}

/// The slot reached from slot `n` by following `path`, if every step has a
/// child that holds a node.
pub closed spec fn reach(nodes: Seq<Option<TrieNode>>, n: int, path: Seq<u8>) -> Option<int>
    decreases path.len(),
{
    if !live(nodes, n) {
        None
    } else if path.len() == 0 {
        Some(n)
    } else {
        match child(nodes, n, path[0] as int) {
            Some(c) => reach(nodes, c as int, path.drop_first()),
            None => None,
        }
    }
}

/// The value found from slot `n` at `path`.
pub closed spec fn lookup(nodes: Seq<Option<TrieNode>>, n: int, path: Seq<u8>) -> Option<Seq<u8>> {
    match reach(nodes, n, path) {
        Some(m) => value_of(nodes, m),
        None => None,
    }
}

/// Two slots hold the same thing, reference counts aside.
pub closed spec fn same_node(a: Option<TrieNode>, b: Option<TrieNode>) -> bool {
    &&& a is Some <==> b is Some
    &&& a is Some ==> a->0.children == b->0.children
    &&& a is Some ==> match (a->0.value, b->0.value) {
        (Some(x), Some(y)) => x@ == y@,
        (None, None) => true,
        _ => false,
    }
}

/// Every child link of a node below `bound` points below `bound`.
pub closed spec fn closed_below(nodes: Seq<Option<TrieNode>>, bound: int) -> bool {
    forall|m: int, i: int|
        0 <= m < bound && (#[trigger] child(nodes, m, i)) is Some ==> (child(nodes, m, i)->0 as int)
            < bound
}

/// The arena is well formed under the positions `pos`: links point into the
/// arena, a child sits one nibble below its parent, and no position is longer
/// than a key path.
pub closed spec fn arena_wf(nodes: Seq<Option<TrieNode>>, pos: Seq<Seq<u8>>) -> bool {
    &&& pos.len() == nodes.len()
    &&& forall|n: int, i: int|
        (#[trigger] child(nodes, n, i)) is Some ==> (child(nodes, n, i)->0 as int) < nodes.len()
            && pos[child(nodes, n, i)->0 as int] == pos[n].push(i as u8)
    &&& forall|n: int| 0 <= n < pos.len() ==> (#[trigger] pos[n]).len() <= 64
}

/// The nibbles of a byte string: high nibble first, then low.
pub open spec fn nibbles_of(d: Seq<u8>) -> Seq<u8> {
    Seq::new(
        2 * d.len(),
        |i: int|
            if i % 2 == 0 {
                d[i / 2] >> 4u8
            } else {
                d[i / 2] & 15u8
            },
    )
}

/// The path of a key: the nibbles of the SHA3-256 hash of its bytes.
pub open spec fn key_path<K: Hashable>(key: K) -> Seq<u8> {
    nibbles_of(sha3_256_digest(key.hash_input()->0))
}

/// Bytes that decode to a value whose encoding is the same bytes.
pub open spec fn canonical<V: PillarSerialize>(b: Seq<u8>) -> bool {
    V::from_pillar_bytes(b) is Some && V::from_pillar_bytes(b)->0.pillar_bytes() == b
}

/// A path of nibbles of key length.
pub open spec fn is_key_path(p: Seq<u8>) -> bool {
    p.len() == 64 && forall|i: int| 0 <= i < p.len() ==> #[trigger] p[i] < 16
}

// ---------------------------------------------------------------------------
// Lemmas on the model.

proof fn lemma_nibbles_are_key_path(d: Seq<u8>)
    requires
        d.len() == 32,
    ensures
        is_key_path(nibbles_of(d)),
{
    assert forall|i: int| 0 <= i < nibbles_of(d).len() implies #[trigger] nibbles_of(d)[i] < 16 by {
        let b = d[i / 2];
        assert(b >> 4u8 < 16u8) by (bit_vector);
        assert(b & 15u8 < 16u8) by (bit_vector);
    }
}

/// The slot reached from `n` along `p` sits at `n`'s position extended by
/// `p`.
proof fn lemma_reach_position(nodes: Seq<Option<TrieNode>>, pos: Seq<Seq<u8>>, n: int, p: Seq<u8>)
    requires
        arena_wf(nodes, pos),
        reach(nodes, n, p) is Some,
    ensures
        pos[reach(nodes, n, p)->0] == pos[n] + p,
    decreases p.len(),
{
    if p.len() == 0 {
        assert(pos[n] + p =~= pos[n]);
    } else {
        let c = child(nodes, n, p[0] as int)->0;
        lemma_reach_position(nodes, pos, c as int, p.drop_first());
        assert(pos[n].push(p[0]) + p.drop_first() =~= pos[n] + p);
    }
}

/// Reaching along a path with one more nibble takes one more step.
proof fn lemma_reach_snoc(nodes: Seq<Option<TrieNode>>, n: int, p: Seq<u8>, i: u8)
    ensures
        reach(nodes, n, p.push(i)) == match reach(nodes, n, p) {
            Some(m) => match child(nodes, m, i as int) {
                Some(c) => if live(nodes, c as int) {
                    Some(c as int)
                } else {
                    None
                },
                None => None,
            },
            None => None,
        },
    decreases p.len(),
{
    if p.len() == 0 {
        assert(p.push(i).drop_first() =~= Seq::<u8>::empty());
        assert(p.push(i)[0] == i);
        reveal_with_fuel(reach, 2);
    } else {
        assert(p.push(i).drop_first() =~= p.drop_first().push(i));
        assert(p.push(i)[0] == p[0]);
        if live(nodes, n) {
            match child(nodes, n, p[0] as int) {
                Some(c) => lemma_reach_snoc(nodes, c as int, p.drop_first(), i),
                None => {},
            }
        }
    }
}

/// A reached slot holds a node.
proof fn lemma_reach_live(nodes: Seq<Option<TrieNode>>, n: int, p: Seq<u8>)
    requires
        reach(nodes, n, p) is Some,
    ensures
        live(nodes, reach(nodes, n, p)->0),
    decreases p.len(),
{
    if p.len() > 0 {
        let c = child(nodes, n, p[0] as int)->0;
        lemma_reach_live(nodes, c as int, p.drop_first());
    }
}

/// When a prefix of a path reaches nothing, the path reaches nothing.
proof fn lemma_reach_prefix_none(nodes: Seq<Option<TrieNode>>, n: int, p: Seq<u8>, k: int)
    requires
        0 <= k <= p.len(),
        reach(nodes, n, p.take(k)) is None,
    ensures
        reach(nodes, n, p) is None,
    decreases k,
{
    if k > 0 && live(nodes, n) {
        assert(p.take(k)[0] == p[0]);
        match child(nodes, n, p[0] as int) {
            Some(c) => {
                assert(p.take(k).drop_first() =~= p.drop_first().take(k - 1));
                lemma_reach_prefix_none(nodes, c as int, p.drop_first(), k - 1);
            },
            None => {},
        }
    }
}

/// A path that finds something reaches a node along each of its prefixes.
proof fn lemma_reach_take(nodes: Seq<Option<TrieNode>>, n: int, p: Seq<u8>, k: int)
    requires
        0 <= k <= p.len(),
        reach(nodes, n, p) is Some,
    ensures
        reach(nodes, n, p.take(k)) is Some,
        reach(nodes, reach(nodes, n, p.take(k))->0, p.skip(k)) == reach(nodes, n, p),
    decreases k,
{
    if k == 0 {
        assert(p.take(0) =~= Seq::<u8>::empty());
        assert(p.skip(0) =~= p);
    } else {
        let c = child(nodes, n, p[0] as int)->0;
        assert(p.take(k).drop_first() =~= p.drop_first().take(k - 1));
        assert(p.drop_first().skip(k - 1) =~= p.skip(k));
        assert(p.take(k)[0] == p[0]);
        lemma_reach_take(nodes, c as int, p.drop_first(), k - 1);
    }
}

/// A slot reached from a node sitting at the empty position sits at the path
/// that reached it.
proof fn lemma_reach_at_root(nodes: Seq<Option<TrieNode>>, pos: Seq<Seq<u8>>, n: int, p: Seq<u8>)
    requires
        arena_wf(nodes, pos),
        0 <= n < pos.len(),
        pos[n] == Seq::<u8>::empty(),
        reach(nodes, n, p) is Some,
    ensures
        pos[reach(nodes, n, p)->0] == p,
{
    lemma_reach_position(nodes, pos, n, p);
    assert(Seq::<u8>::empty() + p =~= p);
}

/// Slots below `bound` that hold the same nodes reach and find the same
/// things, when their links stay below `bound`.
proof fn lemma_frame(
    nodes: Seq<Option<TrieNode>>,
    nodes2: Seq<Option<TrieNode>>,
    bound: int,
    n: int,
    p: Seq<u8>,
)
    requires
        0 <= bound <= nodes.len(),
        bound <= nodes2.len(),
        forall|m: int| 0 <= m < bound ==> same_node(#[trigger] nodes[m], nodes2[m]),
        closed_below(nodes, bound),
        0 <= n < bound,
    ensures
        reach(nodes2, n, p) == reach(nodes, n, p),
        lookup(nodes2, n, p) == lookup(nodes, n, p),
    decreases p.len(),
{
    assert(same_node(nodes[n], nodes2[n]));
    if live(nodes, n) && p.len() > 0 {
        assert(child(nodes2, n, p[0] as int) == child(nodes, n, p[0] as int));
        match child(nodes, n, p[0] as int) {
            Some(c) => {
                lemma_frame(nodes, nodes2, bound, c as int, p.drop_first());
            },
            None => {},
        }
    }
    match reach(nodes, n, p) {
        Some(m) => {
            lemma_reach_below(nodes, bound, n, p);
            assert(same_node(nodes[m], nodes2[m]));
        },
        None => {},
    }
}

/// From a slot below `bound`, links that stay below `bound` only reach slots
/// below it.
proof fn lemma_reach_below(nodes: Seq<Option<TrieNode>>, bound: int, n: int, p: Seq<u8>)
    requires
        closed_below(nodes, bound),
        0 <= n < bound,
        reach(nodes, n, p) is Some,
    ensures
        0 <= reach(nodes, n, p)->0 < bound,
    decreases p.len(),
{
    if p.len() > 0 {
        let c = child(nodes, n, p[0] as int)->0;
        lemma_reach_below(nodes, bound, c as int, p.drop_first());
    }
}

/// A well-formed arena is closed below its length.
proof fn lemma_arena_closed(nodes: Seq<Option<TrieNode>>, pos: Seq<Seq<u8>>)
    requires
        arena_wf(nodes, pos),
    ensures
        closed_below(nodes, nodes.len() as int),
{
}

/// Setting the value of a live slot `x`, links unchanged: nothing is reached
/// differently, and only what reaches `x` finds the new value.
proof fn lemma_set_value(nodes: Seq<Option<TrieNode>>, nodes2: Seq<Option<TrieNode>>, x: int, n: int, p: Seq<u8>)
    requires
        live(nodes, x),
        nodes2.len() == nodes.len(),
        forall|m: int| 0 <= m < nodes.len() && m != x ==> #[trigger] nodes2[m] == nodes[m],
        nodes2[x] is Some,
        nodes2[x]->0.children == nodes[x]->0.children,
    ensures
        reach(nodes2, n, p) == reach(nodes, n, p),
        lookup(nodes2, n, p) == if reach(nodes, n, p) == Some(x) {
            value_of(nodes2, x)
        } else {
            lookup(nodes, n, p)
        },
    decreases p.len(),
{
    if 0 <= n < nodes.len() && n != x {
        assert(nodes2[n] == nodes[n]);
    }
    if live(nodes, n) && p.len() > 0 {
        assert(child(nodes2, n, p[0] as int) == child(nodes, n, p[0] as int));
        match child(nodes, n, p[0] as int) {
            Some(c) => lemma_set_value(nodes, nodes2, x, c as int, p.drop_first()),
            None => {},
        }
    }
    match reach(nodes, n, p) {
        Some(m) => {
            lemma_reach_live(nodes, n, p);
            if m != x {
                assert(nodes2[m] == nodes[m]);
            }
        },
        None => {},
    }
}

/// The child slots of a node hash to something once one of the first `k`
/// children hashes to something.
proof fn lemma_children_bytes_nonempty(nodes: Seq<Option<TrieNode>>, n: int, depth: nat, k: int, j: int)
    requires
        0 <= j < k <= 16,
        depth > 0,
        child(nodes, n, j) is Some,
        subtree_hash(nodes, child(nodes, n, j)->0 as int, (depth - 1) as nat) is Some,
    ensures
        children_bytes(nodes, n, depth, k).len() > 0,
    decreases k,
{
    if j < k - 1 {
        lemma_children_bytes_nonempty(nodes, n, depth, k - 1, j);
    }
}

/// A node from which a path of at most `depth` nibbles finds a value has a
/// subtree hash.
proof fn lemma_found_value_hashes(nodes: Seq<Option<TrieNode>>, pos: Seq<Seq<u8>>, n: int, p: Seq<u8>, depth: nat)
    requires
        lookup(nodes, n, p) is Some,
        p.len() <= depth,
    ensures
        subtree_hash(nodes, n, depth) is Some,
    decreases p.len(),
{
    if p.len() == 0 {
        assert(value_slot(nodes, n).len() > 0);
    } else {
        let c = child(nodes, n, p[0] as int)->0;
        lemma_found_value_hashes(nodes, pos, c as int, p.drop_first(), (depth - 1) as nat);
        lemma_children_bytes_nonempty(nodes, n, depth, 16, p[0] as int);
    }
    assert((children_bytes(nodes, n, depth, 16) + value_slot(nodes, n)).len() > 0);
}

/// A fresh slot holding an empty node finds nothing anywhere below it.
proof fn lemma_empty_node_finds_nothing(nodes: Seq<Option<TrieNode>>, y: int, p: Seq<u8>)
    requires
        live(nodes, y),
        nodes[y]->0.value is None,
        forall|i: int| 0 <= i < 16 ==> #[trigger] nodes[y]->0.children@[i] is None,
    ensures
        lookup(nodes, y, p) is None,
{
    if p.len() > 0 {
        if 0 <= p[0] < 16 {
            assert(nodes[y]->0.children@[p[0] as int] is None);
        }
    }
}

/// Linking a fresh empty node `y` under a free nibble `i` of slot `c` changes
/// what no slot of the old arena finds.
proof fn lemma_add_child(
    nodes: Seq<Option<TrieNode>>,
    nodes2: Seq<Option<TrieNode>>,
    c: int,
    i: int,
    n: int,
    p: Seq<u8>,
)
    requires
        live(nodes, c),
        0 <= i < 16,
        child(nodes, c, i) is None || !live(nodes, child(nodes, c, i)->0 as int),
        closed_below(nodes, nodes.len() as int),
        nodes.len() < usize::MAX,
        nodes2.len() == nodes.len() + 1,
        forall|m: int| 0 <= m < nodes.len() && m != c ==> #[trigger] nodes2[m] == nodes[m],
        nodes2[c] is Some,
        value_of(nodes2, c) == value_of(nodes, c),
        nodes2[c]->0.children@ == nodes[c]->0.children@.update(i, Some(nodes.len() as usize)),
        nodes2[nodes.len() as int] is Some,
        nodes2[nodes.len() as int]->0.value is None,
        forall|j: int| 0 <= j < 16 ==> #[trigger] nodes2[nodes.len() as int]->0.children@[j] is None,
        0 <= n < nodes.len(),
    ensures
        lookup(nodes2, n, p) == lookup(nodes, n, p),
    decreases p.len(),
{
    let y = nodes.len() as int;
    if n != c {
        assert(nodes2[n] == nodes[n]);
    }
    if live(nodes, n) && p.len() > 0 {
        let j = p[0] as int;
        if n == c && j == i {
            assert(child(nodes2, n, j) == Some(y as usize));
            lemma_empty_node_finds_nothing(nodes2, y, p.drop_first());
        } else {
            assert(child(nodes2, n, j) == child(nodes, n, j));
            match child(nodes, n, j) {
                Some(k) => lemma_add_child(nodes, nodes2, c, i, k as int, p.drop_first()),
                None => {},
            }
        }
    }
}

/// Pointing nibble `i` of slot `c` at a fresh copy of the node it pointed at
/// changes what no slot of the old arena finds.
proof fn lemma_relink_copy(
    nodes: Seq<Option<TrieNode>>,
    nodes2: Seq<Option<TrieNode>>,
    c: int,
    i: int,
    o: int,
    n: int,
    p: Seq<u8>,
)
    requires
        live(nodes, c),
        0 <= i < 16,
        child(nodes, c, i) == Some(o as usize),
        live(nodes, o),
        closed_below(nodes, nodes.len() as int),
        nodes.len() < usize::MAX,
        nodes2.len() == nodes.len() + 1,
        forall|m: int| 0 <= m < nodes.len() && m != c ==> #[trigger] nodes2[m] == nodes[m],
        nodes2[c] is Some,
        value_of(nodes2, c) == value_of(nodes, c),
        nodes2[c]->0.children@ == nodes[c]->0.children@.update(i, Some(nodes.len() as usize)),
        same_node(nodes2[nodes.len() as int], nodes[o]),
        0 <= n < nodes.len(),
    ensures
        lookup(nodes2, n, p) == lookup(nodes, n, p),
    decreases p.len(),
{
    let y = nodes.len() as int;
    if n != c {
        assert(nodes2[n] == nodes[n]);
    }
    if live(nodes, n) && p.len() > 0 {
        let j = p[0] as int;
        let rest = p.drop_first();
        if n == c && j == i {
            assert(child(nodes2, n, j) == Some(y as usize));
            // the copy behaves as the copied node one step further down
            reveal_with_fuel(reach, 3);
            if rest.len() == 0 {
                assert(value_of(nodes2, y) == value_of(nodes, o));
            } else {
                let j2 = rest[0] as int;
                assert(child(nodes2, y, j2) == child(nodes, o, j2));
                match child(nodes, o, j2) {
                    Some(k) => lemma_relink_copy(nodes, nodes2, c, i, o, k as int, rest.drop_first()),
                    None => {},
                }
            }
        } else {
            assert(child(nodes2, n, j) == child(nodes, n, j));
            match child(nodes, n, j) {
                Some(k) => lemma_relink_copy(nodes, nodes2, c, i, o, k as int, rest),
                None => {},
            }
        }
    }
}

/// A fresh copy of slot `o` finds what `o` finds.
proof fn lemma_copy_finds_same(nodes: Seq<Option<TrieNode>>, nodes2: Seq<Option<TrieNode>>, o: int, p: Seq<u8>)
    requires
        live(nodes, o),
        closed_below(nodes, nodes.len() as int),
        nodes2.len() == nodes.len() + 1,
        forall|m: int| 0 <= m < nodes.len() ==> #[trigger] nodes2[m] == nodes[m],
        same_node(nodes2[nodes.len() as int], nodes[o]),
    ensures
        lookup(nodes2, nodes.len() as int, p) == lookup(nodes, o, p),
{
    let y = nodes.len() as int;
    assert forall|m: int| 0 <= m < nodes.len() implies same_node(#[trigger] nodes[m], nodes2[m]) by {
        assert(nodes2[m] == nodes[m]);
    }
    if p.len() == 0 {
        assert(value_of(nodes2, y) == value_of(nodes, o));
    } else {
        let j = p[0] as int;
        assert(child(nodes2, y, j) == child(nodes, o, j));
        match child(nodes, o, j) {
            Some(k) => {
                lemma_frame(nodes, nodes2, nodes.len() as int, k as int, p.drop_first());
            },
            None => {},
        }
    }
}

/// Changing only the links of slot `c` keeps every path that reached `c`
/// reaching it.
proof fn lemma_keep_reach(
    nodes: Seq<Option<TrieNode>>,
    nodes2: Seq<Option<TrieNode>>,
    pos: Seq<Seq<u8>>,
    c: int,
    n: int,
    q: Seq<u8>,
)
    requires
        arena_wf(nodes, pos),
        reach(nodes, n, q) == Some(c),
        nodes2.len() >= nodes.len(),
        forall|m: int| 0 <= m < nodes.len() && m != c ==> #[trigger] nodes2[m] == nodes[m],
        live(nodes2, c),
    ensures
        reach(nodes2, n, q) == Some(c),
    decreases q.len(),
{
    if q.len() > 0 {
        if n == c {
            lemma_reach_position(nodes, pos, n, q);
            assert((pos[c] + q).len() == pos[c].len() + q.len());
        }
        assert(nodes2[n] == nodes[n]);
        let k = child(nodes, n, q[0] as int)->0;
        assert(child(nodes2, n, q[0] as int) == child(nodes, n, q[0] as int));
        lemma_keep_reach(nodes, nodes2, pos, c, k as int, q.drop_first());
    }
}

// ---------------------------------------------------------------------------
// Hashing a subtree.

/// The value slot of a node as it is hashed: the radix as index, then the
/// value bytes.
pub closed spec fn value_slot(nodes: Seq<Option<TrieNode>>, n: int) -> Seq<u8> {
    match value_of(nodes, n) {
        Some(v) => seq![16u8] + v,
        None => Seq::empty(),
    }
}

/// The child slots of node `n` below index `k` as they are hashed: for each
/// child with a hash, its index, then its hash. `depth` bounds how far below
/// children may lie.
pub closed spec fn children_bytes(nodes: Seq<Option<TrieNode>>, n: int, depth: nat, k: int) -> Seq<u8>
    decreases depth, k,
{
    if k <= 0 || depth == 0 {
        Seq::empty()
    } else {
        children_bytes(nodes, n, depth, k - 1) + match child(nodes, n, k - 1) {
            Some(c) => match subtree_hash(nodes, c as int, (depth - 1) as nat) {
                Some(h) => seq![(k - 1) as u8] + h,
                None => Seq::empty(),
            },
            None => Seq::empty(),
        }
    }
}

/// The bytes hashed for node `n`: its child slots, then its value slot.
pub closed spec fn node_bytes(nodes: Seq<Option<TrieNode>>, n: int, depth: nat) -> Seq<u8> {
    children_bytes(nodes, n, depth, 16) + value_slot(nodes, n)
}

/// The SHA3-256 hash of the subtree at slot `n`, when it holds something.
pub closed spec fn subtree_hash(nodes: Seq<Option<TrieNode>>, n: int, depth: nat) -> Option<Seq<u8>>
    decreases depth, 17int,
{
    if live(nodes, n) && (children_bytes(nodes, n, depth, 16) + value_slot(nodes, n)).len() > 0 {
        Some(sha3_256_digest(children_bytes(nodes, n, depth, 16) + value_slot(nodes, n)))
    } else {
        None
    }
}

// ---------------------------------------------------------------------------
// The trie.

/// Computes the path of a key: the nibbles of the SHA3-256 hash of its bytes.
pub fn to_nibbles<K: Hashable>(key: &K) -> (r: Vec<u8>)
    requires
        key.hash_input() is Some,
    ensures
        r@ == key_path(*key),
        is_key_path(r@),
{
    let mut hasher = DefaultHash::new();
    let digest = match key.hash(&mut hasher) {
        Ok(d) => d,
        Err(_) => [0u8; 32],
    };
    proof {
        assert(Seq::<u8>::empty() + key.hash_input()->0 =~= key.hash_input()->0);
    }
    let ghost d = digest@;
    let mut out: Vec<u8> = Vec::new();
    let mut i: usize = 0;
    while i < 32
        invariant
            0 <= i <= 32,
            d == digest@,
            d.len() == 32,
            out@ == nibbles_of(d).take(2 * i as int),
        decreases 32 - i,
    {
        let b = digest[i];
        out.push(b >> 4u8);
        out.push(b & 15u8);
        proof {
            assert(out@ =~= nibbles_of(d).take(2 * (i + 1) as int));
        }
        i = i + 1;
    }
    proof {
        assert(nibbles_of(d).take(64) =~= nibbles_of(d));
        lemma_nibbles_are_key_path(d);
    }
    out
}

impl<K: Hashable, V: PillarSerialize> MerkleTrie<K, V> {
    /// The slots of the arena.
    pub closed spec fn arena(&self) -> Seq<Option<TrieNode>> {
        self.nodes@
    }

    /// The trie is well formed: its arena is, every root entry points to a
    /// node at the empty position, no two root entries share a hash or a slot,
    /// and every stored value is the encoding of a value.
    pub closed spec fn wf(&self) -> bool {
        &&& arena_wf(self.nodes@, self.positions@)
        &&& forall|k: int|
            0 <= k < self.roots@.len() ==> ((#[trigger] self.roots@[k]).1 as int) < self.nodes@.len()
                && self.positions@[self.roots@[k].1 as int] == Seq::<u8>::empty()
        &&& forall|k: int| 0 <= k < self.roots@.len() ==> live(self.nodes@, (#[trigger] self.roots@[k]).1 as int)
        &&& forall|a: int, b: int|
            0 <= a < b < self.roots@.len() ==> (#[trigger] self.roots@[a]).0@ != (
            #[trigger] self.roots@[b]).0@ && self.roots@[a].1 != self.roots@[b].1
        &&& forall|n: int|
            #[trigger] value_of(self.nodes@, n) is Some ==> canonical::<V>(value_of(self.nodes@, n)->0)
    }

    /// The position of the root entry for the hash `root`.
    pub closed spec fn root_entry(&self, root: Seq<u8>) -> Option<int> {
        if exists|k: int| 0 <= k < self.roots@.len() && self.roots@[k].0@ == root {
            Some(choose|k: int| 0 <= k < self.roots@.len() && self.roots@[k].0@ == root)
        } else {
            None
        }
    }

    /// How many levels below slot `slot` the key paths still run.
    pub closed spec fn slot_depth(&self, slot: int) -> int {
        64 - self.positions@[slot].len()
    }

    /// The trie has a root with the hash `root`.
    pub closed spec fn has_root(&self, root: Seq<u8>) -> bool {
        self.root_entry(root) is Some
    }

    /// The slot of the root with the hash `root`.
    pub closed spec fn root_slot(&self, root: Seq<u8>) -> Option<int> {
        match self.root_entry(root) {
            Some(k) => Some(self.roots@[k].1 as int),
            None => None,
        }
    }

    /// The hashes of the roots.
    pub closed spec fn root_hashes(&self) -> Set<Seq<u8>> {
        Set::new(|h: Seq<u8>| self.has_root(h))
    }

    /// The root hashes are the hashes that are roots; a hash that is no
    /// root has an empty state, in which no key has a value.
    pub proof fn lemma_root_hashes(&self)
        ensures
            forall|h: Seq<u8>| #[trigger] self.root_hashes().contains(h) <==> self.has_root(h),
            forall|h: Seq<u8>, p: Seq<u8>| !self.has_root(h) ==> #[trigger] self.state_at(h, p) is None,
            forall|h: Seq<u8>, k: K| !self.has_root(h) ==> #[trigger] self.value_at(h, k) is None,
    {
    }

    /// The encoded value that the state of `root` holds at `path` (none when
    /// there is no such root).
    pub closed spec fn state_at(&self, root: Seq<u8>, path: Seq<u8>) -> Option<Seq<u8>> {
        match self.root_slot(root) {
            Some(s) => lookup(self.nodes@, s, path),
            None => None,
        }
    }

    /// The state of `root` holds, at some path, a value that decodes to `v`.
    pub open spec fn holds_value(&self, root: Seq<u8>, v: V) -> bool {
        exists|p: Seq<u8>|
            #[trigger] self.state_at(root, p) is Some && V::from_pillar_bytes(self.state_at(root, p)->0)
                == Some(v)
    }

    /// `vals` lists the values of the state of `root` once each: `paths` are
    /// pairwise distinct, the value at `paths[i]` decodes to `vals[i]`, and
    /// every path that holds a value is among them.
    pub open spec fn lists_values_once(&self, root: Seq<u8>, vals: Seq<V>, paths: Seq<Seq<u8>>) -> bool {
        &&& paths.len() == vals.len()
        &&& paths.no_duplicates()
        &&& forall|i: int|
            0 <= i < paths.len() ==> self.state_at(root, #[trigger] paths[i]) is Some && V::from_pillar_bytes(
                self.state_at(root, paths[i])->0,
            ) == Some(vals[i])
        &&& forall|p: Seq<u8>| #[trigger] self.state_at(root, p) is Some ==> paths.contains(p)
    }

    /// The value that the state of `root` holds for `key`, decoded.
    pub open spec fn value_at(&self, root: Seq<u8>, key: K) -> Option<V> {
        match self.state_at(root, key_path(key)) {
            Some(b) => V::from_pillar_bytes(b),
            None => None,
        }
    }

    /// The hash of the subtree at a slot, hashed with `H` at the top and
    /// SHA3-256 below, after `prefix` was absorbed.
    pub closed spec fn slot_hash<H: HashFunction>(&self, slot: int, prefix: Seq<u8>) -> Option<Seq<u8>> {
        let depth = (64 - self.positions@[slot].len()) as nat;
        if live(self.nodes@, slot) && node_bytes(self.nodes@, slot, depth).len() > 0 {
            Some(H::digest_of(prefix + node_bytes(self.nodes@, slot, depth)))
        } else {
            None
        }
    }

    /// The hash of the state of `root`, as `get_hash_for` computes it for the
    /// root's slot with a fresh SHA3-256 hasher.
    pub closed spec fn root_hash_of(&self, root: Seq<u8>) -> Option<Seq<u8>> {
        match self.root_slot(root) {
            Some(s) => self.slot_hash::<DefaultHash>(s, Seq::empty()),
            None => None,
        }
    }

    /// An empty trie with no roots.
    pub fn new() -> (r: Self)
        ensures
            r.wf(),
            r.counts_cover(),
            r.root_hashes() == Set::<Seq<u8>>::empty(),
            r.arena().len() == 0,
    {
        let r = MerkleTrie {
            nodes: Vec::new(),
            roots: Vec::new(),
            positions: Ghost(Seq::empty()),
            keys: PhantomData,
            values: PhantomData,
        };
        assert(r.root_hashes() =~= Set::<Seq<u8>>::empty());
        r
    }

    /// Finds the root entry with the hash `root`.
    fn find_root_entry(&self, root: &StdByteArray) -> (r: Option<usize>)
        requires
            self.wf(),
        ensures
            r is Some <==> self.root_entry(root@) is Some,
            r is Some ==> r->0 as int == self.root_entry(root@)->0,
    {
        let mut k: usize = 0;
        while k < self.roots.len()
            invariant
                self.wf(),
                0 <= k <= self.roots@.len(),
                forall|j: int| 0 <= j < k ==> self.roots@[j].0@ != root@,
            decreases self.roots@.len() - k,
        {
            if eq32(&self.roots[k].0, root) {
                proof {
                    let c = choose|j: int| 0 <= j < self.roots@.len() && self.roots@[j].0@ == root@;
                    if c != k {
                        if c < k {
                            assert(self.roots@[c].0@ != self.roots@[k as int].0@);
                        } else {
                            assert(self.roots@[k as int].0@ != self.roots@[c].0@);
                        }
                    }
                }
                return Some(k);
            }
            k = k + 1;
        }
        None
    }

    /// The slot of the root with the hash `root`, if the trie has it.
    pub fn root_key(&self, root: &StdByteArray) -> (r: Option<usize>)
        requires
            self.wf(),
        ensures
            r is Some <==> self.has_root(root@),
            r is Some ==> r->0 as int == self.root_slot(root@)->0,
    {
        match self.find_root_entry(root) {
            Some(k) => Some(self.roots[k].1),
            None => None,
        }
    }

    /// Looks up the value of `key` in the state of `root`: none when the trie
    /// has no such root or the state holds nothing for the key.
    pub fn get(&self, key: &K, root: StdByteArray) -> (r: Option<V>)
        requires
            self.wf(),
            key.hash_input() is Some,
        ensures
            r == self.value_at(root@, *key),
    {
        let path = to_nibbles(key);
        let slot = match self.root_key(&root) {
            Some(s) => s,
            None => return None,
        };
        let ghost nodes = self.nodes@;
        let ghost p = path@;
        match &self.nodes[slot] {
            Some(_) => {},
            None => return None,
        }
        let mut cur: usize = slot;
        let mut d: usize = 0;
        assert(p.take(0) =~= Seq::<u8>::empty());
        while d < 64
            invariant
                0 <= d <= 64,
                nodes == self.nodes@,
                p == path@,
                is_key_path(p),
                p == key_path(*key),
                self.root_slot(root@) == Some(slot as int),
                0 <= slot < nodes.len(),
                reach(nodes, slot as int, p.take(d as int)) == Some(cur as int),
            decreases 64 - d,
        {
            let idx = path[d];
            assert(idx < 16);
            proof {
                lemma_reach_live(nodes, slot as int, p.take(d as int));
                lemma_reach_snoc(nodes, slot as int, p.take(d as int), idx);
                assert(p.take(d as int).push(idx) =~= p.take(d + 1));
            }
            let next = match &self.nodes[cur] {
                Some(node) => node.children[idx as usize],
                None => None,
            };
            assert(next == child(nodes, cur as int, idx as int));
            match next {
                Some(c) => {
                    if c < self.nodes.len() {
                        match &self.nodes[c] {
                            Some(_) => {
                                cur = c;
                            },
                            None => {
                                proof {
                                    assert(reach(nodes, slot as int, p) is None) by {
                                        lemma_reach_prefix_none(nodes, slot as int, p, d as int + 1);
                                    }
                                }
                                return None;
                            },
                        }
                    } else {
                        proof {
                            lemma_reach_prefix_none(nodes, slot as int, p, d as int + 1);
                        }
                        return None;
                    }
                },
                None => {
                    proof {
                        lemma_reach_prefix_none(nodes, slot as int, p, d as int + 1);
                    }
                    return None;
                },
            }
            d = d + 1;
        }
        proof {
            assert(p.take(64) =~= p);
            lemma_reach_live(nodes, slot as int, p);
        }
        match &self.nodes[cur] {
            Some(node) => match &node.value {
                Some(v) => V::deserialize_pillar(v.as_slice()),
                None => None,
            },
            None => None,
        }
    }

    /// Hashes the subtree at `node`: for each child in nibble order its index
    /// and its SHA3-256 subtree hash, then the radix and the node's value,
    /// all fed to `hash_function`. None when the slot is free or holds
    /// nothing to hash.
    pub fn get_hash_for<H: HashFunction>(&self, node: usize, hash_function: &mut H) -> (r: Option<StdByteArray>)
        requires
            self.wf(),
            node < self.arena().len(),
        ensures
            r is Some <==> self.slot_hash::<H>(node as int, old(hash_function).absorbed()) is Some,
            r is Some ==> r->0@ == self.slot_hash::<H>(node as int, old(hash_function).absorbed())->0,
            r is Some ==> final(hash_function).absorbed() == Seq::<u8>::empty() && !final(hash_function).started(),
            r is None ==> final(hash_function).absorbed() == old(hash_function).absorbed()
                && final(hash_function).started() == old(hash_function).started(),
        decreases self.slot_depth(node as int),
    {
        let ghost nodes = self.nodes@;
        let ghost depth = (64 - self.positions@[node as int].len()) as nat;
        let ghost prefix = hash_function.absorbed();
        let ghost was_started = hash_function.started();
        let nd = match &self.nodes[node] {
            Some(nd) => nd,
            None => return None,
        };
        let mut valid = false;
        let mut i: usize = 0;
        while i < 16
            invariant
                0 <= i <= 16,
                self.wf(),
                nodes == self.nodes@,
                node < nodes.len(),
                nodes[node as int] == Some(*nd),
                depth == (64 - self.positions@[node as int].len()) as nat,
                hash_function.absorbed() == prefix + children_bytes(nodes, node as int, depth, i as int),
                valid == (children_bytes(nodes, node as int, depth, i as int).len() > 0),
                valid ==> hash_function.started(),
                !valid ==> hash_function.started() == was_started,
            decreases 16 - i,
        {
            let ghost before = children_bytes(nodes, node as int, depth, i as int);
            match nd.children[i] {
                Some(c) => {
                    proof {
                        assert(child(nodes, node as int, i as int) == Some(c));
                        assert(self.positions@[c as int] == self.positions@[node as int].push(i as u8));
                    }
                    let mut sub = DefaultHash::new();
                    let sub_hash = self.get_hash_for(c, &mut sub);
                    proof {
                        assert(Seq::<u8>::empty() + node_bytes(nodes, c as int, (depth - 1) as nat)
                            =~= node_bytes(nodes, c as int, (depth - 1) as nat));
                        assert(self.slot_depth(c as int) == depth - 1);
                        if sub_hash is Some {
                            assert(subtree_hash(nodes, c as int, (depth - 1) as nat) == Some(sub_hash->0@));
                        } else {
                            assert(subtree_hash(nodes, c as int, (depth - 1) as nat) is None);
                        }
                    }
                    match sub_hash {
                        Some(h) => {
                            let idx = [i as u8];
                            hash_function.update(idx.as_slice());
                            hash_function.update(h.as_slice());
                            valid = true;
                            proof {
                                assert(Seq::<u8>::empty() + node_bytes(nodes, c as int, (depth - 1) as nat)
                                    =~= node_bytes(nodes, c as int, (depth - 1) as nat));
                                assert(idx@ =~= seq![i as u8]);
                                assert(hash_function.absorbed() =~= prefix + children_bytes(
                                    nodes,
                                    node as int,
                                    depth,
                                    i + 1,
                                ));
                            }
                        },
                        None => {
                            proof {
                                assert(children_bytes(nodes, node as int, depth, i + 1) =~= before);
                            }
                        },
                    }
                },
                None => {
                    proof {
                        assert(child(nodes, node as int, i as int) is None);
                        assert(children_bytes(nodes, node as int, depth, i + 1) =~= before);
                    }
                },
            }
            i = i + 1;
        }
        match &nd.value {
            Some(v) => {
                let idx = [16u8];
                hash_function.update(idx.as_slice());
                hash_function.update(v.as_slice());
                valid = true;
                proof {
                    assert(idx@ =~= seq![16u8]);
                }
            },
            None => {},
        }
        proof {
            assert(hash_function.absorbed() =~= prefix + node_bytes(nodes, node as int, depth));
        }
        if valid {
            match hash_function.digest() {
                Ok(h) => Some(h),
                Err(_) => None,
            }
        } else {
            proof {
                assert(node_bytes(nodes, node as int, depth) =~= Seq::<u8>::empty());
            }
            None
        }
    }
}

impl TrieNode {
    /// A node with no children and no value, referenced once.
    fn empty() -> (r: Self)
        ensures
            r.references == 1,
            r.value is None,
            forall|j: int| 0 <= j < 16 ==> #[trigger] r.children@[j] is None,
    {
        TrieNode { references: 1, children: [None; 16], value: None }
    }

    /// A copy of the node: the same count, children and value.
    fn copy(&self) -> (r: Self)
        ensures
            r.references == self.references,
            r.children == self.children,
            same_node(Some(r), Some(*self)),
    {
        let value = match &self.value {
            Some(v) => {
                let mut w: Vec<u8> = Vec::new();
                crate::bytes::extend_bytes(&mut w, v.as_slice());
                Some(w)
            },
            None => None,
        };
        TrieNode { references: self.references, children: self.children, value }
    }
}

impl<K: Hashable, V: PillarSerialize> MerkleTrie<K, V> {
    /// Sets the link under nibble `i` of the node in slot `c`.
    fn set_link(&mut self, c: usize, i: usize, link: Option<usize>)
        requires
            c < old(self).nodes@.len(),
            old(self).nodes@[c as int] is Some,
            i < 16,
        ensures
            final(self).nodes@.len() == old(self).nodes@.len(),
            forall|m: int| 0 <= m < old(self).nodes@.len() && m != c ==> #[trigger] final(self).nodes@[m]
                == old(self).nodes@[m],
            final(self).nodes@[c as int] is Some,
            final(self).nodes@[c as int]->0.children@ == old(self).nodes@[c as int]->0.children@.update(
                i as int,
                link,
            ),
            final(self).nodes@[c as int]->0.value == old(self).nodes@[c as int]->0.value,
            final(self).nodes@[c as int]->0.references == old(self).nodes@[c as int]->0.references,
            final(self).roots == old(self).roots,
            final(self).positions == old(self).positions,
    {
        match &mut self.nodes[c] {
            Some(node) => {
                node.children[i] = link;
            },
            None => {},
        }
    }

    /// Sets the value of the node in slot `c`.
    fn set_slot_value(&mut self, c: usize, value: Vec<u8>)
        requires
            c < old(self).nodes@.len(),
            old(self).nodes@[c as int] is Some,
        ensures
            final(self).nodes@.len() == old(self).nodes@.len(),
            forall|m: int| 0 <= m < old(self).nodes@.len() && m != c ==> #[trigger] final(self).nodes@[m]
                == old(self).nodes@[m],
            final(self).nodes@[c as int] is Some,
            final(self).nodes@[c as int]->0.children == old(self).nodes@[c as int]->0.children,
            final(self).nodes@[c as int]->0.references == old(self).nodes@[c as int]->0.references,
            value_of(final(self).nodes@, c as int) == Some(value@),
            final(self).roots == old(self).roots,
            final(self).positions == old(self).positions,
    {
        match &mut self.nodes[c] {
            Some(node) => {
                node.value = Some(value);
            },
            None => {},
        }
    }

    /// Adds one to the reference count of the node in slot `k`, if it holds
    /// one (wrapping at the top of the count's range).
    fn add_reference(&mut self, k: usize)
        requires
            old(self).wf(),
        ensures
            final(self).wf(),
            final(self).nodes@.len() == old(self).nodes@.len(),
            forall|m: int| 0 <= m < old(self).nodes@.len() && m != k ==> #[trigger] final(self).nodes@[m]
                == old(self).nodes@[m],
            forall|m: int|
                0 <= m < old(self).nodes@.len() ==> same_node(
                    #[trigger] final(self).nodes@[m],
                    old(self).nodes@[m],
                ),
            final(self).roots == old(self).roots,
            final(self).positions == old(self).positions,
            k < old(self).nodes@.len() && old(self).nodes@[k as int] is Some && old(
                self,
            ).nodes@[k as int]->0.references < u16::MAX ==> final(self).nodes@[k as int]->0.references == old(
                self,
            ).nodes@[k as int]->0.references + 1,
            forall|x: int| #[trigger] links_to(final(self).nodes@, x) == links_to(old(self).nodes@, x),
    {
        let ghost old_nodes = self.nodes@;
        if k < self.nodes.len() {
            match &mut self.nodes[k] {
                Some(node) => {
                    node.references = node.references.wrapping_add(1);
                },
                None => {},
            }
        }
        proof {
            assert forall|n: int, i: int| #[trigger] child(self.nodes@, n, i) == child(old_nodes, n, i) by {}
            assert forall|n: int| #[trigger] value_of(self.nodes@, n) == value_of(old_nodes, n) by {}
            assert forall|x: int| #[trigger] links_to(self.nodes@, x) == links_to(old_nodes, x) by {
                assert forall|m: int|
                    0 <= m < old_nodes.len() implies (#[trigger] self.nodes@[m] is Some) == (old_nodes[m] is Some) && (
                    old_nodes[m] is Some ==> self.nodes@[m]->0.children == old_nodes[m]->0.children) by {
                    if m != k {
                        assert(self.nodes@[m] == old_nodes[m]);
                    }
                }
                lemma_links_same_children(old_nodes, self.nodes@, x, old_nodes.len() as int);
            }
        }
    }

    /// Appends a fresh empty node linked under nibble `idx` of slot `cur`,
    /// whose link there was empty or led to a freed slot. What any old slot
    /// finds stays the same, and every path that reached `cur` still does.
    fn add_child(&mut self, cur: usize, idx: usize) -> (y: usize)
        requires
            old(self).wf(),
            live(old(self).nodes@, cur as int),
            idx < 16,
            child(old(self).nodes@, cur as int, idx as int) is None || !live(
                old(self).nodes@,
                child(old(self).nodes@, cur as int, idx as int)->0 as int,
            ),
            old(self).positions@[cur as int].len() < 64,
        ensures
            final(self).wf(),
            y == old(self).nodes@.len(),
            final(self).nodes@.len() == old(self).nodes@.len() + 1,
            final(self).roots == old(self).roots,
            final(self).positions@ == old(self).positions@.push(
                old(self).positions@[cur as int].push(idx as u8),
            ),
            forall|m: int| 0 <= m < old(self).nodes@.len() && m != cur ==> #[trigger] final(self).nodes@[m]
                == old(self).nodes@[m],
            child(final(self).nodes@, cur as int, idx as int) == Some(y),
            live(final(self).nodes@, y as int),
            final(self).nodes@[y as int]->0.value is None,
            final(self).nodes@[y as int]->0.references == 1,
            forall|j: int| 0 <= j < 16 ==> #[trigger] final(self).nodes@[y as int]->0.children@[j] is None,
            final(self).nodes@[cur as int]->0.references == old(self).nodes@[cur as int]->0.references,
            value_of(final(self).nodes@, cur as int) == value_of(old(self).nodes@, cur as int),
            old(self).counts_cover() ==> final(self).counts_cover(),
            forall|x: int|
                0 <= x <= usize::MAX ==> #[trigger] links_to(final(self).nodes@, x) + (if old(self).nodes@[cur as int]->0.children@[idx as int]
                    == Some(x as usize) {
                    1int
                } else {
                    0int
                }) == links_to(old(self).nodes@, x) + (if x == y {
                    1int
                } else {
                    0int
                }),
            forall|x: int|
                0 <= x <= usize::MAX ==> #[trigger] links_in_node(final(self).nodes@[cur as int]->0, x, 16) + (
                if old(self).nodes@[cur as int]->0.children@[idx as int] == Some(x as usize) {
                    1int
                } else {
                    0int
                }) == links_in_node(old(self).nodes@[cur as int]->0, x, 16) + (if x == y {
                    1int
                } else {
                    0int
                }),
            forall|n: int, p: Seq<u8>|
                0 <= n < old(self).nodes@.len() ==> #[trigger] lookup(final(self).nodes@, n, p) == lookup(
                    old(self).nodes@,
                    n,
                    p,
                ),
            forall|n: int, q: Seq<u8>|
                reach(old(self).nodes@, n, q) == Some(cur as int) ==> #[trigger] reach(
                    final(self).nodes@,
                    n,
                    q,
                ) == Some(cur as int),
    {
        let ghost old_self = *self;
        let ghost old_nodes = self.nodes@;
        let ghost old_pos = self.positions@;
        let y = self.nodes.len();
        self.nodes.push(Some(TrieNode::empty()));
        let grown = self.nodes.len();
        assert(old_nodes.len() < usize::MAX) by {
            assert(grown == old_nodes.len() + 1);
        }
        self.positions = Ghost(old_pos.push(old_pos[cur as int].push(idx as u8)));
        let ghost mid = self.nodes@;
        self.set_link(cur, idx, Some(y));
        proof {
            let nodes = self.nodes@;
            let pos = self.positions@;
            assert(nodes.len() == old_nodes.len() + 1);
            assert forall|m: int| 0 <= m < old_nodes.len() && m != cur implies #[trigger] nodes[m]
                == old_nodes[m] by {
                assert(mid[m] == old_nodes[m]);
            }
            assert(nodes[y as int] == mid[y as int]);
            lemma_arena_closed(old_nodes, old_pos);
            assert forall|n: int, p: Seq<u8>| 0 <= n < old_nodes.len() implies #[trigger] lookup(
                nodes,
                n,
                p,
            ) == lookup(old_nodes, n, p) by {
                lemma_add_child(old_nodes, nodes, cur as int, idx as int, n, p);
            }
            assert forall|n: int, q: Seq<u8>| reach(old_nodes, n, q) == Some(cur as int) implies #[trigger] reach(
                nodes,
                n,
                q,
            ) == Some(cur as int) by {
                lemma_keep_reach(old_nodes, nodes, old_pos, cur as int, n, q);
            }
            assert forall|n: int, i: int| (#[trigger] child(nodes, n, i)) is Some implies (child(
                nodes,
                n,
                i,
            )->0 as int) < nodes.len() && pos[child(nodes, n, i)->0 as int] == pos[n].push(i as u8) by {
                if n == cur && i == idx {
                } else if n == y {
                } else {
                    assert(child(nodes, n, i) == child(old_nodes, n, i));
                }
            }
            assert forall|n: int| 0 <= n < pos.len() implies (#[trigger] pos[n]).len() <= 64 by {
                if n < old_pos.len() {
                    assert(pos[n] == old_pos[n]);
                }
            }
            assert forall|n: int| #[trigger] value_of(nodes, n) is Some implies canonical::<V>(value_of(nodes, n)->0) by {
                if n != y && n != cur {
                    assert(value_of(nodes, n) == value_of(old_nodes, n));
                }
            }
            assert forall|k: int| 0 <= k < self.roots@.len() implies ((#[trigger] self.roots@[k]).1 as int)
                < nodes.len() && pos[self.roots@[k].1 as int] == Seq::<u8>::empty() by {}
            assert forall|x: int| 0 <= x <= usize::MAX implies #[trigger] links_to(nodes, x) + (if old_nodes[cur as int]->0.children@[idx as int]
                == Some(x as usize) {
                1int
            } else {
                0int
            }) == links_to(old_nodes, x) + (if x == y {
                1int
            } else {
                0int
            }) by {
                lemma_links_append_relink(old_nodes, nodes, cur as int, idx as int, x);
                lemma_links_childless(nodes[y as int]->0, x, 16);
            }
            assert forall|x: int| 0 <= x <= usize::MAX implies #[trigger] links_in_node(nodes[cur as int]->0, x, 16) + (
                if old_nodes[cur as int]->0.children@[idx as int] == Some(x as usize) {
                1int
            } else {
                0int
            }) == links_in_node(old_nodes[cur as int]->0, x, 16) + (if x == y {
                1int
            } else {
                0int
            }) by {
                lemma_links_append_relink(old_nodes, nodes, cur as int, idx as int, x);
            }
            if old_self.counts_cover() {
                let a = old_nodes[cur as int]->0;
                let b = nodes[cur as int]->0;
                let n_roots = self.roots@.len() as int;
                assert(nodes == mid.update(cur as int, Some(b)));
                assert(mid == old_nodes.push(mid[y as int]));
                assert forall|x: int| #[trigger] live(nodes, x) implies links_to(nodes, x) + root_links(
                    self.roots@,
                    -1,
                    x,
                    n_roots,
                ) <= nodes[x]->0.references by {
                    lemma_links_push_prefix(old_nodes, mid[y as int], x, old_nodes.len() as int);
                    lemma_links_childless(mid[y as int]->0, x, 16);
                    assert(links_upto(mid, x, mid.len() as int) == links_upto(old_nodes, x, old_nodes.len() as int));
                    lemma_links_replace(mid, cur as int, b, x, mid.len() as int);
                    assert(mid[cur as int] == old_nodes[cur as int]);
                    lemma_links_relink(a, b, idx as int, x, 16);
                    if x == y {
                        lemma_links_past_end(old_nodes, old_pos, x, old_nodes.len() as int);
                        assert forall|j: int| 0 <= j < n_roots implies #[trigger] self.roots@[j].1 != x as usize by {
                            assert(old_self.roots@[j].1 < old_nodes.len());
                        }
                        lemma_root_links_absent(self.roots@, -1, x, n_roots);
                    } else {
                        assert(live(old_nodes, x));
                        if x != cur {
                            assert(nodes[x] == old_nodes[x]);
                        }
                    }
                }
            }
        }
        y
    }

    /// Appends a copy of the node in slot `o`, at the same position.
    fn push_copy(&mut self, o: usize) -> (y: usize)
        requires
            old(self).wf(),
            live(old(self).nodes@, o as int),
        ensures
            final(self).wf(),
            y == old(self).nodes@.len(),
            final(self).nodes@ == old(self).nodes@.push(final(self).nodes@[y as int]),
            same_node(final(self).nodes@[y as int], old(self).nodes@[o as int]),
            final(self).nodes@[y as int]->0.references == old(self).nodes@[o as int]->0.references,
            final(self).nodes@[y as int]->0.children == old(self).nodes@[o as int]->0.children,
            final(self).roots == old(self).roots,
            final(self).positions@ == old(self).positions@.push(old(self).positions@[o as int]),
            forall|x: int|
                #[trigger] links_to(final(self).nodes@, x) == links_to(old(self).nodes@, x) + links_in_node(
                    old(self).nodes@[o as int]->0,
                    x,
                    16,
                ),
    {
        let ghost old_nodes = self.nodes@;
        let ghost old_pos = self.positions@;
        let node = match &self.nodes[o] {
            Some(nd) => nd.copy(),
            None => TrieNode::empty(),
        };
        let y = self.nodes.len();
        self.nodes.push(Some(node));
        self.positions = Ghost(old_pos.push(old_pos[o as int]));
        proof {
            let nodes = self.nodes@;
            let pos = self.positions@;
            assert forall|n: int, i: int| (#[trigger] child(nodes, n, i)) is Some implies (child(
                nodes,
                n,
                i,
            )->0 as int) < nodes.len() && pos[child(nodes, n, i)->0 as int] == pos[n].push(i as u8) by {
                if n == y {
                    assert(child(nodes, n, i) == child(old_nodes, o as int, i));
                } else {
                    assert(child(nodes, n, i) == child(old_nodes, n, i));
                }
            }
            assert forall|n: int| 0 <= n < pos.len() implies (#[trigger] pos[n]).len() <= 64 by {
                if n < old_pos.len() {
                    assert(pos[n] == old_pos[n]);
                }
            }
            assert forall|n: int| #[trigger] value_of(nodes, n) is Some implies canonical::<V>(value_of(nodes, n)->0) by {
                if n == y {
                    assert(value_of(nodes, n) == value_of(old_nodes, o as int));
                } else {
                    assert(value_of(nodes, n) == value_of(old_nodes, n));
                }
            }
            assert forall|k: int| 0 <= k < self.roots@.len() implies ((#[trigger] self.roots@[k]).1 as int)
                < nodes.len() && pos[self.roots@[k].1 as int] == Seq::<u8>::empty() by {}
            assert forall|x: int| #[trigger] links_to(nodes, x) == links_to(old_nodes, x) + links_in_node(
                old_nodes[o as int]->0,
                x,
                16,
            ) by {
                lemma_links_push_prefix(old_nodes, nodes[y as int], x, old_nodes.len() as int);
                assert(nodes == old_nodes.push(nodes[y as int]));
                assert(links_upto(nodes, x, nodes.len() as int) == links_upto(nodes, x, old_nodes.len() as int)
                    + links_in_node(nodes[y as int]->0, x, 16));
                lemma_links_in_node_same(nodes[y as int]->0, old_nodes[o as int]->0, x, 16);
            }
        }
        y
    }

    /// Stores `value` at `path` below the root in slot `root`, creating the
    /// missing nodes on the way. Fails, when the path already holds a value,
    /// without changing what any slot finds.
    fn insert_at(&mut self, path: &Vec<u8>, value: Vec<u8>, root: usize) -> (r: Result<(), TrieError>)
        requires
            old(self).wf(),
            is_key_path(path@),
            live(old(self).nodes@, root as int),
            old(self).positions@[root as int] == Seq::<u8>::empty(),
            canonical::<V>(value@),
        ensures
            final(self).wf(),
            final(self).roots == old(self).roots,
            final(self).nodes@.len() >= old(self).nodes@.len(),
            final(self).positions@.subrange(0, old(self).nodes@.len() as int) == old(self).positions@,
            forall|m: int|
                0 <= m < old(self).nodes@.len() && #[trigger] old(self).nodes@[m] is Some ==> final(self).nodes@[m] is Some
                    && final(self).nodes@[m]->0.references == old(self).nodes@[m]->0.references,
            old(self).counts_cover() ==> final(self).counts_cover(),
            r is Err <==> lookup(old(self).nodes@, root as int, path@) is Some,
            r is Err ==> r == Err::<(), TrieError>(TrieError::AlreadyExists),
            r is Err ==> forall|n: int, p: Seq<u8>|
                0 <= n < old(self).nodes@.len() ==> #[trigger] lookup(final(self).nodes@, n, p) == lookup(
                    old(self).nodes@,
                    n,
                    p,
                ),
            r is Ok ==> lookup(final(self).nodes@, root as int, path@) == Some(value@),
            r is Ok ==> forall|n: int, p: Seq<u8>|
                0 <= n < old(self).nodes@.len() && old(self).positions@[n] == Seq::<u8>::empty() && p
                    != path@ ==> #[trigger] lookup(final(self).nodes@, n, p) == lookup(old(self).nodes@, n, p),
            r is Ok ==> forall|n: int|
                0 <= n < old(self).nodes@.len() && old(self).positions@[n] == Seq::<u8>::empty() ==> (
                #[trigger] lookup(final(self).nodes@, n, path@) == lookup(old(self).nodes@, n, path@)
                    || lookup(final(self).nodes@, n, path@) == Some(value@)),
    {
        let ghost old_self = *self;
        let ghost old_nodes = self.nodes@;
        let ghost old_pos = self.positions@;
        let ghost p = path@;
        let mut cur: usize = root;
        let mut d: usize = 0;
        assert(p.take(0) =~= Seq::<u8>::empty());
        while d < 64
            invariant
                0 <= d <= 64,
                self.wf(),
                p == path@,
                is_key_path(p),
                self.roots == old(self).roots,
                self.nodes@.len() >= old_nodes.len(),
                self.positions@.subrange(0, old_nodes.len() as int) == old_pos,
                0 <= root < old_nodes.len(),
                reach(self.nodes@, root as int, p.take(d as int)) == Some(cur as int),
                self.positions@[root as int] == Seq::<u8>::empty(),
                forall|n: int, q: Seq<u8>|
                    0 <= n < old_nodes.len() ==> #[trigger] lookup(self.nodes@, n, q) == lookup(
                        old_nodes,
                        n,
                        q,
                    ),
                forall|m: int|
                    0 <= m < old_nodes.len() && #[trigger] old_nodes[m] is Some ==> self.nodes@[m] is Some
                        && self.nodes@[m]->0.references == old_nodes[m]->0.references,
                old_self.counts_cover() ==> self.counts_cover(),
            decreases 64 - d,
        {
            let idx = path[d];
            assert(idx < 16);
            let ghost before = self.nodes@;
            proof {
                lemma_reach_live(before, root as int, p.take(d as int));
                lemma_reach_at_root(before, self.positions@, root as int, p.take(d as int));
                assert(self.positions@[cur as int].len() == d);
                assert(p.take(d as int).push(idx) =~= p.take(d + 1));
                lemma_reach_snoc(before, root as int, p.take(d as int), idx);
            }
            let link = match &self.nodes[cur] {
                Some(node) => node.children[idx as usize],
                None => None,
            };
            assert(link == child(before, cur as int, idx as int));
            let existing = match link {
                Some(c) => {
                    if c < self.nodes.len() {
                        match &self.nodes[c] {
                            Some(_) => Some(c),
                            None => None,
                        }
                    } else {
                        None
                    }
                },
                None => None,
            };
            match existing {
                Some(c) => {
                    cur = c;
                },
                None => {
                    let ghost pos_before = self.positions@;
                    let y = self.add_child(cur, idx as usize);
                    proof {
                        lemma_reach_snoc(self.nodes@, root as int, p.take(d as int), idx);
                        assert(self.positions@.subrange(0, old_nodes.len() as int) =~= pos_before.subrange(
                            0,
                            old_nodes.len() as int,
                        ));
                    }
                    cur = y;
                },
            }
            d = d + 1;
        }
        proof {
            assert(p.take(64) =~= p);
            lemma_reach_live(self.nodes@, root as int, p);
        }
        let has_value = match &self.nodes[cur] {
            Some(node) => node.value.is_some(),
            None => false,
        };
        if has_value {
            return Err(TrieError::AlreadyExists);
        }
        let ghost mid = self.nodes@;
        let ghost mid_pos = self.positions@;
        self.set_slot_value(cur, value);
        proof {
            let nodes = self.nodes@;
            lemma_reach_at_root(mid, mid_pos, root as int, p);
            assert forall|n: int, q: Seq<u8>|
                0 <= n < old_nodes.len() && old_pos[n] == Seq::<u8>::empty() && q != p implies #[trigger] lookup(
                nodes,
                n,
                q,
            ) == lookup(old_nodes, n, q) by {
                lemma_set_value(mid, nodes, cur as int, n, q);
                assert(mid_pos[n] == old_pos[n]);
                if reach(mid, n, q) == Some(cur as int) {
                    lemma_reach_at_root(mid, mid_pos, n, q);
                }
            }
            assert forall|n: int|
                0 <= n < old_nodes.len() && old_pos[n] == Seq::<u8>::empty() implies (#[trigger] lookup(
                nodes,
                n,
                p,
            ) == lookup(old_nodes, n, p) || lookup(nodes, n, p) == Some(value@)) by {
                lemma_set_value(mid, nodes, cur as int, n, p);
            }
            lemma_set_value(mid, nodes, cur as int, root as int, p);
            assert forall|n: int, i: int| #[trigger] child(nodes, n, i) == child(mid, n, i) by {}
            assert forall|n: int| #[trigger] value_of(nodes, n) is Some implies canonical::<V>(value_of(nodes, n)->0) by {
                if n != cur {
                    assert(value_of(nodes, n) == value_of(mid, n));
                }
            }
            assert forall|m: int|
                0 <= m < old_nodes.len() && #[trigger] old_nodes[m] is Some implies nodes[m] is Some
                    && nodes[m]->0.references == old_nodes[m]->0.references by {
                if m != cur {
                    assert(nodes[m] == mid[m]);
                }
            }
            if old_self.counts_cover() {
                assert forall|m: int|
                    0 <= m < mid.len() implies (#[trigger] nodes[m] is Some) == (mid[m] is Some) && (mid[m] is Some
                        ==> nodes[m]->0.children == mid[m]->0.children) by {
                    if m != cur {
                        assert(nodes[m] == mid[m]);
                    }
                }
                assert forall|x: int| #[trigger] live(nodes, x) implies links_to(nodes, x) + root_links(
                    self.roots@,
                    -1,
                    x,
                    self.roots@.len() as int,
                ) <= nodes[x]->0.references by {
                    lemma_links_same_children(mid, nodes, x, mid.len() as int);
                    assert(live(mid, x));
                    if x != cur {
                        assert(nodes[x] == mid[x]);
                    }
                }
            }
        }
        Ok(())
    }

    /// Creates the first root of an empty trie, holding `key` with `value`,
    /// and returns its hash. Fails when the trie already has a root.
    pub fn create_genesis(&mut self, key: K, value: V) -> (r: Result<StdByteArray, TrieError>)
        requires
            old(self).wf(),
            key.hash_input() is Some,
        ensures
            final(self).wf(),
            old(self).root_hashes() != Set::<Seq<u8>>::empty() ==> r == Err::<StdByteArray, TrieError>(
                TrieError::AlreadyExists,
            ) && *final(self) == *old(self),
            old(self).root_hashes() == Set::<Seq<u8>>::empty() ==> r is Ok,
            r matches Ok(h) ==> final(self).root_hashes() == set![h@],
            r matches Ok(h) ==> forall|p: Seq<u8>|
                #[trigger] final(self).state_at(h@, p) == if p == key_path(key) {
                    Some(value.pillar_bytes())
                } else {
                    None
                },
            r matches Ok(h) ==> final(self).root_hash_of(h@) == Some(h@),
            old(self).counts_cover() ==> final(self).counts_cover(),
    {
        if self.roots.len() > 0 {
            proof {
                assert(self.has_root(self.roots@[0].0@));
                assert(self.root_hashes().contains(self.roots@[0].0@));
            }
            return Err(TrieError::AlreadyExists);
        }
        proof {
            assert(self.root_hashes() =~= Set::<Seq<u8>>::empty());
        }
        let ghost old_nodes = self.nodes@;
        let ghost old_self = *self;
        let g = self.nodes.len();
        self.nodes.push(Some(TrieNode::empty()));
        self.positions = Ghost(self.positions@.push(Seq::<u8>::empty()));
        proof {
            let nodes = self.nodes@;
            let pos = self.positions@;
            if old_self.counts_cover() {
                assert(self.roots@.len() == 0);
                assert forall|x: int| #[trigger] live(nodes, x) implies links_to(nodes, x) + root_links(
                    self.roots@,
                    -1,
                    x,
                    self.roots@.len() as int,
                ) <= nodes[x]->0.references by {
                    lemma_links_push_prefix(old_nodes, nodes[g as int], x, old_nodes.len() as int);
                    lemma_links_childless(nodes[g as int]->0, x, 16);
                    assert(nodes == old_nodes.push(nodes[g as int]));
                    if x == g {
                        lemma_links_past_end(old_nodes, old_self.positions@, x, old_nodes.len() as int);
                    } else {
                        assert(live(old_nodes, x));
                        assert(nodes[x] == old_nodes[x]);
                    }
                }
            }
            assert forall|n: int, i: int| (#[trigger] child(nodes, n, i)) is Some implies (child(
                nodes,
                n,
                i,
            )->0 as int) < nodes.len() && pos[child(nodes, n, i)->0 as int] == pos[n].push(i as u8) by {
                assert(child(nodes, n, i) == child(old_nodes, n, i));
            }
            assert forall|n: int| #[trigger] value_of(nodes, n) is Some implies canonical::<V>(value_of(nodes, n)->0) by {
                assert(value_of(nodes, n) == value_of(old_nodes, n));
            }
            assert forall|n: int| 0 <= n < pos.len() implies (#[trigger] pos[n]).len() <= 64 by {
                if n < old_nodes.len() {
                    assert(pos[n] == pos.drop_last()[n]);
                }
            }
            assert(lookup(nodes, g as int, Seq::<u8>::empty()) is None);
            assert forall|q: Seq<u8>| #[trigger] lookup(nodes, g as int, q) is None by {
                lemma_empty_node_finds_nothing(nodes, g as int, q);
            }
        }
        let path = to_nibbles(&key);
        let bytes = value.serialize_pillar();
        proof {
            V::lemma_pillar_roundtrip(value);
        }
        let ghost before = self.nodes@;
        let ghost before_pos = self.positions@;
        let inserted = self.insert_at(&path, bytes, g);
        proof {
            assert(self.positions@[g as int] == self.positions@.subrange(0, before.len() as int)[g as int]);
            assert(self.positions@[g as int] == Seq::<u8>::empty());
        }
        proof {
            assert(lookup(before, g as int, path@) is None) by {
                lemma_empty_node_finds_nothing(before, g as int, path@);
            }
        }
        let ghost after = self.nodes@;
        let mut hasher = DefaultHash::new();
        let hash = match self.get_hash_for(g, &mut hasher) {
            Some(h) => h,
            None => [0u8; 32],
        };
        proof {
            // the root finds the value, so it has something to hash
            lemma_reach_live(after, g as int, path@);
            lemma_found_value_hashes(after, self.positions@, g as int, path@, 64);
            assert(self.slot_depth(g as int) == 64);
        }
        let ghost mid = *self;
        self.roots.push((hash, g));
        proof {
            let nodes = self.nodes@;
            assert(self.roots@.len() == 1);
            if old_self.counts_cover() {
                assert(mid.counts_cover());
                assert(nodes[g as int] is Some && nodes[g as int]->0.references == 1);
                assert forall|x: int| #[trigger] live(nodes, x) implies links_to(nodes, x) + root_links(
                    self.roots@,
                    -1,
                    x,
                    self.roots@.len() as int,
                ) <= nodes[x]->0.references by {
                    assert(root_links(mid.roots@, -1, x, 0) == 0);
                    assert(root_links(self.roots@, -1, x, 0) == 0);
                    assert(root_links(self.roots@, -1, x, 1) == root_links(self.roots@, -1, x, 0) + if self.roots@[0].1
                        == x as usize {
                        1nat
                    } else {
                        0nat
                    });
                    if x == g {
                        assert(mid.wf());
                        assert(self.nodes@.len() == self.nodes.len());
                        assert(arena_wf(nodes, self.positions@));
                        assert(self.positions@[x] == Seq::<u8>::empty());
                        lemma_no_links_to_top(nodes, self.positions@, x, nodes.len() as int);
                        assert(links_to(nodes, x) == 0);
                        assert(root_links(self.roots@, -1, x, 1) == 1);
                    } else {
                        assert(live(mid.nodes@, x));
                        assert(links_to(mid.nodes@, x) + root_links(mid.roots@, -1, x, 0) <= mid.nodes@[x]->0.references);
                        assert(self.nodes@.len() == self.nodes.len());
                        assert(self.roots@[0].1 != x as usize);
                        assert(root_links(self.roots@, -1, x, 1) == 0);
                    }
                }
            }
            assert(self.roots@[0] == (hash, g));
            assert forall|x: Seq<u8>| #[trigger] self.has_root(x) == (x == hash@) by {
                if x == hash@ {
                    assert(0 <= 0 < self.roots@.len() && self.roots@[0].0@ == x);
                }
            }
            assert(self.root_hashes() =~= set![hash@]);
            assert(self.root_slot(hash@) == Some(g as int));
            assert forall|q: Seq<u8>| #[trigger] self.state_at(hash@, q) == if q == key_path(key) {
                Some(value.pillar_bytes())
            } else {
                None
            } by {
                if q != path@ {
                    assert(lookup(before, g as int, q) is None) by {
                        lemma_empty_node_finds_nothing(before, g as int, q);
                    }
                }
            }
            assert(Seq::<u8>::empty() + node_bytes(nodes, g as int, 64) =~= node_bytes(nodes, g as int, 64));
        }
        Ok(hash)
    }
}

impl<K: Hashable, V: PillarSerialize> MerkleTrie<K, V> {
    /// What a well-formed trie stores decodes: every value held in the state
    /// of a root is the encoding of a value of `V`.
    pub proof fn lemma_stored_values_decode(&self, root: Seq<u8>, p: Seq<u8>)
        requires
            self.wf(),
            self.state_at(root, p) is Some,
        ensures
            V::from_pillar_bytes(self.state_at(root, p)->0) is Some,
            V::from_pillar_bytes(self.state_at(root, p)->0)->0.pillar_bytes() == self.state_at(root, p)->0,
    {
        let s = self.root_slot(root)->0;
        let m = reach(self.nodes@, s, p)->0;
        assert(value_of(self.nodes@, m) is Some);
    }

    /// Stores `value` for `key` in the state of `root`, in place: nodes on
    /// the key's path that the root shares with other roots are changed for
    /// them too. Fails when the trie has no such root, or when the state
    /// already holds a value for the key.
    pub fn insert(&mut self, key: K, value: V, root: StdByteArray) -> (r: Result<(), TrieError>)
        requires
            old(self).wf(),
            key.hash_input() is Some,
        ensures
            final(self).wf(),
            old(self).counts_cover() ==> final(self).counts_cover(),
            final(self).root_hashes() == old(self).root_hashes(),
            forall|h: Seq<u8>| #[trigger] final(self).has_root(h) == old(self).has_root(h),
            !old(self).has_root(root@) ==> r == Err::<(), TrieError>(TrieError::NotFound)
                && *final(self) == *old(self),
            old(self).has_root(root@) ==> (r is Err <==> old(self).state_at(root@, key_path(key)) is Some),
            old(self).has_root(root@) && r is Err ==> r == Err::<(), TrieError>(TrieError::AlreadyExists),
            r is Err ==> forall|h: Seq<u8>, p: Seq<u8>|
                #[trigger] final(self).state_at(h, p) == old(self).state_at(h, p),
            r is Ok ==> final(self).state_at(root@, key_path(key)) == Some(value.pillar_bytes()),
            old(self).has_root(root@) ==> (r is Err <==> old(self).value_at(root@, key) is Some),
            r is Ok ==> final(self).value_at(root@, key) == Some(value),
            r is Ok ==> forall|h: Seq<u8>, p: Seq<u8>|
                p != key_path(key) ==> #[trigger] final(self).state_at(h, p) == old(self).state_at(h, p),
            r is Ok ==> forall|h: Seq<u8>|
                #[trigger] final(self).state_at(h, key_path(key)) == old(self).state_at(h, key_path(key))
                    || final(self).state_at(h, key_path(key)) == Some(value.pillar_bytes()),
    {
        let slot = match self.root_key(&root) {
            Some(s) => s,
            None => return Err(TrieError::NotFound),
        };
        let path = to_nibbles(&key);
        let bytes = value.serialize_pillar();
        proof {
            V::lemma_pillar_roundtrip(value);
            let k = self.root_entry(root@)->0;
            assert(self.roots@[k].1 == slot);
        }
        let ghost old_self = *self;
        let r = self.insert_at(&path, bytes, slot);
        proof {
            assert forall|h: Seq<u8>| #[trigger] self.root_slot(h) == old_self.root_slot(h) by {}
            assert forall|h: Seq<u8>| #[trigger] self.has_root(h) == old_self.has_root(h) by {}
            assert(self.root_hashes() =~= old_self.root_hashes());
            assert forall|h: Seq<u8>| old_self.root_slot(h) is Some implies 0 <= #[trigger] old_self.root_slot(h)->0
                < old_self.nodes@.len() && old_self.positions@[old_self.root_slot(h)->0] == Seq::<u8>::empty() by {
                let k = old_self.root_entry(h)->0;
                assert(old_self.roots@[k].1 < old_self.nodes@.len());
            }
        }
        r
    }
}

/// The updates of a branch as key paths and encoded values.
pub open spec fn encoded_updates<K: Hashable, V: PillarSerialize>(ups: Seq<(K, V)>) -> Seq<(Seq<u8>, Seq<u8>)> {
    ups.map_values(|u: (K, V)| (key_path(u.0), u.1.pillar_bytes()))
}

/// The value that the last update for `path` gives, if there is one.
pub open spec fn last_update(ups: Seq<(Seq<u8>, Seq<u8>)>, path: Seq<u8>) -> Option<Seq<u8>>
    decreases ups.len(),
{
    if ups.len() == 0 {
        None
    } else if ups.last().0 == path {
        Some(ups.last().1)
    } else {
        last_update(ups.drop_last(), path)
    }
}

/// The value of the last update for `key`, if there is one.
pub open spec fn last_value_for<K, V>(ups: Seq<(K, V)>, key: K) -> Option<V>
    decreases ups.len(),
{
    if ups.len() == 0 {
        None
    } else if ups.last().0 == key {
        Some(ups.last().1)
    } else {
        last_value_for(ups.drop_last(), key)
    }
}

proof fn lemma_last_update_of_key<K: Hashable, V: PillarSerialize>(ups: Seq<(K, V)>, key: K)
    requires
        forall|i: int| 0 <= i < ups.len() && key_path((#[trigger] ups[i]).0) == key_path(key) ==> ups[i].0 == key,
    ensures
        last_update(encoded_updates(ups), key_path(key)) == match last_value_for(ups, key) {
            Some(v) => Some(v.pillar_bytes()),
            None => None,
        },
    decreases ups.len(),
{
    if ups.len() > 0 {
        let t = ups.drop_last();
        assert(encoded_updates(ups).drop_last() =~= encoded_updates(t));
        assert(forall|i: int| 0 <= i < t.len() ==> t[i] == ups[i]);
        lemma_last_update_of_key(t, key);
        assert(ups[ups.len() - 1] == ups.last());
    }
}

impl<K: Hashable, V: PillarSerialize> MerkleTrie<K, V> {
    /// What a branch gives, key by key: when the state of `h` in `after` is
    /// the state of `origin` in `before` with the updates `ups` applied in
    /// order (as `branch` ensures), the value at `key` is the last update for
    /// `key`, or the value at `origin` when no update names it. It holds when
    /// no other key of the updates has the same key path (a SHA3-256
    /// collision) as `key`.
    pub proof fn lemma_branch_value_at_key(
        before: Self,
        after: Self,
        origin: Seq<u8>,
        h: Seq<u8>,
        ups: Seq<(K, V)>,
        key: K,
    )
        requires
            forall|p: Seq<u8>|
                #[trigger] after.state_at(h, p) == match last_update(encoded_updates(ups), p) {
                    Some(v) => Some(v),
                    None => before.state_at(origin, p),
                },
            forall|i: int| 0 <= i < ups.len() && key_path((#[trigger] ups[i]).0) == key_path(key) ==> ups[i].0 == key,
        ensures
            after.value_at(h, key) == match last_value_for(ups, key) {
                Some(v) => Some(v),
                None => before.value_at(origin, key),
            },
    {
        lemma_last_update_of_key(ups, key);
        let _ = after.state_at(h, key_path(key));
        match last_value_for(ups, key) {
            Some(v) => {
                V::lemma_pillar_roundtrip(v);
            },
            None => {},
        }
    }
}

/// Whether `x` is among the slots in `v`.
fn contains_slot(v: &Vec<usize>, x: usize) -> (r: bool)
    ensures
        r == v@.contains(x),
{
    let mut i: usize = 0;
    while i < v.len()
        invariant
            0 <= i <= v@.len(),
            forall|j: int| 0 <= j < i ==> v@[j] != x,
        decreases v@.len() - i,
    {
        if v[i] == x {
            return true;
        }
        i = i + 1;
    }
    false
}

impl<K: Hashable, V: PillarSerialize> MerkleTrie<K, V> {
    /// Appends a copy of the node under nibble `idx` of slot `cur` and links
    /// the copy there instead. What any old slot finds stays the same, and
    /// every path that reached `cur` still does.
    fn relink_to_copy(&mut self, cur: usize, idx: usize, o: usize) -> (y: usize)
        requires
            old(self).wf(),
            live(old(self).nodes@, cur as int),
            idx < 16,
            child(old(self).nodes@, cur as int, idx as int) == Some(o),
            live(old(self).nodes@, o as int),
        ensures
            final(self).wf(),
            y == old(self).nodes@.len(),
            final(self).nodes@.len() == old(self).nodes@.len() + 1,
            final(self).roots == old(self).roots,
            final(self).positions@ == old(self).positions@.push(old(self).positions@[o as int]),
            forall|m: int| 0 <= m < old(self).nodes@.len() && m != cur ==> #[trigger] final(self).nodes@[m]
                == old(self).nodes@[m],
            child(final(self).nodes@, cur as int, idx as int) == Some(y),
            live(final(self).nodes@, y as int),
            final(self).nodes@[y as int]->0.references == old(self).nodes@[o as int]->0.references,
            final(self).nodes@[y as int]->0.children == old(self).nodes@[o as int]->0.children,
            final(self).nodes@[cur as int]->0.references == old(self).nodes@[cur as int]->0.references,
            value_of(final(self).nodes@, cur as int) == value_of(old(self).nodes@, cur as int),
            forall|x: int|
                0 <= x <= usize::MAX ==> #[trigger] links_to(final(self).nodes@, x) + (if x == o {
                    1int
                } else {
                    0int
                }) == links_to(old(self).nodes@, x) + (if x == y {
                    1int
                } else {
                    0int
                }) + links_in_node(old(self).nodes@[o as int]->0, x, 16),
            forall|x: int|
                0 <= x <= usize::MAX ==> #[trigger] links_in_node(final(self).nodes@[cur as int]->0, x, 16) + (
                if x == o {
                    1int
                } else {
                    0int
                }) == links_in_node(old(self).nodes@[cur as int]->0, x, 16) + (if x == y {
                    1int
                } else {
                    0int
                }),
            forall|n: int, p: Seq<u8>|
                0 <= n < old(self).nodes@.len() ==> #[trigger] lookup(final(self).nodes@, n, p) == lookup(
                    old(self).nodes@,
                    n,
                    p,
                ),
            forall|n: int, q: Seq<u8>|
                reach(old(self).nodes@, n, q) == Some(cur as int) ==> #[trigger] reach(
                    final(self).nodes@,
                    n,
                    q,
                ) == Some(cur as int),
    {
        let ghost old_nodes = self.nodes@;
        let ghost old_pos = self.positions@;
        let y = self.push_copy(o);
        let grown = self.nodes.len();
        assert(old_nodes.len() < usize::MAX) by {
            assert(grown == old_nodes.len() + 1);
        }
        let ghost mid = self.nodes@;
        self.set_link(cur, idx, Some(y));
        proof {
            let nodes = self.nodes@;
            let pos = self.positions@;
            assert forall|m: int| 0 <= m < old_nodes.len() && m != cur implies #[trigger] nodes[m]
                == old_nodes[m] by {
                assert(mid[m] == old_nodes[m]);
            }
            assert(nodes[y as int] == mid[y as int]);
            lemma_arena_closed(old_nodes, old_pos);
            assert forall|n: int, p: Seq<u8>| 0 <= n < old_nodes.len() implies #[trigger] lookup(
                nodes,
                n,
                p,
            ) == lookup(old_nodes, n, p) by {
                lemma_relink_copy(old_nodes, nodes, cur as int, idx as int, o as int, n, p);
            }
            assert forall|n: int, q: Seq<u8>| reach(old_nodes, n, q) == Some(cur as int) implies #[trigger] reach(
                nodes,
                n,
                q,
            ) == Some(cur as int) by {
                lemma_keep_reach(old_nodes, nodes, old_pos, cur as int, n, q);
            }
            assert(pos[o as int] == pos[cur as int].push(idx as u8));
            assert forall|n: int, i: int| (#[trigger] child(nodes, n, i)) is Some implies (child(
                nodes,
                n,
                i,
            )->0 as int) < nodes.len() && pos[child(nodes, n, i)->0 as int] == pos[n].push(i as u8) by {
                if n == cur && i == idx {
                } else {
                    assert(child(nodes, n, i) == child(mid, n, i));
                }
            }
            assert forall|n: int| #[trigger] value_of(nodes, n) is Some implies canonical::<V>(value_of(nodes, n)->0) by {
                if n != cur {
                    assert(value_of(nodes, n) == value_of(mid, n));
                }
            }
            assert(old_nodes[cur as int]->0.children@[idx as int] == Some(o));
            assert forall|x: int| 0 <= x <= usize::MAX implies #[trigger] links_to(nodes, x) + (if x == o {
                1int
            } else {
                0int
            }) == links_to(old_nodes, x) + (if x == y {
                1int
            } else {
                0int
            }) + links_in_node(old_nodes[o as int]->0, x, 16) by {
                lemma_links_append_relink(old_nodes, nodes, cur as int, idx as int, x);
                lemma_links_in_node_same(nodes[y as int]->0, old_nodes[o as int]->0, x, 16);
                assert((Some(o) == Some(x as usize)) == (x == o));
            }
            assert forall|x: int| 0 <= x <= usize::MAX implies #[trigger] links_in_node(nodes[cur as int]->0, x, 16) + (
            if x == o {
                1int
            } else {
                0int
            }) == links_in_node(old_nodes[cur as int]->0, x, 16) + (if x == y {
                1int
            } else {
                0int
            }) by {
                lemma_links_append_relink(old_nodes, nodes, cur as int, idx as int, x);
                assert((Some(o) == Some(x as usize)) == (x == o));
            }
        }
        y
    }

    /// Makes a new root from the state of `origin` with `updates` applied in
    /// order, copying the nodes on the updated paths and sharing the rest,
    /// and returns the new root's hash. Fails when there are no updates, when
    /// no origin is given, or when the origin is not a root. (A missing origin
    /// in an empty trie is a caller error that `requires` rules out.)
    pub fn branch(&mut self, origin: Option<StdByteArray>, updates: Vec<(K, V)>) -> (r: Result<StdByteArray, TrieError>)
        requires
            old(self).wf(),
            forall|i: int| 0 <= i < updates@.len() ==> (#[trigger] updates@[i]).0.hash_input() is Some,
            origin is None && updates@.len() > 0 ==> old(self).root_hashes() != Set::<Seq<u8>>::empty(),
        ensures
            final(self).wf(),
            updates@.len() == 0 ==> r == Err::<StdByteArray, TrieError>(TrieError::EmptyUpdates),
            updates@.len() > 0 && origin is None ==> r == Err::<StdByteArray, TrieError>(TrieError::AlreadyExists),
            updates@.len() > 0 && origin is Some && !old(self).has_root(origin->0@) ==> r == Err::<
                StdByteArray,
                TrieError,
            >(TrieError::NotFound),
            updates@.len() > 0 && origin is Some && old(self).has_root(origin->0@) ==> r is Ok,
            r is Err ==> *final(self) == *old(self),
            r matches Ok(h) ==> final(self).root_hashes() == old(self).root_hashes().insert(h@),
            r matches Ok(h) ==> forall|g: Seq<u8>| #[trigger] final(self).has_root(g) == (old(self).has_root(g) || g == h@),
            r matches Ok(h) ==> forall|p: Seq<u8>|
                #[trigger] final(self).state_at(h@, p) == match last_update(encoded_updates(updates@), p) {
                    Some(v) => Some(v),
                    None => old(self).state_at(origin->0@, p),
                },
            r matches Ok(h) ==> forall|g: Seq<u8>, p: Seq<u8>|
                g != h@ ==> #[trigger] final(self).state_at(g, p) == old(self).state_at(g, p),
            r matches Ok(h) ==> final(self).root_hash_of(h@) == Some(h@),
            updates@.len() == 1 && old(self).counts_cover() && old(self).counts_room() && r is Ok
                ==> final(self).counts_cover(),
    {
        if updates.len() == 0 {
            return Err(TrieError::EmptyUpdates);
        }
        let o = match origin {
            Some(o) => o,
            None => return Err(TrieError::AlreadyExists),
        };
        let origin_slot = match self.root_key(&o) {
            Some(s) => s,
            None => return Err(TrieError::NotFound),
        };
        let ghost old_self = *self;
        let ghost old_nodes = self.nodes@;
        let ghost bound = old_nodes.len() as int;
        let ghost enc = encoded_updates(updates@);
        proof {
            let k = self.root_entry(o@)->0;
            assert(self.roots@[k].1 == origin_slot);
            assert(live(old_nodes, origin_slot as int));
            lemma_arena_closed(old_nodes, self.positions@);
        }
        let root = self.push_copy(origin_slot);
        proof {
            assert forall|p: Seq<u8>| #[trigger] lookup(self.nodes@, root as int, p) == lookup(
                old_nodes,
                origin_slot as int,
                p,
            ) by {
                lemma_copy_finds_same(old_nodes, self.nodes@, origin_slot as int, p);
            }
            assert forall|m: int| 0 <= m < bound implies same_node(#[trigger] self.nodes@[m], old_nodes[m]) by {
                assert(self.nodes@[m] == old_nodes[m]);
            }
        }
        let ghost single = updates@.len() == 1 && old_self.counts_cover() && old_self.counts_room();
        proof {
            let nodes = self.nodes@;
            let pos = self.positions@;
            assert(nodes.len() == self.nodes.len());
            if single {
                assert forall|x: int| #[trigger] live(nodes, x) implies links_to(nodes, x) + root_links(
                    self.roots@,
                    -1,
                    x,
                    self.roots@.len() as int,
                ) <= nodes[x]->0.references + (links_in_node(nodes[root as int]->0, x, 16) as int) by {
                    lemma_links_in_node_same(nodes[root as int]->0, old_nodes[origin_slot as int]->0, x, 16);
                    if x == root {
                        lemma_links_past_end(old_nodes, old_self.positions@, x, bound);
                        assert forall|j: int| 0 <= j < 16 implies #[trigger] old_nodes[origin_slot as int]->0.children@[j]
                            != Some(x as usize) by {
                            if old_nodes[origin_slot as int]->0.children@[j] is Some {
                                assert(child(old_nodes, origin_slot as int, j) == old_nodes[origin_slot as int]->0.children@[j]);
                            }
                        }
                        lemma_links_none(old_nodes[origin_slot as int]->0, x, 16);
                        assert forall|j: int| 0 <= j < self.roots@.len() implies #[trigger] self.roots@[j].1 != x as usize by {
                            assert(old_self.roots@[j].1 < bound);
                        }
                        lemma_root_links_absent(self.roots@, -1, x, self.roots@.len() as int);
                    } else {
                        assert(live(old_nodes, x));
                        assert(nodes[x] == old_nodes[x]);
                    }
                }
                assert(covered_with(nodes, self.roots@, |x: int| links_in_node(nodes[root as int]->0, x, 16) as int));
                assert forall|x: int| #[trigger] live(nodes, x) && pos[x].len() > 0 implies nodes[x]->0.references
                    < u16::MAX by {
                    if x == root {
                        assert(pos[x] == Seq::<u8>::empty());
                    } else {
                        assert(live(old_nodes, x));
                        assert(nodes[x] == old_nodes[x]);
                    }
                }
                assert(room_below(nodes, pos, 0));
                let ko = self.root_entry(o@)->0;
                lemma_root_links_counted(old_self.roots@, ko, origin_slot as int, old_self.roots@.len() as int);
                assert(live(old_nodes, origin_slot as int));
                assert(old_nodes[origin_slot as int]->0.references >= 1);
            }
        }
        let mut new_keys: Vec<usize> = Vec::new();
        let mut u: usize = 0;
        while u < updates.len()
            invariant
                self.wf(),
                self.roots == old_self.roots,
                enc == encoded_updates(updates@),
                forall|i: int| 0 <= i < updates@.len() ==> (#[trigger] updates@[i]).0.hash_input() is Some,
                0 <= u <= updates@.len(),
                bound == old_nodes.len(),
                bound <= root < self.nodes@.len(),
                live(self.nodes@, root as int),
                self.positions@[root as int] == Seq::<u8>::empty(),
                forall|m: int| 0 <= m < bound ==> same_node(#[trigger] self.nodes@[m], old_nodes[m]),
                forall|j: int| 0 <= j < new_keys@.len() ==> bound <= #[trigger] new_keys@[j] < self.nodes@.len()
                    && live(self.nodes@, new_keys@[j] as int),
                u > 0 ==> lookup(self.nodes@, root as int, enc[u - 1].0) is Some,
                u > 0 ==> enc[u - 1].0.len() == 64,
                forall|p: Seq<u8>| #[trigger] lookup(self.nodes@, root as int, p) == match last_update(
                    enc.take(u as int),
                    p,
                ) {
                    Some(v) => Some(v),
                    None => lookup(old_nodes, origin_slot as int, p),
                },
                self.nodes@[root as int]->0.references == old_nodes[origin_slot as int]->0.references,
                forall|j3: int| 0 <= j3 < self.roots@.len() ==> (#[trigger] self.roots@[j3]).1 < bound,
                single ==> updates@.len() == 1 && old_nodes[origin_slot as int]->0.references >= 1,
                single && u == 0 ==> covered_with(
                    self.nodes@,
                    self.roots@,
                    |x: int| links_in_node(self.nodes@[root as int]->0, x, 16) as int,
                ),
                single && u == 0 ==> room_below(self.nodes@, self.positions@, 0),
                single && u == 0 ==> new_keys@.len() == 0,
                single && u == 1 ==> covered_with(self.nodes@, self.roots@, |x: int| 0int),
            decreases updates@.len() - u,
        {
            let path = to_nibbles(&updates[u].0);
            let bytes = updates[u].1.serialize_pillar();
            proof {
                V::lemma_pillar_roundtrip(updates@[u as int].1);
                assert(enc[u as int] == (path@, bytes@));
            }
            let ghost p = path@;
            let ghost target = |q: Seq<u8>| match last_update(enc.take(u as int), q) {
                Some(v) => Some(v),
                None => lookup(old_nodes, origin_slot as int, q),
            };
            let mut cur: usize = root;
            let mut d: usize = 0;
            assert(p.take(0) =~= Seq::<u8>::empty());
            while d < 64
                invariant
                    self.wf(),
                    self.roots == old_self.roots,
                    p == path@,
                    is_key_path(p),
                    0 <= d <= 64,
                    bound == old_nodes.len(),
                    bound <= root < self.nodes@.len(),
                    bound <= cur < self.nodes@.len(),
                    live(self.nodes@, root as int),
                    self.positions@[root as int] == Seq::<u8>::empty(),
                    forall|m: int| 0 <= m < bound ==> same_node(#[trigger] self.nodes@[m], old_nodes[m]),
                    forall|j: int| 0 <= j < new_keys@.len() ==> bound <= #[trigger] new_keys@[j]
                        < self.nodes@.len() && live(self.nodes@, new_keys@[j] as int),
                    reach(self.nodes@, root as int, p.take(d as int)) == Some(cur as int),
                    forall|q: Seq<u8>| #[trigger] lookup(self.nodes@, root as int, q) == target(q),
                    self.nodes@[root as int]->0.references == old_nodes[origin_slot as int]->0.references,
                    forall|j3: int| 0 <= j3 < self.roots@.len() ==> (#[trigger] self.roots@[j3]).1 < bound,
                    single ==> u == 0,
                    single ==> covered_with(
                        self.nodes@,
                        self.roots@,
                        |x: int| links_in_node(self.nodes@[cur as int]->0, x, 16) as int,
                    ),
                    single ==> room_below(self.nodes@, self.positions@, d as int),
                    single ==> forall|j2: int|
                        0 <= j2 < new_keys@.len() ==> self.positions@[#[trigger] new_keys@[j2] as int].len() <= d,
                decreases 64 - d,
            {
                let idx = path[d];
                assert(idx < 16);
                let ghost before = self.nodes@;
                let ghost before_pos = self.positions@;
                proof {
                    lemma_reach_live(before, root as int, p.take(d as int));
                    lemma_reach_at_root(before, self.positions@, root as int, p.take(d as int));
                    assert(self.positions@[cur as int].len() == d);
                    assert(p.take(d as int).push(idx) =~= p.take(d + 1));
                }
                let link = match &self.nodes[cur] {
                    Some(node) => node.children[idx as usize],
                    None => None,
                };
                assert(link == child(before, cur as int, idx as int));
                let live_link = match link {
                    Some(c) => {
                        if c < self.nodes.len() {
                            match &self.nodes[c] {
                                Some(_) => Some(c),
                                None => None,
                            }
                        } else {
                            None
                        }
                    },
                    None => None,
                };
                let ghost new_keys_before = new_keys@;
                let ghost cur_depth = d as int;
                let next = match live_link {
                    Some(c) => {
                        proof {
                            assert(child(before, cur as int, idx as int) == Some(c));
                            assert(before_pos[c as int] == before_pos[cur as int].push(idx));
                        }
                        if contains_slot(&new_keys, c) {
                            proof {
                                if single {
                                    let j2 = choose|j2: int| 0 <= j2 < new_keys@.len() && new_keys@[j2] == c;
                                    assert(self.positions@[new_keys@[j2] as int].len() <= d);
                                }
                            }
                            c
                        } else {
                            let y = self.relink_to_copy(cur, idx as usize, c);
                            proof {
                                let nodes = self.nodes@;
                                assert(nodes.len() == self.nodes.len());
                                if single {
                                    lemma_arena_closed(before, before_pos);
                                    assert forall|x: int| #[trigger] live(nodes, x) implies links_to(nodes, x)
                                        + root_links(self.roots@, -1, x, self.roots@.len() as int)
                                        <= nodes[x]->0.references + ((links_in_node(nodes[cur as int]->0, x, 16)
                                        - links_in_node(nodes[cur as int]->0, x, 0) + links_in_node(
                                        nodes[y as int]->0,
                                        x,
                                        16,
                                    )) as int) by {
                                        lemma_links_in_node_same(nodes[y as int]->0, before[c as int]->0, x, 16);
                                        if x == y {
                                            lemma_links_past_end(before, before_pos, x, before.len() as int);
                                            assert forall|j3: int| 0 <= j3 < 16 implies #[trigger] before[c as int]->0.children@[j3]
                                                != Some(x as usize) by {
                                                if before[c as int]->0.children@[j3] is Some {
                                                    assert(child(before, c as int, j3) == before[c as int]->0.children@[j3]);
                                                }
                                            }
                                            lemma_links_none(before[c as int]->0, x, 16);
                                            assert forall|j3: int| 0 <= j3 < 16 implies #[trigger] before[cur as int]->0.children@[j3]
                                                != Some(x as usize) by {
                                                if before[cur as int]->0.children@[j3] is Some {
                                                    assert(child(before, cur as int, j3) == before[cur as int]->0.children@[j3]);
                                                }
                                            }
                                            lemma_links_none(before[cur as int]->0, x, 16);
                                            assert forall|j3: int| 0 <= j3 < self.roots@.len() implies #[trigger] self.roots@[j3].1
                                                != x as usize by {
                                                assert(self.roots@[j3].1 < bound);
                                            }
                                            lemma_root_links_absent(self.roots@, -1, x, self.roots@.len() as int);
                                        } else {
                                            assert(live(before, x));
                                            if x != cur {
                                                assert(nodes[x] == before[x]);
                                            }
                                        }
                                    }
                                    assert forall|x: int| #[trigger] live(nodes, x) && self.positions@[x].len() > d implies nodes[x]->0.references
                                        < u16::MAX by {
                                        if x == y {
                                            assert(live(before, c as int));
                                        } else {
                                            assert(live(before, x));
                                            if x != cur {
                                                assert(nodes[x] == before[x]);
                                            }
                                        }
                                    }
                                }
                            }
                            y
                        }
                    },
                    None => {
                        let y = self.add_child(cur, idx as usize);
                        new_keys.push(y);
                        proof {
                            let nodes = self.nodes@;
                            assert(nodes.len() == self.nodes.len());
                            if single {
                                lemma_links_childless(nodes[y as int]->0, y as int, 16);
                                assert forall|x: int| #[trigger] live(nodes, x) implies links_to(nodes, x)
                                    + root_links(self.roots@, -1, x, self.roots@.len() as int)
                                    <= nodes[x]->0.references + ((links_in_node(nodes[cur as int]->0, x, 16)
                                    - links_in_node(nodes[cur as int]->0, x, 0) + links_in_node(
                                    nodes[y as int]->0,
                                    x,
                                    16,
                                )) as int) by {
                                    lemma_links_childless(nodes[y as int]->0, x, 16);
                                    if x == y {
                                        lemma_links_past_end(before, before_pos, x, before.len() as int);
                                        assert(before[cur as int]->0.children@[idx as int] != Some(x as usize)) by {
                                            if before[cur as int]->0.children@[idx as int] is Some {
                                                assert(child(before, cur as int, idx as int) == before[cur as int]->0.children@[idx as int]);
                                            }
                                        }
                                        assert forall|j3: int| 0 <= j3 < self.roots@.len() implies #[trigger] self.roots@[j3].1
                                            != x as usize by {
                                            assert(self.roots@[j3].1 < bound);
                                        }
                                        lemma_root_links_absent(self.roots@, -1, x, self.roots@.len() as int);
                                    } else {
                                        assert(live(before, x));
                                        if x != cur {
                                            assert(nodes[x] == before[x]);
                                        }
                                    }
                                }
                                assert(links_to(nodes, y as int) + root_links(self.roots@, -1, y as int, self.roots@.len() as int)
                                    <= nodes[y as int]->0.references) by {
                                    lemma_links_past_end(before, before_pos, y as int, before.len() as int);
                                    assert(before[cur as int]->0.children@[idx as int] != Some(y as usize)) by {
                                        if before[cur as int]->0.children@[idx as int] is Some {
                                            assert(child(before, cur as int, idx as int) == before[cur as int]->0.children@[idx as int]);
                                        }
                                    }
                                    assert forall|j3: int| 0 <= j3 < self.roots@.len() implies #[trigger] self.roots@[j3].1
                                        != y as usize by {
                                        assert(self.roots@[j3].1 < bound);
                                    }
                                    lemma_root_links_absent(self.roots@, -1, y as int, self.roots@.len() as int);
                                }
                                assert forall|x: int| #[trigger] live(nodes, x) && self.positions@[x].len() > d implies nodes[x]->0.references
                                    < u16::MAX by {
                                    if x != y {
                                        assert(live(before, x));
                                        if x != cur {
                                            assert(nodes[x] == before[x]);
                                        }
                                    }
                                }
                            }
                        }
                        y
                    },
                };
                proof {
                    let nodes = self.nodes@;
                    assert(self.positions@[root as int] == before_pos[root as int]);
                    assert(self.positions@[cur as int] == before_pos[cur as int]);
                    assert forall|m: int| 0 <= m < bound implies same_node(#[trigger] nodes[m], old_nodes[m]) by {
                        assert(nodes[m] == before[m]);
                    }
                    assert forall|q: Seq<u8>| #[trigger] lookup(nodes, root as int, q) == target(q) by {
                        assert(lookup(nodes, root as int, q) == lookup(before, root as int, q));
                    }
                    assert(reach(nodes, root as int, p.take(d as int)) == Some(cur as int));
                    lemma_reach_snoc(nodes, root as int, p.take(d as int), idx);
                    assert(reach(nodes, root as int, p.take(d + 1)) == Some(next as int));
                    assert forall|j: int| 0 <= j < new_keys@.len() implies bound <= #[trigger] new_keys@[j]
                        < nodes.len() && live(nodes, new_keys@[j] as int) by {
                        if new_keys@[j] != cur && new_keys@[j] < before.len() {
                            assert(nodes[new_keys@[j] as int] == before[new_keys@[j] as int]);
                        }
                    }
                    assert(nodes[root as int]->0.references == old_nodes[origin_slot as int]->0.references) by {
                        if root != cur {
                            assert(nodes[root as int] == before[root as int]);
                        }
                    }
                    lemma_reach_live(nodes, root as int, p.take(d + 1));
                    lemma_reach_at_root(nodes, self.positions@, root as int, p.take(d + 1));
                    if single {
                        assert forall|j2: int| 0 <= j2 < new_keys@.len() implies self.positions@[#[trigger] new_keys@[j2] as int].len()
                            <= d || new_keys@[j2] == next by {
                            if j2 < new_keys_before.len() {
                                assert(new_keys@[j2] == new_keys_before[j2]);
                            }
                        }
                    }
                }
                let ghost next_fresh_key = new_keys@.contains(next);
                let ghost cur_children = self.nodes@[cur as int]->0.children;
                let mut j: usize = 0;
                while j < 16
                    invariant
                        self.wf(),
                        self.roots == old_self.roots,
                        0 <= j <= 16,
                        bound == old_nodes.len(),
                        bound <= root < self.nodes@.len(),
                        bound <= cur < self.nodes@.len(),
                        bound <= next < self.nodes@.len(),
                        live(self.nodes@, root as int),
                        live(self.nodes@, cur as int),
                        live(self.nodes@, next as int),
                        self.positions@[root as int] == Seq::<u8>::empty(),
                        self.positions@[cur as int].len() == d,
                        self.positions@[next as int].len() == d + 1,
                        self.nodes@[cur as int]->0.children == cur_children,
                        forall|m: int| 0 <= m < bound ==> same_node(#[trigger] self.nodes@[m], old_nodes[m]),
                        forall|j2: int| 0 <= j2 < new_keys@.len() ==> bound <= #[trigger] new_keys@[j2]
                            < self.nodes@.len() && live(self.nodes@, new_keys@[j2] as int),
                        reach(self.nodes@, root as int, p.take(d + 1)) == Some(next as int),
                        forall|q: Seq<u8>| #[trigger] lookup(self.nodes@, root as int, q) == target(q),
                        self.nodes@[root as int]->0.references == old_nodes[origin_slot as int]->0.references,
                        single ==> u == 0,
                        single ==> covered_with(
                            self.nodes@,
                            self.roots@,
                            |x: int|
                                (links_in_node(self.nodes@[cur as int]->0, x, 16) - links_in_node(
                                    self.nodes@[cur as int]->0,
                                    x,
                                    j as int,
                                ) + links_in_node(self.nodes@[next as int]->0, x, 16)) as int,
                        ),
                        single ==> room_below(self.nodes@, self.positions@, d + 1),
                        single ==> forall|i2: int|
                            j <= i2 < 16 && #[trigger] child(self.nodes@, cur as int, i2) is Some && live(
                                self.nodes@,
                                child(self.nodes@, cur as int, i2)->0 as int,
                            ) ==> self.nodes@[child(self.nodes@, cur as int, i2)->0 as int]->0.references < u16::MAX,
                        single ==> forall|j2: int|
                            0 <= j2 < new_keys@.len() ==> self.positions@[#[trigger] new_keys@[j2] as int].len() <= d
                                || new_keys@[j2] == next,
                        single && new_keys@.contains(next) ==> links_to(self.nodes@, next as int) + root_links(
                            self.roots@,
                            -1,
                            next as int,
                            self.roots@.len() as int,
                        ) <= self.nodes@[next as int]->0.references,
                    decreases 16 - j,
                {
                    let ghost prev = self.nodes@;
                    let k = match &self.nodes[cur] {
                        Some(node) => node.children[j],
                        None => None,
                    };
                    proof {
                        assert(k == child(prev, cur as int, j as int));
                    }
                    match k {
                        Some(k) => {
                            proof {
                                assert(self.positions@[k as int] == self.positions@[cur as int].push(j as u8));
                            }
                            if !contains_slot(&new_keys, k) {
                                self.add_reference(k);
                                proof {
                                    let nodes = self.nodes@;
                                    lemma_arena_closed(prev, self.positions@);
                                    assert forall|m: int| 0 <= m < prev.len() implies same_node(
                                        #[trigger] prev[m],
                                        nodes[m],
                                    ) by {
                                        assert(same_node(nodes[m], prev[m]));
                                    }
                                    assert forall|q: Seq<u8>| #[trigger] lookup(nodes, root as int, q) == target(q) by {
                                        lemma_frame(prev, nodes, prev.len() as int, root as int, q);
                                    }
                                    lemma_frame(prev, nodes, prev.len() as int, root as int, p.take(d + 1));
                                    assert forall|m: int| 0 <= m < bound implies same_node(
                                        #[trigger] nodes[m],
                                        old_nodes[m],
                                    ) by {
                                        assert(same_node(nodes[m], prev[m]));
                                    }
                                    assert forall|j2: int| 0 <= j2 < new_keys@.len() implies bound
                                        <= #[trigger] new_keys@[j2] < nodes.len() && live(
                                        nodes,
                                        new_keys@[j2] as int,
                                    ) by {
                                        assert(same_node(nodes[new_keys@[j2] as int], prev[new_keys@[j2] as int]));
                                    }
                                    assert(same_node(nodes[cur as int], prev[cur as int]));
                                    assert(same_node(nodes[root as int], prev[root as int]));
                                    assert(same_node(nodes[next as int], prev[next as int]));
                                    assert(k != root) by {
                                        assert(self.positions@[k as int].len() == d + 1);
                                    }
                                    assert(k != cur) by {
                                        assert(self.positions@[k as int].len() == d + 1);
                                    }
                                    assert(nodes[root as int] == prev[root as int]);
                                    assert(nodes[cur as int] == prev[cur as int]);
                                    if single {
                                        lemma_links_in_node_same(nodes[next as int]->0, prev[next as int]->0, 0, 16);
                                        assert forall|x: int| #[trigger] live(nodes, x) implies links_to(nodes, x)
                                            + root_links(self.roots@, -1, x, self.roots@.len() as int)
                                            <= nodes[x]->0.references + ((links_in_node(nodes[cur as int]->0, x, 16)
                                            - links_in_node(nodes[cur as int]->0, x, j + 1) + links_in_node(
                                            nodes[next as int]->0,
                                            x,
                                            16,
                                        )) as int) by {
                                            assert(live(prev, x));
                                            lemma_links_in_node_same(nodes[next as int]->0, prev[next as int]->0, x, 16);
                                            assert(links_to(nodes, x) == links_to(prev, x));
                                            assert(links_in_node(nodes[cur as int]->0, x, j + 1) == links_in_node(
                                                nodes[cur as int]->0,
                                                x,
                                                j as int,
                                            ) + if nodes[cur as int]->0.children@[j as int] == Some(x as usize) {
                                                1nat
                                            } else {
                                                0nat
                                            });
                                            assert(nodes[cur as int]->0.children@[j as int] == Some(k));
                                            if x == k {
                                                assert(child(prev, cur as int, j as int) == Some(k));
                                                assert(prev[k as int]->0.references < u16::MAX);
                                                assert(nodes[k as int]->0.references == prev[k as int]->0.references + 1);
                                            } else {
                                                assert(nodes[x] == prev[x]);
                                                assert(nodes.len() == self.nodes.len());
                                                assert(Some(k) != Some(x as usize));
                                            }
                                        }
                                        assert forall|x: int| #[trigger] live(nodes, x) && self.positions@[x].len() > d + 1 implies nodes[x]->0.references
                                            < u16::MAX by {
                                            assert(live(prev, x));
                                            if x != k {
                                                assert(nodes[x] == prev[x]);
                                            }
                                        }
                                        assert forall|i2: int|
                                            j + 1 <= i2 < 16 && #[trigger] child(nodes, cur as int, i2) is Some && live(
                                                nodes,
                                                child(nodes, cur as int, i2)->0 as int,
                                            ) implies nodes[child(nodes, cur as int, i2)->0 as int]->0.references
                                            < u16::MAX by {
                                            let c2 = child(nodes, cur as int, i2)->0 as int;
                                            assert(child(prev, cur as int, i2) == child(nodes, cur as int, i2));
                                            assert(self.positions@[c2] == self.positions@[cur as int].push(i2 as u8));
                                            if c2 == k {
                                                assert(self.positions@[c2][d as int] == i2 as u8);
                                                assert(self.positions@[k as int][d as int] == j as u8);
                                            }
                                            assert(nodes[c2] == prev[c2]);
                                        }
                                        if new_keys@.contains(next) {
                                            assert(k != next) by {
                                                if k == next {
                                                    assert(new_keys@.contains(k));
                                                }
                                            }
                                            assert(nodes[next as int] == prev[next as int]);
                                        }
                                    }
                                }
                            } else {
                                proof {
                                    if single {
                                        let j2 = choose|j2: int| 0 <= j2 < new_keys@.len() && new_keys@[j2] == k;
                                        assert(self.positions@[new_keys@[j2] as int].len() <= d || new_keys@[j2] == next);
                                        assert(k == next);
                                        assert(new_keys@.contains(next));
                                        let nodes = self.nodes@;
                                        assert forall|x: int| #[trigger] live(nodes, x) implies links_to(nodes, x)
                                            + root_links(self.roots@, -1, x, self.roots@.len() as int)
                                            <= nodes[x]->0.references + ((links_in_node(nodes[cur as int]->0, x, 16)
                                            - links_in_node(nodes[cur as int]->0, x, j + 1) + links_in_node(
                                            nodes[next as int]->0,
                                            x,
                                            16,
                                        )) as int) by {
                                            assert(nodes[cur as int]->0.children@[j as int] == Some(k));
                                            assert(links_in_node(nodes[cur as int]->0, x, j + 1) == links_in_node(
                                                nodes[cur as int]->0,
                                                x,
                                                j as int,
                                            ) + if nodes[cur as int]->0.children@[j as int] == Some(x as usize) {
                                                1nat
                                            } else {
                                                0nat
                                            });
                                            assert(nodes.len() == self.nodes.len());
                                            if x != k {
                                                assert(Some(k) != Some(x as usize));
                                            } else {
                                                lemma_links_in_node_mono(nodes[cur as int]->0, x, j + 1, 16);
                                            }
                                        }
                                    }
                                }
                            }
                        },
                        None => {
                            proof {
                                if single {
                                    let nodes = self.nodes@;
                                    assert(nodes[cur as int]->0.children@[j as int] is None);
                                    assert forall|x: int| #[trigger] live(nodes, x) implies links_to(nodes, x)
                                        + root_links(self.roots@, -1, x, self.roots@.len() as int)
                                        <= nodes[x]->0.references + ((links_in_node(nodes[cur as int]->0, x, 16)
                                        - links_in_node(nodes[cur as int]->0, x, j + 1) + links_in_node(
                                        nodes[next as int]->0,
                                        x,
                                        16,
                                    )) as int) by {
                                        assert(links_in_node(nodes[cur as int]->0, x, j + 1) == links_in_node(
                                            nodes[cur as int]->0,
                                            x,
                                            j as int,
                                        ));
                                    }
                                }
                            }
                        },
                    }
                    j = j + 1;
                }
                cur = next;
                d = d + 1;
            }
            proof {
                assert(p.take(64) =~= p);
                lemma_reach_live(self.nodes@, root as int, p);
                if single {
                    let nodes = self.nodes@;
                    lemma_reach_at_root(nodes, self.positions@, root as int, p);
                    assert forall|j3: int| 0 <= j3 < 16 implies #[trigger] nodes[cur as int]->0.children@[j3] is None by {
                        if nodes[cur as int]->0.children@[j3] is Some {
                            assert(child(nodes, cur as int, j3) == nodes[cur as int]->0.children@[j3]);
                            let c3 = child(nodes, cur as int, j3)->0 as int;
                            assert(self.positions@[c3].len() == 65);
                        }
                    }
                    assert forall|x: int| #[trigger] live(nodes, x) implies links_to(nodes, x) + root_links(
                        self.roots@,
                        -1,
                        x,
                        self.roots@.len() as int,
                    ) <= nodes[x]->0.references + 0int by {
                        lemma_links_childless(nodes[cur as int]->0, x, 16);
                    }
                }
            }
            let ghost mid = self.nodes@;
            let ghost mid_pos = self.positions@;
            self.set_slot_value(cur, bytes);
            proof {
                let nodes = self.nodes@;
                lemma_reach_at_root(mid, mid_pos, root as int, p);
                assert forall|q: Seq<u8>| #[trigger] lookup(nodes, root as int, q) == match last_update(
                    enc.take(u + 1),
                    q,
                ) {
                    Some(v) => Some(v),
                    None => lookup(old_nodes, origin_slot as int, q),
                } by {
                    lemma_set_value(mid, nodes, cur as int, root as int, q);
                    assert(enc.take(u + 1).drop_last() =~= enc.take(u as int));
                    assert(enc.take(u + 1).last() == enc[u as int]);
                    if reach(mid, root as int, q) == Some(cur as int) {
                        lemma_reach_at_root(mid, mid_pos, root as int, q);
                    }
                }
                lemma_set_value(mid, nodes, cur as int, root as int, p);
                assert(enc[u as int].0 == p);
                assert forall|n: int, i: int| #[trigger] child(nodes, n, i) == child(mid, n, i) by {}
                assert forall|n: int| #[trigger] value_of(nodes, n) is Some implies canonical::<V>(value_of(nodes, n)->0) by {
                    if n != cur {
                        assert(value_of(nodes, n) == value_of(mid, n));
                    }
                }
                assert forall|m: int| 0 <= m < bound implies same_node(#[trigger] nodes[m], old_nodes[m]) by {
                    assert(nodes[m] == mid[m]);
                }
                assert forall|j: int| 0 <= j < new_keys@.len() implies bound <= #[trigger] new_keys@[j]
                    < nodes.len() && live(nodes, new_keys@[j] as int) by {
                    if new_keys@[j] != cur {
                        assert(nodes[new_keys@[j] as int] == mid[new_keys@[j] as int]);
                    }
                }
                assert forall|k: int| 0 <= k < self.roots@.len() implies live(nodes, (#[trigger] self.roots@[k]).1 as int) by {
                    if self.roots@[k].1 != cur {
                        assert(nodes[self.roots@[k].1 as int] == mid[self.roots@[k].1 as int]);
                    }
                }
                assert(nodes[root as int]->0.references == old_nodes[origin_slot as int]->0.references) by {
                    if root != cur {
                        assert(nodes[root as int] == mid[root as int]);
                    }
                }
                if single {
                    assert forall|m: int|
                        0 <= m < mid.len() implies (#[trigger] nodes[m] is Some) == (mid[m] is Some) && (mid[m] is Some
                            ==> nodes[m]->0.children == mid[m]->0.children) by {
                        if m != cur {
                            assert(nodes[m] == mid[m]);
                        }
                    }
                    assert forall|x: int| #[trigger] live(nodes, x) implies links_to(nodes, x) + root_links(
                        self.roots@,
                        -1,
                        x,
                        self.roots@.len() as int,
                    ) <= nodes[x]->0.references + 0int by {
                        lemma_links_same_children(mid, nodes, x, mid.len() as int);
                        assert(live(mid, x));
                        if x != cur {
                            assert(nodes[x] == mid[x]);
                        }
                    }
                    assert(covered_with(nodes, self.roots@, |x: int| 0int));
                }
            }
            u = u + 1;
        }
        proof {
            assert(enc.take(updates@.len() as int) =~= enc);
            let nodes = self.nodes@;
            // the root finds the last update's value, so it has something to hash
            lemma_reach_live(nodes, root as int, enc[updates@.len() - 1].0);
            lemma_found_value_hashes(nodes, self.positions@, root as int, enc[updates@.len() - 1].0, 64);
            assert(self.slot_depth(root as int) == 64);
            assert(Seq::<u8>::empty() + node_bytes(nodes, root as int, 64) =~= node_bytes(nodes, root as int, 64));
        }
        let mut hasher = DefaultHash::new();
        let hash = match self.get_hash_for(root, &mut hasher) {
            Some(h) => h,
            None => [0u8; 32],
        };
        let ghost before_roots = *self;
        match self.find_root_entry(&hash) {
            Some(k) => {
                self.roots.set(k, (hash, root));
            },
            None => {
                self.roots.push((hash, root));
            },
        }
        proof {
            assert(self.nodes@.len() == self.nodes.len());
            self.lemma_branch_roots(before_roots, old_self, hash, root, origin_slot, bound, single);
            assert forall|g: Seq<u8>| #[trigger] self.has_root(g) == (old_self.has_root(g) || g == hash@) by {
                assert(self.root_hashes().contains(g) == self.has_root(g));
                assert(old_self.root_hashes().contains(g) == old_self.has_root(g));
            }
        }
        Ok(hash)
    }

    /// What installing the root entry `(hash, root)` for a fresh root slot
    /// keeps and changes.
    proof fn lemma_branch_roots(
        self,
        before: Self,
        old_self: Self,
        hash: StdByteArray,
        root: usize,
        origin_slot: usize,
        bound: int,
        counted: bool,
    )
        requires
            before.wf(),
            before.roots == old_self.roots,
            old_self.wf(),
            bound == old_self.nodes@.len(),
            bound <= root < before.nodes@.len(),
            live(before.nodes@, root as int),
            before.positions@[root as int] == Seq::<u8>::empty(),
            forall|m: int| 0 <= m < bound ==> same_node(#[trigger] before.nodes@[m], old_self.nodes@[m]),
            self.nodes == before.nodes,
            self.positions == before.positions,
            before.root_entry(hash@) is Some ==> self.roots@ == before.roots@.update(
                before.root_entry(hash@)->0,
                (hash, root),
            ),
            before.root_entry(hash@) is None ==> self.roots@ == before.roots@.push((hash, root)),
            before.nodes@.len() <= usize::MAX,
            counted ==> covered_with(before.nodes@, before.roots@, |x: int| 0int),
            counted ==> before.nodes@[root as int]->0.references >= 1,
        ensures
            self.wf(),
            counted ==> self.counts_cover(),
            self.root_hashes() == old_self.root_hashes().insert(hash@),
            self.root_slot(hash@) == Some(root as int),
            forall|g: Seq<u8>, p: Seq<u8>|
                g != hash@ ==> #[trigger] self.state_at(g, p) == old_self.state_at(g, p),
    {
        let roots = self.roots@;
        let nodes = self.nodes@;
        lemma_arena_closed(old_self.nodes@, old_self.positions@);
        assert forall|k: int| 0 <= k < before.roots@.len() implies (#[trigger] before.roots@[k]).1 < bound by {
            assert(old_self.roots@[k].1 < bound);
        }
        // which entry holds which hash
        assert forall|g: Seq<u8>| g != hash@ implies #[trigger] self.root_entry(g) == before.root_entry(g) by {
            if before.root_entry(g) is Some {
                let k = before.root_entry(g)->0;
                assert(roots[k] == before.roots@[k]);
                assert(0 <= k < roots.len() && roots[k].0@ == g);
                let k2 = self.root_entry(g)->0;
                if k2 != k {
                    if k2 < before.roots@.len() {
                        assert(roots[k2] == before.roots@[k2]);
                        if k2 < k {
                            assert(before.roots@[k2].0@ != before.roots@[k].0@);
                        } else {
                            assert(before.roots@[k].0@ != before.roots@[k2].0@);
                        }
                    }
                }
            } else {
                if self.root_entry(g) is Some {
                    let k2 = self.root_entry(g)->0;
                    if k2 < before.roots@.len() {
                        assert(roots[k2] == before.roots@[k2] || roots[k2].0@ == hash@);
                        assert(before.roots@[k2].0@ == g);
                    }
                }
            }
        }
        assert(self.root_entry(hash@) is Some) by {
            if before.root_entry(hash@) is Some {
                let k = before.root_entry(hash@)->0;
                assert(0 <= k < roots.len() && roots[k].0@ == hash@);
            } else {
                assert(0 <= before.roots@.len() < roots.len() && roots[before.roots@.len() as int].0@ == hash@);
            }
        }
        assert(self.root_slot(hash@) == Some(root as int)) by {
            let k2 = self.root_entry(hash@)->0;
            if before.root_entry(hash@) is Some {
                let k = before.root_entry(hash@)->0;
                if k2 != k {
                    assert(roots[k2] == before.roots@[k2]);
                    if k2 < k {
                        assert(before.roots@[k2].0@ != before.roots@[k].0@);
                    } else {
                        assert(before.roots@[k].0@ != before.roots@[k2].0@);
                    }
                }
            } else {
                if k2 < before.roots@.len() {
                    assert(roots[k2] == before.roots@[k2]);
                }
            }
        }
        assert forall|g: Seq<u8>| #[trigger] self.has_root(g) == (old_self.has_root(g) || g == hash@) by {
            if g != hash@ {
                assert(self.root_entry(g) == before.root_entry(g));
            }
        }
        assert(self.root_hashes() =~= old_self.root_hashes().insert(hash@));
        assert forall|g: Seq<u8>, p: Seq<u8>| g != hash@ implies #[trigger] self.state_at(g, p)
            == old_self.state_at(g, p) by {
            assert(self.root_entry(g) == before.root_entry(g));
            if before.root_entry(g) is Some {
                let k = before.root_entry(g)->0;
                let s = before.roots@[k].1 as int;
                assert(roots[k] == before.roots@[k]);
                lemma_frame(old_self.nodes@, nodes, bound, s, p);
            }
        }
        // well-formedness of the root list
        assert forall|k: int| 0 <= k < roots.len() implies ((#[trigger] roots[k]).1 as int) < nodes.len()
            && self.positions@[roots[k].1 as int] == Seq::<u8>::empty() && live(nodes, roots[k].1 as int) by {
            if k < before.roots@.len() && roots[k] == before.roots@[k] {
            }
        }
        assert forall|a: int, b: int| 0 <= a < b < roots.len() implies (#[trigger] roots[a]).0@ != (
            #[trigger] roots[b]).0@ && roots[a].1 != roots[b].1 by {
            let nb = before.roots@.len() as int;
            if before.root_entry(hash@) is Some {
                let k = before.root_entry(hash@)->0;
                if a == k {
                    assert(roots[b] == before.roots@[b]);
                    assert(before.roots@[b].1 < bound);
                    assert(before.roots@[k].0@ != before.roots@[b].0@);
                } else if b == k {
                    assert(roots[a] == before.roots@[a]);
                    assert(before.roots@[a].1 < bound);
                    assert(before.roots@[a].0@ != before.roots@[k].0@);
                } else {
                    assert(roots[a] == before.roots@[a]);
                    assert(roots[b] == before.roots@[b]);
                }
            } else {
                if b == nb {
                    assert(roots[a] == before.roots@[a]);
                    assert(before.roots@[a].1 < bound);
                    assert(before.roots@[a].0@ != hash@) by {
                        assert(0 <= a < before.roots@.len());
                    }
                } else {
                    assert(roots[a] == before.roots@[a]);
                    assert(roots[b] == before.roots@[b]);
                }
            }
        }
        if counted {
            let n = before.roots@.len() as int;
            assert forall|x: int| #[trigger] live(nodes, x) implies links_to(nodes, x) + root_links(
                roots,
                -1,
                x,
                roots.len() as int,
            ) <= nodes[x]->0.references by {
                assert(live(before.nodes@, x));
                if before.root_entry(hash@) is Some {
                    let k = before.root_entry(hash@)->0;
                    lemma_root_links_set(before.roots@, k, (hash, root), x, n);
                } else {
                    lemma_root_links_push(before.roots@, (hash, root), x);
                }
                if x == root {
                    lemma_no_links_to_top(before.nodes@, before.positions@, x, before.nodes@.len() as int);
                    assert forall|j3: int| 0 <= j3 < n implies #[trigger] before.roots@[j3].1 != x as usize by {
                        assert(old_self.roots@[j3].1 < bound);
                    }
                    lemma_root_links_absent(before.roots@, -1, x, n);
                }
            }
        }
    }
}

/// The number of slots that hold a node.
pub closed spec fn count_live(s: Seq<Option<TrieNode>>) -> nat
    decreases s.len(),
{
    if s.len() == 0 {
        0
    } else {
        count_live(s.drop_last()) + if s.last() is Some {
            1nat
        } else {
            0nat
        }
    }
}

proof fn lemma_count_live_update(s: Seq<Option<TrieNode>>, i: int, x: Option<TrieNode>)
    requires
        0 <= i < s.len(),
    ensures
        count_live(s.update(i, x)) + (if s[i] is Some {
            1int
        } else {
            0int
        }) == count_live(s) + (if x is Some {
            1int
        } else {
            0int
        }),
    decreases s.len(),
{
    let t = s.update(i, x);
    if i == s.len() - 1 {
        assert(t.drop_last() =~= s.drop_last());
    } else {
        assert(t.drop_last() =~= s.drop_last().update(i, x));
        lemma_count_live_update(s.drop_last(), i, x);
    }
}

/// How a slot may change when a branch is trimmed: it stays as it was, it is
/// freed, or it keeps its node with another reference count.
pub closed spec fn trimmed_slot(before: Option<TrieNode>, after: Option<TrieNode>) -> bool {
    ||| after == before
    ||| after is None && before is Some
    ||| after is Some && before is Some && same_node(after, before)
}

/// The number of links among the first `k` children of `node` that point at
/// slot `x`.
pub closed spec fn links_in_node(node: TrieNode, x: int, k: int) -> nat
    decreases k,
{
    if k <= 0 {
        0
    } else {
        links_in_node(node, x, k - 1) + if node.children@[k - 1] == Some(x as usize) {
            1nat
        } else {
            0nat
        }
    }
}

/// The number of links from the nodes of the first `k` slots to slot `x`.
pub closed spec fn links_upto(nodes: Seq<Option<TrieNode>>, x: int, k: int) -> nat
    decreases k,
{
    if k <= 0 {
        0
    } else {
        links_upto(nodes, x, k - 1) + match nodes[k - 1] {
            Some(nd) => links_in_node(nd, x, 16),
            None => 0,
        }
    }
}

/// The number of links from nodes of the arena to slot `x`.
pub closed spec fn links_to(nodes: Seq<Option<TrieNode>>, x: int) -> nat {
    links_upto(nodes, x, nodes.len() as int)
}

/// The number of entries among the first `k` root entries, other than entry
/// `skip`, that point at slot `x`.
pub closed spec fn root_links(roots: Seq<(StdByteArray, usize)>, skip: int, x: int, k: int) -> nat
    decreases k,
{
    if k <= 0 {
        0
    } else {
        root_links(roots, skip, x, k - 1) + if k - 1 != skip && roots[k - 1].1 == x as usize {
            1nat
        } else {
            0nat
        }
    }
}

/// The number of times `x` occurs in `s`.
pub closed spec fn occurrences(s: Seq<usize>, x: int) -> nat
    decreases s.len(),
{
    if s.len() == 0 {
        0
    } else {
        occurrences(s.drop_last(), x) + if s.last() == x as usize {
            1nat
        } else {
            0nat
        }
    }
}

proof fn lemma_occurrences_drop_first(s: Seq<usize>, x: int)
    requires
        s.len() > 0,
    ensures
        occurrences(s, x) == occurrences(s.drop_first(), x) + if s[0] == x as usize {
            1nat
        } else {
            0nat
        },
    decreases s.len(),
{
    if s.len() > 1 {
        assert(s.drop_first().drop_last() =~= s.drop_last().drop_first());
        lemma_occurrences_drop_first(s.drop_last(), x);
    } else {
        assert(s.drop_first() =~= Seq::<usize>::empty());
        assert(s.drop_last() =~= Seq::<usize>::empty());
    }
}

/// Links in a node to `x` exist when one child points at it.
proof fn lemma_link_counted(node: TrieNode, x: int, i: int, k: int)
    requires
        0 <= i < k,
        node.children@[i] == Some(x as usize),
    ensures
        links_in_node(node, x, k) >= 1,
    decreases k,
{
    if i < k - 1 {
        lemma_link_counted(node, x, i, k - 1);
    }
}

/// A live node linking to `x` is counted among the links to `x`.
proof fn lemma_links_upto_at_least(nodes: Seq<Option<TrieNode>>, x: int, m: int, k: int)
    requires
        0 <= m < k <= nodes.len(),
        nodes[m] is Some,
    ensures
        links_upto(nodes, x, k) >= links_in_node(nodes[m]->0, x, 16),
    decreases k,
{
    if m < k - 1 {
        lemma_links_upto_at_least(nodes, x, m, k - 1);
    }
}

/// Freeing slot `y` takes its links away from the counts.
proof fn lemma_links_free(nodes: Seq<Option<TrieNode>>, y: int, x: int, k: int)
    requires
        0 <= y < nodes.len(),
        nodes[y] is Some,
        0 <= k <= nodes.len(),
    ensures
        links_upto(nodes.update(y, None), x, k) + (if y < k {
            links_in_node(nodes[y]->0, x, 16)
        } else {
            0
        }) == links_upto(nodes, x, k),
    decreases k,
{
    if k > 0 {
        lemma_links_free(nodes, y, x, k - 1);
    }
}

/// Changing only the reference count of slot `y` keeps the link counts.
proof fn lemma_links_same_children(nodes: Seq<Option<TrieNode>>, nodes2: Seq<Option<TrieNode>>, x: int, k: int)
    requires
        nodes2.len() == nodes.len(),
        0 <= k <= nodes.len(),
        forall|m: int|
            0 <= m < nodes.len() ==> (#[trigger] nodes2[m] is Some) == (nodes[m] is Some) && (nodes[m] is Some
                ==> nodes2[m]->0.children == nodes[m]->0.children),
    ensures
        links_upto(nodes2, x, k) == links_upto(nodes, x, k),
    decreases k,
{
    if k > 0 {
        lemma_links_same_children(nodes, nodes2, x, k - 1);
        assert(nodes2[k - 1] is Some == nodes[k - 1] is Some);
        if nodes[k - 1] is Some {
            assert(nodes2[k - 1]->0.children == nodes[k - 1]->0.children);
            assert(links_in_node(nodes2[k - 1]->0, x, 16) == links_in_node(nodes[k - 1]->0, x, 16)) by {
                lemma_links_in_node_same(nodes2[k - 1]->0, nodes[k - 1]->0, x, 16);
            }
        }
    }
}

proof fn lemma_links_in_node_same(a: TrieNode, b: TrieNode, x: int, k: int)
    requires
        a.children == b.children,
    ensures
        links_in_node(a, x, k) == links_in_node(b, x, k),
    decreases k,
{
    if k > 0 {
        lemma_links_in_node_same(a, b, x, k - 1);
    }
}

/// Appending a slot leaves the counts over the old slots alone.
proof fn lemma_links_push_prefix(nodes: Seq<Option<TrieNode>>, n0: Option<TrieNode>, x: int, k: int)
    requires
        0 <= k <= nodes.len(),
    ensures
        links_upto(nodes.push(n0), x, k) == links_upto(nodes, x, k),
    decreases k,
{
    if k > 0 {
        lemma_links_push_prefix(nodes, n0, x, k - 1);
        assert(nodes.push(n0)[k - 1] == nodes[k - 1]);
    }
}

/// A node without children links to nothing.
proof fn lemma_links_childless(node: TrieNode, x: int, k: int)
    requires
        0 <= k <= 16,
        forall|j: int| 0 <= j < 16 ==> #[trigger] node.children@[j] is None,
    ensures
        links_in_node(node, x, k) == 0,
    decreases k,
{
    if k > 0 {
        lemma_links_childless(node, x, k - 1);
    }
}

/// Changing one link of a node changes its count of links to `x` by what
/// the old and new link say of `x`.
proof fn lemma_links_relink(a: TrieNode, b: TrieNode, i: int, x: int, k: int)
    requires
        0 <= i < 16,
        0 <= k <= 16,
        b.children@ == a.children@.update(i, b.children@[i]),
    ensures
        links_in_node(b, x, k) + (if i < k && a.children@[i] == Some(x as usize) {
            1int
        } else {
            0int
        }) == links_in_node(a, x, k) + (if i < k && b.children@[i] == Some(x as usize) {
            1int
        } else {
            0int
        }),
    decreases k,
{
    if k > 0 {
        lemma_links_relink(a, b, i, x, k - 1);
    }
}

/// Replacing the node in slot `c` changes the counts by the difference of
/// the two nodes' links.
proof fn lemma_links_replace(nodes: Seq<Option<TrieNode>>, c: int, b: TrieNode, x: int, k: int)
    requires
        0 <= c < nodes.len(),
        nodes[c] is Some,
        0 <= k <= nodes.len(),
    ensures
        links_upto(nodes.update(c, Some(b)), x, k) + (if c < k {
            links_in_node(nodes[c]->0, x, 16) as int
        } else {
            0int
        }) == links_upto(nodes, x, k) + (if c < k {
            links_in_node(b, x, 16) as int
        } else {
            0int
        }),
    decreases k,
{
    if k > 0 {
        lemma_links_replace(nodes, c, b, x, k - 1);
    }
}

/// A node with no child at `x` links to it zero times.
proof fn lemma_links_none(node: TrieNode, x: int, k: int)
    requires
        0 <= k <= 16,
        forall|j: int| 0 <= j < 16 ==> #[trigger] node.children@[j] != Some(x as usize),
    ensures
        links_in_node(node, x, k) == 0,
    decreases k,
{
    if k > 0 {
        lemma_links_none(node, x, k - 1);
    }
}

/// Nothing links to a slot past the end of a well-formed arena.
proof fn lemma_links_past_end(nodes: Seq<Option<TrieNode>>, pos: Seq<Seq<u8>>, x: int, k: int)
    requires
        arena_wf(nodes, pos),
        nodes.len() <= x,
        x <= usize::MAX,
        0 <= k <= nodes.len(),
    ensures
        links_upto(nodes, x, k) == 0,
    decreases k,
{
    if k > 0 {
        lemma_links_past_end(nodes, pos, x, k - 1);
        if nodes[k - 1] is Some {
            assert forall|j: int| 0 <= j < 16 implies #[trigger] nodes[k - 1]->0.children@[j] != Some(x as usize) by {
                if nodes[k - 1]->0.children@[j] is Some {
                    assert(child(nodes, k - 1, j) == nodes[k - 1]->0.children@[j]);
                }
            }
            lemma_links_none(nodes[k - 1]->0, x, 16);
        }
    }
}

/// No root entry points at a slot none of them names.
proof fn lemma_root_links_absent(roots: Seq<(StdByteArray, usize)>, skip: int, x: int, k: int)
    requires
        0 <= k <= roots.len(),
        forall|j: int| 0 <= j < k ==> #[trigger] roots[j].1 != x as usize,
    ensures
        root_links(roots, skip, x, k) == 0,
    decreases k,
{
    if k > 0 {
        lemma_root_links_absent(roots, skip, x, k - 1);
    }
}

/// Nothing links to a node at the empty position: children sit one nibble
/// below their parents.
proof fn lemma_no_links_to_top(nodes: Seq<Option<TrieNode>>, pos: Seq<Seq<u8>>, x: int, k: int)
    requires
        arena_wf(nodes, pos),
        0 <= x < nodes.len(),
        x <= usize::MAX,
        pos[x] == Seq::<u8>::empty(),
        0 <= k <= nodes.len(),
    ensures
        links_upto(nodes, x, k) == 0,
    decreases k,
{
    if k > 0 {
        lemma_no_links_to_top(nodes, pos, x, k - 1);
        if nodes[k - 1] is Some {
            assert forall|j: int| 0 <= j < 16 implies #[trigger] nodes[k - 1]->0.children@[j] != Some(x as usize) by {
                if nodes[k - 1]->0.children@[j] == Some(x as usize) {
                    assert(child(nodes, k - 1, j) == Some(x as usize));
                    assert(pos[x].len() == pos[k - 1].len() + 1);
                }
            }
            lemma_links_none(nodes[k - 1]->0, x, 16);
        }
    }
}

/// Appending a node and pointing nibble `i` of slot `c` at it changes the
/// link counts by the link it replaces, the link it makes, and the appended
/// node's own links.
proof fn lemma_links_append_relink(nodes: Seq<Option<TrieNode>>, nodes2: Seq<Option<TrieNode>>, c: int, i: int, x: int)
    requires
        0 <= c < nodes.len(),
        nodes[c] is Some,
        0 <= i < 16,
        nodes.len() < usize::MAX,
        0 <= x <= usize::MAX,
        nodes2.len() == nodes.len() + 1,
        forall|m: int| 0 <= m < nodes.len() && m != c ==> #[trigger] nodes2[m] == nodes[m],
        nodes2[c] is Some,
        nodes2[c]->0.children@ == nodes[c]->0.children@.update(i, Some(nodes.len() as usize)),
        nodes2[nodes.len() as int] is Some,
    ensures
        links_to(nodes2, x) + (if nodes[c]->0.children@[i] == Some(x as usize) {
            1int
        } else {
            0int
        }) == links_to(nodes, x) + (if x == nodes.len() {
            1int
        } else {
            0int
        }) + links_in_node(nodes2[nodes.len() as int]->0, x, 16),
        links_in_node(nodes2[c]->0, x, 16) + (if nodes[c]->0.children@[i] == Some(x as usize) {
            1int
        } else {
            0int
        }) == links_in_node(nodes[c]->0, x, 16) + (if x == nodes.len() {
            1int
        } else {
            0int
        }),
{
    let y = nodes.len() as int;
    let mid = nodes.push(nodes2[y]);
    assert(nodes2 =~= mid.update(c, Some(nodes2[c]->0)));
    lemma_links_push_prefix(nodes, nodes2[y], x, y);
    assert(links_upto(mid, x, y + 1) == links_upto(mid, x, y) + links_in_node(nodes2[y]->0, x, 16));
    lemma_links_replace(mid, c, nodes2[c]->0, x, y + 1);
    assert(mid[c] == nodes[c]);
    lemma_links_relink(nodes[c]->0, nodes2[c]->0, i, x, 16);
    assert((Some(y as usize) == Some(x as usize)) == (x == y));
}

/// Each node's reference count, with `extra` of it added, covers the links
/// and root entries that point at it.
pub closed spec fn covered_with(
    nodes: Seq<Option<TrieNode>>,
    roots: Seq<(StdByteArray, usize)>,
    extra: spec_fn(int) -> int,
) -> bool {
    forall|x: int|
        #[trigger] live(nodes, x) ==> links_to(nodes, x) + root_links(roots, -1, x, roots.len() as int)
            <= nodes[x]->0.references + extra(x)
}

/// Every node deeper than `d` has room for one more reference.
pub closed spec fn room_below(nodes: Seq<Option<TrieNode>>, pos: Seq<Seq<u8>>, d: int) -> bool {
    forall|x: int| #[trigger] live(nodes, x) && pos[x].len() > d ==> nodes[x]->0.references < u16::MAX
}

/// Setting one root entry changes the counts by the old and new slots.
proof fn lemma_root_links_set(roots: Seq<(StdByteArray, usize)>, j: int, e: (StdByteArray, usize), x: int, k: int)
    requires
        0 <= j < roots.len(),
        0 <= k <= roots.len(),
    ensures
        root_links(roots.update(j, e), -1, x, k) + (if j < k && roots[j].1 == x as usize {
            1int
        } else {
            0int
        }) == root_links(roots, -1, x, k) + (if j < k && e.1 == x as usize {
            1int
        } else {
            0int
        }),
    decreases k,
{
    if k > 0 {
        lemma_root_links_set(roots, j, e, x, k - 1);
    }
}

/// Appending a root entry counts one more link to its slot.
proof fn lemma_root_links_push(roots: Seq<(StdByteArray, usize)>, e: (StdByteArray, usize), x: int)
    ensures
        root_links(roots.push(e), -1, x, roots.len() + 1int) == root_links(roots, -1, x, roots.len() as int) + (if e.1
            == x as usize {
            1int
        } else {
            0int
        }),
{
    lemma_root_links_prefix(roots, roots.push(e), x, roots.len() as int);
}

/// A root entry pointing at `x` is counted.
proof fn lemma_root_links_counted(roots: Seq<(StdByteArray, usize)>, j: int, x: int, k: int)
    requires
        0 <= j < k <= roots.len(),
        roots[j].1 == x as usize,
    ensures
        root_links(roots, -1, x, k) >= 1,
    decreases k,
{
    if j < k - 1 {
        lemma_root_links_counted(roots, j, x, k - 1);
    }
}

/// Counting links over more children counts no fewer.
proof fn lemma_links_in_node_mono(node: TrieNode, x: int, a: int, b: int)
    requires
        a <= b,
    ensures
        links_in_node(node, x, a) <= links_in_node(node, x, b),
    decreases b - a,
{
    if a < b {
        lemma_links_in_node_mono(node, x, a, b - 1);
    }
}

/// No other root entry points at `x` when none is counted.
proof fn lemma_root_links_zero(roots: Seq<(StdByteArray, usize)>, skip: int, x: int, k: int, j: int)
    requires
        root_links(roots, skip, x, k) == 0,
        0 <= j < k,
        j != skip,
    ensures
        roots[j].1 != x as usize,
    decreases k,
{
    if j < k - 1 {
        lemma_root_links_zero(roots, skip, x, k - 1, j);
    }
}

/// Freeing a slot that nothing links to and that is not `n` keeps what `n`
/// finds.
proof fn lemma_free_unlinked(nodes: Seq<Option<TrieNode>>, x: int, n: int, p: Seq<u8>)
    requires
        0 <= x < nodes.len(),
        nodes[x] is Some,
        links_to(nodes, x) == 0,
        n != x,
    ensures
        lookup(nodes.update(x, None), n, p) == lookup(nodes, n, p),
    decreases p.len(),
{
    let nodes2 = nodes.update(x, None);
    if live(nodes, n) && p.len() > 0 {
        assert(child(nodes2, n, p[0] as int) == child(nodes, n, p[0] as int));
        match child(nodes, n, p[0] as int) {
            Some(c) => {
                if c as int == x {
                    lemma_link_counted(nodes[n]->0, x, p[0] as int, 16);
                    lemma_links_upto_at_least(nodes, x, n, nodes.len() as int);
                }
                lemma_free_unlinked(nodes, x, c as int, p.drop_first());
            },
            None => {},
        }
    }
}

proof fn lemma_root_links_split(roots: Seq<(StdByteArray, usize)>, skip: int, x: int, n: int)
    requires
        0 <= skip < n <= roots.len(),
    ensures
        root_links(roots, -1, x, n) == root_links(roots, skip, x, n) + if roots[skip].1 == x as usize {
            1nat
        } else {
            0nat
        },
    decreases n,
{
    if n - 1 > skip {
        lemma_root_links_split(roots, skip, x, n - 1);
    } else {
        lemma_root_links_skip_unused(roots, skip, x, n - 1);
    }
}

/// Counting below the skipped entry is counting everything.
proof fn lemma_root_links_skip_unused(roots: Seq<(StdByteArray, usize)>, skip: int, x: int, n: int)
    requires
        0 <= n <= skip,
    ensures
        root_links(roots, -1, x, n) == root_links(roots, skip, x, n),
    decreases n,
{
    if n > 0 {
        lemma_root_links_skip_unused(roots, skip, x, n - 1);
    }
}

/// Removing an entry gives the count that skips it.
proof fn lemma_root_links_remove(roots: Seq<(StdByteArray, usize)>, skip: int, x: int, n: int)
    requires
        0 <= skip < n <= roots.len(),
    ensures
        root_links(roots.remove(skip), -1, x, n - 1) == root_links(roots, skip, x, n),
    decreases n,
{
    let r2 = roots.remove(skip);
    if n - 1 == skip {
        lemma_root_links_skip_unused(roots, skip, x, skip);
        lemma_root_links_prefix(roots, r2, x, skip);
    } else {
        lemma_root_links_remove(roots, skip, x, n - 1);
        assert(r2[n - 2] == roots[n - 1]);
    }
}

/// Two root lists that agree on a prefix count the same links in it.
proof fn lemma_root_links_prefix(a: Seq<(StdByteArray, usize)>, b: Seq<(StdByteArray, usize)>, x: int, n: int)
    requires
        0 <= n <= a.len(),
        n <= b.len(),
        forall|j: int| 0 <= j < n ==> #[trigger] a[j] == b[j],
    ensures
        root_links(a, -1, x, n) == root_links(b, -1, x, n),
    decreases n,
{
    if n > 0 {
        lemma_root_links_prefix(a, b, x, n - 1);
        assert(a[n - 1] == b[n - 1]);
    }
}

impl<K: Hashable, V: PillarSerialize> MerkleTrie<K, V> {
    /// Every node's reference count can take one more reference.
    pub closed spec fn counts_room(&self) -> bool {
        forall|x: int| #[trigger] live(self.nodes@, x) ==> self.nodes@[x]->0.references < u16::MAX
    }

    /// Every node's reference count covers the links and the root entries
    /// that point at it.
    pub closed spec fn counts_cover(&self) -> bool {
        forall|x: int|
            #[trigger] live(self.nodes@, x) ==> links_to(self.nodes@, x) + root_links(
                self.roots@,
                -1,
                x,
                self.roots@.len() as int,
            ) <= self.nodes@[x]->0.references
    }

    /// Removes the root `root`: walks down from it, freeing each node that is
    /// referenced once (and going on to its children) and taking one from the
    /// count of any other node it comes to. Fails when the trie has no such
    /// root. When the reference counts cover the links, no node that another
    /// root still uses is freed, so the states of the other roots stay as
    /// they were, and the counts still cover the links afterwards.
    pub fn trim_branch(&mut self, root: StdByteArray) -> (r: Result<(), TrieError>)
        requires
            old(self).wf(),
        ensures
            final(self).wf(),
            !old(self).has_root(root@) ==> r == Err::<(), TrieError>(TrieError::NotFound)
                && *final(self) == *old(self),
            old(self).has_root(root@) ==> r is Ok,
            r is Ok ==> final(self).root_hashes() == old(self).root_hashes().remove(root@),
            r is Ok ==> forall|g: Seq<u8>| #[trigger] final(self).has_root(g) == (old(self).has_root(g) && g != root@),
            r is Ok ==> forall|p: Seq<u8>| #[trigger] final(self).state_at(root@, p) is None,
            r is Ok ==> final(self).arena().len() == old(self).arena().len(),
            r is Ok ==> forall|m: int|
                0 <= m < old(self).arena().len() ==> trimmed_slot(
                    #[trigger] old(self).arena()[m],
                    final(self).arena()[m],
                ),
            r is Ok && old(self).counts_cover() ==> final(self).counts_cover(),
            r is Ok && old(self).counts_cover() ==> forall|g: Seq<u8>, p: Seq<u8>|
                g != root@ ==> #[trigger] final(self).state_at(g, p) == old(self).state_at(g, p),
    {
        let k = match self.find_root_entry(&root) {
            Some(k) => k,
            None => return Err(TrieError::NotFound),
        };
        let start = self.roots[k].1;
        let ghost old_self = *self;
        let ghost old_nodes = self.nodes@;
        let ghost pos = self.positions@;
        let ghost cov = old_self.counts_cover();
        let ghost n_roots = self.roots@.len() as int;
        let mut queue: Vec<usize> = Vec::new();
        queue.push(start);
        let mut head: usize = 0;
        proof {
            assert(queue@.subrange(0, 1) =~= seq![start]);
            assert forall|x: int| #[trigger] live(self.nodes@, x) implies occurrences(seq![start], x) == if start
                == x as usize {
                1nat
            } else {
                0nat
            } by {
                assert(seq![start].drop_last() =~= Seq::<usize>::empty());
                assert(occurrences(Seq::<usize>::empty(), x) == 0);
                assert(seq![start].last() == start);
            }
            if cov {
                assert forall|x: int| #[trigger] live(self.nodes@, x) implies links_to(self.nodes@, x) + root_links(
                    self.roots@,
                    k as int,
                    x,
                    n_roots,
                ) + occurrences(queue@.subrange(head as int, queue@.len() as int), x)
                    <= self.nodes@[x]->0.references by {
                    lemma_root_links_split(self.roots@, k as int, x, n_roots);
                }
            }
        }
        while head < queue.len()
            invariant
                0 <= head <= queue@.len(),
                self.roots == old_self.roots,
                self.positions == old_self.positions,
                pos == self.positions@,
                n_roots == self.roots@.len(),
                0 <= k < n_roots,
                start == self.roots@[k as int].1,
                self.nodes@.len() == old_nodes.len(),
                arena_wf(self.nodes@, pos),
                forall|n: int| #[trigger] value_of(self.nodes@, n) is Some ==> canonical::<V>(value_of(self.nodes@, n)->0),
                forall|j: int|
                    head <= j < queue@.len() ==> #[trigger] queue@[j] == start || pos[queue@[j] as int].len()
                        > 0,
                forall|j: int| head <= j < queue@.len() ==> (#[trigger] queue@[j] as int) < old_nodes.len(),
                forall|m: int| 0 <= m < old_nodes.len() ==> trimmed_slot(#[trigger] old_nodes[m], self.nodes@[m]),
                forall|m: int|
                    0 <= m < old_nodes.len() && m != start && pos[m] == Seq::<u8>::empty() ==> #[trigger] self.nodes@[m]
                        == old_nodes[m],
                old_self.wf(),
                cov == old_self.counts_cover(),
                cov ==> forall|x: int|
                    #[trigger] live(self.nodes@, x) ==> links_to(self.nodes@, x) + root_links(
                        self.roots@,
                        k as int,
                        x,
                        n_roots,
                    ) + occurrences(queue@.subrange(head as int, queue@.len() as int), x)
                        <= self.nodes@[x]->0.references,
                cov ==> forall|j: int, p: Seq<u8>|
                    0 <= j < n_roots && j != k ==> #[trigger] lookup(self.nodes@, self.roots@[j].1 as int, p)
                        == lookup(old_nodes, self.roots@[j].1 as int, p),
            decreases count_live(self.nodes@), queue@.len() - head,
        {
            let cur = queue[head];
            let ghost rest_before = queue@.subrange(head as int, queue@.len() as int);
            head = head + 1;
            let ghost rest_after = queue@.subrange(head as int, queue@.len() as int);
            proof {
                assert(rest_after =~= rest_before.drop_first());
                assert(rest_before[0] == cur);
                assert forall|x: int| #[trigger] occurrences(rest_before, x) == occurrences(rest_after, x) + if cur
                    == x as usize {
                    1nat
                } else {
                    0nat
                } by {
                    lemma_occurrences_drop_first(rest_before, x);
                }
            }
            let ghost prev = self.nodes@;
            let freed = match &self.nodes[cur] {
                Some(node) => {
                    if node.references == 1 {
                        Some(node.children)
                    } else {
                        None
                    }
                },
                None => None,
            };
            match freed {
                Some(children) => {
                    proof {
                        if cov {
                            assert(live(prev, cur as int));
                            assert(occurrences(rest_before, cur as int) >= 1);
                            assert(links_to(prev, cur as int) == 0);
                            assert(root_links(self.roots@, k as int, cur as int, n_roots) == 0);
                        }
                    }
                    self.nodes.set(cur, None);
                    proof {
                        lemma_count_live_update(prev, cur as int, None);
                        assert(self.nodes@ == prev.update(cur as int, None));
                    }
                    let ghost cur_node = prev[cur as int]->0;
                    let mut i: usize = 0;
                    while i < 16
                        invariant
                            0 <= i <= 16,
                            0 <= head <= queue@.len(),
                            pos == self.positions@,
                            prev.len() == old_nodes.len(),
                            live(prev, cur as int),
                            cur_node == prev[cur as int]->0,
                            cur_node.children == children,
                            arena_wf(prev, pos),
                            forall|j: int|
                                head <= j < queue@.len() ==> #[trigger] queue@[j] == start || pos[queue@[j] as int].len()
                                    > 0,
                            forall|j: int| head <= j < queue@.len() ==> (#[trigger] queue@[j] as int)
                                < old_nodes.len(),
                            forall|x: int|
                                #[trigger] occurrences(queue@.subrange(head as int, queue@.len() as int), x)
                                    == occurrences(rest_after, x) + links_in_node(cur_node, x, i as int),
                        decreases 16 - i,
                    {
                        let ghost before_push = queue@.subrange(head as int, queue@.len() as int);
                        match children[i] {
                            Some(c) => {
                                proof {
                                    assert(child(prev, cur as int, i as int) == Some(c));
                                }
                                queue.push(c);
                                proof {
                                    let now = queue@.subrange(head as int, queue@.len() as int);
                                    assert(now =~= before_push.push(c));
                                    assert(now.drop_last() =~= before_push);
                                    assert forall|x: int| #[trigger] occurrences(now, x) == occurrences(rest_after, x)
                                        + links_in_node(cur_node, x, i + 1) by {
                                        assert(occurrences(before_push, x) == occurrences(rest_after, x)
                                            + links_in_node(cur_node, x, i as int));
                                    }
                                }
                            },
                            None => {
                                proof {
                                    assert forall|x: int| #[trigger] occurrences(
                                        queue@.subrange(head as int, queue@.len() as int),
                                        x,
                                    ) == occurrences(rest_after, x) + links_in_node(cur_node, x, i + 1) by {
                                        assert(occurrences(before_push, x) == occurrences(rest_after, x)
                                            + links_in_node(cur_node, x, i as int));
                                    }
                                }
                            },
                        }
                        i = i + 1;
                    }
                    proof {
                        let nodes = self.nodes@;
                        assert forall|n: int, j: int| (#[trigger] child(nodes, n, j)) is Some implies child(nodes, n, j)
                            == child(prev, n, j) by {}
                        assert forall|n: int| #[trigger] value_of(nodes, n) is Some implies value_of(nodes, n)
                            == value_of(prev, n) by {}
                        assert forall|m: int| 0 <= m < old_nodes.len() implies trimmed_slot(
                            #[trigger] old_nodes[m],
                            nodes[m],
                        ) by {
                            if m == cur {
                                assert(trimmed_slot(old_nodes[m], prev[m]));
                                if prev[m] == old_nodes[m] {
                                } else {
                                    assert(same_node(prev[m], old_nodes[m]));
                                }
                            } else {
                                assert(nodes[m] == prev[m]);
                            }
                        }
                        assert forall|m: int|
                            0 <= m < old_nodes.len() && m != start && pos[m] == Seq::<u8>::empty() implies #[trigger] nodes[m]
                                == old_nodes[m] by {
                            if m == cur {
                                assert(false);
                            } else {
                                assert(nodes[m] == prev[m]);
                            }
                        }
                        if cov {
                            assert forall|x: int| #[trigger] live(nodes, x) implies links_to(nodes, x) + root_links(
                                self.roots@,
                                k as int,
                                x,
                                n_roots,
                            ) + occurrences(queue@.subrange(head as int, queue@.len() as int), x)
                                <= nodes[x]->0.references by {
                                assert(x != cur);
                                assert(live(prev, x));
                                lemma_links_free(prev, cur as int, x, prev.len() as int);
                                assert(nodes[x] == prev[x]);
                            }
                            assert forall|j: int, p: Seq<u8>|
                                0 <= j < n_roots && j != k implies #[trigger] lookup(nodes, self.roots@[j].1 as int, p)
                                    == lookup(old_nodes, self.roots@[j].1 as int, p) by {
                                lemma_root_links_zero(self.roots@, k as int, cur as int, n_roots, j);
                                lemma_free_unlinked(prev, cur as int, self.roots@[j].1 as int, p);
                            }
                        }
                    }
                },
                None => {
                    let ghost was_live = cur < self.nodes.len() && self.nodes@[cur as int] is Some;
                    if cur < self.nodes.len() {
                        match &mut self.nodes[cur] {
                            Some(node) => {
                                node.references = node.references.wrapping_sub(1);
                            },
                            None => {},
                        }
                    }
                    proof {
                        let nodes = self.nodes@;
                        assert forall|n: int, j: int| #[trigger] child(nodes, n, j) == child(prev, n, j) by {}
                        assert forall|n: int| #[trigger] value_of(nodes, n) == value_of(prev, n) by {}
                        assert(count_live(nodes) == count_live(prev)) by {
                            if cur < nodes.len() {
                                lemma_count_live_update(prev, cur as int, nodes[cur as int]);
                                assert(nodes =~= prev.update(cur as int, nodes[cur as int]));
                            } else {
                                assert(nodes =~= prev);
                            }
                        }
                        assert forall|m: int| 0 <= m < old_nodes.len() implies trimmed_slot(
                            #[trigger] old_nodes[m],
                            nodes[m],
                        ) by {
                            if m == cur {
                                assert(trimmed_slot(old_nodes[m], prev[m]));
                                if nodes[m] != prev[m] {
                                    assert(same_node(nodes[m], prev[m]));
                                    if prev[m] == old_nodes[m] {
                                    } else {
                                        assert(same_node(prev[m], old_nodes[m]));
                                    }
                                }
                            } else {
                                assert(nodes[m] == prev[m]);
                            }
                        }
                        assert forall|m: int|
                            0 <= m < old_nodes.len() && m != start && pos[m] == Seq::<u8>::empty() implies #[trigger] nodes[m]
                                == old_nodes[m] by {
                            if m == cur {
                                assert(false);
                            } else {
                                assert(nodes[m] == prev[m]);
                            }
                        }
                        if cov {
                            assert forall|m: int|
                                0 <= m < nodes.len() implies (#[trigger] nodes[m] is Some) == (prev[m] is Some) && (
                                prev[m] is Some ==> nodes[m]->0.children == prev[m]->0.children) by {}
                            assert forall|x: int| #[trigger] live(nodes, x) implies links_to(nodes, x) + root_links(
                                self.roots@,
                                k as int,
                                x,
                                n_roots,
                            ) + occurrences(queue@.subrange(head as int, queue@.len() as int), x)
                                <= nodes[x]->0.references by {
                                lemma_links_same_children(prev, nodes, x, prev.len() as int);
                                assert(live(prev, x));
                                if x == cur {
                                    assert(prev[x]->0.references >= 1);
                                } else {
                                    assert(nodes[x] == prev[x]);
                                }
                            }
                            lemma_arena_closed(prev, pos);
                            assert forall|m: int| 0 <= m < prev.len() implies same_node(#[trigger] prev[m], nodes[m]) by {}
                            assert forall|j: int, p: Seq<u8>|
                                0 <= j < n_roots && j != k implies #[trigger] lookup(nodes, self.roots@[j].1 as int, p)
                                    == lookup(old_nodes, self.roots@[j].1 as int, p) by {
                                assert(old_self.roots@[j].1 < prev.len());
                                lemma_frame(prev, nodes, prev.len() as int, self.roots@[j].1 as int, p);
                            }
                        }
                    }
                },
            }
        }
        let ghost before_remove = self.roots@;
        self.roots.remove(k);
        proof {
            let roots = self.roots@;
            let nodes = self.nodes@;
            assert forall|j: int| 0 <= j < roots.len() implies #[trigger] roots[j] == (if j < k {
                before_remove[j]
            } else {
                before_remove[j + 1]
            }) by {}
            assert forall|j: int| 0 <= j < roots.len() implies live(nodes, (#[trigger] roots[j]).1 as int)
                && (roots[j].1 as int) < nodes.len() && pos[roots[j].1 as int] == Seq::<u8>::empty() by {
                let jj = if j < k { j } else { j + 1 };
                assert(roots[j] == before_remove[jj]);
                assert(before_remove[jj].1 != before_remove[k as int].1) by {
                    if jj < k {
                        assert(old_self.roots@[jj].1 != old_self.roots@[k as int].1);
                    } else {
                        assert(old_self.roots@[k as int].1 != old_self.roots@[jj].1);
                    }
                }
                assert(nodes[roots[j].1 as int] == old_nodes[roots[j].1 as int]);
            }
            assert forall|a: int, b: int| 0 <= a < b < roots.len() implies (#[trigger] roots[a]).0@ != (
                #[trigger] roots[b]).0@ && roots[a].1 != roots[b].1 by {
                let aa = if a < k { a } else { a + 1 };
                let bb = if b < k { b } else { b + 1 };
                assert(roots[a] == before_remove[aa]);
                assert(roots[b] == before_remove[bb]);
                assert(old_self.roots@[aa].0@ != old_self.roots@[bb].0@);
            }
            assert forall|g: Seq<u8>| #[trigger] self.has_root(g) == (old_self.has_root(g) && g != root@) by {
                if self.has_root(g) {
                    let j = self.root_entry(g)->0;
                    let jj = if j < k { j } else { j + 1 };
                    assert(roots[j] == before_remove[jj]);
                    assert(0 <= jj < before_remove.len() && before_remove[jj].0@ == g);
                    if g == root@ {
                        assert(before_remove[k as int].0@ == root@);
                        if jj < k {
                            assert(old_self.roots@[jj].0@ != old_self.roots@[k as int].0@);
                        } else {
                            assert(old_self.roots@[k as int].0@ != old_self.roots@[jj].0@);
                        }
                    }
                }
                if old_self.has_root(g) && g != root@ {
                    let jj = old_self.root_entry(g)->0;
                    assert(jj != k);
                    let j = if jj < k { jj } else { jj - 1 };
                    assert(roots[j] == before_remove[jj]);
                    assert(0 <= j < roots.len() && roots[j].0@ == g);
                }
            }
            assert(self.root_hashes() =~= old_self.root_hashes().remove(root@));
            if cov {
                assert(queue@.subrange(head as int, queue@.len() as int) =~= Seq::<usize>::empty());
                assert forall|x: int| #[trigger] live(nodes, x) implies links_to(nodes, x) + root_links(
                    roots,
                    -1,
                    x,
                    roots.len() as int,
                ) <= nodes[x]->0.references by {
                    assert(occurrences(queue@.subrange(head as int, queue@.len() as int), x) == 0);
                    assert(roots == before_remove.remove(k as int));
                    lemma_root_links_remove(before_remove, k as int, x, n_roots);
                }
                assert forall|g: Seq<u8>, p: Seq<u8>| g != root@ implies #[trigger] self.state_at(g, p)
                    == old_self.state_at(g, p) by {
                    if old_self.has_root(g) {
                        let jj = old_self.root_entry(g)->0;
                        assert(jj != k) by {
                            assert(before_remove[k as int].0@ == root@);
                        }
                        let j = if jj < k { jj } else { jj - 1 };
                        assert(roots[j] == before_remove[jj]);
                        assert(self.has_root(g));
                        let j2 = self.root_entry(g)->0;
                        if j2 != j {
                            if j2 < j {
                                assert(roots[j2].0@ != roots[j].0@);
                            } else {
                                assert(roots[j].0@ != roots[j2].0@);
                            }
                        }
                        assert(lookup(nodes, before_remove[jj].1 as int, p) == lookup(
                            old_nodes,
                            before_remove[jj].1 as int,
                            p,
                        ));
                    } else {
                        assert(!self.has_root(g));
                    }
                }
            }
        }
        Ok(())
    }
}

impl<K: Hashable, V: PillarSerialize> MerkleTrie<K, V> {
    /// Lists the values of the state of `root`, decoded, level by level from
    /// the root and in nibble order within a level: each value held once per
    /// path that holds it. Empty when the trie has no such root.
    pub fn get_all(&self, root: StdByteArray) -> (r: Vec<V>)
        requires
            self.wf(),
        ensures
            !self.has_root(root@) ==> r@.len() == 0,
            forall|i: int| 0 <= i < r@.len() ==> self.holds_value(root@, #[trigger] r@[i]),
            forall|p: Seq<u8>|
                #[trigger] self.state_at(root@, p) is Some ==> exists|i: int|
                    0 <= i < r@.len() && V::from_pillar_bytes(self.state_at(root@, p)->0) == Some(r@[i]),
            exists|paths: Seq<Seq<u8>>| #[trigger] self.lists_values_once(root@, r@, paths),
    {
        let slot = match self.root_key(&root) {
            Some(s) => s,
            None => {
                proof {
                    assert(self.lists_values_once(root@, Seq::<V>::empty(), Seq::<Seq<u8>>::empty()));
                }
                return Vec::new();
            },
        };
        let ghost nodes = self.nodes@;
        let ghost pos = self.positions@;
        proof {
            let k = self.root_entry(root@)->0;
            assert(self.roots@[k].1 == slot);
        }
        let mut values: Vec<V> = Vec::new();
        let ghost mut out_paths: Seq<Seq<u8>> = Seq::empty();
        let mut level: Vec<usize> = Vec::new();
        level.push(slot);
        let ghost mut level_paths: Seq<Seq<u8>> = seq![Seq::<u8>::empty()];
        let ghost mut depth: int = 0;
        proof {
            assert forall|p: Seq<u8>| #[trigger] lookup(nodes, slot as int, p) is Some implies p.len() >= depth
                && level_paths[0] == p.take(depth) by {
                assert(p.take(0) =~= Seq::<u8>::empty());
            }
        }
        while level.len() > 0
            invariant
                self.wf(),
                nodes == self.nodes@,
                pos == self.positions@,
                0 <= slot < nodes.len(),
                pos[slot as int] == Seq::<u8>::empty(),
                self.root_slot(root@) == Some(slot as int),
                0 <= depth,
                level@.len() > 0 ==> depth <= 64,
                level_paths.len() == level@.len(),
                out_paths.len() == values@.len(),
                level_paths.no_duplicates(),
                out_paths.no_duplicates(),
                forall|k: int| 0 <= k < out_paths.len() ==> (#[trigger] out_paths[k]).len() < depth,
                forall|j: int|
                    0 <= j < level@.len() ==> reach(nodes, slot as int, #[trigger] level_paths[j]) == Some(
                        level@[j] as int,
                    ) && level_paths[j].len() == depth,
                forall|i: int|
                    0 <= i < values@.len() ==> lookup(nodes, slot as int, #[trigger] out_paths[i]) is Some
                        && V::from_pillar_bytes(lookup(nodes, slot as int, out_paths[i])->0) == Some(values@[i]),
                forall|p: Seq<u8>|
                    #[trigger] lookup(nodes, slot as int, p) is Some ==> (exists|i: int|
                        0 <= i < out_paths.len() && out_paths[i] == p) || (p.len() >= depth && exists|j: int|
                        0 <= j < level_paths.len() && level_paths[j] == p.take(depth)),
            decreases 65 - depth,
        {
            proof {
                let q = level_paths[0];
                lemma_reach_at_root(nodes, pos, slot as int, q);
                lemma_reach_live(nodes, slot as int, q);
            }
            let mut next: Vec<usize> = Vec::new();
            let ghost mut next_paths: Seq<Seq<u8>> = Seq::empty();
            let ghost mut next_src: Seq<(int, int)> = Seq::empty();
            let mut i: usize = 0;
            while i < level.len()
                invariant
                    self.wf(),
                    nodes == self.nodes@,
                    pos == self.positions@,
                    0 <= slot < nodes.len(),
                    pos[slot as int] == Seq::<u8>::empty(),
                    0 <= depth <= 64,
                    0 <= i <= level@.len(),
                    level_paths.len() == level@.len(),
                    next_paths.len() == next@.len(),
                    out_paths.len() == values@.len(),
                    level_paths.no_duplicates(),
                    out_paths.no_duplicates(),
                    forall|k: int|
                        0 <= k < out_paths.len() ==> (#[trigger] out_paths[k]).len() < depth || exists|j: int|
                            0 <= j < i && out_paths[k] == #[trigger] level_paths[j],
                    next_src.len() == next_paths.len(),
                    forall|k: int|
                        0 <= k < next_paths.len() ==> 0 <= (#[trigger] next_src[k]).0 < i && 0 <= next_src[k].1 < 16
                            && next_paths[k] == level_paths[next_src[k].0].push(next_src[k].1 as u8),
                    forall|k1: int, k2: int|
                        0 <= k1 < k2 < next_src.len() ==> (#[trigger] next_src[k1]).0 < (#[trigger] next_src[k2]).0 || (
                        next_src[k1].0 == next_src[k2].0 && next_src[k1].1 < next_src[k2].1),
                    forall|j: int|
                        0 <= j < level@.len() ==> reach(nodes, slot as int, #[trigger] level_paths[j]) == Some(
                            level@[j] as int,
                        ) && level_paths[j].len() == depth,
                    forall|j: int|
                        0 <= j < next@.len() ==> reach(nodes, slot as int, #[trigger] next_paths[j]) == Some(
                            next@[j] as int,
                        ) && next_paths[j].len() == depth + 1,
                    forall|i2: int|
                        0 <= i2 < values@.len() ==> lookup(nodes, slot as int, #[trigger] out_paths[i2]) is Some
                            && V::from_pillar_bytes(lookup(nodes, slot as int, out_paths[i2])->0) == Some(
                            values@[i2],
                        ),
                    forall|p: Seq<u8>|
                        #[trigger] lookup(nodes, slot as int, p) is Some ==> (exists|i2: int|
                            0 <= i2 < out_paths.len() && out_paths[i2] == p) || (p.len() >= depth && exists|j: int|
                            i <= j < level_paths.len() && level_paths[j] == p.take(depth)) || (p.len() >= depth + 1
                            && exists|j: int| 0 <= j < next_paths.len() && next_paths[j] == p.take(depth + 1)),
                decreases level@.len() - i,
            {
                let n = level[i];
                let ghost q = level_paths[i as int];
                proof {
                    lemma_reach_live(nodes, slot as int, q);
                    lemma_reach_at_root(nodes, pos, slot as int, q);
                }
                let ghost out_before = out_paths;
                let ghost next_before = next_paths;
                let ghost src_before = next_src;
                let node = match &self.nodes[n] {
                    Some(nd) => nd,
                    None => {
                        proof {
                            assert(false);
                        }
                        return values;
                    },
                };
                match &node.value {
                    Some(v) => {
                        let decoded = V::deserialize_pillar(v.as_slice());
                        proof {
                            assert(lookup(nodes, slot as int, q) == Some(v@));
                        }
                        match decoded {
                            Some(x) => {
                                values.push(x);
                                proof {
                                    assert forall|k: int| 0 <= k < out_before.len() implies out_before[k] != q by {
                                        if out_before[k].len() >= depth {
                                            let j = choose|j: int| 0 <= j < i && out_before[k] == #[trigger] level_paths[j];
                                            assert(level_paths[j] != level_paths[i as int]);
                                        }
                                    }
                                    out_paths = out_paths.push(q);
                                }
                            },
                            None => {
                                proof {
                                    assert(value_of(nodes, n as int) is Some);
                                }
                            },
                        }
                    },
                    None => {},
                }
                let mut c: usize = 0;
                while c < 16
                    invariant
                        0 <= c <= 16,
                        nodes == self.nodes@,
                        arena_wf(nodes, pos),
                        0 <= depth <= 64,
                        (n as int) < nodes.len(),
                        nodes[n as int] == Some(*node),
                        reach(nodes, slot as int, q) == Some(n as int),
                        q.len() == depth,
                        next_paths.len() == next@.len(),
                        next_before.len() <= next_paths.len(),
                        q == level_paths[i as int],
                        0 <= i < level_paths.len(),
                        level_paths.no_duplicates(),
                        next_src.len() == next_paths.len(),
                        forall|k: int|
                            0 <= k < next_paths.len() ==> 0 <= (#[trigger] next_src[k]).0 <= i && 0 <= next_src[k].1 < 16
                                && (next_src[k].0 == i ==> next_src[k].1 < c) && next_paths[k] == level_paths[next_src[k].0].push(
                                next_src[k].1 as u8,
                            ),
                        forall|k1: int, k2: int|
                            0 <= k1 < k2 < next_src.len() ==> (#[trigger] next_src[k1]).0 < (#[trigger] next_src[k2]).0
                                || (next_src[k1].0 == next_src[k2].0 && next_src[k1].1 < next_src[k2].1),
                        forall|j: int| 0 <= j < next_before.len() ==> #[trigger] next_paths[j] == next_before[j],
                        forall|j: int|
                            0 <= j < next@.len() ==> reach(nodes, slot as int, #[trigger] next_paths[j]) == Some(
                                next@[j] as int,
                            ) && next_paths[j].len() == depth + 1,
                        forall|c2: int|
                            0 <= c2 < c && child(nodes, n as int, c2) is Some && live(
                                nodes,
                                child(nodes, n as int, c2)->0 as int,
                            ) ==> exists|j: int|
                                0 <= j < next_paths.len() && #[trigger] next_paths[j] == q.push(c2 as u8),
                    decreases 16 - c,
                {
                    match node.children[c] {
                        Some(k) => {
                            proof {
                                assert(child(nodes, n as int, c as int) == Some(k));
                                lemma_reach_snoc(nodes, slot as int, q, c as u8);
                            }
                            if k < self.nodes.len() {
                                match &self.nodes[k] {
                                    Some(_) => {
                                        let ghost np_before = next_paths;
                                        next.push(k);
                                        proof {
                                            next_paths = next_paths.push(q.push(c as u8));
                                            next_src = next_src.push((i as int, c as int));
                                            assert(next_paths[next_paths.len() - 1] == q.push(c as u8));
                                            assert forall|c2: int|
                                                0 <= c2 < c && child(nodes, n as int, c2) is Some && live(
                                                    nodes,
                                                    child(nodes, n as int, c2)->0 as int,
                                                ) implies exists|j: int|
                                                    0 <= j < next_paths.len() && #[trigger] next_paths[j] == q.push(
                                                        c2 as u8,
                                                    ) by {
                                                let j = choose|j: int|
                                                    0 <= j < np_before.len() && #[trigger] np_before[j] == q.push(
                                                        c2 as u8,
                                                    );
                                                assert(next_paths[j] == np_before[j]);
                                            }
                                        }
                                    },
                                    None => {},
                                }
                            }
                        },
                        None => {},
                    }
                    c = c + 1;
                }
                proof {
                    assert forall|p: Seq<u8>| #[trigger] lookup(nodes, slot as int, p) is Some implies (exists|i2: int|
                        0 <= i2 < out_paths.len() && out_paths[i2] == p) || (p.len() >= depth && exists|j: int|
                        i + 1 <= j < level_paths.len() && level_paths[j] == p.take(depth)) || (p.len() >= depth + 1
                        && exists|j: int| 0 <= j < next_paths.len() && next_paths[j] == p.take(depth + 1)) by {
                        if exists|i2: int| 0 <= i2 < out_before.len() && out_before[i2] == p {
                            let i2 = choose|i2: int| 0 <= i2 < out_before.len() && out_before[i2] == p;
                            assert(out_paths[i2] == p);
                        } else if p.len() >= depth + 1 && exists|j: int|
                            0 <= j < next_before.len() && next_before[j] == p.take(depth + 1) {
                            let j = choose|j: int| 0 <= j < next_before.len() && next_before[j] == p.take(depth + 1);
                            assert(next_paths[j] == p.take(depth + 1));
                        } else {
                            let j = choose|j: int| i <= j < level_paths.len() && level_paths[j] == p.take(depth);
                            if j > i {
                            } else {
                                // the path runs through the node just handled
                                lemma_reach_take(nodes, slot as int, p, depth);
                                if p.len() == depth {
                                    assert(p.take(depth) =~= p);
                                    assert(out_paths[out_paths.len() - 1] == p);
                                } else {
                                    let nib = p[depth];
                                    assert(p.take(depth).push(nib) =~= p.take(depth + 1));
                                    lemma_reach_snoc(nodes, slot as int, q, nib);
                                    lemma_reach_take(nodes, slot as int, p, depth + 1);
                                    assert(nib < 16) by {
                                        assert(child(nodes, n as int, nib as int) is Some);
                                    }
                                    let w = choose|j2: int|
                                        0 <= j2 < next_paths.len() && #[trigger] next_paths[j2] == q.push(nib);
                                    assert(next_paths[w] == p.take(depth + 1));
                                }
                            }
                        }
                    }
                    assert forall|i2: int|
                        0 <= i2 < values@.len() implies lookup(nodes, slot as int, #[trigger] out_paths[i2]) is Some
                            && V::from_pillar_bytes(lookup(nodes, slot as int, out_paths[i2])->0) == Some(values@[i2]) by {
                        if i2 < out_before.len() {
                            assert(out_paths[i2] == out_before[i2]);
                        }
                    }
                }
                i = i + 1;
            }
            proof {
                if next@.len() > 0 {
                    let q2 = next_paths[0];
                    lemma_reach_live(nodes, slot as int, q2);
                    lemma_reach_at_root(nodes, pos, slot as int, q2);
                    assert(pos[next@[0] as int].len() <= 64);
                }
                assert forall|p: Seq<u8>| #[trigger] lookup(nodes, slot as int, p) is Some implies (exists|i2: int|
                    0 <= i2 < out_paths.len() && out_paths[i2] == p) || (p.len() >= depth + 1 && exists|j: int|
                    0 <= j < next_paths.len() && next_paths[j] == p.take(depth + 1)) by {}
                assert forall|k1: int, k2: int| 0 <= k1 < next_paths.len() && 0 <= k2 < next_paths.len() && k1 != k2
                    implies next_paths[k1] != next_paths[k2] by {
                    let (a1, b1) = next_src[k1];
                    let (a2, b2) = next_src[k2];
                    if next_paths[k1] == next_paths[k2] {
                        assert(next_paths[k1].drop_last() =~= level_paths[a1]);
                        assert(next_paths[k2].drop_last() =~= level_paths[a2]);
                        assert(next_paths[k1].last() == b1 as u8);
                        assert(next_paths[k2].last() == b2 as u8);
                        if k1 < k2 {
                            assert(next_src[k1].0 < next_src[k2].0 || (next_src[k1].0 == next_src[k2].0 && next_src[k1].1 < next_src[k2].1));
                        } else {
                            assert(next_src[k2].0 < next_src[k1].0 || (next_src[k2].0 == next_src[k1].0 && next_src[k2].1 < next_src[k1].1));
                        }
                    }
                }
                assert forall|k: int| 0 <= k < out_paths.len() implies (#[trigger] out_paths[k]).len() < depth + 1 by {
                    if out_paths[k].len() >= depth {
                        let j = choose|j: int| 0 <= j < level@.len() && out_paths[k] == #[trigger] level_paths[j];
                    }
                }
            }
            level = next;
            proof {
                level_paths = next_paths;
                depth = depth + 1;
            }
        }
        proof {
            assert forall|p: Seq<u8>| #[trigger] self.state_at(root@, p) is Some implies exists|i: int|
                0 <= i < values@.len() && V::from_pillar_bytes(self.state_at(root@, p)->0) == Some(values@[i]) by {
                let i = choose|i: int| 0 <= i < out_paths.len() && out_paths[i] == p;
                assert(lookup(nodes, slot as int, out_paths[i]) is Some);
            }
            assert forall|i: int| 0 <= i < values@.len() implies self.holds_value(root@, #[trigger] values@[i]) by {
                assert(self.state_at(root@, out_paths[i]) is Some);
            }
            assert forall|i: int| 0 <= i < out_paths.len() implies self.state_at(root@, #[trigger] out_paths[i]) is Some
                && V::from_pillar_bytes(self.state_at(root@, out_paths[i])->0) == Some(values@[i]) by {}
            assert forall|p: Seq<u8>| #[trigger] self.state_at(root@, p) is Some implies out_paths.contains(p) by {
                let i = choose|i: int| 0 <= i < out_paths.len() && out_paths[i] == p;
            }
            assert(self.lists_values_once(root@, values@, out_paths));
        }
        values
    }
}

// ---------------------------------------------------------------------------
// Proofs of state.

/// The siblings that a proof step lists at the node in slot `n`: each child
/// other than the one under nibble `native` that has something to hash, in
/// nibble order, with its index and its hash under `H`.
pub closed spec fn sibling_entries<H: HashFunction>(
    nodes: Seq<Option<TrieNode>>,
    n: int,
    depth: nat,
    native: int,
    k: int,
) -> Seq<(u8, Seq<u8>)>
    decreases k,
{
    if k <= 0 || depth == 0 {
        Seq::empty()
    } else {
        sibling_entries::<H>(nodes, n, depth, native, k - 1) + match child(nodes, n, k - 1) {
            Some(c) => if k - 1 != native && live(nodes, c as int) && node_bytes(
                nodes,
                c as int,
                (depth - 1) as nat,
            ).len() > 0 {
                seq![((k - 1) as u8, H::digest_of(node_bytes(nodes, c as int, (depth - 1) as nat)))]
            } else {
                Seq::empty()
            },
            None => Seq::empty(),
        }
    }
}

/// The siblings of a proof step with their hashes as byte strings.
pub open spec fn siblings_view(s: Seq<(u8, StdByteArray)>) -> Seq<(u8, Seq<u8>)> {
    s.map_values(|e: (u8, StdByteArray)| (e.0, e.1@))
}

/// `step` is the proof step for depth `d` of `path` at the node in slot `x`:
/// it names the path's nibble at that depth (0 below the last nibble), lists
/// the node's other children as siblings, and carries the node's value under
/// the radix as index.
pub closed spec fn step_at<H: HashFunction>(nodes: Seq<Option<TrieNode>>, x: int, path: Seq<u8>, d: int, step: ProofStep) -> bool {
    let native = if d < 64 {
        path[d] as int
    } else {
        -1
    };
    &&& step.native == (if d < 64 {
        path[d]
    } else {
        0u8
    })
    &&& siblings_view(step.siblings@) == sibling_entries::<H>(nodes, x, (64 - d) as nat, native, 16)
    &&& match (step.value, value_of(nodes, x)) {
        (Some(sv), Some(v)) => sv.0 == 16 && sv.1@ == v,
        (None, None) => true,
        _ => false,
    }
}

impl<K: Hashable, V: PillarSerialize> MerkleTrie<K, V> {
    /// `proof` is the proof of state for `key` under `root`: one step per
    /// level from the root down to the node of the key, each made at the node
    /// that the key's path reaches at that level.
    pub closed spec fn proves_state<H: HashFunction>(&self, root: Seq<u8>, key: K, proof: TrieMerkleProof) -> bool {
        let path = key_path(key);
        &&& is_key_path(path)
        &&& self.root_slot(root) is Some
        &&& proof.steps@.len() == 65
        &&& forall|d: int|
            0 <= d <= 64 ==> #[trigger] reach(self.nodes@, self.root_slot(root)->0, path.take(d)) is Some
                && step_at::<H>(
                self.nodes@,
                reach(self.nodes@, self.root_slot(root)->0, path.take(d))->0,
                path,
                d,
                proof.steps@[d],
            )
    }
}

/// Generates a proof of state for `target_key` under `root`: for each level
/// from the root down to the node of the key, the nibble that the key's path
/// takes, the hashes of the other children (computed with `hash_function`),
/// and the node's value. None when the state holds no value for the key.
/// Also returns the key's value.
pub fn generate_proof_of_state<K: Hashable, V: PillarSerialize, H: HashFunction>(
    merkle_trie: &MerkleTrie<K, V>,
    target_key: K,
    root: Option<StdByteArray>,
    hash_function: &mut H,
) -> (r: Option<(TrieMerkleProof, V)>)
    requires
        merkle_trie.wf(),
        target_key.hash_input() is Some,
        root is Some,
    ensures
        r is Some <==> merkle_trie.value_at(root->0@, target_key) is Some,
        r matches Some(res) ==> Some(res.1) == merkle_trie.value_at(root->0@, target_key),
        r matches Some(res) ==> res.0.steps@.len() == 65 && well_formed_proof(res.0),
        r is Some && old(hash_function).absorbed() == Seq::<u8>::empty() ==> merkle_trie.proves_state::<H>(
            root->0@,
            target_key,
            (r->0).0,
        ),
{
    let root_hash = match root {
        Some(h) => h,
        None => [0u8; 32],
    };
    let value = match merkle_trie.get(&target_key, root_hash) {
        Some(v) => v,
        None => return None,
    };
    let path = to_nibbles(&target_key);
    let slot = match merkle_trie.root_key(&root_hash) {
        Some(s) => s,
        None => return None,
    };
    let ghost nodes = merkle_trie.nodes@;
    let ghost pos = merkle_trie.positions@;
    let ghost p = path@;
    let ghost fresh = hash_function.absorbed() == Seq::<u8>::empty();
    proof {
        let k = merkle_trie.root_entry(root_hash@)->0;
        assert(merkle_trie.roots@[k].1 == slot);
        assert(lookup(nodes, slot as int, p) is Some);
        assert(p.take(0) =~= Seq::<u8>::empty());
    }
    let mut steps: Vec<ProofStep> = Vec::new();
    let mut cur: usize = slot;
    let mut d: usize = 0;
    while d < 65
        invariant
            merkle_trie.wf(),
            nodes == merkle_trie.nodes@,
            pos == merkle_trie.positions@,
            p == path@,
            p == key_path(target_key),
            is_key_path(p),
            0 <= slot < nodes.len(),
            pos[slot as int] == Seq::<u8>::empty(),
            merkle_trie.root_slot(root_hash@) == Some(slot as int),
            lookup(nodes, slot as int, p) is Some,
            0 <= d <= 65,
            steps@.len() == d,
            d <= 64 ==> reach(nodes, slot as int, p.take(d as int)) == Some(cur as int),
            fresh ==> hash_function.absorbed() == Seq::<u8>::empty(),
            forall|k: int| 0 <= k < d ==> siblings_sorted((#[trigger] steps@[k]).siblings@),
            d == 65 ==> steps@[64].value is Some,
            fresh ==> forall|k: int|
                0 <= k < d ==> #[trigger] reach(nodes, slot as int, p.take(k)) is Some && step_at::<H>(
                    nodes,
                    reach(nodes, slot as int, p.take(k))->0,
                    p,
                    k,
                    steps@[k],
                ),
        decreases 65 - d,
    {
        let ghost x = cur as int;
        let ghost depth = (64 - d) as nat;
        proof {
            lemma_reach_take(nodes, slot as int, p, d as int);
            lemma_reach_live(nodes, slot as int, p.take(d as int));
            lemma_reach_at_root(nodes, pos, slot as int, p.take(d as int));
        }
        let node = match &merkle_trie.nodes[cur] {
            Some(nd) => nd,
            None => {
                proof {
                    assert(false);
                }
                return None;
            },
        };
        let native: Option<u8> = if d < 64 {
            Some(path[d])
        } else {
            None
        };
        let ghost native_index: int = if d < 64 {
            p[d as int] as int
        } else {
            -1
        };
        let mut siblings: Vec<(u8, StdByteArray)> = Vec::new();
        let mut j: usize = 0;
        while j < 16
            invariant
                merkle_trie.wf(),
                nodes == merkle_trie.nodes@,
                pos == merkle_trie.positions@,
                0 <= j <= 16,
                0 <= x < nodes.len(),
                x == cur as int,
                nodes[x] == Some(*node),
                depth == (64 - pos[x].len()) as nat,
                native_index == (if native is Some {
                    native->0 as int
                } else {
                    -1
                }),
                fresh ==> hash_function.absorbed() == Seq::<u8>::empty(),
                fresh ==> siblings_view(siblings@) == sibling_entries::<H>(nodes, x, depth, native_index, j as int),
                forall|a: int| 0 <= a < siblings@.len() ==> (#[trigger] siblings@[a]).0 < j,
                siblings_sorted(siblings@),
            decreases 16 - j,
        {
            let skip = match native {
                Some(n) => j == n as usize,
                None => false,
            };
            let ghost before = siblings@;
            match node.children[j] {
                Some(c) => {
                    proof {
                        assert(child(nodes, x, j as int) == Some(c));
                        assert(pos[c as int] == pos[x].push(j as u8));
                        assert(merkle_trie.slot_depth(c as int) == depth - 1);
                    }
                    if !skip {
                        let h = merkle_trie.get_hash_for(c, hash_function);
                        match h {
                            Some(h) => {
                                siblings.push((j as u8, h));
                                proof {
                                    assert(Seq::<u8>::empty() + node_bytes(nodes, c as int, (depth - 1) as nat)
                                        =~= node_bytes(nodes, c as int, (depth - 1) as nat));
                                    if fresh {
                                        assert(siblings_view(siblings@) =~= siblings_view(before).push(
                                            (j as u8, h@),
                                        ));
                                    }
                                }
                            },
                            None => {
                                proof {
                                    if fresh {
                                        assert(sibling_entries::<H>(nodes, x, depth, native_index, j + 1)
                                            =~= sibling_entries::<H>(nodes, x, depth, native_index, j as int));
                                    }
                                }
                            },
                        }
                    } else {
                        proof {
                            if fresh {
                                assert(sibling_entries::<H>(nodes, x, depth, native_index, j + 1)
                                    =~= sibling_entries::<H>(nodes, x, depth, native_index, j as int));
                            }
                        }
                    }
                },
                None => {
                    proof {
                        assert(child(nodes, x, j as int) is None);
                        if fresh {
                            assert(sibling_entries::<H>(nodes, x, depth, native_index, j + 1)
                                =~= sibling_entries::<H>(nodes, x, depth, native_index, j as int));
                        }
                    }
                },
            }
            j = j + 1;
        }
        let value_entry: Option<(u8, Vec<u8>)> = match &node.value {
            Some(v) => {
                let mut w: Vec<u8> = Vec::new();
                crate::bytes::extend_bytes(&mut w, v.as_slice());
                Some((16u8, w))
            },
            None => None,
        };
        let step = ProofStep { native: if d < 64 { path[d] } else { 0u8 }, siblings, value: value_entry };
        let ghost steps_before = steps@;
        steps.push(step);
        proof {
            if d == 64 {
                assert(p.take(64) =~= p);
                assert(value_of(nodes, x) is Some);
            }
            assert forall|k: int| 0 <= k < d + 1 implies siblings_sorted((#[trigger] steps@[k]).siblings@) by {
                if k < d {
                    assert(steps@[k] == steps_before[k]);
                }
            }
            if fresh {
                assert(step_at::<H>(nodes, x, p, d as int, step));
                assert forall|k: int| 0 <= k < d + 1 implies #[trigger] reach(nodes, slot as int, p.take(k)) is Some
                    && step_at::<H>(nodes, reach(nodes, slot as int, p.take(k))->0, p, k, steps@[k]) by {
                    if k < d {
                        assert(steps@[k] == steps_before[k]);
                    }
                }
            }
        }
        if d < 64 {
            let idx = path[d];
            assert(idx < 16);
            proof {
                lemma_reach_snoc(nodes, slot as int, p.take(d as int), idx);
                assert(p.take(d as int).push(idx) =~= p.take(d + 1));
                lemma_reach_take(nodes, slot as int, p, d + 1);
            }
            cur = match node.children[idx as usize] {
                Some(c) => c,
                None => {
                    proof {
                        assert(false);
                    }
                    return None;
                },
            };
        }
        d = d + 1;
    }
    Some((TrieMerkleProof::new(steps), value))
}

/// The siblings listed up to child `k` are a prefix of those listed up to
/// child `k2`.
proof fn lemma_sibling_prefix<H: HashFunction>(
    nodes: Seq<Option<TrieNode>>,
    n: int,
    depth: nat,
    native: int,
    k: int,
    k2: int,
)
    requires
        0 <= k <= k2,
    ensures
        sibling_entries::<H>(nodes, n, depth, native, k2).len() >= sibling_entries::<H>(nodes, n, depth, native, k).len(),
        sibling_entries::<H>(nodes, n, depth, native, k2).take(
            sibling_entries::<H>(nodes, n, depth, native, k).len() as int,
        ) == sibling_entries::<H>(nodes, n, depth, native, k),
    decreases k2 - k,
{
    let sk = sibling_entries::<H>(nodes, n, depth, native, k);
    if k2 == k {
        assert(sk.take(sk.len() as int) =~= sk);
    } else {
        lemma_sibling_prefix::<H>(nodes, n, depth, native, k, k2 - 1);
        let s1 = sibling_entries::<H>(nodes, n, depth, native, k2 - 1);
        let s2 = sibling_entries::<H>(nodes, n, depth, native, k2);
        if depth > 0 {
            assert(s2.take(sk.len() as int) =~= s1.take(sk.len() as int));
        } else {
            assert(s2 == s1);
        }
    }
}

/// Every sibling listed up to child `k` has an index below `k` other than
/// `native`.
proof fn lemma_sibling_indices<H: HashFunction>(nodes: Seq<Option<TrieNode>>, n: int, depth: nat, native: int, k: int)
    requires
        0 <= k <= 16,
    ensures
        forall|t: int|
            0 <= t < sibling_entries::<H>(nodes, n, depth, native, k).len() ==> (#[trigger] sibling_entries::<H>(
                nodes,
                n,
                depth,
                native,
                k,
            )[t]).0 < k && sibling_entries::<H>(nodes, n, depth, native, k)[t].0 != native,
    decreases k,
{
    if k > 0 && depth > 0 {
        lemma_sibling_indices::<H>(nodes, n, depth, native, k - 1);
        let s1 = sibling_entries::<H>(nodes, n, depth, native, k - 1);
        let s2 = sibling_entries::<H>(nodes, n, depth, native, k);
        assert forall|t: int| 0 <= t < s2.len() implies (#[trigger] s2[t]).0 < k && s2[t].0 != native by {
            if t < s1.len() {
                assert(s2[t] == s1[t]);
            }
        }
    }
}

/// The child slots of a node, hashed in nibble order, are the bytes that a
/// proof step puts together: the listed siblings with the path's slot put in
/// before the first sibling above it, or last.
proof fn lemma_children_as_level(
    nodes: Seq<Option<TrieNode>>,
    x: int,
    depth: nat,
    nv: int,
    h: Seq<u8>,
    sib: Seq<(u8, StdByteArray)>,
    k: int,
)
    requires
        depth > 0,
        0 <= nv < 16,
        0 <= k <= 16,
        child(nodes, x, nv) is Some,
        subtree_hash(nodes, child(nodes, x, nv)->0 as int, (depth - 1) as nat) == Some(h),
        siblings_view(sib) == sibling_entries::<DefaultHash>(nodes, x, depth, nv, 16),
    ensures
        ({
            let cnt = sibling_entries::<DefaultHash>(nodes, x, depth, nv, k).len() as int;
            children_bytes(nodes, x, depth, k) == level_bytes(sib, nv as u8, h, cnt) + (if k > nv && (cnt == 0
                || sib[cnt - 1].0 < nv) {
                slot_bytes(nv as u8, h)
            } else {
                Seq::empty()
            })
        }),
    decreases k,
{
    let s16 = sibling_entries::<DefaultHash>(nodes, x, depth, nv, 16);
    let sk = sibling_entries::<DefaultHash>(nodes, x, depth, nv, k);
    let cnt = sk.len() as int;
    lemma_sibling_prefix::<DefaultHash>(nodes, x, depth, nv, k, 16);
    assert(sib.len() == s16.len());
    if k == 0 {
        assert(children_bytes(nodes, x, depth, 0) =~= Seq::<u8>::empty());
    } else {
        lemma_children_as_level(nodes, x, depth, nv, h, sib, k - 1);
        let sp = sibling_entries::<DefaultHash>(nodes, x, depth, nv, k - 1);
        let cp = sp.len() as int;
        lemma_sibling_prefix::<DefaultHash>(nodes, x, depth, nv, k - 1, 16);
        lemma_sibling_indices::<DefaultHash>(nodes, x, depth, nv, k - 1);
        let j = k - 1;
        let prev_tail = if j > nv && (cp == 0 || sib[cp - 1].0 < nv) {
            slot_bytes(nv as u8, h)
        } else {
            Seq::<u8>::empty()
        };
        if cp > 0 {
            assert(sib[cp - 1].0 == sp[cp - 1].0) by {
                assert(siblings_view(sib)[cp - 1] == s16[cp - 1]);
                assert(s16.take(cp)[cp - 1] == sp[cp - 1]);
            }
            assert(sp[cp - 1].0 < j);
            assert(sp[cp - 1].0 != nv);
        }
        if j == nv {
            assert(sk == sp);
            assert(children_bytes(nodes, x, depth, k) == children_bytes(nodes, x, depth, j) + (seq![
                j as u8,
            ] + h));
            assert(slot_bytes(nv as u8, h) =~= seq![j as u8] + h);
        } else {
            match child(nodes, x, j) {
                Some(c) => {
                    if live(nodes, c as int) && node_bytes(nodes, c as int, (depth - 1) as nat).len() > 0 {
                        let hk = sha3_256_digest(node_bytes(nodes, c as int, (depth - 1) as nat));
                        assert(subtree_hash(nodes, c as int, (depth - 1) as nat) == Some(hk));
                        assert(sk == sp.push((j as u8, hk)));
                        assert(cnt == cp + 1);
                        assert(sib[cp].0 == j as u8 && sib[cp].1@ == hk) by {
                            assert(siblings_view(sib)[cp] == s16[cp]);
                            assert(s16.take(cnt)[cp] == sk[cp]);
                        }
                        assert(native_before(sib, nv as u8, cp) == (j > nv && (cp == 0 || sib[cp - 1].0 < nv)));
                        assert(level_bytes(sib, nv as u8, h, cnt) == level_bytes(sib, nv as u8, h, cp) + (
                        if native_before(sib, nv as u8, cp) {
                            slot_bytes(nv as u8, h)
                        } else {
                            Seq::empty()
                        }) + slot_bytes(sib[cp].0, sib[cp].1@));
                        assert(slot_bytes(sib[cp].0, sib[cp].1@) =~= seq![j as u8] + hk);
                        assert(children_bytes(nodes, x, depth, k) == children_bytes(nodes, x, depth, j) + (seq![
                            j as u8,
                        ] + hk));
                        if j > nv {
                            assert(children_bytes(nodes, x, depth, k) =~= level_bytes(sib, nv as u8, h, cnt));
                        } else {
                            assert(children_bytes(nodes, x, depth, k) =~= level_bytes(sib, nv as u8, h, cnt));
                        }
                    } else {
                        assert(subtree_hash(nodes, c as int, (depth - 1) as nat) is None);
                        assert(sk == sp);
                        assert(children_bytes(nodes, x, depth, k) =~= children_bytes(nodes, x, depth, j));
                    }
                },
                None => {
                    assert(sk == sp);
                    assert(children_bytes(nodes, x, depth, k) =~= children_bytes(nodes, x, depth, j));
                },
            }
        }
    }
}

impl<K: Hashable, V: PillarSerialize> MerkleTrie<K, V> {
    /// A proof of state checks out: when `proof` is the proof of state for
    /// `key` under `root`, made with SHA3-256, and the state holds a value for
    /// the key, then hashing the proof's levels from the encoding of that
    /// value up gives the root's hash.
    pub proof fn lemma_state_proof_verifies(self, root: Seq<u8>, key: K, proof: TrieMerkleProof)
        requires
            self.wf(),
            self.proves_state::<DefaultHash>(root, key, proof),
            self.value_at(root, key) is Some,
        ensures
            self.root_hash_of(root) is Some,
            trie_value::<DefaultHash>(
                proof.steps@,
                self.value_at(root, key)->0.pillar_bytes(),
                Seq::empty(),
                65,
            ) == self.root_hash_of(root)->0,
    {
        let nodes = self.nodes@;
        let pos = self.positions@;
        let slot = self.root_slot(root)->0;
        let path = key_path(key);
        let steps = proof.steps@;
        let k = self.root_entry(root)->0;
        assert(self.roots@[k].1 == slot);
        let b = lookup(nodes, slot, path)->0;
        assert(canonical::<V>(b));
        assert(self.value_at(root, key)->0.pillar_bytes() == b);
        assert(path.take(64) =~= path);
        assert(reach(nodes, slot, path.take(64)) is Some && step_at::<DefaultHash>(
            nodes,
            reach(nodes, slot, path.take(64))->0,
            path,
            64,
            steps[64],
        ));
        self.lemma_levels_hash(root, key, proof, b, 1);
        assert(path.take(0) =~= Seq::<u8>::empty());
        assert(reach(nodes, slot, path.take(0)) is Some && step_at::<DefaultHash>(
            nodes,
            reach(nodes, slot, path.take(0))->0,
            path,
            0,
            steps[0],
        ));
        assert(pos[slot] == Seq::<u8>::empty());
        assert(self.slot_depth(slot) == 64);
        assert(Seq::<u8>::empty() + node_bytes(nodes, slot, 64) =~= node_bytes(nodes, slot, 64));
        self.lemma_levels_hash(root, key, proof, b, 65);
    }

    /// The hash reached after the bottom `m` levels of a proof of state is the
    /// subtree hash of the node at that level.
    proof fn lemma_levels_hash(self, root: Seq<u8>, key: K, proof: TrieMerkleProof, b: Seq<u8>, m: int)
        requires
            self.wf(),
            self.proves_state::<DefaultHash>(root, key, proof),
            lookup(self.nodes@, self.root_slot(root)->0, key_path(key)) == Some(b),
            1 <= m <= 65,
        ensures
            ({
                let d = 65 - m;
                let x = reach(self.nodes@, self.root_slot(root)->0, key_path(key).take(d))->0;
                &&& subtree_hash(self.nodes@, x, (64 - d) as nat) is Some
                &&& trie_value::<DefaultHash>(proof.steps@, b, Seq::empty(), m) == subtree_hash(
                    self.nodes@,
                    x,
                    (64 - d) as nat,
                )->0
            }),
        decreases m,
    {
        let nodes = self.nodes@;
        let slot = self.root_slot(root)->0;
        let path = key_path(key);
        let steps = proof.steps@;
        let d = 65 - m;
        assert(reach(nodes, slot, path.take(d)) is Some && step_at::<DefaultHash>(
            nodes,
            reach(nodes, slot, path.take(d))->0,
            path,
            d,
            steps[d],
        ));
        let x = reach(nodes, slot, path.take(d))->0;
        lemma_reach_take(nodes, slot, path, d);
        lemma_reach_live(nodes, slot, path.take(d));
        assert(path.skip(d).len() == 64 - d);
        assert(lookup(nodes, x, path.skip(d)) == Some(b));
        lemma_found_value_hashes(nodes, self.positions@, x, path.skip(d), (64 - d) as nat);
        let step = steps[d];
        if m == 1 {
            // the bottom level: the node of the key, with its value
            assert(path.take(64) =~= path);
            assert(path.skip(64) =~= Seq::<u8>::empty());
            assert(value_of(nodes, x) == Some(b));
            assert(sibling_entries::<DefaultHash>(nodes, x, 0, -1, 16) =~= Seq::<(u8, Seq<u8>)>::empty());
            assert(siblings_view(step.siblings@) == sibling_entries::<DefaultHash>(nodes, x, 0, -1, 16));
            assert(siblings_view(step.siblings@).len() == step.siblings@.len());
            assert(step.siblings@.len() == 0);
            assert(siblings_bytes(step.siblings@, 0) =~= Seq::<u8>::empty());
            assert(value_index(step) == 16);
            assert(children_bytes(nodes, x, 0, 16) =~= Seq::<u8>::empty());
            assert(first_level_input(step, b) =~= seq![16u8] + b);
            assert(Seq::<u8>::empty() + first_level_input(step, b) =~= first_level_input(step, b));
            assert(node_bytes(nodes, x, 0) =~= seq![16u8] + b);
        } else {
            self.lemma_levels_hash(root, key, proof, b, m - 1);
            let nv = path[d] as int;
            assert(0 <= nv < 16);
            assert(path.take(d).push(path[d]) =~= path.take(d + 1));
            lemma_reach_take(nodes, slot, path, d + 1);
            lemma_reach_snoc(nodes, slot, path.take(d), path[d]);
            let c = child(nodes, x, nv)->0;
            assert(reach(nodes, slot, path.take(d + 1)) == Some(c as int));
            let h = subtree_hash(nodes, c as int, (63 - d) as nat)->0;
            assert(trie_value::<DefaultHash>(steps, b, Seq::empty(), m - 1) == h);
            assert(steps.len() - m == d);
            lemma_children_as_level(nodes, x, (64 - d) as nat, nv, h, step.siblings@, 16);
            let n = step.siblings@.len() as int;
            assert(sibling_entries::<DefaultHash>(nodes, x, (64 - d) as nat, nv, 16).len() == n);
            assert(step.native == nv as u8);
            assert(value_bytes(step) == value_slot(nodes, x)) by {
                match value_of(nodes, x) {
                    Some(v) => {
                        assert(value_bytes(step) =~= seq![16u8] + v);
                    },
                    None => {},
                }
            }
            assert(level_input(step, h) =~= node_bytes(nodes, x, (64 - d) as nat));
        }
    }
}

impl<K: Hashable, V: PillarSerialize> MerkleTrie<K, V> {
    /// Some node of the arena holds the value bytes `v`.
    pub closed spec fn arena_holds(&self, v: Seq<u8>) -> bool {
        exists|n: int| #[trigger] value_of(self.nodes@, n) == Some(v)
    }

    /// The value bytes held by the nodes of the arena, in slot order.
    pub fn node_values(&self) -> (r: Vec<Vec<u8>>)
        ensures
            forall|i: int| 0 <= i < r@.len() ==> self.arena_holds(#[trigger] r@[i]@),
            forall|v: Seq<u8>| #[trigger] self.arena_holds(v) ==> exists|i: int| 0 <= i < r@.len() && r@[i]@ == v,
    {
        let mut out: Vec<Vec<u8>> = Vec::new();
        let ghost mut slots: Seq<int> = Seq::empty();
        let mut n: usize = 0;
        while n < self.nodes.len()
            invariant
                0 <= n <= self.nodes@.len(),
                slots.len() == out@.len(),
                forall|i: int| 0 <= i < out@.len() ==> value_of(self.nodes@, #[trigger] slots[i]) == Some(out@[i]@),
                forall|m: int|
                    0 <= m < n && #[trigger] value_of(self.nodes@, m) is Some ==> exists|i: int|
                        0 <= i < out@.len() && out@[i]@ == value_of(self.nodes@, m)->0,
            decreases self.nodes@.len() - n,
        {
            let ghost out_before = out@;
            match &self.nodes[n] {
                Some(node) => match &node.value {
                    Some(v) => {
                        let mut w: Vec<u8> = Vec::new();
                        crate::bytes::extend_bytes(&mut w, v.as_slice());
                        out.push(w);
                        proof {
                            slots = slots.push(n as int);
                        }
                    },
                    None => {},
                },
                None => {},
            }
            proof {
                assert forall|m: int|
                    0 <= m < n + 1 && #[trigger] value_of(self.nodes@, m) is Some implies exists|i: int|
                        0 <= i < out@.len() && out@[i]@ == value_of(self.nodes@, m)->0 by {
                    if m < n {
                        let i = choose|i: int| 0 <= i < out_before.len() && out_before[i]@ == value_of(self.nodes@, m)->0;
                        assert(out@[i] == out_before[i]);
                    } else {
                        assert(out@[out@.len() - 1]@ == value_of(self.nodes@, m)->0);
                    }
                }
            }
            n = n + 1;
        }
        proof {
            assert forall|i: int| 0 <= i < out@.len() implies self.arena_holds(#[trigger] out@[i]@) by {
                assert(value_of(self.nodes@, slots[i]) == Some(out@[i]@));
            }
            assert forall|v: Seq<u8>| #[trigger] self.arena_holds(v) implies exists|i: int|
                0 <= i < out@.len() && out@[i]@ == v by {
                let m = choose|m: int| #[trigger] value_of(self.nodes@, m) == Some(v);
                assert(live(self.nodes@, m));
            }
        }
        out
    }
}

} // verus!
