//! Binary Merkle trees over hashable items.
//!
//! A tree is kept as its levels of node hashes: level 0 holds the leaf
//! hashes, and each next level holds the hashes of adjacent pairs of the level
//! below; the last node of a level of odd length is paired with itself. The
//! last level holds the root alone.

use vstd::prelude::*;

use crate::bytes::StdByteArray;
use crate::hashing::{HashFunction, Hashable};

verus! {

/// The error returned when a tree is requested over no data.
#[derive(Debug, Clone, Copy, PartialEq, Eq)]
pub enum MerkleError {
    /// There were no items to build the tree from.
    EmptyData,
}

/// A Merkle tree, kept as the hashes of its levels, leaves first.
#[derive(Debug, Clone)]
pub struct MerkleTree {
    levels: Vec<Vec<StdByteArray>>,
}

/// The byte views of a sequence of hashes.
pub open spec fn hashes_view(l: Seq<StdByteArray>) -> Seq<Seq<u8>> {
    Seq::new(l.len(), |i: int| l[i]@)
}

/// The index of the node that is hashed together with node `j` of a level of
/// length `n`: its neighbour in the pair, or itself when it is the odd last one.
pub open spec fn sibling_index(n: int, j: int) -> int {
    if j % 2 == 0 {
        if j + 1 < n {
            j + 1
        } else {
            j
        }
    } else {
        j - 1
    }
}

/// The hash of the pair that starts at node `2 * i` of a level.
pub open spec fn pair_hash<H: HashFunction>(l: Seq<Seq<u8>>, i: int) -> Seq<u8> {
    H::digest_of(l[2 * i] + l[sibling_index(l.len() as int, 2 * i)])
}

/// The level above a level: the hashes of its adjacent pairs.
pub open spec fn next_level<H: HashFunction>(l: Seq<Seq<u8>>) -> Seq<Seq<u8>> {
    Seq::new(((l.len() + 1) / 2) as nat, |i: int| pair_hash::<H>(l, i))
}

/// The leaf hash of an item whose hash input is `input`, when the hash
/// function had absorbed `prefix` before: the hash of the item's hash.
pub open spec fn leaf_hash<H: HashFunction>(prefix: Seq<u8>, input: Seq<u8>) -> Seq<u8> {
    H::digest_of(H::digest_of(prefix + input))
}

/// The leaf hashes of a sequence of items; only the first item sees what the
/// hash function had absorbed before.
pub open spec fn leaves_of<T: Hashable, H: HashFunction>(items: Seq<T>, prefix: Seq<u8>) -> Seq<Seq<u8>> {
    Seq::new(
        items.len(),
        |i: int|
            leaf_hash::<H>(
                if i == 0 {
                    prefix
                } else {
                    Seq::<u8>::empty()
                },
                items[i].hash_input()->0,
            ),
    )
}

/// The root hash reached from a level by pairing until one hash is left.
pub open spec fn root_of_level<H: HashFunction>(l: Seq<Seq<u8>>) -> Seq<u8>
    decreases l.len(),
{
    if l.len() <= 1 {
        l[0]
    } else {
        root_of_level::<H>(next_level::<H>(l))
    }
}

/// The Merkle root of a non-empty sequence of leaf hashes.
pub open spec fn merkle_root_of<H: HashFunction>(leaves: Seq<Seq<u8>>) -> Seq<u8> {
    root_of_level::<H>(leaves)
}

impl MerkleTree {
    /// The hashes of each level, leaves first.
    pub closed spec fn levels(&self) -> Seq<Seq<Seq<u8>>> {
        Seq::new(self.levels@.len(), |k: int| hashes_view(self.levels@[k]@))
    }

    /// The shape of a tree: empty, or levels that halve (rounding up) from a
    /// non-empty leaf level down to a single root, with no earlier level of
    /// length one.
    pub open spec fn well_shaped(&self) -> bool {
        let lv = self.levels();
        &&& forall|k: int| 0 <= k < lv.len() ==> #[trigger] lv[k].len() >= 1
        &&& forall|k: int|
            0 <= k < lv.len() - 1 ==> #[trigger] lv[k + 1].len() == (lv[k].len() + 1) / 2
                && lv[k].len() > 1
        &&& lv.len() > 0 ==> lv[lv.len() - 1].len() == 1
    }

    /// Every level is the level of pair hashes, under `H`, of the level below.
    pub open spec fn built_with<H: HashFunction>(&self) -> bool {
        let lv = self.levels();
        forall|k: int| 0 <= k < lv.len() - 1 ==> #[trigger] lv[k + 1] == next_level::<H>(lv[k])
    }

    /// The leaf hashes of the tree (empty for the empty tree).
    pub open spec fn leaves(&self) -> Seq<Seq<u8>> {
        if self.levels().len() == 0 {
            Seq::empty()
        } else {
            self.levels()[0]
        }
    }

    /// The root hash of the tree, if it has one.
    pub open spec fn root(&self) -> Option<Seq<u8>> {
        if self.levels().len() == 0 {
            None
        } else {
            Some(self.levels()[self.levels().len() - 1][0])
        }
    }

    /// The empty tree.
    pub fn new() -> (r: Self)
        ensures
            r.levels().len() == 0,
            r.well_shaped(),
            r.root() is None,
    {
        MerkleTree { levels: Vec::new() }
    }

    /// The root hash of the tree, if it has one.
    pub fn get_root_hash(&self) -> (r: Option<StdByteArray>)
        requires
            self.well_shaped(),
        ensures
            r is None <==> self.root() is None,
            r matches Some(h) ==> Some(h@) == self.root(),
    {
        let n = self.levels.len();
        if n == 0 {
            return None;
        }
        let last = &self.levels[n - 1];
        proof {
            assert(self.levels()[n - 1].len() == 1);
            assert(hashes_view(self.levels@[n - 1]@).len() == last@.len());
        }
        Some(last[0])
    }

    /// The number of levels above the leaves (0 for a single leaf or an
    /// empty tree).
    pub fn height(&self) -> (r: usize)
        ensures
            r == if self.levels().len() == 0 {
                0
            } else {
                self.levels().len() - 1
            },
    {
        if self.levels.len() == 0 {
            0
        } else {
            self.levels.len() - 1
        }
    }

    /// The leaf hashes of the tree.
    pub fn leaf_hashes(&self) -> (r: Vec<StdByteArray>)
        ensures
            hashes_view(r@) == self.leaves(),
    {
        if self.levels.len() == 0 {
            let r: Vec<StdByteArray> = Vec::new();
            assert(hashes_view(r@) =~= self.leaves());
            r
        } else {
            self.levels[0].clone()
        }
    }

    /// The hashes of level `k`.
    pub fn level(&self, k: usize) -> (r: &Vec<StdByteArray>)
        requires
            k < self.levels().len(),
        ensures
            hashes_view(r@) == self.levels()[k as int],
    {
        &self.levels[k]
    }

    /// The number of levels.
    pub fn n_levels(&self) -> (r: usize)
        ensures
            r == self.levels().len(),
    {
        self.levels.len()
    }
}

/// Builds the level above `cur` with the hash function.
fn build_next_level<H: HashFunction>(cur: &Vec<StdByteArray>, hash_function: &mut H) -> (r: Vec<StdByteArray>)
    requires
        cur@.len() >= 1,
        old(hash_function).absorbed() == Seq::<u8>::empty(),
    ensures
        hashes_view(r@) == next_level::<H>(hashes_view(cur@)),
        final(hash_function).absorbed() == Seq::<u8>::empty(),
{
    let ghost l = hashes_view(cur@);
    let n = cur.len();
    let half = n / 2 + n % 2;
    let mut next: Vec<StdByteArray> = Vec::new();
    let mut i: usize = 0;
    while i < half
        invariant
            n == cur@.len(),
            l == hashes_view(cur@),
            half == (n + 1) / 2,
            0 <= i <= half,
            next@.len() == i,
            forall|j: int| 0 <= j < i ==> #[trigger] next@[j]@ == pair_hash::<H>(l, j),
            hash_function.absorbed() == Seq::<u8>::empty(),
        decreases half - i,
    {
        let left = 2 * i;
        let right = if left + 1 < n {
            left + 1
        } else {
            left
        };
        hash_function.update(cur[left].as_slice());
        hash_function.update(cur[right].as_slice());
        let h = match hash_function.digest() {
            Ok(h) => h,
            Err(_) => [0u8; 32],
        };
        proof {
            assert(right as int == sibling_index(n as int, 2 * i));
            assert(h@ == pair_hash::<H>(l, i as int));
        }
        next.push(h);
        i = i + 1;
    }
    assert(hashes_view(next@) =~= next_level::<H>(l));
    next
}

/// Builds the Merkle tree of `data`. The leaf of each item is the hash of the
/// item's hash. Fails when there is no data.
pub fn generate_tree<T: Hashable, H: HashFunction>(data: &Vec<T>, hash_function: &mut H) -> (r: Result<MerkleTree, MerkleError>)
    requires
        forall|i: int| 0 <= i < data@.len() ==> (#[trigger] data@[i]).hash_input() is Some,
    ensures
        data@.len() == 0 <==> r is Err,
        data@.len() == 0 ==> final(hash_function).absorbed() == old(hash_function).absorbed(),
        r matches Ok(t) ==> {
            &&& t.well_shaped()
            &&& t.built_with::<H>()
            &&& t.levels().len() > 0
            &&& t.leaves() == leaves_of::<T, H>(data@, old(hash_function).absorbed())
            &&& final(hash_function).absorbed() == Seq::<u8>::empty()
        },
{
    if data.len() == 0 {
        return Err(MerkleError::EmptyData);
    }
    let ghost prefix = hash_function.absorbed();
    let ghost want = leaves_of::<T, H>(data@, prefix);
    let mut leaves: Vec<StdByteArray> = Vec::new();
    let mut i: usize = 0;
    while i < data.len()
        invariant
            0 <= i <= data@.len(),
            data@.len() >= 1,
            forall|j: int| 0 <= j < data@.len() ==> (#[trigger] data@[j]).hash_input() is Some,
            want == leaves_of::<T, H>(data@, prefix),
            leaves@.len() == i,
            forall|j: int| 0 <= j < i ==> #[trigger] leaves@[j]@ == want[j],
            hash_function.absorbed() == if i == 0 {
                prefix
            } else {
                Seq::<u8>::empty()
            },
        decreases data@.len() - i,
    {
        let item_hash = match data[i].hash(hash_function) {
            Ok(h) => h,
            Err(_) => [0u8; 32],
        };
        hash_function.update(item_hash.as_slice());
        let leaf = match hash_function.digest() {
            Ok(h) => h,
            Err(_) => [0u8; 32],
        };
        proof {
            assert(data@[i as int].hash_input() is Some);
            assert(Seq::<u8>::empty() + item_hash@ =~= item_hash@);
            assert(leaf@ == want[i as int]);
        }
        leaves.push(leaf);
        i = i + 1;
    }
    let mut levels: Vec<Vec<StdByteArray>> = Vec::new();
    let mut cur = leaves;
    proof {
        assert(hashes_view(cur@) =~= want);
    }
    while cur.len() > 1
        invariant
            cur@.len() >= 1,
            hash_function.absorbed() == Seq::<u8>::empty(),
            forall|k: int| 0 <= k < levels@.len() ==> #[trigger] levels@[k]@.len() > 1,
            forall|k: int|
                0 <= k < levels@.len() ==> hashes_view(
                    #[trigger] levels@[k]@,
                ).len() == levels@[k]@.len(),
            forall|k: int|
                0 <= k < levels@.len() - 1 ==> #[trigger] hashes_view(levels@[k + 1]@)
                    == next_level::<H>(hashes_view(levels@[k]@)),
            levels@.len() > 0 ==> hashes_view(cur@) == next_level::<H>(
                hashes_view(levels@[levels@.len() - 1]@),
            ),
            levels@.len() == 0 ==> hashes_view(cur@) == want,
            levels@.len() > 0 ==> hashes_view(levels@[0]@) == want,
        decreases cur@.len(),
    {
        let next = build_next_level(&cur, hash_function);
        assert(hashes_view(next@).len() == next@.len());
        assert(hashes_view(cur@).len() == cur@.len());
        levels.push(cur);
        cur = next;
    }
    levels.push(cur);
    let tree = MerkleTree { levels };
    proof {
        let lv = tree.levels();
        assert forall|k: int| 0 <= k < lv.len() - 1 implies #[trigger] lv[k + 1] == next_level::<H>(
            lv[k],
        ) by {
            assert(lv[k] == hashes_view(tree.levels@[k]@));
            assert(lv[k + 1] == hashes_view(tree.levels@[k + 1]@));
        }
        assert forall|k: int| 0 <= k < lv.len() implies #[trigger] lv[k].len() >= 1 by {
            assert(lv[k] == hashes_view(tree.levels@[k]@));
            if k < lv.len() - 1 {
                assert(tree.levels@[k]@.len() > 1);
            }
        }
        assert forall|k: int| 0 <= k < lv.len() - 1 implies #[trigger] lv[k + 1].len() == (lv[k].len()
            + 1) / 2 && lv[k].len() > 1 by {
            assert(lv[k] == hashes_view(tree.levels@[k]@));
            assert(lv[k + 1] == hashes_view(tree.levels@[k + 1]@));
            assert(lv[k + 1] == next_level::<H>(lv[k]));
        }
        assert(lv[0] == hashes_view(tree.levels@[0]@));
    }
    Ok(tree)
}

/// In a tree built with `H`, the root of each level from `k` on is the root of
/// the tree.
proof fn lemma_root_from_level<H: HashFunction>(t: MerkleTree, k: int)
    requires
        t.well_shaped(),
        t.built_with::<H>(),
        0 <= k < t.levels().len(),
    ensures
        root_of_level::<H>(t.levels()[k]) == t.root()->0,
    decreases t.levels().len() - k,
{
    let lv = t.levels();
    if k < lv.len() - 1 {
        assert(lv[k + 1] == next_level::<H>(lv[k]));
        assert(lv[k].len() > 1);
        lemma_root_from_level::<H>(t, k + 1);
    } else {
        assert(lv[k].len() == 1);
    }
}

/// The root of a tree built with `H` is the Merkle root of its leaves.
pub proof fn lemma_root_of_built_tree<H: HashFunction>(t: MerkleTree)
    requires
        t.well_shaped(),
        t.built_with::<H>(),
        t.levels().len() > 0,
    ensures
        t.root() == Some(merkle_root_of::<H>(t.leaves())),
{
    lemma_root_from_level::<H>(t, 0);
}

} // verus!
