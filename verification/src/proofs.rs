//! Merkle proofs of inclusion and Merkle trie proofs.

use vstd::prelude::*;

use crate::bytes::{eq32, StdByteArray};
use crate::hashing::HashFunction;
use crate::merkle::{hashes_view, next_level, sibling_index, MerkleTree};

verus! {

/// On which side the sibling hash of a proof step stands.
#[derive(Debug, Clone, Copy, PartialEq, Eq, Hash)]
pub enum HashDirection {
    Left,
    Right,
}

/// A proof that a leaf is in a Merkle tree: the sibling hashes from the leaf
/// up to the root, the side of each, and the root.
#[derive(Debug, Clone, PartialEq, Eq, Hash)]
pub struct MerkleProof {
    pub hashes: Vec<StdByteArray>,
    pub directions: Vec<HashDirection>,
    pub root: StdByteArray,
}

/// One step of a proof: combine the current hash with a sibling hash.
pub open spec fn proof_step<H: HashFunction>(cur: Seq<u8>, sibling: Seq<u8>, d: HashDirection) -> Seq<u8> {
    match d {
        HashDirection::Left => H::digest_of(sibling + cur),
        HashDirection::Right => H::digest_of(cur + sibling),
    }
}

/// The hash reached from `start` after the first `n` steps of a proof.
pub open spec fn proof_value<H: HashFunction>(
    start: Seq<u8>,
    hashes: Seq<Seq<u8>>,
    dirs: Seq<HashDirection>,
    n: nat,
) -> Seq<u8>
    decreases n,
{
    if n == 0 {
        start
    } else {
        proof_step::<H>(proof_value::<H>(start, hashes, dirs, (n - 1) as nat), hashes[n - 1], dirs[n - 1])
    }
}

/// The number of steps a proof has: the shorter of its two lists.
pub open spec fn proof_len(p: MerkleProof) -> nat {
    if p.hashes@.len() <= p.directions@.len() {
        p.hashes@.len()
    } else {
        p.directions@.len()
    }
}

/// The hash that verification of `p` reaches from the leaf hash `start`.
pub open spec fn proof_result<H: HashFunction>(start: Seq<u8>, p: MerkleProof) -> Seq<u8> {
    proof_value::<H>(start, hashes_view(p.hashes@), p.directions@, proof_len(p))
}

/// The index of the node on the path of leaf `idx` at level `k`.
pub open spec fn path_index(idx: int, k: nat) -> int
    decreases k,
{
    if k == 0 {
        idx
    } else {
        path_index(idx, (k - 1) as nat) / 2
    }
}

/// The side of the sibling of node `j`.
pub open spec fn sibling_direction(j: int) -> HashDirection {
    if j % 2 == 0 {
        HashDirection::Right
    } else {
        HashDirection::Left
    }
}

/// The sibling hashes on the path of leaf `idx` through levels `lv`.
pub open spec fn path_hashes(lv: Seq<Seq<Seq<u8>>>, idx: int) -> Seq<Seq<u8>> {
    Seq::new(
        (lv.len() - 1) as nat,
        |k: int| lv[k][sibling_index(lv[k].len() as int, path_index(idx, k as nat))],
    )
}

/// The sibling sides on the path of leaf `idx` through levels `lv`.
pub open spec fn path_directions(lv: Seq<Seq<Seq<u8>>>, idx: int) -> Seq<HashDirection> {
    Seq::new((lv.len() - 1) as nat, |k: int| sibling_direction(path_index(idx, k as nat)))
}

/// The first index at which `leaves` holds `target`.
pub open spec fn is_first_index(leaves: Seq<Seq<u8>>, target: Seq<u8>, i: int) -> bool {
    &&& 0 <= i < leaves.len()
    &&& leaves[i] == target
    &&& forall|j: int| 0 <= j < i ==> leaves[j] != target
}

/// Verifies a proof of inclusion: hashes `data` into the leaf hash, walks the
/// proof, and compares the result with `root`.
pub fn verify_proof_of_inclusion<H: HashFunction>(
    data: StdByteArray,
    proof: &MerkleProof,
    root: StdByteArray,
    hash_function: &mut H,
) -> (r: bool)
    ensures
        r == (proof_result::<H>(H::digest_of(old(hash_function).absorbed() + data@), *proof) == root@),
        final(hash_function).absorbed() == Seq::<u8>::empty(),
{
    hash_function.update(data.as_slice());
    let mut current = match hash_function.digest() {
        Ok(h) => h,
        Err(_) => [0u8; 32],
    };
    let ghost start = current@;
    let ghost hs = hashes_view(proof.hashes@);
    let ghost ds = proof.directions@;
    let n = if proof.hashes.len() <= proof.directions.len() {
        proof.hashes.len()
    } else {
        proof.directions.len()
    };
    let mut i: usize = 0;
    while i < n
        invariant
            0 <= i <= n,
            n == proof_len(*proof),
            n <= proof.hashes@.len(),
            n <= proof.directions@.len(),
            hs == hashes_view(proof.hashes@),
            ds == proof.directions@,
            current@ == proof_value::<H>(start, hs, ds, i as nat),
            hash_function.absorbed() == Seq::<u8>::empty(),
        decreases n - i,
    {
        let hash = &proof.hashes[i];
        match proof.directions[i] {
            HashDirection::Left => {
                hash_function.update(hash.as_slice());
                hash_function.update(current.as_slice());
            },
            HashDirection::Right => {
                hash_function.update(current.as_slice());
                hash_function.update(hash.as_slice());
            },
        }
        current = match hash_function.digest() {
            Ok(h) => h,
            Err(_) => [0u8; 32],
        };
        i = i + 1;
    }
    eq32(&current, &root)
}

/// Generates the proof of inclusion of `data` in a tree: finds the first leaf
/// equal to the hash of `data` and collects the sibling hashes on its path.
/// `None` for the empty tree or when no leaf matches.
pub fn generate_proof_of_inclusion<H: HashFunction>(
    merkle_tree: &MerkleTree,
    data: StdByteArray,
    hash_function: &mut H,
) -> (r: Option<MerkleProof>)
    requires
        merkle_tree.well_shaped(),
    ensures
        merkle_tree.levels().len() == 0 ==> r is None,
        merkle_tree.levels().len() > 0 ==> ({
            let target = H::digest_of(old(hash_function).absorbed() + data@);
            let lv = merkle_tree.levels();
            &&& r is None <==> !merkle_tree.leaves().contains(target)
            &&& (r matches Some(p) ==> exists|i: int|
                #![trigger is_first_index(merkle_tree.leaves(), target, i)]
                is_first_index(merkle_tree.leaves(), target, i)
                    && hashes_view(p.hashes@) == path_hashes(lv, i)
                    && p.directions@ == path_directions(lv, i)
                    && Some(p.root@) == merkle_tree.root())
        }),
{
    let n_levels = merkle_tree.n_levels();
    if n_levels == 0 {
        return None;
    }
    let ghost lv = merkle_tree.levels();
    hash_function.update(data.as_slice());
    let target = match hash_function.digest() {
        Ok(h) => h,
        Err(_) => [0u8; 32],
    };
    let leaves = merkle_tree.level(0);
    let mut idx: usize = 0;
    let mut found = false;
    while idx < leaves.len()
        invariant_except_break
            !found,
        invariant
            lv.len() > 0,
            0 <= idx <= leaves@.len(),
            hashes_view(leaves@) == lv[0],
            forall|j: int| 0 <= j < idx ==> lv[0][j] != target@,
        ensures
            0 <= idx <= leaves@.len(),
            found ==> idx < leaves@.len() && lv[0][idx as int] == target@,
            !found ==> idx == leaves@.len(),
            forall|j: int| 0 <= j < idx ==> lv[0][j] != target@,
        decreases leaves@.len() - idx,
    {
        if eq32(&leaves[idx], &target) {
            found = true;
            assert(hashes_view(leaves@)[idx as int] == leaves@[idx as int]@);
            break;
        }
        idx = idx + 1;
    }
    if !found {
        proof {
            assert(idx == leaves@.len());
            if lv[0].contains(target@) {
                let j = choose|j: int| 0 <= j < lv[0].len() && lv[0][j] == target@;
                assert(lv[0][j] != target@);
            }
        }
        return None;
    }
    let ghost first = idx as int;
    assert(lv[0][first] == target@);
    let mut hashes: Vec<StdByteArray> = Vec::new();
    let mut directions: Vec<HashDirection> = Vec::new();
    let mut k: usize = 0;
    let mut j: usize = idx;
    while k + 1 < n_levels
        invariant
            n_levels == lv.len(),
            lv == merkle_tree.levels(),
            merkle_tree.well_shaped(),
            0 <= k < n_levels,
            j as int == path_index(first, k as nat),
            0 <= j < lv[k as int].len(),
            hashes@.len() == k,
            directions@.len() == k,
            forall|m: int| 0 <= m < k ==> #[trigger] hashes@[m]@ == path_hashes(lv, first)[m],
            forall|m: int| 0 <= m < k ==> #[trigger] directions@[m] == path_directions(lv, first)[m],
        decreases n_levels - k,
    {
        let level = merkle_tree.level(k);
        let len = level.len();
        assert(lv[k as int].len() == len);
        let (s, d) = if j % 2 == 0 {
            if j + 1 < len {
                (j + 1, HashDirection::Right)
            } else {
                (j, HashDirection::Right)
            }
        } else {
            (j - 1, HashDirection::Left)
        };
        hashes.push(level[s]);
        directions.push(d);
        proof {
            assert(s as int == sibling_index(len as int, j as int));
            assert(hashes@[k as int]@ == path_hashes(lv, first)[k as int]);
            assert(lv[k + 1].len() == (lv[k as int].len() + 1) / 2);
        }
        j = j / 2;
        k = k + 1;
    }
    let top = merkle_tree.level(k);
    assert(lv[k as int].len() == 1);
    let root = top[0];
    proof {
        assert(hashes_view(hashes@) =~= path_hashes(lv, first));
        assert(directions@ =~= path_directions(lv, first));
        assert(is_first_index(merkle_tree.leaves(), target@, first));
        assert(merkle_tree.leaves().contains(target@));
    }
    Some(MerkleProof { hashes, directions, root })
}

/// Along the path of a leaf, the first `k` proof steps lead from the leaf to
/// the path's node at level `k`.
proof fn lemma_path_value<H: HashFunction>(t: MerkleTree, idx: int, k: nat)
    requires
        t.well_shaped(),
        t.built_with::<H>(),
        t.levels().len() > 0,
        0 <= idx < t.levels()[0].len(),
        k < t.levels().len(),
    ensures
        0 <= path_index(idx, k) < t.levels()[k as int].len(),
        proof_value::<H>(
            t.levels()[0][idx],
            path_hashes(t.levels(), idx),
            path_directions(t.levels(), idx),
            k,
        ) == t.levels()[k as int][path_index(idx, k)],
    decreases k,
{
    let lv = t.levels();
    if k > 0 {
        let km = (k - 1) as nat;
        lemma_path_value::<H>(t, idx, km);
        let j = path_index(idx, km);
        let l = lv[km as int];
        assert(lv[km as int + 1] == next_level::<H>(lv[km as int]));
        assert(lv[k as int] == next_level::<H>(l));
        assert(lv[k as int].len() == (l.len() + 1) / 2);
        let hs = path_hashes(lv, idx);
        let ds = path_directions(lv, idx);
        assert(hs[km as int] == l[sibling_index(l.len() as int, j)]);
        assert(ds[km as int] == sibling_direction(j));
        if j % 2 == 0 {
            assert(j / 2 * 2 == j);
        } else {
            assert((j - 1) / 2 == j / 2);
            assert(j / 2 * 2 == j - 1);
        }
    }
}

/// Completeness of proofs of inclusion: in a tree built with `H`, the proof
/// along the path of any leaf leads from that leaf to the root.
pub proof fn lemma_proof_of_inclusion_complete<H: HashFunction>(t: MerkleTree, idx: int)
    requires
        t.well_shaped(),
        t.built_with::<H>(),
        t.levels().len() > 0,
        0 <= idx < t.leaves().len(),
    ensures
        proof_value::<H>(
            t.leaves()[idx],
            path_hashes(t.levels(), idx),
            path_directions(t.levels(), idx),
            (t.levels().len() - 1) as nat,
        ) == t.root()->0,
{
    let n = (t.levels().len() - 1) as nat;
    lemma_path_value::<H>(t, idx, n);
}

/// A generated proof verifies: if `generate_proof_of_inclusion` returns a
/// proof for the hash of some data on a tree built with `H`, verifying that
/// proof from the same leaf hash reaches the tree's root.
pub proof fn lemma_generated_proof_verifies<H: HashFunction>(t: MerkleTree, target: Seq<u8>, p: MerkleProof)
    requires
        t.well_shaped(),
        t.built_with::<H>(),
        t.levels().len() > 0,
        exists|i: int|
            #![trigger is_first_index(t.leaves(), target, i)]
            is_first_index(t.leaves(), target, i) && hashes_view(p.hashes@) == path_hashes(
                t.levels(),
                i,
            ) && p.directions@ == path_directions(t.levels(), i) && Some(p.root@) == t.root(),
    ensures
        proof_result::<H>(target, p) == p.root@,
{
    let i = choose|i: int|
        #![trigger is_first_index(t.leaves(), target, i)]
        is_first_index(t.leaves(), target, i) && hashes_view(p.hashes@) == path_hashes(
            t.levels(),
            i,
        ) && p.directions@ == path_directions(t.levels(), i) && Some(p.root@) == t.root();
    lemma_proof_of_inclusion_complete::<H>(t, i);
    assert(hashes_view(p.hashes@).len() == p.hashes@.len());
    assert(proof_len(p) == t.levels().len() - 1);
}

} // verus!
