//! Proofs of state: a path of levels through a Merkle trie, from the node that
//! holds a value up to the root.
//!
//! Each level of the trie is hashed as the concatenation of its children's
//! slots (a one-byte index, then the child's hash) in index order, followed by
//! the node's own value (a one-byte index, then the value bytes). A proof step
//! gives the siblings of the path at one level; the verifier puts the hash it
//! has computed so far in the path's slot, hashes the level, and climbs.

use vstd::prelude::*;

use crate::bytes::{eq32, StdByteArray};
use crate::hashing::HashFunction;

verus! {

/// One level of a trie proof.
#[derive(Debug, Clone)]
pub struct ProofStep {
    /// The child slot that the path goes through.
    pub native: u8,
    /// The other children: slot index and hash, sorted by index.
    pub siblings: Vec<(u8, StdByteArray)>,
    /// The node's own value, with the slot index it is hashed under.
    pub value: Option<(u8, Vec<u8>)>,
}

/// A proof of state: its steps from the root down to the node of the value.
#[derive(Debug, Clone)]
pub struct TrieMerkleProof {
    pub steps: Vec<ProofStep>,
}

/// The sibling indices of a step are strictly increasing.
pub open spec fn siblings_sorted(s: Seq<(u8, StdByteArray)>) -> bool {
    forall|i: int, j: int| 0 <= i < j < s.len() ==> (#[trigger] s[i]).0 < (#[trigger] s[j]).0
}

/// The path's slot goes right before sibling `i`: that sibling's index is
/// above the path's and the one before it (if any) is below.
pub open spec fn native_before(s: Seq<(u8, StdByteArray)>, native: u8, i: int) -> bool {
    s[i].0 > native && (i == 0 || s[i - 1].0 < native)
}

/// The bytes of the path's slot: its index, then `data`.
pub open spec fn slot_bytes(index: u8, data: Seq<u8>) -> Seq<u8> {
    seq![index] + data
}

/// The bytes of the first `n` siblings of a level, with the path's slot put
/// in its place among them.
pub open spec fn level_bytes(s: Seq<(u8, StdByteArray)>, native: u8, data: Seq<u8>, n: int) -> Seq<u8>
    decreases n,
{
    if n <= 0 {
        Seq::empty()
    } else {
        level_bytes(s, native, data, n - 1) + (if native_before(s, native, n - 1) {
            slot_bytes(native, data)
        } else {
            Seq::empty()
        }) + slot_bytes(s[n - 1].0, s[n - 1].1@)
    }
}

/// The bytes of the first `n` siblings alone.
pub open spec fn siblings_bytes(s: Seq<(u8, StdByteArray)>, n: int) -> Seq<u8>
    decreases n,
{
    if n <= 0 {
        Seq::empty()
    } else {
        siblings_bytes(s, n - 1) + slot_bytes(s[n - 1].0, s[n - 1].1@)
    }
}

/// The bytes of the node's value slot, if it has a value.
pub open spec fn value_bytes(step: ProofStep) -> Seq<u8> {
    match step.value {
        Some(v) => slot_bytes(v.0, v.1@),
        None => Seq::empty(),
    }
}

/// The bytes hashed for a level above the bottom one, where `data` is the hash
/// of the level below. The path's slot goes last when no sibling comes after
/// it.
pub open spec fn level_input(step: ProofStep, data: Seq<u8>) -> Seq<u8> {
    let s = step.siblings@;
    let n = s.len() as int;
    level_bytes(s, step.native, data, n) + (if n == 0 || s[n - 1].0 < step.native {
        slot_bytes(step.native, data)
    } else {
        Seq::empty()
    }) + value_bytes(step)
}

/// The bytes hashed for the bottom level, the node that holds the value: the
/// siblings, then the value slot holding `data`.
pub open spec fn first_level_input(step: ProofStep, data: Seq<u8>) -> Seq<u8> {
    siblings_bytes(step.siblings@, step.siblings@.len() as int) + slot_bytes(value_index(step), data)
}

/// The slot index of the node's value (0 when it has none).
pub open spec fn value_index(step: ProofStep) -> u8 {
    match step.value {
        Some(v) => v.0,
        None => 0,
    }
}

/// The hash reached after the last `m` steps of a proof (the bottom ones),
/// starting from the value `data`, when the hash function had absorbed
/// `prefix` before.
pub open spec fn trie_value<H: HashFunction>(steps: Seq<ProofStep>, data: Seq<u8>, prefix: Seq<u8>, m: int) -> Seq<u8>
    decreases m,
{
    if m <= 1 {
        H::digest_of(prefix + first_level_input(steps[steps.len() - 1], data))
    } else {
        H::digest_of(level_input(steps[steps.len() - m], trie_value::<H>(steps, data, prefix, m - 1)))
    }
}

/// A proof can be checked without failing: it has a step, every step's
/// siblings are sorted, and the bottom step holds a value.
pub open spec fn well_formed_proof(p: TrieMerkleProof) -> bool {
    &&& p.steps@.len() > 0
    &&& forall|k: int| 0 <= k < p.steps@.len() ==> siblings_sorted((#[trigger] p.steps@[k]).siblings@)
    &&& p.steps@[p.steps@.len() - 1].value is Some
}

impl ProofStep {
    /// Hashes a level above the bottom one, with `native_data`, the hash of
    /// the level below, in the path's slot.
    pub fn compute_level<H: HashFunction>(&self, native_data: StdByteArray, hash_function: &mut H) -> (r: StdByteArray)
        requires
            siblings_sorted(self.siblings@),
        ensures
            r@ == H::digest_of(old(hash_function).absorbed() + level_input(*self, native_data@)),
            final(hash_function).absorbed() == Seq::<u8>::empty(),
    {
        let ghost prefix = hash_function.absorbed();
        let ghost s = self.siblings@;
        let native = [self.native];
        assert(native@ =~= seq![self.native]);
        let n = self.siblings.len();
        let mut i: usize = 0;
        while i < n
            invariant
                0 <= i <= n,
                n == s.len(),
                s == self.siblings@,
                native@ == seq![self.native],
                hash_function.absorbed() == prefix + level_bytes(s, self.native, native_data@, i as int),
                i > 0 ==> hash_function.started(),
            decreases n - i,
        {
            let index = self.siblings[i].0;
            if index > self.native && (i == 0 || self.siblings[i - 1].0 < self.native) {
                hash_function.update(native.as_slice());
                hash_function.update(native_data.as_slice());
            }
            let idx = [index];
            assert(idx@ =~= seq![index]);
            hash_function.update(idx.as_slice());
            hash_function.update(self.siblings[i].1.as_slice());
            proof {
                assert(hash_function.absorbed() =~= prefix + level_bytes(s, self.native, native_data@, i + 1));
            }
            i = i + 1;
        }
        if n == 0 || self.siblings[n - 1].0 < self.native {
            hash_function.update(native.as_slice());
            hash_function.update(native_data.as_slice());
        }
        let ghost before_value = hash_function.absorbed();
        match &self.value {
            Some(v) => {
                let idx = [v.0];
                assert(idx@ =~= seq![v.0]);
                hash_function.update(idx.as_slice());
                hash_function.update(v.1.as_slice());
            },
            None => {},
        }
        proof {
            assert(hash_function.absorbed() =~= prefix + level_input(*self, native_data@));
        }
        let r = match hash_function.digest() {
            Ok(h) => h,
            Err(_) => [0u8; 32],
        };
        proof {
            assert(Seq::<u8>::empty() + level_input(*self, native_data@) =~= level_input(*self, native_data@));
        }
        r
    }

    /// Hashes the bottom level: the siblings, then the value slot holding
    /// `native_data`.
    pub fn compute_level_first<H: HashFunction>(&self, native_data: &[u8], hash_function: &mut H) -> (r: StdByteArray)
        requires
            siblings_sorted(self.siblings@),
            self.value is Some,
        ensures
            r@ == H::digest_of(old(hash_function).absorbed() + first_level_input(*self, native_data@)),
            final(hash_function).absorbed() == Seq::<u8>::empty(),
    {
        let ghost prefix = hash_function.absorbed();
        let ghost s = self.siblings@;
        let n = self.siblings.len();
        let mut i: usize = 0;
        while i < n
            invariant
                0 <= i <= n,
                n == s.len(),
                s == self.siblings@,
                hash_function.absorbed() == prefix + siblings_bytes(s, i as int),
            decreases n - i,
        {
            let idx = [self.siblings[i].0];
            assert(idx@ =~= seq![self.siblings[i as int].0]);
            hash_function.update(idx.as_slice());
            hash_function.update(self.siblings[i].1.as_slice());
            proof {
                assert(hash_function.absorbed() =~= prefix + siblings_bytes(s, i + 1));
            }
            i = i + 1;
        }
        let value_index = match &self.value {
            Some(v) => v.0,
            None => 0,
        };
        let idx = [value_index];
        assert(idx@ =~= seq![value_index]);
        hash_function.update(idx.as_slice());
        hash_function.update(native_data);
        proof {
            assert(hash_function.absorbed() =~= prefix + first_level_input(*self, native_data@));
        }
        match hash_function.digest() {
            Ok(h) => h,
            Err(_) => [0u8; 32],
        }
    }
}

impl TrieMerkleProof {
    /// A proof with the given steps, root first.
    pub fn new(steps: Vec<ProofStep>) -> (r: Self)
        ensures
            r.steps@ == steps@,
    {
        TrieMerkleProof { steps }
    }

    /// Verifies the proof: hashes the bottom level with `native_data` as the
    /// value, climbs the levels with the hash computed so far in the path's
    /// slot, and compares the last hash with `root_hash`.
    pub fn verify<H: HashFunction>(&self, native_data: Vec<u8>, root_hash: StdByteArray, hash_function: &mut H) -> (r: bool)
        requires
            well_formed_proof(*self),
        ensures
            r == (trie_value::<H>(
                self.steps@,
                native_data@,
                old(hash_function).absorbed(),
                self.steps@.len() as int,
            ) == root_hash@),
    {
        let ghost steps = self.steps@;
        let ghost prefix = hash_function.absorbed();
        let n = self.steps.len();
        let mut current = self.steps[n - 1].compute_level_first(native_data.as_slice(), hash_function);
        assert(current@ == trie_value::<H>(steps, native_data@, prefix, 1));
        let mut m: usize = 1;
        while m < n
            invariant
                1 <= m <= n,
                n == steps.len(),
                steps == self.steps@,
                well_formed_proof(*self),
                current@ == trie_value::<H>(steps, native_data@, prefix, m as int),
                hash_function.absorbed() == Seq::<u8>::empty(),
            decreases n - m,
        {
            let next = self.steps[n - 1 - m].compute_level(current, hash_function);
            proof {
                assert(Seq::<u8>::empty() + level_input(steps[n - (m + 1)], current@) =~= level_input(
                    steps[n - (m + 1)],
                    current@,
                ));
            }
            current = next;
            m = m + 1;
        }
        eq32(&current, &root_hash)
    }
}

} // verus!
