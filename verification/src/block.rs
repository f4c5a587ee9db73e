//! Blocks, block headers and the stamp tail of a block.
//!
//! A block tail tracks the signatures ("stamps") of the nodes that broadcast
//! a block before it was mined; it is used for the reputation of nodes.

use vstd::prelude::*;

use crate::bytes::{eq32, eq64, is_zero32, is_zero64, zero32, zero64, StdByteArray};
use crate::crypto::ed25519_verifies;
use crate::signing::{DefaultVerifier, SigVerFunction, Signable};
use crate::transaction::Transaction;
use crate::N_TRANSMISSION_SIGNATURES;

verus! {

/// A block: its header and its transactions.
#[derive(Debug, Clone, PartialEq, Eq)]
pub struct Block {
    pub header: BlockHeader,
    pub transactions: Vec<Transaction>,
}

/// The fields that a mined block adds to its header.
#[derive(Debug, Clone, Copy, PartialEq, Eq, Default)]
pub struct HeaderCompletionInner {
    /// The hash of the block.
    pub hash: StdByteArray,
    /// The address of the miner.
    pub miner_address: StdByteArray,
    /// The root hash of the global state after this block.
    pub state_root: StdByteArray,
    /// The difficulty target of the block; 0 marks an absent completion.
    pub difficulty_target: u64,
}

/// The completion of a header: present once the block is mined. It is absent
/// exactly when its difficulty target is 0.
#[derive(Debug, Clone, Copy, PartialEq, Eq)]
pub struct HeaderCompletion {
    inner: HeaderCompletionInner,
}

/// The header of a block.
#[derive(Debug, Clone, Copy, Eq)]
pub struct BlockHeader {
    /// The hash of the previous block in the chain.
    pub previous_hash: StdByteArray,
    /// The Merkle root of the block's transactions.
    pub merkle_root: StdByteArray,
    /// The proof-of-work nonce.
    pub nonce: u64,
    /// The time the block was created.
    pub timestamp: u64,
    /// The depth of the block in the chain (the genesis block has depth 0).
    pub depth: u64,
    /// The protocol version, as the little-endian bytes of its number.
    pub version: [u8; 2],
    /// Padding; zero in the headers built here.
    pub _pad: [u8; 6],
    /// The stamps of the nodes that broadcast the block.
    pub tail: BlockTail,
    /// The fields set once the block is mined.
    pub completion: HeaderCompletion,
}

impl HeaderCompletion {
    /// The fields of the completion.
    pub closed spec fn fields(&self) -> HeaderCompletionInner {
        self.inner
    }

    /// Whether the completion is absent.
    pub open spec fn spec_is_none(&self) -> bool {
        self.fields().difficulty_target == 0
    }

    /// A present completion. The difficulty target must not be 0.
    pub fn new(hash: StdByteArray, miner_address: StdByteArray, state_root: StdByteArray, difficulty_target: u64) -> (r: Self)
        requires
            difficulty_target != 0,
        ensures
            r.fields() == (HeaderCompletionInner { hash, miner_address, state_root, difficulty_target }),
            !r.spec_is_none(),
    {
        HeaderCompletion { inner: HeaderCompletionInner { hash, miner_address, state_root, difficulty_target } }
    }

    /// The completion with exactly these fields; absent when the difficulty
    /// target is 0.
    pub fn from_fields(inner: HeaderCompletionInner) -> (r: Self)
        ensures
            r.fields() == inner,
    {
        HeaderCompletion { inner }
    }

    /// The fields as stored, whether the completion is present or not.
    pub fn inner_fields(&self) -> (r: HeaderCompletionInner)
        ensures
            r == self.fields(),
    {
        self.inner
    }

    /// The absent completion (all fields zero).
    pub fn new_none() -> (r: Self)
        ensures
            r.spec_is_none(),
            r.fields().hash@ == zero32(),
            r.fields().miner_address@ == zero32(),
            r.fields().state_root@ == zero32(),
    {
        let z: [u8; 32] = [0u8; 32];
        assert(z@ =~= zero32());
        HeaderCompletion {
            inner: HeaderCompletionInner { hash: z, miner_address: z, state_root: z, difficulty_target: 0 },
        }
    }

    /// Whether the completion is absent.
    pub fn is_none(&self) -> (r: bool)
        ensures
            r == self.spec_is_none(),
    {
        self.inner.difficulty_target == 0
    }

    /// Whether the completion is present.
    pub fn is_some(&self) -> (r: bool)
        ensures
            r == !self.spec_is_none(),
    {
        !self.is_none()
    }

    /// The fields, when present, for modification.
    pub fn as_mut(&mut self) -> (r: Option<&mut HeaderCompletionInner>)
        ensures
            old(self).spec_is_none() <==> r is None,
            r is None ==> *final(self) == *old(self),
            r matches Some(m) ==> *m == old(self).fields() && final(self).fields() == *final(m),
    {
        if self.is_none() {
            return None;
        }
        Some(&mut self.inner)
    }

    /// The fields, when present.
    pub fn as_ref(&self) -> (r: Option<&HeaderCompletionInner>)
        ensures
            self.spec_is_none() <==> r is None,
            r matches Some(m) ==> *m == self.fields(),
    {
        if self.is_none() {
            return None;
        }
        Some(&self.inner)
    }

    /// The fields, when present, by value.
    pub fn get(&self) -> (r: Option<HeaderCompletionInner>)
        ensures
            self.spec_is_none() <==> r is None,
            r matches Some(m) ==> m == self.fields(),
    {
        if self.is_none() {
            return None;
        }
        Some(self.inner)
    }

    /// The completion with its hash replaced.
    pub fn with_hash(&self, hash: StdByteArray) -> (r: Self)
        ensures
            r.fields() == (HeaderCompletionInner { hash, ..self.fields() }),
    {
        HeaderCompletion { inner: HeaderCompletionInner { hash, ..self.inner } }
    }
}

impl Default for HeaderCompletion {
    fn default() -> (r: Self)
        ensures
            r.spec_is_none(),
    {
        HeaderCompletion::new_none()
    }
}

/// A stamp: the signature of a node that broadcast a block, and its address.
#[derive(Debug, Clone, Copy, PartialEq, Eq, Hash)]
pub struct Stamp {
    /// The signature of the node that broadcast the block.
    pub signature: [u8; 64],
    /// The address (public key) of the node that stamped the block.
    pub address: StdByteArray,
}

/// The signatures of the nodes that broadcast a block.
#[derive(Debug, Clone, Copy, PartialEq, Eq, Hash)]
pub struct BlockTail {
    pub stamps: [Stamp; N_TRANSMISSION_SIGNATURES],
}

/// The error returned when a stamp does not fit in a tail.
#[derive(Debug, Clone, Copy, PartialEq, Eq)]
pub enum StampError {
    /// Every stamp slot is already used.
    TooManyStamps,
}

/// A blank stamp: all-zero signature and address.
pub open spec fn is_blank(s: Stamp) -> bool {
    s.signature@ == zero64() && s.address@ == zero32()
}

/// A stamp slot is empty when its address is all zero.
pub open spec fn is_empty_slot(s: Stamp) -> bool {
    s.address@ == zero32()
}

/// A stamp counts as present when its signature is not all zero.
pub open spec fn is_signed(s: Stamp) -> bool {
    s.signature@ != zero64()
}

/// The number of signed stamps in a sequence.
pub open spec fn count_signed(s: Seq<Stamp>) -> nat
    decreases s.len(),
{
    if s.len() == 0 {
        0
    } else {
        count_signed(s.drop_last()) + if is_signed(s.last()) {
            1nat
        } else {
            0nat
        }
    }
}

/// Whether some stamp of a sequence has the address `a`.
pub open spec fn has_address(s: Seq<Stamp>, a: Seq<u8>) -> bool {
    exists|j: int| 0 <= j < s.len() && (#[trigger] s[j]).address@ == a
}

/// The stamps that collapsing keeps, in slot order: the non-empty stamps whose
/// address did not appear in an earlier kept stamp.
pub open spec fn kept_stamps(s: Seq<Stamp>) -> Seq<Stamp>
    decreases s.len(),
{
    if s.len() == 0 {
        Seq::empty()
    } else {
        let k = kept_stamps(s.drop_last());
        let x = s.last();
        if is_empty_slot(x) || has_address(k, x.address@) {
            k
        } else {
            k.push(x)
        }
    }
}

/// The tail after collapsing: the kept stamps, most recent slot first,
/// followed by blank stamps.
pub open spec fn is_collapse_of(r: Seq<Stamp>, s: Seq<Stamp>) -> bool {
    let k = kept_stamps(s);
    &&& r.len() == s.len()
    &&& forall|i: int| 0 <= i < k.len() ==> #[trigger] r[i] == k[k.len() - 1 - i]
    &&& forall|i: int| k.len() <= i < r.len() ==> is_blank(#[trigger] r[i])
}

/// The distinct addresses of the signed stamps, in slot order.
pub open spec fn stamper_addresses(s: Seq<Stamp>) -> Seq<Seq<u8>>
    decreases s.len(),
{
    if s.len() == 0 {
        Seq::empty()
    } else {
        let a = stamper_addresses(s.drop_last());
        let x = s.last();
        if is_signed(x) && !a.contains(x.address@) {
            a.push(x.address@)
        } else {
            a
        }
    }
}

/// The number of stamps a tail keeps when it is collapsed is at most its
/// number of slots.
proof fn lemma_kept_len(s: Seq<Stamp>)
    ensures
        kept_stamps(s).len() <= s.len(),
    decreases s.len(),
{
    if s.len() > 0 {
        lemma_kept_len(s.drop_last());
    }
}

/// Kept stamps are non-empty and have distinct addresses.
proof fn lemma_kept_distinct(s: Seq<Stamp>)
    ensures
        forall|i: int| 0 <= i < kept_stamps(s).len() ==> !is_empty_slot(#[trigger] kept_stamps(s)[i]),
        forall|i: int, j: int|
            0 <= i < j < kept_stamps(s).len() ==> (#[trigger] kept_stamps(s)[i]).address@ != (
            #[trigger] kept_stamps(s)[j]).address@,
    decreases s.len(),
{
    if s.len() > 0 {
        lemma_kept_distinct(s.drop_last());
        let k = kept_stamps(s.drop_last());
        let x = s.last();
        if !(is_empty_slot(x) || has_address(k, x.address@)) {
            assert forall|i: int, j: int|
                0 <= i < j < kept_stamps(s).len() implies (#[trigger] kept_stamps(s)[i]).address@ != (
            #[trigger] kept_stamps(s)[j]).address@ by {
                if j == k.len() {
                    assert(kept_stamps(s)[i] == k[i]);
                }
            }
        }
    }
}

/// Kept stamps are stamps of the tail, and every non-empty address of the
/// tail is the address of a kept stamp.
proof fn lemma_kept_members(s: Seq<Stamp>)
    ensures
        forall|i: int|
            0 <= i < kept_stamps(s).len() ==> exists|j: int| 0 <= j < s.len() && s[j] == #[trigger] kept_stamps(s)[i],
        forall|j: int| 0 <= j < s.len() && !is_empty_slot(#[trigger] s[j]) ==> has_address(kept_stamps(s), s[j].address@),
    decreases s.len(),
{
    if s.len() > 0 {
        let t = s.drop_last();
        lemma_kept_members(t);
        let k = kept_stamps(t);
        let x = s.last();
        assert forall|i: int| 0 <= i < kept_stamps(s).len() implies exists|j: int|
            0 <= j < s.len() && s[j] == #[trigger] kept_stamps(s)[i] by {
            if i < k.len() {
                assert(kept_stamps(s)[i] == k[i]);
                let j = choose|j: int| 0 <= j < t.len() && t[j] == k[i];
                assert(s[j] == t[j]);
            } else {
                assert(s[s.len() - 1] == kept_stamps(s)[i]);
            }
        }
        assert forall|j: int| 0 <= j < s.len() && !is_empty_slot(#[trigger] s[j]) implies has_address(
            kept_stamps(s),
            s[j].address@,
        ) by {
            if j < t.len() {
                assert(t[j] == s[j]);
                let m = choose|m: int| 0 <= m < k.len() && (#[trigger] k[m]).address@ == s[j].address@;
                assert(kept_stamps(s)[m] == k[m]);
            } else if !has_address(k, x.address@) {
                assert(kept_stamps(s)[k.len() as int] == x);
            } else {
                let m = choose|m: int| 0 <= m < k.len() && (#[trigger] k[m]).address@ == x.address@;
                assert(kept_stamps(s)[m] == k[m]);
            }
        }
    }
}

/// The distinct non-empty addresses of the stamps.
pub open spec fn nonempty_addresses(s: Seq<Stamp>) -> Set<Seq<u8>> {
    Set::new(|a: Seq<u8>| exists|j: int| 0 <= j < s.len() && !is_empty_slot(#[trigger] s[j]) && s[j].address@ == a)
}

/// What collapsing keeps: the first `kept_stamps(s).len()` slots hold stamps
/// of the tail with non-empty, pairwise distinct addresses, the other slots
/// are blank, and every non-empty address of the tail is the address of one
/// of those first slots.
pub proof fn lemma_collapse_addresses(r: Seq<Stamp>, s: Seq<Stamp>)
    requires
        is_collapse_of(r, s),
    ensures
        kept_stamps(s).len() <= r.len(),
        forall|i: int| 0 <= i < kept_stamps(s).len() ==> !is_empty_slot(#[trigger] r[i]),
        forall|i: int, j: int|
            0 <= i < j < kept_stamps(s).len() ==> (#[trigger] r[i]).address@ != (#[trigger] r[j]).address@,
        forall|i: int| kept_stamps(s).len() <= i < r.len() ==> is_blank(#[trigger] r[i]),
        forall|j: int|
            0 <= j < s.len() && !is_empty_slot(#[trigger] s[j]) ==> exists|i: int|
                0 <= i < kept_stamps(s).len() && (#[trigger] r[i]).address@ == s[j].address@,
        forall|i: int| 0 <= i < r.len() && !is_blank(#[trigger] r[i]) ==> exists|j: int| 0 <= j < s.len() && s[j] == r[i],
        kept_stamps(s).len() == nonempty_addresses(s).len(),
{
    let kk = kept_stamps(s);
    let n = kk.len() as int;
    lemma_kept_distinct(s);
    lemma_kept_members(s);
    lemma_kept_len(s);
    assert forall|i: int| 0 <= i < n implies !is_empty_slot(#[trigger] r[i]) by {
        assert(r[i] == kk[n - 1 - i]);
    }
    assert forall|i: int, j: int| 0 <= i < j < n implies (#[trigger] r[i]).address@ != (#[trigger] r[j]).address@ by {
        assert(r[i] == kk[n - 1 - i]);
        assert(r[j] == kk[n - 1 - j]);
        assert(kk[n - 1 - j].address@ != kk[n - 1 - i].address@);
    }
    assert forall|j: int| 0 <= j < s.len() && !is_empty_slot(#[trigger] s[j]) implies exists|i: int|
        0 <= i < n && (#[trigger] r[i]).address@ == s[j].address@ by {
        let m = choose|m: int| 0 <= m < kk.len() && (#[trigger] kk[m]).address@ == s[j].address@;
        assert(r[n - 1 - m] == kk[m]);
    }
    assert forall|i: int| 0 <= i < r.len() && !is_blank(#[trigger] r[i]) implies exists|j: int|
        0 <= j < s.len() && s[j] == r[i] by {
        assert(i < n);
        assert(r[i] == kk[n - 1 - i]);
        let j = choose|j: int| 0 <= j < s.len() && s[j] == #[trigger] kk[n - 1 - i];
    }
    let addrs = Seq::new(n as nat, |i: int| r[i].address@);
    assert(addrs.no_duplicates()) by {
        assert forall|i: int, j: int| 0 <= i < addrs.len() && 0 <= j < addrs.len() && i != j implies addrs[i]
            != addrs[j] by {
            if i < j {
                assert(r[i].address@ != r[j].address@);
            } else {
                assert(r[j].address@ != r[i].address@);
            }
        }
    }
    addrs.unique_seq_to_set();
    assert(addrs.to_set() =~= nonempty_addresses(s)) by {
        assert forall|a: Seq<u8>| addrs.to_set().contains(a) implies nonempty_addresses(s).contains(a) by {
            let i = choose|i: int| 0 <= i < addrs.len() && addrs[i] == a;
            assert(r[i] == kk[n - 1 - i]);
            assert(!is_blank(r[i]));
            let j = choose|j: int| 0 <= j < s.len() && s[j] == #[trigger] kk[n - 1 - i];
            assert(!is_empty_slot(s[j]));
        }
        assert forall|a: Seq<u8>| nonempty_addresses(s).contains(a) implies addrs.to_set().contains(a) by {
            let j = choose|j: int| 0 <= j < s.len() && !is_empty_slot(#[trigger] s[j]) && s[j].address@ == a;
            let i = choose|i: int| 0 <= i < n && (#[trigger] r[i]).address@ == s[j].address@;
            assert(addrs[i] == a);
        }
    }
}

/// The number of signed stamps is the number of stamps whose signature is
/// set: that of the signed stamps kept in order.
pub proof fn lemma_count_signed_counts(s: Seq<Stamp>)
    ensures
        count_signed(s) == s.filter(|x: Stamp| x.signature@ != zero64()).len(),
    decreases s.len(),
{
    reveal(Seq::filter);
    if s.len() > 0 {
        lemma_count_signed_counts(s.drop_last());
    }
}

/// The stamper addresses are pairwise distinct; each is the address of a
/// signed stamp, and the address of every signed stamp is among them.
pub proof fn lemma_stamper_addresses(s: Seq<Stamp>)
    ensures
        stamper_addresses(s).no_duplicates(),
        forall|i: int|
            #![trigger stamper_addresses(s)[i]]
            0 <= i < stamper_addresses(s).len() ==> exists|j: int|
                0 <= j < s.len() && s[j].signature@ != zero64() && (#[trigger] s[j]).address@ == stamper_addresses(
                    s,
                )[i],
        forall|j: int|
            0 <= j < s.len() && (#[trigger] s[j]).signature@ != zero64() ==> stamper_addresses(s).contains(
                s[j].address@,
            ),
    decreases s.len(),
{
    if s.len() > 0 {
        let t = s.drop_last();
        lemma_stamper_addresses(t);
        let a = stamper_addresses(t);
        let x = s.last();
        assert forall|j: int| 0 <= j < t.len() implies #[trigger] t[j] == s[j] by {}
        if is_signed(x) && !a.contains(x.address@) {
            let b = a.push(x.address@);
            assert(stamper_addresses(s) == b);
            assert forall|i: int| #![trigger b[i]] 0 <= i < b.len() implies exists|j: int|
                0 <= j < s.len() && s[j].signature@ != zero64() && (#[trigger] s[j]).address@ == b[i] by {
                if i == a.len() {
                    assert(s[s.len() - 1] == x);
                } else {
                    let j = choose|j: int|
                        0 <= j < t.len() && t[j].signature@ != zero64() && (#[trigger] t[j]).address@ == a[i];
                    assert(s[j] == t[j]);
                }
            }
            assert forall|j: int| 0 <= j < s.len() && (#[trigger] s[j]).signature@ != zero64() implies b.contains(
                s[j].address@,
            ) by {
                if j < t.len() {
                    assert(s[j] == t[j]);
                    assert(a.contains(t[j].address@));
                    let k = choose|k: int| 0 <= k < a.len() && a[k] == t[j].address@;
                    assert(b[k] == a[k]);
                } else {
                    assert(b[a.len() as int] == x.address@);
                }
            }
        } else {
            assert(stamper_addresses(s) == a);
            assert forall|i: int| #![trigger a[i]] 0 <= i < a.len() implies exists|j: int|
                0 <= j < s.len() && s[j].signature@ != zero64() && (#[trigger] s[j]).address@ == a[i] by {
                let j = choose|j: int|
                    0 <= j < t.len() && t[j].signature@ != zero64() && (#[trigger] t[j]).address@ == a[i];
                assert(s[j] == t[j]);
            }
            assert forall|j: int| 0 <= j < s.len() && (#[trigger] s[j]).signature@ != zero64() implies a.contains(
                s[j].address@,
            ) by {
                if j < t.len() {
                    assert(s[j] == t[j]);
                } else {
                    assert(s[j] == x);
                }
            }
        }
    }
}

/// The number of signed stamps is at most the number of stamps.
pub proof fn lemma_count_signed_le_len(s: Seq<Stamp>)
    ensures
        count_signed(s) <= s.len(),
{
    lemma_count_signed_bound(s);
}

proof fn lemma_count_signed_bound(s: Seq<Stamp>)
    ensures
        count_signed(s) <= s.len(),
    decreases s.len(),
{
    if s.len() > 0 {
        lemma_count_signed_bound(s.drop_last());
    }
}

/// The blank stamp.
pub fn blank_stamp() -> (r: Stamp)
    ensures
        is_blank(r),
{
    let r = Stamp { signature: [0u8; 64], address: [0u8; 32] };
    assert(r.signature@ =~= zero64());
    assert(r.address@ =~= zero32());
    r
}

impl Default for Stamp {
    fn default() -> (r: Self)
        ensures
            is_blank(r),
    {
        blank_stamp()
    }
}

/// A tail whose every slot is blank.
pub fn blank_stamps() -> (r: [Stamp; N_TRANSMISSION_SIGNATURES])
    ensures
        forall|i: int| 0 <= i < N_TRANSMISSION_SIGNATURES ==> is_blank(#[trigger] r@[i]),
{
    let b = blank_stamp();
    [b, b, b, b, b, b, b, b, b, b]
}

impl Default for BlockTail {
    fn default() -> (r: Self)
        ensures
            forall|i: int| 0 <= i < N_TRANSMISSION_SIGNATURES ==> is_blank(#[trigger] r.stamps@[i]),
    {
        BlockTail { stamps: blank_stamps() }
    }
}

/// Whether some stamp of `v` has the address `a`.
fn contains_address(v: &Vec<Stamp>, a: &StdByteArray) -> (r: bool)
    ensures
        r == has_address(v@, a@),
{
    let mut i: usize = 0;
    while i < v.len()
        invariant
            0 <= i <= v@.len(),
            forall|j: int| 0 <= j < i ==> (#[trigger] v@[j]).address@ != a@,
        decreases v@.len() - i,
    {
        if eq32(&v[i].address, a) {
            return true;
        }
        i = i + 1;
    }
    false
}

impl BlockTail {
    /// A tail with the given stamps.
    pub fn new(stamps: [Stamp; N_TRANSMISSION_SIGNATURES]) -> (r: Self)
        ensures
            r.stamps == stamps,
    {
        BlockTail { stamps }
    }

    /// The number of signed stamps (stamps whose signature is not all zero).
    pub fn n_stamps(&self) -> (r: usize)
        ensures
            r == count_signed(self.stamps@),
    {
        let mut count: usize = 0;
        let mut i: usize = 0;
        while i < N_TRANSMISSION_SIGNATURES
            invariant
                0 <= i <= N_TRANSMISSION_SIGNATURES,
                self.stamps@.len() == N_TRANSMISSION_SIGNATURES,
                count == count_signed(self.stamps@.subrange(0, i as int)),
                count <= i,
            decreases N_TRANSMISSION_SIGNATURES - i,
        {
            let ghost pre = self.stamps@.subrange(0, i as int);
            assert(self.stamps@.subrange(0, i + 1).drop_last() =~= pre);
            if !is_zero64(&self.stamps[i].signature) {
                count = count + 1;
            }
            i = i + 1;
        }
        assert(self.stamps@.subrange(0, N_TRANSMISSION_SIGNATURES as int) =~= self.stamps@);
        count
    }

    /// Removes the space between stamps so that all empty slots are at the
    /// end, and removes stamps whose address appeared earlier. The kept stamps
    /// end up most recent slot first.
    pub fn collapse(&mut self)
        ensures
            is_collapse_of(final(self).stamps@, old(self).stamps@),
    {
        let ghost s = self.stamps@;
        let mut kept: Vec<Stamp> = Vec::new();
        let mut i: usize = 0;
        while i < N_TRANSMISSION_SIGNATURES
            invariant
                0 <= i <= N_TRANSMISSION_SIGNATURES,
                s == self.stamps@,
                s.len() == N_TRANSMISSION_SIGNATURES,
                kept@ == kept_stamps(s.subrange(0, i as int)),
            decreases N_TRANSMISSION_SIGNATURES - i,
        {
            assert(s.subrange(0, i + 1).drop_last() =~= s.subrange(0, i as int));
            assert(s.subrange(0, i + 1).last() == s[i as int]);
            let st = self.stamps[i];
            if !is_zero32(&st.address) && !contains_address(&kept, &st.address) {
                kept.push(st);
            }
            i = i + 1;
        }
        assert(s.subrange(0, N_TRANSMISSION_SIGNATURES as int) =~= s);
        proof {
            lemma_kept_len(s);
        }
        let n = kept.len();
        let b = blank_stamp();
        let mut j: usize = 0;
        while j < N_TRANSMISSION_SIGNATURES
            invariant
                0 <= j <= N_TRANSMISSION_SIGNATURES,
                kept@ == kept_stamps(s),
                n == kept@.len(),
                n <= N_TRANSMISSION_SIGNATURES,
                is_blank(b),
                self.stamps@.len() == N_TRANSMISSION_SIGNATURES,
                forall|m: int| 0 <= m < j && m < n ==> #[trigger] self.stamps@[m] == kept@[n - 1 - m],
                forall|m: int| n <= m < j ==> is_blank(#[trigger] self.stamps@[m]),
            decreases N_TRANSMISSION_SIGNATURES - j,
        {
            if j < n {
                self.stamps[j] = kept[n - 1 - j];
            } else {
                self.stamps[j] = b;
            }
            j = j + 1;
        }
    }

    /// Removes every stamp whose signature does not verify over `target`,
    /// then collapses the tail. Afterwards every stamp left verifies, and the
    /// empty slots are at the end.
    pub fn clean<T: Signable>(&mut self, target: &T)
        ensures
            exists|c: Seq<Stamp>|
                {
                    &&& c.len() == old(self).stamps@.len()
                    &&& forall|i: int|
                        0 <= i < c.len() ==> if !ed25519_verifies(
                            old(self).stamps@[i].address@,
                            target.signing_bytes(),
                            old(self).stamps@[i].signature@,
                        ) {
                            is_blank(#[trigger] c[i])
                        } else {
                            c[i] == old(self).stamps@[i]
                        }
                    &&& is_collapse_of(final(self).stamps@, c)
                },
            forall|i: int|
                0 <= i < final(self).stamps@.len() ==> is_blank(#[trigger] final(self).stamps@[i])
                    || ed25519_verifies(
                    final(self).stamps@[i].address@,
                    target.signing_bytes(),
                    final(self).stamps@[i].signature@,
                ),
    {
        let ghost s = self.stamps@;
        let b = blank_stamp();
        let mut i: usize = 0;
        while i < N_TRANSMISSION_SIGNATURES
            invariant
                0 <= i <= N_TRANSMISSION_SIGNATURES,
                s.len() == N_TRANSMISSION_SIGNATURES,
                self.stamps@.len() == N_TRANSMISSION_SIGNATURES,
                is_blank(b),
                forall|m: int|
                    0 <= m < i ==> if !ed25519_verifies(
                        s[m].address@,
                        target.signing_bytes(),
                        s[m].signature@,
                    ) {
                        is_blank(#[trigger] self.stamps@[m])
                    } else {
                        self.stamps@[m] == s[m]
                    },
                forall|m: int| i <= m < N_TRANSMISSION_SIGNATURES ==> #[trigger] self.stamps@[m] == s[m],
            decreases N_TRANSMISSION_SIGNATURES - i,
        {
            let verifier = DefaultVerifier::from_bytes(&self.stamps[i].address);
            let sig = self.stamps[i].signature;
            if !verifier.verify(&sig, target) {
                self.stamps[i] = b;
            }
            i = i + 1;
        }
        let ghost c = self.stamps@;
        self.collapse();
        proof {
            lemma_collapse_addresses(self.stamps@, c);
            assert forall|i: int|
                0 <= i < self.stamps@.len() implies is_blank(#[trigger] self.stamps@[i]) || ed25519_verifies(
                self.stamps@[i].address@,
                target.signing_bytes(),
                self.stamps@[i].signature@,
            ) by {
                if !is_blank(self.stamps@[i]) {
                    let j = choose|j: int| 0 <= j < c.len() && #[trigger] c[j] == self.stamps@[i];
                    assert(!is_empty_slot(c[j]));
                    assert(zero64() =~= zero64());
                }
            }
        }
    }

    /// Adds a stamp: collapses the tail, then writes the stamp into slot
    /// `n_stamps()`. Fails when every slot holds a signed stamp.
    pub fn stamp(&mut self, stamp: Stamp) -> (r: Result<(), StampError>)
        ensures
            exists|c: Seq<Stamp>|
                {
                    &&& is_collapse_of(c, old(self).stamps@)
                    &&& (count_signed(c) >= N_TRANSMISSION_SIGNATURES <==> r is Err)
                    &&& r is Err ==> final(self).stamps@ == c
                    &&& r is Ok ==> final(self).stamps@ == c.update(count_signed(c) as int, stamp)
                },
    {
        self.collapse();
        let n = self.n_stamps();
        if n >= N_TRANSMISSION_SIGNATURES {
            return Err(StampError::TooManyStamps);
        }
        self.stamps[n] = stamp;
        Ok(())
    }

    /// The distinct addresses of the signed stamps, in slot order.
    pub fn get_stampers(&self) -> (r: Vec<StdByteArray>)
        ensures
            Seq::new(r@.len(), |i: int| r@[i]@) == stamper_addresses(self.stamps@),
    {
        let ghost s = self.stamps@;
        let mut out: Vec<StdByteArray> = Vec::new();
        let mut i: usize = 0;
        while i < N_TRANSMISSION_SIGNATURES
            invariant
                0 <= i <= N_TRANSMISSION_SIGNATURES,
                s == self.stamps@,
                s.len() == N_TRANSMISSION_SIGNATURES,
                Seq::new(out@.len(), |m: int| out@[m]@) == stamper_addresses(s.subrange(0, i as int)),
            decreases N_TRANSMISSION_SIGNATURES - i,
        {
            assert(s.subrange(0, i + 1).drop_last() =~= s.subrange(0, i as int));
            assert(s.subrange(0, i + 1).last() == s[i as int]);
            let ghost prev = Seq::new(out@.len(), |m: int| out@[m]@);
            let st = self.stamps[i];
            if !is_zero64(&st.signature) {
                let mut seen = false;
                let mut j: usize = 0;
                while j < out.len()
                    invariant
                        0 <= j <= out@.len(),
                        prev == Seq::new(out@.len(), |m: int| out@[m]@),
                        seen == exists|m: int| 0 <= m < j && out@[m]@ == st.address@,
                    decreases out@.len() - j,
                {
                    if eq32(&out[j], &st.address) {
                        seen = true;
                    }
                    j = j + 1;
                }
                proof {
                    if prev.contains(st.address@) {
                        let m = choose|m: int| 0 <= m < prev.len() && prev[m] == st.address@;
                        assert(out@[m]@ == st.address@);
                    }
                    if seen {
                        let m = choose|m: int| 0 <= m < out@.len() && out@[m]@ == st.address@;
                        assert(prev[m] == st.address@);
                    }
                }
                if !seen {
                    out.push(st.address);
                    assert(Seq::new(out@.len(), |m: int| out@[m]@) =~= prev.push(st.address@));
                }
            }
            i = i + 1;
        }
        assert(s.subrange(0, N_TRANSMISSION_SIGNATURES as int) =~= s);
        out
    }

    /// The signed stamps, in slot order.
    pub fn iter_stamps(&self) -> (r: Vec<Stamp>)
        ensures
            r@ == self.stamps@.filter(|s: Stamp| is_signed(s)),
    {
        let ghost s = self.stamps@;
        let mut out: Vec<Stamp> = Vec::new();
        let mut i: usize = 0;
        while i < N_TRANSMISSION_SIGNATURES
            invariant
                0 <= i <= N_TRANSMISSION_SIGNATURES,
                s == self.stamps@,
                s.len() == N_TRANSMISSION_SIGNATURES,
                out@ == s.subrange(0, i as int).filter(|s: Stamp| is_signed(s)),
            decreases N_TRANSMISSION_SIGNATURES - i,
        {
            assert(s.subrange(0, i + 1).drop_last() =~= s.subrange(0, i as int));
            reveal_with_fuel(Seq::filter, 1);
            let st = self.stamps[i];
            if !is_zero64(&st.signature) {
                out.push(st);
            }
            i = i + 1;
        }
        assert(s.subrange(0, N_TRANSMISSION_SIGNATURES as int) =~= s);
        out
    }
}

/// Completions with the same fields are equal.
pub proof fn lemma_completion_ext(a: HeaderCompletion, b: HeaderCompletion)
    requires
        a.fields() == b.fields(),
    ensures
        a == b,
{
}

/// Tails whose stamps are all blank are equal.
pub proof fn lemma_blank_tails_equal(a: BlockTail, b: BlockTail)
    requires
        forall|i: int| 0 <= i < N_TRANSMISSION_SIGNATURES ==> is_blank(#[trigger] a.stamps@[i]),
        forall|i: int| 0 <= i < N_TRANSMISSION_SIGNATURES ==> is_blank(#[trigger] b.stamps@[i]),
    ensures
        a == b,
{
    broadcast use vstd::array::axiom_array_ext_equal;
    assert forall|i: int| 0 <= i < N_TRANSMISSION_SIGNATURES implies a.stamps@[i] == b.stamps@[i] by {
        lemma_blank_unique(a.stamps@[i], b.stamps@[i]);
    }
    assert(a.stamps =~= b.stamps);
}

/// Collapsing is a function of the tail: two collapses of the same stamps are
/// equal.
pub proof fn lemma_collapse_unique(c1: Seq<Stamp>, c2: Seq<Stamp>, s: Seq<Stamp>)
    requires
        is_collapse_of(c1, s),
        is_collapse_of(c2, s),
    ensures
        c1 == c2,
{
    let k = kept_stamps(s);
    assert forall|i: int| 0 <= i < c1.len() implies c1[i] == c2[i] by {
        if i < k.len() {
            assert(c1[i] == k[k.len() - 1 - i]);
            assert(c2[i] == k[k.len() - 1 - i]);
        } else {
            lemma_blank_unique(c1[i], c2[i]);
        }
    }
    assert(c1 =~= c2);
}

/// Whether two stamps are equal, byte for byte.
fn same_stamp(a: &Stamp, b: &Stamp) -> (r: bool)
    ensures
        r == (*a == *b),
{
    broadcast use vstd::array::axiom_array_ext_equal;
    let r = eq64(&a.signature, &b.signature) && eq32(&a.address, &b.address);
    if r {
        assert(a.signature =~= b.signature);
        assert(a.address =~= b.address);
    }
    r
}

/// Whether two tails hold the same stamps.
fn same_tail(a: &BlockTail, b: &BlockTail) -> (r: bool)
    ensures
        r == (*a == *b),
{
    broadcast use vstd::array::axiom_array_ext_equal;
    let mut i: usize = 0;
    while i < N_TRANSMISSION_SIGNATURES
        invariant
            0 <= i <= N_TRANSMISSION_SIGNATURES,
            a.stamps@.len() == N_TRANSMISSION_SIGNATURES,
            b.stamps@.len() == N_TRANSMISSION_SIGNATURES,
            forall|j: int| 0 <= j < i ==> a.stamps@[j] == b.stamps@[j],
        decreases N_TRANSMISSION_SIGNATURES - i,
    {
        if !same_stamp(&a.stamps[i], &b.stamps[i]) {
            return false;
        }
        i = i + 1;
    }
    assert(a.stamps =~= b.stamps);
    true
}

/// Whether two completions hold the same fields.
fn same_completion(a: &HeaderCompletion, b: &HeaderCompletion) -> (r: bool)
    ensures
        r == (*a == *b),
{
    broadcast use vstd::array::axiom_array_ext_equal;
    let r = eq32(&a.inner.hash, &b.inner.hash) && eq32(&a.inner.miner_address, &b.inner.miner_address)
        && eq32(&a.inner.state_root, &b.inner.state_root)
        && a.inner.difficulty_target == b.inner.difficulty_target;
    if r {
        assert(a.inner.hash =~= b.inner.hash);
        assert(a.inner.miner_address =~= b.inner.miner_address);
        assert(a.inner.state_root =~= b.inner.state_root);
    }
    r
}

/// Whether two byte pairs are equal.
fn same_pair(a: &[u8; 2], b: &[u8; 2]) -> (r: bool)
    ensures
        r == (*a == *b),
{
    broadcast use vstd::array::axiom_array_ext_equal;
    let r = a[0] == b[0] && a[1] == b[1];
    if r {
        assert(a =~= b);
    }
    r
}

/// Whether two six-byte paddings are equal.
fn same_pad(a: &[u8; 6], b: &[u8; 6]) -> (r: bool)
    ensures
        r == (*a == *b),
{
    broadcast use vstd::array::axiom_array_ext_equal;
    let r = a[0] == b[0] && a[1] == b[1] && a[2] == b[2] && a[3] == b[3] && a[4] == b[4] && a[5] == b[5];
    if r {
        assert(a =~= b);
    }
    r
}

impl PartialEq for BlockHeader {
    /// Field-by-field equality of headers.
    fn eq(&self, other: &Self) -> (r: bool) {
        broadcast use vstd::array::axiom_array_ext_equal;
        let r = eq32(&self.previous_hash, &other.previous_hash) && eq32(&self.merkle_root, &other.merkle_root)
            && self.nonce == other.nonce && self.timestamp == other.timestamp && self.depth == other.depth
            && same_pair(&self.version, &other.version) && same_pad(&self._pad, &other._pad)
            && same_tail(&self.tail, &other.tail) && same_completion(&self.completion, &other.completion);
        if r {
            assert(self.previous_hash =~= other.previous_hash);
            assert(self.merkle_root =~= other.merkle_root);
        }
        r
    }
}

impl vstd::std_specs::cmp::PartialEqSpecImpl for BlockHeader {
    open spec fn obeys_eq_spec() -> bool {
        true
    }

    open spec fn eq_spec(&self, other: &BlockHeader) -> bool {
        *self == *other
    }
}

impl Default for BlockHeader {
    /// The all-zero header: no completion and a blank tail.
    fn default() -> (r: Self)
        ensures
            r.previous_hash@ == zero32(),
            r.merkle_root@ == zero32(),
            r.nonce == 0,
            r.timestamp == 0,
            r.depth == 0,
            r.version@ == seq![0u8, 0u8],
            r._pad@ == Seq::new(6, |i: int| 0u8),
            forall|i: int| 0 <= i < N_TRANSMISSION_SIGNATURES ==> is_blank(#[trigger] r.tail.stamps@[i]),
            r.completion.spec_is_none(),
    {
        let z: [u8; 32] = [0u8; 32];
        let version: [u8; 2] = [0u8; 2];
        let pad: [u8; 6] = [0u8; 6];
        assert(z@ =~= zero32());
        assert(version@ =~= seq![0u8, 0u8]);
        assert(pad@ =~= Seq::new(6, |i: int| 0u8));
        BlockHeader {
            previous_hash: z,
            merkle_root: z,
            nonce: 0,
            timestamp: 0,
            depth: 0,
            version,
            _pad: pad,
            tail: BlockTail::default(),
            completion: HeaderCompletion::new_none(),
        }
    }
}

/// All blank stamps are equal.
pub proof fn lemma_blank_unique(a: Stamp, b: Stamp)
    requires
        is_blank(a),
        is_blank(b),
    ensures
        a == b,
{
    broadcast use vstd::array::axiom_array_ext_equal;
    assert(a.signature@ == b.signature@);
    assert(a.signature =~= b.signature);
    assert(a.address =~= b.address);
}

} // verus!
