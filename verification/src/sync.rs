//! The choice among the shards that peers offer when a node catches up.
//!
//! A node that comes back online asks its peers for what follows its leaves.
//! Each offered shard that connects, through a block that verifies, to one of
//! the node's leaves is an offer; per leaf the node keeps the deepest offer,
//! and among equally deep offers the one that came first.

use vstd::prelude::*;

use crate::bytes::{eq32, StdByteArray};

verus! {

/// An offered shard that connects to one of the node's leaves.
#[derive(Debug, Clone, Copy, PartialEq, Eq)]
pub struct Extension {
    /// The leaf of the node's chain that the shard extends.
    pub leaf: StdByteArray,
    /// The depth of the shard.
    pub depth: u64,
    /// Which offered shard this is.
    pub shard: usize,
}

/// No leaf has two entries.
pub open spec fn distinct_leaves(exts: Seq<Extension>) -> bool {
    forall|i: int, j: int| 0 <= i < j < exts.len() ==> (#[trigger] exts[i]).leaf@ != (#[trigger] exts[j]).leaf@
}

/// Whether some entry is for `leaf`.
pub open spec fn has_leaf(exts: Seq<Extension>, leaf: Seq<u8>) -> bool {
    exists|i: int| 0 <= i < exts.len() && (#[trigger] exts[i]).leaf@ == leaf
}

/// The entries after one more offer: a leaf seen for the first time gets the
/// offer; a leaf already kept gets it only if it is strictly deeper.
pub open spec fn extension_step(exts: Seq<Extension>, offer: Extension) -> Seq<Extension> {
    if has_leaf(exts, offer.leaf@) {
        let i = choose|i: int| 0 <= i < exts.len() && (#[trigger] exts[i]).leaf@ == offer.leaf@;
        if offer.depth > exts[i].depth {
            exts.update(i, offer)
        } else {
            exts
        }
    } else {
        exts.push(offer)
    }
}

/// The entries kept after the offers, taken in order.
pub open spec fn extensions_from(offers: Seq<Extension>) -> Seq<Extension>
    decreases offers.len(),
{
    if offers.len() == 0 {
        Seq::empty()
    } else {
        extension_step(extensions_from(offers.drop_last()), offers.last())
    }
}

/// Records one more offer in the kept entries.
pub fn record_extension(extensions: &mut Vec<Extension>, offer: Extension)
    requires
        distinct_leaves(old(extensions)@),
    ensures
        final(extensions)@ == extension_step(old(extensions)@, offer),
        distinct_leaves(final(extensions)@),
{
    let ghost before = extensions@;
    let mut i: usize = 0;
    let mut found = false;
    while i < extensions.len()
        invariant_except_break
            extensions@ == before,
            distinct_leaves(before),
            0 <= i <= extensions.len(),
            forall|j: int| 0 <= j < i ==> (#[trigger] extensions@[j]).leaf@ != offer.leaf@,
            !found,
        ensures
            extensions@ == before,
            distinct_leaves(before),
            0 <= i <= extensions.len(),
            forall|j: int| 0 <= j < i ==> (#[trigger] extensions@[j]).leaf@ != offer.leaf@,
            found ==> i < extensions.len() && extensions@[i as int].leaf@ == offer.leaf@,
            !found ==> i == extensions.len(),
        decreases extensions.len() - i,
    {
        if eq32(&extensions[i].leaf, &offer.leaf) {
            found = true;
            break;
        }
        i = i + 1;
    }
    if found {
        proof {
            assert(has_leaf(before, offer.leaf@));
            let c = choose|c: int| 0 <= c < before.len() && (#[trigger] before[c]).leaf@ == offer.leaf@;
            if c < i as int {
                assert(before[c].leaf@ != offer.leaf@);
            } else if c > i as int {
                assert(before[i as int].leaf@ != before[c].leaf@);
            }
        }
        if offer.depth > extensions[i].depth {
            extensions.set(i, offer);
        }
    } else {
        proof {
            assert(!has_leaf(before, offer.leaf@));
        }
        extensions.push(offer);
    }
}

/// The entries kept after the offers, taken in the order they came.
pub fn choose_extensions(offers: &Vec<Extension>) -> (r: Vec<Extension>)
    ensures
        r@ == extensions_from(offers@),
{
    let mut out: Vec<Extension> = Vec::new();
    let mut k: usize = 0;
    while k < offers.len()
        invariant
            0 <= k <= offers.len(),
            out@ == extensions_from(offers@.take(k as int)),
            distinct_leaves(out@),
        decreases offers.len() - k,
    {
        proof {
            assert(offers@.take(k + 1).drop_last() =~= offers@.take(k as int));
        }
        record_extension(&mut out, offers[k]);
        k = k + 1;
    }
    proof {
        assert(offers@.take(offers@.len() as int) =~= offers@);
    }
    out
}

/// Offer `k` is the deepest of the offers for its leaf, and the first of
/// those that are that deep.
pub open spec fn first_deepest(offers: Seq<Extension>, k: int) -> bool {
    &&& 0 <= k < offers.len()
    &&& forall|m: int|
        0 <= m < offers.len() && (#[trigger] offers[m]).leaf@ == offers[k].leaf@ ==> offers[m].depth
            <= offers[k].depth
    &&& forall|m: int|
        0 <= m < k && (#[trigger] offers[m]).leaf@ == offers[k].leaf@ ==> offers[m].depth < offers[k].depth
}

/// An earlier offer stays the first of the deepest when the next offer is for
/// another leaf or is no deeper.
proof fn lemma_first_deepest_stays(offers: Seq<Extension>, k: int)
    requires
        offers.len() > 0,
        first_deepest(offers.drop_last(), k),
        offers.last().leaf@ != offers[k].leaf@ || offers.last().depth <= offers[k].depth,
    ensures
        first_deepest(offers, k),
{
    let pre = offers.drop_last();
    assert forall|m: int| 0 <= m < pre.len() implies #[trigger] offers[m] == pre[m] by {}
    assert(offers[k] == pre[k]);
    assert forall|m: int| 0 <= m < offers.len() && (#[trigger] offers[m]).leaf@ == offers[k].leaf@ implies offers[m].depth
        <= offers[k].depth by {
        if m < pre.len() {
            assert(offers[m] == pre[m]);
        }
    }
    assert forall|m: int| 0 <= m < k && (#[trigger] offers[m]).leaf@ == offers[k].leaf@ implies offers[m].depth
        < offers[k].depth by {
        assert(offers[m] == pre[m]);
    }
}

/// Per leaf, the kept entry is the first of the deepest offers for that
/// leaf; every offered leaf has an entry, and no leaf has two.
pub proof fn lemma_deepest_first(offers: Seq<Extension>)
    ensures
        distinct_leaves(extensions_from(offers)),
        forall|k: int| 0 <= k < offers.len() ==> has_leaf(extensions_from(offers), (#[trigger] offers[k]).leaf@),
        forall|j: int|
            0 <= j < extensions_from(offers).len() ==> exists|k: int|
                first_deepest(offers, k) && #[trigger] extensions_from(offers)[j] == offers[k],
    decreases offers.len(),
{
    let e = extensions_from(offers);
    if offers.len() == 0 {
        return;
    }
    let pre = offers.drop_last();
    let n = pre.len() as int;
    let o = offers.last();
    lemma_deepest_first(pre);
    let p = extensions_from(pre);
    assert(offers[n] == o);
    assert forall|m: int| 0 <= m < n implies #[trigger] offers[m] == pre[m] by {}
    assert forall|k: int| 0 <= k < offers.len() implies has_leaf(e, (#[trigger] offers[k]).leaf@) by {
        if k < n {
            assert(offers[k] == pre[k]);
            assert(has_leaf(p, pre[k].leaf@));
            let j = choose|j: int| 0 <= j < p.len() && (#[trigger] p[j]).leaf@ == pre[k].leaf@;
            assert(e[j].leaf@ == pre[k].leaf@);
        } else if has_leaf(p, o.leaf@) {
            let i = choose|i: int| 0 <= i < p.len() && (#[trigger] p[i]).leaf@ == o.leaf@;
            assert(e[i].leaf@ == o.leaf@);
        } else {
            assert(e[p.len() as int] == o);
        }
    }
    if has_leaf(p, o.leaf@) {
        let i = choose|i: int| 0 <= i < p.len() && (#[trigger] p[i]).leaf@ == o.leaf@;
        let ki = choose|k: int| first_deepest(pre, k) && #[trigger] p[i] == pre[k];
        assert(first_deepest(pre, ki) && p[i] == pre[ki]);
        if o.depth > p[i].depth {
            assert(e == p.update(i, o));
            assert forall|j: int| 0 <= j < e.len() implies exists|k: int|
                first_deepest(offers, k) && #[trigger] e[j] == offers[k] by {
                if j == i {
                    assert forall|m: int| 0 <= m < offers.len() && (#[trigger] offers[m]).leaf@ == offers[n].leaf@ implies offers[m].depth
                        <= offers[n].depth by {
                        if m < n {
                            assert(offers[m] == pre[m]);
                        }
                    }
                    assert(first_deepest(offers, n));
                    assert(e[j] == offers[n]);
                } else {
                    let kj = choose|k: int| first_deepest(pre, k) && #[trigger] p[j] == pre[k];
                    assert(first_deepest(pre, kj) && p[j] == pre[kj]);
                    assert(p[j].leaf@ != p[i].leaf@);
                    lemma_first_deepest_stays(offers, kj);
                    assert(e[j] == offers[kj]);
                }
            }
            assert forall|a: int, b: int| 0 <= a < b < e.len() implies (#[trigger] e[a]).leaf@ != (#[trigger] e[b]).leaf@ by {
                assert(p[a].leaf@ != p[b].leaf@);
            }
        } else {
            assert(e == p);
            assert forall|j: int| 0 <= j < e.len() implies exists|k: int|
                first_deepest(offers, k) && #[trigger] e[j] == offers[k] by {
                let kj = choose|k: int| first_deepest(pre, k) && #[trigger] p[j] == pre[k];
                assert(first_deepest(pre, kj) && p[j] == pre[kj]);
                if j != i {
                    assert(p[j].leaf@ != p[i].leaf@);
                }
                lemma_first_deepest_stays(offers, kj);
                assert(e[j] == offers[kj]);
            }
        }
    } else {
        assert(e == p.push(o));
        assert forall|j: int| 0 <= j < e.len() implies exists|k: int|
            first_deepest(offers, k) && #[trigger] e[j] == offers[k] by {
            if j == p.len() {
                assert forall|m: int| 0 <= m < n implies (#[trigger] offers[m]).leaf@ != o.leaf@ by {
                    assert(offers[m] == pre[m]);
                    if pre[m].leaf@ == o.leaf@ {
                        assert(has_leaf(p, pre[m].leaf@));
                    }
                }
                assert(first_deepest(offers, n));
                assert(e[j] == offers[n]);
            } else {
                let kj = choose|k: int| first_deepest(pre, k) && #[trigger] p[j] == pre[k];
                assert(first_deepest(pre, kj) && p[j] == pre[kj]);
                assert(p[j].leaf@ != o.leaf@);
                lemma_first_deepest_stays(offers, kj);
                assert(e[j] == offers[kj]);
            }
        }
        assert forall|a: int, b: int| 0 <= a < b < e.len() implies (#[trigger] e[a]).leaf@ != (#[trigger] e[b]).leaf@ by {
            if b == p.len() {
                assert(e[a] == p[a]);
                assert(p[a].leaf@ != o.leaf@);
            } else {
                assert(p[a].leaf@ != p[b].leaf@);
            }
        }
    }
}

} // verus!
