//! The additive, mergeable diff of everything the tracker learned since the
//! last persisted snapshot: new or replaced checkpoints, new transactions,
//! confirmation anchors, last-seen and eviction timestamps, and the network
//! tag.
//!
//! A changeset is a log of facts; its meaning is the [`CsV`] view: a map per
//! monotone fact kind.  Merging is fact-union: checkpoint and transaction
//! entries overwrite per key (later writer wins), anchors accumulate as a
//! set, timestamps combine by maximum, and the network tag is last-writer
//! wins.  On that view, merging is associative, idempotent, and — wherever
//! the two sides do not contradict each other — commutative.

use vstd::prelude::*;

use crate::types::Anchor;
use crate::types::AnchorV;
use crate::types::Network;
use crate::types::Tx;
use crate::types::TxV;
use crate::types::lk;
use crate::types::lk_max;
use crate::types::lemma_lk_append;
use crate::types::lemma_lkmax_append;
use crate::types::max_opt;
use crate::types::or_opt;

verus! {

/// Everything new since the last persisted state.
pub struct ChangeSet {
    /// Per height: a new block hash, or `None` where a reorg removed the height.
    pub chain: Vec<(u32, Option<Vec<u8>>)>,
    /// Newly observed relevant transactions.
    pub txs: Vec<Tx>,
    /// Newly observed confirmations.
    pub anchors: Vec<Anchor>,
    /// Last-seen timestamps of unconfirmed transactions, by txid.
    pub last_seen: Vec<(Vec<u8>, u64)>,
    /// Eviction timestamps, by txid.
    pub last_evicted: Vec<(Vec<u8>, u64)>,
    /// The network this state belongs to; last writer wins.
    pub network: Option<Network>,
}

/// The mathematical content of a [`ChangeSet`].
#[verifier::ext_equal]
pub ghost struct CsV {
    pub chain: Map<u32, Option<Seq<u8>>>,
    pub txs: Map<Seq<u8>, TxV>,
    pub anchors: Set<AnchorV>,
    pub last_seen: Map<Seq<u8>, u64>,
    pub last_evicted: Map<Seq<u8>, u64>,
    pub network: Option<Network>,
}

pub open spec fn opt_bytes(o: Option<Vec<u8>>) -> Option<Seq<u8>> {
    match o {
        Some(v) => Some(v@),
        None => None,
    }
}

impl ChangeSet {
    /// The chain diff as a keyed log (later entries override earlier ones).
    pub open spec fn chain_seq(&self) -> Seq<(u32, Option<Seq<u8>>)> {
        self.chain@.map_values(|p: (u32, Option<Vec<u8>>)| (p.0, opt_bytes(p.1)))
    }

    /// The transaction log keyed by txid.
    pub open spec fn txs_seq(&self) -> Seq<(Seq<u8>, TxV)> {
        self.txs@.map_values(|t: Tx| (t.txid@, t@))
    }

    pub open spec fn anchors_seq(&self) -> Seq<AnchorV> {
        self.anchors@.map_values(|a: Anchor| a@)
    }

    pub open spec fn seen_seq(&self) -> Seq<(Seq<u8>, u64)> {
        self.last_seen@.map_values(|p: (Vec<u8>, u64)| (p.0@, p.1))
    }

    pub open spec fn evicted_seq(&self) -> Seq<(Seq<u8>, u64)> {
        self.last_evicted@.map_values(|p: (Vec<u8>, u64)| (p.0@, p.1))
    }
}

impl View for ChangeSet {
    type V = CsV;

    open spec fn view(&self) -> CsV {
        CsV {
            chain: Map::new(
                |h: u32| lk(self.chain_seq(), h) is Some,
                |h: u32| lk(self.chain_seq(), h).unwrap(),
            ),
            txs: Map::new(
                |k: Seq<u8>| lk(self.txs_seq(), k) is Some,
                |k: Seq<u8>| lk(self.txs_seq(), k).unwrap(),
            ),
            anchors: self.anchors_seq().to_set(),
            last_seen: Map::new(
                |k: Seq<u8>| lk_max(self.seen_seq(), k) is Some,
                |k: Seq<u8>| lk_max(self.seen_seq(), k).unwrap(),
            ),
            last_evicted: Map::new(
                |k: Seq<u8>| lk_max(self.evicted_seq(), k) is Some,
                |k: Seq<u8>| lk_max(self.evicted_seq(), k).unwrap(),
            ),
            network: self.network,
        }
    }
}

/// Timestamp maps combine by taking the larger value on shared keys.
pub open spec fn max_union(a: Map<Seq<u8>, u64>, b: Map<Seq<u8>, u64>) -> Map<Seq<u8>, u64> {
    Map::new(
        |k: Seq<u8>| a.dom().contains(k) || b.dom().contains(k),
        |k: Seq<u8>|
            if a.dom().contains(k) && b.dom().contains(k) {
                if a[k] >= b[k] {
                    a[k]
                } else {
                    b[k]
                }
            } else if b.dom().contains(k) {
                b[k]
            } else {
                a[k]
            },
    )
}

/// What merging means on changeset views.
pub open spec fn merge_v(a: CsV, b: CsV) -> CsV {
    CsV {
        chain: a.chain.union_prefer_right(b.chain),
        txs: a.txs.union_prefer_right(b.txs),
        anchors: a.anchors.union(b.anchors),
        last_seen: max_union(a.last_seen, b.last_seen),
        last_evicted: max_union(a.last_evicted, b.last_evicted),
        network: or_opt(a.network, b.network),
    }
}

impl CsV {
    pub open spec fn is_empty_v(self) -> bool {
        &&& self.chain.dom() == Set::<u32>::empty()
        &&& self.txs.dom() == Set::<Seq<u8>>::empty()
        &&& self.anchors == Set::<AnchorV>::empty()
        &&& self.last_seen.dom() == Set::<Seq<u8>>::empty()
        &&& self.last_evicted.dom() == Set::<Seq<u8>>::empty()
        &&& self.network is None
    }
}

impl ChangeSet {
    /// A changeset with nothing pending.
    pub fn empty() -> (r: ChangeSet)
        ensures
            r@.is_empty_v(),
            r.chain@.len() == 0,
            r.txs@.len() == 0,
            r.anchors@.len() == 0,
            r.last_seen@.len() == 0,
            r.last_evicted@.len() == 0,
            r.network is None,
            r@ == (CsV {
                chain: Map::empty(),
                txs: Map::empty(),
                anchors: Set::empty(),
                last_seen: Map::empty(),
                last_evicted: Map::empty(),
                network: None::<Network>,
            }),
    {
        let r = ChangeSet {
            chain: Vec::new(),
            txs: Vec::new(),
            anchors: Vec::new(),
            last_seen: Vec::new(),
            last_evicted: Vec::new(),
            network: None,
        };
        proof {
            assert(r@.chain.dom() =~= Set::<u32>::empty());
            assert(r@.txs.dom() =~= Set::<Seq<u8>>::empty());
            assert(r@.anchors =~= Set::<AnchorV>::empty());
            assert(r@.last_seen.dom() =~= Set::<Seq<u8>>::empty());
            assert(r@.last_evicted.dom() =~= Set::<Seq<u8>>::empty());
            assert(r@.chain =~= Map::empty());
            assert(r@.txs =~= Map::empty());
            assert(r@.last_seen =~= Map::empty());
            assert(r@.last_evicted =~= Map::empty());
        }
        r
    }

    /// Folds another changeset into this one.  Checkpoint and transaction
    /// entries of `other` override entries of `self` at the same key,
    /// anchors accumulate, timestamps keep their maximum, and `other`'s
    /// network tag wins where it is set.
    pub fn merge(&mut self, other: ChangeSet)
        ensures
            final(self)@ == merge_v(old(self)@, other@),
    {
        let ghost a = *self;
        let mut other = other;
        let ghost b = other;
        self.chain.append(&mut other.chain);
        self.txs.append(&mut other.txs);
        self.anchors.append(&mut other.anchors);
        self.last_seen.append(&mut other.last_seen);
        self.last_evicted.append(&mut other.last_evicted);
        if other.network.is_some() {
            self.network = other.network;
        }
        proof {
            assert(self.chain_seq() =~= a.chain_seq() + b.chain_seq());
            assert(self.txs_seq() =~= a.txs_seq() + b.txs_seq());
            assert(self.anchors_seq() =~= a.anchors_seq() + b.anchors_seq());
            assert(self.seen_seq() =~= a.seen_seq() + b.seen_seq());
            assert(self.evicted_seq() =~= a.evicted_seq() + b.evicted_seq());
            assert forall|h: u32| true implies #[trigger] lk(self.chain_seq(), h) == or_opt(
                lk(a.chain_seq(), h),
                lk(b.chain_seq(), h),
            ) by {
                lemma_lk_append(a.chain_seq(), b.chain_seq(), h);
            }
            assert(self@.chain =~= merge_v(a@, b@).chain);
            assert forall|k: Seq<u8>| true implies #[trigger] lk(self.txs_seq(), k) == or_opt(
                lk(a.txs_seq(), k),
                lk(b.txs_seq(), k),
            ) by {
                lemma_lk_append(a.txs_seq(), b.txs_seq(), k);
            }
            assert(self@.txs =~= merge_v(a@, b@).txs);
            assert forall|x: AnchorV| true implies #[trigger] self.anchors_seq().contains(x) == (
            a.anchors_seq().contains(x) || b.anchors_seq().contains(x)) by {
                if a.anchors_seq().contains(x) {
                    let i = choose|i: int|
                        0 <= i < a.anchors_seq().len() && a.anchors_seq()[i] == x;
                    assert(self.anchors_seq()[i] == x);
                }
                if b.anchors_seq().contains(x) {
                    let i = choose|i: int|
                        0 <= i < b.anchors_seq().len() && b.anchors_seq()[i] == x;
                    assert(self.anchors_seq()[a.anchors_seq().len() + i] == x);
                }
                if self.anchors_seq().contains(x) {
                    let i = choose|i: int|
                        0 <= i < self.anchors_seq().len() && self.anchors_seq()[i] == x;
                    if i < a.anchors_seq().len() {
                        assert(a.anchors_seq()[i] == x);
                    } else {
                        assert(b.anchors_seq()[i - a.anchors_seq().len()] == x);
                    }
                }
            }
            assert(self@.anchors =~= merge_v(a@, b@).anchors);
            assert forall|k: Seq<u8>| true implies #[trigger] lk_max(self.seen_seq(), k) == max_opt(
                lk_max(a.seen_seq(), k),
                lk_max(b.seen_seq(), k),
            ) by {
                lemma_lkmax_append(a.seen_seq(), b.seen_seq(), k);
            }
            assert(self@.last_seen =~= merge_v(a@, b@).last_seen);
            assert forall|k: Seq<u8>| true implies #[trigger] lk_max(self.evicted_seq(), k)
                == max_opt(lk_max(a.evicted_seq(), k), lk_max(b.evicted_seq(), k)) by {
                lemma_lkmax_append(a.evicted_seq(), b.evicted_seq(), k);
            }
            assert(self@.last_evicted =~= merge_v(a@, b@).last_evicted);
            assert(self@ =~= merge_v(a@, b@));
        }
    }

    /// True exactly when no field holds pending data.
    pub fn is_empty(&self) -> (r: bool)
        ensures
            r == self@.is_empty_v(),
    {
        let r = self.chain.len() == 0 && self.txs.len() == 0 && self.anchors.len() == 0
            && self.last_seen.len() == 0 && self.last_evicted.len() == 0
            && self.network.is_none();
        proof {
            if r {
                assert(self@.chain.dom() =~= Set::<u32>::empty());
                assert(self@.txs.dom() =~= Set::<Seq<u8>>::empty());
                assert(self@.anchors =~= Set::<AnchorV>::empty());
                assert(self@.last_seen.dom() =~= Set::<Seq<u8>>::empty());
                assert(self@.last_evicted.dom() =~= Set::<Seq<u8>>::empty());
            } else {
                if self.chain.len() > 0 {
                    let s = self.chain_seq();
                    assert(lk(s, s.last().0) is Some);
                    assert(self@.chain.dom().contains(s.last().0));
                }
                if self.txs.len() > 0 {
                    let s = self.txs_seq();
                    assert(lk(s, s.last().0) is Some);
                    assert(self@.txs.dom().contains(s.last().0));
                }
                if self.anchors.len() > 0 {
                    let s = self.anchors_seq();
                    assert(s.contains(s.last()));
                    assert(self@.anchors.contains(s.last()));
                }
                if self.last_seen.len() > 0 {
                    let s = self.seen_seq();
                    assert(lk_max(s, s.last().0) is Some);
                    assert(self@.last_seen.dom().contains(s.last().0));
                }
                if self.last_evicted.len() > 0 {
                    let s = self.evicted_seq();
                    assert(lk_max(s, s.last().0) is Some);
                    assert(self@.last_evicted.dom().contains(s.last().0));
                }
            }
        }
        r
    }
}

impl Default for ChangeSet {
    /// Same as [`ChangeSet::empty`].
    fn default() -> (r: ChangeSet)
        ensures
            r@.is_empty_v(),
    {
        ChangeSet::empty()
    }
}

/// Two changeset views that nowhere contradict each other: where both record
/// a chain height or a transaction they record the same fact, and they do
/// not claim different networks.
pub open spec fn compatible_v(a: CsV, b: CsV) -> bool {
    &&& forall|h: u32|
        a.chain.dom().contains(h) && b.chain.dom().contains(h) ==> a.chain[h] == b.chain[h]
    &&& forall|k: Seq<u8>| a.txs.dom().contains(k) && b.txs.dom().contains(k) ==> a.txs[k] == b.txs[k]
    &&& !(a.network is Some && b.network is Some && a.network != b.network)
}

/// Merging a changeset with itself changes nothing: every fact kind is
/// union- or maximum-combined, and both are idempotent.
pub proof fn lemma_merge_idempotent(a: CsV)
    ensures
        merge_v(a, a) == a,
{
    assert(merge_v(a, a).chain =~= a.chain);
    assert(merge_v(a, a).txs =~= a.txs);
    assert(merge_v(a, a).anchors =~= a.anchors);
    assert(merge_v(a, a).last_seen =~= a.last_seen);
    assert(merge_v(a, a).last_evicted =~= a.last_evicted);
    assert(merge_v(a, a) =~= a);
}

/// Merging is associative in every field.
pub proof fn lemma_merge_associative(a: CsV, b: CsV, c: CsV)
    ensures
        merge_v(merge_v(a, b), c) == merge_v(a, merge_v(b, c)),
{
    assert(merge_v(merge_v(a, b), c).chain =~= merge_v(a, merge_v(b, c)).chain);
    assert(merge_v(merge_v(a, b), c).txs =~= merge_v(a, merge_v(b, c)).txs);
    assert(merge_v(merge_v(a, b), c).anchors =~= merge_v(a, merge_v(b, c)).anchors);
    assert(merge_v(merge_v(a, b), c).last_seen =~= merge_v(a, merge_v(b, c)).last_seen);
    assert(merge_v(merge_v(a, b), c).last_evicted =~= merge_v(a, merge_v(b, c)).last_evicted);
    assert(merge_v(merge_v(a, b), c) =~= merge_v(a, merge_v(b, c)));
}

/// Merging is commutative between changesets that do not contradict each
/// other.  (Two changesets that record different hashes for the same height,
/// or different networks, are ordered by which one is merged last; the
/// additive fields — anchors and timestamps — commute unconditionally.)
pub proof fn lemma_merge_commutative(a: CsV, b: CsV)
    requires
        compatible_v(a, b),
    ensures
        merge_v(a, b) == merge_v(b, a),
{
    assert(merge_v(a, b).chain =~= merge_v(b, a).chain);
    assert(merge_v(a, b).txs =~= merge_v(b, a).txs);
    assert(merge_v(a, b).anchors =~= merge_v(b, a).anchors);
    assert(merge_v(a, b).last_seen =~= merge_v(b, a).last_seen);
    assert(merge_v(a, b).last_evicted =~= merge_v(b, a).last_evicted);
    assert(merge_v(a, b) =~= merge_v(b, a));
}

/// A merge, seen through lookups: checkpoint and transaction entries prefer
/// the newer side, anchors accumulate, timestamps keep their maximum, and
/// the network tag is last-writer-wins.
pub proof fn lemma_merge_pointwise(a: ChangeSet, b: ChangeSet, m: ChangeSet)
    requires
        m@ == merge_v(a@, b@),
    ensures
        forall|h: u32|
            #![trigger lk(m.chain_seq(), h)]
            #![trigger lk(a.chain_seq(), h)]
            lk(m.chain_seq(), h) == or_opt(lk(a.chain_seq(), h), lk(b.chain_seq(), h)),
        forall|k: Seq<u8>|
            #![trigger lk(m.txs_seq(), k)]
            #![trigger lk(a.txs_seq(), k)]
            lk(m.txs_seq(), k) == or_opt(lk(a.txs_seq(), k), lk(b.txs_seq(), k)),
        forall|x: AnchorV|
            #![trigger m.anchors_seq().contains(x)]
            #![trigger a.anchors_seq().contains(x)]
            m.anchors_seq().contains(x) == (a.anchors_seq().contains(x)
                || b.anchors_seq().contains(x)),
        forall|k: Seq<u8>|
            #![trigger lk_max(m.seen_seq(), k)]
            #![trigger lk_max(a.seen_seq(), k)]
            lk_max(m.seen_seq(), k) == max_opt(lk_max(a.seen_seq(), k), lk_max(b.seen_seq(), k)),
        forall|k: Seq<u8>|
            #![trigger lk_max(m.evicted_seq(), k)]
            #![trigger lk_max(a.evicted_seq(), k)]
            lk_max(m.evicted_seq(), k) == max_opt(
                lk_max(a.evicted_seq(), k),
                lk_max(b.evicted_seq(), k),
            ),
        m.network == or_opt(a.network, b.network),
{
    assert forall|h: u32|
        #![trigger lk(m.chain_seq(), h)]
        #![trigger lk(a.chain_seq(), h)]
        lk(m.chain_seq(), h) == or_opt(lk(a.chain_seq(), h), lk(b.chain_seq(), h)) by {
        assert(m@.chain.dom().contains(h) == merge_v(a@, b@).chain.dom().contains(h));
        assert(m@.chain.dom().contains(h) ==> m@.chain[h] == merge_v(a@, b@).chain[h]);
    }
    assert forall|k: Seq<u8>|
        #![trigger lk(m.txs_seq(), k)]
        #![trigger lk(a.txs_seq(), k)]
        lk(m.txs_seq(), k) == or_opt(lk(a.txs_seq(), k), lk(b.txs_seq(), k)) by {
        assert(m@.txs.dom().contains(k) == merge_v(a@, b@).txs.dom().contains(k));
        assert(m@.txs.dom().contains(k) ==> m@.txs[k] == merge_v(a@, b@).txs[k]);
    }
    assert forall|x: AnchorV|
        #![trigger m.anchors_seq().contains(x)]
        #![trigger a.anchors_seq().contains(x)]
        m.anchors_seq().contains(x) == (a.anchors_seq().contains(x) || b.anchors_seq().contains(
            x,
        )) by {
        assert(m@.anchors.contains(x) == merge_v(a@, b@).anchors.contains(x));
    }
    assert forall|k: Seq<u8>|
        #![trigger lk_max(m.seen_seq(), k)]
        #![trigger lk_max(a.seen_seq(), k)]
        lk_max(m.seen_seq(), k) == max_opt(lk_max(a.seen_seq(), k), lk_max(b.seen_seq(), k)) by {
        assert(m@.last_seen.dom().contains(k) == merge_v(a@, b@).last_seen.dom().contains(k));
        assert(m@.last_seen.dom().contains(k) ==> m@.last_seen[k] == merge_v(a@, b@).last_seen[k]);
    }
    assert forall|k: Seq<u8>|
        #![trigger lk_max(m.evicted_seq(), k)]
        #![trigger lk_max(a.evicted_seq(), k)]
        lk_max(m.evicted_seq(), k) == max_opt(
            lk_max(a.evicted_seq(), k),
            lk_max(b.evicted_seq(), k),
        ) by {
        assert(m@.last_evicted.dom().contains(k) == merge_v(a@, b@).last_evicted.dom().contains(
            k,
        ));
        assert(m@.last_evicted.dom().contains(k) ==> m@.last_evicted[k] == merge_v(
            a@,
            b@,
        ).last_evicted[k]);
    }
    assert(m@.network == merge_v(a@, b@).network);
}

} // verus!
