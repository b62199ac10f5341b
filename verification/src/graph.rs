//! The relevant-transaction graph and the relevance index: stored
//! transactions, their confirmation anchors, last-seen and eviction
//! timestamps, the set of watched scripts, and the index of relevant
//! outpoints.
//!
//! Transactions are stored on first observation and never deleted; anchors
//! and timestamps only accumulate.  An output is indexed once its script is
//! watched and its producing transaction is stored; `reindex` closes the gap
//! for scripts registered late.

use vstd::prelude::*;

use crate::changeset::ChangeSet;
use crate::types::Anchor;
use crate::types::AnchorV;
use crate::types::OpV;
use crate::types::OutPoint;
use crate::types::Tx;
use crate::types::TxV;
use crate::types::bytes_eq;
use crate::types::clone_bytes;
use crate::types::clone_tx;
use crate::types::lk;
use crate::types::lk_max;
use crate::types::lemma_lkmax_push;
use crate::types::max_opt;
use crate::types::outpoint_eq;
use crate::types::or_opt;

verus! {

/// Transaction graph plus relevance index.
pub struct TxGraph {
    /// Stored relevant transactions.
    pub txs: Vec<Tx>,
    /// Confirmation anchors: (txid, height, block hash, block time).
    pub anchors: Vec<Anchor>,
    /// Last-seen timestamps of unconfirmed observations, by txid.
    pub last_seen: Vec<(Vec<u8>, u64)>,
    /// Eviction timestamps, by txid.
    pub last_evicted: Vec<(Vec<u8>, u64)>,
    /// Tracked output scripts.
    pub scripts: Vec<Vec<u8>>,
    /// Outpoints known to pay a watched script, with that script.
    pub indexed: Vec<(OutPoint, Vec<u8>)>,
}

impl TxGraph {
    pub open spec fn txs_seq(&self) -> Seq<(Seq<u8>, TxV)> {
        self.txs@.map_values(|t: Tx| (t.txid@, t@))
    }

    /// The stored transaction under a txid, if any.
    pub open spec fn tx_at(&self, k: Seq<u8>) -> Option<TxV> {
        lk(self.txs_seq(), k)
    }

    pub open spec fn anchors_seq(&self) -> Seq<AnchorV> {
        self.anchors@.map_values(|a: Anchor| a@)
    }

    pub open spec fn has_anchor(&self, a: AnchorV) -> bool {
        self.anchors_seq().contains(a)
    }

    pub open spec fn seen_seq(&self) -> Seq<(Seq<u8>, u64)> {
        self.last_seen@.map_values(|p: (Vec<u8>, u64)| (p.0@, p.1))
    }

    /// Latest time the transaction was seen unconfirmed.
    pub open spec fn seen_at(&self, k: Seq<u8>) -> Option<u64> {
        lk_max(self.seen_seq(), k)
    }

    pub open spec fn evicted_seq(&self) -> Seq<(Seq<u8>, u64)> {
        self.last_evicted@.map_values(|p: (Vec<u8>, u64)| (p.0@, p.1))
    }

    /// Latest time the transaction was evicted from the mempool view.
    pub open spec fn evicted_at(&self, k: Seq<u8>) -> Option<u64> {
        lk_max(self.evicted_seq(), k)
    }

    pub open spec fn scripts_seq(&self) -> Seq<Seq<u8>> {
        self.scripts@.map_values(|s: Vec<u8>| s@)
    }

    /// Whether a script is watched.
    pub open spec fn watches(&self, s: Seq<u8>) -> bool {
        self.scripts_seq().contains(s)
    }

    pub open spec fn indexed_seq(&self) -> Seq<(OpV, Seq<u8>)> {
        self.indexed@.map_values(|p: (OutPoint, Vec<u8>)| (p.0@, p.1@))
    }

    /// The watched script an indexed outpoint pays, if known.
    pub open spec fn indexed_at(&self, op: OpV) -> Option<Seq<u8>> {
        lk(self.indexed_seq(), op)
    }

    /// An index entry speaks the truth: its outpoint is an output of the
    /// stored transaction, pays the recorded script, and that script is
    /// watched.
    pub open spec fn entry_sound(&self, op: OpV, s: Seq<u8>) -> bool {
        &&& self.tx_at(op.0) is Some
        &&& op.1 < self.tx_at(op.0).unwrap().outputs.len()
        &&& self.tx_at(op.0).unwrap().outputs[op.1 as int].0 == s
        &&& self.watches(s)
    }

    pub open spec fn wf(&self) -> bool {
        &&& forall|l: int|
            0 <= l < self.indexed_seq().len() ==> self.entry_sound(
                (#[trigger] self.indexed_seq()[l]).0,
                self.indexed_seq()[l].1,
            )
        &&& forall|l: int|
            0 <= l < self.txs@.len() ==> (#[trigger] self.txs@[l])@.outputs.len() <= 0xffff_ffff
    }

    /// The transaction touches a watched script on its own account: an
    /// output pays a watched script, or an input spends an outpoint known to
    /// pay one.  Unlike [`TxGraph::relevant`], being stored does not count.
    pub open spec fn touches_watched(&self, t: TxV) -> bool {
        ||| exists|oi: int| 0 <= oi < t.outputs.len() && self.watches(t.outputs[oi].0)
        ||| exists|ii: int| 0 <= ii < t.inputs.len() && self.indexed_at(t.inputs[ii]) is Some
    }

    /// A transaction touches the tracker: an output pays a watched script,
    /// an input spends an indexed outpoint, or it is already stored.
    pub open spec fn relevant(&self, t: TxV) -> bool {
        ||| self.touches_watched(t)
        ||| self.tx_at(t.txid) is Some
    }

    /// Every watched output of every stored transaction is indexed.
    pub open spec fn index_complete(&self) -> bool {
        forall|k: Seq<u8>, oi: u32|
            self.tx_at(k) is Some && oi < self.tx_at(k).unwrap().outputs.len() && self.watches(
                self.tx_at(k).unwrap().outputs[oi as int].0,
            ) ==> (#[trigger] self.indexed_at((k, oi))) is Some
    }

    /// An empty graph tracking nothing.
    pub fn new() -> (r: TxGraph)
        ensures
            r.wf(),
            r.txs@.len() == 0,
            r.anchors@.len() == 0,
            r.last_seen@.len() == 0,
            r.last_evicted@.len() == 0,
            r.scripts@.len() == 0,
            r.indexed@.len() == 0,
    {
        TxGraph {
            txs: Vec::new(),
            anchors: Vec::new(),
            last_seen: Vec::new(),
            last_evicted: Vec::new(),
            scripts: Vec::new(),
            indexed: Vec::new(),
        }
    }

    /// Index of the stored transaction under a txid (the latest entry wins).
    pub fn find_tx(&self, txid: &Vec<u8>) -> (r: Option<usize>)
        ensures
            match r {
                Some(i) => i < self.txs@.len() && self.txs@[i as int].txid@ == txid@ && self.tx_at(
                    txid@,
                ) == Some(self.txs@[i as int]@),
                None => self.tx_at(txid@) is None,
            },
    {
        let mut k: usize = self.txs.len();
        proof {
            assert(self.txs_seq().take(self.txs@.len() as int) =~= self.txs_seq());
        }
        while k > 0
            invariant
                k <= self.txs@.len(),
                lk(self.txs_seq(), txid@) == lk(self.txs_seq().take(k as int), txid@),
            decreases k,
        {
            k -= 1;
            proof {
                assert(self.txs_seq().take(k + 1).drop_last() =~= self.txs_seq().take(k as int));
                assert(self.txs_seq().take(k + 1).last() == self.txs_seq()[k as int]);
            }
            if bytes_eq(&self.txs[k].txid, txid) {
                return Some(k);
            }
        }
        proof {
            assert(self.txs_seq().take(0) =~= Seq::<(Seq<u8>, TxV)>::empty());
        }
        None
    }

    /// Index of the index entry for an outpoint (the latest entry wins).
    pub fn find_indexed(&self, op: &OutPoint) -> (r: Option<usize>)
        ensures
            match r {
                Some(i) => i < self.indexed@.len() && self.indexed@[i as int].0@ == op@
                    && self.indexed_at(op@) == Some(self.indexed@[i as int].1@),
                None => self.indexed_at(op@) is None,
            },
    {
        let mut k: usize = self.indexed.len();
        proof {
            assert(self.indexed_seq().take(self.indexed@.len() as int) =~= self.indexed_seq());
        }
        while k > 0
            invariant
                k <= self.indexed@.len(),
                lk(self.indexed_seq(), op@) == lk(self.indexed_seq().take(k as int), op@),
            decreases k,
        {
            k -= 1;
            proof {
                assert(self.indexed_seq().take(k + 1).drop_last() =~= self.indexed_seq().take(
                    k as int,
                ));
                assert(self.indexed_seq().take(k + 1).last() == self.indexed_seq()[k as int]);
            }
            if outpoint_eq(&self.indexed[k].0, op) {
                return Some(k);
            }
        }
        proof {
            assert(self.indexed_seq().take(0) =~= Seq::<(OpV, Seq<u8>)>::empty());
        }
        None
    }

    /// Whether the script is watched.
    pub fn is_tracked(&self, s: &Vec<u8>) -> (r: bool)
        ensures
            r == self.watches(s@),
    {
        let n = self.scripts.len();
        let mut l: usize = 0;
        while l < n
            invariant
                l <= n,
                n == self.scripts@.len(),
                forall|l2: int| 0 <= l2 < l ==> self.scripts@[l2]@ != s@,
            decreases n - l,
        {
            if bytes_eq(&self.scripts[l], s) {
                proof {
                    assert(self.scripts_seq()[l as int] == s@);
                }
                return true;
            }
            l += 1;
        }
        proof {
            if self.watches(s@) {
                let l2 = choose|l2: int|
                    0 <= l2 < self.scripts_seq().len() && self.scripts_seq()[l2] == s@;
                assert(self.scripts@[l2]@ == s@);
            }
        }
        false
    }

    /// Whether this exact anchor is recorded.
    pub fn has_anchor_exec(&self, a: &Anchor) -> (r: bool)
        ensures
            r == self.has_anchor(a@),
    {
        let n = self.anchors.len();
        let mut l: usize = 0;
        while l < n
            invariant
                l <= n,
                n == self.anchors@.len(),
                forall|l2: int| 0 <= l2 < l ==> self.anchors@[l2]@ != a@,
            decreases n - l,
        {
            let c = &self.anchors[l];
            if bytes_eq(&c.txid, &a.txid) && c.height == a.height && bytes_eq(&c.hash, &a.hash)
                && c.time == a.time {
                proof {
                    assert(self.anchors_seq()[l as int] == a@);
                }
                return true;
            }
            l += 1;
        }
        proof {
            if self.has_anchor(a@) {
                let l2 = choose|l2: int|
                    0 <= l2 < self.anchors_seq().len() && self.anchors_seq()[l2] == a@;
                assert(self.anchors@[l2]@ == a@);
            }
        }
        false
    }

    /// Latest time an unconfirmed observation of the txid was recorded.
    pub fn seen_max(&self, txid: &Vec<u8>) -> (r: Option<u64>)
        ensures
            r == self.seen_at(txid@),
    {
        max_time(&self.last_seen, txid)
    }

    /// Latest eviction time recorded for the txid.
    pub fn evicted_max(&self, txid: &Vec<u8>) -> (r: Option<u64>)
        ensures
            r == self.evicted_at(txid@),
    {
        max_time(&self.last_evicted, txid)
    }

    /// Whether the transaction is relevant to the tracker.
    pub fn is_relevant(&self, t: &Tx) -> (r: bool)
        ensures
            r == self.relevant(t@),
    {
        let n = t.outputs.len();
        let mut oi: usize = 0;
        while oi < n
            invariant
                oi <= n,
                n == t.outputs@.len(),
                forall|l2: int| 0 <= l2 < oi ==> !self.watches(t@.outputs[l2].0),
            decreases n - oi,
        {
            if self.is_tracked(&t.outputs[oi].script) {
                proof {
                    assert(t@.outputs[oi as int].0 == t.outputs@[oi as int].script@);
                }
                return true;
            }
            oi += 1;
        }
        let m = t.inputs.len();
        let mut ii: usize = 0;
        while ii < m
            invariant
                m == t.inputs@.len(),
                ii <= m,
                forall|l2: int| 0 <= l2 < ii ==> self.indexed_at(t@.inputs[l2]) is None,
                forall|l2: int| 0 <= l2 < t.outputs@.len() ==> !self.watches(t@.outputs[l2].0),
            decreases m - ii,
        {
            if self.find_indexed(&t.inputs[ii]).is_some() {
                proof {
                    assert(t@.inputs[ii as int] == t.inputs@[ii as int]@);
                }
                return true;
            }
            proof {
                assert(t@.inputs[ii as int] == t.inputs@[ii as int]@);
            }
            ii += 1;
        }
        let r = self.find_tx(&t.txid).is_some();
        r
    }

    /// Registers a script with the relevance index.  True when newly added.
    pub fn insert_script(&mut self, s: Vec<u8>) -> (r: bool)
        requires
            old(self).wf(),
        ensures
            final(self).wf(),
            r == !old(self).watches(s@),
            !r ==> final(self).scripts@ == old(self).scripts@,
            forall|x: Seq<u8>|
                final(self).watches(x) == (old(self).watches(x) || x == s@),
            final(self).txs@ == old(self).txs@,
            final(self).anchors@ == old(self).anchors@,
            final(self).last_seen@ == old(self).last_seen@,
            final(self).last_evicted@ == old(self).last_evicted@,
            final(self).indexed@ == old(self).indexed@,
    {
        if self.is_tracked(&s) {
            return false;
        }
        let ghost prev = *self;
        self.scripts.push(s);
        proof {
            assert(self.scripts_seq() =~= prev.scripts_seq().push(self.scripts@.last()@));
            assert forall|x: Seq<u8>|
                final(self).watches(x) == (prev.watches(x) || x
                    == self.scripts@.last()@) by {
                let ss = self.scripts_seq();
                if prev.watches(x) {
                    let l2 = choose|l2: int|
                        0 <= l2 < prev.scripts_seq().len() && prev.scripts_seq()[l2] == x;
                    assert(ss[l2] == x);
                }
                if x == self.scripts@.last()@ {
                    assert(ss[ss.len() - 1] == x);
                }
                if self.watches(x) {
                    let l2 = choose|l2: int| 0 <= l2 < ss.len() && ss[l2] == x;
                    if l2 < ss.len() - 1 {
                        assert(prev.scripts_seq()[l2] == x);
                    }
                }
            }
            assert(self.txs_seq() == prev.txs_seq());
            assert(self.indexed_seq() == prev.indexed_seq());
            assert forall|l: int| 0 <= l < self.indexed_seq().len() implies self.entry_sound(
                (#[trigger] self.indexed_seq()[l]).0,
                self.indexed_seq()[l].1,
            ) by {
                assert(prev.entry_sound(prev.indexed_seq()[l].0, prev.indexed_seq()[l].1));
            }
        }
        true
    }
}

/// Largest recorded time for a txid in a timestamp log.
fn max_time(v: &Vec<(Vec<u8>, u64)>, txid: &Vec<u8>) -> (r: Option<u64>)
    ensures
        r == lk_max(v@.map_values(|p: (Vec<u8>, u64)| (p.0@, p.1)), txid@),
{
    let ghost vs = v@.map_values(|p: (Vec<u8>, u64)| (p.0@, p.1));
    let n = v.len();
    let mut acc: Option<u64> = None;
    let mut l: usize = 0;
    while l < n
        invariant
            l <= n,
            n == v@.len(),
            vs == v@.map_values(|p: (Vec<u8>, u64)| (p.0@, p.1)),
            acc == lk_max(vs.take(l as int), txid@),
        decreases n - l,
    {
        proof {
            assert(vs.take(l + 1).drop_last() =~= vs.take(l as int));
            assert(vs.take(l + 1).last() == vs[l as int]);
        }
        if bytes_eq(&v[l].0, txid) {
            let t = v[l].1;
            acc = match acc {
                None => Some(t),
                Some(m) => Some(if m >= t {
                    m
                } else {
                    t
                }),
            };
        }
        l += 1;
    }
    proof {
        assert(vs.take(n as int) =~= vs);
    }
    acc
}

/// Touching a watched script only grows with the index.
pub proof fn lemma_touches_monotone(g1: TxGraph, g2: TxGraph, t: TxV)
    requires
        g1.touches_watched(t),
        forall|x: Seq<u8>| g1.watches(x) ==> g2.watches(x),
        forall|op: OpV| g1.indexed_at(op) is Some ==> g2.indexed_at(op) is Some,
    ensures
        g2.touches_watched(t),
{
    if exists|oi: int| 0 <= oi < t.outputs.len() && g1.watches(t.outputs[oi].0) {
        let oi = choose|oi: int| 0 <= oi < t.outputs.len() && g1.watches(t.outputs[oi].0);
        assert(g2.watches(t.outputs[oi].0));
    } else {
        let ii = choose|ii: int| 0 <= ii < t.inputs.len() && g1.indexed_at(t.inputs[ii]) is Some;
        assert(g2.indexed_at(t.inputs[ii]) is Some);
    }
}

/// Relevance only grows: anything relevant to a smaller graph state is
/// relevant to a larger one.
pub proof fn lemma_relevant_monotone(g1: TxGraph, g2: TxGraph, t: TxV)
    requires
        g1.relevant(t),
        forall|x: Seq<u8>| g1.watches(x) ==> g2.watches(x),
        forall|op: OpV| g1.indexed_at(op) is Some ==> g2.indexed_at(op) is Some,
        forall|k: Seq<u8>| g1.tx_at(k) is Some ==> g2.tx_at(k) is Some,
    ensures
        g2.relevant(t),
{
    if exists|oi: int| 0 <= oi < t.outputs.len() && g1.watches(t.outputs[oi].0) {
        let oi = choose|oi: int| 0 <= oi < t.outputs.len() && g1.watches(t.outputs[oi].0);
        assert(g2.watches(t.outputs[oi].0));
    } else if exists|ii: int| 0 <= ii < t.inputs.len() && g1.indexed_at(t.inputs[ii]) is Some {
        let ii = choose|ii: int| 0 <= ii < t.inputs.len() && g1.indexed_at(t.inputs[ii]) is Some;
        assert(g2.indexed_at(t.inputs[ii]) is Some);
    } else {
        assert(g2.tx_at(t.txid) is Some);
    }
}

impl TxGraph {
    /// Records one block transaction if it is relevant: stores it when new,
    /// indexes its watched outputs, and anchors it to the block.
    fn insert_confirmed_tx(
        &mut self,
        t: &Tx,
        height: u32,
        bhash: &Vec<u8>,
        btime: u64,
        d: &mut ChangeSet,
    )
        requires
            old(self).wf(),
            t@.outputs.len() <= 0xffff_ffff,
        ensures
            final(self).wf(),
            final(self).scripts@ == old(self).scripts@,
            final(self).last_seen@ == old(self).last_seen@,
            final(self).last_evicted@ == old(self).last_evicted@,
            forall|k: Seq<u8>|
                final(self).tx_at(k) == (if old(self).relevant(t@) && old(self).tx_at(t@.txid)
                    is None && k == t@.txid {
                    Some(t@)
                } else {
                    old(self).tx_at(k)
                }),
            forall|x: AnchorV|
                final(self).has_anchor(x) == (old(self).has_anchor(x) || (old(self).relevant(t@)
                    && x == (AnchorV { txid: t@.txid, height, hash: bhash@, time: btime }))),
            forall|op: OpV|
                final(self).indexed_at(op) == (if old(self).relevant(t@) && old(self).tx_at(
                    t@.txid,
                ) is None && op.0 == t@.txid && op.1 < t@.outputs.len() && old(self).watches(
                    t@.outputs[op.1 as int].0,
                ) {
                    Some(t@.outputs[op.1 as int].0)
                } else {
                    old(self).indexed_at(op)
                }),
            final(d).chain@ == old(d).chain@,
            final(d).last_seen@ == old(d).last_seen@,
            final(d).last_evicted@ == old(d).last_evicted@,
            final(d).network == old(d).network,
            forall|k: Seq<u8>|
                lk(final(d).txs_seq(), k) == (if old(self).relevant(t@) && old(self).tx_at(t@.txid)
                    is None && k == t@.txid {
                    Some(t@)
                } else {
                    lk(old(d).txs_seq(), k)
                }),
            forall|x: AnchorV|
                final(d).anchors_seq().contains(x) == (old(d).anchors_seq().contains(x) || (old(self).relevant(t@) && !old(self).has_anchor(
                    AnchorV { txid: t@.txid, height, hash: bhash@, time: btime },
                ) && x == (AnchorV { txid: t@.txid, height, hash: bhash@, time: btime }))),
    {
        let rel = self.is_relevant(t);
        if !rel {
            return ;
        }
        let ghost pre = *self;
        let is_new = self.find_tx(&t.txid).is_none();
        if is_new {
            self.txs.push(clone_tx(t));
            d.txs.push(clone_tx(t));
            proof {
                assert(self.txs_seq() =~= pre.txs_seq().push((t@.txid, t@)));
                assert(d.txs_seq() =~= old(d).txs_seq().push((t@.txid, t@)));
                assert forall|k: Seq<u8>|
                    #![trigger lk(d.txs_seq(), k)]
                    #![trigger lk(old(d).txs_seq(), k)]
                    lk(d.txs_seq(), k) == (if k == t@.txid {
                        Some(t@)
                    } else {
                        lk(old(d).txs_seq(), k)
                    }) by {
                    assert(d.txs_seq().drop_last() =~= old(d).txs_seq());
                    assert(d.txs_seq().last() == (t@.txid, t@));
                }
                assert forall|k: Seq<u8>|
                    #![trigger self.tx_at(k)]
                    #![trigger old(self).tx_at(k)]
                    self.tx_at(k) == (if k == t@.txid {
                        Some(t@)
                    } else {
                        old(self).tx_at(k)
                    }) by {
                    assert(self.txs_seq().drop_last() =~= pre.txs_seq());
                    assert(self.txs_seq().last() == (t@.txid, t@));
                }
                assert(self.indexed_seq() == pre.indexed_seq());
                assert forall|w: u32| pre.indexed_at((t@.txid, w)) is None by {
                    if pre.indexed_at((t@.txid, w)) is Some {
                        let l = crate::chain::lemma_lk_some_index(pre.indexed_seq(), (t@.txid, w));
                        assert(pre.entry_sound(pre.indexed_seq()[l].0, pre.indexed_seq()[l].1));
                        assert(false);
                    }
                }
                assert(self.tx_at(t@.txid) == Some(t@));
                assert forall|k: Seq<u8>| k != t@.txid implies self.tx_at(k) == pre.tx_at(k) by {
                    assert(self.txs_seq().drop_last() =~= pre.txs_seq());
                }
                assert forall|l: int|
                    0 <= l < self.indexed_seq().len() implies self.entry_sound(
                    (#[trigger] self.indexed_seq()[l]).0,
                    self.indexed_seq()[l].1,
                ) by {
                    assert(pre.entry_sound(pre.indexed_seq()[l].0, pre.indexed_seq()[l].1));
                    let op = self.indexed_seq()[l].0;
                    assert(op.0 != t@.txid);
                    assert(self.tx_at(op.0) == pre.tx_at(op.0));
                }
                assert(self.wf());
            }
            let ghost mid = *self;
            proof {
                assert forall|w: u32| mid.indexed_at((t@.txid, w)) is None by {
                    assert(pre.indexed_at((t@.txid, w)) is None);
                    assert(mid.indexed_seq() == pre.indexed_seq());
                }
            }
            let n = t.outputs.len();
            let mut oi: usize = 0;
            while oi < n
                invariant
                    n == t.outputs@.len(),
                    n <= 0xffff_ffff,
                    oi <= n,
                    mid.txs@ == self.txs@,
                    mid.anchors@ == self.anchors@,
                    mid.last_seen@ == self.last_seen@,
                    mid.last_evicted@ == self.last_evicted@,
                    mid.scripts@ == self.scripts@,
                    mid.wf(),
                    self.wf(),
                    mid.tx_at(t@.txid) == Some(t@),
                    forall|w: u32| mid.indexed_at((t@.txid, w)) is None,
                    forall|op: OpV|
                        self.indexed_at(op) == (if op.0 == t@.txid && op.1 < oi && mid.watches(
                            t@.outputs[op.1 as int].0,
                        ) {
                            Some(t@.outputs[op.1 as int].0)
                        } else {
                            mid.indexed_at(op)
                        }),
                decreases n - oi,
            {
                if self.is_tracked(&t.outputs[oi].script) {
                    let op = OutPoint { txid: clone_bytes(&t.txid), vout: oi as u32 };
                    let ghost prev2 = *self;
                    self.indexed.push((op, clone_bytes(&t.outputs[oi].script)));
                    proof {
                        assert(self.indexed_seq() =~= prev2.indexed_seq().push(
                            ((t@.txid, oi as u32), t@.outputs[oi as int].0),
                        ));
                        assert(self.txs_seq() == prev2.txs_seq());
                        assert forall|l: int|
                            0 <= l < self.indexed_seq().len() implies self.entry_sound(
                            (#[trigger] self.indexed_seq()[l]).0,
                            self.indexed_seq()[l].1,
                        ) by {
                            if l < self.indexed_seq().len() - 1 {
                                assert(prev2.entry_sound(
                                    prev2.indexed_seq()[l].0,
                                    prev2.indexed_seq()[l].1,
                                ));
                            } else {
                                assert(self.tx_at(t@.txid) == Some(t@));
                            }
                        }
                        assert(self.indexed_at((t@.txid, oi as u32)) == Some(
                            t@.outputs[oi as int].0,
                        ));
                        assert forall|op2: OpV| op2 != ((t@.txid, oi as u32)) implies self.indexed_at(
                            op2,
                        ) == prev2.indexed_at(op2) by {
                            assert(self.indexed_seq().drop_last() =~= prev2.indexed_seq());
                        }
                        assert forall|op2: OpV|
                            self.indexed_at(op2) == (if op2.0 == t@.txid && op2.1 < oi + 1
                                && mid.watches(t@.outputs[op2.1 as int].0) {
                                Some(t@.outputs[op2.1 as int].0)
                            } else {
                                mid.indexed_at(op2)
                            }) by {
                            if op2 == ((t@.txid, oi as u32)) {
                                assert(mid.scripts_seq() == self.scripts_seq());
                                assert(mid.watches(t@.outputs[oi as int].0));
                                assert(op2.1 == oi as u32);
                                assert(oi as u32 == oi);
                                assert(self.indexed_at(op2) == Some(t@.outputs[op2.1 as int].0));
                            } else {
                                assert(self.indexed_at(op2) == prev2.indexed_at(op2));
                                assert(prev2.indexed_at(op2) == (if op2.0 == t@.txid && op2.1 < oi
                                    && mid.watches(t@.outputs[op2.1 as int].0) {
                                    Some(t@.outputs[op2.1 as int].0)
                                } else {
                                    mid.indexed_at(op2)
                                }));
                                if op2.0 == t@.txid && op2.1 < oi + 1 && mid.watches(
                                    t@.outputs[op2.1 as int].0,
                                ) {
                                    assert(op2.1 != oi as u32);
                                    assert(oi as u32 == oi);
                                    assert(op2.1 < oi);
                                }
                            }
                        }
                    }
                } else {
                    proof {
                        assert(mid.scripts_seq() == self.scripts_seq());
                        assert forall|op2: OpV|
                            self.indexed_at(op2) == (if op2.0 == t@.txid && op2.1 < oi + 1
                                && mid.watches(t@.outputs[op2.1 as int].0) {
                                Some(t@.outputs[op2.1 as int].0)
                            } else {
                                mid.indexed_at(op2)
                            }) by {
                            if op2.0 == t@.txid && op2.1 < oi + 1 && mid.watches(
                                t@.outputs[op2.1 as int].0,
                            ) {
                                assert(op2.1 != oi as u32);
                                assert(op2.1 < oi);
                            }
                        }
                    }
                }
                oi += 1;
            }
            proof {
                assert forall|op: OpV|
                    self.indexed_at(op) == (if op.0 == t@.txid && op.1 < t@.outputs.len()
                        && mid.watches(t@.outputs[op.1 as int].0) {
                        Some(t@.outputs[op.1 as int].0)
                    } else {
                        mid.indexed_at(op)
                    }) by {
                    if op.0 == t@.txid && op.1 < t@.outputs.len() {
                        assert(op.1 < n);
                    }
                }
                assert forall|op: OpV|
                    #![trigger self.indexed_at(op)]
                    #![trigger old(self).indexed_at(op)]
                    self.indexed_at(op) == (if op.0 == t@.txid && op.1 < t@.outputs.len() && old(self).watches(t@.outputs[op.1 as int].0) {
                        Some(t@.outputs[op.1 as int].0)
                    } else {
                        old(self).indexed_at(op)
                    }) by {
                    assert(mid.scripts_seq() == old(self).scripts_seq());
                    assert(mid.indexed_seq() == old(self).indexed_seq());
                    assert(mid.watches(t@.outputs[op.1 as int].0) == old(self).watches(
                        t@.outputs[op.1 as int].0,
                    ));
                    assert(mid.indexed_at(op) == old(self).indexed_at(op));
                }
            }
        }
        let a = Anchor {
            txid: clone_bytes(&t.txid),
            height,
            hash: clone_bytes(bhash),
            time: btime,
        };
        let ghost av = a@;
        proof {
            assert(av == (AnchorV { txid: t@.txid, height, hash: bhash@, time: btime }));
            assert(self.anchors_seq() == old(self).anchors_seq());
        }
        if !self.has_anchor_exec(&a) {
            let a2 = Anchor {
                txid: clone_bytes(&a.txid),
                height: a.height,
                hash: clone_bytes(&a.hash),
                time: a.time,
            };
            let ghost prev3 = *self;
            self.anchors.push(a);
            d.anchors.push(a2);
            proof {
                assert(self.anchors_seq() =~= prev3.anchors_seq().push(av));
                assert(d.anchors_seq() =~= old(d).anchors_seq().push(av));
                assert(prev3.anchors_seq() == old(self).anchors_seq());
                assert forall|x: AnchorV|
                    self.has_anchor(x) == (old(self).has_anchor(x) || (old(self).relevant(t@) && x
                        == av)) by {
                    lemma_contains_push(prev3.anchors_seq(), av, x);
                    assert(self.anchors_seq() == prev3.anchors_seq().push(av));
                }
                assert forall|x: AnchorV|
                    d.anchors_seq().contains(x) == (old(d).anchors_seq().contains(x) || (old(self).relevant(t@) && !old(self).has_anchor(av) && x == av)) by {
                    lemma_contains_push(old(d).anchors_seq(), av, x);
                }
            }
        } else {
            proof {
                assert(old(self).has_anchor(av));
                assert forall|x: AnchorV|
                    self.has_anchor(x) == (old(self).has_anchor(x) || (old(self).relevant(t@) && x
                        == av)) by {
                    if x == av {
                    }
                }
                assert(d.anchors_seq() == old(d).anchors_seq());
            }
        }
    }
}

/// Membership in a pushed sequence.
pub proof fn lemma_contains_push<A>(s: Seq<A>, e: A, x: A)
    ensures
        s.push(e).contains(x) == (s.contains(x) || x == e),
{
    if s.contains(x) {
        let l = choose|l: int| 0 <= l < s.len() && s[l] == x;
        assert(s.push(e)[l] == x);
    }
    if x == e {
        assert(s.push(e)[s.len() as int] == x);
    }
    if s.push(e).contains(x) {
        let l = choose|l: int| 0 <= l < s.push(e).len() && s.push(e)[l] == x;
        if l < s.len() {
            assert(s[l] == x);
        }
    }
}

impl TxGraph {
    /// Scans a block's transactions and records every relevant one with a
    /// confirmed position: (height, block hash, block time).  Transactions
    /// touching no watched script and spending no indexed output are ignored
    /// entirely.  The returned changeset holds exactly the new transactions
    /// and the new anchors; merged over the previous state it reproduces the
    /// new one.
    pub fn apply_block_relevant(
        &mut self,
        btxs: &Vec<Tx>,
        height: u32,
        bhash: &Vec<u8>,
        btime: u64,
    ) -> (d: ChangeSet)
        requires
            old(self).wf(),
            forall|l: int|
                0 <= l < btxs@.len() ==> (#[trigger] btxs@[l])@.outputs.len() <= 0xffff_ffff,
        ensures
            final(self).wf(),
            final(self).scripts@ == old(self).scripts@,
            final(self).last_seen@ == old(self).last_seen@,
            final(self).last_evicted@ == old(self).last_evicted@,
            forall|k: Seq<u8>|
                #![trigger final(self).tx_at(k)]
                #![trigger old(self).tx_at(k)]
                final(self).tx_at(k) == or_opt(old(self).tx_at(k), lk(d.txs_seq(), k)),
            forall|x: AnchorV|
                #![trigger final(self).has_anchor(x)]
                #![trigger old(self).has_anchor(x)]
                final(self).has_anchor(x) == (old(self).has_anchor(x)
                    || d.anchors_seq().contains(x)),
            d.chain@.len() == 0,
            d.last_seen@.len() == 0,
            d.last_evicted@.len() == 0,
            d.network is None,
            forall|op: OpV|
                #![trigger final(self).indexed_at(op)]
                #![trigger old(self).indexed_at(op)]
                old(self).indexed_at(op) is Some ==> final(self).indexed_at(op) == old(self).indexed_at(op),
            forall|l: int|
                0 <= l < btxs@.len() && old(self).relevant((#[trigger] btxs@[l])@) ==> final(self).tx_at(
                    btxs@[l]@.txid,
                ) is Some,
            forall|l: int|
                0 <= l < btxs@.len() && final(self).tx_at((#[trigger] btxs@[l])@.txid) is Some
                    ==> final(self).has_anchor(
                    AnchorV { txid: btxs@[l]@.txid, height, hash: bhash@, time: btime },
                ),
            forall|k: Seq<u8>|
                #![trigger lk(d.txs_seq(), k)]
                lk(d.txs_seq(), k) is Some ==> old(self).tx_at(k) is None && exists|l: int|
                    0 <= l < btxs@.len() && btxs@[l]@.txid == k && lk(d.txs_seq(), k) == Some(
                        btxs@[l]@,
                    ) && final(self).touches_watched(btxs@[l]@),
            forall|k: Seq<u8>, oi: u32|
                old(self).tx_at(k) is None && final(self).tx_at(k) is Some && oi < final(self).tx_at(k).unwrap().outputs.len() && old(self).watches(
                    final(self).tx_at(k).unwrap().outputs[oi as int].0,
                ) ==> (#[trigger] final(self).indexed_at((k, oi))) == Some(
                    final(self).tx_at(k).unwrap().outputs[oi as int].0,
                ),
            forall|x: AnchorV|
                #![trigger d.anchors_seq().contains(x)]
                d.anchors_seq().contains(x) ==> exists|l: int|
                    0 <= l < btxs@.len() && x == (AnchorV {
                        txid: btxs@[l]@.txid,
                        height,
                        hash: bhash@,
                        time: btime,
                    }),
    {
        let ghost pre = *self;
        let mut d = ChangeSet::empty();
        proof {
            assert(d.txs_seq() =~= Seq::<(Seq<u8>, TxV)>::empty());
            assert(d.anchors_seq() =~= Seq::<AnchorV>::empty());
        }
        let n = btxs.len();
        let mut l: usize = 0;
        while l < n
            invariant
                n == btxs@.len(),
                l <= n,
                pre.wf(),
                self.wf(),
                forall|l2: int|
                    0 <= l2 < btxs@.len() ==> (#[trigger] btxs@[l2])@.outputs.len()
                        <= 0xffff_ffff,
                self.scripts@ == pre.scripts@,
                self.last_seen@ == pre.last_seen@,
                self.last_evicted@ == pre.last_evicted@,
                forall|k: Seq<u8>|
                    #![trigger self.tx_at(k)]
                    #![trigger pre.tx_at(k)]
                    self.tx_at(k) == or_opt(pre.tx_at(k), lk(d.txs_seq(), k)),
                forall|x: AnchorV|
                    #![trigger self.has_anchor(x)]
                    #![trigger pre.has_anchor(x)]
                    self.has_anchor(x) == (pre.has_anchor(x) || d.anchors_seq().contains(x)),
                d.chain@.len() == 0,
                d.last_seen@.len() == 0,
                d.last_evicted@.len() == 0,
                d.network is None,
                forall|op: OpV|
                    #![trigger self.indexed_at(op)]
                    #![trigger pre.indexed_at(op)]
                    pre.indexed_at(op) is Some ==> self.indexed_at(op) == pre.indexed_at(op),
                forall|l2: int|
                    0 <= l2 < l && pre.relevant((#[trigger] btxs@[l2])@) ==> self.tx_at(
                        btxs@[l2]@.txid,
                    ) is Some,
                forall|l2: int|
                    0 <= l2 < l && self.tx_at((#[trigger] btxs@[l2])@.txid) is Some
                        ==> self.has_anchor(
                        AnchorV { txid: btxs@[l2]@.txid, height, hash: bhash@, time: btime },
                    ),
                forall|k: Seq<u8>|
                    #![trigger lk(d.txs_seq(), k)]
                    lk(d.txs_seq(), k) is Some ==> pre.tx_at(k) is None && exists|l2: int|
                        0 <= l2 < l && btxs@[l2]@.txid == k && lk(d.txs_seq(), k) == Some(
                            btxs@[l2]@,
                        ) && self.touches_watched(btxs@[l2]@),
                forall|k: Seq<u8>, oi: u32|
                    pre.tx_at(k) is None && self.tx_at(k) is Some && oi < self.tx_at(
                        k,
                    ).unwrap().outputs.len() && pre.watches(
                        self.tx_at(k).unwrap().outputs[oi as int].0,
                    ) ==> (#[trigger] self.indexed_at((k, oi))) == Some(
                        self.tx_at(k).unwrap().outputs[oi as int].0,
                    ),
                forall|x: AnchorV|
                    #![trigger d.anchors_seq().contains(x)]
                    d.anchors_seq().contains(x) ==> exists|l2: int|
                        0 <= l2 < l && x == (AnchorV {
                            txid: btxs@[l2]@.txid,
                            height,
                            hash: bhash@,
                            time: btime,
                        }),
            decreases n - l,
        {
            let ghost gp = *self;
            let ghost dp = d;
            let ghost t = btxs@[l as int]@;
            let ghost av = AnchorV { txid: t.txid, height, hash: bhash@, time: btime };
            self.insert_confirmed_tx(&btxs[l], height, bhash, btime, &mut d);
            proof {
                let ins = gp.relevant(t) && gp.tx_at(t.txid) is None;
                // everything the step may add keeps earlier facts
                assert forall|k: Seq<u8>| gp.tx_at(k) is Some implies self.tx_at(k)
                    == gp.tx_at(k) by {
                    assert(self.tx_at(k) == (if ins && k == t.txid {
                        Some(t)
                    } else {
                        gp.tx_at(k)
                    }));
                }
                assert forall|k: Seq<u8>|
                    #![trigger self.tx_at(k)]
                    #![trigger pre.tx_at(k)]
                    self.tx_at(k) == or_opt(pre.tx_at(k), lk(d.txs_seq(), k)) by {
                    assert(self.tx_at(k) == (if ins && k == t.txid {
                        Some(t)
                    } else {
                        gp.tx_at(k)
                    }));
                    assert(lk(d.txs_seq(), k) == (if ins && k == t.txid {
                        Some(t)
                    } else {
                        lk(dp.txs_seq(), k)
                    }));
                    assert(gp.tx_at(k) == or_opt(pre.tx_at(k), lk(dp.txs_seq(), k)));
                }
                assert forall|x: AnchorV|
                    #![trigger self.has_anchor(x)]
                    #![trigger pre.has_anchor(x)]
                    self.has_anchor(x) == (pre.has_anchor(x) || d.anchors_seq().contains(
                        x,
                    )) by {
                    assert(self.has_anchor(x) == (gp.has_anchor(x) || (gp.relevant(t) && x
                        == av)));
                    assert(d.anchors_seq().contains(x) == (dp.anchors_seq().contains(x) || (
                    gp.relevant(t) && !gp.has_anchor(av) && x == av)));
                    assert(gp.has_anchor(x) == (pre.has_anchor(x) || dp.anchors_seq().contains(
                        x,
                    )));
                }
                assert forall|op: OpV| pre.indexed_at(op) is Some implies self.indexed_at(op)
                    == pre.indexed_at(op) by {
                    assert(gp.indexed_at(op) == pre.indexed_at(op));
                    assert(pre.entry_sound(op, pre.indexed_at(op).unwrap())) by {
                        let w = crate::chain::lemma_lk_some_index(pre.indexed_seq(), op);
                        assert(pre.indexed_seq()[w].0 == op);
                    }
                    assert(pre.tx_at(op.0) is Some);
                    assert(gp.tx_at(op.0) is Some);
                    if ins && op.0 == t.txid {
                        assert(false);
                    }
                    assert(self.indexed_at(op) == gp.indexed_at(op));
                }
                assert forall|x: AnchorV|
                    #![trigger d.anchors_seq().contains(x)]
                    d.anchors_seq().contains(x) implies exists|l2: int|
                    0 <= l2 < l + 1 && x == (AnchorV {
                        txid: btxs@[l2]@.txid,
                        height,
                        hash: bhash@,
                        time: btime,
                    }) by {
                    assert(d.anchors_seq().contains(x) == (dp.anchors_seq().contains(x) || (
                    gp.relevant(t) && !gp.has_anchor(av) && x == av)));
                    if dp.anchors_seq().contains(x) {
                        let l2 = choose|l2: int|
                            0 <= l2 < l && x == (AnchorV {
                                txid: btxs@[l2]@.txid,
                                height,
                                hash: bhash@,
                                time: btime,
                            });
                        assert(0 <= l2 < l + 1 && x == (AnchorV {
                            txid: btxs@[l2]@.txid,
                            height,
                            hash: bhash@,
                            time: btime,
                        }));
                    } else {
                        assert(x == av);
                        assert(0 <= l < l + 1 && x == (AnchorV {
                            txid: btxs@[l as int]@.txid,
                            height,
                            hash: bhash@,
                            time: btime,
                        }));
                    }
                }
                // relevance is monotone from pre through gp to the new state
                assert forall|l2: int|
                    0 <= l2 < l + 1 && pre.relevant((#[trigger] btxs@[l2])@) implies self.tx_at(
                        btxs@[l2]@.txid,
                    ) is Some by {
                    if l2 < l {
                        assert(gp.tx_at(btxs@[l2]@.txid) is Some);
                        assert(self.tx_at(btxs@[l2]@.txid) == (if ins && btxs@[l2]@.txid
                            == t.txid {
                            Some(t)
                        } else {
                            gp.tx_at(btxs@[l2]@.txid)
                        }));
                    } else {
                        assert forall|x: Seq<u8>| pre.watches(x) implies gp.watches(x) by {
                            assert(gp.scripts_seq() == pre.scripts_seq());
                        }
                        assert forall|op: OpV| pre.indexed_at(op) is Some implies gp.indexed_at(
                            op,
                        ) is Some by {}
                        assert forall|k: Seq<u8>| pre.tx_at(k) is Some implies gp.tx_at(k)
                            is Some by {
                            assert(gp.tx_at(k) == or_opt(pre.tx_at(k), lk(dp.txs_seq(), k)));
                        }
                        lemma_relevant_monotone(pre, gp, t);
                        assert(gp.relevant(t));
                        assert(self.tx_at(t.txid) == (if ins && t.txid == t.txid {
                            Some(t)
                        } else {
                            gp.tx_at(t.txid)
                        }));
                    }
                }
                assert forall|l2: int|
                    0 <= l2 < l + 1 && self.tx_at((#[trigger] btxs@[l2])@.txid)
                        is Some implies self.has_anchor(
                        AnchorV { txid: btxs@[l2]@.txid, height, hash: bhash@, time: btime },
                    ) by {
                    let k2 = btxs@[l2]@.txid;
                    let av2 = AnchorV { txid: k2, height, hash: bhash@, time: btime };
                    assert(self.tx_at(k2) == (if ins && k2 == t.txid {
                        Some(t)
                    } else {
                        gp.tx_at(k2)
                    }));
                    assert(self.has_anchor(av2) == (gp.has_anchor(av2) || (gp.relevant(t) && av2
                        == av)));
                    if ins && k2 == t.txid {
                        assert(av2 == av);
                    } else {
                        assert(gp.tx_at(k2) is Some);
                        if l2 < l {
                            assert(gp.has_anchor(av2));
                        } else {
                            assert(k2 == t.txid);
                            assert(gp.relevant(t));
                            assert(av2 == av);
                        }
                    }
                }
                // monotone premises from gp to the new state
                assert forall|x: Seq<u8>| gp.watches(x) implies self.watches(x) by {
                    assert(self.scripts_seq() == gp.scripts_seq());
                }
                assert forall|op: OpV| gp.indexed_at(op) is Some implies self.indexed_at(op)
                    is Some by {
                    assert(self.indexed_at(op) == (if ins && op.0 == t.txid && op.1
                        < t.outputs.len() && gp.watches(t.outputs[op.1 as int].0) {
                        Some(t.outputs[op.1 as int].0)
                    } else {
                        gp.indexed_at(op)
                    }));
                }
                assert forall|k: Seq<u8>| gp.tx_at(k) is Some implies self.tx_at(k) is Some by {}
                assert forall|k: Seq<u8>| #![trigger lk(d.txs_seq(), k)]
                    lk(d.txs_seq(), k) is Some implies pre.tx_at(k) is None && exists|l2: int|
                        0 <= l2 < l + 1 && btxs@[l2]@.txid == k && lk(d.txs_seq(), k) == Some(
                            btxs@[l2]@,
                        ) && self.touches_watched(btxs@[l2]@) by {
                    assert(lk(d.txs_seq(), k) == (if ins && k == t.txid {
                        Some(t)
                    } else {
                        lk(dp.txs_seq(), k)
                    }));
                    if ins && k == t.txid {
                        assert(gp.tx_at(k) is None);
                        assert(gp.tx_at(k) == or_opt(pre.tx_at(k), lk(dp.txs_seq(), k)));
                        assert(pre.tx_at(k) is None);
                        assert(gp.touches_watched(t));
                        lemma_touches_monotone(gp, *self, t);
                        assert(btxs@[l as int]@.txid == k && lk(d.txs_seq(), k) == Some(
                            btxs@[l as int]@,
                        ) && self.touches_watched(btxs@[l as int]@));
                    } else {
                        let l2 = choose|l2: int|
                            0 <= l2 < l && btxs@[l2]@.txid == k && lk(dp.txs_seq(), k) == Some(
                                btxs@[l2]@,
                            ) && gp.touches_watched(btxs@[l2]@);
                        lemma_touches_monotone(gp, *self, btxs@[l2]@);
                        assert(0 <= l2 < l + 1 && btxs@[l2]@.txid == k && lk(d.txs_seq(), k)
                            == Some(btxs@[l2]@) && self.touches_watched(btxs@[l2]@));
                    }
                }
                assert forall|k: Seq<u8>, oi: u32|
                    pre.tx_at(k) is None && self.tx_at(k) is Some && oi < self.tx_at(
                        k,
                    ).unwrap().outputs.len() && pre.watches(
                        self.tx_at(k).unwrap().outputs[oi as int].0,
                    ) implies (#[trigger] self.indexed_at((k, oi))) == Some(
                    self.tx_at(k).unwrap().outputs[oi as int].0,
                ) by {
                    assert(self.tx_at(k) == (if ins && k == t.txid {
                        Some(t)
                    } else {
                        gp.tx_at(k)
                    }));
                    assert(gp.scripts_seq() == pre.scripts_seq());
                    if ins && k == t.txid {
                        assert(pre.watches(t.outputs[oi as int].0) == gp.watches(
                            t.outputs[oi as int].0,
                        ));
                        assert(gp.watches(t.outputs[oi as int].0));
                        assert(self.indexed_at((k, oi)) == Some(t.outputs[oi as int].0));
                    } else {
                        assert(gp.tx_at(k) is Some);
                        assert(gp.indexed_at((k, oi)) == Some(
                            gp.tx_at(k).unwrap().outputs[oi as int].0,
                        ));
                        assert(self.indexed_at((k, oi)) == gp.indexed_at((k, oi)));
                    }
                }
            }
            l += 1;
        }
        d
    }
}

impl TxGraph {
    /// Records one mempool transaction if it is relevant: stores it when
    /// new, indexes its watched outputs, and raises its last-seen time.
    fn insert_unconfirmed_tx(&mut self, t: &Tx, time: u64, d: &mut ChangeSet)
        requires
            old(self).wf(),
            t@.outputs.len() <= 0xffff_ffff,
        ensures
            final(self).wf(),
            final(self).scripts@ == old(self).scripts@,
            final(self).anchors@ == old(self).anchors@,
            final(self).last_evicted@ == old(self).last_evicted@,
            forall|k: Seq<u8>|
                #![trigger final(self).tx_at(k)]
                #![trigger old(self).tx_at(k)]
                final(self).tx_at(k) == (if old(self).relevant(t@) && old(self).tx_at(t@.txid)
                    is None && k == t@.txid {
                    Some(t@)
                } else {
                    old(self).tx_at(k)
                }),
            forall|op: OpV|
                #![trigger final(self).indexed_at(op)]
                #![trigger old(self).indexed_at(op)]
                final(self).indexed_at(op) == (if old(self).relevant(t@) && old(self).tx_at(
                    t@.txid,
                ) is None && op.0 == t@.txid && op.1 < t@.outputs.len() && old(self).watches(
                    t@.outputs[op.1 as int].0,
                ) {
                    Some(t@.outputs[op.1 as int].0)
                } else {
                    old(self).indexed_at(op)
                }),
            forall|k: Seq<u8>|
                #![trigger final(self).seen_at(k)]
                #![trigger old(self).seen_at(k)]
                final(self).seen_at(k) == (if old(self).relevant(t@) && k == t@.txid {
                    max_opt(old(self).seen_at(k), Some(time))
                } else {
                    old(self).seen_at(k)
                }),
            final(d).chain@ == old(d).chain@,
            final(d).anchors@ == old(d).anchors@,
            final(d).last_evicted@ == old(d).last_evicted@,
            final(d).network == old(d).network,
            forall|k: Seq<u8>|
                #![trigger lk(final(d).txs_seq(), k)]
                #![trigger lk(old(d).txs_seq(), k)]
                lk(final(d).txs_seq(), k) == (if old(self).relevant(t@) && old(self).tx_at(t@.txid)
                    is None && k == t@.txid {
                    Some(t@)
                } else {
                    lk(old(d).txs_seq(), k)
                }),
            forall|k: Seq<u8>|
                #![trigger lk_max(final(d).seen_seq(), k)]
                #![trigger lk_max(old(d).seen_seq(), k)]
                lk_max(final(d).seen_seq(), k) == (if old(self).relevant(t@) && k == t@.txid && (
                old(self).seen_at(k) is None || time > old(self).seen_at(k).unwrap()) {
                    max_opt(lk_max(old(d).seen_seq(), k), Some(time))
                } else {
                    lk_max(old(d).seen_seq(), k)
                }),
    {
        let rel = self.is_relevant(t);
        if !rel {
            return ;
        }
        let ghost pre = *self;
        let is_new = self.find_tx(&t.txid).is_none();
        if is_new {
            self.txs.push(clone_tx(t));
            d.txs.push(clone_tx(t));
            proof {
                assert(self.txs_seq() =~= pre.txs_seq().push((t@.txid, t@)));
                assert(d.txs_seq() =~= old(d).txs_seq().push((t@.txid, t@)));
                assert forall|k: Seq<u8>|
                    #![trigger lk(d.txs_seq(), k)]
                    #![trigger lk(old(d).txs_seq(), k)]
                    lk(d.txs_seq(), k) == (if k == t@.txid {
                        Some(t@)
                    } else {
                        lk(old(d).txs_seq(), k)
                    }) by {
                    assert(d.txs_seq().drop_last() =~= old(d).txs_seq());
                    assert(d.txs_seq().last() == (t@.txid, t@));
                }
                assert forall|k: Seq<u8>|
                    #![trigger self.tx_at(k)]
                    #![trigger old(self).tx_at(k)]
                    self.tx_at(k) == (if k == t@.txid {
                        Some(t@)
                    } else {
                        old(self).tx_at(k)
                    }) by {
                    assert(self.txs_seq().drop_last() =~= pre.txs_seq());
                    assert(self.txs_seq().last() == (t@.txid, t@));
                }
                assert forall|w: u32| pre.indexed_at((t@.txid, w)) is None by {
                    if pre.indexed_at((t@.txid, w)) is Some {
                        let l = crate::chain::lemma_lk_some_index(pre.indexed_seq(), (t@.txid, w));
                        assert(pre.entry_sound(pre.indexed_seq()[l].0, pre.indexed_seq()[l].1));
                        assert(false);
                    }
                }
                assert(self.tx_at(t@.txid) == Some(t@));
                assert forall|k: Seq<u8>| k != t@.txid implies self.tx_at(k) == pre.tx_at(k) by {
                    assert(self.txs_seq().drop_last() =~= pre.txs_seq());
                }
                assert forall|l: int|
                    0 <= l < self.indexed_seq().len() implies self.entry_sound(
                    (#[trigger] self.indexed_seq()[l]).0,
                    self.indexed_seq()[l].1,
                ) by {
                    assert(pre.entry_sound(pre.indexed_seq()[l].0, pre.indexed_seq()[l].1));
                    let op = self.indexed_seq()[l].0;
                    assert(op.0 != t@.txid);
                    assert(self.tx_at(op.0) == pre.tx_at(op.0));
                }
                assert(self.wf());
            }
            let ghost mid = *self;
            proof {
                assert forall|w: u32| mid.indexed_at((t@.txid, w)) is None by {
                    assert(pre.indexed_at((t@.txid, w)) is None);
                    assert(mid.indexed_seq() == pre.indexed_seq());
                }
            }
            let n = t.outputs.len();
            let mut oi: usize = 0;
            while oi < n
                invariant
                    n == t.outputs@.len(),
                    n <= 0xffff_ffff,
                    oi <= n,
                    mid.txs@ == self.txs@,
                    mid.anchors@ == self.anchors@,
                    mid.last_seen@ == self.last_seen@,
                    mid.last_evicted@ == self.last_evicted@,
                    mid.scripts@ == self.scripts@,
                    mid.wf(),
                    self.wf(),
                    mid.tx_at(t@.txid) == Some(t@),
                    forall|w: u32| mid.indexed_at((t@.txid, w)) is None,
                    forall|op: OpV|
                        self.indexed_at(op) == (if op.0 == t@.txid && op.1 < oi && mid.watches(
                            t@.outputs[op.1 as int].0,
                        ) {
                            Some(t@.outputs[op.1 as int].0)
                        } else {
                            mid.indexed_at(op)
                        }),
                decreases n - oi,
            {
                if self.is_tracked(&t.outputs[oi].script) {
                    let op = OutPoint { txid: clone_bytes(&t.txid), vout: oi as u32 };
                    let ghost prev2 = *self;
                    self.indexed.push((op, clone_bytes(&t.outputs[oi].script)));
                    proof {
                        assert(self.indexed_seq() =~= prev2.indexed_seq().push(
                            ((t@.txid, oi as u32), t@.outputs[oi as int].0),
                        ));
                        assert(self.txs_seq() == prev2.txs_seq());
                        assert forall|l: int|
                            0 <= l < self.indexed_seq().len() implies self.entry_sound(
                            (#[trigger] self.indexed_seq()[l]).0,
                            self.indexed_seq()[l].1,
                        ) by {
                            if l < self.indexed_seq().len() - 1 {
                                assert(prev2.entry_sound(
                                    prev2.indexed_seq()[l].0,
                                    prev2.indexed_seq()[l].1,
                                ));
                            } else {
                                assert(self.tx_at(t@.txid) == Some(t@));
                            }
                        }
                        assert(self.indexed_at((t@.txid, oi as u32)) == Some(
                            t@.outputs[oi as int].0,
                        ));
                        assert forall|op2: OpV| op2 != ((t@.txid, oi as u32)) implies self.indexed_at(
                            op2,
                        ) == prev2.indexed_at(op2) by {
                            assert(self.indexed_seq().drop_last() =~= prev2.indexed_seq());
                        }
                        assert forall|op2: OpV|
                            self.indexed_at(op2) == (if op2.0 == t@.txid && op2.1 < oi + 1
                                && mid.watches(t@.outputs[op2.1 as int].0) {
                                Some(t@.outputs[op2.1 as int].0)
                            } else {
                                mid.indexed_at(op2)
                            }) by {
                            if op2 == ((t@.txid, oi as u32)) {
                                assert(mid.scripts_seq() == self.scripts_seq());
                                assert(mid.watches(t@.outputs[oi as int].0));
                            } else {
                                assert(self.indexed_at(op2) == prev2.indexed_at(op2));
                                if op2.0 == t@.txid && op2.1 < oi + 1 && mid.watches(
                                    t@.outputs[op2.1 as int].0,
                                ) {
                                    assert(op2.1 != oi as u32);
                                    assert(oi as u32 == oi);
                                    assert(op2.1 < oi);
                                }
                            }
                        }
                    }
                } else {
                    proof {
                        assert(mid.scripts_seq() == self.scripts_seq());
                        assert forall|op2: OpV|
                            self.indexed_at(op2) == (if op2.0 == t@.txid && op2.1 < oi + 1
                                && mid.watches(t@.outputs[op2.1 as int].0) {
                                Some(t@.outputs[op2.1 as int].0)
                            } else {
                                mid.indexed_at(op2)
                            }) by {
                            if op2.0 == t@.txid && op2.1 < oi + 1 && mid.watches(
                                t@.outputs[op2.1 as int].0,
                            ) {
                                assert(op2.1 != oi as u32);
                                assert(oi as u32 == oi);
                                assert(op2.1 < oi);
                            }
                        }
                    }
                }
                oi += 1;
            }
            proof {
                assert forall|op: OpV|
                    #![trigger self.indexed_at(op)]
                    #![trigger old(self).indexed_at(op)]
                    self.indexed_at(op) == (if op.0 == t@.txid && op.1 < t@.outputs.len() && old(self).watches(t@.outputs[op.1 as int].0) {
                        Some(t@.outputs[op.1 as int].0)
                    } else {
                        old(self).indexed_at(op)
                    }) by {
                    if op.0 == t@.txid && op.1 < t@.outputs.len() {
                        assert(op.1 < n);
                    }
                    assert(mid.scripts_seq() == old(self).scripts_seq());
                    assert(mid.indexed_seq() == old(self).indexed_seq());
                    assert(mid.watches(t@.outputs[op.1 as int].0) == old(self).watches(
                        t@.outputs[op.1 as int].0,
                    ));
                    assert(mid.indexed_at(op) == old(self).indexed_at(op));
                }
            }
        }
        let ghost before_seen = *self;
        let cur = self.seen_max(&t.txid);
        let push = match cur {
            None => true,
            Some(m) => time > m,
        };
        if push {
            self.last_seen.push((clone_bytes(&t.txid), time));
            d.last_seen.push((clone_bytes(&t.txid), time));
        }
        proof {
            assert(before_seen.seen_seq() == old(self).seen_seq());
            if push {
                assert(self.seen_seq() =~= old(self).seen_seq().push((t@.txid, time)));
                assert(d.seen_seq() =~= old(d).seen_seq().push((t@.txid, time)));
            }
            assert forall|k: Seq<u8>|
                #![trigger self.seen_at(k)]
                #![trigger old(self).seen_at(k)]
                self.seen_at(k) == (if k == t@.txid {
                    max_opt(old(self).seen_at(k), Some(time))
                } else {
                    old(self).seen_at(k)
                }) by {
                if push {
                    lemma_lkmax_push(old(self).seen_seq(), (t@.txid, time), k);
                    assert(self.seen_seq() == old(self).seen_seq().push((t@.txid, time)));
                } else {
                    assert(self.seen_seq() == old(self).seen_seq());
                }
            }
            assert forall|k: Seq<u8>|
                #![trigger lk_max(d.seen_seq(), k)]
                #![trigger lk_max(old(d).seen_seq(), k)]
                lk_max(d.seen_seq(), k) == (if k == t@.txid && (old(self).seen_at(k) is None
                    || time > old(self).seen_at(k).unwrap()) {
                    max_opt(lk_max(old(d).seen_seq(), k), Some(time))
                } else {
                    lk_max(old(d).seen_seq(), k)
                }) by {
                if push {
                    lemma_lkmax_push(old(d).seen_seq(), (t@.txid, time), k);
                    assert(d.seen_seq() == old(d).seen_seq().push((t@.txid, time)));
                } else {
                    assert(d.seen_seq() == old(d).seen_seq());
                }
            }
        }
    }

    /// Records one eviction if the transaction is known: raises its eviction
    /// time.  A transaction whose confirmation still stands on the best
    /// chain keeps its canonical place regardless; eviction only competes
    /// with unconfirmed observations.
    fn evict_tx(&mut self, txid: &Vec<u8>, time: u64, d: &mut ChangeSet)
        requires
            old(self).wf(),
        ensures
            final(self).wf(),
            final(self).scripts@ == old(self).scripts@,
            final(self).anchors@ == old(self).anchors@,
            final(self).last_seen@ == old(self).last_seen@,
            final(self).txs@ == old(self).txs@,
            final(self).indexed@ == old(self).indexed@,
            forall|k: Seq<u8>|
                #![trigger final(self).evicted_at(k)]
                #![trigger old(self).evicted_at(k)]
                final(self).evicted_at(k) == (if old(self).tx_at(txid@) is Some && k == txid@ {
                    max_opt(old(self).evicted_at(k), Some(time))
                } else {
                    old(self).evicted_at(k)
                }),
            final(d).chain@ == old(d).chain@,
            final(d).txs@ == old(d).txs@,
            final(d).anchors@ == old(d).anchors@,
            final(d).last_seen@ == old(d).last_seen@,
            final(d).network == old(d).network,
            forall|k: Seq<u8>|
                #![trigger lk_max(final(d).evicted_seq(), k)]
                #![trigger lk_max(old(d).evicted_seq(), k)]
                lk_max(final(d).evicted_seq(), k) == (if old(self).tx_at(txid@) is Some && k
                    == txid@ && (old(self).evicted_at(k) is None || time > old(self).evicted_at(
                    k,
                ).unwrap()) {
                    max_opt(lk_max(old(d).evicted_seq(), k), Some(time))
                } else {
                    lk_max(old(d).evicted_seq(), k)
                }),
    {
        let known = self.find_tx(txid).is_some();
        if !known {
            return ;
        }
        let cur = self.evicted_max(txid);
        let push = match cur {
            None => true,
            Some(m) => time > m,
        };
        if push {
            self.last_evicted.push((clone_bytes(txid), time));
            d.last_evicted.push((clone_bytes(txid), time));
        }
        proof {
            if push {
                assert(self.evicted_seq() =~= old(self).evicted_seq().push((txid@, time)));
                assert(d.evicted_seq() =~= old(d).evicted_seq().push((txid@, time)));
            }
            assert forall|l: int|
                0 <= l < self.indexed_seq().len() implies self.entry_sound(
                (#[trigger] self.indexed_seq()[l]).0,
                self.indexed_seq()[l].1,
            ) by {
                assert(self.indexed_seq() == old(self).indexed_seq());
                assert(self.txs_seq() == old(self).txs_seq());
                assert(self.scripts_seq() == old(self).scripts_seq());
                assert(old(self).entry_sound(
                    old(self).indexed_seq()[l].0,
                    old(self).indexed_seq()[l].1,
                ));
            }
            assert forall|l: int|
                0 <= l < self.txs@.len() implies (#[trigger] self.txs@[l])@.outputs.len()
                <= 0xffff_ffff by {
                assert(self.txs@[l] == old(self).txs@[l]);
            }
            assert forall|k: Seq<u8>|
                #![trigger self.evicted_at(k)]
                #![trigger old(self).evicted_at(k)]
                self.evicted_at(k) == (if k == txid@ {
                    max_opt(old(self).evicted_at(k), Some(time))
                } else {
                    old(self).evicted_at(k)
                }) by {
                if push {
                    lemma_lkmax_push(old(self).evicted_seq(), (txid@, time), k);
                    assert(self.evicted_seq() == old(self).evicted_seq().push((txid@, time)));
                } else {
                    assert(self.evicted_seq() == old(self).evicted_seq());
                }
            }
            assert forall|k: Seq<u8>|
                #![trigger lk_max(d.evicted_seq(), k)]
                #![trigger lk_max(old(d).evicted_seq(), k)]
                lk_max(d.evicted_seq(), k) == (if k == txid@ && (old(self).evicted_at(k) is None
                    || time > old(self).evicted_at(k).unwrap()) {
                    max_opt(lk_max(old(d).evicted_seq(), k), Some(time))
                } else {
                    lk_max(old(d).evicted_seq(), k)
                }) by {
                if push {
                    lemma_lkmax_push(old(d).evicted_seq(), (txid@, time), k);
                    assert(d.evicted_seq() == old(d).evicted_seq().push((txid@, time)));
                } else {
                    assert(d.evicted_seq() == old(d).evicted_seq());
                }
            }
        }
    }
}

impl TxGraph {
    /// Records a batch of unconfirmed transactions with a last-seen
    /// timestamp each.  Relevant transactions are stored (if new) and their
    /// last-seen time raised; a transaction whose confirmed position is
    /// already recorded keeps it — last-seen never regresses, and confirmed
    /// status cannot be overridden from the mempool side.
    pub fn batch_insert_unconfirmed(&mut self, batch: &Vec<(Tx, u64)>) -> (d: ChangeSet)
        requires
            old(self).wf(),
            forall|l: int|
                0 <= l < batch@.len() ==> (#[trigger] batch@[l]).0@.outputs.len() <= 0xffff_ffff,
        ensures
            final(self).wf(),
            final(self).scripts@ == old(self).scripts@,
            final(self).anchors@ == old(self).anchors@,
            final(self).last_evicted@ == old(self).last_evicted@,
            forall|k: Seq<u8>|
                #![trigger final(self).tx_at(k)]
                #![trigger old(self).tx_at(k)]
                final(self).tx_at(k) == or_opt(old(self).tx_at(k), lk(d.txs_seq(), k)),
            forall|k: Seq<u8>|
                #![trigger final(self).seen_at(k)]
                #![trigger old(self).seen_at(k)]
                final(self).seen_at(k) == max_opt(old(self).seen_at(k), lk_max(d.seen_seq(), k)),
            forall|op: OpV|
                #![trigger final(self).indexed_at(op)]
                #![trigger old(self).indexed_at(op)]
                old(self).indexed_at(op) is Some ==> final(self).indexed_at(op) == old(self).indexed_at(op),
            d.chain@.len() == 0,
            d.anchors@.len() == 0,
            d.last_evicted@.len() == 0,
            d.network is None,
            forall|l: int|
                0 <= l < batch@.len() && old(self).relevant((#[trigger] batch@[l]).0@)
                    ==> final(self).tx_at(batch@[l].0@.txid) is Some && final(self).seen_at(
                    batch@[l].0@.txid,
                ) is Some && final(self).seen_at(batch@[l].0@.txid).unwrap() >= batch@[l].1,
            forall|k: Seq<u8>|
                #![trigger lk(d.txs_seq(), k)]
                lk(d.txs_seq(), k) is Some ==> old(self).tx_at(k) is None && exists|l: int|
                    0 <= l < batch@.len() && batch@[l].0@.txid == k && lk(d.txs_seq(), k) == Some(
                        batch@[l].0@,
                    ) && final(self).touches_watched(batch@[l].0@),
            forall|k: Seq<u8>, oi: u32|
                old(self).tx_at(k) is None && final(self).tx_at(k) is Some && oi < final(self).tx_at(
                    k,
                ).unwrap().outputs.len() && old(self).watches(
                    final(self).tx_at(k).unwrap().outputs[oi as int].0,
                ) ==> (#[trigger] final(self).indexed_at((k, oi))) == Some(
                    final(self).tx_at(k).unwrap().outputs[oi as int].0,
                ),
            forall|k: Seq<u8>|
                #![trigger lk_max(d.seen_seq(), k)]
                lk_max(d.seen_seq(), k) is Some ==> exists|l: int|
                    0 <= l < batch@.len() && batch@[l].0@.txid == k && lk_max(d.seen_seq(), k)
                        == Some(batch@[l].1),
    {
        let ghost pre = *self;
        let mut d = ChangeSet::empty();
        proof {
            assert(d.txs_seq() =~= Seq::<(Seq<u8>, TxV)>::empty());
            assert(d.seen_seq() =~= Seq::<(Seq<u8>, u64)>::empty());
        }
        let n = batch.len();
        let mut l: usize = 0;
        while l < n
            invariant
                n == batch@.len(),
                l <= n,
                pre.wf(),
                self.wf(),
                forall|l2: int|
                    0 <= l2 < batch@.len() ==> (#[trigger] batch@[l2]).0@.outputs.len()
                        <= 0xffff_ffff,
                self.scripts@ == pre.scripts@,
                self.anchors@ == pre.anchors@,
                self.last_evicted@ == pre.last_evicted@,
                forall|k: Seq<u8>|
                    #![trigger self.tx_at(k)]
                    #![trigger pre.tx_at(k)]
                    self.tx_at(k) == or_opt(pre.tx_at(k), lk(d.txs_seq(), k)),
                forall|k: Seq<u8>|
                    #![trigger self.seen_at(k)]
                    #![trigger pre.seen_at(k)]
                    self.seen_at(k) == max_opt(pre.seen_at(k), lk_max(d.seen_seq(), k)),
                d.chain@.len() == 0,
                d.anchors@.len() == 0,
                d.last_evicted@.len() == 0,
                d.network is None,
                forall|op: OpV|
                    #![trigger self.indexed_at(op)]
                    #![trigger pre.indexed_at(op)]
                    pre.indexed_at(op) is Some ==> self.indexed_at(op) == pre.indexed_at(op),
                forall|l2: int|
                    0 <= l2 < l && pre.relevant((#[trigger] batch@[l2]).0@) ==> self.tx_at(
                        batch@[l2].0@.txid,
                    ) is Some && self.seen_at(batch@[l2].0@.txid) is Some && self.seen_at(
                        batch@[l2].0@.txid,
                    ).unwrap() >= batch@[l2].1,
                forall|k: Seq<u8>|
                    #![trigger lk(d.txs_seq(), k)]
                    lk(d.txs_seq(), k) is Some ==> pre.tx_at(k) is None && exists|l2: int|
                        0 <= l2 < l && batch@[l2].0@.txid == k && lk(d.txs_seq(), k) == Some(
                            batch@[l2].0@,
                        ) && self.touches_watched(batch@[l2].0@),
                forall|k: Seq<u8>, oi: u32|
                    pre.tx_at(k) is None && self.tx_at(k) is Some && oi < self.tx_at(
                        k,
                    ).unwrap().outputs.len() && pre.watches(
                        self.tx_at(k).unwrap().outputs[oi as int].0,
                    ) ==> (#[trigger] self.indexed_at((k, oi))) == Some(
                        self.tx_at(k).unwrap().outputs[oi as int].0,
                    ),
                forall|k: Seq<u8>|
                    #![trigger lk_max(d.seen_seq(), k)]
                    lk_max(d.seen_seq(), k) is Some ==> exists|l2: int|
                        0 <= l2 < l && batch@[l2].0@.txid == k && lk_max(d.seen_seq(), k) == Some(
                            batch@[l2].1,
                        ),
            decreases n - l,
        {
            let ghost gp = *self;
            let ghost dp = d;
            let ghost t = batch@[l as int].0@;
            let ghost tm = batch@[l as int].1;
            self.insert_unconfirmed_tx(&batch[l].0, batch[l].1, &mut d);
            proof {
                let ins = gp.relevant(t) && gp.tx_at(t.txid) is None;
                assert forall|k: Seq<u8>|
                    #![trigger self.tx_at(k)]
                    #![trigger pre.tx_at(k)]
                    self.tx_at(k) == or_opt(pre.tx_at(k), lk(d.txs_seq(), k)) by {
                    assert(self.tx_at(k) == (if ins && k == t.txid {
                        Some(t)
                    } else {
                        gp.tx_at(k)
                    }));
                    assert(lk(d.txs_seq(), k) == (if ins && k == t.txid {
                        Some(t)
                    } else {
                        lk(dp.txs_seq(), k)
                    }));
                    assert(gp.tx_at(k) == or_opt(pre.tx_at(k), lk(dp.txs_seq(), k)));
                }
                assert forall|k: Seq<u8>|
                    #![trigger self.seen_at(k)]
                    #![trigger pre.seen_at(k)]
                    self.seen_at(k) == max_opt(pre.seen_at(k), lk_max(d.seen_seq(), k)) by {
                    assert(self.seen_at(k) == (if gp.relevant(t) && k == t.txid {
                        max_opt(gp.seen_at(k), Some(tm))
                    } else {
                        gp.seen_at(k)
                    }));
                    assert(lk_max(d.seen_seq(), k) == (if gp.relevant(t) && k == t.txid && (
                    gp.seen_at(k) is None || tm > gp.seen_at(k).unwrap()) {
                        max_opt(lk_max(dp.seen_seq(), k), Some(tm))
                    } else {
                        lk_max(dp.seen_seq(), k)
                    }));
                    assert(gp.seen_at(k) == max_opt(pre.seen_at(k), lk_max(dp.seen_seq(), k)));
                }
                assert forall|op: OpV| pre.indexed_at(op) is Some implies self.indexed_at(op)
                    == pre.indexed_at(op) by {
                    assert(gp.indexed_at(op) == pre.indexed_at(op));
                    assert(pre.entry_sound(op, pre.indexed_at(op).unwrap())) by {
                        let w = crate::chain::lemma_lk_some_index(pre.indexed_seq(), op);
                        assert(pre.indexed_seq()[w].0 == op);
                    }
                    assert(pre.tx_at(op.0) is Some);
                    assert(gp.tx_at(op.0) is Some);
                    if ins && op.0 == t.txid {
                        assert(false);
                    }
                    assert(self.indexed_at(op) == gp.indexed_at(op));
                }
                assert forall|x: Seq<u8>| gp.watches(x) implies self.watches(x) by {
                    assert(self.scripts_seq() == gp.scripts_seq());
                }
                assert forall|op: OpV| gp.indexed_at(op) is Some implies self.indexed_at(op)
                    is Some by {
                    assert(self.indexed_at(op) == (if ins && op.0 == t.txid && op.1
                        < t.outputs.len() && gp.watches(t.outputs[op.1 as int].0) {
                        Some(t.outputs[op.1 as int].0)
                    } else {
                        gp.indexed_at(op)
                    }));
                }
                assert forall|k: Seq<u8>| gp.tx_at(k) is Some implies self.tx_at(k) is Some by {
                    assert(self.tx_at(k) == (if ins && k == t.txid {
                        Some(t)
                    } else {
                        gp.tx_at(k)
                    }));
                }
                assert forall|l2: int|
                    0 <= l2 < l + 1 && pre.relevant((#[trigger] batch@[l2]).0@) implies self.tx_at(
                        batch@[l2].0@.txid,
                    ) is Some && self.seen_at(batch@[l2].0@.txid) is Some && self.seen_at(
                        batch@[l2].0@.txid,
                    ).unwrap() >= batch@[l2].1 by {
                    let k2 = batch@[l2].0@.txid;
                    assert(self.tx_at(k2) == (if ins && k2 == t.txid {
                        Some(t)
                    } else {
                        gp.tx_at(k2)
                    }));
                    assert(self.seen_at(k2) == (if gp.relevant(t) && k2 == t.txid {
                        max_opt(gp.seen_at(k2), Some(tm))
                    } else {
                        gp.seen_at(k2)
                    }));
                    if l2 < l {
                        assert(gp.tx_at(k2) is Some);
                        assert(gp.seen_at(k2) is Some && gp.seen_at(k2).unwrap() >= batch@[l2].1);
                    } else {
                        assert forall|x: Seq<u8>| pre.watches(x) implies gp.watches(x) by {
                            assert(gp.scripts_seq() == pre.scripts_seq());
                        }
                        assert forall|op: OpV| pre.indexed_at(op) is Some implies gp.indexed_at(
                            op,
                        ) is Some by {}
                        assert forall|k3: Seq<u8>| pre.tx_at(k3) is Some implies gp.tx_at(k3)
                            is Some by {
                            assert(gp.tx_at(k3) == or_opt(pre.tx_at(k3), lk(dp.txs_seq(), k3)));
                        }
                        lemma_relevant_monotone(pre, gp, t);
                        assert(gp.relevant(t));
                    }
                }
                assert forall|k: Seq<u8>| #![trigger lk(d.txs_seq(), k)]
                    lk(d.txs_seq(), k) is Some implies pre.tx_at(k) is None && exists|l2: int|
                        0 <= l2 < l + 1 && batch@[l2].0@.txid == k && lk(d.txs_seq(), k) == Some(
                            batch@[l2].0@,
                        ) && self.touches_watched(batch@[l2].0@) by {
                    assert(lk(d.txs_seq(), k) == (if ins && k == t.txid {
                        Some(t)
                    } else {
                        lk(dp.txs_seq(), k)
                    }));
                    if ins && k == t.txid {
                        assert(gp.tx_at(k) is None);
                        assert(gp.tx_at(k) == or_opt(pre.tx_at(k), lk(dp.txs_seq(), k)));
                        assert(pre.tx_at(k) is None);
                        assert(gp.touches_watched(t));
                        lemma_touches_monotone(gp, *self, t);
                        assert(0 <= l < l + 1 && batch@[l as int].0@.txid == k && lk(
                            d.txs_seq(),
                            k,
                        ) == Some(batch@[l as int].0@) && self.touches_watched(
                            batch@[l as int].0@,
                        ));
                    } else {
                        let l2 = choose|l2: int|
                            0 <= l2 < l && batch@[l2].0@.txid == k && lk(dp.txs_seq(), k) == Some(
                                batch@[l2].0@,
                            ) && gp.touches_watched(batch@[l2].0@);
                        lemma_touches_monotone(gp, *self, batch@[l2].0@);
                        assert(0 <= l2 < l + 1 && batch@[l2].0@.txid == k && lk(d.txs_seq(), k)
                            == Some(batch@[l2].0@) && self.touches_watched(batch@[l2].0@));
                    }
                }
                assert forall|k: Seq<u8>, oi: u32|
                    pre.tx_at(k) is None && self.tx_at(k) is Some && oi < self.tx_at(
                        k,
                    ).unwrap().outputs.len() && pre.watches(
                        self.tx_at(k).unwrap().outputs[oi as int].0,
                    ) implies (#[trigger] self.indexed_at((k, oi))) == Some(
                    self.tx_at(k).unwrap().outputs[oi as int].0,
                ) by {
                    assert(self.tx_at(k) == (if ins && k == t.txid {
                        Some(t)
                    } else {
                        gp.tx_at(k)
                    }));
                    assert(gp.scripts_seq() == pre.scripts_seq());
                    if ins && k == t.txid {
                        assert(pre.watches(t.outputs[oi as int].0) == gp.watches(
                            t.outputs[oi as int].0,
                        ));
                        assert(gp.watches(t.outputs[oi as int].0));
                        assert(self.indexed_at((k, oi)) == Some(t.outputs[oi as int].0));
                    } else {
                        assert(gp.tx_at(k) is Some);
                        assert(gp.indexed_at((k, oi)) == Some(
                            gp.tx_at(k).unwrap().outputs[oi as int].0,
                        ));
                        assert(self.indexed_at((k, oi)) == gp.indexed_at((k, oi)));
                    }
                }
                assert forall|k: Seq<u8>| #![trigger lk_max(d.seen_seq(), k)]
                    lk_max(d.seen_seq(), k) is Some implies exists|l2: int|
                        0 <= l2 < l + 1 && batch@[l2].0@.txid == k && lk_max(d.seen_seq(), k)
                            == Some(batch@[l2].1) by {
                    assert(lk_max(d.seen_seq(), k) == (if gp.relevant(t) && k == t.txid && (
                    gp.seen_at(k) is None || tm > gp.seen_at(k).unwrap()) {
                        max_opt(lk_max(dp.seen_seq(), k), Some(tm))
                    } else {
                        lk_max(dp.seen_seq(), k)
                    }));
                    if gp.relevant(t) && k == t.txid && (gp.seen_at(k) is None || tm > gp.seen_at(
                        k,
                    ).unwrap()) {
                        if lk_max(dp.seen_seq(), k) is Some {
                            let l2 = choose|l2: int|
                                0 <= l2 < l && batch@[l2].0@.txid == k && lk_max(dp.seen_seq(), k)
                                    == Some(batch@[l2].1);
                            if batch@[l2].1 >= tm {
                                assert(lk_max(d.seen_seq(), k) == Some(batch@[l2].1));
                            } else {
                                assert(lk_max(d.seen_seq(), k) == Some(tm));
                                assert(batch@[l as int].0@.txid == k);
                            }
                        } else {
                            assert(lk_max(d.seen_seq(), k) == Some(tm));
                            assert(batch@[l as int].0@.txid == k);
                        }
                    } else {
                        let l2 = choose|l2: int|
                            0 <= l2 < l && batch@[l2].0@.txid == k && lk_max(dp.seen_seq(), k)
                                == Some(batch@[l2].1);
                        assert(0 <= l2 < l + 1 && batch@[l2].0@.txid == k && lk_max(
                            d.seen_seq(),
                            k,
                        ) == Some(batch@[l2].1));
                    }
                }
            }
            l += 1;
        }
        d
    }

    /// Marks known transactions as evicted at the given times.  Unknown
    /// txids are ignored; eviction never deletes a transaction, it only
    /// competes with its unconfirmed observations during canonicalization,
    /// and a confirmed position always dominates.
    pub fn batch_insert_evicted(&mut self, evs: &Vec<(Vec<u8>, u64)>) -> (d: ChangeSet)
        requires
            old(self).wf(),
        ensures
            final(self).wf(),
            final(self).scripts@ == old(self).scripts@,
            final(self).anchors@ == old(self).anchors@,
            final(self).last_seen@ == old(self).last_seen@,
            final(self).txs@ == old(self).txs@,
            final(self).indexed@ == old(self).indexed@,
            forall|k: Seq<u8>|
                #![trigger final(self).evicted_at(k)]
                #![trigger old(self).evicted_at(k)]
                final(self).evicted_at(k) == max_opt(
                    old(self).evicted_at(k),
                    lk_max(d.evicted_seq(), k),
                ),
            d.chain@.len() == 0,
            d.txs@.len() == 0,
            d.anchors@.len() == 0,
            d.last_seen@.len() == 0,
            d.network is None,
            forall|l: int|
                0 <= l < evs@.len() && old(self).tx_at((#[trigger] evs@[l]).0@) is Some
                    ==> final(self).evicted_at(evs@[l].0@) is Some && final(self).evicted_at(
                    evs@[l].0@,
                ).unwrap() >= evs@[l].1,
            forall|k: Seq<u8>|
                #![trigger lk_max(d.evicted_seq(), k)]
                lk_max(d.evicted_seq(), k) is Some ==> old(self).tx_at(k) is Some && exists|l: int|
                    0 <= l < evs@.len() && evs@[l].0@ == k && lk_max(d.evicted_seq(), k) == Some(
                        evs@[l].1,
                    ),
    {
        let ghost pre = *self;
        let mut d = ChangeSet::empty();
        proof {
            assert(d.evicted_seq() =~= Seq::<(Seq<u8>, u64)>::empty());
        }
        let n = evs.len();
        let mut l: usize = 0;
        while l < n
            invariant
                n == evs@.len(),
                l <= n,
                pre.wf(),
                self.wf(),
                self.scripts@ == pre.scripts@,
                self.anchors@ == pre.anchors@,
                self.last_seen@ == pre.last_seen@,
                self.txs@ == pre.txs@,
                self.indexed@ == pre.indexed@,
                forall|k: Seq<u8>|
                    #![trigger self.evicted_at(k)]
                    #![trigger pre.evicted_at(k)]
                    self.evicted_at(k) == max_opt(pre.evicted_at(k), lk_max(d.evicted_seq(), k)),
                d.chain@.len() == 0,
                d.txs@.len() == 0,
                d.anchors@.len() == 0,
                d.last_seen@.len() == 0,
                d.network is None,
                forall|l2: int|
                    0 <= l2 < l && pre.tx_at((#[trigger] evs@[l2]).0@) is Some ==> self.evicted_at(
                        evs@[l2].0@,
                    ) is Some && self.evicted_at(evs@[l2].0@).unwrap() >= evs@[l2].1,
                forall|k: Seq<u8>|
                    #![trigger lk_max(d.evicted_seq(), k)]
                    lk_max(d.evicted_seq(), k) is Some ==> pre.tx_at(k) is Some && exists|l2: int|
                        0 <= l2 < l && evs@[l2].0@ == k && lk_max(d.evicted_seq(), k) == Some(
                            evs@[l2].1,
                        ),
            decreases n - l,
        {
            let ghost gp = *self;
            let ghost dp = d;
            let ghost k0 = evs@[l as int].0@;
            let ghost tm = evs@[l as int].1;
            self.evict_tx(&evs[l].0, evs[l].1, &mut d);
            proof {
                assert(self.txs_seq() == gp.txs_seq());
                assert forall|k: Seq<u8>|
                    #![trigger self.evicted_at(k)]
                    #![trigger pre.evicted_at(k)]
                    self.evicted_at(k) == max_opt(pre.evicted_at(k), lk_max(d.evicted_seq(), k)) by {
                    assert(self.evicted_at(k) == (if gp.tx_at(k0) is Some && k == k0 {
                        max_opt(gp.evicted_at(k), Some(tm))
                    } else {
                        gp.evicted_at(k)
                    }));
                    assert(lk_max(d.evicted_seq(), k) == (if gp.tx_at(k0) is Some && k == k0 && (
                    gp.evicted_at(k) is None || tm > gp.evicted_at(k).unwrap()) {
                        max_opt(lk_max(dp.evicted_seq(), k), Some(tm))
                    } else {
                        lk_max(dp.evicted_seq(), k)
                    }));
                    assert(gp.evicted_at(k) == max_opt(pre.evicted_at(k), lk_max(dp.evicted_seq(), k)));
                }
                assert forall|l2: int|
                    0 <= l2 < l + 1 && pre.tx_at((#[trigger] evs@[l2]).0@) is Some implies self.evicted_at(
                        evs@[l2].0@,
                    ) is Some && self.evicted_at(evs@[l2].0@).unwrap() >= evs@[l2].1 by {
                    let k2 = evs@[l2].0@;
                    assert(self.evicted_at(k2) == (if gp.tx_at(k0) is Some && k2 == k0 {
                        max_opt(gp.evicted_at(k2), Some(tm))
                    } else {
                        gp.evicted_at(k2)
                    }));
                    if l2 == l {
                        assert(gp.tx_at(k0) == pre.tx_at(k0));
                    } else {
                        assert(gp.evicted_at(k2) is Some && gp.evicted_at(k2).unwrap()
                            >= evs@[l2].1);
                    }
                }
                assert forall|k: Seq<u8>| #![trigger lk_max(d.evicted_seq(), k)]
                    lk_max(d.evicted_seq(), k) is Some implies pre.tx_at(k) is Some && exists|
                    l2: int,
                |
                    0 <= l2 < l + 1 && evs@[l2].0@ == k && lk_max(d.evicted_seq(), k) == Some(
                        evs@[l2].1,
                    ) by {
                    assert(lk_max(d.evicted_seq(), k) == (if gp.tx_at(k0) is Some && k == k0 && (
                    gp.evicted_at(k) is None || tm > gp.evicted_at(k).unwrap()) {
                        max_opt(lk_max(dp.evicted_seq(), k), Some(tm))
                    } else {
                        lk_max(dp.evicted_seq(), k)
                    }));
                    if gp.tx_at(k0) is Some && k == k0 && (gp.evicted_at(k) is None || tm
                        > gp.evicted_at(k).unwrap()) {
                        assert(gp.tx_at(k0) == pre.tx_at(k0));
                        if lk_max(dp.evicted_seq(), k) is Some {
                            let l2 = choose|l2: int|
                                0 <= l2 < l && evs@[l2].0@ == k && lk_max(dp.evicted_seq(), k)
                                    == Some(evs@[l2].1);
                            if evs@[l2].1 >= tm {
                                assert(lk_max(d.evicted_seq(), k) == Some(evs@[l2].1));
                            } else {
                                assert(lk_max(d.evicted_seq(), k) == Some(tm));
                                assert(evs@[l as int].0@ == k);
                            }
                        } else {
                            assert(lk_max(d.evicted_seq(), k) == Some(tm));
                            assert(evs@[l as int].0@ == k);
                        }
                    } else {
                        let l2 = choose|l2: int|
                            0 <= l2 < l && evs@[l2].0@ == k && lk_max(dp.evicted_seq(), k) == Some(
                                evs@[l2].1,
                            );
                        assert(0 <= l2 < l + 1 && evs@[l2].0@ == k && lk_max(d.evicted_seq(), k)
                            == Some(evs@[l2].1));
                    }
                }
            }
            l += 1;
        }
        d
    }
}

impl TxGraph {
    /// Re-scans every stored transaction against the current relevance
    /// index, indexing any watched output discovered late (a script may be
    /// registered after a transaction paying it was observed).  Returns
    /// whether anything new was discovered; immediately afterwards the index
    /// is complete, so a second call with no intervening changes discovers
    /// nothing.
    pub fn reindex(&mut self) -> (r: bool)
        requires
            old(self).wf(),
        ensures
            final(self).wf(),
            final(self).txs@ == old(self).txs@,
            final(self).anchors@ == old(self).anchors@,
            final(self).last_seen@ == old(self).last_seen@,
            final(self).last_evicted@ == old(self).last_evicted@,
            final(self).scripts@ == old(self).scripts@,
            forall|op: OpV|
                #![trigger final(self).indexed_at(op)]
                #![trigger old(self).indexed_at(op)]
                old(self).indexed_at(op) is Some ==> final(self).indexed_at(op) == old(self).indexed_at(op),
            final(self).index_complete(),
            r == !old(self).index_complete(),
    {
        let ghost pre = *self;
        let mut changed = false;
        let n = self.txs.len();
        let mut l: usize = 0;
        while l < n
            invariant
                n == self.txs@.len(),
                l <= n,
                pre.wf(),
                self.wf(),
                self.txs@ == pre.txs@,
                self.anchors@ == pre.anchors@,
                self.last_seen@ == pre.last_seen@,
                self.last_evicted@ == pre.last_evicted@,
                self.scripts@ == pre.scripts@,
                forall|op: OpV|
                    #![trigger self.indexed_at(op)]
                    #![trigger pre.indexed_at(op)]
                    pre.indexed_at(op) is Some ==> self.indexed_at(op) == pre.indexed_at(op),
                !changed ==> self.indexed@ == pre.indexed@,
                changed ==> !pre.index_complete(),
                forall|k: Seq<u8>, oi: u32|
                    (exists|l2: int| 0 <= l2 < l && pre.txs@[l2].txid@ == k) && self.tx_at(k)
                        is Some && oi < self.tx_at(k).unwrap().outputs.len() && self.watches(
                        self.tx_at(k).unwrap().outputs[oi as int].0,
                    ) ==> (#[trigger] self.indexed_at((k, oi))) is Some,
            decreases n - l,
        {
            let tid = clone_bytes(&self.txs[l].txid);
            let w = match self.find_tx(&tid) {
                Some(w) => w,
                None => {
                    proof {
                        crate::types::lemma_contains_lk(self.txs_seq(), l as int);
                        assert(false);
                    }
                    0
                },
            };
            let ghost wtx = self.txs@[w as int]@;
            let m = self.txs[w].outputs.len();
            proof {
                assert(self.txs@[w as int]@.outputs.len() <= 0xffff_ffff);
            }
            let mut oi: usize = 0;
            while oi < m
                invariant
                    n == self.txs@.len(),
                    l < n,
                    w < n,
                    oi <= m,
                    pre.wf(),
                    self.wf(),
                    self.txs@ == pre.txs@,
                    self.anchors@ == pre.anchors@,
                    self.last_seen@ == pre.last_seen@,
                    self.last_evicted@ == pre.last_evicted@,
                    self.scripts@ == pre.scripts@,
                    tid@ == self.txs@[l as int].txid@,
                    self.txs@[w as int].txid@ == tid@,
                    wtx == self.txs@[w as int]@,
                    m == wtx.outputs.len(),
                    m <= 0xffff_ffff,
                    self.tx_at(tid@) == Some(wtx),
                    forall|op: OpV|
                        #![trigger self.indexed_at(op)]
                        #![trigger pre.indexed_at(op)]
                        pre.indexed_at(op) is Some ==> self.indexed_at(op) == pre.indexed_at(op),
                    !changed ==> self.indexed@ == pre.indexed@,
                    changed ==> !pre.index_complete(),
                    forall|k: Seq<u8>, oi2: u32|
                        (exists|l2: int| 0 <= l2 < l && pre.txs@[l2].txid@ == k) && self.tx_at(k)
                            is Some && oi2 < self.tx_at(k).unwrap().outputs.len() && self.watches(
                            self.tx_at(k).unwrap().outputs[oi2 as int].0,
                        ) ==> (#[trigger] self.indexed_at((k, oi2))) is Some,
                    forall|oi2: u32|
                        oi2 < oi && self.watches(wtx.outputs[oi2 as int].0) ==> (
                        #[trigger] self.indexed_at((tid@, oi2))) is Some,
                decreases m - oi,
            {
                let ghost s0 = *self;
                let sc = clone_bytes(&self.txs[w].outputs[oi].script);
                proof {
                    assert(sc@ == wtx.outputs[oi as int].0);
                }
                if self.is_tracked(&sc) {
                    let op = OutPoint { txid: clone_bytes(&tid), vout: oi as u32 };
                    let found = self.find_indexed(&op);
                    if found.is_none() {
                        let ghost prev2 = *self;
                        self.indexed.push((op, sc));
                        changed = true;
                        proof {
                            assert(self.indexed_seq() =~= prev2.indexed_seq().push(
                                ((tid@, oi as u32), wtx.outputs[oi as int].0),
                            ));
                            assert(self.txs_seq() == prev2.txs_seq());
                            assert forall|l2: int|
                                0 <= l2 < self.indexed_seq().len() implies self.entry_sound(
                                (#[trigger] self.indexed_seq()[l2]).0,
                                self.indexed_seq()[l2].1,
                            ) by {
                                if l2 < self.indexed_seq().len() - 1 {
                                    assert(prev2.entry_sound(
                                        prev2.indexed_seq()[l2].0,
                                        prev2.indexed_seq()[l2].1,
                                    ));
                                } else {
                                    assert(self.tx_at(tid@) == Some(wtx));
                                    assert(self.watches(wtx.outputs[oi as int].0));
                                }
                            }
                            assert forall|op2: OpV| op2 != ((tid@, oi as u32)) implies self.indexed_at(
                                op2,
                            ) == prev2.indexed_at(op2) by {
                                assert(self.indexed_seq().drop_last() =~= prev2.indexed_seq());
                            }
                            assert(self.indexed_at((tid@, oi as u32)) == Some(
                                wtx.outputs[oi as int].0,
                            ));
                            // the pair was missing before this whole pass, so the
                            // old index was not complete
                            assert(prev2.indexed_at((tid@, oi as u32)) is None);
                            assert(pre.indexed_at((tid@, oi as u32)) is None) by {
                                if pre.indexed_at((tid@, oi as u32)) is Some {
                                    assert(prev2.indexed_at((tid@, oi as u32)) == pre.indexed_at(
                                        (tid@, oi as u32),
                                    ));
                                }
                            }
                            assert(pre.tx_at(tid@) == Some(wtx)) by {
                                assert(pre.txs_seq() == self.txs_seq());
                            }
                            assert(pre.watches(wtx.outputs[oi as int].0)) by {
                                assert(pre.scripts_seq() == self.scripts_seq());
                            }
                            assert(oi as u32 == oi);
                            assert(!pre.index_complete());
                        }
                    } else {
                        proof {
                            assert(op@ == (tid@, oi as u32));
                            assert(self.indexed_at((tid@, oi as u32)) is Some);
                        }
                    }
                } else {
                    proof {
                        assert(!self.watches(wtx.outputs[oi as int].0));
                    }
                }
                proof {
                    assert(self.watches(wtx.outputs[oi as int].0) ==> self.indexed_at(
                        (tid@, oi as u32),
                    ) is Some);
                    assert forall|op2: OpV| op2 != ((tid@, oi as u32)) && s0.indexed_at(op2)
                        is Some implies self.indexed_at(op2) == s0.indexed_at(op2) by {}
                    assert(self.scripts_seq() == s0.scripts_seq());
                    assert(self.txs_seq() == s0.txs_seq());
                    assert forall|oi2: u32|
                        oi2 < oi + 1 && self.watches(wtx.outputs[oi2 as int].0) implies (
                    #[trigger] self.indexed_at((tid@, oi2))) is Some by {
                        assert(oi as u32 == oi);
                        if oi2 < oi {
                            assert(s0.watches(wtx.outputs[oi2 as int].0));
                            assert(s0.indexed_at((tid@, oi2)) is Some);
                            assert(self.indexed_at((tid@, oi2)) == s0.indexed_at((tid@, oi2)));
                        }
                    }
                    assert forall|k: Seq<u8>, oi2: u32|
                        (exists|l2: int| 0 <= l2 < l && pre.txs@[l2].txid@ == k) && self.tx_at(k)
                            is Some && oi2 < self.tx_at(k).unwrap().outputs.len() && self.watches(
                            self.tx_at(k).unwrap().outputs[oi2 as int].0,
                        ) implies (#[trigger] self.indexed_at((k, oi2))) is Some by {
                        assert(s0.tx_at(k) == self.tx_at(k));
                        assert(s0.watches(self.tx_at(k).unwrap().outputs[oi2 as int].0));
                        assert(s0.indexed_at((k, oi2)) is Some);
                        if (k, oi2) != ((tid@, oi as u32)) {
                            assert(self.indexed_at((k, oi2)) == s0.indexed_at((k, oi2)));
                        }
                    }
                }
                oi += 1;
            }
            proof {
                assert forall|k: Seq<u8>, oi2: u32|
                    (exists|l2: int| 0 <= l2 < l + 1 && pre.txs@[l2].txid@ == k) && self.tx_at(k)
                        is Some && oi2 < self.tx_at(k).unwrap().outputs.len() && self.watches(
                        self.tx_at(k).unwrap().outputs[oi2 as int].0,
                    ) implies (#[trigger] self.indexed_at((k, oi2))) is Some by {
                    let l2 = choose|l2: int| 0 <= l2 < l + 1 && pre.txs@[l2].txid@ == k;
                    if l2 == l {
                        assert(k == tid@);
                        assert(self.tx_at(k) == Some(wtx));
                    }
                }
            }
            l += 1;
        }
        proof {
            assert forall|k: Seq<u8>, oi: u32|
                self.tx_at(k) is Some && oi < self.tx_at(k).unwrap().outputs.len()
                    && self.watches(self.tx_at(k).unwrap().outputs[oi as int].0) implies (
            #[trigger] self.indexed_at((k, oi))) is Some by {
                let l2 = crate::chain::lemma_lk_some_index(self.txs_seq(), k);
                assert(pre.txs@[l2].txid@ == k);
            }
            if !changed {
                assert forall|k: Seq<u8>, oi: u32|
                    pre.tx_at(k) is Some && oi < pre.tx_at(k).unwrap().outputs.len()
                        && pre.watches(pre.tx_at(k).unwrap().outputs[oi as int].0) implies (
                #[trigger] pre.indexed_at((k, oi))) is Some by {
                    assert(pre.txs_seq() == self.txs_seq());
                    assert(pre.scripts_seq() == self.scripts_seq());
                    assert(pre.indexed_seq() == self.indexed_seq());
                    assert(self.indexed_at((k, oi)) is Some);
                }
            }
        }
        changed
    }
}

} // verus!
