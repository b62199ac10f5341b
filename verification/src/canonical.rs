//! The canonicalization engine: a read-only view over the transaction graph
//! and the checkpoint chain that resolves competing transaction versions
//! into one canonical set and derives the live UTXO set.
//!
//! A transaction is canonical when its recorded confirmation still stands on
//! the current chain, or — among unconfirmed, non-evicted competitors for
//! the same input — when it carries the latest last-seen timestamp.
//! Confirmed transactions always win over unconfirmed competitors.  An
//! output is unspent when its producer is canonical and no canonical
//! transaction spends it; an output whose spender lost its confirming block
//! to a reorg, with no canonical replacement, reappears.

use vstd::prelude::*;

use crate::chain::chain_at;
use crate::chain::cv;
use crate::chain::asc_keys;
use crate::chain::find_height;
use crate::chain::lemma_lk_some_index;
use crate::chain::lemma_lk_unique;
use crate::graph::TxGraph;
use crate::types::Anchor;
use crate::types::AnchorV;
use crate::types::Checkpoint;
use crate::types::FullOut;
use crate::types::OpV;
use crate::types::OutPoint;
use crate::types::Position;
use crate::types::PositionV;
use crate::types::Tx;
use crate::types::TxV;
use crate::types::bytes_eq;
use crate::types::clone_bytes;
use crate::types::clone_outpoint;
use crate::types::clone_tx;
use crate::types::outpoint_eq;

verus! {

/// The transaction's recorded confirmation stands on the current chain.
///
/// The chain holds at most one hash per height, so a transaction could only
/// count as confirmed in two canonical blocks at once if the event producer
/// had reported it inside two distinct blocks that both remained on the best
/// chain.  The tracker assumes the producer validated its blocks and does
/// not check this itself.
pub open spec fn anchored(g: TxGraph, c: Seq<(u32, Seq<u8>)>, k: Seq<u8>) -> bool {
    exists|a: AnchorV|
        g.has_anchor(a) && a.txid == k && chain_at(c, a.height) == Some(a.hash)
}

/// Seen unconfirmed and not since evicted.
pub open spec fn unconf_candidate(g: TxGraph, k: Seq<u8>) -> bool {
    &&& g.tx_at(k) is Some
    &&& g.seen_at(k) is Some
    &&& (g.evicted_at(k) is None || g.evicted_at(k).unwrap() < g.seen_at(k).unwrap())
}

/// The two transactions spend at least one common outpoint.
pub open spec fn conflicts(t: TxV, u: TxV) -> bool {
    exists|i: int, j: int|
        0 <= i < t.inputs.len() && 0 <= j < u.inputs.len() && t.inputs[i] == u.inputs[j]
}

/// Canonical among the unconfirmed: a live mempool candidate that beats
/// every competing spender — no competitor is confirmed on the chain, and
/// every competing candidate was seen strictly earlier.
pub open spec fn unconf_canonical(g: TxGraph, c: Seq<(u32, Seq<u8>)>, k: Seq<u8>) -> bool {
    &&& unconf_candidate(g, k)
    &&& !anchored(g, c, k)
    &&& forall|k2: Seq<u8>|
        k2 != k && (#[trigger] g.tx_at(k2)) is Some && conflicts(
            g.tx_at(k).unwrap(),
            g.tx_at(k2).unwrap(),
        ) ==> !anchored(g, c, k2) && (unconf_candidate(g, k2) ==> g.seen_at(k2).unwrap()
            < g.seen_at(k).unwrap())
}

/// The single currently-accepted version of a transaction.
pub open spec fn canonical(g: TxGraph, c: Seq<(u32, Seq<u8>)>, k: Seq<u8>) -> bool {
    &&& g.tx_at(k) is Some
    &&& (anchored(g, c, k) || unconf_canonical(g, c, k))
}

/// The stored transaction under `k` spends the outpoint.
pub open spec fn spends(g: TxGraph, k: Seq<u8>, op: OpV) -> bool {
    g.tx_at(k) is Some && g.tx_at(k).unwrap().inputs.contains(op)
}

pub open spec fn spent_by_canonical(g: TxGraph, c: Seq<(u32, Seq<u8>)>, op: OpV) -> bool {
    exists|k: Seq<u8>| #[trigger] canonical(g, c, k) && spends(g, k, op)
}

/// A member of the canonical UTXO set: an indexed output whose producer is
/// canonical and which no canonical transaction spends.
pub open spec fn is_utxo(g: TxGraph, c: Seq<(u32, Seq<u8>)>, op: OpV) -> bool {
    &&& g.indexed_at(op) is Some
    &&& canonical(g, c, op.0)
    &&& !spent_by_canonical(g, c, op)
}

/// How a reported position must relate to the graph and chain.
pub open spec fn position_ok(g: TxGraph, c: Seq<(u32, Seq<u8>)>, k: Seq<u8>, p: PositionV) -> bool {
    if p.confirmed {
        exists|a: AnchorV|
            g.has_anchor(a) && a.txid == k && chain_at(c, a.height) == Some(a.hash) && p.height
                == a.height && p.hash == a.hash && p.time == a.time
    } else {
        !anchored(g, c, k) && g.seen_at(k) == Some(p.last_seen)
    }
}

/// An anchor of the txid that stands on the current chain, if any.
pub fn chain_anchor(g: &TxGraph, chain: &Vec<Checkpoint>, txid: &Vec<u8>) -> (r: Option<Anchor>)
    requires
        asc_keys(cv(chain@)),
    ensures
        match r {
            Some(a) => g.has_anchor(a@) && a@.txid == txid@ && chain_at(cv(chain@), a@.height)
                == Some(a@.hash),
            None => !anchored(*g, cv(chain@), txid@),
        },
{
    let n = g.anchors.len();
    let mut l: usize = 0;
    while l < n
        invariant
            n == g.anchors@.len(),
            l <= n,
            asc_keys(cv(chain@)),
            forall|l2: int|
                0 <= l2 < l ==> !((#[trigger] g.anchors@[l2])@.txid == txid@ && chain_at(
                    cv(chain@),
                    g.anchors@[l2]@.height,
                ) == Some(g.anchors@[l2]@.hash)),
        decreases n - l,
    {
        let a = &g.anchors[l];
        if bytes_eq(&a.txid, txid) {
            match find_height(chain, a.height) {
                Some(i) => {
                    if bytes_eq(&chain[i].hash, &a.hash) {
                        let r = Anchor {
                            txid: clone_bytes(&a.txid),
                            height: a.height,
                            hash: clone_bytes(&a.hash),
                            time: a.time,
                        };
                        proof {
                            assert(g.anchors_seq()[l as int] == a@);
                            assert(g.has_anchor(a@));
                        }
                        return Some(r);
                    }
                },
                None => {},
            }
        }
        l += 1;
    }
    proof {
        if anchored(*g, cv(chain@), txid@) {
            let a = choose|a: AnchorV|
                g.has_anchor(a) && a.txid == txid@ && chain_at(cv(chain@), a.height) == Some(
                    a.hash,
                );
            let l2 = choose|l2: int| 0 <= l2 < g.anchors_seq().len() && g.anchors_seq()[l2] == a;
            assert(g.anchors@[l2]@ == a);
        }
    }
    None
}

/// Whether the transaction's confirmation stands on the current chain.
pub fn is_anchored(g: &TxGraph, chain: &Vec<Checkpoint>, txid: &Vec<u8>) -> (r: bool)
    requires
        asc_keys(cv(chain@)),
    ensures
        r == anchored(*g, cv(chain@), txid@),
{
    let r = chain_anchor(g, chain, txid).is_some();
    r
}

/// Whether the transaction is a live unconfirmed candidate.
pub fn is_unconf_candidate(g: &TxGraph, txid: &Vec<u8>) -> (r: bool)
    ensures
        r == unconf_candidate(*g, txid@),
{
    if g.find_tx(txid).is_none() {
        return false;
    }
    let seen = match g.seen_max(txid) {
        Some(t) => t,
        None => {
            return false;
        },
    };
    match g.evicted_max(txid) {
        None => true,
        Some(e) => e < seen,
    }
}

/// Whether the two transactions spend a common outpoint.
pub fn conflicts_exec(a: &Tx, b: &Tx) -> (r: bool)
    ensures
        r == conflicts(a@, b@),
{
    let n = a.inputs.len();
    let mut i: usize = 0;
    while i < n
        invariant
            n == a.inputs@.len(),
            i <= n,
            forall|i2: int, j2: int|
                0 <= i2 < i && 0 <= j2 < b.inputs@.len() ==> a@.inputs[i2] != b@.inputs[j2],
        decreases n - i,
    {
        let m = b.inputs.len();
        let mut j: usize = 0;
        while j < m
            invariant
                n == a.inputs@.len(),
                m == b.inputs@.len(),
                i < n,
                j <= m,
                forall|j2: int| 0 <= j2 < j ==> a@.inputs[i as int] != b@.inputs[j2],
            decreases m - j,
        {
            if outpoint_eq(&a.inputs[i], &b.inputs[j]) {
                proof {
                    assert(a@.inputs[i as int] == b@.inputs[j as int]);
                }
                return true;
            }
            proof {
                assert(a@.inputs[i as int] == a.inputs@[i as int]@);
                assert(b@.inputs[j as int] == b.inputs@[j as int]@);
            }
            j += 1;
        }
        i += 1;
    }
    false
}

/// Whether the transaction under this txid is canonical.
pub fn is_canonical(g: &TxGraph, chain: &Vec<Checkpoint>, txid: &Vec<u8>) -> (r: bool)
    requires
        asc_keys(cv(chain@)),
    ensures
        r == canonical(*g, cv(chain@), txid@),
{
    let w = match g.find_tx(txid) {
        Some(w) => w,
        None => {
            return false;
        },
    };
    if is_anchored(g, chain, txid) {
        return true;
    }
    if !is_unconf_candidate(g, txid) {
        return false;
    }
    let my_seen = g.seen_max(txid).unwrap();
    let me = clone_tx(&g.txs[w]);
    let n = g.txs.len();
    let mut l: usize = 0;
    while l < n
        invariant
            n == g.txs@.len(),
            l <= n,
            asc_keys(cv(chain@)),
            g.tx_at(txid@) == Some(me@),
            unconf_candidate(*g, txid@),
            !anchored(*g, cv(chain@), txid@),
            Some(my_seen) == g.seen_at(txid@),
            forall|l2: int|
                0 <= l2 < l ==> {
                    let k2 = (#[trigger] g.txs@[l2]).txid@;
                    k2 != txid@ && conflicts(me@, g.tx_at(k2).unwrap()) ==> !anchored(
                        *g,
                        cv(chain@),
                        k2,
                    ) && (unconf_candidate(*g, k2) ==> g.seen_at(k2).unwrap() < my_seen)
                },
        decreases n - l,
    {
        let k2 = clone_bytes(&g.txs[l].txid);
        if !bytes_eq(&k2, txid) {
            let w2 = match g.find_tx(&k2) {
                Some(w2) => w2,
                None => {
                    proof {
                        crate::types::lemma_contains_lk(g.txs_seq(), l as int);
                        assert(false);
                    }
                    0
                },
            };
            if conflicts_exec(&me, &g.txs[w2]) {
                if is_anchored(g, chain, &k2) {
                    return false;
                }
                if is_unconf_candidate(g, &k2) {
                    let other_seen = g.seen_max(&k2).unwrap();
                    if other_seen >= my_seen {
                        return false;
                    }
                }
            }
        }
        l += 1;
    }
    proof {
        assert forall|k2: Seq<u8>|
            k2 != txid@ && (#[trigger] g.tx_at(k2)) is Some && conflicts(
                g.tx_at(txid@).unwrap(),
                g.tx_at(k2).unwrap(),
            ) implies !anchored(*g, cv(chain@), k2) && (unconf_candidate(*g, k2)
            ==> g.seen_at(k2).unwrap() < g.seen_at(txid@).unwrap()) by {
            let l2 = lemma_lk_some_index(g.txs_seq(), k2);
            assert(g.txs@[l2].txid@ == k2);
        }
    }
    true
}

/// Whether any listed transaction already carries this txid.
fn txid_in(r: &Vec<Tx>, tid: &Vec<u8>) -> (b: bool)
    ensures
        b == exists|i: int| 0 <= i < r@.len() && (#[trigger] r@[i])@.txid == tid@,
{
    let n = r.len();
    let mut i: usize = 0;
    while i < n
        invariant
            n == r@.len(),
            i <= n,
            forall|i2: int| 0 <= i2 < i ==> (#[trigger] r@[i2])@.txid != tid@,
        decreases n - i,
    {
        if bytes_eq(&r[i].txid, tid) {
            proof {
                assert(r@[i as int]@.txid == tid@);
            }
            return true;
        }
        i += 1;
    }
    false
}

/// The transaction carries an anchor standing on the current chain at
/// exactly this height.
pub open spec fn anchored_at(g: TxGraph, c: Seq<(u32, Seq<u8>)>, k: Seq<u8>, h: u32) -> bool {
    exists|a: AnchorV|
        g.has_anchor(a) && a.txid == k && chain_at(c, a.height) == Some(a.hash) && a.height == h
}

/// Whether the transaction carries an anchor naming exactly this checkpoint.
fn anchor_at_checkpoint(g: &TxGraph, tid: &Vec<u8>, cp: &Checkpoint) -> (b: bool)
    ensures
        b == exists|a: AnchorV|
            g.has_anchor(a) && a.txid == tid@ && a.height == cp.height && a.hash == cp.hash@,
{
    let n = g.anchors.len();
    let mut l: usize = 0;
    while l < n
        invariant
            n == g.anchors@.len(),
            l <= n,
            forall|l2: int|
                0 <= l2 < l ==> !((#[trigger] g.anchors@[l2])@.txid == tid@
                    && g.anchors@[l2]@.height == cp.height && g.anchors@[l2]@.hash == cp.hash@),
        decreases n - l,
    {
        let a = &g.anchors[l];
        if bytes_eq(&a.txid, tid) && a.height == cp.height && bytes_eq(&a.hash, &cp.hash) {
            proof {
                assert(g.anchors_seq()[l as int] == a@);
                assert(g.has_anchor(a@));
            }
            return true;
        }
        l += 1;
    }
    proof {
        if exists|a: AnchorV|
            g.has_anchor(a) && a.txid == tid@ && a.height == cp.height && a.hash == cp.hash@ {
            let a = choose|a: AnchorV|
                g.has_anchor(a) && a.txid == tid@ && a.height == cp.height && a.hash == cp.hash@;
            let l2 = choose|l2: int| 0 <= l2 < g.anchors_seq().len() && g.anchors_seq()[l2] == a;
            assert(g.anchors@[l2]@ == a);
        }
    }
    false
}

/// Lists the canonical transactions: confirmed ones whose block still
/// stands, plus unconfirmed ones not excluded by a canonical conflicting
/// spend.  Confirmed transactions come first, in ascending confirmation
/// height; the unconfirmed follow in first-observation order.
pub fn canonical_txs(g: &TxGraph, chain: &Vec<Checkpoint>) -> (r: Vec<Tx>)
    requires
        asc_keys(cv(chain@)),
    ensures
        forall|i: int|
            0 <= i < r@.len() ==> canonical(*g, cv(chain@), (#[trigger] r@[i])@.txid) && g.tx_at(
                r@[i]@.txid,
            ) == Some(r@[i]@),
        forall|k: Seq<u8>|
            #[trigger] canonical(*g, cv(chain@), k) ==> exists|i: int|
                0 <= i < r@.len() && r@[i]@.txid == k,
        forall|i: int, j: int|
            0 <= i < j < r@.len() && anchored(*g, cv(chain@), (#[trigger] r@[j])@.txid)
                ==> anchored(*g, cv(chain@), (#[trigger] r@[i])@.txid),
        forall|i: int, j: int|
            0 <= i < j < r@.len() && anchored(*g, cv(chain@), (#[trigger] r@[i])@.txid)
                && anchored(*g, cv(chain@), (#[trigger] r@[j])@.txid) ==> exists|hi: u32, hj: u32|
                anchored_at(*g, cv(chain@), r@[i]@.txid, hi) && anchored_at(
                    *g,
                    cv(chain@),
                    r@[j]@.txid,
                    hj,
                ) && hi <= hj,
{
    let ghost c = cv(chain@);
    let mut r: Vec<Tx> = Vec::new();
    let ghost mut hs: Seq<u32> = Seq::empty();
    let nc = chain.len();
    let mut ci: usize = 0;
    while ci < nc
        invariant
            nc == chain@.len(),
            ci <= nc,
            asc_keys(c),
            c == cv(chain@),
            hs.len() == r@.len(),
            forall|i: int|
                0 <= i < r@.len() ==> canonical(*g, c, (#[trigger] r@[i])@.txid) && g.tx_at(
                    r@[i]@.txid,
                ) == Some(r@[i]@),
            forall|i: int|
                0 <= i < r@.len() ==> anchored_at(*g, c, (#[trigger] r@[i])@.txid, hs[i]),
            forall|i: int, j: int| 0 <= i <= j < hs.len() ==> hs[i] <= hs[j],
            hs.len() > 0 ==> ci > 0 && hs.last() <= c[ci - 1].0,
            forall|k: Seq<u8>|
                #[trigger] canonical(*g, c, k) && (exists|a: AnchorV|
                    g.has_anchor(a) && a.txid == k && exists|ci2: int|
                        0 <= ci2 < ci && (a.height, a.hash) == c[ci2]) ==> exists|i: int|
                    0 <= i < r@.len() && r@[i]@.txid == k,
        decreases nc - ci,
    {
        let nt = g.txs.len();
        let mut l: usize = 0;
        while l < nt
            invariant
                nc == chain@.len(),
                ci < nc,
                nt == g.txs@.len(),
                l <= nt,
                asc_keys(c),
                c == cv(chain@),
                hs.len() == r@.len(),
                forall|i: int|
                    0 <= i < r@.len() ==> canonical(*g, c, (#[trigger] r@[i])@.txid) && g.tx_at(
                        r@[i]@.txid,
                    ) == Some(r@[i]@),
                forall|i: int|
                    0 <= i < r@.len() ==> anchored_at(*g, c, (#[trigger] r@[i])@.txid, hs[i]),
                forall|i: int, j: int| 0 <= i <= j < hs.len() ==> hs[i] <= hs[j],
                hs.len() > 0 ==> hs.last() <= c[ci as int].0,
                forall|k: Seq<u8>|
                    #[trigger] canonical(*g, c, k) && (exists|a: AnchorV|
                        g.has_anchor(a) && a.txid == k && exists|ci2: int|
                            0 <= ci2 < ci && (a.height, a.hash) == c[ci2]) ==> exists|i: int|
                        0 <= i < r@.len() && r@[i]@.txid == k,
                forall|l2: int|
                    0 <= l2 < l && canonical(*g, c, (#[trigger] g.txs@[l2]).txid@) && (exists|
                        a: AnchorV,
                    |
                        g.has_anchor(a) && a.txid == g.txs@[l2].txid@ && (a.height, a.hash) == c[ci as int])
                        ==> exists|i: int| 0 <= i < r@.len() && r@[i]@.txid == g.txs@[l2].txid@,
            decreases nt - l,
        {
            let tid = clone_bytes(&g.txs[l].txid);
            if !txid_in(&r, &tid) && anchor_at_checkpoint(g, &tid, &chain[ci])
                && is_canonical(g, chain, &tid) {
                let w = g.find_tx(&tid).unwrap();
                let ghost prev = r@;
                let ghost hsp = hs;
                r.push(clone_tx(&g.txs[w]));
                proof {
                    let a0 = choose|a: AnchorV|
                        g.has_anchor(a) && a.txid == tid@ && a.height == chain@[ci as int].height
                            && a.hash == chain@[ci as int].hash@;
                    lemma_lk_unique(c, ci as int);
                    assert(c[ci as int] == (chain@[ci as int].height, chain@[ci as int].hash@));
                    assert(chain_at(c, a0.height) == Some(a0.hash));
                    hs = hs.push(chain@[ci as int].height);
                    assert(r@[prev.len() as int]@.txid == tid@);
                    assert(anchored_at(*g, c, tid@, chain@[ci as int].height));
                    assert forall|i: int|
                        0 <= i < r@.len() implies anchored_at(
                        *g,
                        c,
                        (#[trigger] r@[i])@.txid,
                        hs[i],
                    ) by {
                        if i < prev.len() {
                            assert(anchored_at(*g, c, prev[i]@.txid, hsp[i]));
                            assert(r@[i] == prev[i] && hs[i] == hsp[i]);
                        }
                    }
                    assert forall|i: int, j: int| 0 <= i <= j < hs.len() implies hs[i] <= hs[j] by {
                        if j == hs.len() - 1 && i < j {
                            assert(hsp[i] <= hsp.last());
                            assert(hsp.last() <= c[ci as int].0);
                        }
                    }
                    assert forall|k: Seq<u8>|
                        #[trigger] canonical(*g, c, k) && (exists|a: AnchorV|
                            g.has_anchor(a) && a.txid == k && exists|ci2: int|
                                0 <= ci2 < ci && (a.height, a.hash) == c[ci2]) implies exists|
                        i: int,
                    |
                        0 <= i < r@.len() && r@[i]@.txid == k by {
                        let i = choose|i: int| 0 <= i < prev.len() && prev[i]@.txid == k;
                        assert(r@[i]@.txid == k);
                    }
                    assert forall|l2: int|
                        0 <= l2 < l + 1 && canonical(*g, c, (#[trigger] g.txs@[l2]).txid@) && (
                        exists|a: AnchorV|
                            g.has_anchor(a) && a.txid == g.txs@[l2].txid@ && (a.height, a.hash)
                                == c[ci as int]) implies exists|i: int|
                        0 <= i < r@.len() && r@[i]@.txid == g.txs@[l2].txid@ by {
                        if l2 < l {
                            let i = choose|i: int|
                                0 <= i < prev.len() && prev[i]@.txid == g.txs@[l2].txid@;
                            assert(r@[i]@.txid == g.txs@[l2].txid@);
                        } else {
                            assert(r@[prev.len() as int]@.txid == g.txs@[l2].txid@);
                        }
                    }
                }
            } else {
                proof {
                    assert forall|l2: int|
                        0 <= l2 < l + 1 && canonical(*g, c, (#[trigger] g.txs@[l2]).txid@) && (
                        exists|a: AnchorV|
                            g.has_anchor(a) && a.txid == g.txs@[l2].txid@ && (a.height, a.hash)
                                == c[ci as int]) implies exists|i: int|
                        0 <= i < r@.len() && r@[i]@.txid == g.txs@[l2].txid@ by {
                        if l2 == l {
                            let k2 = g.txs@[l2].txid@;
                            assert(k2 == tid@);
                            lemma_lk_unique(c, ci as int);
                            assert(c[ci as int] == (
                                chain@[ci as int].height,
                                chain@[ci as int].hash@,
                            ));
                            if canonical(*g, c, k2) && (exists|a: AnchorV|
                                g.has_anchor(a) && a.txid == k2 && (a.height, a.hash) == c[ci as int]) {
                                assert(exists|a: AnchorV|
                                    g.has_anchor(a) && a.txid == tid@ && a.height == chain@[ci as int].height
                                        && a.hash == chain@[ci as int].hash@);
                                assert(exists|i: int|
                                    0 <= i < r@.len() && (#[trigger] r@[i])@.txid == tid@);
                            }
                        }
                    }
                }
            }
            l += 1;
        }
        proof {
            assert forall|k: Seq<u8>|
                #[trigger] canonical(*g, c, k) && (exists|a: AnchorV|
                    g.has_anchor(a) && a.txid == k && exists|ci2: int|
                        0 <= ci2 < ci + 1 && (a.height, a.hash) == c[ci2]) implies exists|i: int|
                0 <= i < r@.len() && r@[i]@.txid == k by {
                let a = choose|a: AnchorV|
                    g.has_anchor(a) && a.txid == k && exists|ci2: int|
                        0 <= ci2 < ci + 1 && (a.height, a.hash) == c[ci2];
                let ci2 = choose|ci2: int| 0 <= ci2 < ci + 1 && (a.height, a.hash) == c[ci2];
                if ci2 == ci {
                    let l2 = lemma_lk_some_index(g.txs_seq(), k);
                    assert(g.txs@[l2].txid@ == k);
                    assert((a.height, a.hash) == c[ci as int]);
                }
            }
            assert(hs.len() > 0 ==> hs.last() <= c[ci as int].0);
        }
        ci += 1;
    }
    let ghost bound = r@.len() as int;
    proof {
        assert forall|k: Seq<u8>|
            #[trigger] canonical(*g, c, k) && anchored(*g, c, k) implies exists|i: int|
            0 <= i < r@.len() && r@[i]@.txid == k by {
            let a = choose|a: AnchorV|
                g.has_anchor(a) && a.txid == k && chain_at(c, a.height) == Some(a.hash);
            crate::types::lemma_lk_contains(c, a.height, a.hash);
            let ci2 = choose|ci2: int| 0 <= ci2 < c.len() && c[ci2] == (a.height, a.hash);
            assert((a.height, a.hash) == c[ci2]);
        }
    }
    let nt = g.txs.len();
    let mut l: usize = 0;
    while l < nt
        invariant
            nt == g.txs@.len(),
            l <= nt,
            asc_keys(c),
            c == cv(chain@),
            hs.len() == bound,
            0 <= bound <= r@.len(),
            forall|i: int|
                0 <= i < r@.len() ==> canonical(*g, c, (#[trigger] r@[i])@.txid) && g.tx_at(
                    r@[i]@.txid,
                ) == Some(r@[i]@),
            forall|i: int|
                0 <= i < bound ==> anchored_at(*g, c, (#[trigger] r@[i])@.txid, hs[i]),
            forall|i: int, j: int| 0 <= i <= j < hs.len() ==> hs[i] <= hs[j],
            forall|i: int| bound <= i < r@.len() ==> !anchored(*g, c, (#[trigger] r@[i])@.txid),
            forall|k: Seq<u8>|
                #[trigger] canonical(*g, c, k) && anchored(*g, c, k) ==> exists|i: int|
                    0 <= i < r@.len() && r@[i]@.txid == k,
            forall|l2: int|
                0 <= l2 < l && canonical(*g, c, (#[trigger] g.txs@[l2]).txid@) ==> exists|i: int|
                    0 <= i < r@.len() && r@[i]@.txid == g.txs@[l2].txid@,
        decreases nt - l,
    {
        let tid = clone_bytes(&g.txs[l].txid);
        if is_canonical(g, chain, &tid) && !is_anchored(g, chain, &tid) {
            let w = g.find_tx(&tid).unwrap();
            let ghost prev = r@;
            r.push(clone_tx(&g.txs[w]));
            proof {
                assert(r@[prev.len() as int]@.txid == tid@);
                assert forall|i: int|
                    0 <= i < bound implies anchored_at(*g, c, (#[trigger] r@[i])@.txid, hs[i]) by {
                    assert(anchored_at(*g, c, prev[i]@.txid, hs[i]));
                    assert(r@[i] == prev[i]);
                }
                assert forall|l2: int|
                    0 <= l2 < l + 1 && canonical(*g, c, (#[trigger] g.txs@[l2]).txid@) implies exists|
                    i: int,
                |
                    0 <= i < r@.len() && r@[i]@.txid == g.txs@[l2].txid@ by {
                    if l2 < l {
                        let i = choose|i: int|
                            0 <= i < prev.len() && prev[i]@.txid == g.txs@[l2].txid@;
                        assert(r@[i]@.txid == g.txs@[l2].txid@);
                    } else {
                        assert(r@[prev.len() as int]@.txid == g.txs@[l2].txid@);
                    }
                }
                assert forall|k: Seq<u8>|
                    #[trigger] canonical(*g, c, k) && anchored(*g, c, k) implies exists|i: int|
                    0 <= i < r@.len() && r@[i]@.txid == k by {
                    let i = choose|i: int| 0 <= i < prev.len() && prev[i]@.txid == k;
                    assert(r@[i]@.txid == k);
                }
            }
        } else {
            proof {
                assert forall|l2: int|
                    0 <= l2 < l + 1 && canonical(*g, c, (#[trigger] g.txs@[l2]).txid@) implies exists|
                    i: int,
                |
                    0 <= i < r@.len() && r@[i]@.txid == g.txs@[l2].txid@ by {
                    if l2 == l {
                        let k2 = g.txs@[l2].txid@;
                        if canonical(*g, c, k2) {
                            assert(anchored(*g, c, k2));
                        }
                    }
                }
            }
        }
        l += 1;
    }
    proof {
        assert forall|k: Seq<u8>| #[trigger] canonical(*g, c, k) implies exists|i: int|
            0 <= i < r@.len() && r@[i]@.txid == k by {
            let l2 = lemma_lk_some_index(g.txs_seq(), k);
            assert(g.txs@[l2].txid@ == k);
        }
        assert forall|i: int, j: int|
            0 <= i < j < r@.len() && anchored(*g, c, (#[trigger] r@[j])@.txid) implies anchored(
            *g,
            c,
            (#[trigger] r@[i])@.txid,
        ) by {
            if j < bound {
                assert(anchored_at(*g, c, r@[i]@.txid, hs[i]));
                let a = choose|a: AnchorV|
                    g.has_anchor(a) && a.txid == r@[i]@.txid && chain_at(c, a.height) == Some(
                        a.hash,
                    ) && a.height == hs[i];
                assert(anchored(*g, c, r@[i]@.txid));
            }
        }
        assert forall|i: int, j: int|
            0 <= i < j < r@.len() && anchored(*g, c, (#[trigger] r@[i])@.txid) && anchored(
                *g,
                c,
                (#[trigger] r@[j])@.txid,
            ) implies exists|hi: u32, hj: u32|
            anchored_at(*g, c, r@[i]@.txid, hi) && anchored_at(*g, c, r@[j]@.txid, hj) && hi
                <= hj by {
            assert(j < bound);
            assert(anchored_at(*g, c, r@[i]@.txid, hs[i]));
            assert(anchored_at(*g, c, r@[j]@.txid, hs[j]));
            assert(hs[i] <= hs[j]);
        }
    }
    r
}

/// Lists the canonical transactions that are unconfirmed: the expected
/// mempool contents.
pub fn unconfirmed_canonical_txs(g: &TxGraph, chain: &Vec<Checkpoint>) -> (r: Vec<Tx>)
    requires
        asc_keys(cv(chain@)),
    ensures
        forall|i: int|
            0 <= i < r@.len() ==> unconf_canonical(*g, cv(chain@), (#[trigger] r@[i])@.txid)
                && g.tx_at(r@[i]@.txid) == Some(r@[i]@),
        forall|k: Seq<u8>|
            #[trigger] unconf_canonical(*g, cv(chain@), k) ==> exists|i: int|
                0 <= i < r@.len() && r@[i]@.txid == k,
{
    let mut r: Vec<Tx> = Vec::new();
    let n = g.txs.len();
    let mut l: usize = 0;
    while l < n
        invariant
            n == g.txs@.len(),
            l <= n,
            asc_keys(cv(chain@)),
            forall|i: int|
                0 <= i < r@.len() ==> unconf_canonical(*g, cv(chain@), (#[trigger] r@[i])@.txid)
                    && g.tx_at(r@[i]@.txid) == Some(r@[i]@),
            forall|l2: int|
                0 <= l2 < l && unconf_canonical(*g, cv(chain@), (#[trigger] g.txs@[l2]).txid@)
                    ==> exists|i: int| 0 <= i < r@.len() && r@[i]@.txid == g.txs@[l2].txid@,
        decreases n - l,
    {
        let k = clone_bytes(&g.txs[l].txid);
        if is_canonical(g, chain, &k) && !is_anchored(g, chain, &k) {
            let w = g.find_tx(&k).unwrap();
            let ghost prev = r@;
            r.push(clone_tx(&g.txs[w]));
            proof {
                assert(r@[prev.len() as int]@.txid == k@);
                assert forall|l2: int|
                    0 <= l2 < l + 1 && unconf_canonical(
                        *g,
                        cv(chain@),
                        (#[trigger] g.txs@[l2]).txid@,
                    ) implies exists|i: int|
                    0 <= i < r@.len() && r@[i]@.txid == g.txs@[l2].txid@ by {
                    if l2 < l {
                        let i = choose|i: int|
                            0 <= i < prev.len() && prev[i]@.txid == g.txs@[l2].txid@;
                        assert(r@[i]@.txid == g.txs@[l2].txid@);
                    } else {
                        assert(r@[prev.len() as int]@.txid == g.txs@[l2].txid@);
                    }
                }
            }
        } else {
            proof {
                assert forall|l2: int|
                    0 <= l2 < l + 1 && unconf_canonical(
                        *g,
                        cv(chain@),
                        (#[trigger] g.txs@[l2]).txid@,
                    ) implies exists|i: int|
                    0 <= i < r@.len() && r@[i]@.txid == g.txs@[l2].txid@ by {
                    assert(l2 < l || g.txs@[l2].txid@ == k@);
                }
            }
        }
        l += 1;
    }
    proof {
        assert forall|k: Seq<u8>| #[trigger] unconf_canonical(*g, cv(chain@), k) implies exists|
            i: int,
        |
            0 <= i < r@.len() && r@[i]@.txid == k by {
            let l2 = lemma_lk_some_index(g.txs_seq(), k);
            assert(g.txs@[l2].txid@ == k);
        }
    }
    r
}

/// Whether some canonical transaction spends the outpoint.
pub fn is_spent_canonically(g: &TxGraph, chain: &Vec<Checkpoint>, op: &OutPoint) -> (r: bool)
    requires
        asc_keys(cv(chain@)),
    ensures
        r == spent_by_canonical(*g, cv(chain@), op@),
{
    let n = g.txs.len();
    let mut l: usize = 0;
    while l < n
        invariant
            n == g.txs@.len(),
            l <= n,
            asc_keys(cv(chain@)),
            forall|l2: int|
                0 <= l2 < l ==> {
                    let k2 = (#[trigger] g.txs@[l2]).txid@;
                    !(canonical(*g, cv(chain@), k2) && spends(*g, k2, op@))
                },
        decreases n - l,
    {
        let k = clone_bytes(&g.txs[l].txid);
        let w = match g.find_tx(&k) {
            Some(w) => w,
            None => {
                proof {
                    crate::types::lemma_contains_lk(g.txs_seq(), l as int);
                    assert(false);
                }
                0
            },
        };
        let t = &g.txs[w];
        let m = t.inputs.len();
        let mut j: usize = 0;
        let mut hit = false;
        while j < m
            invariant
                m == t.inputs@.len(),
                j <= m,
                hit ==> exists|j2: int| 0 <= j2 < m && t@.inputs[j2] == op@,
                !hit ==> forall|j2: int| 0 <= j2 < j ==> t@.inputs[j2] != op@,
            decreases m - j,
        {
            if outpoint_eq(&t.inputs[j], op) {
                proof {
                    assert(t@.inputs[j as int] == op@);
                }
                hit = true;
            }
            proof {
                assert(t@.inputs[j as int] == t.inputs@[j as int]@);
            }
            j += 1;
        }
        if hit {
            if is_canonical(g, chain, &k) {
                proof {
                    assert(spends(*g, k@, op@));
                }
                return true;
            }
        }
        proof {
            if !hit {
                if g.tx_at(k@).unwrap().inputs.contains(op@) {
                    let j2 = choose|j2: int|
                        0 <= j2 < t@.inputs.len() && t@.inputs[j2] == op@;
                    assert(false);
                }
            }
        }
        l += 1;
    }
    proof {
        if spent_by_canonical(*g, cv(chain@), op@) {
            let k = choose|k: Seq<u8>|
                #[trigger] canonical(*g, cv(chain@), k) && spends(*g, k, op@);
            let l2 = lemma_lk_some_index(g.txs_seq(), k);
            assert(g.txs@[l2].txid@ == k);
        }
    }
    false
}

/// Derives the canonical UTXO set: for every indexed output, the script it
/// pays and its full record, when its producer is canonical and no
/// canonical transaction spends it.
pub fn filter_unspent_outputs(g: &TxGraph, chain: &Vec<Checkpoint>) -> (r: Vec<(Vec<u8>, FullOut)>)
    requires
        g.wf(),
        asc_keys(cv(chain@)),
    ensures
        forall|i: int|
            0 <= i < r@.len() ==> {
                let op = (#[trigger] r@[i]).1.outpoint@;
                &&& is_utxo(*g, cv(chain@), op)
                &&& r@[i].0@ == g.indexed_at(op).unwrap()
                &&& op.1 < g.tx_at(op.0).unwrap().outputs.len()
                &&& r@[i].1.txout@ == g.tx_at(op.0).unwrap().outputs[op.1 as int]
                &&& position_ok(*g, cv(chain@), op.0, r@[i].1.position@)
            },
        forall|op: OpV|
            #[trigger] is_utxo(*g, cv(chain@), op) ==> exists|i: int|
                0 <= i < r@.len() && r@[i].1.outpoint@ == op,
{
    let mut r: Vec<(Vec<u8>, FullOut)> = Vec::new();
    let n = g.indexed.len();
    let mut l: usize = 0;
    while l < n
        invariant
            g.wf(),
            n == g.indexed@.len(),
            l <= n,
            asc_keys(cv(chain@)),
            forall|i: int|
                0 <= i < r@.len() ==> {
                    let op = (#[trigger] r@[i]).1.outpoint@;
                    &&& is_utxo(*g, cv(chain@), op)
                    &&& r@[i].0@ == g.indexed_at(op).unwrap()
                    &&& op.1 < g.tx_at(op.0).unwrap().outputs.len()
                    &&& r@[i].1.txout@ == g.tx_at(op.0).unwrap().outputs[op.1 as int]
                    &&& position_ok(*g, cv(chain@), op.0, r@[i].1.position@)
                },
            forall|l2: int|
                0 <= l2 < l && is_utxo(*g, cv(chain@), (#[trigger] g.indexed@[l2]).0@)
                    ==> exists|i: int| 0 <= i < r@.len() && r@[i].1.outpoint@ == g.indexed@[l2].0@,
        decreases n - l,
    {
        let op = clone_outpoint(&g.indexed[l].0);
        let canon = is_canonical(g, chain, &op.txid);
        let spent = is_spent_canonically(g, chain, &op);
        proof {
            crate::types::lemma_contains_lk(g.indexed_seq(), l as int);
        }
        if canon && !spent {
            let ghost prev = r@;
            let wi = g.find_indexed(&op).unwrap();
            let sc = clone_bytes(&g.indexed[wi].1);
            let w = g.find_tx(&op.txid).unwrap();
            proof {
                let li = lemma_lk_some_index(g.indexed_seq(), op@);
                assert(g.entry_sound(g.indexed_seq()[li].0, g.indexed_seq()[li].1));
                assert(g.indexed_at(op@).unwrap() == g.indexed_seq()[li].1);
                assert(op@.1 < g.tx_at(op@.0).unwrap().outputs.len());
            }
            let t = &g.txs[w];
            let o = &t.outputs[op.vout as usize];
            let txout = crate::types::TxOut { script: clone_bytes(&o.script), value: o.value };
            let position = match chain_anchor(g, chain, &op.txid) {
                Some(a) => Position::Confirmed { height: a.height, hash: a.hash, time: a.time },
                None => Position::Unconfirmed { last_seen: g.seen_max(&op.txid).unwrap() },
            };
            let fo = FullOut { outpoint: op, txout, position };
            r.push((sc, fo));
            proof {
                assert(r@[prev.len() as int].1.outpoint@ == g.indexed@[l as int].0@);
                assert forall|l2: int|
                    0 <= l2 < l + 1 && is_utxo(*g, cv(chain@), (#[trigger] g.indexed@[l2]).0@)
                        implies exists|i: int|
                    0 <= i < r@.len() && r@[i].1.outpoint@ == g.indexed@[l2].0@ by {
                    if l2 < l {
                        let i = choose|i: int|
                            0 <= i < prev.len() && prev[i].1.outpoint@ == g.indexed@[l2].0@;
                        assert(r@[i].1.outpoint@ == g.indexed@[l2].0@);
                    } else {
                        assert(r@[prev.len() as int].1.outpoint@ == g.indexed@[l2].0@);
                    }
                }
            }
        } else {
            proof {
                assert forall|l2: int|
                    0 <= l2 < l + 1 && is_utxo(*g, cv(chain@), (#[trigger] g.indexed@[l2]).0@)
                        implies exists|i: int|
                    0 <= i < r@.len() && r@[i].1.outpoint@ == g.indexed@[l2].0@ by {
                    assert(l2 < l || g.indexed@[l2].0@ == op@);
                }
            }
        }
        l += 1;
    }
    proof {
        assert forall|op: OpV| #[trigger] is_utxo(*g, cv(chain@), op) implies exists|i: int|
            0 <= i < r@.len() && r@[i].1.outpoint@ == op by {
            let l2 = lemma_lk_some_index(g.indexed_seq(), op);
            assert(g.indexed@[l2].0@ == op);
        }
    }
    r
}

/// After a reorg removed the block that confirmed the only spender of an
/// output, and no canonical replacement spend exists, the output is again a
/// member of the canonical UTXO set.
pub proof fn lemma_reorg_resurrects(
    g: TxGraph,
    c: Seq<(u32, Seq<u8>)>,
    op: OpV,
    spender: Seq<u8>,
)
    requires
        g.indexed_at(op) is Some,
        canonical(g, c, op.0),
        spends(g, spender, op),
        !anchored(g, c, spender),
        !unconf_canonical(g, c, spender),
        forall|k: Seq<u8>| k != spender && #[trigger] spends(g, k, op) ==> !canonical(g, c, k),
    ensures
        is_utxo(g, c, op),
{
    if spent_by_canonical(g, c, op) {
        let k = choose|k: Seq<u8>| #[trigger] canonical(g, c, k) && spends(g, k, op);
        if k == spender {
            assert(!(anchored(g, c, spender) || unconf_canonical(g, c, spender)));
        } else {
            assert(!canonical(g, c, k));
        }
    }
}

} // verus!
