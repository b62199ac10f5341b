//! The tracker facade: owns the checkpoint chain, the transaction graph and
//! the relevance index, ingests block and mempool events, and accumulates a
//! staged changeset for the caller to persist.
//!
//! Secret material is registered through [`SpkTracker::add_secret`] and held
//! only in memory; it is never part of a changeset.  After reconstruction
//! from a persisted changeset the caller must re-supply every secret and
//! call [`SpkTracker::reindex`] before relevance-dependent reads are
//! meaningful again.

use vstd::prelude::*;

use crate::canonical::canonical;
use crate::canonical::is_utxo;
use crate::canonical::position_ok;
use crate::canonical::unconf_canonical;
use crate::canonical::anchored;
use crate::canonical::spends;
use crate::canonical::spent_by_canonical;
use crate::canonical::unconf_candidate;
use crate::canonical::conflicts;
use crate::chain::apply_update;
use crate::chain::asc_keys;
use crate::chain::chain_at;
use crate::chain::chain_from_diff;
use crate::chain::chain_tip;
use crate::chain::chain_wf;
use crate::chain::connects;
use crate::chain::cv;
use crate::chain::lemma_lk_absent;
use crate::chain::lemma_lk_some_index;
use crate::chain::lemma_lk_unique;
use crate::chain::replay_at;
use crate::changeset::ChangeSet;
use crate::changeset::lemma_merge_pointwise;
use crate::graph::TxGraph;
use crate::types::AnchorV;
use crate::types::Checkpoint;
use crate::types::FullOut;
use crate::types::Network;
use crate::types::OpV;
use crate::types::TrackerError;
use crate::types::Tx;
use crate::types::TxV;
use crate::types::clone_bytes;
use crate::types::lk;
use crate::types::lk_max;
use crate::types::max_opt;
use crate::types::or_opt;

verus! {

/// A block's payload as the tracker reads it.
pub struct BlockData {
    pub hash: Vec<u8>,
    pub time: u64,
    pub txs: Vec<Tx>,
}

/// A block event: the block, its height, and the updated checkpoint chain
/// tip reflecting its position (used to detect and apply reorgs).
pub struct BlockEvent {
    pub block: BlockData,
    pub height: u32,
    pub checkpoint_update: Vec<Checkpoint>,
}

/// A mempool event: unconfirmed transactions with last-seen times, and
/// evicted txids with eviction times.
pub struct MempoolEvent {
    pub update: Vec<(Tx, u64)>,
    pub evicted: Vec<(Vec<u8>, u64)>,
}

/// The taproot output script that key derivation assigns to the secret, if
/// the bytes form a valid key.  The result depends on the secret alone.
pub uninterp spec fn spk_of_secret(secret: Seq<u8>) -> Option<Seq<u8>>;

/// Relies on secp256k1's `SecretKey::from_slice` (fails unless the 32 bytes
/// form a valid key) and `x_only_public_key`, and on miniscript's
/// `Descriptor::new_tr` and `script_pubkey`: the derived key-path-only
/// taproot script is a function of the secret bytes alone.
#[verifier::external_body]
fn derive_taproot_spk(secret: &Vec<u8>) -> (r: Option<Vec<u8>>)
    ensures
        match r {
            Some(spk) => spk_of_secret(secret@) == Some(spk@),
            None => spk_of_secret(secret@) is None,
        },
        secret@.len() != 32 ==> r is None,
{
    let secp = bdk_chain::bitcoin::key::Secp256k1::new();
    let sk = match bdk_chain::bitcoin::secp256k1::SecretKey::from_slice(secret) {
        Ok(sk) => sk,
        Err(_) => return None,
    };
    let (pk, _) = sk.x_only_public_key(&secp);
    let desc = match bdk_chain::miniscript::Descriptor::new_tr(pk, None) {
        Ok(d) => d,
        Err(_) => return None,
    };
    Some(desc.script_pubkey().to_bytes())
}

/// The stateful owner of chain, graph, relevance index, secrets and the
/// staged changeset.
pub struct SpkTracker {
    pub graph: TxGraph,
    pub chain: Vec<Checkpoint>,
    pub stage: ChangeSet,
    pub secrets: Vec<(Vec<u8>, Vec<u8>)>,
    pub network: Network,
}

impl SpkTracker {
    pub open spec fn wf(&self) -> bool {
        &&& chain_wf(cv(self.chain@))
        &&& self.graph.wf()
    }

    /// The staged changeset records the whole live state: replaying it from
    /// scratch gives back the chain, and its graph facts coincide with the
    /// graph.  This holds from construction through any run of events, until
    /// the stage is drained.
    pub open spec fn stage_complete(&self) -> bool {
        &&& forall|h: u32|
            #![trigger chain_at(cv(self.chain@), h)]
            #![trigger lk(self.stage.chain_seq(), h)]
            chain_at(cv(self.chain@), h) == replay_at(self.stage.chain_seq(), Seq::empty(), h)
        &&& forall|k: Seq<u8>|
            #![trigger self.graph.tx_at(k)]
            #![trigger lk(self.stage.txs_seq(), k)]
            self.graph.tx_at(k) == lk(self.stage.txs_seq(), k)
        &&& forall|a: AnchorV|
            #![trigger self.graph.has_anchor(a)]
            #![trigger self.stage.anchors_seq().contains(a)]
            self.graph.has_anchor(a) == self.stage.anchors_seq().contains(a)
        &&& forall|k: Seq<u8>|
            #![trigger self.graph.seen_at(k)]
            #![trigger lk_max(self.stage.seen_seq(), k)]
            self.graph.seen_at(k) == lk_max(self.stage.seen_seq(), k)
        &&& forall|k: Seq<u8>|
            #![trigger self.graph.evicted_at(k)]
            #![trigger lk_max(self.stage.evicted_seq(), k)]
            self.graph.evicted_at(k) == lk_max(self.stage.evicted_seq(), k)
        &&& self.stage.network == Some(self.network)
    }

    /// A tracker at genesis: one checkpoint at height 0, nothing watched,
    /// the genesis checkpoint and the network tag already staged.
    pub fn new(network: Network, genesis_hash: Vec<u8>) -> (r: SpkTracker)
        ensures
            r.wf(),
            r.stage_complete(),
            r.network == network,
            cv(r.chain@) =~= seq![(0u32, genesis_hash@)],
            r.graph.txs@.len() == 0,
            r.graph.anchors@.len() == 0,
            r.graph.last_seen@.len() == 0,
            r.graph.last_evicted@.len() == 0,
            r.graph.scripts@.len() == 0,
            r.graph.indexed@.len() == 0,
            r.secrets@.len() == 0,
    {
        let mut chain: Vec<Checkpoint> = Vec::new();
        chain.push(Checkpoint { height: 0, hash: clone_bytes(&genesis_hash) });
        let mut stage = ChangeSet::empty();
        stage.chain.push((0, Some(genesis_hash)));
        stage.network = Some(network);
        let r = SpkTracker {
            graph: TxGraph::new(),
            chain,
            stage,
            secrets: Vec::new(),
            network,
        };
        proof {
            assert(cv(r.chain@) =~= seq![(0u32, r.chain@[0].hash@)]);
            assert(r.stage.chain_seq() =~= seq![(0u32, Some(r.chain@[0].hash@))]);
            assert forall|h: u32| chain_at(cv(r.chain@), h) == replay_at(
                r.stage.chain_seq(),
                Seq::empty(),
                h,
            ) by {
                if h != 0 {
                    lemma_lk_absent(cv(r.chain@), h);
                    lemma_lk_absent(r.stage.chain_seq(), h);
                    lemma_lk_absent(Seq::<(u32, Seq<u8>)>::empty(), h);
                }
            }
            assert(r.graph.txs_seq() =~= Seq::<(Seq<u8>, TxV)>::empty());
            assert(r.stage.txs_seq() =~= Seq::<(Seq<u8>, TxV)>::empty());
            assert(r.graph.anchors_seq() =~= Seq::<AnchorV>::empty());
            assert(r.stage.anchors_seq() =~= Seq::<AnchorV>::empty());
            assert(r.graph.seen_seq() =~= Seq::<(Seq<u8>, u64)>::empty());
            assert(r.stage.seen_seq() =~= Seq::<(Seq<u8>, u64)>::empty());
            assert(r.graph.evicted_seq() =~= Seq::<(Seq<u8>, u64)>::empty());
            assert(r.stage.evicted_seq() =~= Seq::<(Seq<u8>, u64)>::empty());
        }
        r
    }

    /// Reconstructs a tracker from a persisted changeset: the chain is
    /// replayed from the chain diff and the graph takes the recorded facts.
    /// Fails with `MissingNetwork` when the changeset carries no network
    /// tag, and with `MissingGenesis` when its chain diff replays to no
    /// genesis block.  Secrets are never persisted: the relevance index
    /// starts empty and must be rebuilt by `add_secret` and `reindex`.
    pub fn from_changeset(changeset: ChangeSet) -> (r: Result<SpkTracker, TrackerError>)
        requires
            forall|l: int|
                0 <= l < changeset.txs@.len() ==> (#[trigger] changeset.txs@[l])@.outputs.len()
                    <= 0xffff_ffff,
        ensures
            match r {
                Ok(t) => {
                    &&& changeset.network == Some(t.network)
                    &&& t.wf()
                    &&& forall|h: u32|
                        #![trigger chain_at(cv(t.chain@), h)]
                        chain_at(cv(t.chain@), h) == replay_at(
                            changeset.chain_seq(),
                            Seq::empty(),
                            h,
                        )
                    &&& forall|k: Seq<u8>|
                        #![trigger t.graph.tx_at(k)]
                        t.graph.tx_at(k) == lk(changeset.txs_seq(), k)
                    &&& forall|a: AnchorV|
                        #![trigger t.graph.has_anchor(a)]
                        t.graph.has_anchor(a) == changeset.anchors_seq().contains(a)
                    &&& forall|k: Seq<u8>|
                        #![trigger t.graph.seen_at(k)]
                        t.graph.seen_at(k) == lk_max(changeset.seen_seq(), k)
                    &&& forall|k: Seq<u8>|
                        #![trigger t.graph.evicted_at(k)]
                        t.graph.evicted_at(k) == lk_max(changeset.evicted_seq(), k)
                    &&& t.graph.scripts@.len() == 0
                    &&& t.graph.indexed@.len() == 0
                    &&& t.secrets@.len() == 0
                    &&& t.stage@.is_empty_v()
                },
                Err(e) => {
                    ||| (e == TrackerError::MissingNetwork && changeset.network is None)
                    ||| (e == TrackerError::MissingGenesis && changeset.network is Some && !(
                    replay_at(changeset.chain_seq(), Seq::empty(), 0) is Some))
                },
            },
    {
        let network = match changeset.network {
            Some(n) => n,
            None => {
                return Err(TrackerError::MissingNetwork);
            },
        };
        let chain = match chain_from_diff(&changeset.chain) {
            Ok(c) => c,
            Err(e) => {
                return Err(e);
            },
        };
        let graph = TxGraph {
            txs: changeset.txs,
            anchors: changeset.anchors,
            last_seen: changeset.last_seen,
            last_evicted: changeset.last_evicted,
            scripts: Vec::new(),
            indexed: Vec::new(),
        };
        let t = SpkTracker { graph, chain, stage: ChangeSet::empty(), secrets: Vec::new(), network };
        proof {
            assert(t.graph.indexed_seq() =~= Seq::<(OpV, Seq<u8>)>::empty());
        }
        Ok(t)
    }

    /// Drains the staged changeset for persistence, leaving it empty.  No
    /// mutation recorded between two drains is lost: every operation merges
    /// its diff into the stage.
    pub fn take_stage(&mut self) -> (r: ChangeSet)
        ensures
            r == old(self).stage,
            final(self).stage@.is_empty_v(),
            final(self).stage.chain@.len() == 0,
            final(self).stage.txs@.len() == 0,
            final(self).stage.anchors@.len() == 0,
            final(self).stage.last_seen@.len() == 0,
            final(self).stage.last_evicted@.len() == 0,
            final(self).graph == old(self).graph,
            final(self).chain == old(self).chain,
            final(self).secrets == old(self).secrets,
            final(self).network == old(self).network,
    {
        let mut out = ChangeSet::empty();
        core::mem::swap(&mut out, &mut self.stage);
        out
    }

    /// Re-scans stored transactions against the current relevance index;
    /// true when new relevance was discovered.  Needed when a script was
    /// registered after a transaction touching it was observed.  Calling it
    /// again with no intervening changes discovers nothing: the first call
    /// leaves the index complete, and the result is exactly whether the
    /// index was incomplete before.
    pub fn reindex(&mut self) -> (r: bool)
        requires
            old(self).wf(),
        ensures
            final(self).wf(),
            r == !old(self).graph.index_complete(),
            final(self).graph.index_complete(),
            final(self).graph.txs@ == old(self).graph.txs@,
            final(self).graph.anchors@ == old(self).graph.anchors@,
            final(self).graph.last_seen@ == old(self).graph.last_seen@,
            final(self).graph.last_evicted@ == old(self).graph.last_evicted@,
            final(self).graph.scripts@ == old(self).graph.scripts@,
            forall|op: OpV|
                #![trigger final(self).graph.indexed_at(op)]
                #![trigger old(self).graph.indexed_at(op)]
                old(self).graph.indexed_at(op) is Some ==> final(self).graph.indexed_at(op) == old(self).graph.indexed_at(op),
            final(self).chain == old(self).chain,
            final(self).stage == old(self).stage,
            final(self).secrets == old(self).secrets,
            final(self).network == old(self).network,
            old(self).stage_complete() ==> final(self).stage_complete(),
    {
        let r = self.graph.reindex();
        proof {
            if old(self).stage_complete() {
                assert(self.graph.txs_seq() == old(self).graph.txs_seq());
                assert(self.graph.anchors_seq() == old(self).graph.anchors_seq());
                assert(self.graph.seen_seq() == old(self).graph.seen_seq());
                assert(self.graph.evicted_seq() == old(self).graph.evicted_seq());
            }
        }
        r
    }

    /// Registers secret material: derives its taproot script and adds the
    /// script to the relevance index.  True when newly added, false when the
    /// script was already registered (then the secret is not stored again);
    /// `KeyDerivationFailure` exactly when the bytes form no valid key, with
    /// no state mutated.  Secrets are never persisted.  Call
    /// [`SpkTracker::reindex`] afterwards if a transaction touching this
    /// script may already have been observed.
    pub fn add_secret(&mut self, secret: Vec<u8>) -> (r: Result<bool, TrackerError>)
        requires
            old(self).wf(),
        ensures
            final(self).wf(),
            final(self).chain == old(self).chain,
            final(self).stage == old(self).stage,
            final(self).network == old(self).network,
            final(self).graph.txs@ == old(self).graph.txs@,
            final(self).graph.anchors@ == old(self).graph.anchors@,
            final(self).graph.last_seen@ == old(self).graph.last_seen@,
            final(self).graph.last_evicted@ == old(self).graph.last_evicted@,
            final(self).graph.indexed@ == old(self).graph.indexed@,
            old(self).stage_complete() ==> final(self).stage_complete(),
            match r {
                Ok(added) => {
                    &&& spk_of_secret(secret@) is Some
                    &&& added == !old(self).graph.watches(spk_of_secret(secret@).unwrap())
                    &&& forall|x: Seq<u8>|
                        final(self).graph.watches(x) == (old(self).graph.watches(x) || (added && x
                            == spk_of_secret(secret@).unwrap()))
                    &&& (added ==> final(self).secrets@.len() == old(self).secrets@.len() + 1
                        && final(self).secrets@.last().0@ == spk_of_secret(secret@).unwrap()
                        && final(self).secrets@.last().1@ == secret@ && forall|i: int|
                        0 <= i < old(self).secrets@.len() ==> final(self).secrets@[i] == old(self).secrets@[i])
                    &&& (!added ==> final(self).secrets@ == old(self).secrets@
                        && final(self).graph.scripts@ == old(self).graph.scripts@)
                },
                Err(e) => {
                    &&& e == TrackerError::KeyDerivationFailure
                    &&& spk_of_secret(secret@) is None
                    &&& *final(self) == *old(self)
                },
            },
    {
        let spk = match derive_taproot_spk(&secret) {
            Some(s) => s,
            None => {
                return Err(TrackerError::KeyDerivationFailure);
            },
        };
        let ghost spkv = spk@;
        let spk2 = clone_bytes(&spk);
        let added = self.graph.insert_script(spk);
        if added {
            self.secrets.push((spk2, secret));
        }
        proof {
            assert(spkv == spk_of_secret(secret@).unwrap());
            assert forall|x: Seq<u8>|
                self.graph.watches(x) == (old(self).graph.watches(x) || (added && x
                    == spk_of_secret(secret@).unwrap())) by {
                assert(self.graph.watches(x) == (old(self).graph.watches(x) || x == spkv));
                if !added && x == spkv {
                    assert(old(self).graph.watches(spkv));
                }
            }
            if old(self).stage_complete() {
                assert(self.graph.txs_seq() == old(self).graph.txs_seq());
                assert(self.graph.anchors_seq() == old(self).graph.anchors_seq());
                assert(self.graph.seen_seq() == old(self).graph.seen_seq());
                assert(self.graph.evicted_seq() == old(self).graph.evicted_seq());
            }
        }
        Ok(added)
    }

    /// The secrets held in memory, keyed by the script they derive to.
    pub fn secrets_by_spk(&self) -> (r: &Vec<(Vec<u8>, Vec<u8>)>)
        ensures
            r == &self.secrets,
    {
        &self.secrets
    }

    /// The current checkpoint-chain tip.
    pub fn tip(&self) -> (r: Checkpoint)
        requires
            self.wf(),
        ensures
            r@ == cv(self.chain@).last(),
    {
        chain_tip(&self.chain)
    }

    /// The canonical UTXO set: for every relevant output, its script and
    /// full record, when its producer is canonical and no canonical
    /// transaction spends it.
    pub fn utxos(&self) -> (r: Vec<(Vec<u8>, FullOut)>)
        requires
            self.wf(),
        ensures
            forall|i: int|
                0 <= i < r@.len() ==> {
                    let op = (#[trigger] r@[i]).1.outpoint@;
                    &&& is_utxo(self.graph, cv(self.chain@), op)
                    &&& r@[i].0@ == self.graph.indexed_at(op).unwrap()
                    &&& op.1 < self.graph.tx_at(op.0).unwrap().outputs.len()
                    &&& r@[i].1.txout@ == self.graph.tx_at(op.0).unwrap().outputs[op.1 as int]
                    &&& position_ok(self.graph, cv(self.chain@), op.0, r@[i].1.position@)
                },
            forall|op: OpV|
                #[trigger] is_utxo(self.graph, cv(self.chain@), op) ==> exists|i: int|
                    0 <= i < r@.len() && r@[i].1.outpoint@ == op,
    {
        crate::canonical::filter_unspent_outputs(&self.graph, &self.chain)
    }

    /// Lists the canonical transactions: confirmed ones whose block still
    /// stands on the current chain — first, in ascending confirmation
    /// height — followed by the unconfirmed ones not excluded by a
    /// canonical conflicting spend.
    pub fn list_canonical_transactions(&self) -> (r: Vec<Tx>)
        requires
            self.wf(),
        ensures
            forall|i: int|
                0 <= i < r@.len() ==> canonical(
                    self.graph,
                    cv(self.chain@),
                    (#[trigger] r@[i])@.txid,
                ) && self.graph.tx_at(r@[i]@.txid) == Some(r@[i]@),
            forall|k: Seq<u8>|
                #[trigger] canonical(self.graph, cv(self.chain@), k) ==> exists|i: int|
                    0 <= i < r@.len() && r@[i]@.txid == k,
            forall|i: int, j: int|
                0 <= i < j < r@.len() && anchored(self.graph, cv(self.chain@), (
                #[trigger] r@[j])@.txid) ==> anchored(
                    self.graph,
                    cv(self.chain@),
                    (#[trigger] r@[i])@.txid,
                ),
            forall|i: int, j: int|
                0 <= i < j < r@.len() && anchored(self.graph, cv(self.chain@), (
                #[trigger] r@[i])@.txid) && anchored(self.graph, cv(self.chain@), (
                #[trigger] r@[j])@.txid) ==> exists|hi: u32, hj: u32|
                    crate::canonical::anchored_at(self.graph, cv(self.chain@), r@[i]@.txid, hi)
                        && crate::canonical::anchored_at(
                        self.graph,
                        cv(self.chain@),
                        r@[j]@.txid,
                        hj,
                    ) && hi <= hj,
    {
        crate::canonical::canonical_txs(&self.graph, &self.chain)
    }

    /// The canonical transactions that are unconfirmed: what the tracker
    /// expects the mempool to hold.
    pub fn expected_mempool_txs(&self) -> (r: Vec<Tx>)
        requires
            self.wf(),
        ensures
            forall|i: int|
                0 <= i < r@.len() ==> unconf_canonical(
                    self.graph,
                    cv(self.chain@),
                    (#[trigger] r@[i])@.txid,
                ) && self.graph.tx_at(r@[i]@.txid) == Some(r@[i]@),
            forall|k: Seq<u8>|
                #[trigger] unconf_canonical(self.graph, cv(self.chain@), k) ==> exists|i: int|
                    0 <= i < r@.len() && r@[i]@.txid == k,
    {
        crate::canonical::unconfirmed_canonical_txs(&self.graph, &self.chain)
    }
}

impl SpkTracker {
    /// Ingests a block event: records the block's relevant transactions
    /// with their confirmed position, then applies the checkpoint update.
    /// When the update shares no checkpoint with the current chain the
    /// graph-side effects stay applied (graph insertion is chain-independent)
    /// but the chain does not advance and `ChainConflict` is reported.
    pub fn consume_block_event(&mut self, event: &BlockEvent) -> (r: Result<(), TrackerError>)
        requires
            old(self).wf(),
            forall|l: int|
                0 <= l < event.block.txs@.len() ==> (
                #[trigger] event.block.txs@[l])@.outputs.len() <= 0xffff_ffff,
            event.checkpoint_update@.len() > 0,
            asc_keys(cv(event.checkpoint_update@)),
        ensures
            final(self).wf(),
            final(self).network == old(self).network,
            final(self).secrets == old(self).secrets,
            final(self).graph.scripts@ == old(self).graph.scripts@,
            final(self).graph.last_seen@ == old(self).graph.last_seen@,
            final(self).graph.last_evicted@ == old(self).graph.last_evicted@,
            forall|k: Seq<u8>|
                #![trigger final(self).graph.tx_at(k)]
                #![trigger old(self).graph.tx_at(k)]
                old(self).graph.tx_at(k) is Some ==> final(self).graph.tx_at(k) == old(self).graph.tx_at(k),
            forall|op: OpV|
                #![trigger final(self).graph.indexed_at(op)]
                #![trigger old(self).graph.indexed_at(op)]
                old(self).graph.indexed_at(op) is Some ==> final(self).graph.indexed_at(op) == old(self).graph.indexed_at(op),
            forall|l: int|
                0 <= l < event.block.txs@.len() && old(self).graph.relevant(
                    (#[trigger] event.block.txs@[l])@,
                ) ==> final(self).graph.tx_at(event.block.txs@[l]@.txid) is Some,
            forall|l: int|
                0 <= l < event.block.txs@.len() && final(self).graph.tx_at(
                    (#[trigger] event.block.txs@[l])@.txid,
                ) is Some ==> final(self).graph.has_anchor(
                    AnchorV {
                        txid: event.block.txs@[l]@.txid,
                        height: event.height,
                        hash: event.block.hash@,
                        time: event.block.time,
                    },
                ),
            forall|x: AnchorV|
                #![trigger final(self).graph.has_anchor(x)]
                final(self).graph.has_anchor(x) ==> old(self).graph.has_anchor(x) || exists|l: int|
                    0 <= l < event.block.txs@.len() && x == (AnchorV {
                        txid: event.block.txs@[l]@.txid,
                        height: event.height,
                        hash: event.block.hash@,
                        time: event.block.time,
                    }),
            forall|k: Seq<u8>|
                #![trigger final(self).graph.tx_at(k)]
                final(self).graph.tx_at(k) is Some ==> old(self).graph.tx_at(k) is Some || exists|
                    l: int,
                |
                    0 <= l < event.block.txs@.len() && event.block.txs@[l]@.txid == k && final(self).graph.tx_at(k) == Some(event.block.txs@[l]@) && final(self).graph.touches_watched(event.block.txs@[l]@)
                    ,
            forall|k: Seq<u8>, oi: u32|
                old(self).graph.tx_at(k) is None && final(self).graph.tx_at(k) is Some && oi
                    < final(self).graph.tx_at(k).unwrap().outputs.len() && old(self).graph.watches(
                    final(self).graph.tx_at(k).unwrap().outputs[oi as int].0,
                ) ==> (#[trigger] final(self).graph.indexed_at((k, oi))) == Some(
                    final(self).graph.tx_at(k).unwrap().outputs[oi as int].0,
                ),
            match r {
                Ok(()) => {
                    &&& connects(cv(old(self).chain@), cv(event.checkpoint_update@))
                    &&& chain_wf(cv(final(self).chain@))
                    &&& exists|p: (u32, Seq<u8>)|
                        crate::chain::spliced(
                            cv(old(self).chain@),
                            cv(event.checkpoint_update@),
                            cv(final(self).chain@),
                            p,
                        )
                },
                Err(e) => {
                    &&& e == TrackerError::ChainConflict
                    &&& !connects(cv(old(self).chain@), cv(event.checkpoint_update@))
                    &&& final(self).chain@ == old(self).chain@
                },
            },
            old(self).stage_complete() ==> final(self).stage_complete(),
    {
        let ghost t0 = *self;
        let d1 = self.graph.apply_block_relevant(
            &event.block.txs,
            event.height,
            &event.block.hash,
            event.block.time,
        );
        let ghost g1 = self.graph;
        let ghost d1g = d1;
        let ghost s0 = self.stage;
        self.stage.merge(d1);
        let ghost s1 = self.stage;
        proof {
            lemma_merge_pointwise(s0, d1g, s1);
            if t0.stage_complete() {
                assert forall|k: Seq<u8>|
                    #![trigger g1.tx_at(k)]
                    #![trigger lk(s1.txs_seq(), k)]
                    g1.tx_at(k) == lk(s1.txs_seq(), k) by {
                    assert(g1.tx_at(k) == or_opt(t0.graph.tx_at(k), lk(d1g.txs_seq(), k)));
                    assert(lk(s1.txs_seq(), k) == or_opt(lk(s0.txs_seq(), k), lk(d1g.txs_seq(), k)));
                    assert(t0.graph.tx_at(k) == lk(s0.txs_seq(), k));
                }
                assert forall|a: AnchorV|
                    #![trigger g1.has_anchor(a)]
                    #![trigger s1.anchors_seq().contains(a)]
                    g1.has_anchor(a) == s1.anchors_seq().contains(a) by {
                    assert(g1.has_anchor(a) == (t0.graph.has_anchor(a)
                        || d1g.anchors_seq().contains(a)));
                    assert(s1.anchors_seq().contains(a) == (s0.anchors_seq().contains(a)
                        || d1g.anchors_seq().contains(a)));
                }
                assert forall|k: Seq<u8>|
                    #![trigger g1.seen_at(k)]
                    #![trigger lk_max(s1.seen_seq(), k)]
                    g1.seen_at(k) == lk_max(s1.seen_seq(), k) by {
                    assert(d1g.seen_seq() =~= Seq::<(Seq<u8>, u64)>::empty());
                    assert(lk_max(s1.seen_seq(), k) == max_opt(
                        lk_max(s0.seen_seq(), k),
                        lk_max(d1g.seen_seq(), k),
                    ));
                    assert(g1.seen_seq() == t0.graph.seen_seq());
                }
                assert forall|k: Seq<u8>|
                    #![trigger g1.evicted_at(k)]
                    #![trigger lk_max(s1.evicted_seq(), k)]
                    g1.evicted_at(k) == lk_max(s1.evicted_seq(), k) by {
                    assert(d1g.evicted_seq() =~= Seq::<(Seq<u8>, u64)>::empty());
                    assert(lk_max(s1.evicted_seq(), k) == max_opt(
                        lk_max(s0.evicted_seq(), k),
                        lk_max(d1g.evicted_seq(), k),
                    ));
                    assert(g1.evicted_seq() == t0.graph.evicted_seq());
                }
                assert forall|h: u32|
                    #![trigger lk(s1.chain_seq(), h)]
                    lk(s1.chain_seq(), h) == lk(s0.chain_seq(), h) by {
                    assert(d1g.chain_seq() =~= Seq::<(u32, Option<Seq<u8>>)>::empty());
                    lemma_lk_absent(d1g.chain_seq(), h);
                }
                assert(s1.network == Some(t0.network));
            }
        }
        let cr = apply_update(&mut self.chain, &event.checkpoint_update);
        match cr {
            Err(e) => {
                proof {
                    if t0.stage_complete() {
                        assert forall|h: u32|
                            #![trigger chain_at(cv(self.chain@), h)]
                            #![trigger lk(self.stage.chain_seq(), h)]
                            chain_at(cv(self.chain@), h) == replay_at(
                                self.stage.chain_seq(),
                                Seq::empty(),
                                h,
                            ) by {
                            assert(lk(s1.chain_seq(), h) == lk(s0.chain_seq(), h));
                            assert(chain_at(cv(t0.chain@), h) == replay_at(
                                s0.chain_seq(),
                                Seq::empty(),
                                h,
                            ));
                        }
                    }
                }
                Err(e)
            },
            Ok(d2) => {
                let ghost c2 = self.chain@;
                let ghost d2g = d2;
                self.stage.merge(d2);
                let ghost s2 = self.stage;
                proof {
                    lemma_merge_pointwise(s1, d2g, s2);
                    if t0.stage_complete() {
                        assert forall|h: u32|
                            #![trigger chain_at(cv(self.chain@), h)]
                            #![trigger lk(self.stage.chain_seq(), h)]
                            chain_at(cv(self.chain@), h) == replay_at(
                                self.stage.chain_seq(),
                                Seq::empty(),
                                h,
                            ) by {
                            assert(chain_at(cv(c2), h) == replay_at(
                                d2g.chain_seq(),
                                cv(t0.chain@),
                                h,
                            ));
                            assert(lk(s2.chain_seq(), h) == or_opt(
                                lk(s1.chain_seq(), h),
                                lk(d2g.chain_seq(), h),
                            ));
                            assert(lk(s1.chain_seq(), h) == lk(s0.chain_seq(), h));
                            assert(chain_at(cv(t0.chain@), h) == replay_at(
                                s0.chain_seq(),
                                Seq::empty(),
                                h,
                            ));
                            lemma_lk_absent(Seq::<(u32, Seq<u8>)>::empty(), h);
                        }
                        assert(d2g.txs@.len() == 0 && d2g.anchors@.len() == 0 && d2g.last_seen@.len()
                            == 0 && d2g.last_evicted@.len() == 0 && d2g.network is None);
                        assert forall|k: Seq<u8>|
                            #![trigger self.graph.tx_at(k)]
                            #![trigger lk(self.stage.txs_seq(), k)]
                            self.graph.tx_at(k) == lk(self.stage.txs_seq(), k) by {
                            assert(d2g.txs_seq() =~= Seq::<(Seq<u8>, TxV)>::empty());
                            assert(lk(s2.txs_seq(), k) == or_opt(
                                lk(s1.txs_seq(), k),
                                lk(d2g.txs_seq(), k),
                            ));
                            assert(g1.tx_at(k) == lk(s1.txs_seq(), k));
                        }
                        assert forall|a: AnchorV|
                            #![trigger self.graph.has_anchor(a)]
                            #![trigger self.stage.anchors_seq().contains(a)]
                            self.graph.has_anchor(a) == self.stage.anchors_seq().contains(a) by {
                            assert(d2g.anchors_seq() =~= Seq::<AnchorV>::empty());
                            assert(s2.anchors_seq().contains(a) == (s1.anchors_seq().contains(a)
                                || d2g.anchors_seq().contains(a)));
                            assert(g1.has_anchor(a) == s1.anchors_seq().contains(a));
                        }
                        assert forall|k: Seq<u8>|
                            #![trigger self.graph.seen_at(k)]
                            #![trigger lk_max(self.stage.seen_seq(), k)]
                            self.graph.seen_at(k) == lk_max(self.stage.seen_seq(), k) by {
                            assert(d2g.seen_seq() =~= Seq::<(Seq<u8>, u64)>::empty());
                            assert(lk_max(s2.seen_seq(), k) == max_opt(
                                lk_max(s1.seen_seq(), k),
                                lk_max(d2g.seen_seq(), k),
                            ));
                            assert(g1.seen_at(k) == lk_max(s1.seen_seq(), k));
                        }
                        assert forall|k: Seq<u8>|
                            #![trigger self.graph.evicted_at(k)]
                            #![trigger lk_max(self.stage.evicted_seq(), k)]
                            self.graph.evicted_at(k) == lk_max(self.stage.evicted_seq(), k) by {
                            assert(d2g.evicted_seq() =~= Seq::<(Seq<u8>, u64)>::empty());
                            assert(lk_max(s2.evicted_seq(), k) == max_opt(
                                lk_max(s1.evicted_seq(), k),
                                lk_max(d2g.evicted_seq(), k),
                            ));
                            assert(g1.evicted_at(k) == lk_max(s1.evicted_seq(), k));
                        }
                    }
                }
                Ok(())
            },
        }
    }

    /// Ingests a mempool event: applies the unconfirmed batch, then the
    /// eviction batch, merging both diffs into the stage.
    pub fn consume_mempool_event(&mut self, event: &MempoolEvent)
        requires
            old(self).wf(),
            forall|l: int|
                0 <= l < event.update@.len() ==> (#[trigger] event.update@[l]).0@.outputs.len()
                    <= 0xffff_ffff,
        ensures
            final(self).wf(),
            final(self).chain == old(self).chain,
            final(self).network == old(self).network,
            final(self).secrets == old(self).secrets,
            final(self).graph.scripts@ == old(self).graph.scripts@,
            final(self).graph.anchors@ == old(self).graph.anchors@,
            forall|k: Seq<u8>|
                #![trigger final(self).graph.tx_at(k)]
                #![trigger old(self).graph.tx_at(k)]
                old(self).graph.tx_at(k) is Some ==> final(self).graph.tx_at(k) == old(self).graph.tx_at(k),
            forall|l: int|
                0 <= l < event.update@.len() && old(self).graph.relevant(
                    (#[trigger] event.update@[l]).0@,
                ) ==> final(self).graph.tx_at(event.update@[l].0@.txid) is Some && final(self).graph.seen_at(event.update@[l].0@.txid) is Some && final(self).graph.seen_at(
                    event.update@[l].0@.txid,
                ).unwrap() >= event.update@[l].1,
            forall|l: int|
                0 <= l < event.evicted@.len() && old(self).graph.tx_at(
                    (#[trigger] event.evicted@[l]).0@,
                ) is Some ==> final(self).graph.evicted_at(event.evicted@[l].0@) is Some && final(self).graph.evicted_at(event.evicted@[l].0@).unwrap() >= event.evicted@[l].1,
            forall|k: Seq<u8>|
                #![trigger final(self).graph.tx_at(k)]
                final(self).graph.tx_at(k) is Some ==> old(self).graph.tx_at(k) is Some || exists|
                    l: int,
                |
                    0 <= l < event.update@.len() && event.update@[l].0@.txid == k && final(self).graph.tx_at(k) == Some(event.update@[l].0@) && final(self).graph.touches_watched(event.update@[l].0@)
                    ,
            forall|k: Seq<u8>, oi: u32|
                old(self).graph.tx_at(k) is None && final(self).graph.tx_at(k) is Some && oi
                    < final(self).graph.tx_at(k).unwrap().outputs.len() && old(self).graph.watches(
                    final(self).graph.tx_at(k).unwrap().outputs[oi as int].0,
                ) ==> (#[trigger] final(self).graph.indexed_at((k, oi))) == Some(
                    final(self).graph.tx_at(k).unwrap().outputs[oi as int].0,
                ),
            forall|k: Seq<u8>|
                #![trigger final(self).graph.seen_at(k)]
                #![trigger old(self).graph.seen_at(k)]
                final(self).graph.seen_at(k) == old(self).graph.seen_at(k) || exists|l: int|
                    0 <= l < event.update@.len() && event.update@[l].0@.txid == k && final(self).graph.seen_at(k) == max_opt(
                        old(self).graph.seen_at(k),
                        Some(event.update@[l].1),
                    ),
            forall|k: Seq<u8>|
                #![trigger final(self).graph.evicted_at(k)]
                #![trigger old(self).graph.evicted_at(k)]
                final(self).graph.evicted_at(k) == old(self).graph.evicted_at(k) || exists|l: int|
                    0 <= l < event.evicted@.len() && event.evicted@[l].0@ == k && final(self).graph.evicted_at(k) == max_opt(
                        old(self).graph.evicted_at(k),
                        Some(event.evicted@[l].1),
                    ),
            old(self).stage_complete() ==> final(self).stage_complete(),
    {
        let ghost t0 = *self;
        let d1 = self.graph.batch_insert_unconfirmed(&event.update);
        let ghost g1 = self.graph;
        let ghost d1g = d1;
        let ghost s0 = self.stage;
        self.stage.merge(d1);
        let ghost s1 = self.stage;
        proof {
            lemma_merge_pointwise(s0, d1g, s1);
            if t0.stage_complete() {
                assert forall|k: Seq<u8>|
                    #![trigger g1.tx_at(k)]
                    #![trigger lk(s1.txs_seq(), k)]
                    g1.tx_at(k) == lk(s1.txs_seq(), k) by {
                    assert(g1.tx_at(k) == or_opt(t0.graph.tx_at(k), lk(d1g.txs_seq(), k)));
                    assert(lk(s1.txs_seq(), k) == or_opt(lk(s0.txs_seq(), k), lk(d1g.txs_seq(), k)));
                    assert(t0.graph.tx_at(k) == lk(s0.txs_seq(), k));
                }
                assert forall|k: Seq<u8>|
                    #![trigger g1.seen_at(k)]
                    #![trigger lk_max(s1.seen_seq(), k)]
                    g1.seen_at(k) == lk_max(s1.seen_seq(), k) by {
                    assert(g1.seen_at(k) == max_opt(t0.graph.seen_at(k), lk_max(d1g.seen_seq(), k)));
                    assert(lk_max(s1.seen_seq(), k) == max_opt(
                        lk_max(s0.seen_seq(), k),
                        lk_max(d1g.seen_seq(), k),
                    ));
                    assert(t0.graph.seen_at(k) == lk_max(s0.seen_seq(), k));
                }
                assert forall|a: AnchorV|
                    #![trigger g1.has_anchor(a)]
                    #![trigger s1.anchors_seq().contains(a)]
                    g1.has_anchor(a) == s1.anchors_seq().contains(a) by {
                    assert(d1g.anchors@.len() == 0);
                    assert(d1g.anchors_seq() =~= Seq::<AnchorV>::empty());
                    assert(s1.anchors_seq().contains(a) == (s0.anchors_seq().contains(a)
                        || d1g.anchors_seq().contains(a)));
                    assert(g1.anchors_seq() == t0.graph.anchors_seq());
                }
                assert forall|k: Seq<u8>|
                    #![trigger g1.evicted_at(k)]
                    #![trigger lk_max(s1.evicted_seq(), k)]
                    g1.evicted_at(k) == lk_max(s1.evicted_seq(), k) by {
                    assert(d1g.evicted_seq() =~= Seq::<(Seq<u8>, u64)>::empty());
                    assert(lk_max(s1.evicted_seq(), k) == max_opt(
                        lk_max(s0.evicted_seq(), k),
                        lk_max(d1g.evicted_seq(), k),
                    ));
                    assert(g1.evicted_seq() == t0.graph.evicted_seq());
                }
                assert forall|h: u32|
                    #![trigger lk(s1.chain_seq(), h)]
                    lk(s1.chain_seq(), h) == lk(s0.chain_seq(), h) by {
                    assert(d1g.chain_seq() =~= Seq::<(u32, Option<Seq<u8>>)>::empty());
                    lemma_lk_absent(d1g.chain_seq(), h);
                }
            }
        }
        let d2 = self.graph.batch_insert_evicted(&event.evicted);
        let ghost g2 = self.graph;
        let ghost d2g = d2;
        self.stage.merge(d2);
        let ghost s2 = self.stage;
        proof {
            lemma_merge_pointwise(s1, d2g, s2);
            assert forall|k: Seq<u8>| g1.tx_at(k) is Some implies g2.tx_at(k) == g1.tx_at(k) by {
                assert(g2.txs_seq() == g1.txs_seq());
            }
            assert forall|k: Seq<u8>, oi: u32|
                old(self).graph.tx_at(k) is None && self.graph.tx_at(k) is Some && oi
                    < self.graph.tx_at(k).unwrap().outputs.len() && old(self).graph.watches(
                    self.graph.tx_at(k).unwrap().outputs[oi as int].0,
                ) implies (#[trigger] self.graph.indexed_at((k, oi))) == Some(
                self.graph.tx_at(k).unwrap().outputs[oi as int].0,
            ) by {
                assert(g2.txs_seq() == g1.txs_seq());
                assert(g2.indexed_seq() == g1.indexed_seq());
                assert(self.graph.tx_at(k) == g1.tx_at(k));
                assert(self.graph.indexed_at((k, oi)) == g1.indexed_at((k, oi)));
            }
            assert forall|k: Seq<u8>|
                #![trigger self.graph.tx_at(k)]
                self.graph.tx_at(k) is Some implies old(self).graph.tx_at(k) is Some || exists|
                l: int,
            |
                0 <= l < event.update@.len() && event.update@[l].0@.txid == k
                    && self.graph.tx_at(k) == Some(event.update@[l].0@)
                    && self.graph.touches_watched(event.update@[l].0@) by {
                assert(g2.txs_seq() == g1.txs_seq());
                assert(self.graph.tx_at(k) == g1.tx_at(k));
                if g1.tx_at(k) is Some && !(old(self).graph.tx_at(k) is Some) {
                    assert(g1.tx_at(k) == or_opt(old(self).graph.tx_at(k), lk(d1g.txs_seq(), k)));
                    assert(lk(d1g.txs_seq(), k) is Some);
                    let l = choose|l: int|
                        0 <= l < event.update@.len() && event.update@[l].0@.txid == k && lk(
                            d1g.txs_seq(),
                            k,
                        ) == Some(event.update@[l].0@) && g1.touches_watched(event.update@[l].0@);
                    assert(self.graph.tx_at(k) == Some(event.update@[l].0@));
                    assert forall|x: Seq<u8>| g1.watches(x) implies self.graph.watches(x) by {
                        assert(self.graph.scripts_seq() == g1.scripts_seq());
                    }
                    assert forall|op: OpV|
                        g1.indexed_at(op) is Some implies self.graph.indexed_at(op) is Some by {
                        assert(self.graph.indexed_seq() == g1.indexed_seq());
                    }
                    crate::graph::lemma_touches_monotone(g1, self.graph, event.update@[l].0@);
                    assert(0 <= l < event.update@.len() && event.update@[l].0@.txid == k
                        && self.graph.tx_at(k) == Some(event.update@[l].0@)
                        && self.graph.touches_watched(event.update@[l].0@));
                }
            }
            if t0.stage_complete() {
                assert forall|k: Seq<u8>|
                    #![trigger g2.tx_at(k)]
                    #![trigger lk(s2.txs_seq(), k)]
                    g2.tx_at(k) == lk(s2.txs_seq(), k) by {
                    assert(d2g.txs_seq() =~= Seq::<(Seq<u8>, TxV)>::empty());
                    assert(lk(s2.txs_seq(), k) == or_opt(lk(s1.txs_seq(), k), lk(d2g.txs_seq(), k)));
                    assert(g2.txs_seq() == g1.txs_seq());
                    assert(g1.tx_at(k) == lk(s1.txs_seq(), k));
                }
                assert forall|k: Seq<u8>|
                    #![trigger g2.seen_at(k)]
                    #![trigger lk_max(s2.seen_seq(), k)]
                    g2.seen_at(k) == lk_max(s2.seen_seq(), k) by {
                    assert(d2g.seen_seq() =~= Seq::<(Seq<u8>, u64)>::empty());
                    assert(lk_max(s2.seen_seq(), k) == max_opt(
                        lk_max(s1.seen_seq(), k),
                        lk_max(d2g.seen_seq(), k),
                    ));
                    assert(g2.seen_seq() == g1.seen_seq());
                    assert(g1.seen_at(k) == lk_max(s1.seen_seq(), k));
                }
                assert forall|a: AnchorV|
                    #![trigger g2.has_anchor(a)]
                    #![trigger s2.anchors_seq().contains(a)]
                    g2.has_anchor(a) == s2.anchors_seq().contains(a) by {
                    assert(d2g.anchors_seq() =~= Seq::<AnchorV>::empty());
                    assert(s2.anchors_seq().contains(a) == (s1.anchors_seq().contains(a)
                        || d2g.anchors_seq().contains(a)));
                    assert(g2.anchors_seq() == g1.anchors_seq());
                    assert(g1.has_anchor(a) == s1.anchors_seq().contains(a));
                }
                assert forall|k: Seq<u8>|
                    #![trigger g2.evicted_at(k)]
                    #![trigger lk_max(s2.evicted_seq(), k)]
                    g2.evicted_at(k) == lk_max(s2.evicted_seq(), k) by {
                    assert(g2.evicted_at(k) == max_opt(
                        g1.evicted_at(k),
                        lk_max(d2g.evicted_seq(), k),
                    ));
                    assert(lk_max(s2.evicted_seq(), k) == max_opt(
                        lk_max(s1.evicted_seq(), k),
                        lk_max(d2g.evicted_seq(), k),
                    ));
                    assert(g1.evicted_at(k) == lk_max(s1.evicted_seq(), k));
                }
                assert forall|h: u32|
                    #![trigger chain_at(cv(self.chain@), h)]
                    #![trigger lk(self.stage.chain_seq(), h)]
                    chain_at(cv(self.chain@), h) == replay_at(
                        self.stage.chain_seq(),
                        Seq::empty(),
                        h,
                    ) by {
                    assert(d2g.chain_seq() =~= Seq::<(u32, Option<Seq<u8>>)>::empty());
                    lemma_lk_absent(d2g.chain_seq(), h);
                    assert(lk(s2.chain_seq(), h) == lk(s1.chain_seq(), h));
                    assert(lk(s1.chain_seq(), h) == lk(s0.chain_seq(), h));
                    assert(chain_at(cv(t0.chain@), h) == replay_at(
                        s0.chain_seq(),
                        Seq::empty(),
                        h,
                    ));
                }
            }
        }
    }
}

/// The two trackers record the same facts: same chain map, transactions,
/// anchors, timestamps and relevant-output index.
pub open spec fn core_equal(t1: SpkTracker, t2: SpkTracker) -> bool {
    &&& forall|h: u32|
        #![trigger chain_at(cv(t1.chain@), h)]
        #![trigger chain_at(cv(t2.chain@), h)]
        chain_at(cv(t1.chain@), h) == chain_at(cv(t2.chain@), h)
    &&& forall|k: Seq<u8>|
        #![trigger t1.graph.tx_at(k)]
        #![trigger t2.graph.tx_at(k)]
        t1.graph.tx_at(k) == t2.graph.tx_at(k)
    &&& forall|a: AnchorV|
        #![trigger t1.graph.has_anchor(a)]
        #![trigger t2.graph.has_anchor(a)]
        t1.graph.has_anchor(a) == t2.graph.has_anchor(a)
    &&& forall|k: Seq<u8>|
        #![trigger t1.graph.seen_at(k)]
        #![trigger t2.graph.seen_at(k)]
        t1.graph.seen_at(k) == t2.graph.seen_at(k)
    &&& forall|k: Seq<u8>|
        #![trigger t1.graph.evicted_at(k)]
        #![trigger t2.graph.evicted_at(k)]
        t1.graph.evicted_at(k) == t2.graph.evicted_at(k)
    &&& forall|op: OpV|
        #![trigger t1.graph.indexed_at(op)]
        #![trigger t2.graph.indexed_at(op)]
        t1.graph.indexed_at(op) == t2.graph.indexed_at(op)
}

/// Trackers that record the same facts are observationally the same: equal
/// tip, equal canonical transactions, equal canonical UTXO set.
pub proof fn lemma_core_equal_observations(t1: SpkTracker, t2: SpkTracker)
    requires
        t1.wf(),
        t2.wf(),
        core_equal(t1, t2),
    ensures
        cv(t1.chain@).last() == cv(t2.chain@).last(),
        forall|k: Seq<u8>|
            #![trigger canonical(t1.graph, cv(t1.chain@), k)]
            #![trigger canonical(t2.graph, cv(t2.chain@), k)]
            canonical(t1.graph, cv(t1.chain@), k) == canonical(t2.graph, cv(t2.chain@), k),
        forall|op: OpV|
            #![trigger is_utxo(t1.graph, cv(t1.chain@), op)]
            #![trigger is_utxo(t2.graph, cv(t2.chain@), op)]
            is_utxo(t1.graph, cv(t1.chain@), op) == is_utxo(t2.graph, cv(t2.chain@), op),
{
    let c1 = cv(t1.chain@);
    let c2 = cv(t2.chain@);
    // equal chain maps on strictly ascending chains give equal tips
    lemma_lk_unique(c1, c1.len() - 1);
    lemma_lk_unique(c2, c2.len() - 1);
    assert(chain_at(c2, c1.last().0) == Some(c1.last().1));
    crate::types::lemma_lk_contains(c2, c1.last().0, c1.last().1);
    let i2 = choose|i2: int| 0 <= i2 < c2.len() && c2[i2] == (c1.last().0, c1.last().1);
    assert(c1.last().0 <= c2.last().0) by {
        if i2 < c2.len() - 1 {
            assert(c2[i2].0 < c2.last().0);
        }
    }
    assert(chain_at(c1, c2.last().0) == Some(c2.last().1));
    crate::types::lemma_lk_contains(c1, c2.last().0, c2.last().1);
    let i1 = choose|i1: int| 0 <= i1 < c1.len() && c1[i1] == (c2.last().0, c2.last().1);
    assert(c2.last().0 <= c1.last().0) by {
        if i1 < c1.len() - 1 {
            assert(c1[i1].0 < c1.last().0);
        }
    }
    assert(c1.last().0 == c2.last().0);
    assert(Some(c1.last().1) == Some(c2.last().1));
    assert forall|k: Seq<u8>|
        #![trigger anchored(t1.graph, c1, k)]
        #![trigger anchored(t2.graph, c2, k)]
        anchored(t1.graph, c1, k) == anchored(t2.graph, c2, k) by {
        if anchored(t1.graph, c1, k) {
            let a = choose|a: AnchorV|
                t1.graph.has_anchor(a) && a.txid == k && chain_at(c1, a.height) == Some(a.hash);
            assert(t2.graph.has_anchor(a) && chain_at(c2, a.height) == Some(a.hash));
        }
        if anchored(t2.graph, c2, k) {
            let a = choose|a: AnchorV|
                t2.graph.has_anchor(a) && a.txid == k && chain_at(c2, a.height) == Some(a.hash);
            assert(t1.graph.has_anchor(a) && chain_at(c1, a.height) == Some(a.hash));
        }
    }
    assert forall|k: Seq<u8>|
        #![trigger canonical(t1.graph, c1, k)]
        #![trigger canonical(t2.graph, c2, k)]
        canonical(t1.graph, c1, k) == canonical(t2.graph, c2, k) by {
        assert(unconf_candidate(t1.graph, k) == unconf_candidate(t2.graph, k));
        assert(unconf_canonical(t1.graph, c1, k) == unconf_canonical(t2.graph, c2, k)) by {
            if unconf_canonical(t1.graph, c1, k) {
                assert forall|k2: Seq<u8>|
                    k2 != k && (#[trigger] t2.graph.tx_at(k2)) is Some && conflicts(
                        t2.graph.tx_at(k).unwrap(),
                        t2.graph.tx_at(k2).unwrap(),
                    ) implies !anchored(t2.graph, c2, k2) && (unconf_candidate(t2.graph, k2)
                    ==> t2.graph.seen_at(k2).unwrap() < t2.graph.seen_at(k).unwrap()) by {
                    assert(t1.graph.tx_at(k2) is Some);
                    assert(unconf_candidate(t1.graph, k2) == unconf_candidate(t2.graph, k2));
                }
            }
            if unconf_canonical(t2.graph, c2, k) {
                assert forall|k2: Seq<u8>|
                    k2 != k && (#[trigger] t1.graph.tx_at(k2)) is Some && conflicts(
                        t1.graph.tx_at(k).unwrap(),
                        t1.graph.tx_at(k2).unwrap(),
                    ) implies !anchored(t1.graph, c1, k2) && (unconf_candidate(t1.graph, k2)
                    ==> t1.graph.seen_at(k2).unwrap() < t1.graph.seen_at(k).unwrap()) by {
                    assert(t2.graph.tx_at(k2) is Some);
                    assert(unconf_candidate(t1.graph, k2) == unconf_candidate(t2.graph, k2));
                }
            }
        }
    }
    assert forall|op: OpV|
        #![trigger is_utxo(t1.graph, c1, op)]
        #![trigger is_utxo(t2.graph, c2, op)]
        is_utxo(t1.graph, c1, op) == is_utxo(t2.graph, c2, op) by {
        assert(spent_by_canonical(t1.graph, c1, op) == spent_by_canonical(t2.graph, c2, op)) by {
            if spent_by_canonical(t1.graph, c1, op) {
                let k = choose|k: Seq<u8>|
                    #[trigger] canonical(t1.graph, c1, k) && spends(t1.graph, k, op);
                assert(canonical(t2.graph, c2, k) && spends(t2.graph, k, op));
            }
            if spent_by_canonical(t2.graph, c2, op) {
                let k = choose|k: Seq<u8>|
                    #[trigger] canonical(t2.graph, c2, k) && spends(t2.graph, k, op);
                assert(canonical(t1.graph, c1, k) && spends(t1.graph, k, op));
            }
        }
    }
}

/// Draining followed by reconstruction reproduces the canonical view.
///
/// Let `t1` be a tracker whose stage still records everything since
/// construction, and `t2` the tracker that `from_changeset` builds from that
/// stage (its ensures are this lemma's premises on `t2`).  Once the caller
/// re-registers the same scripts — secrets are never persisted — and both
/// relevance indexes are complete (`reindex`), the two trackers have the
/// same tip, the same canonical transactions, and the same UTXO set.
pub proof fn lemma_persist_round_trip(t1: SpkTracker, t2: SpkTracker)
    requires
        t1.wf(),
        t2.wf(),
        t1.stage_complete(),
        // what from_changeset(t1.stage) guarantees of t2
        forall|h: u32|
            #![trigger chain_at(cv(t2.chain@), h)]
            chain_at(cv(t2.chain@), h) == replay_at(t1.stage.chain_seq(), Seq::empty(), h),
        forall|k: Seq<u8>| #![trigger t2.graph.tx_at(k)]
            t2.graph.tx_at(k) == lk(t1.stage.txs_seq(), k),
        forall|a: AnchorV| #![trigger t2.graph.has_anchor(a)]
            t2.graph.has_anchor(a) == t1.stage.anchors_seq().contains(a),
        forall|k: Seq<u8>| #![trigger t2.graph.seen_at(k)]
            t2.graph.seen_at(k) == lk_max(t1.stage.seen_seq(), k),
        forall|k: Seq<u8>| #![trigger t2.graph.evicted_at(k)]
            t2.graph.evicted_at(k) == lk_max(t1.stage.evicted_seq(), k),
        // relevance re-established on both sides
        forall|x: Seq<u8>|
            #![trigger t1.graph.watches(x)]
            #![trigger t2.graph.watches(x)]
            t1.graph.watches(x) == t2.graph.watches(x),
        t1.graph.index_complete(),
        t2.graph.index_complete(),
    ensures
        cv(t1.chain@).last() == cv(t2.chain@).last(),
        forall|k: Seq<u8>|
            #![trigger canonical(t1.graph, cv(t1.chain@), k)]
            #![trigger canonical(t2.graph, cv(t2.chain@), k)]
            canonical(t1.graph, cv(t1.chain@), k) == canonical(t2.graph, cv(t2.chain@), k),
        forall|op: OpV|
            #![trigger is_utxo(t1.graph, cv(t1.chain@), op)]
            #![trigger is_utxo(t2.graph, cv(t2.chain@), op)]
            is_utxo(t1.graph, cv(t1.chain@), op) == is_utxo(t2.graph, cv(t2.chain@), op),
{
    assert forall|op: OpV|
        #![trigger t1.graph.indexed_at(op)]
        #![trigger t2.graph.indexed_at(op)]
        t1.graph.indexed_at(op) == t2.graph.indexed_at(op) by {
        if t1.graph.indexed_at(op) is Some {
            let l = lemma_lk_some_index(t1.graph.indexed_seq(), op);
            assert(t1.graph.entry_sound(
                t1.graph.indexed_seq()[l].0,
                t1.graph.indexed_seq()[l].1,
            ));
            assert(t2.graph.indexed_at(op) is Some);
            let l2 = lemma_lk_some_index(t2.graph.indexed_seq(), op);
            assert(t2.graph.entry_sound(
                t2.graph.indexed_seq()[l2].0,
                t2.graph.indexed_seq()[l2].1,
            ));
        }
        if t2.graph.indexed_at(op) is Some {
            let l = lemma_lk_some_index(t2.graph.indexed_seq(), op);
            assert(t2.graph.entry_sound(
                t2.graph.indexed_seq()[l].0,
                t2.graph.indexed_seq()[l].1,
            ));
            assert(t1.graph.indexed_at(op) is Some);
            let l2 = lemma_lk_some_index(t1.graph.indexed_seq(), op);
            assert(t1.graph.entry_sound(
                t1.graph.indexed_seq()[l2].0,
                t1.graph.indexed_seq()[l2].1,
            ));
        }
    }
    assert forall|h: u32|
        #![trigger chain_at(cv(t1.chain@), h)]
        #![trigger chain_at(cv(t2.chain@), h)]
        chain_at(cv(t1.chain@), h) == chain_at(cv(t2.chain@), h) by {
        lemma_lk_absent(Seq::<(u32, Seq<u8>)>::empty(), h);
    }
    assert(core_equal(t1, t2));
    lemma_core_equal_observations(t1, t2);
}

} // verus!
