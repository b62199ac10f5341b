use spk_tracker::BlockData;
use spk_tracker::BlockEvent;
use spk_tracker::ChangeSet;
use spk_tracker::Checkpoint;
use spk_tracker::MempoolEvent;
use spk_tracker::Network;
use spk_tracker::OutPoint;
use spk_tracker::Position;
use spk_tracker::SpkTracker;
use spk_tracker::TrackerError;
use spk_tracker::Tx;
use spk_tracker::TxOut;

fn h(b: u8) -> Vec<u8> {
    vec![b; 32]
}

fn cp(height: u32, hash: Vec<u8>) -> Checkpoint {
    Checkpoint { height, hash }
}

fn secret_one() -> Vec<u8> {
    let mut s = vec![0u8; 32];
    s[31] = 1;
    s
}

fn secret_two() -> Vec<u8> {
    let mut s = vec![0u8; 32];
    s[31] = 2;
    s
}

/// The taproot script the library must derive for a secret, computed
/// directly through the underlying crates.
fn expected_spk(secret: &[u8]) -> Vec<u8> {
    let secp = bdk_chain::bitcoin::key::Secp256k1::new();
    let sk = bdk_chain::bitcoin::secp256k1::SecretKey::from_slice(secret).unwrap();
    let (pk, _) = sk.x_only_public_key(&secp);
    bdk_chain::miniscript::Descriptor::new_tr(pk, None)
        .unwrap()
        .script_pubkey()
        .to_bytes()
}

fn pay_tx(txid: Vec<u8>, spend: Option<OutPoint>, script: Vec<u8>, value: u64) -> Tx {
    let inputs = match spend {
        Some(op) => vec![op],
        None => vec![OutPoint { txid: h(0x00), vout: 7 }],
    };
    Tx { txid, inputs, outputs: vec![TxOut { script, value }] }
}

fn block_event(hash: Vec<u8>, time: u64, txs: Vec<Tx>, height: u32, update: Vec<Checkpoint>) -> BlockEvent {
    BlockEvent { block: BlockData { hash, time, txs }, height, checkpoint_update: update }
}

#[test]
fn genesis_tip() {
    let t = SpkTracker::new(Network::Regtest, h(0x01));
    let tip = t.tip();
    assert_eq!(tip.height, 0);
    assert_eq!(tip.hash, h(0x01));
}

#[test]
fn derived_script_is_not_the_secret() {
    let mut t = SpkTracker::new(Network::Regtest, h(0x01));
    assert_eq!(t.add_secret(secret_one()).unwrap(), true);
    let secrets = t.secrets_by_spk();
    assert_eq!(secrets.len(), 1);
    assert_ne!(secrets[0].0, secret_one());
    assert_eq!(secrets[0].0, expected_spk(&secret_one()));
    assert_eq!(secrets[0].1, secret_one());
}

#[test]
fn duplicate_secret_is_not_new() {
    let mut t = SpkTracker::new(Network::Regtest, h(0x01));
    assert_eq!(t.add_secret(secret_one()).unwrap(), true);
    assert_eq!(t.add_secret(secret_one()).unwrap(), false);
    assert_eq!(t.secrets_by_spk().len(), 1);
}

#[test]
fn key_derivation_failure() {
    let mut t = SpkTracker::new(Network::Regtest, h(0x01));
    // all-zero bytes are out of range for a secp256k1 key
    assert_eq!(t.add_secret(vec![0u8; 32]), Err(TrackerError::KeyDerivationFailure));
    // wrong length
    assert_eq!(t.add_secret(vec![1u8; 5]), Err(TrackerError::KeyDerivationFailure));
    assert_eq!(t.secrets_by_spk().len(), 0);
}

#[test]
fn missing_network_and_missing_genesis() {
    let empty = ChangeSet::empty();
    match SpkTracker::from_changeset(empty) {
        Err(TrackerError::MissingNetwork) => {}
        _ => panic!("expected MissingNetwork"),
    }
    let mut with_net = ChangeSet::empty();
    with_net.network = Some(Network::Regtest);
    match SpkTracker::from_changeset(with_net) {
        Err(TrackerError::MissingGenesis) => {}
        _ => panic!("expected MissingGenesis"),
    }
}

#[test]
fn chain_conflict_keeps_graph_effects() {
    let mut t = SpkTracker::new(Network::Regtest, h(0x01));
    t.add_secret(secret_one()).unwrap();
    let spk = expected_spk(&secret_one());
    let tx1 = pay_tx(h(0xaa), None, spk, 50_000);
    // the update shares no checkpoint with the current chain
    let ev = block_event(h(0x10), 100, vec![tx1], 1, vec![cp(0, h(0x02)), cp(1, h(0x10))]);
    assert_eq!(t.consume_block_event(&ev), Err(TrackerError::ChainConflict));
    // the chain pointer did not advance ...
    assert_eq!(t.tip().height, 0);
    assert_eq!(t.tip().hash, h(0x01));
    // ... but the relevant transaction was still recorded (no canonical
    // confirmation yet, and no unconfirmed observation, so no UTXO)
    assert_eq!(t.utxos().len(), 0);
}

#[test]
fn pay_spend_evict_scenario() {
    let mut t = SpkTracker::new(Network::Regtest, h(0x01));
    assert!(t.add_secret(secret_one()).unwrap());
    let spk = expected_spk(&secret_one());

    // block 1 pays the watched script
    let tx1 = pay_tx(h(0xaa), None, spk.clone(), 50_000);
    let ev = block_event(h(0x10), 100, vec![tx1], 1, vec![cp(0, h(0x01)), cp(1, h(0x10))]);
    t.consume_block_event(&ev).unwrap();
    assert_eq!(t.tip().height, 1);

    let utxos = t.utxos();
    assert_eq!(utxos.len(), 1);
    assert_eq!(utxos[0].0, spk);
    assert_eq!(utxos[0].1.outpoint.txid, h(0xaa));
    assert_eq!(utxos[0].1.outpoint.vout, 0);
    assert_eq!(utxos[0].1.txout.value, 50_000);
    match &utxos[0].1.position {
        Position::Confirmed { height, hash, time } => {
            assert_eq!(*height, 1);
            assert_eq!(hash, &h(0x10));
            assert_eq!(*time, 100);
        }
        Position::Unconfirmed { .. } => panic!("expected a confirmed position"),
    }

    // a mempool spend of the output empties the UTXO set
    let spend = pay_tx(h(0xbb), Some(OutPoint { txid: h(0xaa), vout: 0 }), vec![0x51], 49_000);
    let ev2 = MempoolEvent { update: vec![(spend, 200)], evicted: vec![] };
    t.consume_mempool_event(&ev2);
    assert_eq!(t.utxos().len(), 0);
    let mempool = t.expected_mempool_txs();
    assert_eq!(mempool.len(), 1);
    assert_eq!(mempool[0].txid, h(0xbb));

    // evicting the spender restores the output
    let ev3 = MempoolEvent { update: vec![], evicted: vec![(h(0xbb), 300)] };
    t.consume_mempool_event(&ev3);
    let utxos = t.utxos();
    assert_eq!(utxos.len(), 1);
    assert_eq!(utxos[0].0, spk);
    assert_eq!(t.expected_mempool_txs().len(), 0);
}

#[test]
fn reorg_resurrects_spent_output() {
    let mut t = SpkTracker::new(Network::Regtest, h(0x01));
    assert!(t.add_secret(secret_one()).unwrap());
    let spk = expected_spk(&secret_one());

    // block 1 pays the watched script
    let tx1 = pay_tx(h(0xaa), None, spk.clone(), 50_000);
    let ev = block_event(h(0x10), 100, vec![tx1], 1, vec![cp(0, h(0x01)), cp(1, h(0x10))]);
    t.consume_block_event(&ev).unwrap();

    // block 2 confirms a spend of the output
    let spend = pay_tx(h(0xbb), Some(OutPoint { txid: h(0xaa), vout: 0 }), vec![0x51], 49_000);
    let ev2 = block_event(h(0x20), 200, vec![spend], 2, vec![cp(1, h(0x10)), cp(2, h(0x20))]);
    t.consume_block_event(&ev2).unwrap();
    assert_eq!(t.utxos().len(), 0);

    // a reorg replaces height 2 with a block that does not hold the spend
    let ev3 = block_event(h(0x21), 210, vec![], 2, vec![cp(1, h(0x10)), cp(2, h(0x21))]);
    t.consume_block_event(&ev3).unwrap();
    assert_eq!(t.tip().hash, h(0x21));
    let utxos = t.utxos();
    assert_eq!(utxos.len(), 1);
    assert_eq!(utxos[0].0, spk);
    assert_eq!(utxos[0].1.outpoint.txid, h(0xaa));
}

#[test]
fn late_script_registration_and_reindex() {
    let mut t = SpkTracker::new(Network::Regtest, h(0x01));
    assert!(t.add_secret(secret_one()).unwrap());
    let spk_b = expected_spk(&secret_one());
    let spk_a = expected_spk(&secret_two());

    // one transaction pays both scripts; only one is registered yet, which
    // makes the transaction relevant and stored
    let tx = Tx {
        txid: h(0xaa),
        inputs: vec![OutPoint { txid: h(0x00), vout: 7 }],
        outputs: vec![
            TxOut { script: spk_b.clone(), value: 10 },
            TxOut { script: spk_a.clone(), value: 20 },
        ],
    };
    let ev = block_event(h(0x10), 100, vec![tx], 1, vec![cp(0, h(0x01)), cp(1, h(0x10))]);
    t.consume_block_event(&ev).unwrap();
    assert_eq!(t.utxos().len(), 1);

    // registering the second script later: reindex discovers the output
    // exactly once
    assert!(t.add_secret(secret_two()).unwrap());
    assert_eq!(t.reindex(), true);
    assert_eq!(t.reindex(), false);
    let mut scripts: Vec<Vec<u8>> = t.utxos().into_iter().map(|p| p.0).collect();
    scripts.sort();
    let mut want = vec![spk_a, spk_b];
    want.sort();
    assert_eq!(scripts, want);
}

#[test]
fn evicting_a_confirmed_transaction_changes_nothing_canonical() {
    let mut t = SpkTracker::new(Network::Regtest, h(0x01));
    assert!(t.add_secret(secret_one()).unwrap());
    let spk = expected_spk(&secret_one());
    let tx1 = pay_tx(h(0xaa), None, spk, 50_000);
    let ev = block_event(h(0x10), 100, vec![tx1], 1, vec![cp(0, h(0x01)), cp(1, h(0x10))]);
    t.consume_block_event(&ev).unwrap();
    assert_eq!(t.utxos().len(), 1);
    let ev2 = MempoolEvent { update: vec![], evicted: vec![(h(0xaa), 300)] };
    t.consume_mempool_event(&ev2);
    // confirmed status dominates: the output is still canonical
    assert_eq!(t.utxos().len(), 1);
}

#[test]
fn drain_and_reload_reproduces_state() {
    let mut t1 = SpkTracker::new(Network::Regtest, h(0x01));
    assert!(t1.add_secret(secret_one()).unwrap());
    let spk = expected_spk(&secret_one());
    let tx1 = pay_tx(h(0xaa), None, spk.clone(), 50_000);
    let ev = block_event(h(0x10), 100, vec![tx1], 1, vec![cp(0, h(0x01)), cp(1, h(0x10))]);
    t1.consume_block_event(&ev).unwrap();

    let drained = t1.take_stage();
    assert!(!drained.is_empty());
    let mut t2 = SpkTracker::from_changeset(drained).unwrap();
    // secrets are never persisted: re-supply and reindex
    assert_eq!(t2.secrets_by_spk().len(), 0);
    assert!(t2.add_secret(secret_one()).unwrap());
    assert_eq!(t2.reindex(), true);

    assert_eq!(t1.tip().height, t2.tip().height);
    assert_eq!(t1.tip().hash, t2.tip().hash);
    let u1 = t1.utxos();
    let u2 = t2.utxos();
    assert_eq!(u1.len(), 1);
    assert_eq!(u2.len(), 1);
    assert_eq!(u1[0].0, u2[0].0);
    assert_eq!(u1[0].1.outpoint.txid, u2[0].1.outpoint.txid);
    assert_eq!(u1[0].1.outpoint.vout, u2[0].1.outpoint.vout);
    assert_eq!(u1[0].1.txout.value, u2[0].1.txout.value);

    // after the drain the stage is empty again
    assert!(t1.take_stage().is_empty());
}

#[test]
fn merge_is_observably_idempotent_and_commutative() {
    // two independent drains of the same history, merged in both orders,
    // reconstruct the same state; re-merging a drain adds nothing
    let build = || {
        let mut t = SpkTracker::new(Network::Regtest, h(0x01));
        t.add_secret(secret_one()).unwrap();
        let spk = expected_spk(&secret_one());
        let tx1 = pay_tx(h(0xaa), None, spk, 50_000);
        let ev = block_event(h(0x10), 100, vec![tx1], 1, vec![cp(0, h(0x01)), cp(1, h(0x10))]);
        t.consume_block_event(&ev).unwrap();
        t
    };
    // first drain: everything up to block 1; second drain: the mempool spend
    let part1 = || build().take_stage();
    let part2 = |t: &mut SpkTracker| {
        let spend = pay_tx(h(0xbb), Some(OutPoint { txid: h(0xaa), vout: 0 }), vec![0x51], 49_000);
        t.consume_mempool_event(&MempoolEvent { update: vec![(spend, 200)], evicted: vec![] });
        t.take_stage()
    };

    let mut ab = part1();
    {
        let mut t = build();
        ab.merge(part2(&mut t));
    }
    let mut ba = {
        let mut t = build();
        part2(&mut t)
    };
    ba.merge(part1());

    let reload = |cs: ChangeSet| {
        let mut t = SpkTracker::from_changeset(cs).unwrap();
        t.add_secret(secret_one()).unwrap();
        t.reindex();
        t
    };
    let tab = reload(ab);
    let tba = reload(ba);
    assert_eq!(tab.tip().hash, tba.tip().hash);
    assert_eq!(tab.utxos().len(), tba.utxos().len());
    assert_eq!(tab.expected_mempool_txs().len(), 1);
    assert_eq!(tba.expected_mempool_txs().len(), 1);

    // idempotence: merging the same drain twice changes nothing observable
    let mut twice = part1();
    twice.merge(part1());
    let t_once = reload(part1());
    let t_twice = reload(twice);
    assert_eq!(t_once.tip().hash, t_twice.tip().hash);
    assert_eq!(t_once.utxos().len(), t_twice.utxos().len());
}

#[test]
fn changeset_emptiness() {
    let cs = ChangeSet::empty();
    assert!(cs.is_empty());
    let mut cs2 = ChangeSet::default();
    cs2.network = Some(Network::Bitcoin);
    assert!(!cs2.is_empty());
    let mut cs3 = ChangeSet::empty();
    cs3.chain.push((0, Some(h(0x01))));
    assert!(!cs3.is_empty());
}

#[test]
fn latest_seen_wins_among_conflicting_unconfirmed() {
    let mut t = SpkTracker::new(Network::Regtest, h(0x01));
    assert!(t.add_secret(secret_one()).unwrap());
    let spk = expected_spk(&secret_one());
    let tx1 = pay_tx(h(0xaa), None, spk.clone(), 50_000);
    let ev = block_event(h(0x10), 100, vec![tx1], 1, vec![cp(0, h(0x01)), cp(1, h(0x10))]);
    t.consume_block_event(&ev).unwrap();

    // two competing spends of the same output; the later-seen one wins
    let spend_a = pay_tx(h(0xbb), Some(OutPoint { txid: h(0xaa), vout: 0 }), vec![0x51], 49_000);
    let spend_b = pay_tx(h(0xcc), Some(OutPoint { txid: h(0xaa), vout: 0 }), vec![0x52], 48_000);
    t.consume_mempool_event(&MempoolEvent { update: vec![(spend_a, 200), (spend_b, 300)], evicted: vec![] });
    let mempool = t.expected_mempool_txs();
    assert_eq!(mempool.len(), 1);
    assert_eq!(mempool[0].txid, h(0xcc));
    assert_eq!(t.utxos().len(), 0);
}

#[test]
fn canonical_transaction_listing() {
    let mut t = SpkTracker::new(Network::Regtest, h(0x01));
    assert!(t.add_secret(secret_one()).unwrap());
    let spk = expected_spk(&secret_one());
    let tx1 = pay_tx(h(0xaa), None, spk, 50_000);
    let ev = block_event(h(0x10), 100, vec![tx1], 1, vec![cp(0, h(0x01)), cp(1, h(0x10))]);
    t.consume_block_event(&ev).unwrap();
    let spend = pay_tx(h(0xbb), Some(OutPoint { txid: h(0xaa), vout: 0 }), vec![0x51], 49_000);
    t.consume_mempool_event(&MempoolEvent { update: vec![(spend, 200)], evicted: vec![] });
    let ids: Vec<Vec<u8>> = t
        .list_canonical_transactions()
        .into_iter()
        .map(|tx| tx.txid)
        .collect();
    // confirmed first (ascending height), unconfirmed after
    assert_eq!(ids, vec![h(0xaa), h(0xbb)]);
}

#[test]
fn canonical_listing_orders_confirmed_by_height() {
    let mut t = SpkTracker::new(Network::Regtest, h(0x01));
    assert!(t.add_secret(secret_one()).unwrap());
    let spk = expected_spk(&secret_one());
    // two confirmations at heights 1 and 2, ingested in that order
    let tx1 = pay_tx(h(0xaa), None, spk.clone(), 50_000);
    let ev1 = block_event(h(0x10), 100, vec![tx1], 1, vec![cp(0, h(0x01)), cp(1, h(0x10))]);
    t.consume_block_event(&ev1).unwrap();
    let tx2 = pay_tx(h(0xbb), Some(OutPoint { txid: h(0xaa), vout: 0 }), spk, 49_000);
    let ev2 = block_event(h(0x20), 200, vec![tx2], 2, vec![cp(1, h(0x10)), cp(2, h(0x20))]);
    t.consume_block_event(&ev2).unwrap();
    let ids: Vec<Vec<u8>> = t
        .list_canonical_transactions()
        .into_iter()
        .map(|tx| tx.txid)
        .collect();
    assert_eq!(ids, vec![h(0xaa), h(0xbb)]);
}
