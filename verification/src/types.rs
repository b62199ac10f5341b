//! Plain data carried through the tracker: transactions, outpoints,
//! checkpoints, confirmation anchors, and the error kinds.
//!
//! Hashes, transaction ids, scripts and secret material are byte strings;
//! the tracker only ever compares them for equality.

use vstd::prelude::*;

verus! {

/// A reference to one output of a transaction.
pub struct OutPoint {
    pub txid: Vec<u8>,
    pub vout: u32,
}

/// One transaction output: the script it pays to and its value.
pub struct TxOut {
    pub script: Vec<u8>,
    pub value: u64,
}

/// A transaction: its id, the outpoints its inputs spend, and its outputs.
pub struct Tx {
    pub txid: Vec<u8>,
    pub inputs: Vec<OutPoint>,
    pub outputs: Vec<TxOut>,
}

/// A (height, block hash) fact of the locally accepted best chain.
pub struct Checkpoint {
    pub height: u32,
    pub hash: Vec<u8>,
}

/// Records that a transaction was confirmed in a particular block.
pub struct Anchor {
    pub txid: Vec<u8>,
    pub height: u32,
    pub hash: Vec<u8>,
    pub time: u64,
}

/// Where a canonical transaction sits relative to the current chain.
pub enum Position {
    Confirmed { height: u32, hash: Vec<u8>, time: u64 },
    Unconfirmed { last_seen: u64 },
}

/// A canonical unspent output together with its position.
pub struct FullOut {
    pub outpoint: OutPoint,
    pub txout: TxOut,
    pub position: Position,
}

/// The network a tracker instance belongs to.
#[derive(Clone, Copy, PartialEq, Eq, Structural, Debug)]
pub enum Network {
    Bitcoin,
    Testnet,
    Signet,
    Regtest,
}

/// The failures the tracker reports; everything else is a no-op with an
/// "unchanged" indicator.
#[derive(Clone, Copy, PartialEq, Eq, Structural, Debug)]
pub enum TrackerError {
    /// A supplied chain update shares no common ancestor with the current chain.
    ChainConflict,
    /// Reconstruction from a changeset that carries no network tag.
    MissingNetwork,
    /// Reconstruction from a changeset whose chain diff holds no genesis block.
    MissingGenesis,
    /// Deriving a script from supplied secret material failed.
    KeyDerivationFailure,
}

/// Mathematical image of an [`OutPoint`]: (txid bytes, output index).
pub type OpV = (Seq<u8>, u32);

/// Mathematical image of a [`TxOut`]: (script bytes, value).
pub type TxOutV = (Seq<u8>, u64);

#[verifier::ext_equal]
pub ghost struct TxV {
    pub txid: Seq<u8>,
    pub inputs: Seq<OpV>,
    pub outputs: Seq<TxOutV>,
}

#[verifier::ext_equal]
pub ghost struct AnchorV {
    pub txid: Seq<u8>,
    pub height: u32,
    pub hash: Seq<u8>,
    pub time: u64,
}

#[verifier::ext_equal]
pub ghost struct PositionV {
    pub confirmed: bool,
    pub height: u32,
    pub hash: Seq<u8>,
    pub time: u64,
    pub last_seen: u64,
}

impl View for OutPoint {
    type V = OpV;

    open spec fn view(&self) -> OpV {
        (self.txid@, self.vout)
    }
}

impl View for TxOut {
    type V = TxOutV;

    open spec fn view(&self) -> TxOutV {
        (self.script@, self.value)
    }
}

impl View for Tx {
    type V = TxV;

    open spec fn view(&self) -> TxV {
        TxV {
            txid: self.txid@,
            inputs: self.inputs@.map_values(|p: OutPoint| p@),
            outputs: self.outputs@.map_values(|o: TxOut| o@),
        }
    }
}

impl View for Checkpoint {
    type V = (u32, Seq<u8>);

    open spec fn view(&self) -> (u32, Seq<u8>) {
        (self.height, self.hash@)
    }
}

impl View for Anchor {
    type V = AnchorV;

    open spec fn view(&self) -> AnchorV {
        AnchorV { txid: self.txid@, height: self.height, hash: self.hash@, time: self.time }
    }
}

impl View for Position {
    type V = PositionV;

    open spec fn view(&self) -> PositionV {
        match self {
            Position::Confirmed { height, hash, time } => PositionV {
                confirmed: true,
                height: *height,
                hash: hash@,
                time: *time,
                last_seen: 0,
            },
            Position::Unconfirmed { last_seen } => PositionV {
                confirmed: false,
                height: 0,
                hash: Seq::empty(),
                time: 0,
                last_seen: *last_seen,
            },
        }
    }
}

/// Looks a key up in an association list; the entry pushed last wins.
pub open spec fn lk<K, V>(s: Seq<(K, V)>, k: K) -> Option<V>
    decreases s.len(),
{
    if s.len() == 0 {
        None
    } else if s.last().0 == k {
        Some(s.last().1)
    } else {
        lk(s.drop_last(), k)
    }
}

/// Largest value recorded for a key in an association list, if any.
pub open spec fn lk_max<K>(s: Seq<(K, u64)>, k: K) -> Option<u64>
    decreases s.len(),
{
    if s.len() == 0 {
        None
    } else {
        let rest = lk_max(s.drop_last(), k);
        if s.last().0 == k {
            match rest {
                None => Some(s.last().1),
                Some(m) => Some(if m >= s.last().1 { m } else { s.last().1 }),
            }
        } else {
            rest
        }
    }
}

/// The second option where it is set, else the first.
pub open spec fn or_opt<V>(a: Option<V>, b: Option<V>) -> Option<V> {
    if b is Some {
        b
    } else {
        a
    }
}

/// The larger of two optional timestamps.
pub open spec fn max_opt(a: Option<u64>, b: Option<u64>) -> Option<u64> {
    match (a, b) {
        (None, None) => None,
        (Some(x), None) => Some(x),
        (None, Some(y)) => Some(y),
        (Some(x), Some(y)) => Some(if x >= y { x } else { y }),
    }
}

pub proof fn lemma_lk_append<K, V>(a: Seq<(K, V)>, b: Seq<(K, V)>, k: K)
    ensures
        lk(a + b, k) == or_opt(lk(a, k), lk(b, k)),
    decreases b.len(),
{
    if b.len() == 0 {
        assert(a + b =~= a);
    } else {
        assert((a + b).drop_last() =~= a + b.drop_last());
        assert((a + b).last() == b.last());
        lemma_lk_append(a, b.drop_last(), k);
    }
}

pub proof fn lemma_lkmax_push<K>(s: Seq<(K, u64)>, p: (K, u64), k: K)
    ensures
        lk_max(s.push(p), k) == (if p.0 == k {
            max_opt(lk_max(s, k), Some(p.1))
        } else {
            lk_max(s, k)
        }),
{
    assert(s.push(p).drop_last() =~= s);
}

pub proof fn lemma_lkmax_append<K>(a: Seq<(K, u64)>, b: Seq<(K, u64)>, k: K)
    ensures
        lk_max(a + b, k) == max_opt(lk_max(a, k), lk_max(b, k)),
    decreases b.len(),
{
    if b.len() == 0 {
        assert(a + b =~= a);
    } else {
        assert((a + b).drop_last() =~= a + b.drop_last());
        assert((a + b).last() == b.last());
        lemma_lkmax_append(a, b.drop_last(), k);
    }
}

/// A key that looks up to a value has an entry with that value.
pub proof fn lemma_lk_contains<K, V>(s: Seq<(K, V)>, k: K, v: V)
    requires
        lk(s, k) == Some(v),
    ensures
        s.contains((k, v)),
    decreases s.len(),
{
    if s.len() > 0 {
        if s.last().0 == k {
            assert(s[s.len() - 1] == (k, v));
        } else {
            lemma_lk_contains(s.drop_last(), k, v);
            let i = choose|i: int| 0 <= i < s.drop_last().len() && s.drop_last()[i] == (k, v);
            assert(s[i] == (k, v));
        }
    }
}

/// A key with any entry at all looks up to something.
pub proof fn lemma_contains_lk<K, V>(s: Seq<(K, V)>, i: int)
    requires
        0 <= i < s.len(),
    ensures
        lk(s, s[i].0) is Some,
    decreases s.len(),
{
    if s.len() > 0 && s.last().0 != s[i].0 {
        assert(i < s.len() - 1);
        assert(s.drop_last()[i] == s[i]);
        lemma_contains_lk(s.drop_last(), i);
    }
}

/// Compares two byte strings.
pub fn bytes_eq(a: &Vec<u8>, b: &Vec<u8>) -> (r: bool)
    ensures
        r == (a@ == b@),
{
    if a.len() != b.len() {
        return false;
    }
    let n = a.len();
    let mut i: usize = 0;
    while i < n
        invariant
            n == a.len() == b.len(),
            i <= n,
            forall|j: int| 0 <= j < i ==> a@[j] == b@[j],
        decreases n - i,
    {
        if a[i] != b[i] {
            return false;
        }
        i += 1;
    }
    proof {
        assert(a@ =~= b@);
    }
    true
}

/// Copies a byte string.
pub fn clone_bytes(a: &Vec<u8>) -> (r: Vec<u8>)
    ensures
        r@ == a@,
{
    let mut r: Vec<u8> = Vec::new();
    let n = a.len();
    let mut i: usize = 0;
    while i < n
        invariant
            n == a.len(),
            i <= n,
            r@ == a@.take(i as int),
        decreases n - i,
    {
        r.push(a[i]);
        proof {
            assert(a@.take(i + 1) =~= a@.take(i as int).push(a@[i as int]));
        }
        i += 1;
    }
    proof {
        assert(a@.take(n as int) =~= a@);
    }
    r
}

/// Copies an outpoint.
pub fn clone_outpoint(p: &OutPoint) -> (r: OutPoint)
    ensures
        r@ == p@,
{
    OutPoint { txid: clone_bytes(&p.txid), vout: p.vout }
}

/// Compares two outpoints.
pub fn outpoint_eq(a: &OutPoint, b: &OutPoint) -> (r: bool)
    ensures
        r == (a@ == b@),
{
    let r = bytes_eq(&a.txid, &b.txid) && a.vout == b.vout;
    r
}

/// Copies a transaction.
pub fn clone_tx(t: &Tx) -> (r: Tx)
    ensures
        r@ == t@,
{
    let mut inputs: Vec<OutPoint> = Vec::new();
    let mut i: usize = 0;
    while i < t.inputs.len()
        invariant
            i <= t.inputs.len(),
            inputs@.len() == i,
            forall|l: int| 0 <= l < i ==> inputs@[l]@ == t.inputs@[l]@,
        decreases t.inputs.len() - i,
    {
        inputs.push(clone_outpoint(&t.inputs[i]));
        i += 1;
    }
    let mut outputs: Vec<TxOut> = Vec::new();
    let mut j: usize = 0;
    while j < t.outputs.len()
        invariant
            j <= t.outputs.len(),
            outputs@.len() == j,
            forall|l: int| 0 <= l < j ==> outputs@[l]@ == t.outputs@[l]@,
        decreases t.outputs.len() - j,
    {
        let o = &t.outputs[j];
        outputs.push(TxOut { script: clone_bytes(&o.script), value: o.value });
        j += 1;
    }
    let r = Tx { txid: clone_bytes(&t.txid), inputs, outputs };
    proof {
        assert(r.inputs@.map_values(|p: OutPoint| p@) =~= t.inputs@.map_values(|p: OutPoint| p@));
        assert(r.outputs@.map_values(|o: TxOut| o@) =~= t.outputs@.map_values(|o: TxOut| o@));
        assert(r@ =~= t@);
    }
    r
}

} // verus!
