//! The checkpoint chain: the locally accepted best chain as a strictly
//! ascending sequence of (height, block hash) checkpoints, genesis first.
//!
//! A chain update replaces a contiguous suffix: the highest checkpoint common
//! to the current chain and the candidate stays, everything above it is
//! replaced by the candidate's checkpoints, and the returned diff makes every
//! added and every invalidated height explicit.

use vstd::prelude::*;

use crate::changeset::ChangeSet;
use crate::types::Checkpoint;
use crate::types::TrackerError;
use crate::types::bytes_eq;
use crate::types::clone_bytes;
use crate::types::lk;

verus! {

/// The mathematical image of a checkpoint sequence.
pub open spec fn cv(c: Seq<Checkpoint>) -> Seq<(u32, Seq<u8>)> {
    c.map_values(|p: Checkpoint| p@)
}

/// Keys strictly increase along the sequence.
pub open spec fn asc_keys<V>(s: Seq<(u32, V)>) -> bool {
    forall|i: int, j: int| 0 <= i < j < s.len() ==> s[i].0 < s[j].0
}

/// A well-formed chain: nonempty, genesis at height 0, strictly ascending.
pub open spec fn chain_wf(v: Seq<(u32, Seq<u8>)>) -> bool {
    &&& v.len() > 0
    &&& v[0].0 == 0
    &&& asc_keys(v)
}

/// The hash the chain records at a height, if any.
pub open spec fn chain_at(v: Seq<(u32, Seq<u8>)>, h: u32) -> Option<Seq<u8>> {
    lk(v, h)
}

/// A checkpoint present in both sequences.
pub open spec fn common(o: Seq<(u32, Seq<u8>)>, u: Seq<(u32, Seq<u8>)>, p: (u32, Seq<u8>)) -> bool {
    o.contains(p) && u.contains(p)
}

/// The two chains share at least one checkpoint.
pub open spec fn connects(o: Seq<(u32, Seq<u8>)>, u: Seq<(u32, Seq<u8>)>) -> bool {
    exists|p: (u32, Seq<u8>)| common(o, u, p)
}

/// The new chain is the old one up to the reorg point `p` — the highest
/// checkpoint common to the old chain and the candidate — with everything
/// above `p` replaced by the candidate's checkpoints.
pub open spec fn spliced(
    oldv: Seq<(u32, Seq<u8>)>,
    updv: Seq<(u32, Seq<u8>)>,
    newv: Seq<(u32, Seq<u8>)>,
    p: (u32, Seq<u8>),
) -> bool {
    &&& common(oldv, updv, p)
    &&& forall|q: (u32, Seq<u8>)| common(oldv, updv, q) ==> q.0 <= p.0
    &&& forall|h: u32|
        #![trigger chain_at(newv, h)]
        chain_at(newv, h) == (if h <= p.0 {
            chain_at(oldv, h)
        } else {
            chain_at(updv, h)
        })
}

/// What a chain diff replays to at one height, over a base chain.
pub open spec fn replay_at(
    d: Seq<(u32, Option<Seq<u8>>)>,
    base: Seq<(u32, Seq<u8>)>,
    h: u32,
) -> Option<Seq<u8>> {
    match lk(d, h) {
        Some(v) => v,
        None => chain_at(base, h),
    }
}

/// In a strictly ascending association list the entry at a key is unique, so
/// lookup returns exactly it.
pub proof fn lemma_lk_unique<V>(s: Seq<(u32, V)>, i: int)
    requires
        asc_keys(s),
        0 <= i < s.len(),
    ensures
        lk(s, s[i].0) == Some(s[i].1),
    decreases s.len(),
{
    if s.len() > 0 {
        if i == s.len() - 1 {
        } else {
            assert(s[i].0 < s.last().0);
            assert(s.drop_last()[i] == s[i]);
            lemma_lk_unique(s.drop_last(), i);
        }
    }
}

/// A key under which no entry stands looks up to nothing.
pub proof fn lemma_lk_absent<K, V>(s: Seq<(K, V)>, k: K)
    requires
        forall|i: int| 0 <= i < s.len() ==> s[i].0 != k,
    ensures
        lk(s, k) is None,
    decreases s.len(),
{
    if s.len() > 0 {
        assert(forall|i: int| 0 <= i < s.drop_last().len() ==> s.drop_last()[i].0 != k);
        lemma_lk_absent(s.drop_last(), k);
    }
}

/// Every entry value of the list satisfies a lookup that succeeds.
pub proof fn lemma_lk_some_index<K, V>(s: Seq<(K, V)>, k: K) -> (i: int)
    requires
        lk(s, k) is Some,
    ensures
        0 <= i < s.len(),
        s[i].0 == k,
        s[i].1 == lk(s, k).unwrap(),
    decreases s.len(),
{
    if s.last().0 == k {
        s.len() - 1
    } else {
        let i = lemma_lk_some_index(s.drop_last(), k);
        assert(s[i] == s.drop_last()[i]);
        i
    }
}

/// Finds the index of the checkpoint at a height, in an ascending chain.
pub fn find_height(c: &Vec<Checkpoint>, h: u32) -> (r: Option<usize>)
    requires
        asc_keys(cv(c@)),
    ensures
        match r {
            Some(i) => i < c@.len() && c@[i as int].height == h && chain_at(cv(c@), h) == Some(
                c@[i as int].hash@,
            ),
            None => chain_at(cv(c@), h) is None,
        },
{
    let n = c.len();
    let mut i: usize = 0;
    while i < n
        invariant
            n == c@.len(),
            i <= n,
            asc_keys(cv(c@)),
            forall|l: int| 0 <= l < i ==> c@[l].height != h,
        decreases n - i,
    {
        if c[i].height == h {
            proof {
                lemma_lk_unique(cv(c@), i as int);
            }
            return Some(i);
        }
        i += 1;
    }
    proof {
        lemma_lk_absent(cv(c@), h);
    }
    None
}

/// The current tip: the highest checkpoint.
pub fn chain_tip(c: &Vec<Checkpoint>) -> (r: Checkpoint)
    requires
        c@.len() > 0,
    ensures
        r@ == cv(c@).last(),
{
    let l = c.len() - 1;
    Checkpoint { height: c[l].height, hash: clone_bytes(&c[l].hash) }
}

/// Highest checkpoint common to `chain` and `update`, as indices into both.
fn find_ancestor(chain: &Vec<Checkpoint>, update: &Vec<Checkpoint>) -> (r: Option<(usize, usize)>)
    requires
        asc_keys(cv(chain@)),
        asc_keys(cv(update@)),
    ensures
        match r {
            Some((i, j)) => {
                &&& i < chain@.len()
                &&& j < update@.len()
                &&& chain@[i as int]@ == update@[j as int]@
                &&& common(cv(chain@), cv(update@), update@[j as int]@)
                &&& forall|q: (u32, Seq<u8>)|
                    common(cv(chain@), cv(update@), q) ==> q.0 <= update@[j as int].height
            },
            None => !connects(cv(chain@), cv(update@)),
        },
{
    let mut jj: usize = update.len();
    while jj > 0
        invariant
            jj <= update@.len(),
            asc_keys(cv(chain@)),
            asc_keys(cv(update@)),
            forall|j2: int| jj <= j2 < update@.len() ==> !cv(chain@).contains(cv(update@)[j2]),
        decreases jj,
    {
        jj -= 1;
        match find_height(chain, update[jj].height) {
            Some(i) => {
                if bytes_eq(&chain[i].hash, &update[jj].hash) {
                    proof {
                        assert(cv(chain@)[i as int] == chain@[i as int]@);
                        assert(cv(chain@).contains(cv(chain@)[i as int]));
                        assert(cv(update@)[jj as int] == update@[jj as int]@);
                        assert(cv(update@).contains(cv(update@)[jj as int]));
                        assert forall|q: (u32, Seq<u8>)|
                            common(cv(chain@), cv(update@), q) implies q.0
                            <= update@[jj as int].height by {
                            let j2 = choose|j2: int|
                                0 <= j2 < cv(update@).len() && cv(update@)[j2] == q;
                            if j2 > jj {
                                assert(!cv(chain@).contains(cv(update@)[j2]));
                            } else {
                                assert(cv(update@)[j2].0 <= cv(update@)[jj as int].0);
                            }
                        }
                    }
                    return Some((i, jj));
                } else {
                    proof {
                        if cv(chain@).contains(cv(update@)[jj as int]) {
                            let l = choose|l: int|
                                0 <= l < cv(chain@).len() && cv(chain@)[l] == cv(
                                    update@,
                                )[jj as int];
                            lemma_lk_unique(cv(chain@), l);
                        }
                    }
                }
            },
            None => {
                proof {
                    if cv(chain@).contains(cv(update@)[jj as int]) {
                        let l = choose|l: int|
                            0 <= l < cv(chain@).len() && cv(chain@)[l] == cv(update@)[jj as int];
                        lemma_lk_unique(cv(chain@), l);
                    }
                }
            },
        }
    }
    proof {
        if connects(cv(chain@), cv(update@)) {
            let q = choose|q: (u32, Seq<u8>)| common(cv(chain@), cv(update@), q);
            let j2 = choose|j2: int| 0 <= j2 < cv(update@).len() && cv(update@)[j2] == q;
            assert(!cv(chain@).contains(cv(update@)[j2]));
        }
    }
    None
}

/// True when some checkpoint of `update` at index `from` or later sits at
/// height `h`.
fn update_has_height(update: &Vec<Checkpoint>, from: usize, h: u32) -> (r: bool)
    ensures
        r == exists|j2: int| from <= j2 < update@.len() && update@[j2].height == h,
{
    let n = update.len();
    let mut j2: usize = from;
    while j2 < n
        invariant
            from <= j2 <= n || (from > n && j2 == from),
            n == update@.len(),
            forall|l: int| from <= l < j2 ==> update@[l].height != h,
        decreases n - j2,
    {
        if update[j2].height == h {
            return true;
        }
        j2 += 1;
    }
    false
}

/// Applies a candidate chain to the current one.
///
/// The highest checkpoint common to both (matched by height and hash) is the
/// reorg point: everything above it is replaced by the candidate's
/// checkpoints.  With no common checkpoint the chain is left untouched and
/// `ChainConflict` is reported.  On success the returned changeset holds a
/// chain diff whose replay over the old chain gives exactly the new one:
/// every candidate checkpoint above the reorg point as an added height, and
/// every abandoned height explicitly as removed.
pub fn apply_update(chain: &mut Vec<Checkpoint>, update: &Vec<Checkpoint>) -> (r: Result<
    ChangeSet,
    TrackerError,
>)
    requires
        chain_wf(cv(old(chain)@)),
        update@.len() > 0,
        asc_keys(cv(update@)),
    ensures
        match r {
            Ok(diff) => {
                &&& connects(cv(old(chain)@), cv(update@))
                &&& chain_wf(cv(final(chain)@))
                &&& diff.txs@.len() == 0
                &&& diff.anchors@.len() == 0
                &&& diff.last_seen@.len() == 0
                &&& diff.last_evicted@.len() == 0
                &&& diff.network is None
                &&& forall|h: u32|
                    chain_at(cv(final(chain)@), h) == replay_at(
                        diff.chain_seq(),
                        cv(old(chain)@),
                        h,
                    )
                &&& exists|p: (u32, Seq<u8>)|
                    spliced(cv(old(chain)@), cv(update@), cv(final(chain)@), p)
            },
            Err(e) => {
                &&& e == TrackerError::ChainConflict
                &&& !connects(cv(old(chain)@), cv(update@))
                &&& final(chain)@ == old(chain)@
            },
        },
{
    let ghost oldv = cv(chain@);
    let ghost updv = cv(update@);
    match find_ancestor(chain, update) {
        None => Err(TrackerError::ChainConflict),
        Some((i, j)) => {
            proof {
                assert(i < chain@.len());
                assert(j < update@.len());
            }
            let ghost anc_h = update@[j as int].height;
            let clen = chain.len();
            let ulen = update.len();
            let mut out: Vec<Checkpoint> = Vec::new();
            let mut k: usize = 0;
            while k <= i
                invariant
                    clen == chain@.len(),
                    i < clen,
                    k <= i + 1,
                    out@.len() == k,
                    forall|l: int| 0 <= l < k ==> out@[l]@ == chain@[l]@,
                decreases i + 1 - k,
            {
                out.push(
                    Checkpoint { height: chain[k].height, hash: clone_bytes(&chain[k].hash) },
                );
                k += 1;
            }
            let mut diffc: Vec<(u32, Option<Vec<u8>>)> = Vec::new();
            let mut j2: usize = j + 1;
            while j2 < update.len()
                invariant
                    clen == chain@.len(),
                    ulen == update@.len(),
                    i < clen,
                    j < ulen,
                    j < j2 <= update@.len(),
                    out@.len() == i + 1 + (j2 - j - 1),
                    diffc@.len() == j2 - j - 1,
                    forall|l: int| 0 <= l <= i ==> out@[l]@ == chain@[l]@,
                    forall|l: int|
                        i + 1 <= l < out@.len() ==> out@[l]@ == update@[j + 1 + (l - i - 1)]@,
                    forall|l: int|
                        0 <= l < diffc@.len() ==> diffc@[l].0 == update@[j + 1 + l].height
                            && diffc@[l].1 is Some && diffc@[l].1.unwrap()@ == update@[j + 1
                            + l].hash@,
                decreases update@.len() - j2,
            {
                out.push(
                    Checkpoint { height: update[j2].height, hash: clone_bytes(&update[j2].hash) },
                );
                diffc.push((update[j2].height, Some(clone_bytes(&update[j2].hash))));
                j2 += 1;
            }
            let ghost nadds = (update@.len() - j - 1) as int;
            let mut k2: usize = i + 1;
            while k2 < chain.len()
                invariant
                    clen == chain@.len(),
                    ulen == update@.len(),
                    i < clen,
                    i < k2 <= chain@.len(),
                    j < ulen,
                    nadds == update@.len() - j - 1,
                    diffc@.len() >= nadds,
                    forall|l: int|
                        0 <= l < nadds ==> diffc@[l].0 == update@[j + 1 + l].height && diffc@[l].1
                            is Some && diffc@[l].1.unwrap()@ == update@[j + 1 + l].hash@,
                    forall|l: int|
                        nadds <= l < diffc@.len() ==> (#[trigger] diffc@[l]).1 is None && !(
                        exists|j3: int|
                            j < j3 < update@.len() && update@[j3].height == diffc@[l].0) && exists|
                            m: int,
                        |
                            i < m < k2 && chain@[m].height == diffc@[l].0,
                    forall|m: int|
                        i < m < k2 && !(exists|j3: int|
                            j < j3 < update@.len() && update@[j3].height == (
                            #[trigger] chain@[m]).height) ==> exists|l: int|
                            nadds <= l < diffc@.len() && diffc@[l].0 == chain@[m].height,
                decreases chain@.len() - k2,
            {
                let h2 = chain[k2].height;
                if !update_has_height(update, j + 1, h2) {
                    let ghost prevd = diffc@;
                    diffc.push((h2, None));
                    proof {
                        assert(diffc@[diffc@.len() - 1].0 == chain@[k2 as int].height);
                        assert(exists|m: int|
                            i < m < k2 + 1 && chain@[m].height == diffc@[diffc@.len() - 1].0);
                        assert forall|m: int|
                            i < m < k2 + 1 && !(exists|j3: int|
                                j < j3 < update@.len() && update@[j3].height == (
                                #[trigger] chain@[m]).height) implies exists|l: int|
                            nadds <= l < diffc@.len() && diffc@[l].0 == chain@[m].height by {
                            if m < k2 {
                                let l = choose|l: int|
                                    nadds <= l < prevd.len() && prevd[l].0 == chain@[m].height;
                                assert(diffc@[l].0 == chain@[m].height);
                            } else {
                                assert(diffc@[diffc@.len() - 1].0 == chain@[m].height);
                            }
                        }
                    }
                } else {
                    proof {
                        assert forall|m: int|
                            i < m < k2 + 1 && !(exists|j3: int|
                                j < j3 < update@.len() && update@[j3].height == (
                                #[trigger] chain@[m]).height) implies exists|l: int|
                            nadds <= l < diffc@.len() && diffc@[l].0 == chain@[m].height by {
                            assert(m < k2);
                        }
                    }
                }
                k2 += 1;
            }
            let diff = ChangeSet {
                chain: diffc,
                txs: Vec::new(),
                anchors: Vec::new(),
                last_seen: Vec::new(),
                last_evicted: Vec::new(),
                network: None,
            };
            let ghost newv = cv(out@);
            proof {
                let dseq = diff.chain_seq();
                assert(forall|l: int|
                    0 <= l < dseq.len() ==> #[trigger] dseq[l] == (diffc@[l].0, crate::changeset::opt_bytes(
                        diffc@[l].1,
                    )));
                assert(forall|l: int| 0 <= l < newv.len() ==> #[trigger] newv[l] == out@[l]@);
                assert(forall|j3: int|
                    0 <= j3 < updv.len() ==> (#[trigger] updv[j3]) == update@[j3]@);
                assert(forall|m: int| 0 <= m < oldv.len() ==> (#[trigger] oldv[m]) == chain@[m]@);
                assert forall|l: int| nadds <= l < dseq.len() implies (#[trigger] dseq[l]).1
                    is None && !(exists|j3: int| j < j3 < updv.len() && updv[j3].0 == dseq[l].0)
                    && exists|m: int| i < m < oldv.len() && oldv[m].0 == dseq[l].0 by {
                    assert(diffc@[l].1 is None);
                    if exists|j3: int| j < j3 < updv.len() && updv[j3].0 == dseq[l].0 {
                        let j3 = choose|j3: int| j < j3 < updv.len() && updv[j3].0 == dseq[l].0;
                        assert(update@[j3].height == diffc@[l].0);
                        assert(false);
                    }
                    let m = choose|m: int|
                        i < m < chain@.len() && chain@[m].height == diffc@[l].0;
                    assert(oldv[m].0 == dseq[l].0);
                }
                assert forall|m: int| i < m < oldv.len() implies #[trigger] removed_height_covered(
                    oldv,
                    updv,
                    dseq,
                    j as int,
                    updv.len() - j - 1,
                    m,
                ) by {
                    if !(exists|j3: int| j < j3 < updv.len() && updv[j3].0 == oldv[m].0) {
                        if exists|j3: int|
                            j < j3 < update@.len() && update@[j3].height == chain@[m].height {
                            let j3 = choose|j3: int|
                                j < j3 < update@.len() && update@[j3].height == chain@[m].height;
                            assert(updv[j3].0 == oldv[m].0);
                            assert(false);
                        }
                        let l = choose|l: int|
                            nadds <= l < diffc@.len() && diffc@[l].0 == chain@[m].height;
                        assert(nadds == updv.len() - j - 1);
                        assert(updv.len() - j - 1 <= l < dseq.len() && dseq[l].0 == oldv[m].0);
                    }
                }
                lemma_apply_update_shape(oldv, updv, newv, dseq, i as int, j as int);
                assert(spliced(oldv, updv, newv, updv[j as int]));
            }
            *chain = out;
            Ok(diff)
        },
    }
}

/// A height the reorg removed is covered by an explicit removal entry of
/// the diff, unless the candidate re-supplies it.
pub open spec fn removed_height_covered(
    oldv: Seq<(u32, Seq<u8>)>,
    updv: Seq<(u32, Seq<u8>)>,
    dseq: Seq<(u32, Option<Seq<u8>>)>,
    j: int,
    nadds: int,
    m: int,
) -> bool {
    !(exists|j3: int| j < j3 < updv.len() && updv[j3].0 == oldv[m].0) ==> exists|l: int|
        nadds <= l < dseq.len() && dseq[l].0 == oldv[m].0
}

/// The splice and its diff replay pointwise to the new chain.
proof fn lemma_apply_update_shape(
    oldv: Seq<(u32, Seq<u8>)>,
    updv: Seq<(u32, Seq<u8>)>,
    newv: Seq<(u32, Seq<u8>)>,
    dseq: Seq<(u32, Option<Seq<u8>>)>,
    i: int,
    j: int,
)
    requires
        chain_wf(oldv),
        asc_keys(updv),
        0 <= i < oldv.len(),
        0 <= j < updv.len(),
        oldv[i] == updv[j],
        // shape of the new chain
        newv.len() == i + 1 + (updv.len() - j - 1),
        forall|l: int| 0 <= l <= i ==> newv[l] == oldv[l],
        forall|l: int| i + 1 <= l < newv.len() ==> newv[l] == updv[j + 1 + (l - i - 1)],
        // shape of the diff: first the additions, then the removals
        dseq.len() >= updv.len() - j - 1,
        forall|l: int|
            0 <= l < updv.len() - j - 1 ==> dseq[l].0 == updv[j + 1 + l].0 && dseq[l].1 == Some(
                updv[j + 1 + l].1,
            ),
        forall|l: int|
            updv.len() - j - 1 <= l < dseq.len() ==> (#[trigger] dseq[l]).1 is None && !(exists|
                j3: int,
            |
                j < j3 < updv.len() && updv[j3].0 == dseq[l].0) && exists|m: int|
                i < m < oldv.len() && oldv[m].0 == dseq[l].0,
        forall|m: int|
            i < m < oldv.len() ==> #[trigger] removed_height_covered(
                oldv,
                updv,
                dseq,
                j,
                updv.len() - j - 1,
                m,
            ),
    ensures
        chain_wf(newv),
        forall|h: u32| chain_at(newv, h) == replay_at(dseq, oldv, h),
        forall|h: u32|
            #![trigger chain_at(newv, h)]
            chain_at(newv, h) == (if h <= oldv[i].0 {
                chain_at(oldv, h)
            } else {
                chain_at(updv, h)
            }),
{
    let anc_h = oldv[i].0;
    assert forall|l1: int, l2: int| 0 <= l1 < l2 < newv.len() implies newv[l1].0 < newv[l2].0 by {
        if l2 <= i {
        } else if l1 > i {
            assert(updv[j + 1 + (l1 - i - 1)].0 < updv[j + 1 + (l2 - i - 1)].0);
        } else {
            assert(newv[l1].0 <= anc_h);
            assert(updv[j].0 < updv[j + 1 + (l2 - i - 1)].0);
        }
    }
    assert(newv[0] == oldv[0]);
    assert forall|h: u32| chain_at(newv, h) == replay_at(dseq, oldv, h) by {
        lemma_replay_pointwise(oldv, updv, newv, dseq, i, j, h);
    }
    assert forall|h: u32|
        #![trigger chain_at(newv, h)]
        chain_at(newv, h) == (if h <= oldv[i].0 {
            chain_at(oldv, h)
        } else {
            chain_at(updv, h)
        }) by {
        lemma_replay_pointwise(oldv, updv, newv, dseq, i, j, h);
    }
}

#[verifier::rlimit(80)]
proof fn lemma_replay_pointwise(
    oldv: Seq<(u32, Seq<u8>)>,
    updv: Seq<(u32, Seq<u8>)>,
    newv: Seq<(u32, Seq<u8>)>,
    dseq: Seq<(u32, Option<Seq<u8>>)>,
    i: int,
    j: int,
    h: u32,
)
    requires
        chain_wf(oldv),
        asc_keys(updv),
        0 <= i < oldv.len(),
        0 <= j < updv.len(),
        oldv[i] == updv[j],
        newv.len() == i + 1 + (updv.len() - j - 1),
        forall|l: int| 0 <= l <= i ==> newv[l] == oldv[l],
        forall|l: int| i + 1 <= l < newv.len() ==> newv[l] == updv[j + 1 + (l - i - 1)],
        asc_keys(newv),
        dseq.len() >= updv.len() - j - 1,
        forall|l: int|
            0 <= l < updv.len() - j - 1 ==> dseq[l].0 == updv[j + 1 + l].0 && dseq[l].1 == Some(
                updv[j + 1 + l].1,
            ),
        forall|l: int|
            updv.len() - j - 1 <= l < dseq.len() ==> (#[trigger] dseq[l]).1 is None && !(exists|
                j3: int,
            |
                j < j3 < updv.len() && updv[j3].0 == dseq[l].0) && exists|m: int|
                i < m < oldv.len() && oldv[m].0 == dseq[l].0,
        forall|m: int|
            i < m < oldv.len() ==> #[trigger] removed_height_covered(
                oldv,
                updv,
                dseq,
                j,
                updv.len() - j - 1,
                m,
            ),
    ensures
        chain_at(newv, h) == replay_at(dseq, oldv, h),
        chain_at(newv, h) == (if h <= oldv[i].0 {
            chain_at(oldv, h)
        } else {
            chain_at(updv, h)
        }),
{
    let anc_h = oldv[i].0;
    let nadds = updv.len() - j - 1;
    if exists|j3: int| j < j3 < updv.len() && updv[j3].0 == h {
        // the candidate supplies this height: both sides give its hash
        let j3 = choose|j3: int| j < j3 < updv.len() && updv[j3].0 == h;
        let x = updv[j3].1;
        assert(newv[i + 1 + (j3 - j - 1)] == updv[j3]);
        lemma_lk_unique(newv, i + 1 + (j3 - j - 1));
        lemma_lk_unique(updv, j3);
        assert(updv[j].0 < updv[j3].0);
        assert(dseq[j3 - j - 1] == (h, Some(x)));
        if lk(dseq, h) != Some(Some(x)) {
            let l = lemma_lk_any_index(dseq, h, j3 - j - 1);
            if l < nadds {
                assert(updv[j + 1 + l].0 == h);
                assert(j + 1 + l == j3);
            } else {
                let m = choose|m: int| i < m < oldv.len() && oldv[m].0 == dseq[l].0;
                assert(oldv[m].0 == h);
                assert(oldv[i].0 < oldv[m].0);
                assert(updv[j].0 < updv[j3].0);
                assert(false);
            }
        }
    } else if h <= anc_h {
        // untouched prefix: no diff entry, new agrees with old
        assert(forall|l: int|
            0 <= l < dseq.len() ==> dseq[l].0 > anc_h) by {
            assert forall|l: int| 0 <= l < dseq.len() implies dseq[l].0 > anc_h by {
                if l < nadds {
                    assert(updv[j].0 < updv[j + 1 + l].0);
                } else {
                    let m = choose|m: int| i < m < oldv.len() && oldv[m].0 == dseq[l].0;
                    assert(oldv[i].0 < oldv[m].0);
                }
            }
        }
        lemma_lk_absent(dseq, h);
        if chain_at(oldv, h) is Some {
            let m = lemma_lk_some_index(oldv, h);
            assert(m <= i) by {
                if m > i {
                    assert(oldv[i].0 < oldv[m].0);
                }
            }
            lemma_lk_unique(newv, m);
        } else {
            assert forall|l: int| 0 <= l < newv.len() implies newv[l].0 != h by {
                if l <= i {
                    if oldv[l].0 == h {
                        lemma_lk_unique(oldv, l);
                    }
                } else {
                    assert(updv[j].0 < updv[j + 1 + (l - i - 1)].0);
                }
            }
            lemma_lk_absent(newv, h);
        }
    } else {
        // above the reorg point, not supplied by the candidate: gone
        assert forall|l: int| 0 <= l < updv.len() implies updv[l].0 != h by {
            if l > j {
            } else {
                assert(updv[l].0 <= updv[j].0);
            }
        }
        lemma_lk_absent(updv, h);
        assert forall|l: int| 0 <= l < newv.len() implies newv[l].0 != h by {
            if l <= i {
                assert(newv[l].0 <= anc_h) by {
                    if l < i {
                        assert(oldv[l].0 < oldv[i].0);
                    }
                }
            }
        }
        lemma_lk_absent(newv, h);
        if chain_at(oldv, h) is Some {
            let m = lemma_lk_some_index(oldv, h);
            assert(m > i) by {
                if m < i {
                    assert(oldv[m].0 < oldv[i].0);
                }
            }
            assert(removed_height_covered(oldv, updv, dseq, j, nadds, m));
            let l = choose|l: int| nadds <= l < dseq.len() && dseq[l].0 == oldv[m].0;
            let l2 = lemma_lk_any_index(dseq, h, l);
            if l2 < nadds {
                assert(updv[j + 1 + l2].0 == h);
                assert(false);
            }
            assert(lk(dseq, h) == Some(dseq[l2].1));
            assert(dseq[l2].1 is None);
        } else {
            assert forall|l: int| 0 <= l < dseq.len() implies dseq[l].0 != h by {
                if l < nadds {
                } else {
                    let m = choose|m: int| i < m < oldv.len() && oldv[m].0 == dseq[l].0;
                    if oldv[m].0 == h {
                        lemma_lk_unique(oldv, m);
                    }
                }
            }
            lemma_lk_absent(dseq, h);
        }
    }
}

/// When some entry at the key exists, lookup succeeds and returns the value
/// of one of the entries at that key.
proof fn lemma_lk_any_index<K, V>(s: Seq<(K, V)>, k: K, w: int) -> (l: int)
    requires
        0 <= w < s.len(),
        s[w].0 == k,
    ensures
        0 <= l < s.len(),
        s[l].0 == k,
        lk(s, k) == Some(s[l].1),
    decreases s.len(),
{
    if s.last().0 == k {
        s.len() - 1
    } else {
        assert(w < s.len() - 1);
        assert(s.drop_last()[w] == s[w]);
        let l = lemma_lk_any_index(s.drop_last(), k, w);
        assert(s[l] == s.drop_last()[l]);
        l
    }
}

/// Rebuilds a chain from a chain diff: the checkpoints the diff maps to a
/// hash, in ascending height order.  Fails when the diff holds no genesis.
pub fn chain_from_diff(d: &Vec<(u32, Option<Vec<u8>>)>) -> (r: Result<
    Vec<Checkpoint>,
    TrackerError,
>)
    ensures
        match r {
            Ok(c) => {
                &&& chain_wf(cv(c@))
                &&& forall|h: u32| chain_at(cv(c@), h) == replay_at(dview(d@), Seq::empty(), h)
            },
            Err(e) => {
                &&& e == TrackerError::MissingGenesis
                &&& !(replay_at(dview(d@), Seq::empty(), 0) is Some)
            },
        },
{
    let g = match diff_at(d, 0) {
        Some(Some(x)) => x,
        _ => {
            return Err(TrackerError::MissingGenesis);
        },
    };
    let mut out: Vec<Checkpoint> = Vec::new();
    out.push(Checkpoint { height: 0, hash: g });
    let mut cur: u32 = 0;
    loop
        invariant
            out@.len() > 0,
            asc_keys(cv(out@)),
            cv(out@)[0].0 == 0,
            cv(out@).last().0 == cur,
            forall|h2: u32|
                h2 <= cur ==> chain_at(cv(out@), h2) == replay_at(dview(d@), Seq::empty(), h2),
            forall|l: int| 0 <= l < out@.len() ==> cv(out@)[l].0 <= cur,
        decreases 0xffff_ffffu32 - cur,
    {
        match next_entry(d, cur) {
            Some(p) => {
                let ghost prev = cv(out@);
                let h = p.0;
                out.push(Checkpoint { height: h, hash: p.1 });
                proof {
                    assert(cv(out@) =~= prev.push((h, p.1@)));
                    assert forall|h2: u32| h2 <= h implies chain_at(cv(out@), h2) == replay_at(
                        dview(d@),
                        Seq::empty(),
                        h2,
                    ) by {
                        assert(cv(out@).drop_last() =~= prev);
                        assert(cv(out@).last() == (h, p.1@));
                        if h2 < h {
                            assert(chain_at(cv(out@), h2) == chain_at(prev, h2));
                            if h2 > cur {
                                lemma_lk_absent(prev, h2);
                            }
                        }
                    }
                }
                cur = h;
            },
            None => {
                proof {
                    assert forall|h2: u32| true implies chain_at(cv(out@), h2) == replay_at(
                        dview(d@),
                        Seq::empty(),
                        h2,
                    ) by {
                        if h2 > cur {
                            lemma_lk_absent(cv(out@), h2);
                        }
                    }
                }
                return Ok(out);
            },
        }
    }
}

/// The view of a raw chain-diff vector.
pub open spec fn dview(d: Seq<(u32, Option<Vec<u8>>)>) -> Seq<(u32, Option<Seq<u8>>)> {
    d.map_values(|p: (u32, Option<Vec<u8>>)| (p.0, crate::changeset::opt_bytes(p.1)))
}

/// What the diff records at a height: the latest entry wins.
fn diff_at(d: &Vec<(u32, Option<Vec<u8>>)>, h: u32) -> (r: Option<Option<Vec<u8>>>)
    ensures
        match r {
            None => lk(dview(d@), h) is None,
            Some(None) => lk(dview(d@), h) == Some(None::<Seq<u8>>),
            Some(Some(x)) => lk(dview(d@), h) == Some(Some(x@)),
        },
{
    let mut k: usize = d.len();
    proof {
        assert(dview(d@).take(d@.len() as int) =~= dview(d@));
    }
    while k > 0
        invariant
            k <= d@.len(),
            lk(dview(d@), h) == lk(dview(d@).take(k as int), h),
        decreases k,
    {
        k -= 1;
        proof {
            assert(dview(d@).take(k + 1).drop_last() =~= dview(d@).take(k as int));
            assert(dview(d@).take(k + 1).last() == dview(d@)[k as int]);
        }
        if d[k].0 == h {
            match &d[k].1 {
                Some(x) => {
                    return Some(Some(clone_bytes(x)));
                },
                None => {
                    return Some(None);
                },
            }
        }
    }
    proof {
        assert(dview(d@).take(0) =~= Seq::<(u32, Option<Seq<u8>>)>::empty());
    }
    None
}

/// The lowest height above `cur` that the diff maps to a hash, with that
/// hash; `None` when every height above `cur` is unmapped or removed.
fn next_entry(d: &Vec<(u32, Option<Vec<u8>>)>, cur: u32) -> (r: Option<(u32, Vec<u8>)>)
    ensures
        match r {
            Some(p) => {
                &&& p.0 > cur
                &&& lk(dview(d@), p.0) == Some(Some(p.1@))
                &&& forall|h2: u32| cur < h2 < p.0 ==> !(replay_at(dview(d@), Seq::empty(), h2) is Some)
            },
            None => forall|h2: u32| h2 > cur ==> !(replay_at(dview(d@), Seq::empty(), h2) is Some),
        },
{
    let mut best: Option<(u32, Vec<u8>)> = None;
    let n = d.len();
    let mut l: usize = 0;
    while l < n
        invariant
            l <= n,
            n == d@.len(),
            match best {
                Some(p) => {
                    &&& p.0 > cur
                    &&& lk(dview(d@), p.0) == Some(Some(p.1@))
                    &&& forall|l2: int|
                        (0 <= l2 < l && d@[l2].0 > cur && (lk(dview(d@), d@[l2].0) matches Some(
                            Some(_),
                        ))) ==> p.0 <= d@[l2].0
                },
                None => forall|l2: int|
                    0 <= l2 < l ==> !(d@[l2].0 > cur && lk(dview(d@), d@[l2].0) matches Some(
                        Some(_),
                    )),
            },
        decreases n - l,
    {
        let h2 = d[l].0;
        let better = match &best {
            Some(p) => h2 < p.0,
            None => true,
        };
        if h2 > cur && better {
            match diff_at(d, h2) {
                Some(Some(x)) => {
                    best = Some((h2, x));
                },
                _ => {},
            }
        }
        l += 1;
    }
    proof {
        match &best {
            Some(p) => {
                assert forall|h2: u32| cur < h2 < p.0 implies !(replay_at(
                    dview(d@),
                    Seq::empty(),
                    h2,
                ) is Some) by {
                    lemma_lk_absent(Seq::<(u32, Seq<u8>)>::empty(), h2);
                    if lk(dview(d@), h2) matches Some(Some(_)) {
                        let l2 = lemma_lk_some_index(dview(d@), h2);
                        assert(d@[l2].0 == h2);
                    }
                }
            },
            None => {
                assert forall|h2: u32| h2 > cur implies !(replay_at(
                    dview(d@),
                    Seq::empty(),
                    h2,
                ) is Some) by {
                    lemma_lk_absent(Seq::<(u32, Seq<u8>)>::empty(), h2);
                    if lk(dview(d@), h2) matches Some(Some(_)) {
                        let l2 = lemma_lk_some_index(dview(d@), h2);
                        assert(d@[l2].0 == h2);
                    }
                }
            },
        }
    }
    best
}

} // verus!
