//! Transaction surface: the error taxonomy, the transaction value with its
//! predicate and write sets, and the phase functions that drive a
//! transaction from timestamp allocation through validation, durable write
//! and maintenance.

use vstd::prelude::*;

use crate::bytes::{at_key, bang_key, ts_persist_key, version_key};
use crate::codec::versions_bytes;
use crate::db::{
    add_version_spec, alloc_next, lemma_alloc_next_advances, materialized_chain, purge_spec,
    same_chains, Db, TS_SAFETY_BUFFER, TS_LIMIT,
};
use crate::mvcc::{bump_index, bump_spec, chain_visible, install_ok, record_with_wts, settle_last, MemRecord, Status};
use crate::store::{opt_bytes, read};

verus! {

/// Why a transaction did not commit.
#[derive(Debug, PartialEq, Eq)]
pub enum Error {
    /// Optimistic conflict; the caller may retry with fresh timestamps.
    Abort,
    /// A predicate did not hold of the visible value; not retryable.
    PredicateFailure,
    /// The underlying store refused a compare-and-set; carries what it found.
    Db(Option<Vec<u8>>),
    /// A scan ran into another transaction's pending record.
    Blocked,
}

pub type TxResult<T> = Result<T, Error>;

impl Error {
    /// A short human-readable description of the failure.
    pub fn message(&self) -> (r: &'static str)
        ensures
            r@ == match self {
                Error::Abort => "Transaction aborted"@,
                Error::PredicateFailure => "Transaction predicate failed"@,
                Error::Db(_) => "Underlying DB error"@,
                Error::Blocked => "Transaction currently blocked on another"@,
            },
    {
        match self {
            Error::Abort => "Transaction aborted",
            Error::PredicateFailure => "Transaction predicate failed",
            Error::Db(_) => "Underlying DB error",
            Error::Blocked => "Transaction currently blocked on another",
        }
    }
}

/// View of a key list.
pub open spec fn keys_view(s: Seq<Vec<u8>>) -> Seq<Seq<u8>> {
    s.map_values(|v: Vec<u8>| v@)
}

/// View of a key/optional-value list.
pub open spec fn kv_view(s: Seq<(Vec<u8>, Option<Vec<u8>>)>) -> Seq<(Seq<u8>, Option<Seq<u8>>)> {
    s.map_values(|p: (Vec<u8>, Option<Vec<u8>>)| (p.0@, opt_bytes(p.1)))
}

/// View of the per-key snapshot list.
pub open spec fn entries_view(s: Seq<(Vec<u8>, u64)>) -> Seq<(Seq<u8>, u64)> {
    s.map_values(|p: (Vec<u8>, u64)| (p.0@, p.1))
}

/// The keys of a key/value list.
pub open spec fn firsts(s: Seq<(Seq<u8>, Option<Seq<u8>>)>) -> Seq<Seq<u8>> {
    s.map_values(|p: (Seq<u8>, Option<Seq<u8>>)| p.0)
}

/// Deduplicate a key list, keeping first occurrences in order.
pub open spec fn dedup_first(keys: Seq<Seq<u8>>) -> Seq<Seq<u8>>
    decreases keys.len(),
{
    if keys.len() == 0 {
        Seq::empty()
    } else {
        let d = dedup_first(keys.drop_last());
        if d.contains(keys.last()) {
            d
        } else {
            d.push(keys.last())
        }
    }
}

/// A key survives deduplication exactly when it was there.
pub proof fn lemma_dedup_first_contains(keys: Seq<Seq<u8>>, k: Seq<u8>)
    ensures
        dedup_first(keys).contains(k) <==> keys.contains(k),
    decreases keys.len(),
{
    if keys.len() == 0 {
    } else {
        lemma_dedup_first_contains(keys.drop_last(), k);
        let d = dedup_first(keys.drop_last());
        if keys.contains(k) {
            let i = choose|i: int| 0 <= i < keys.len() && keys[i] == k;
            if i < keys.len() - 1 {
                assert(keys.drop_last()[i] == k);
                assert(keys.drop_last().contains(k));
                if !d.contains(keys.last()) {
                    let j = choose|j: int| 0 <= j < d.len() && d[j] == k;
                    assert(d.push(keys.last())[j] == k);
                }
            } else {
                if d.contains(keys.last()) {
                } else {
                    assert(d.push(keys.last()).last() == k);
                }
            }
        }
        if dedup_first(keys).contains(k) {
            if d.contains(keys.last()) {
                assert(keys.drop_last().contains(k));
                let i = choose|i: int| 0 <= i < keys.drop_last().len() && keys.drop_last()[i] == k;
                assert(keys[i] == k);
            } else {
                let j = choose|j: int| 0 <= j < d.push(keys.last()).len() && d.push(keys.last())[j] == k;
                if j < d.len() {
                    assert(d[j] == k);
                    let i = choose|i: int|
                        0 <= i < keys.drop_last().len() && keys.drop_last()[i] == k;
                    assert(keys[i] == k);
                } else {
                    assert(keys[keys.len() - 1] == k);
                }
            }
        }
    }
}

/// First snapshot entry recorded for a key.
pub open spec fn lookup_entry(entries: Seq<(Seq<u8>, u64)>, k: Seq<u8>) -> Option<u64>
    decreases entries.len(),
{
    if entries.len() == 0 {
        None
    } else if entries[0].0 == k {
        Some(entries[0].1)
    } else {
        lookup_entry(entries.skip(1), k)
    }
}

/// The chain a key has or would get: the materialized one when the index
/// holds it, else the one its persisted versions would produce.
pub open spec fn chain_for_m(cm: Map<Seq<u8>, Seq<MemRecord>>, sm: Map<Seq<u8>, Seq<u8>>, k: Seq<u8>) -> Seq<
    MemRecord,
> {
    if cm.contains_key(k) {
        cm[k]
    } else {
        materialized_chain(sm, k)
    }
}

/// `chain_for_m` over an engine handle's state.
pub open spec fn chain_for(db: Db, k: Seq<u8>) -> Seq<MemRecord> {
    chain_for_m(db.chains_view(), db.store_view(), k)
}

/// The timestamp the version search reports for a key (meaningful only
/// when the scan does not block).
pub open spec fn visible_at_m(
    cm: Map<Seq<u8>, Seq<MemRecord>>,
    sm: Map<Seq<u8>, Seq<u8>>,
    base: u64,
    k: Seq<u8>,
) -> u64 {
    match chain_visible(chain_for_m(cm, sm, k), base) {
        Some(t) => t,
        None => 0,
    }
}

/// `visible_at_m` over an engine handle's state.
pub open spec fn visible_at(db: Db, base: u64, k: Seq<u8>) -> u64 {
    visible_at_m(db.chains_view(), db.store_view(), base, k)
}

/// What the version search returns: the first key whose scan blocks yields
/// `Blocked`, the first whose visible version is newer than the
/// transaction yields `Abort`.
pub open spec fn search_outcome_m(
    cm: Map<Seq<u8>, Seq<MemRecord>>,
    sm: Map<Seq<u8>, Seq<u8>>,
    base: u64,
    keys: Seq<Seq<u8>>,
) -> Result<(), Error>
    decreases keys.len(),
{
    if keys.len() == 0 {
        Ok(())
    } else {
        match chain_visible(chain_for_m(cm, sm, keys[0]), base) {
            None => Err(Error::Blocked),
            Some(t) => {
                if t > base {
                    Err(Error::Abort)
                } else {
                    search_outcome_m(cm, sm, base, keys.skip(1))
                }
            },
        }
    }
}

/// `search_outcome_m` over an engine handle's state.
pub open spec fn search_outcome(db: Db, base: u64, keys: Seq<Seq<u8>>) -> Result<(), Error> {
    search_outcome_m(db.chains_view(), db.store_view(), base, keys)
}

/// The snapshot entries a successful version search records.
pub open spec fn search_entries_m(
    cm: Map<Seq<u8>, Seq<MemRecord>>,
    sm: Map<Seq<u8>, Seq<u8>>,
    base: u64,
    keys: Seq<Seq<u8>>,
) -> Seq<(Seq<u8>, u64)> {
    Seq::new(keys.len(), |i: int| (keys[i], visible_at_m(cm, sm, base, keys[i])))
}

/// `search_entries_m` over an engine handle's state.
pub open spec fn search_entries(db: Db, base: u64, keys: Seq<Seq<u8>>) -> Seq<(Seq<u8>, u64)> {
    search_entries_m(db.chains_view(), db.store_view(), base, keys)
}

/// The pending record write `i` installs: stamped with the base timestamp,
/// naming its version, or a tombstone for a deletion.
pub open spec fn install_rec(sets: Seq<(Seq<u8>, Option<Seq<u8>>)>, base: u64, i: int) -> MemRecord {
    MemRecord {
        wts: base,
        rts: 0,
        data: if sets[i].1 is Some {
            Some((base + i) as u64)
        } else {
            None
        },
        status: Status::Pending,
    }
}

/// The install phase from write `i` on: the chains after the appends, how
/// many writes installed, and the result.  The first write whose validated
/// tail moved, or whose key was never searched, aborts.
pub open spec fn install_fold(
    cm: Map<Seq<u8>, Seq<MemRecord>>,
    entries: Seq<(Seq<u8>, u64)>,
    sets: Seq<(Seq<u8>, Option<Seq<u8>>)>,
    base: u64,
    i: int,
) -> (Map<Seq<u8>, Seq<MemRecord>>, int, Result<(), Error>)
    decreases sets.len() - i,
{
    if i < 0 || i >= sets.len() {
        (cm, i, Ok::<(), Error>(()))
    } else {
        let k = sets[i].0;
        match lookup_entry(entries, k) {
            None => (cm, i, Err::<(), Error>(Error::Abort)),
            Some(iv) => {
                if !cm.contains_key(k) {
                    (cm, i, Err::<(), Error>(Error::Abort))
                } else {
                    let rec = install_rec(sets, base, i);
                    if install_ok(cm[k], iv, rec) {
                        install_fold(cm.insert(k, cm[k].push(rec)), entries, sets, base, i + 1)
                    } else {
                        (cm, i, Err::<(), Error>(Error::Abort))
                    }
                }
            },
        }
    }
}

/// The read-timestamp phase: every predicate key's chain advertises the
/// read at `base`; keys without a chain are passed over.
pub open spec fn bump_fold(
    cm: Map<Seq<u8>, Seq<MemRecord>>,
    preds: Seq<(Seq<u8>, Option<Seq<u8>>)>,
    base: u64,
    n: int,
) -> Map<Seq<u8>, Seq<MemRecord>>
    decreases n,
{
    if n <= 0 {
        cm
    } else {
        let cm1 = bump_fold(cm, preds, base, n - 1);
        let k = preds[n - 1].0;
        if cm1.contains_key(k) {
            cm1.insert(k, bump_spec(cm1[k], base))
        } else {
            cm1
        }
    }
}

/// The predicate phase: each predicate re-scans its chain (a move past
/// both the snapshot and the transaction's own stamp aborts), fetches the
/// value of the version it initially saw, and compares.
pub open spec fn check_preds_outcome_m(
    cm: Map<Seq<u8>, Seq<MemRecord>>,
    sm: Map<Seq<u8>, Seq<u8>>,
    base: u64,
    entries: Seq<(Seq<u8>, u64)>,
    preds: Seq<(Seq<u8>, Option<Seq<u8>>)>,
) -> Result<(), Error>
    decreases preds.len(),
{
    if preds.len() == 0 {
        Ok(())
    } else {
        let k = preds[0].0;
        match lookup_entry(entries, k) {
            None => Err(Error::Abort),
            Some(iv) => {
                if !cm.contains_key(k) {
                    Err(Error::Abort)
                } else {
                    match chain_visible(cm[k], base) {
                        None => Err(Error::Blocked),
                        Some(vis) => {
                            if vis != iv && vis != base {
                                Err(Error::Abort)
                            } else {
                                match record_with_wts(cm[k], iv) {
                                    None => Err(Error::Abort),
                                    Some(rec) => {
                                        let val = match rec.data {
                                            Some(v) => read(sm, version_key(v)),
                                            None => None::<Seq<u8>>,
                                        };
                                        if val == preds[0].1 {
                                            check_preds_outcome_m(
                                                cm,
                                                sm,
                                                base,
                                                entries,
                                                preds.skip(1),
                                            )
                                        } else {
                                            Err(Error::PredicateFailure)
                                        }
                                    },
                                }
                            }
                        },
                    }
                }
            },
        }
    }
}

/// `check_preds_outcome_m` over an engine handle's state.
pub open spec fn check_preds_outcome(
    db: Db,
    base: u64,
    entries: Seq<(Seq<u8>, u64)>,
    preds: Seq<(Seq<u8>, Option<Seq<u8>>)>,
) -> Result<(), Error> {
    check_preds_outcome_m(db.chains_view(), db.store_view(), base, entries, preds)
}

/// The consistency phase: every predicate key must still see either its
/// snapshot version or the transaction's own stamp.
pub open spec fn check_vc_outcome_m(
    cm: Map<Seq<u8>, Seq<MemRecord>>,
    base: u64,
    entries: Seq<(Seq<u8>, u64)>,
    preds: Seq<(Seq<u8>, Option<Seq<u8>>)>,
) -> Result<(), Error>
    decreases preds.len(),
{
    if preds.len() == 0 {
        Ok(())
    } else {
        let k = preds[0].0;
        match lookup_entry(entries, k) {
            None => Err(Error::Abort),
            Some(iv) => {
                if !cm.contains_key(k) {
                    Err(Error::Abort)
                } else {
                    match chain_visible(cm[k], base) {
                        None => Err(Error::Blocked),
                        Some(vis) => {
                            if vis != iv && vis != base {
                                Err(Error::Abort)
                            } else {
                                check_vc_outcome_m(cm, base, entries, preds.skip(1))
                            }
                        },
                    }
                }
            },
        }
    }
}

/// `check_vc_outcome_m` over an engine handle's state.
pub open spec fn check_vc_outcome(
    db: Db,
    base: u64,
    entries: Seq<(Seq<u8>, u64)>,
    preds: Seq<(Seq<u8>, Option<Seq<u8>>)>,
) -> Result<(), Error> {
    check_vc_outcome_m(db.chains_view(), base, entries, preds)
}

/// The chain index after the version search materialized every searched
/// key: old chains kept, searched keys present with the chain they have or
/// would get.
pub open spec fn materialize_all(
    cm: Map<Seq<u8>, Seq<MemRecord>>,
    sm: Map<Seq<u8>, Seq<u8>>,
    ks: Seq<Seq<u8>>,
) -> Map<Seq<u8>, Seq<MemRecord>> {
    Map::new(
        |k: Seq<u8>| cm.contains_key(k) || ks.contains(k),
        |k: Seq<u8>| chain_for_m(cm, sm, k),
    )
}

/// No chain record anywhere carries the stamp `base`.
pub open spec fn stamped_absent(cm: Map<Seq<u8>, Seq<MemRecord>>, base: u64) -> bool {
    forall|k: Seq<u8>, i: int|
        cm.contains_key(k) && 0 <= i < cm[k].len() ==> (#[trigger] cm[k][i]).wts != base
}

/// Every chain record stamped `base` has settled into the given status.
pub open spec fn stamped_settled(cm: Map<Seq<u8>, Seq<MemRecord>>, base: u64, st: Status) -> bool {
    forall|k: Seq<u8>, i: int|
        cm.contains_key(k) && 0 <= i < cm[k].len() && (#[trigger] cm[k][i]).wts == base
            ==> cm[k][i].status == st
}

/// Every chain record stamped `base` is the pending tail of one of the
/// first `n` writes' chains.
pub open spec fn stamped_are_tails(
    cm: Map<Seq<u8>, Seq<MemRecord>>,
    sets: Seq<(Seq<u8>, Option<Seq<u8>>)>,
    base: u64,
    n: int,
) -> bool {
    forall|k: Seq<u8>, i: int|
        cm.contains_key(k) && 0 <= i < cm[k].len() && (#[trigger] cm[k][i]).wts == base ==> exists|
            j: int,
        | 0 <= j < n && k == (#[trigger] sets[j]).0 && i == cm[k].len() - 1
}

/// The maintenance fold reshapes nothing: lengths, stamps, handles and
/// read timestamps survive, and the settled keys' tails take the status.
proof fn lemma_settle_fold_shape(
    cm: Map<Seq<u8>, Seq<MemRecord>>,
    sets: Seq<(Seq<u8>, Option<Seq<u8>>)>,
    n: int,
    st: Status,
)
    requires
        0 <= n <= sets.len(),
        forall|j: int|
            0 <= j < n ==> cm.contains_key((#[trigger] sets[j]).0) && cm[sets[j].0].len() > 0,
    ensures
        forall|k: Seq<u8>| #[trigger]
            settle_fold(cm, sets, n, st).contains_key(k) <==> cm.contains_key(k),
        forall|k: Seq<u8>| #[trigger]
            settle_fold(cm, sets, n, st).contains_key(k) ==> settle_fold(cm, sets, n, st)[k].len()
                == cm[k].len() && (forall|i: int|
                0 <= i < cm[k].len() ==> {
                    let a = #[trigger] settle_fold(cm, sets, n, st)[k][i];
                    let b = cm[k][i];
                    a.wts == b.wts && a.data == b.data && a.rts == b.rts
                }),
        forall|j: int|
            0 <= j < n ==> (#[trigger] settle_fold(cm, sets, n, st).index(
                sets[j].0,
            )).last().status == st,
    decreases n,
{
    if n <= 0 {
    } else {
        lemma_settle_fold_shape(cm, sets, n - 1, st);
        let cm1 = settle_fold(cm, sets, n - 1, st);
        let k = sets[n - 1].0;
        assert(cm1.contains_key(k) && cm1[k].len() == cm[k].len());
        assert forall|j: int| 0 <= j < n implies (#[trigger] settle_fold(cm, sets, n, st).index(
            sets[j].0,
        )).last().status == st by {
            if sets[j].0 != k {
                assert(settle_fold(cm, sets, n, st)[sets[j].0] == cm1[sets[j].0]);
            }
        }
    }
}

/// The result of the whole phase pipeline as a function of the starting
/// state: the phases run in their fixed order over the deterministic
/// intermediate states, and the first failing phase's error is the result.
/// `Ok` holds exactly when every phase succeeds.
pub open spec fn pipeline_outcome(
    sm0: Map<Seq<u8>, Seq<u8>>,
    cm0: Map<Seq<u8>, Seq<MemRecord>>,
    c0: u64,
    tx: Tx,
) -> Result<(), Error> {
    let base = c0;
    let sets = tx.spec_sets();
    let preds = tx.spec_predicates();
    let ks = tx.spec_keyset();
    let sm1 = crate::db::alloc_store(sm0, c0, sets.len() as usize);
    match search_outcome_m(cm0, sm1, base, ks) {
        Err(e) => Err(e),
        Ok(_) => {
            let cm1 = materialize_all(cm0, sm1, ks);
            let entries = search_entries_m(cm0, sm1, base, ks);
            let fold = install_fold(cm1, entries, sets, base, 0);
            if fold.2 is Err {
                fold.2
            } else {
                let cm3 = bump_fold(fold.0, preds, base, preds.len() as int);
                match check_preds_outcome_m(cm3, sm1, base, entries, preds) {
                    Err(e) => Err(e),
                    Ok(_) => check_vc_outcome_m(cm3, base, entries, preds),
                }
            }
        },
    }
}

proof fn lemma_search_outcome_range(
    cm: Map<Seq<u8>, Seq<MemRecord>>,
    sm: Map<Seq<u8>, Seq<u8>>,
    base: u64,
    keys: Seq<Seq<u8>>,
)
    ensures
        search_outcome_m(cm, sm, base, keys) matches Err(e) ==> e == Error::Abort || e
            == Error::Blocked,
    decreases keys.len(),
{
    if keys.len() == 0 {
    } else {
        lemma_search_outcome_range(cm, sm, base, keys.skip(1));
    }
}

proof fn lemma_install_fold_range(
    cm: Map<Seq<u8>, Seq<MemRecord>>,
    entries: Seq<(Seq<u8>, u64)>,
    sets: Seq<(Seq<u8>, Option<Seq<u8>>)>,
    base: u64,
    i: int,
)
    ensures
        install_fold(cm, entries, sets, base, i).2 matches Err(e) ==> e == Error::Abort,
    decreases sets.len() - i,
{
    if i < 0 || i >= sets.len() {
    } else {
        let k = sets[i].0;
        match lookup_entry(entries, k) {
            None => {},
            Some(iv) => {
                if cm.contains_key(k) {
                    let rec = install_rec(sets, base, i);
                    if install_ok(cm[k], iv, rec) {
                        lemma_install_fold_range(
                            cm.insert(k, cm[k].push(rec)),
                            entries,
                            sets,
                            base,
                            i + 1,
                        );
                    }
                }
            },
        }
    }
}

proof fn lemma_check_preds_range(
    cm: Map<Seq<u8>, Seq<MemRecord>>,
    sm: Map<Seq<u8>, Seq<u8>>,
    base: u64,
    entries: Seq<(Seq<u8>, u64)>,
    preds: Seq<(Seq<u8>, Option<Seq<u8>>)>,
)
    ensures
        check_preds_outcome_m(cm, sm, base, entries, preds) matches Err(e) ==> e == Error::Abort
            || e == Error::Blocked || e == Error::PredicateFailure,
    decreases preds.len(),
{
    if preds.len() == 0 {
    } else {
        lemma_check_preds_range(cm, sm, base, entries, preds.skip(1));
    }
}

proof fn lemma_check_vc_range(
    cm: Map<Seq<u8>, Seq<MemRecord>>,
    base: u64,
    entries: Seq<(Seq<u8>, u64)>,
    preds: Seq<(Seq<u8>, Option<Seq<u8>>)>,
)
    ensures
        check_vc_outcome_m(cm, base, entries, preds) matches Err(e) ==> e == Error::Abort || e
            == Error::Blocked,
    decreases preds.len(),
{
    if preds.len() == 0 {
    } else {
        lemma_check_vc_range(cm, base, entries, preds.skip(1));
    }
}

/// The pipeline fails only with an optimistic conflict, a failed
/// predicate, or a blocked scan; a store error never arises in this store
/// model.
pub proof fn lemma_pipeline_error_range(
    sm0: Map<Seq<u8>, Seq<u8>>,
    cm0: Map<Seq<u8>, Seq<MemRecord>>,
    c0: u64,
    tx: Tx,
)
    ensures
        pipeline_outcome(sm0, cm0, c0, tx) matches Err(e) ==> e == Error::Abort || e
            == Error::PredicateFailure || e == Error::Blocked,
{
    let base = c0;
    let sets = tx.spec_sets();
    let preds = tx.spec_predicates();
    let ks = tx.spec_keyset();
    let sm1 = crate::db::alloc_store(sm0, c0, sets.len() as usize);
    lemma_search_outcome_range(cm0, sm1, base, ks);
    let cm1 = materialize_all(cm0, sm1, ks);
    let entries = search_entries_m(cm0, sm1, base, ks);
    lemma_install_fold_range(cm1, entries, sets, base, 0);
    let fold = install_fold(cm1, entries, sets, base, 0);
    let cm3 = bump_fold(fold.0, preds, base, preds.len() as int);
    lemma_check_preds_range(cm3, sm1, base, entries, preds);
    lemma_check_vc_range(cm3, base, entries, preds);
}

/// The version list a key holds, or the empty one.
pub open spec fn prior_of(m: Map<Seq<u8>, Seq<u8>>, k: Seq<u8>) -> Seq<(u64, u64)> {
    match read(m, at_key(k)) {
        Some(bytes) => crate::codec::parse_versions(bytes)->0,
        None => Seq::empty(),
    }
}

/// The write phase from write `i` on: each write persists its value bytes
/// under its version key and appends `(base, version)` to its key's list.
pub open spec fn write_values(
    m: Map<Seq<u8>, Seq<u8>>,
    sets: Seq<(Seq<u8>, Option<Seq<u8>>)>,
    base: u64,
    i: int,
) -> Map<Seq<u8>, Seq<u8>>
    decreases sets.len() - i,
{
    if i < 0 || i >= sets.len() {
        m
    } else {
        let m1 = m.insert(version_key((base + i) as u64), sets[i].1->0);
        let m2 = add_version_spec(m1, sets[i].0, base, (base + i) as u64);
        write_values(m2, sets, base, i + 1)
    }
}

/// The maintenance phase on the chains: the tail record of each of the
/// first `n` write keys settles into the given status.
pub open spec fn settle_fold(
    cm: Map<Seq<u8>, Seq<MemRecord>>,
    sets: Seq<(Seq<u8>, Option<Seq<u8>>)>,
    n: int,
    st: Status,
) -> Map<Seq<u8>, Seq<MemRecord>>
    decreases n,
{
    if n <= 0 {
        cm
    } else {
        let cm1 = settle_fold(cm, sets, n - 1, st);
        let k = sets[n - 1].0;
        if cm1.contains_key(k) && cm1[k].len() > 0 {
            cm1.insert(k, settle_last(cm1[k], st))
        } else {
            cm1
        }
    }
}

/// The rollback on the store: purge the transaction's stamp from the
/// first `n` write keys.
pub open spec fn purge_fold(
    m: Map<Seq<u8>, Seq<u8>>,
    sets: Seq<(Seq<u8>, Option<Seq<u8>>)>,
    wts: u64,
    n: int,
) -> Map<Seq<u8>, Seq<u8>>
    decreases n,
{
    if n <= 0 {
        m
    } else {
        purge_spec(purge_fold(m, sets, wts, n - 1), sets[n - 1].0, wts)
    }
}

/// Rolling back a transaction unlinks it completely: after its stamp is
/// purged from every key it wrote, no such key's version list references
/// the stamp — the first half of all-or-nothing durability, the second
/// being that recovery deletes the transaction's journal record.
pub proof fn lemma_rollback_unlinks_stamp(
    m: Map<Seq<u8>, Seq<u8>>,
    sets: Seq<(Seq<u8>, Option<Seq<u8>>)>,
    ts: u64,
    n: int,
)
    requires
        crate::db::wf_store(m),
        0 <= n <= sets.len(),
    ensures
        crate::db::wf_store(purge_fold(m, sets, ts, n)),
        forall|j: int|
            0 <= j < n ==> (match read(purge_fold(m, sets, ts, n), at_key((#[trigger] sets[j]).0)) {
                Some(bytes) => crate::codec::parse_versions(bytes) is Some && !crate::db::has_wts(
                    crate::codec::parse_versions(bytes)->0,
                    ts,
                ),
                None => true,
            }),
    decreases n,
{
    if n <= 0 {
    } else {
        lemma_rollback_unlinks_stamp(m, sets, ts, n - 1);
        let m1 = purge_fold(m, sets, ts, n - 1);
        let k = sets[n - 1].0;
        crate::db::lemma_purge_spec_wf(m1, k, ts);
        assert forall|j: int| 0 <= j < n implies (match read(
            purge_fold(m, sets, ts, n),
            at_key((#[trigger] sets[j]).0),
        ) {
            Some(bytes) => crate::codec::parse_versions(bytes) is Some && !crate::db::has_wts(
                crate::codec::parse_versions(bytes)->0,
                ts,
            ),
            None => true,
        }) by {
            if sets[j].0 == k {
                crate::db::lemma_purge_removes_stamp(m1, k, ts);
                if j < n - 1 {
                    match read(m1, at_key(k)) {
                        Some(bytes) => {
                            assert(!crate::db::has_wts(
                                crate::codec::parse_versions(bytes)->0,
                                ts,
                            ));
                            assert(read(purge_fold(m, sets, ts, n), at_key(k)) == read(
                                m1,
                                at_key(k),
                            ));
                        },
                        None => {},
                    }
                }
            } else {
                crate::db::lemma_purge_spec_frame_at(m1, k, ts, sets[j].0);
            }
        }
    }
}

/// Purging a stamp no persisted list carries changes nothing.
pub proof fn lemma_purge_fold_noop(
    m: Map<Seq<u8>, Seq<u8>>,
    sets: Seq<(Seq<u8>, Option<Seq<u8>>)>,
    wts: u64,
    n: int,
)
    requires
        crate::db::fresh_versions(m, wts),
    ensures
        purge_fold(m, sets, wts, n) == m,
    decreases n,
{
    if n <= 0 {
    } else {
        lemma_purge_fold_noop(m, sets, wts, n - 1);
        let k = sets[n - 1].0;
        match read(m, at_key(k)) {
            Some(bytes) => {
                if crate::codec::parse_versions(bytes) is Some {
                    let vs = crate::codec::parse_versions(bytes)->0;
                    assert(crate::db::fresh_list(vs, wts)) by {
                        assert(m.contains_key(at_key(k)) && crate::db::is_at(at_key(k)));
                    }
                    assert(!crate::db::has_wts(vs, wts)) by {
                        if crate::db::has_wts(vs, wts) {
                            let j = choose|j: int| 0 <= j < vs.len() && (#[trigger] vs[j]).0 == wts;
                            assert(vs[j].0 < wts);
                        }
                    }
                }
            },
            None => {},
        }
    }
}

/// No write from position `i` on names application key `k0`.
pub open spec fn key_not_written(sets: Seq<(Seq<u8>, Option<Seq<u8>>)>, i: int, k0: Seq<u8>) -> bool
    decreases sets.len() - i,
{
    i < 0 || i >= sets.len() || (sets[i].0 != k0 && key_not_written(sets, i + 1, k0))
}

/// From position `i` on, only write `j` names write `j`'s key.
pub open spec fn key_unique(sets: Seq<(Seq<u8>, Option<Seq<u8>>)>, i: int, j: int) -> bool
    decreases sets.len() - i,
{
    i < 0 || i >= sets.len() || ((i == j || sets[i].0 != sets[j].0) && key_unique(sets, i + 1, j))
}

/// Pointwise uniqueness gives the recursive form.
pub proof fn lemma_key_unique_intro(sets: Seq<(Seq<u8>, Option<Seq<u8>>)>, i: int, j: int)
    requires
        forall|l: int|
            i <= l < sets.len() && l != j ==> (#[trigger] sets[l]).0 != sets[j].0,
    ensures
        key_unique(sets, i, j),
    decreases sets.len() - i,
{
    if i < 0 || i >= sets.len() {
    } else {
        assert(i == j || sets[i].0 != sets[j].0);
        lemma_key_unique_intro(sets, i + 1, j);
    }
}

/// Past `j`, uniqueness of write `j` means its key is never written again.
proof fn lemma_unique_gives_not_written(sets: Seq<(Seq<u8>, Option<Seq<u8>>)>, l: int, j: int)
    requires
        key_unique(sets, l, j),
        l > j,
    ensures
        key_not_written(sets, l, sets[j].0),
    decreases sets.len() - l,
{
    if l < 0 || l >= sets.len() {
    } else {
        lemma_unique_gives_not_written(sets, l + 1, j);
    }
}

/// What the write phase leaves behind, read key by key: each write's value
/// sits under its version key, each uniquely-written key's list gained its
/// `(base, version)` pair, and keys the writes do not name — other version
/// keys, unwritten application keys, journal keys, the checkpoint — read
/// the same as before.
#[verifier::rlimit(100)]
pub proof fn lemma_write_values_reads(
    m: Map<Seq<u8>, Seq<u8>>,
    sets: Seq<(Seq<u8>, Option<Seq<u8>>)>,
    base: u64,
    i: int,
)
    requires
        0 <= i <= sets.len(),
        base + sets.len() <= TS_LIMIT,
    ensures
        forall|j: int|
            i <= j < sets.len() ==> read(
                write_values(m, sets, base, i),
                version_key((base + j) as u64),
            ) == Some((#[trigger] sets[j]).1->0),
        forall|v: u64|
            v < TS_LIMIT && !(base + i <= v < base + sets.len()) ==> #[trigger] read(
                write_values(m, sets, base, i),
                version_key(v),
            ) == read(m, version_key(v)),
        forall|k0: Seq<u8>|
            #[trigger] key_not_written(sets, i, k0) ==> read(
                write_values(m, sets, base, i),
                at_key(k0),
            ) == read(m, at_key(k0)),
        forall|t: u64| #[trigger]
            read(write_values(m, sets, base, i), bang_key(t)) == read(m, bang_key(t)),
        read(write_values(m, sets, base, i), ts_persist_key()) == read(m, ts_persist_key()),
        forall|j: int|
            i <= j < sets.len() && key_unique(sets, i, j) ==> read(
                write_values(m, sets, base, i),
                at_key((#[trigger] sets[j]).0),
            ) == Some(versions_bytes(prior_of(m, sets[j].0).push((base, (base + j) as u64)))),
    decreases sets.len() - i,
{
    if i >= sets.len() {
    } else {
        let vk = version_key((base + i) as u64);
        let ak = at_key(sets[i].0);
        let m1 = m.insert(vk, sets[i].1->0);
        let m2 = add_version_spec(m1, sets[i].0, base, (base + i) as u64);
        let fold = write_values(m, sets, base, i);
        assert(fold == write_values(m2, sets, base, i + 1));
        lemma_write_values_reads(m2, sets, base, i + 1);
        assert((base + i) < TS_LIMIT);
        crate::bytes::lemma_version_key_shape((base + i) as u64);
        assert(vk != ak);
        assert(m2 == m1.insert(ak, versions_bytes(prior_of(m1, sets[i].0).push((base, (base
            + i) as u64)))));
        assert(read(m1, ak) == read(m, ak));
        assert(prior_of(m1, sets[i].0) == prior_of(m, sets[i].0));

        // version values: write i's own, then the rest by induction
        assert forall|j: int| i <= j < sets.len() implies read(
            fold,
            version_key((base + j) as u64),
        ) == Some((#[trigger] sets[j]).1->0) by {
            if j == i {
                assert((base + i) as u64 == base + i);
                assert(!(base + (i + 1) <= base + i));
                assert(read(fold, vk) == read(m2, vk));
                assert(read(m2, vk) == Some(sets[i].1->0));
            }
        }
        // version keys outside the written window
        assert forall|v: u64|
            v < TS_LIMIT && !(base + i <= v < base + sets.len()) implies #[trigger] read(
            fold,
            version_key(v),
        ) == read(m, version_key(v)) by {
            assert(!(base + (i + 1) <= v < base + sets.len()));
            assert(read(fold, version_key(v)) == read(m2, version_key(v)));
            crate::bytes::lemma_version_keys_distinct(v, (base + i) as u64);
            crate::bytes::lemma_version_key_shape(v);
            assert(version_key(v) != ak);
            assert(read(m2, version_key(v)) == read(m, version_key(v)));
        }
        // unwritten application keys
        assert forall|k0: Seq<u8>| #[trigger] key_not_written(sets, i, k0) implies read(
            fold,
            at_key(k0),
        ) == read(m, at_key(k0)) by {
            assert(sets[i].0 != k0 && key_not_written(sets, i + 1, k0));
            assert(read(fold, at_key(k0)) == read(m2, at_key(k0)));
            crate::bytes::lemma_at_keys_distinct(sets[i].0, k0);
            crate::bytes::lemma_version_key_shape((base + i) as u64);
            assert(at_key(k0) != ak && at_key(k0) != vk);
            assert(read(m2, at_key(k0)) == read(m, at_key(k0)));
        }
        // journal keys
        assert forall|t: u64| #[trigger]
            read(fold, bang_key(t)) == read(m, bang_key(t)) by {
            assert(bang_key(t).len() == 9 && vk.len() == 8);
            assert(bang_key(t)[0] == 33 && ak[0] == 64);
            assert(read(fold, bang_key(t)) == read(m2, bang_key(t)));
        }
        // the checkpoint key
        assert(ts_persist_key().len() == 10 && ts_persist_key()[0] == 116);
        assert(read(fold, ts_persist_key()) == read(m2, ts_persist_key()));
        // version lists of uniquely-written keys
        assert forall|j: int|
            i <= j < sets.len() && key_unique(sets, i, j) implies read(
            fold,
            at_key((#[trigger] sets[j]).0),
        ) == Some(versions_bytes(prior_of(m, sets[j].0).push((base, (base + j) as u64)))) by {
            if j == i {
                lemma_unique_gives_not_written(sets, i + 1, i);
                assert(read(fold, ak) == read(m2, ak));
                assert(read(m2, ak) == Some(versions_bytes(prior_of(m, sets[i].0).push((base, (base
                    + i) as u64)))));
            } else {
                assert(sets[i].0 != sets[j].0 && key_unique(sets, i + 1, j));
                assert(read(fold, at_key(sets[j].0)) == Some(versions_bytes(prior_of(
                    m2,
                    sets[j].0,
                ).push((base, (base + j) as u64)))));
                crate::bytes::lemma_at_keys_distinct(sets[i].0, sets[j].0);
                crate::bytes::lemma_version_key_shape((base + i) as u64);
                assert(at_key(sets[j].0) != ak && at_key(sets[j].0) != vk);
                assert(read(m2, at_key(sets[j].0)) == read(m, at_key(sets[j].0)));
                assert(prior_of(m2, sets[j].0) == prior_of(m, sets[j].0));
            }
        }
    }
}

/// No write before position `n` names key `k0`.
pub open spec fn key_not_written_before(
    sets: Seq<(Seq<u8>, Option<Seq<u8>>)>,
    n: int,
    k0: Seq<u8>,
) -> bool
    decreases n,
{
    n <= 0 || (sets[n - 1].0 != k0 && key_not_written_before(sets, n - 1, k0))
}

/// A write unique in the whole set is the only one naming its key before
/// its own position too.
proof fn lemma_key_unique_before(sets: Seq<(Seq<u8>, Option<Seq<u8>>)>, j: int, n: int)
    requires
        0 <= j < sets.len(),
        key_unique(sets, 0, j),
        0 <= n <= sets.len(),
        n <= j,
    ensures
        key_not_written_before(sets, n, sets[j].0),
    decreases n,
{
    if n <= 0 {
    } else {
        lemma_key_unique_elim(sets, 0, j, n - 1);
        lemma_key_unique_before(sets, j, n - 1);
    }
}

/// Pointwise reading of the recursive uniqueness form.
pub proof fn lemma_key_unique_elim(sets: Seq<(Seq<u8>, Option<Seq<u8>>)>, i: int, j: int, l: int)
    requires
        key_unique(sets, i, j),
        i <= l < sets.len(),
        l != j,
        0 <= i,
    ensures
        sets[l].0 != sets[j].0,
    decreases l - i,
{
    if i == l {
    } else {
        lemma_key_unique_elim(sets, i + 1, j, l);
    }
}

/// What the maintenance phase leaves on the chains: each uniquely-written
/// key's chain is its pre-maintenance chain with the tail settled, and
/// keys the writes do not name keep their chains.
pub proof fn lemma_settle_fold_props(
    cm: Map<Seq<u8>, Seq<MemRecord>>,
    sets: Seq<(Seq<u8>, Option<Seq<u8>>)>,
    n: int,
    st: Status,
)
    requires
        0 <= n <= sets.len(),
    ensures
        forall|k: Seq<u8>| #[trigger]
            settle_fold(cm, sets, n, st).contains_key(k) <==> cm.contains_key(k),
        forall|k0: Seq<u8>|
            cm.contains_key(k0) && #[trigger] key_not_written_before(sets, n, k0) ==> settle_fold(
                cm,
                sets,
                n,
                st,
            )[k0] == cm[k0],
        forall|i: int|
            0 <= i < n && #[trigger] key_unique(sets, 0, i) && cm.contains_key(sets[i].0)
                && cm[sets[i].0].len() > 0 ==> settle_fold(cm, sets, n, st)[sets[i].0]
                == settle_last(cm[sets[i].0], st),
    decreases n,
{
    if n <= 0 {
    } else {
        lemma_settle_fold_props(cm, sets, n - 1, st);
        let cm1 = settle_fold(cm, sets, n - 1, st);
        let k = sets[n - 1].0;
        assert forall|k0: Seq<u8>|
            cm.contains_key(k0) && #[trigger] key_not_written_before(sets, n, k0) implies
            settle_fold(cm, sets, n, st)[k0] == cm[k0] by {
            assert(sets[n - 1].0 != k0 && key_not_written_before(sets, n - 1, k0));
        }
        assert forall|i: int|
            0 <= i < n && #[trigger] key_unique(sets, 0, i) && cm.contains_key(sets[i].0)
                && cm[sets[i].0].len() > 0 implies settle_fold(cm, sets, n, st)[sets[i].0]
            == settle_last(cm[sets[i].0], st) by {
            if i < n - 1 {
                lemma_key_unique_elim(sets, 0, i, n - 1);
                assert(settle_fold(cm, sets, n - 1, st)[sets[i].0] == settle_last(
                    cm[sets[i].0],
                    st,
                ));
            } else {
                lemma_key_unique_before(sets, n - 1, n - 1);
                assert(cm1[k] == cm[k]);
            }
        }
    }
}

/// The snapshot entries of a search pin each searched key's entry.
proof fn lemma_lookup_search_entries(db: Db, base: u64, keys: Seq<Seq<u8>>, k: Seq<u8>)
    requires
        keys.contains(k),
    ensures
        lookup_entry(search_entries(db, base, keys), k) == Some(visible_at(db, base, k)),
    decreases keys.len(),
{
    let es = search_entries(db, base, keys);
    assert(es.len() == keys.len());
    if keys[0] == k {
        assert(es[0] == (k, visible_at(db, base, k)));
    } else {
        assert(es[0].0 != k);
        let j = choose|j: int| 0 <= j < keys.len() && keys[j] == k;
        assert(keys.skip(1)[j - 1] == k);
        assert(keys.skip(1).contains(k));
        lemma_lookup_search_entries(db, base, keys.skip(1), k);
        assert(es.skip(1) =~= search_entries(db, base, keys.skip(1)));
    }
}

/// Compare two optional byte values by contents./// Compare two optional byte values by contents.
fn opt_bytes_eq(a: &Option<Vec<u8>>, b: &Option<Vec<u8>>) -> (r: bool)
    ensures
        r <==> opt_bytes(*a) == opt_bytes(*b),
{
    match (a, b) {
        (None, None) => true,
        (Some(x), Some(y)) => crate::store::bytes_eq(x, y),
        _ => false,
    }
}

/// A transaction: its timestamp, read, predicate and write sets, the
/// per-key snapshot taken by the version search, and how many of its
/// writes hold an installed pending record.
pub struct Tx {
    base_ts: u64,
    reads: Vec<Vec<u8>>,
    predicates: Vec<(Vec<u8>, Option<Vec<u8>>)>,
    sets: Vec<(Vec<u8>, Option<Vec<u8>>)>,
    chains: Vec<(Vec<u8>, u64)>,
    installed: usize,
}

impl Tx {
    /// Base timestamp allocated to this transaction.
    pub closed spec fn spec_base(self) -> u64 {
        self.base_ts
    }

    /// Keys recorded by plain reads.
    pub closed spec fn spec_reads(self) -> Seq<Seq<u8>> {
        keys_view(self.reads@)
    }

    /// Predicate set: key and the visible value it expects.
    pub closed spec fn spec_predicates(self) -> Seq<(Seq<u8>, Option<Seq<u8>>)> {
        kv_view(self.predicates@)
    }

    /// Write set: key and new value (`None` is a tombstone).
    pub closed spec fn spec_sets(self) -> Seq<(Seq<u8>, Option<Seq<u8>>)> {
        kv_view(self.sets@)
    }

    /// Snapshot entries the version search recorded.
    pub closed spec fn spec_chains(self) -> Seq<(Seq<u8>, u64)> {
        entries_view(self.chains@)
    }

    /// How many writes hold an installed pending record.
    pub closed spec fn spec_installed(self) -> nat {
        self.installed as nat
    }

    /// The union of predicate and write keys, first occurrences kept.
    pub open spec fn spec_keyset(self) -> Seq<Seq<u8>> {
        dedup_first(firsts(self.spec_predicates()) + firsts(self.spec_sets()))
    }

    /// A fresh transaction: nothing recorded, nothing installed.
    pub fn new() -> (r: Tx)
        ensures
            r.spec_base() == 0,
            r.spec_reads() =~= Seq::<Seq<u8>>::empty(),
            r.spec_predicates() =~= Seq::<(Seq<u8>, Option<Seq<u8>>)>::empty(),
            r.spec_sets() =~= Seq::<(Seq<u8>, Option<Seq<u8>>)>::empty(),
            r.spec_chains() =~= Seq::<(Seq<u8>, u64)>::empty(),
            r.spec_installed() == 0,
    {
        Tx {
            base_ts: 0,
            reads: Vec::new(),
            predicates: Vec::new(),
            sets: Vec::new(),
            chains: Vec::new(),
            installed: 0,
        }
    }

    /// Record a write of `v` to `k`.
    pub fn set(&mut self, k: Vec<u8>, v: Vec<u8>)
        ensures
            final(self).spec_sets() == old(self).spec_sets().push((k@, Some(v@))),
            final(self).spec_base() == old(self).spec_base(),
            final(self).spec_reads() == old(self).spec_reads(),
            final(self).spec_predicates() == old(self).spec_predicates(),
            final(self).spec_chains() == old(self).spec_chains(),
            final(self).spec_installed() == old(self).spec_installed(),
    {
        let ghost pre = self.sets@;
        self.sets.push((k, Some(v)));
        proof {
            assert(kv_view(self.sets@) =~= kv_view(pre).push(
                (self.sets@.last().0@, opt_bytes(self.sets@.last().1)),
            ));
        }
    }

    /// Record a deletion of `k` (a tombstone write).
    pub fn del(&mut self, k: Vec<u8>)
        ensures
            final(self).spec_sets() == old(self).spec_sets().push((k@, None::<Seq<u8>>)),
            final(self).spec_base() == old(self).spec_base(),
            final(self).spec_reads() == old(self).spec_reads(),
            final(self).spec_predicates() == old(self).spec_predicates(),
            final(self).spec_chains() == old(self).spec_chains(),
            final(self).spec_installed() == old(self).spec_installed(),
    {
        let ghost pre = self.sets@;
        self.sets.push((k, None));
        proof {
            assert(kv_view(self.sets@) =~= kv_view(pre).push(
                (self.sets@.last().0@, opt_bytes(self.sets@.last().1)),
            ));
        }
    }

    /// Record a plain read of `k`.
    pub fn get(&mut self, k: Vec<u8>)
        ensures
            final(self).spec_reads() == old(self).spec_reads().push(k@),
            final(self).spec_base() == old(self).spec_base(),
            final(self).spec_predicates() == old(self).spec_predicates(),
            final(self).spec_sets() == old(self).spec_sets(),
            final(self).spec_chains() == old(self).spec_chains(),
            final(self).spec_installed() == old(self).spec_installed(),
    {
        let ghost pre = self.reads@;
        self.reads.push(k);
        proof {
            assert(keys_view(self.reads@) =~= keys_view(pre).push(self.reads@.last()@));
        }
    }

    /// Record a predicate on `k`: the transaction commits only if the value
    /// visible to it equals `expected`.  A predicate is deliberately a
    /// comparison value rather than an arbitrary boolean function: a stored
    /// function could not be reasoned about, and every protocol decision —
    /// blocking, consistency, failure — depends only on the visible value,
    /// which this form pins exactly.
    pub fn predicate(&mut self, k: Vec<u8>, expected: Option<Vec<u8>>)
        ensures
            final(self).spec_reads() == old(self).spec_reads().push(k@),
            final(self).spec_predicates() == old(self).spec_predicates().push(
                (k@, opt_bytes(expected)),
            ),
            final(self).spec_base() == old(self).spec_base(),
            final(self).spec_sets() == old(self).spec_sets(),
            final(self).spec_chains() == old(self).spec_chains(),
            final(self).spec_installed() == old(self).spec_installed(),
    {
        let ghost pre_reads = self.reads@;
        let ghost pre_preds = self.predicates@;
        let kc = crate::store::clone_bytes(&k);
        self.reads.push(kc);
        self.predicates.push((k, expected));
        proof {
            assert(keys_view(self.reads@) =~= keys_view(pre_reads).push(self.reads@.last()@));
            assert(kv_view(self.predicates@) =~= kv_view(pre_preds).push(
                (self.predicates@.last().0@, opt_bytes(self.predicates@.last().1)),
            ));
        }
    }

    /// First snapshot entry recorded for a key, if any.
    fn chains_lookup(&self, k: &Vec<u8>) -> (r: Option<u64>)
        ensures
            r == lookup_entry(self.spec_chains(), k@),
    {
        let ghost es = self.spec_chains();
        let mut i: usize = 0;
        proof {
            assert(es.skip(0) =~= es);
        }
        while i < self.chains.len()
            invariant
                i <= self.chains@.len(),
                es == entries_view(self.chains@),
                lookup_entry(es, k@) == lookup_entry(es.skip(i as int), k@),
            decreases self.chains@.len() - i,
        {
            proof {
                assert(es.skip(i as int)[0] == es[i as int]);
                assert(es.skip(i as int).skip(1) =~= es.skip(i + 1 as int));
            }
            if crate::store::bytes_eq(&self.chains[i].0, k) {
                return Some(self.chains[i].1);
            }
            i += 1;
        }
        None
    }

    /// Phase 1: allocate the base timestamp, one stamp per write.
    pub fn set_ts(&mut self, db: &mut Db)
        requires
            old(db).wf(),
            old(db).ts_counter() + old(self).spec_sets().len() + 1 + TS_SAFETY_BUFFER <= TS_LIMIT,
        ensures
            final(db).wf(),
            final(self).spec_base() == old(db).ts_counter(),
            final(db).ts_counter() == alloc_next(
                old(db).ts_counter(),
                old(self).spec_sets().len() as usize,
            ),
            final(self).spec_reads() == old(self).spec_reads(),
            final(self).spec_predicates() == old(self).spec_predicates(),
            final(self).spec_sets() == old(self).spec_sets(),
            final(self).spec_chains() == old(self).spec_chains(),
            final(self).spec_installed() == old(self).spec_installed(),
            same_chains(*old(db), *final(db)),
            forall|k: Seq<u8>|
                k != ts_persist_key() ==> read(final(db).store_view(), k) == read(
                    old(db).store_view(),
                    k,
                ),
            final(db).store_view() == crate::db::alloc_store(
                old(db).store_view(),
                old(db).ts_counter(),
                old(self).spec_sets().len() as usize,
            ),
    {
        proof {
            vstd::std_specs::vec::axiom_spec_len(&self.sets);
        }
        self.base_ts = db.ts(self.sets.len());
    }

    /// Phase 2: for every predicate or write key, find or materialize its
    /// chain and record the version visible to this transaction.  A newer
    /// committed version aborts; a foreign pending record blocks.
    pub fn version_search(&mut self, db: &mut Db) -> (r: TxResult<()>)
        requires
            old(db).wf(),
        ensures
            final(db).wf(),
            final(db).store_view() == old(db).store_view(),
            final(db).ts_counter() == old(db).ts_counter(),
            final(self).spec_base() == old(self).spec_base(),
            final(self).spec_reads() == old(self).spec_reads(),
            final(self).spec_predicates() == old(self).spec_predicates(),
            final(self).spec_sets() == old(self).spec_sets(),
            final(self).spec_installed() == old(self).spec_installed(),
            r == search_outcome(*old(db), old(self).spec_base(), old(self).spec_keyset()),
            forall|k: Seq<u8>| #[trigger]
                old(db).chains_view().contains_key(k) ==> final(db).chains_view().contains_key(k)
                    && final(db).chains_view()[k] == old(db).chains_view()[k],
            forall|k: Seq<u8>| #[trigger]
                final(db).chains_view().contains_key(k) ==> (old(db).chains_view().contains_key(k)
                    || old(self).spec_keyset().contains(k)) && final(db).chains_view()[k]
                    == chain_for(*old(db), k),
            r is Ok ==> {
                &&& forall|k: Seq<u8>|
                    old(self).spec_keyset().contains(k)
                        ==> final(db).chains_view().contains_key(k)
                &&& final(self).spec_chains() == search_entries(
                    *old(db),
                    old(self).spec_base(),
                    old(self).spec_keyset(),
                )
            },
    {
        let ghost db0 = *old(db);
        let ghost base = self.base_ts;
        self.chains = Vec::new();

        let mut keyset: Vec<Vec<u8>> = Vec::new();
        let ghost pkeys = firsts(self.spec_predicates());
        let ghost skeys = firsts(self.spec_sets());
        proof {
            assert(pkeys.take(0) =~= Seq::<Seq<u8>>::empty());
            assert(keys_view(keyset@) =~= dedup_first(pkeys.take(0)));
        }
        let mut i: usize = 0;
        while i < self.predicates.len()
            invariant
                i <= self.predicates@.len(),
                pkeys == firsts(kv_view(self.predicates@)),
                pkeys.len() == self.predicates@.len(),
                keys_view(keyset@) == dedup_first(pkeys.take(i as int)),
            decreases self.predicates@.len() - i,
        {
            proof {
                assert(pkeys.take(i + 1).drop_last() =~= pkeys.take(i as int));
                assert(pkeys.take(i + 1).last() == pkeys[i as int]);
                assert(pkeys[i as int] == self.predicates@[i as int].0@);
            }
            let ghost pre = keyset@;
            if !contains_bytes(&keyset, &self.predicates[i].0) {
                let kc = crate::store::clone_bytes(&self.predicates[i].0);
                keyset.push(kc);
                proof {
                    assert(keys_view(keyset@) =~= keys_view(pre).push(keyset@.last()@));
                }
            }
            i += 1;
        }
        proof {
            assert(pkeys.take(pkeys.len() as int) =~= pkeys);
            assert((pkeys + skeys).take(pkeys.len() as int) =~= pkeys);
            assert(skeys.take(0) =~= Seq::<Seq<u8>>::empty());
        }
        let mut j: usize = 0;
        while j < self.sets.len()
            invariant
                j <= self.sets@.len(),
                pkeys == firsts(kv_view(self.predicates@)),
                skeys == firsts(kv_view(self.sets@)),
                skeys.len() == self.sets@.len(),
                keys_view(keyset@) == dedup_first((pkeys + skeys).take(pkeys.len() + j)),
            decreases self.sets@.len() - j,
        {
            proof {
                assert((pkeys + skeys).take(pkeys.len() + j + 1).drop_last() =~= (pkeys
                    + skeys).take(pkeys.len() + j));
                assert((pkeys + skeys).take(pkeys.len() + j + 1).last() == skeys[j as int]);
                assert(skeys[j as int] == self.sets@[j as int].0@);
            }
            let ghost pre = keyset@;
            if !contains_bytes(&keyset, &self.sets[j].0) {
                let kc = crate::store::clone_bytes(&self.sets[j].0);
                keyset.push(kc);
                proof {
                    assert(keys_view(keyset@) =~= keys_view(pre).push(keyset@.last()@));
                }
            }
            j += 1;
        }
        let ghost ks = old(self).spec_keyset();
        proof {
            assert((pkeys + skeys).take((pkeys.len() + skeys.len()) as int) =~= pkeys + skeys);
            assert(keys_view(keyset@) == ks);
        }

        let mut p: usize = 0;
        proof {
            assert(ks.skip(0) =~= ks);
        }
        while p < keyset.len()
            invariant
                p <= keyset@.len(),
                db0 == *old(db),
                ks == old(self).spec_keyset(),
                base == old(self).spec_base(),
                keys_view(keyset@) == ks,
                ks.len() == keyset@.len(),
                self.base_ts == base,
                self.predicates@ == old(self).predicates@,
                self.sets@ == old(self).sets@,
                self.reads@ == old(self).reads@,
                self.installed == old(self).installed,
                db.wf(),
                db.store_view() == db0.store_view(),
                db.ts_counter() == db0.ts_counter(),
                forall|k: Seq<u8>| #[trigger]
                    db0.chains_view().contains_key(k) ==> db.chains_view().contains_key(k)
                        && db.chains_view()[k] == db0.chains_view()[k],
                forall|k: Seq<u8>| #[trigger]
                    db.chains_view().contains_key(k) ==> (db0.chains_view().contains_key(k)
                        || ks.contains(k)) && db.chains_view()[k] == chain_for(db0, k),
                forall|q: int| 0 <= q < p ==> db.chains_view().contains_key(#[trigger] ks[q]),
                entries_view(self.chains@) == search_entries(db0, base, ks.take(p as int)),
                search_outcome(db0, base, ks) == search_outcome(db0, base, ks.skip(p as int)),
            decreases keyset@.len() - p,
        {
            let ghost pre_db = *db;
            let idx = db.get_chain(&keyset[p]);
            proof {
                assert(keyset@[p as int]@ == ks[p as int]);
                if !pre_db.chains_view().contains_key(ks[p as int]) {
                    assert(!db0.chains_view().contains_key(ks[p as int]));
                    assert(db.chains_view()[ks[p as int]] == materialized_chain(
                        db0.store_view(),
                        ks[p as int],
                    ));
                }
                assert(db.chains_view()[ks[p as int]] == chain_for(db0, ks[p as int]));
                assert forall|k: Seq<u8>| #[trigger]
                    db.chains_view().contains_key(k) implies (db0.chains_view().contains_key(k)
                    || ks.contains(k)) && db.chains_view()[k] == chain_for(db0, k) by {
                    if k != ks[p as int] {
                        if pre_db.chains_view().contains_key(ks[p as int]) {
                            assert(pre_db.chains_view().contains_key(k));
                        } else {
                            assert(db.chains_view() == pre_db.chains_view().insert(
                                ks[p as int],
                                materialized_chain(pre_db.store_view(), ks[p as int]),
                            ));
                            assert(pre_db.chains_view().contains_key(k));
                        }
                    } else {
                        assert(0 <= p < ks.len() && ks[p as int] == k);
                        assert(ks.contains(k));
                    }
                }
                assert(db.chain_at_spec(idx as int) == chain_for(db0, ks[p as int]));
                assert forall|k: Seq<u8>| #[trigger]
                    db0.chains_view().contains_key(k) implies db.chains_view().contains_key(k)
                    && db.chains_view()[k] == db0.chains_view()[k] by {
                    assert(pre_db.chains_view().contains_key(k) && pre_db.chains_view()[k]
                        == db0.chains_view()[k]);
                    if !pre_db.chains_view().contains_key(ks[p as int]) {
                        assert(k != ks[p as int]);
                    }
                }
                assert forall|q: int| 0 <= q < p + 1 implies db.chains_view().contains_key(
                    #[trigger] ks[q],
                ) by {
                    if q < p {
                        assert(pre_db.chains_view().contains_key(ks[q]));
                    }
                }
                assert(ks.skip(p as int)[0] == ks[p as int]);
                assert(ks.skip(p as int).skip(1) =~= ks.skip(p + 1 as int));
            }
            let vis = db.chain_visible(idx, self.base_ts);
            match vis {
                Err(_) => {
                    return Err(Error::Blocked);
                },
                Ok(t) => {
                    if t > self.base_ts {
                        return Err(Error::Abort);
                    }
                    let kc = crate::store::clone_bytes(&keyset[p]);
                    let ghost pre_chains = self.chains@;
                    self.chains.push((kc, t));
                    proof {
                        assert(entries_view(self.chains@) =~= entries_view(pre_chains).push(
                            (ks[p as int], t),
                        ));
                        assert(entries_view(self.chains@) =~= search_entries(
                            db0,
                            base,
                            ks.take(p + 1 as int),
                        ));
                    }
                },
            }
            p += 1;
        }
        proof {
            assert(ks.take(ks.len() as int) =~= ks);
            assert(ks.skip(ks.len() as int) =~= Seq::<Seq<u8>>::empty());
        }
        Ok(())
    }

    /// Phase 3: append one pending record per write onto the chain state
    /// each write validated against; a moved tail aborts.
    pub fn install_pending(&mut self, db: &mut Db) -> (r: TxResult<()>)
        requires
            old(db).wf(),
            old(self).spec_installed() == 0,
            old(self).spec_base() + old(self).spec_sets().len() <= old(db).ts_counter(),
            forall|i: int|
                0 <= i < old(self).spec_sets().len() ==> lookup_entry(
                    old(self).spec_chains(),
                    (#[trigger] old(self).spec_sets()[i]).0,
                ) is Some && old(db).chains_view().contains_key(old(self).spec_sets()[i].0),
        ensures
            final(db).wf(),
            final(db).store_view() == old(db).store_view(),
            final(db).ts_counter() == old(db).ts_counter(),
            final(self).spec_base() == old(self).spec_base(),
            final(self).spec_reads() == old(self).spec_reads(),
            final(self).spec_predicates() == old(self).spec_predicates(),
            final(self).spec_sets() == old(self).spec_sets(),
            final(self).spec_chains() == old(self).spec_chains(),
            ({
                let (cm2, n2, r2) = install_fold(
                    old(db).chains_view(),
                    old(self).spec_chains(),
                    old(self).spec_sets(),
                    old(self).spec_base(),
                    0,
                );
                &&& final(db).chains_view() == cm2
                &&& final(self).spec_installed() == n2
                &&& r == r2
            }),
            final(self).spec_installed() <= old(self).spec_sets().len(),
            r is Ok ==> final(self).spec_installed() == old(self).spec_sets().len(),
            r is Err ==> r == Err::<(), Error>(Error::Abort),
            forall|i: int|
                0 <= i < final(self).spec_installed() ==> {
                    let k = (#[trigger] old(self).spec_sets()[i]).0;
                    &&& final(db).chains_view().contains_key(k)
                    &&& final(db).chains_view()[k].len() > 0
                    &&& final(db).chains_view()[k].last() == install_rec(
                        old(self).spec_sets(),
                        old(self).spec_base(),
                        i,
                    )
                },
            forall|k: Seq<u8>| #[trigger]
                final(db).chains_view().contains_key(k) <==> old(db).chains_view().contains_key(k),
            stamped_absent(old(db).chains_view(), old(self).spec_base()) ==> stamped_are_tails(
                final(db).chains_view(),
                old(self).spec_sets(),
                old(self).spec_base(),
                final(self).spec_installed() as int,
            ),
    {
        let ghost db0 = *old(db);
        let ghost sets_v = old(self).spec_sets();
        let ghost entries = old(self).spec_chains();
        let ghost base = old(self).spec_base();
        let mut i: usize = 0;
        while i < self.sets.len()
            invariant
                db0 == *old(db),
                sets_v == old(self).spec_sets(),
                entries == old(self).spec_chains(),
                base == old(self).spec_base(),
                i <= sets_v.len(),
                sets_v.len() == self.sets@.len(),
                self.base_ts == base,
                self.sets@ == old(self).sets@,
                self.predicates@ == old(self).predicates@,
                self.reads@ == old(self).reads@,
                self.chains@ == old(self).chains@,
                self.installed == i,
                db.wf(),
                db.store_view() == db0.store_view(),
                db.ts_counter() == db0.ts_counter(),
                base + sets_v.len() <= db0.ts_counter(),
                forall|j: int|
                    0 <= j < sets_v.len() ==> lookup_entry(entries, (#[trigger] sets_v[j]).0)
                        is Some && db0.chains_view().contains_key(sets_v[j].0),
                install_fold(db0.chains_view(), entries, sets_v, base, 0) == install_fold(
                    db.chains_view(),
                    entries,
                    sets_v,
                    base,
                    i as int,
                ),
                forall|j: int|
                    0 <= j < i ==> {
                        let k = (#[trigger] sets_v[j]).0;
                        &&& db.chains_view().contains_key(k)
                        &&& db.chains_view()[k].len() > 0
                        &&& db.chains_view()[k].last() == install_rec(sets_v, base, j)
                    },
                forall|k: Seq<u8>| #[trigger]
                    db.chains_view().contains_key(k) <==> db0.chains_view().contains_key(k),
                stamped_absent(db0.chains_view(), base) ==> stamped_are_tails(
                    db.chains_view(),
                    sets_v,
                    base,
                    i as int,
                ),
            decreases sets_v.len() - i,
        {
            proof {
                assert(sets_v[i as int] == (self.sets@[i as int].0@, opt_bytes(
                    self.sets@[i as int].1,
                )));
            }
            let iv: u64 = match self.chains_lookup(&self.sets[i].0) {
                Some(x) => x,
                None => {
                    proof {
                        assert(lookup_entry(entries, sets_v[i as int].0) is Some);
                        assert(false);
                    }
                    vstd::pervasive::unreached()
                },
            };
            let idx: usize = match db.chain_index_of(&self.sets[i].0) {
                Some(x) => x,
                None => {
                    proof {
                        assert(db0.chains_view().contains_key(sets_v[i as int].0));
                        assert(false);
                    }
                    vstd::pervasive::unreached()
                },
            };
            let data: Option<u64> = match &self.sets[i].1 {
                Some(_) => Some(self.base_ts + (i as u64)),
                None => None,
            };
            let rec = MemRecord { wts: self.base_ts, rts: 0, data, status: Status::Pending };
            proof {
                assert(rec == install_rec(sets_v, base, i as int));
            }
            let ghost pre_db = *db;
            let res = db.chain_install(idx, iv, rec);
            proof {
                let k = sets_v[i as int].0;
                assert(pre_db.chain_at_spec(idx as int) == pre_db.chains_view()[k]);
                if install_ok(pre_db.chains_view()[k], iv, rec) {
                    assert(db.chains_view() == pre_db.chains_view().insert(
                        k,
                        pre_db.chains_view()[k].push(rec),
                    ));
                } else {
                    assert(db.chains_view() == pre_db.chains_view());
                }
            }
            match res {
                Ok(_) => {
                    self.installed = i + 1;
                    proof {
                        let k = sets_v[i as int].0;
                        let ch = pre_db.chains_view()[k];
                        assert(install_ok(ch, iv, rec));
                        assert forall|j: int| 0 <= j < i + 1 implies {
                            let kj = (#[trigger] sets_v[j]).0;
                            &&& db.chains_view().contains_key(kj)
                            &&& db.chains_view()[kj].len() > 0
                            &&& db.chains_view()[kj].last() == install_rec(sets_v, base, j)
                        } by {
                            let kj = sets_v[j].0;
                            if j < i {
                                assert(pre_db.chains_view().contains_key(kj));
                                if kj == k {
                                    assert(pre_db.chains_view()[kj].last().wts == base);
                                    assert(ch.len() > 0 && ch.last().wts == iv && rec.wts > iv);
                                    assert(false);
                                }
                            }
                        }
                        if stamped_absent(db0.chains_view(), base) {
                            assert forall|k2: Seq<u8>, p: int|
                                db.chains_view().contains_key(k2) && 0 <= p
                                    < db.chains_view()[k2].len() && (
                                #[trigger] db.chains_view()[k2][p]).wts == base implies exists|
                                j: int,
                            |
                                0 <= j < i + 1 && k2 == (#[trigger] sets_v[j]).0 && p
                                    == db.chains_view()[k2].len() - 1 by {
                                if k2 == k {
                                    if p < ch.len() {
                                        assert(db.chains_view()[k2][p] == ch[p]);
                                        assert(exists|j: int|
                                            0 <= j < i && k2 == (#[trigger] sets_v[j]).0 && p
                                                == pre_db.chains_view()[k2].len() - 1);
                                        let j = choose|j: int|
                                            0 <= j < i && k2 == (#[trigger] sets_v[j]).0 && p
                                                == pre_db.chains_view()[k2].len() - 1;
                                        assert(pre_db.chains_view()[k2].last() == install_rec(
                                            sets_v,
                                            base,
                                            j,
                                        ));
                                        assert(ch.last().wts == iv && rec.wts > iv);
                                        assert(false);
                                    } else {
                                        assert(p == db.chains_view()[k2].len() - 1);
                                        assert(k2 == sets_v[i as int].0);
                                    }
                                } else {
                                    assert(db.chains_view()[k2] == pre_db.chains_view()[k2]);
                                    let j = choose|j: int|
                                        0 <= j < i && k2 == (#[trigger] sets_v[j]).0 && p
                                            == pre_db.chains_view()[k2].len() - 1;
                                    assert(0 <= j < i + 1 && k2 == sets_v[j].0);
                                }
                            }
                        }
                    }
                },
                Err(_) => {
                    proof {
                        let k = sets_v[i as int].0;
                        assert(!install_ok(pre_db.chains_view()[k], iv, rec));
                        assert(install_fold(db.chains_view(), entries, sets_v, base, i as int) == (
                            db.chains_view(),
                            i as int,
                            Err::<(), Error>(Error::Abort),
                        ));
                    }
                    return Err(Error::Abort);
                },
            }
            i += 1;
        }
        proof {
            assert(install_fold(db.chains_view(), entries, sets_v, base, sets_v.len() as int) == (
                db.chains_view(),
                sets_v.len() as int,
                Ok::<(), Error>(()),
            ));
        }
        Ok(())
    }

    /// Phase 4: advertise the read at the base timestamp on every
    /// predicate key's chain.
    pub fn update_read_ts(&mut self, db: &mut Db) -> (r: TxResult<()>)
        requires
            old(db).wf(),
        ensures
            final(db).wf(),
            final(db).store_view() == old(db).store_view(),
            final(db).ts_counter() == old(db).ts_counter(),
            *final(self) == *old(self),
            r == Ok::<(), Error>(()),
            final(db).chains_view() == bump_fold(
                old(db).chains_view(),
                old(self).spec_predicates(),
                old(self).spec_base(),
                old(self).spec_predicates().len() as int,
            ),
            forall|k: Seq<u8>| #[trigger]
                final(db).chains_view().contains_key(k) <==> old(db).chains_view().contains_key(k),
            forall|k: Seq<u8>| #[trigger]
                final(db).chains_view().contains_key(k) ==> final(db).chains_view()[k].len() == old(
                    db,
                ).chains_view()[k].len() && (forall|l: int|
                    0 <= l < final(db).chains_view()[k].len() ==> {
                        let a = #[trigger] final(db).chains_view()[k][l];
                        let b = old(db).chains_view()[k][l];
                        a.wts == b.wts && a.data == b.data && a.status == b.status
                    }),
            forall|k: Seq<u8>| #[trigger]
                final(db).chains_view().contains_key(k) && old(db).chains_view()[k].len() > 0
                    && old(db).chains_view()[k].last().wts >= old(self).spec_base()
                    ==> final(db).chains_view()[k].last() == old(db).chains_view()[k].last(),
    {
        let ghost db0 = *old(db);
        let ghost preds_v = old(self).spec_predicates();
        let ghost base = old(self).spec_base();
        let mut j: usize = 0;
        while j < self.predicates.len()
            invariant
                db0 == *old(db),
                preds_v == old(self).spec_predicates(),
                base == old(self).spec_base(),
                j <= preds_v.len(),
                preds_v.len() == self.predicates@.len(),
                *self == *old(self),
                self.base_ts == base,
                db.wf(),
                db.store_view() == db0.store_view(),
                db.ts_counter() == db0.ts_counter(),
                db.chains_view() == bump_fold(db0.chains_view(), preds_v, base, j as int),
                forall|k: Seq<u8>| #[trigger]
                    db.chains_view().contains_key(k) <==> db0.chains_view().contains_key(k),
                forall|k: Seq<u8>| #[trigger]
                    db.chains_view().contains_key(k) ==> db.chains_view()[k].len()
                        == db0.chains_view()[k].len() && (forall|l: int|
                        0 <= l < db.chains_view()[k].len() ==> {
                            let a = #[trigger] db.chains_view()[k][l];
                            let b = db0.chains_view()[k][l];
                            a.wts == b.wts && a.data == b.data && a.status == b.status
                        }),
                forall|k: Seq<u8>| #[trigger]
                    db.chains_view().contains_key(k) && db0.chains_view()[k].len() > 0
                        && db0.chains_view()[k].last().wts >= base ==> db.chains_view()[k].last()
                        == db0.chains_view()[k].last(),
            decreases preds_v.len() - j,
        {
            proof {
                assert(preds_v[j as int].0 == self.predicates@[j as int].0@);
            }
            let ghost pre_db = *db;
            match db.chain_index_of(&self.predicates[j].0) {
                Some(idx) => {
                    db.chain_bump(idx, self.base_ts);
                    proof {
                        let k = preds_v[j as int].0;
                        assert(pre_db.chain_at_spec(idx as int) == pre_db.chains_view()[k]);
                        assert(db.chains_view() == pre_db.chains_view().insert(
                            k,
                            bump_spec(pre_db.chains_view()[k], base),
                        ));
                        crate::mvcc::lemma_bump_index_range(pre_db.chains_view()[k], base);
                        assert forall|q: Seq<u8>| #[trigger]
                            db.chains_view().contains_key(q) implies db.chains_view()[q].len()
                            == db0.chains_view()[q].len() && (forall|l: int|
                            0 <= l < db.chains_view()[q].len() ==> {
                                let a = #[trigger] db.chains_view()[q][l];
                                let b = db0.chains_view()[q][l];
                                a.wts == b.wts && a.data == b.data && a.status == b.status
                            }) by {
                            if q != k {
                                assert(pre_db.chains_view().contains_key(q));
                            }
                        }
                        assert forall|q: Seq<u8>| #[trigger]
                            db.chains_view().contains_key(q) && db0.chains_view()[q].len() > 0
                            && db0.chains_view()[q].last().wts >= base implies
                            db.chains_view()[q].last() == db0.chains_view()[q].last() by {
                            if q != k {
                                assert(pre_db.chains_view().contains_key(q));
                            } else {
                                let ch = pre_db.chains_view()[k];
                                assert(ch.len() == db0.chains_view()[k].len());
                                assert(ch.last() == db0.chains_view()[k].last());
                                assert(ch.last().wts >= base);
                                if bump_index(ch, base) >= 0 && ch[bump_index(ch, base)].rts
                                    < base {
                                    assert(bump_index(ch, base) != ch.len() - 1);
                                    assert(bump_spec(ch, base).last() == ch.last());
                                }
                            }
                        }
                    }
                },
                None => {
                    proof {
                        assert(db.chains_view() == bump_fold(
                            db0.chains_view(),
                            preds_v,
                            base,
                            j + 1,
                        ));
                    }
                },
            }
            j += 1;
        }
        Ok(())
    }

    /// Phase 5: evaluate every predicate against the value of the version
    /// this transaction initially saw.
    pub fn check_predicates(&self, db: &Db) -> (r: TxResult<()>)
        requires
            db.wf(),
        ensures
            r == check_preds_outcome(
                *db,
                self.spec_base(),
                self.spec_chains(),
                self.spec_predicates(),
            ),
    {
        let ghost preds_v = self.spec_predicates();
        let ghost base = self.spec_base();
        let ghost entries = self.spec_chains();
        let mut j: usize = 0;
        proof {
            assert(preds_v.skip(0) =~= preds_v);
        }
        while j < self.predicates.len()
            invariant
                db.wf(),
                preds_v == self.spec_predicates(),
                base == self.spec_base(),
                entries == self.spec_chains(),
                j <= preds_v.len(),
                preds_v.len() == self.predicates@.len(),
                check_preds_outcome(*db, base, entries, preds_v) == check_preds_outcome(
                    *db,
                    base,
                    entries,
                    preds_v.skip(j as int),
                ),
            decreases preds_v.len() - j,
        {
            proof {
                assert(preds_v.skip(j as int)[0] == preds_v[j as int]);
                assert(preds_v.skip(j as int).skip(1) =~= preds_v.skip(j + 1 as int));
                assert(preds_v[j as int] == (self.predicates@[j as int].0@, opt_bytes(
                    self.predicates@[j as int].1,
                )));
            }
            let iv: u64 = match self.chains_lookup(&self.predicates[j].0) {
                Some(x) => x,
                None => {
                    return Err(Error::Abort);
                },
            };
            let idx: usize = match db.chain_index_of(&self.predicates[j].0) {
                Some(x) => x,
                None => {
                    return Err(Error::Abort);
                },
            };
            let vis: u64 = match db.chain_visible(idx, self.base_ts) {
                Ok(t) => t,
                Err(_) => {
                    return Err(Error::Blocked);
                },
            };
            if vis != iv && vis != self.base_ts {
                return Err(Error::Abort);
            }
            let rec: MemRecord = match db.chain_find_by_wts(idx, iv) {
                Some(x) => x,
                None => {
                    return Err(Error::Abort);
                },
            };
            let val: Option<Vec<u8>> = match rec.data {
                Some(v) => db.get_version_value(v),
                None => None,
            };
            if !opt_bytes_eq(&val, &self.predicates[j].1) {
                return Err(Error::PredicateFailure);
            }
            j += 1;
        }
        proof {
            assert(preds_v.skip(preds_v.len() as int) =~= Seq::<(Seq<u8>, Option<Seq<u8>>)>::empty());
        }
        Ok(())
    }

    /// Phase 6: re-verify that every predicate key still sees either its
    /// snapshot version or the transaction's own stamp.
    pub fn check_version_consistency(&self, db: &Db) -> (r: TxResult<()>)
        requires
            db.wf(),
        ensures
            r == check_vc_outcome(
                *db,
                self.spec_base(),
                self.spec_chains(),
                self.spec_predicates(),
            ),
    {
        let ghost preds_v = self.spec_predicates();
        let ghost base = self.spec_base();
        let ghost entries = self.spec_chains();
        let mut j: usize = 0;
        proof {
            assert(preds_v.skip(0) =~= preds_v);
        }
        while j < self.predicates.len()
            invariant
                db.wf(),
                preds_v == self.spec_predicates(),
                base == self.spec_base(),
                entries == self.spec_chains(),
                j <= preds_v.len(),
                preds_v.len() == self.predicates@.len(),
                check_vc_outcome(*db, base, entries, preds_v) == check_vc_outcome(
                    *db,
                    base,
                    entries,
                    preds_v.skip(j as int),
                ),
            decreases preds_v.len() - j,
        {
            proof {
                assert(preds_v.skip(j as int)[0] == preds_v[j as int]);
                assert(preds_v.skip(j as int).skip(1) =~= preds_v.skip(j + 1 as int));
                assert(preds_v[j as int] == (self.predicates@[j as int].0@, opt_bytes(
                    self.predicates@[j as int].1,
                )));
            }
            let iv: u64 = match self.chains_lookup(&self.predicates[j].0) {
                Some(x) => x,
                None => {
                    return Err(Error::Abort);
                },
            };
            let idx: usize = match db.chain_index_of(&self.predicates[j].0) {
                Some(x) => x,
                None => {
                    return Err(Error::Abort);
                },
            };
            let vis: u64 = match db.chain_visible(idx, self.base_ts) {
                Ok(t) => t,
                Err(_) => {
                    return Err(Error::Blocked);
                },
            };
            if vis != iv && vis != self.base_ts {
                return Err(Error::Abort);
            }
            j += 1;
        }
        proof {
            assert(preds_v.skip(preds_v.len() as int) =~= Seq::<(Seq<u8>, Option<Seq<u8>>)>::empty());
        }
        Ok(())
    }

    /// Phase 7: journal the write-set key list, persist each write's value
    /// under its version key and link it into its key's version list, then
    /// delete the journal record — the transaction's commit point.
    pub fn write(&mut self, db: &mut Db) -> (r: TxResult<()>)
        requires
            old(db).wf(),
            old(self).spec_base() + old(self).spec_sets().len() <= old(db).ts_counter(),
            forall|i: int|
                0 <= i < old(self).spec_sets().len() ==> (#[trigger] old(self).spec_sets()[i]).1
                    is Some,
        ensures
            final(db).wf(),
            final(db).ts_counter() == old(db).ts_counter(),
            same_chains(*old(db), *final(db)),
            *final(self) == *old(self),
            r == Ok::<(), Error>(()),
            final(db).store_view() == write_values(
                old(db).store_view().insert(
                    bang_key(old(self).spec_base()),
                    crate::codec::ws_bytes(firsts(old(self).spec_sets())),
                ),
                old(self).spec_sets(),
                old(self).spec_base(),
                0,
            ).remove(bang_key(old(self).spec_base())),
    {
        let ghost db0 = *old(db);
        let ghost sets_v = old(self).spec_sets();
        let ghost base = old(self).spec_base();

        let mut writeset: Vec<Vec<u8>> = Vec::new();
        let mut w: usize = 0;
        proof {
            crate::codec::lemma_keys_deep_view(writeset);
            assert(writeset.deep_view() =~= firsts(sets_v).take(0));
        }
        while w < self.sets.len()
            invariant
                w <= sets_v.len(),
                sets_v == old(self).spec_sets(),
                sets_v.len() == self.sets@.len(),
                *self == *old(self),
                writeset.deep_view() == firsts(sets_v).take(w as int),
            decreases sets_v.len() - w,
        {
            let ghost pre = writeset.deep_view();
            let kc = crate::store::clone_bytes(&self.sets[w].0);
            proof {
                crate::codec::lemma_keys_deep_view(writeset);
            }
            writeset.push(kc);
            proof {
                crate::codec::lemma_keys_deep_view(writeset);
                assert(writeset.deep_view() =~= pre.push(sets_v[w as int].0));
                assert(firsts(sets_v).take(w + 1 as int) =~= firsts(sets_v).take(w as int).push(
                    sets_v[w as int].0,
                ));
            }
            w += 1;
        }
        proof {
            assert(firsts(sets_v).take(sets_v.len() as int) =~= firsts(sets_v));
        }
        db.put_writeset(self.base_ts, &writeset);
        let ghost m_bang = db.store_view();

        let mut i: usize = 0;
        while i < self.sets.len()
            invariant
                i <= sets_v.len(),
                db0 == *old(db),
                sets_v == old(self).spec_sets(),
                base == old(self).spec_base(),
                sets_v.len() == self.sets@.len(),
                *self == *old(self),
                self.base_ts == base,
                forall|j: int| 0 <= j < sets_v.len() ==> (#[trigger] sets_v[j]).1 is Some,
                base + sets_v.len() <= db0.ts_counter(),
                db.wf(),
                db.ts_counter() == db0.ts_counter(),
                same_chains(db0, *db),
                write_values(m_bang, sets_v, base, 0) == write_values(
                    db.store_view(),
                    sets_v,
                    base,
                    i as int,
                ),
            decreases sets_v.len() - i,
        {
            proof {
                assert(sets_v[i as int] == (self.sets@[i as int].0@, opt_bytes(
                    self.sets@[i as int].1,
                )));
            }
            proof {
                db.lemma_wf();
            }
            let version = self.base_ts + (i as u64);
            match &self.sets[i].1 {
                Some(v) => {
                    db.put_version_value(version, v);
                },
                None => {
                    proof {
                        assert(sets_v[i as int].1 is Some);
                        assert(false);
                    }
                },
            }
            let res = db.add_version_to_key(&self.sets[i].0, self.base_ts, version);
            proof {
                assert(res is Ok);
            }
            i += 1;
        }
        db.del_writeset(self.base_ts);
        Ok(())
    }

    /// Phase 8: settle the records this transaction installed — committed
    /// on success, aborted on failure — and, on failure, purge whatever
    /// the write phase persisted; finally drop the journal record.
    pub fn maintenance(&mut self, db: &mut Db, success: bool)
        requires
            old(db).wf(),
            old(self).spec_installed() <= old(self).spec_sets().len(),
            forall|i: int|
                0 <= i < old(self).spec_installed() ==> {
                    let k = (#[trigger] old(self).spec_sets()[i]).0;
                    &&& old(db).chains_view().contains_key(k)
                    &&& old(db).chains_view()[k].len() > 0
                    &&& old(db).chains_view()[k].last().wts == old(self).spec_base()
                    &&& old(db).chains_view()[k].last().status is Pending
                },
            forall|a: int, b: int|
                0 <= a < b < old(self).spec_installed() ==> (#[trigger] old(self).spec_sets()[a]).0
                    != (#[trigger] old(self).spec_sets()[b]).0,
        ensures
            final(db).wf(),
            final(db).ts_counter() == old(db).ts_counter(),
            *final(self) == *old(self),
            final(db).chains_view() == settle_fold(
                old(db).chains_view(),
                old(self).spec_sets(),
                old(self).spec_installed() as int,
                if success {
                    Status::Committed
                } else {
                    Status::Aborted
                },
            ),
            success ==> final(db).store_view() == (if old(self).spec_sets().len() > 0 {
                old(db).store_view().remove(bang_key(old(self).spec_base()))
            } else {
                old(db).store_view()
            }),
            !success ==> final(db).store_view() == (if old(self).spec_sets().len() > 0 {
                purge_fold(
                    old(db).store_view(),
                    old(self).spec_sets(),
                    old(self).spec_base(),
                    old(self).spec_sets().len() as int,
                ).remove(bang_key(old(self).spec_base()))
            } else {
                old(db).store_view()
            }),
    {
        let ghost db0 = *old(db);
        let ghost sets_v = old(self).spec_sets();
        let ghost base = old(self).spec_base();
        let ghost st = if success {
            Status::Committed
        } else {
            Status::Aborted
        };
        let ghost n_inst = old(self).spec_installed() as int;

        let mut i: usize = 0;
        while i < self.installed
            invariant
                db0 == *old(db),
                sets_v == old(self).spec_sets(),
                base == old(self).spec_base(),
                st == (if success {
                    Status::Committed
                } else {
                    Status::Aborted
                }),
                n_inst == old(self).spec_installed() as int,
                i <= n_inst,
                n_inst <= sets_v.len(),
                sets_v.len() == self.sets@.len(),
                *self == *old(self),
                self.base_ts == base,
                self.installed as int == n_inst,
                db.wf(),
                db.store_view() == db0.store_view(),
                db.ts_counter() == db0.ts_counter(),
                db.chains_view() == settle_fold(db0.chains_view(), sets_v, i as int, st),
                forall|j: int|
                    0 <= j < n_inst ==> {
                        let k = (#[trigger] sets_v[j]).0;
                        &&& db.chains_view().contains_key(k)
                        &&& db.chains_view()[k].len() > 0
                        &&& db.chains_view()[k].last().wts == base
                    },
                forall|j: int|
                    i <= j < n_inst ==> (#[trigger] db.chains_view().index(
                        sets_v[j].0,
                    )).last().status is Pending,
                forall|a: int, b: int|
                    0 <= a < b < n_inst ==> (#[trigger] sets_v[a]).0 != (#[trigger] sets_v[b]).0,
            decreases n_inst - i,
        {
            proof {
                assert(sets_v[i as int] == (self.sets@[i as int].0@, opt_bytes(
                    self.sets@[i as int].1,
                )));
            }
            let idx: usize = match db.chain_index_of(&self.sets[i].0) {
                Some(x) => x,
                None => {
                    proof {
                        assert(db.chains_view().contains_key(sets_v[i as int].0));
                        assert(false);
                    }
                    vstd::pervasive::unreached()
                },
            };
            let ghost pre_db = *db;
            if success {
                db.chain_commit(idx, self.base_ts);
            } else {
                db.chain_abort(idx, self.base_ts);
            }
            proof {
                let k = sets_v[i as int].0;
                assert(pre_db.chain_at_spec(idx as int) == pre_db.chains_view()[k]);
                assert(db.chains_view() == pre_db.chains_view().insert(
                    k,
                    settle_last(pre_db.chains_view()[k], st),
                ));
                assert(db.chains_view() == settle_fold(db0.chains_view(), sets_v, i + 1, st));
                assert forall|j: int| 0 <= j < n_inst implies {
                    let kj = (#[trigger] sets_v[j]).0;
                    &&& db.chains_view().contains_key(kj)
                    &&& db.chains_view()[kj].len() > 0
                    &&& db.chains_view()[kj].last().wts == base
                } by {
                    let kj = sets_v[j].0;
                    if kj == k {
                        assert(settle_last(pre_db.chains_view()[k], st).last().wts
                            == pre_db.chains_view()[k].last().wts);
                    }
                }
                assert forall|j: int| i + 1 <= j < n_inst implies (#[trigger] db.chains_view().index(
                    sets_v[j].0,
                )).last().status is Pending by {
                    assert(sets_v[i as int].0 != sets_v[j].0);
                    assert(db.chains_view()[sets_v[j].0] == pre_db.chains_view()[sets_v[j].0]);
                }
            }
            i += 1;
        }
        if !success {
            let mut j: usize = 0;
            while j < self.sets.len()
                invariant
                    db0 == *old(db),
                    sets_v == old(self).spec_sets(),
                    base == old(self).spec_base(),
                    st == (if success {
                        Status::Committed
                    } else {
                        Status::Aborted
                    }),
                    n_inst == old(self).spec_installed() as int,
                    j <= sets_v.len(),
                    sets_v.len() == self.sets@.len(),
                    *self == *old(self),
                    self.base_ts == base,
                    db.wf(),
                    db.ts_counter() == db0.ts_counter(),
                    db.chains_view() == settle_fold(db0.chains_view(), sets_v, n_inst, st),
                    db.store_view() == purge_fold(db0.store_view(), sets_v, base, j as int),
                decreases sets_v.len() - j,
            {
                proof {
                    assert(sets_v[j as int] == (self.sets@[j as int].0@, opt_bytes(
                        self.sets@[j as int].1,
                    )));
                }
                let ghost pre_chains = db.chains_view();
                let res = db.purge_version_from_key(&self.sets[j].0, self.base_ts);
                proof {
                    assert(res is Ok);
                    assert(db.chains_view() == pre_chains);
                }
                j += 1;
            }
        }
        if !self.sets.is_empty() {
            db.del_writeset(self.base_ts);
        }
    }

    /// Phases 1 through 7 in order, stopping at the first failure.
    #[verifier::rlimit(100)]
    #[verifier::spinoff_prover]
    fn _execute(&mut self, db: &mut Db) -> (r: TxResult<()>)
        requires
            old(db).wf(),
            old(db).ts_counter() + old(self).spec_sets().len() + 1 + TS_SAFETY_BUFFER <= TS_LIMIT,
            forall|i: int|
                0 <= i < old(self).spec_sets().len() ==> (#[trigger] old(self).spec_sets()[i]).1
                    is Some,
            old(self).spec_installed() == 0,
        ensures
            final(db).wf(),
            final(self).spec_sets() == old(self).spec_sets(),
            final(self).spec_base() == old(db).ts_counter(),
            final(db).ts_counter() == alloc_next(
                old(db).ts_counter(),
                old(self).spec_sets().len() as usize,
            ),
            final(self).spec_installed() <= old(self).spec_sets().len(),
            forall|i: int|
                0 <= i < final(self).spec_installed() ==> {
                    let k = (#[trigger] old(self).spec_sets()[i]).0;
                    &&& final(db).chains_view().contains_key(k)
                    &&& final(db).chains_view()[k].len() > 0
                    &&& final(db).chains_view()[k].last() == install_rec(
                        old(self).spec_sets(),
                        old(db).ts_counter(),
                        i,
                    )
                },
            r is Err ==> forall|k: Seq<u8>|
                k != ts_persist_key() ==> #[trigger] read(final(db).store_view(), k) == read(
                    old(db).store_view(),
                    k,
                ),
            r == pipeline_outcome(
                old(db).store_view(),
                old(db).chains_view(),
                old(db).ts_counter(),
                *old(self),
            ),
            stamped_are_tails(
                final(db).chains_view(),
                old(self).spec_sets(),
                old(db).ts_counter(),
                final(self).spec_installed() as int,
            ),
            r is Ok ==> ({
                let base = old(db).ts_counter();
                let sets = old(self).spec_sets();
                &&& final(self).spec_installed() == sets.len()
                &&& forall|i: int|
                    0 <= i < sets.len() ==> read(
                        final(db).store_view(),
                        version_key((base + i) as u64),
                    ) == Some((#[trigger] sets[i]).1->0)
                &&& forall|i: int|
                    0 <= i < sets.len() && #[trigger] key_unique(sets, 0, i) ==> read(
                        final(db).store_view(),
                        at_key(sets[i].0),
                    ) == Some(versions_bytes(prior_of(old(db).store_view(), sets[i].0).push(
                        (base, (base + i) as u64),
                    )))
                &&& !final(db).store_view().contains_key(bang_key(base))
                &&& forall|i: int|
                    0 <= i < sets.len() ==> {
                        let k = (#[trigger] sets[i]).0;
                        &&& final(db).chains_view().contains_key(k)
                        &&& final(db).chains_view()[k].len() > 0
                        &&& final(db).chains_view()[k].last() == install_rec(sets, base, i)
                    }
            }),
    {
        let ghost db0 = *old(db);
        let ghost tx0 = *old(self);
        let ghost sets_v = old(self).spec_sets();
        let ghost preds_v = old(self).spec_predicates();
        let ghost sm0 = db0.store_view();
        let ghost cm0 = db0.chains_view();
        proof {
            vstd::std_specs::vec::axiom_spec_len(&self.sets);
            assert(sets_v.len() <= usize::MAX);
        }
        let ghost sm1 = crate::db::alloc_store(sm0, db0.ts_counter(), sets_v.len() as usize);
        self.set_ts(db);
        let ghost base = self.base_ts;
        let ghost db1 = *db;
        proof {
            lemma_alloc_next_advances(db0.ts_counter(), sets_v.len() as usize);
            assert(db1.store_view() == sm1);
            assert(db1.chains_view() == cm0);
        }
        let ghost ks = tx0.spec_keyset();
        let ghost tx1 = *self;
        let r1 = self.version_search(db);
        proof {
            assert(tx1.spec_keyset() == ks);
            assert(tx1.spec_base() == base);
            assert(search_outcome(db1, base, ks) == search_outcome_m(cm0, sm1, base, ks));
            assert(r1 == search_outcome_m(cm0, sm1, base, ks));
            if r1 is Err {
                assert(pipeline_outcome(sm0, cm0, db0.ts_counter(), tx0) == r1);
            }
            db0.lemma_wf();
            db1.lemma_wf();
            assert(crate::db::fresh_versions(sm1, base)) by {
                assert forall|k: Seq<u8>|
                    sm1.contains_key(k) && crate::db::is_at(k) implies crate::db::fresh_list(
                    #[trigger] crate::codec::parse_versions(sm1[k])->0,
                    base,
                ) by {
                    assert(k != ts_persist_key());
                    assert(read(sm1, k) == read(sm0, k));
                    assert(sm0.contains_key(k));
                    assert(crate::db::fresh_list(crate::codec::parse_versions(sm0[k])->0, base));
                }
            }
            assert(stamped_absent(db.chains_view(), base)) by {
                assert forall|k: Seq<u8>, i: int|
                    db.chains_view().contains_key(k) && 0 <= i < db.chains_view()[k].len() implies (
                #[trigger] db.chains_view()[k][i]).wts != base by {
                    assert(db.chains_view()[k] == chain_for(db1, k));
                    assert(chain_for(db1, k) == chain_for_m(cm0, sm1, k));
                    if cm0.contains_key(k) {
                        assert(crate::db::fresh_chain(cm0[k], base));
                    } else {
                        crate::db::lemma_materialized_fresh(sm1, k, base);
                    }
                }
            }
        }
        match r1 {
            Err(e) => {
                return Err(e);
            },
            Ok(_) => {},
        }
        let ghost db2 = *db;
        let ghost cm1 = materialize_all(cm0, sm1, ks);
        let ghost entries = search_entries_m(cm0, sm1, base, ks);
        proof {
            assert forall|k: Seq<u8>| #[trigger]
                db2.chains_view().contains_key(k) == cm1.contains_key(k) by {
                if ks.contains(k) {
                    assert(db2.chains_view().contains_key(k));
                }
            }
            assert forall|k: Seq<u8>| #[trigger] db2.chains_view().contains_key(k) implies
                db2.chains_view()[k] == cm1[k] by {
                assert(db2.chains_view()[k] == chain_for(db1, k));
                assert(chain_for(db1, k) == chain_for_m(cm0, sm1, k));
            }
            assert(db2.chains_view() =~= cm1);
            assert(self.spec_chains() == search_entries(db1, base, ks));
            assert(search_entries(db1, base, ks) =~= entries);
        }
        proof {
            let pkeys = firsts(self.spec_predicates());
            let skeys = firsts(self.spec_sets());
            assert forall|i: int| 0 <= i < sets_v.len() implies lookup_entry(
                self.spec_chains(),
                (#[trigger] sets_v[i]).0,
            ) is Some && db.chains_view().contains_key(sets_v[i].0) by {
                let k = sets_v[i].0;
                assert((pkeys + skeys)[pkeys.len() + i] == k);
                assert((pkeys + skeys).contains(k));
                lemma_dedup_first_contains(pkeys + skeys, k);
                assert(ks.contains(k));
                lemma_lookup_search_entries(db1, base, ks, k);
            }
        }
        let ghost fold = install_fold(cm1, entries, sets_v, base, 0);
        let r2 = self.install_pending(db);
        proof {
            assert(install_fold(db2.chains_view(), self.spec_chains(), sets_v, base, 0) == fold);
            assert(db.chains_view() == fold.0);
            assert(r2 == fold.2);
            if r2 is Err {
                assert(pipeline_outcome(sm0, cm0, db0.ts_counter(), tx0) == fold.2);
            }
        }
        match r2 {
            Err(e) => {
                return Err(e);
            },
            Ok(_) => {},
        }
        let ghost db3 = *db;
        let _ = self.update_read_ts(db);
        proof {
            assert(db.chains_view() == bump_fold(fold.0, preds_v, base, preds_v.len() as int));
            assert(stamped_are_tails(
                db.chains_view(),
                sets_v,
                base,
                self.spec_installed() as int,
            )) by {
                assert forall|k2: Seq<u8>, p: int|
                    db.chains_view().contains_key(k2) && 0 <= p < db.chains_view()[k2].len() && (
                #[trigger] db.chains_view()[k2][p]).wts == base implies exists|j: int|
                    0 <= j < self.spec_installed() && k2 == (#[trigger] sets_v[j]).0 && p
                        == db.chains_view()[k2].len() - 1 by {
                    assert(db3.chains_view().contains_key(k2));
                    assert(db.chains_view()[k2].len() == db3.chains_view()[k2].len());
                    assert(db3.chains_view()[k2][p].wts == db.chains_view()[k2][p].wts);
                    let j = choose|j: int|
                        0 <= j < self.spec_installed() && k2 == (#[trigger] sets_v[j]).0 && p
                            == db3.chains_view()[k2].len() - 1;
                    assert(0 <= j < self.spec_installed() && k2 == sets_v[j].0);
                }
            }
        }
        let ghost cm3 = bump_fold(fold.0, preds_v, base, preds_v.len() as int);
        proof {
            assert forall|i: int| 0 <= i < self.spec_installed() implies {
                let k = (#[trigger] sets_v[i]).0;
                &&& db.chains_view().contains_key(k)
                &&& db.chains_view()[k].len() > 0
                &&& db.chains_view()[k].last() == install_rec(sets_v, base, i)
            } by {
                let k = sets_v[i].0;
                assert(db3.chains_view().contains_key(k));
                assert(db3.chains_view()[k].len() > 0);
                assert(db3.chains_view()[k].last() == install_rec(sets_v, base, i));
                assert(db3.chains_view()[k].last().wts == base);
                assert(db.chains_view().contains_key(k));
                assert(db.chains_view()[k].len() == db3.chains_view()[k].len());
                assert(db.chains_view()[k].last() == db3.chains_view()[k].last());
            }
        }
        let r4 = self.check_predicates(db);
        proof {
            assert(db.store_view() == sm1);
            assert(self.spec_chains() == entries);
            assert(self.spec_predicates() == preds_v);
            assert(r4 == check_preds_outcome_m(cm3, sm1, base, entries, preds_v));
            if r4 is Err {
                assert(pipeline_outcome(sm0, cm0, db0.ts_counter(), tx0) == r4);
            }
        }
        match r4 {
            Err(e) => {
                return Err(e);
            },
            Ok(_) => {},
        }
        let r5 = self.check_version_consistency(db);
        proof {
            assert(r5 == check_vc_outcome_m(cm3, base, entries, preds_v));
            assert(pipeline_outcome(sm0, cm0, db0.ts_counter(), tx0) == r5) by {
                assert(tx0.spec_sets() == sets_v);
                assert(tx0.spec_predicates() == preds_v);
                assert(tx0.spec_keyset() == ks);
                assert(search_outcome_m(cm0, sm1, base, ks) == r1);
                assert(r1 is Ok);
                assert(install_fold(cm1, entries, sets_v, base, 0) == fold);
                assert(fold.2 == r2 && r2 is Ok);
                assert(bump_fold(fold.0, preds_v, base, preds_v.len() as int) == cm3);
                assert(check_preds_outcome_m(cm3, sm1, base, entries, preds_v) == r4);
                assert(r4 is Ok);
            }
        }
        match r5 {
            Err(e) => {
                return Err(e);
            },
            Ok(_) => {},
        }
        proof {
            db.lemma_wf();
            assert(r5 is Ok);
            let u: () = r5->Ok_0;
            assert(u == ());
            assert(r5 == Ok::<(), Error>(u));
            assert(r5 == Ok::<(), Error>(()));
        }
        let ghost store_pre_write = db.store_view();
        match self.write(db) {
            Err(e) => {
                return Err(e);
            },
            Ok(_) => {},
        }
        proof {
            let m_bang = store_pre_write.insert(
                bang_key(base),
                crate::codec::ws_bytes(firsts(sets_v)),
            );
            lemma_write_values_reads(m_bang, sets_v, base, 0);
            let fold = write_values(m_bang, sets_v, base, 0);
            assert(db.store_view() == fold.remove(bang_key(base)));
            assert forall|i: int| 0 <= i < sets_v.len() implies read(
                db.store_view(),
                version_key((base + i) as u64),
            ) == Some((#[trigger] sets_v[i]).1->0) by {
                crate::bytes::lemma_version_key_shape((base + i) as u64);
                assert(version_key((base + i) as u64) != bang_key(base));
                assert(read(fold, version_key((base + i) as u64)) == Some(sets_v[i].1->0));
            }
            assert forall|i: int|
                0 <= i < sets_v.len() && #[trigger] key_unique(sets_v, 0, i) implies read(
                db.store_view(),
                at_key(sets_v[i].0),
            ) == Some(versions_bytes(prior_of(db0.store_view(), sets_v[i].0).push(
                (base, (base + i) as u64),
            ))) by {
                let ak = at_key(sets_v[i].0);
                assert(ak[0] == 64 && bang_key(base)[0] == 33);
                assert(ak != bang_key(base) && ak != ts_persist_key());
                assert(read(fold, ak) == Some(versions_bytes(prior_of(m_bang, sets_v[i].0).push(
                    (base, (base + i) as u64),
                ))));
                assert(read(m_bang, ak) == read(store_pre_write, ak));
                assert(read(store_pre_write, ak) == read(db0.store_view(), ak));
                assert(prior_of(m_bang, sets_v[i].0) == prior_of(db0.store_view(), sets_v[i].0));
            }
        }
        Ok(())
    }

    /// Run the transaction to completion: the phase pipeline, then
    /// maintenance, which settles the installed records and, on failure,
    /// rolls the store back.  On failure nothing of the transaction stays
    /// durable; on success every write is durable and linked.  The result
    /// is exactly the pipeline's: `Ok` when every phase succeeds, else the
    /// first failure — an `Abort` conflict, a `PredicateFailure`, or
    /// `Blocked` where a concurrent engine would wait on another
    /// transaction's pending record.
    pub fn execute(&mut self, db: &mut Db) -> (r: TxResult<()>)
        requires
            old(db).wf(),
            old(db).ts_counter() + old(self).spec_sets().len() + 1 + TS_SAFETY_BUFFER <= TS_LIMIT,
            forall|i: int|
                0 <= i < old(self).spec_sets().len() ==> (#[trigger] old(self).spec_sets()[i]).1
                    is Some,
            old(self).spec_installed() == 0,
        ensures
            final(db).wf(),
            final(db).ts_counter() == alloc_next(
                old(db).ts_counter(),
                old(self).spec_sets().len() as usize,
            ),
            r == pipeline_outcome(
                old(db).store_view(),
                old(db).chains_view(),
                old(db).ts_counter(),
                *old(self),
            ),
            r is Err ==> r == Err::<(), Error>(Error::Abort) || r == Err::<(), Error>(
                Error::PredicateFailure,
            ) || r == Err::<(), Error>(Error::Blocked),
            r is Ok ==> stamped_settled(
                final(db).chains_view(),
                old(db).ts_counter(),
                Status::Committed,
            ),
            r is Err ==> stamped_settled(
                final(db).chains_view(),
                old(db).ts_counter(),
                Status::Aborted,
            ),
            r is Err ==> forall|k: Seq<u8>|
                k != ts_persist_key() && k != bang_key(old(db).ts_counter()) ==> #[trigger] read(
                    final(db).store_view(),
                    k,
                ) == read(old(db).store_view(), k),
            r is Err && old(self).spec_sets().len() > 0 ==> !final(db).store_view().contains_key(
                bang_key(old(db).ts_counter()),
            ),
            r is Ok ==> ({
                let base = old(db).ts_counter();
                let sets = old(self).spec_sets();
                &&& forall|i: int|
                    0 <= i < sets.len() ==> read(
                        final(db).store_view(),
                        version_key((base + i) as u64),
                    ) == Some((#[trigger] sets[i]).1->0)
                &&& forall|i: int|
                    0 <= i < sets.len() && #[trigger] key_unique(sets, 0, i) ==> read(
                        final(db).store_view(),
                        at_key(sets[i].0),
                    ) == Some(versions_bytes(prior_of(old(db).store_view(), sets[i].0).push(
                        (base, (base + i) as u64),
                    )))
                &&& !final(db).store_view().contains_key(bang_key(base))
                &&& forall|i: int|
                    0 <= i < sets.len() && #[trigger] key_unique(sets, 0, i) ==> {
                        let k = sets[i].0;
                        &&& final(db).chains_view().contains_key(k)
                        &&& final(db).chains_view()[k].len() > 0
                        &&& final(db).chains_view()[k].last() == (MemRecord {
                            wts: base,
                            rts: 0,
                            data: Some((base + i) as u64),
                            status: Status::Committed,
                        })
                    }
            }),
    {
        let ghost db0 = *old(db);
        let ghost sets_v = old(self).spec_sets();
        let ghost base = db0.ts_counter();
        let res = self._execute(db);
        let ghost mid = *db;
        let ok = res.is_ok();
        proof {
            lemma_pipeline_error_range(
                db0.store_view(),
                db0.chains_view(),
                db0.ts_counter(),
                *old(self),
            );
            assert forall|a: int, b: int|
                0 <= a < b < self.spec_installed() implies (#[trigger] sets_v[a]).0 != (
            #[trigger] sets_v[b]).0 by {
                if sets_v[a].0 == sets_v[b].0 {
                    assert(mid.chains_view()[sets_v[a].0].last() == install_rec(sets_v, base, a));
                    assert(mid.chains_view()[sets_v[b].0].last() == install_rec(sets_v, base, b));
                    assert(sets_v[a].1 is Some && sets_v[b].1 is Some);
                    assert(install_rec(sets_v, base, a).data == Some((base + a) as u64));
                    assert(install_rec(sets_v, base, b).data == Some((base + b) as u64));
                }
            }
        }
        self.maintenance(db, ok);
        proof {
            let n = sets_v.len() as int;
            let ghost n_inst = self.spec_installed() as int;
            let ghost st = if ok {
                Status::Committed
            } else {
                Status::Aborted
            };
            lemma_settle_fold_shape(mid.chains_view(), sets_v, n_inst, st);
            assert(stamped_settled(db.chains_view(), base, st)) by {
                assert forall|k: Seq<u8>, i: int|
                    db.chains_view().contains_key(k) && 0 <= i < db.chains_view()[k].len() && (
                #[trigger] db.chains_view()[k][i]).wts == base implies db.chains_view()[k][i].status
                    == st by {
                    assert(mid.chains_view().contains_key(k));
                    assert(db.chains_view()[k].len() == mid.chains_view()[k].len());
                    assert(mid.chains_view()[k][i].wts == db.chains_view()[k][i].wts);
                    let j = choose|j: int|
                        0 <= j < n_inst && k == (#[trigger] sets_v[j]).0 && i
                            == mid.chains_view()[k].len() - 1;
                    assert(0 <= j < n_inst && k == sets_v[j].0);
                    assert(db.chains_view()[sets_v[j].0].last().status == st);
                }
            }
            if res is Ok {
                lemma_settle_fold_props(mid.chains_view(), sets_v, n, Status::Committed);
                assert forall|i: int|
                    0 <= i < sets_v.len() && #[trigger] key_unique(sets_v, 0, i) implies {
                    let k = sets_v[i].0;
                    &&& db.chains_view().contains_key(k)
                    &&& db.chains_view()[k].len() > 0
                    &&& db.chains_view()[k].last() == (MemRecord {
                        wts: base,
                        rts: 0,
                        data: Some((base + i) as u64),
                        status: Status::Committed,
                    })
                } by {
                    let k = sets_v[i].0;
                    assert(mid.chains_view().contains_key(k) && mid.chains_view()[k].len() > 0);
                    assert(db.chains_view()[k] == settle_last(
                        mid.chains_view()[k],
                        Status::Committed,
                    ));
                    assert(mid.chains_view()[k].last() == install_rec(sets_v, base, i));
                    assert(sets_v[i].1 is Some);
                }
                if sets_v.len() > 0 {
                    assert(db.store_view() == mid.store_view().remove(bang_key(base)));
                    assert forall|i: int| 0 <= i < sets_v.len() implies read(
                        db.store_view(),
                        version_key((base + i) as u64),
                    ) == Some((#[trigger] sets_v[i]).1->0) by {
                        crate::bytes::lemma_version_key_shape((base + i) as u64);
                        assert(version_key((base + i) as u64) != bang_key(base));
                    }
                    assert forall|i: int|
                        0 <= i < sets_v.len() && #[trigger] key_unique(sets_v, 0, i) implies read(
                        db.store_view(),
                        at_key(sets_v[i].0),
                    ) == Some(versions_bytes(prior_of(db0.store_view(), sets_v[i].0).push(
                        (base, (base + i) as u64),
                    ))) by {
                        assert(at_key(sets_v[i].0)[0] == 64 && bang_key(base)[0] == 33);
                        assert(at_key(sets_v[i].0) != bang_key(base));
                    }
                }
            } else {
                mid.lemma_wf();
                db0.lemma_wf();
                assert(crate::db::fresh_versions(mid.store_view(), base)) by {
                    assert forall|k: Seq<u8>|
                        mid.store_view().contains_key(k) && crate::db::is_at(k) implies
                        crate::db::fresh_list(
                        #[trigger] crate::codec::parse_versions(mid.store_view()[k])->0,
                        base,
                    ) by {
                        assert(k != ts_persist_key());
                        assert(read(mid.store_view(), k) == read(db0.store_view(), k));
                        assert(db0.store_view().contains_key(k));
                        assert(crate::db::fresh_list(
                            crate::codec::parse_versions(db0.store_view()[k])->0,
                            base,
                        ));
                    }
                }
                lemma_purge_fold_noop(mid.store_view(), sets_v, base, n);
                assert forall|k: Seq<u8>|
                    k != ts_persist_key() && k != bang_key(base) implies #[trigger] read(
                    db.store_view(),
                    k,
                ) == read(db0.store_view(), k) by {
                    assert(read(mid.store_view(), k) == read(db0.store_view(), k));
                }
            }
        }
        res
    }
}

/// Whether a key list holds a key with these bytes.
fn contains_bytes(v: &Vec<Vec<u8>>, k: &Vec<u8>) -> (r: bool)
    ensures
        r <==> keys_view(v@).contains(k@),
{
    let mut i: usize = 0;
    while i < v.len()
        invariant
            i <= v@.len(),
            forall|j: int| 0 <= j < i ==> keys_view(v@)[j] != k@,
        decreases v@.len() - i,
    {
        if crate::store::bytes_eq(&v[i], k) {
            proof {
                assert(keys_view(v@)[i as int] == k@);
            }
            return true;
        }
        i += 1;
    }
    proof {
        if keys_view(v@).contains(k@) {
            let j = choose|j: int| 0 <= j < keys_view(v@).len() && keys_view(v@)[j] == k@;
            assert(false);
        }
    }
    false
}

} // verus!
