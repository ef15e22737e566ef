//! The engine handle: the persistent store, the timestamp oracle counter,
//! and the chain index, together with the persistence and recovery
//! procedures that keep them consistent.

use vstd::prelude::*;

use crate::bytes::{at_key, bang_key, ts_persist_key, u64_be, u64_of_be, version_key};
use crate::codec::{parse_versions, parse_ws, versions_bytes};
use crate::mvcc::{MemRecord, Mvcc, Status};
use crate::store::{read, Store};
use crate::tx::{Error, TxResult};

verus! {

/// Safety window of the durable timestamp checkpoint: timestamps are
/// persisted once per window, and a restart jumps past the window.
pub const TS_SAFETY_BUFFER: u64 = 4294967296;

/// Hard ceiling on the counter, so that every version key starts with a
/// zero byte and stays clear of the `@` and `!` namespaces.
pub const TS_LIMIT: u64 = 0x100000000000000;

/// A key in the version-list namespace.
pub open spec fn is_at(k: Seq<u8>) -> bool {
    k.len() >= 1 && k[0] == 64
}

/// A key in the write-set journal namespace.
pub open spec fn is_bang(k: Seq<u8>) -> bool {
    k.len() >= 1 && k[0] == 33
}

/// Every persistent record the engine owns decodes, version lists are
/// non-empty, and version handles stay under the counter ceiling.
pub open spec fn wf_store(m: Map<Seq<u8>, Seq<u8>>) -> bool {
    &&& forall|k: Seq<u8>| m.contains_key(k) && is_at(k) ==> {
        &&& (#[trigger] parse_versions(m[k])) is Some
        &&& parse_versions(m[k])->0.len() > 0
        &&& forall|j: int|
            0 <= j < parse_versions(m[k])->0.len() ==> (#[trigger] parse_versions(m[k])->0[j]).1
                < TS_LIMIT
    }
    &&& forall|k: Seq<u8>|
        m.contains_key(k) && is_bang(k) ==> k.len() == 9 && (#[trigger] parse_ws(m[k])) is Some
    &&& m.contains_key(ts_persist_key()) ==> m[ts_persist_key()].len() == 8
}

/// No pending write-set journal record remains.
pub open spec fn no_bang(m: Map<Seq<u8>, Seq<u8>>) -> bool {
    forall|k: Seq<u8>| m.contains_key(k) ==> !is_bang(k)
}

/// The checkpoint the store holds, or zero when none was ever written.
pub open spec fn stored_ts(m: Map<Seq<u8>, Seq<u8>>) -> u64 {
    match read(m, ts_persist_key()) {
        Some(v) => u64_of_be(v),
        None => 0,
    }
}

/// How far one allocation advances the counter before any boost.
pub open spec fn alloc_step(n: usize) -> u64 {
    if n == 0 {
        1u64
    } else {
        n as u64
    }
}

/// Whether an allocation that returned `c` triggers the durable boost:
/// the counter sits in the top quarter of its window, and jumping to the
/// next window boundary moves it forward.
pub open spec fn boost_applies(c: u64, n: usize) -> bool {
    c % TS_SAFETY_BUFFER > TS_SAFETY_BUFFER * 3 / 4 && n >= 1 && (c / TS_SAFETY_BUFFER + 1)
        * TS_SAFETY_BUFFER > c + n
}

/// The counter after an allocation that returned `c`.
pub open spec fn alloc_next(c: u64, n: usize) -> u64
    recommends
        c + alloc_step(n) + TS_SAFETY_BUFFER <= TS_LIMIT,
{
    if boost_applies(c, n) {
        ((c / TS_SAFETY_BUFFER + 1) * TS_SAFETY_BUFFER) as u64
    } else {
        (c + alloc_step(n)) as u64
    }
}

/// The store after one allocation: unchanged, unless the boost fires and
/// finds the expected checkpoint, which it then moves to the new counter.
pub open spec fn alloc_store(m: Map<Seq<u8>, Seq<u8>>, c: u64, n: usize) -> Map<Seq<u8>, Seq<u8>> {
    if boost_applies(c, n) && read(m, ts_persist_key()) == Some(
        u64_be(((c / TS_SAFETY_BUFFER) * TS_SAFETY_BUFFER) as u64),
    ) {
        m.insert(ts_persist_key(), u64_be(alloc_next(c, n)))
    } else {
        m
    }
}

/// An allocation strictly advances the counter, by at most one step plus
/// one safety window.
pub proof fn lemma_alloc_next_advances(c: u64, n: usize)
    requires
        c + alloc_step(n) + TS_SAFETY_BUFFER <= TS_LIMIT,
    ensures
        alloc_next(c, n) > c,
        alloc_next(c, n) >= c + alloc_step(n),
        alloc_next(c, n) <= c + alloc_step(n) + TS_SAFETY_BUFFER,
        alloc_next(c, n) <= TS_LIMIT,
{
    if boost_applies(c, n) {
        let b = TS_SAFETY_BUFFER;
        assert(c % b < b && c / b * b + c % b == c && (c / b + 1) * b == c / b * b + b)
            by (nonlinear_arith)
            requires
                b > 0,
        ;
    }
}

/// Timestamps are allocated monotonically: of two allocations in
/// sequence, the later transaction always receives the larger base.
pub proof fn lemma_timestamp_allocation_monotonic(c0: u64, n0: usize, n1: usize)
    requires
        c0 + alloc_step(n0) + TS_SAFETY_BUFFER <= TS_LIMIT,
    ensures
        alloc_next(c0, n0) > c0,
{
    lemma_alloc_next_advances(c0, n0);
}

/// What one recovery pass guarantees of the store: no journal record
/// remains, and a store that had none is left untouched.
pub open spec fn recover_rel(pre: Map<Seq<u8>, Seq<u8>>, post: Map<Seq<u8>, Seq<u8>>) -> bool {
    &&& no_bang(post)
    &&& no_bang(pre) ==> post == pre
}

/// Recovery is idempotent: a second pass over a recovered store leaves it
/// exactly as the first pass did.
pub proof fn lemma_recovery_idempotent(
    m0: Map<Seq<u8>, Seq<u8>>,
    m1: Map<Seq<u8>, Seq<u8>>,
    m2: Map<Seq<u8>, Seq<u8>>,
)
    requires
        recover_rel(m0, m1),
        recover_rel(m1, m2),
    ensures
        m2 == m1,
{
}

/// Record a committed `(wts, version)` pair as one chain slot.
pub open spec fn committed_record(p: (u64, u64)) -> MemRecord {
    MemRecord { wts: p.0, rts: 0, data: Some(p.1), status: Status::Committed }
}

/// Stable insertion of a pair into a version list sorted by `wts`.
pub open spec fn insert_sorted(x: (u64, u64), s: Seq<(u64, u64)>) -> Seq<(u64, u64)>
    decreases s.len(),
{
    if s.len() == 0 {
        seq![x]
    } else if x.0 < s[0].0 {
        seq![x] + s
    } else {
        seq![s[0]] + insert_sorted(x, s.skip(1))
    }
}

/// Stable sort of a version list by `wts`.
pub open spec fn sort_by_wts(s: Seq<(u64, u64)>) -> Seq<(u64, u64)>
    decreases s.len(),
{
    if s.len() == 0 {
        Seq::empty()
    } else {
        insert_sorted(s.last(), sort_by_wts(s.drop_last()))
    }
}

/// Non-strictly sorted by `wts`.
pub open spec fn sorted_by_wts(s: Seq<(u64, u64)>) -> bool {
    forall|i: int, j: int| 0 <= i < j < s.len() ==> (#[trigger] s[i]).0 <= (#[trigger] s[j]).0
}

/// The chain materialized for a key from the store: its committed versions
/// sorted by write timestamp, or the committed floor record.
pub open spec fn materialized_chain(m: Map<Seq<u8>, Seq<u8>>, k: Seq<u8>) -> Seq<MemRecord> {
    match read(m, at_key(k)) {
        Some(bytes) => sort_by_wts(parse_versions(bytes)->0).map_values(
            |p: (u64, u64)| committed_record(p),
        ),
        None => seq![MemRecord { wts: 0, rts: 0, data: None, status: Status::Committed }],
    }
}

/// The store after a version is appended to a key's version list.
pub open spec fn add_version_spec(m: Map<Seq<u8>, Seq<u8>>, key: Seq<u8>, ts: u64, version: u64) -> Map<
    Seq<u8>,
    Seq<u8>,
> {
    let prior = match read(m, at_key(key)) {
        Some(bytes) => parse_versions(bytes)->0,
        None => Seq::empty(),
    };
    m.insert(at_key(key), versions_bytes(prior.push((ts, version))))
}

/// Whether some pair in a version list is stamped `wts`.
pub open spec fn has_wts(vs: Seq<(u64, u64)>, wts: u64) -> bool {
    exists|j: int| 0 <= j < vs.len() && (#[trigger] vs[j]).0 == wts
}

/// A version list with every pair stamped `wts` dropped.
pub open spec fn without_wts(vs: Seq<(u64, u64)>, wts: u64) -> Seq<(u64, u64)>
    decreases vs.len(),
{
    if vs.len() == 0 {
        Seq::empty()
    } else {
        let w = without_wts(vs.drop_last(), wts);
        if vs.last().0 == wts {
            w
        } else {
            w.push(vs.last())
        }
    }
}

/// Dropping a stamp no pair carries changes nothing.
pub proof fn lemma_without_wts_absent(vs: Seq<(u64, u64)>, wts: u64)
    requires
        !has_wts(vs, wts),
    ensures
        without_wts(vs, wts) == vs,
    decreases vs.len(),
{
    if vs.len() == 0 {
        assert(without_wts(vs, wts) =~= vs);
    } else {
        assert(!has_wts(vs.drop_last(), wts)) by {
            if has_wts(vs.drop_last(), wts) {
                let j = choose|j: int|
                    0 <= j < vs.drop_last().len() && (#[trigger] vs.drop_last()[j]).0 == wts;
                assert(vs[j].0 == wts);
            }
        }
        lemma_without_wts_absent(vs.drop_last(), wts);
        assert(vs[vs.len() - 1].0 != wts);
        assert(without_wts(vs, wts) =~= vs);
    }
}

/// Filtering never lengthens a version list.
pub proof fn lemma_without_wts_len(vs: Seq<(u64, u64)>, wts: u64)
    ensures
        without_wts(vs, wts).len() <= vs.len(),
    decreases vs.len(),
{
    if vs.len() == 0 {
    } else {
        lemma_without_wts_len(vs.drop_last(), wts);
    }
}

/// The filtered list never carries the dropped stamp.
pub proof fn lemma_without_wts_complete(vs: Seq<(u64, u64)>, wts: u64)
    ensures
        !has_wts(without_wts(vs, wts), wts),
    decreases vs.len(),
{
    if vs.len() == 0 {
    } else {
        lemma_without_wts_complete(vs.drop_last(), wts);
        let w = without_wts(vs.drop_last(), wts);
        if vs.last().0 == wts {
        } else {
            if has_wts(without_wts(vs, wts), wts) {
                let j = choose|j: int|
                    0 <= j < without_wts(vs, wts).len() && (#[trigger] without_wts(vs, wts)[j]).0
                        == wts;
                if j < w.len() {
                    assert(w[j].0 == wts);
                } else {
                    assert(without_wts(vs, wts)[j] == vs.last());
                }
            }
        }
    }
}

/// The version-value keys that purging `wts` from a list deletes.
pub open spec fn purged_value_keys(vs: Seq<(u64, u64)>, wts: u64) -> Set<Seq<u8>> {
    Set::new(
        |k: Seq<u8>|
            exists|j: int|
                0 <= j < vs.len() && (#[trigger] vs[j]).0 == wts && k == version_key(vs[j].1),
    )
}

/// The store after every version stamped `wts` is purged from a key: the
/// matching pairs leave the version list, and their value keys are
/// deleted.  Absent or unparseable lists, and lists without a match, are
/// left alone.
pub open spec fn purge_spec(m: Map<Seq<u8>, Seq<u8>>, key: Seq<u8>, wts: u64) -> Map<
    Seq<u8>,
    Seq<u8>,
> {
    match read(m, at_key(key)) {
        Some(bytes) => {
            if parse_versions(bytes) is Some {
                let vs = parse_versions(bytes)->0;
                if has_wts(vs, wts) {
                    let kept = without_wts(vs, wts);
                    let m1 = m.remove_keys(purged_value_keys(vs, wts));
                    if kept.len() == 0 {
                        m1.remove(at_key(key))
                    } else {
                        m1.insert(at_key(key), versions_bytes(kept))
                    }
                } else {
                    m
                }
            } else {
                m
            }
        },
        None => m,
    }
}

/// Every pair of a version list is stamped and named below `c`.
pub open spec fn fresh_list(vs: Seq<(u64, u64)>, c: u64) -> bool {
    forall|j: int| 0 <= j < vs.len() ==> (#[trigger] vs[j]).0 < c && vs[j].1 < c
}

/// No persisted version pair mentions a timestamp at or above the counter.
pub open spec fn fresh_versions(m: Map<Seq<u8>, Seq<u8>>, c: u64) -> bool {
    forall|k: Seq<u8>|
        m.contains_key(k) && is_at(k) ==> fresh_list(#[trigger] parse_versions(m[k])->0, c)
}

/// No chain record mentions a timestamp at or above the counter.
pub open spec fn fresh_chain(s: Seq<MemRecord>, c: u64) -> bool {
    forall|i: int|
        0 <= i < s.len() ==> (#[trigger] s[i]).wts < c && (s[i].data matches Some(v) ==> v < c)
}

/// Freshness of every chain in the index.
pub open spec fn fresh_chains(cm: Map<Seq<u8>, Seq<MemRecord>>, c: u64) -> bool {
    forall|k: Seq<u8>| cm.contains_key(k) ==> fresh_chain(#[trigger] cm[k], c)
}

/// Freshness survives a growing counter.
pub proof fn lemma_fresh_mono(m: Map<Seq<u8>, Seq<u8>>, cm: Map<Seq<u8>, Seq<MemRecord>>, c1: u64, c2: u64)
    requires
        c1 <= c2,
        fresh_versions(m, c1),
        fresh_chains(cm, c1),
    ensures
        fresh_versions(m, c2),
        fresh_chains(cm, c2),
{
    assert forall|k: Seq<u8>| m.contains_key(k) && is_at(k) implies fresh_list(
        #[trigger] parse_versions(m[k])->0,
        c2,
    ) by {
        assert(fresh_list(parse_versions(m[k])->0, c1));
    }
    assert forall|k: Seq<u8>| cm.contains_key(k) implies fresh_chain(#[trigger] cm[k], c2) by {
        assert(fresh_chain(cm[k], c1));
    }
}

/// Freshness survives an insert whose own list is fresh.
pub proof fn lemma_fresh_versions_insert(m: Map<Seq<u8>, Seq<u8>>, c: u64, k: Seq<u8>, v: Seq<u8>)
    requires
        fresh_versions(m, c),
        is_at(k) ==> fresh_list(parse_versions(v)->0, c),
    ensures
        fresh_versions(m.insert(k, v), c),
{
    let m1 = m.insert(k, v);
    assert forall|q: Seq<u8>| m1.contains_key(q) && is_at(q) implies fresh_list(
        #[trigger] parse_versions(m1[q])->0,
        c,
    ) by {
        if q != k {
            assert(m.contains_key(q) && m1[q] == m[q]);
            assert(fresh_list(parse_versions(m[q])->0, c));
        }
    }
}

/// Freshness survives deletions.
pub proof fn lemma_fresh_versions_remove(m: Map<Seq<u8>, Seq<u8>>, c: u64, k: Seq<u8>)
    requires
        fresh_versions(m, c),
    ensures
        fresh_versions(m.remove(k), c),
{
    let m1 = m.remove(k);
    assert forall|q: Seq<u8>| m1.contains_key(q) && is_at(q) implies fresh_list(
        #[trigger] parse_versions(m1[q])->0,
        c,
    ) by {
        assert(m.contains_key(q) && m1[q] == m[q]);
        assert(fresh_list(parse_versions(m[q])->0, c));
    }
}

/// Freshness survives bulk deletions.
pub proof fn lemma_fresh_versions_remove_keys(m: Map<Seq<u8>, Seq<u8>>, c: u64, s: Set<Seq<u8>>)
    requires
        fresh_versions(m, c),
    ensures
        fresh_versions(m.remove_keys(s), c),
{
    let m1 = m.remove_keys(s);
    assert forall|q: Seq<u8>| m1.contains_key(q) && is_at(q) implies fresh_list(
        #[trigger] parse_versions(m1[q])->0,
        c,
    ) by {
        assert(m.contains_key(q) && m1[q] == m[q]);
        assert(fresh_list(parse_versions(m[q])->0, c));
    }
}

/// Every element of a filtered version list comes from the unfiltered one.
pub proof fn lemma_without_wts_elems(vs: Seq<(u64, u64)>, wts: u64)
    ensures
        forall|l: int|
            0 <= l < without_wts(vs, wts).len() ==> exists|j: int|
                0 <= j < vs.len() && #[trigger] without_wts(vs, wts)[l] == vs[j],
    decreases vs.len(),
{
    if vs.len() == 0 {
    } else {
        lemma_without_wts_elems(vs.drop_last(), wts);
        let w = without_wts(vs.drop_last(), wts);
        assert forall|l: int| 0 <= l < without_wts(vs, wts).len() implies exists|j: int|
            0 <= j < vs.len() && #[trigger] without_wts(vs, wts)[l] == vs[j] by {
            if l < w.len() {
                let j = choose|j: int|
                    0 <= j < vs.drop_last().len() && #[trigger] w[l] == vs.drop_last()[j];
                assert(without_wts(vs, wts)[l] == vs[j]);
            } else {
                assert(without_wts(vs, wts)[l] == vs[vs.len() - 1]);
            }
        }
    }
}

/// Every element of a stable insertion is the new pair or a prior one.
proof fn lemma_insert_sorted_elems(x: (u64, u64), s: Seq<(u64, u64)>)
    ensures
        forall|l: int|
            0 <= l < insert_sorted(x, s).len() ==> #[trigger] insert_sorted(x, s)[l] == x || exists|
                j: int,
            | 0 <= j < s.len() && insert_sorted(x, s)[l] == s[j],
    decreases s.len(),
{
    if s.len() == 0 {
    } else if x.0 < s[0].0 {
        assert forall|l: int| 0 <= l < insert_sorted(x, s).len() implies #[trigger] insert_sorted(
            x,
            s,
        )[l] == x || exists|j: int| 0 <= j < s.len() && insert_sorted(x, s)[l] == s[j] by {
            if l > 0 {
                assert(insert_sorted(x, s)[l] == s[l - 1]);
            }
        }
    } else {
        lemma_insert_sorted_elems(x, s.skip(1));
        assert forall|l: int| 0 <= l < insert_sorted(x, s).len() implies #[trigger] insert_sorted(
            x,
            s,
        )[l] == x || exists|j: int| 0 <= j < s.len() && insert_sorted(x, s)[l] == s[j] by {
            if l == 0 {
                assert(insert_sorted(x, s)[0] == s[0]);
            } else {
                let e = insert_sorted(x, s.skip(1))[l - 1];
                assert(insert_sorted(x, s)[l] == e);
                if e != x {
                    let j = choose|j: int| 0 <= j < s.skip(1).len() && e == s.skip(1)[j];
                    assert(insert_sorted(x, s)[l] == s[j + 1]);
                }
            }
        }
    }
}

/// Every element of the sorted version list comes from the unsorted one.
pub proof fn lemma_sort_elems(s: Seq<(u64, u64)>)
    ensures
        forall|l: int|
            0 <= l < sort_by_wts(s).len() ==> exists|j: int|
                0 <= j < s.len() && #[trigger] sort_by_wts(s)[l] == s[j],
    decreases s.len(),
{
    if s.len() == 0 {
    } else {
        lemma_sort_elems(s.drop_last());
        lemma_insert_sorted_elems(s.last(), sort_by_wts(s.drop_last()));
        let d = sort_by_wts(s.drop_last());
        assert forall|l: int| 0 <= l < sort_by_wts(s).len() implies exists|j: int|
            0 <= j < s.len() && #[trigger] sort_by_wts(s)[l] == s[j] by {
            let e = insert_sorted(s.last(), d)[l];
            assert(sort_by_wts(s)[l] == e);
            if e == s.last() {
                assert(sort_by_wts(s)[l] == s[s.len() - 1]);
            } else {
                let j = choose|j: int| 0 <= j < d.len() && insert_sorted(s.last(), d)[l] == d[j];
                let j2 = choose|j2: int|
                    0 <= j2 < s.drop_last().len() && #[trigger] d[j] == s.drop_last()[j2];
                assert(sort_by_wts(s)[l] == s[j2]);
            }
        }
    }
}

/// Freshness of the chain index survives inserting a fresh chain.
pub proof fn lemma_fresh_chains_insert(
    cm: Map<Seq<u8>, Seq<MemRecord>>,
    c: u64,
    k: Seq<u8>,
    s: Seq<MemRecord>,
)
    requires
        fresh_chains(cm, c),
        fresh_chain(s, c),
    ensures
        fresh_chains(cm.insert(k, s), c),
{
    let cm1 = cm.insert(k, s);
    assert forall|q: Seq<u8>| cm1.contains_key(q) implies fresh_chain(#[trigger] cm1[q], c) by {
        if q != k {
            assert(cm.contains_key(q) && cm1[q] == cm[q]);
        }
    }
}

/// Purging touches only the key's own version list and 8-byte version-value
/// keys; every other key reads the same before and after.
pub proof fn lemma_purge_spec_frame(m: Map<Seq<u8>, Seq<u8>>, key: Seq<u8>, wts: u64)
    ensures
        forall|k: Seq<u8>|
            k.len() != 8 && k != at_key(key) ==> #[trigger] read(purge_spec(m, key, wts), k)
                == read(m, k),
{
    assert forall|k: Seq<u8>| k.len() != 8 && k != at_key(key) implies #[trigger] read(
        purge_spec(m, key, wts),
        k,
    ) == read(m, k) by {
        match read(m, at_key(key)) {
            Some(bytes) => {
                if parse_versions(bytes) is Some {
                    let vs = parse_versions(bytes)->0;
                    if has_wts(vs, wts) {
                        assert(!purged_value_keys(vs, wts).contains(k));
                    }
                }
            },
            None => {},
        }
    }
}

/// A write-set taken from vectors in memory always fits the encoding and
/// parses back.
pub proof fn lemma_vec_writeset_encodable(keys: &Vec<Vec<u8>>)
    ensures
        keys.deep_view().len() <= u64::MAX,
        parse_ws(crate::codec::ws_bytes(keys.deep_view())) == Some(keys.deep_view()),
{
    crate::codec::lemma_keys_deep_view(*keys);
    vstd::std_specs::vec::axiom_spec_len(keys);
    assert forall|i: int|
        0 <= i < keys.deep_view().len() implies #[trigger] keys.deep_view()[i].len()
        <= u64::MAX by {
        assert(keys.deep_view()[i] == keys@[i]@);
        vstd::std_specs::vec::axiom_spec_len(&keys@[i]);
    }
    crate::codec::lemma_ws_round_trip(keys.deep_view());
}

/// Where the first strictly larger element sits, stable insertion is a
/// plain sequence insert.
proof fn lemma_insert_sorted_at(x: (u64, u64), s: Seq<(u64, u64)>, j: int)
    requires
        sorted_by_wts(s),
        0 <= j <= s.len(),
        forall|l: int| 0 <= l < j ==> (#[trigger] s[l]).0 <= x.0,
        j < s.len() ==> s[j].0 > x.0,
    ensures
        insert_sorted(x, s) == s.insert(j, x),
    decreases s.len(),
{
    if s.len() == 0 {
        assert(insert_sorted(x, s) =~= s.insert(0, x));
    } else if j == 0 {
        assert(x.0 < s[0].0);
        assert(insert_sorted(x, s) =~= s.insert(0, x));
    } else {
        assert(s[0].0 <= x.0);
        assert forall|l: int| 0 <= l < j - 1 implies (#[trigger] s.skip(1)[l]).0 <= x.0 by {
            assert(s.skip(1)[l] == s[l + 1]);
        }
        assert(sorted_by_wts(s.skip(1))) by {
            assert(forall|a: int, b: int|
                0 <= a < b < s.skip(1).len() ==> (#[trigger] s.skip(1)[a]).0 <= (
                #[trigger] s.skip(1)[b]).0);
        }
        lemma_insert_sorted_at(x, s.skip(1), j - 1);
        assert(seq![s[0]] + s.skip(1).insert(j - 1, x) =~= s.insert(j, x));
    }
}

/// Sort a version list by write timestamp, stably.
fn sort_versions(vs: &Vec<(u64, u64)>) -> (r: Vec<(u64, u64)>)
    ensures
        r@ == sort_by_wts(vs@),
        sorted_by_wts(r@),
{
    let mut r: Vec<(u64, u64)> = Vec::new();
    let mut i: usize = 0;
    proof {
        assert(vs@.take(0) =~= Seq::<(u64, u64)>::empty());
    }
    while i < vs.len()
        invariant
            i <= vs@.len(),
            r@ == sort_by_wts(vs@.take(i as int)),
            sorted_by_wts(r@),
        decreases vs@.len() - i,
    {
        let x = vs[i];
        let ghost pre = r@;
        let mut j: usize = 0;
        while j < r.len() && r[j].0 <= x.0
            invariant
                j <= r@.len(),
                r@ == pre,
                forall|l: int| 0 <= l < j ==> (#[trigger] r@[l]).0 <= x.0,
            decreases r@.len() - j,
        {
            j += 1;
        }
        r.insert(j, x);
        proof {
            lemma_insert_sorted_at(x, pre, j as int);
            assert(vs@.take(i + 1).drop_last() =~= vs@.take(i as int));
            assert(vs@.take(i + 1).last() == vs@[i as int]);
            assert forall|a: int, b: int| 0 <= a < b < r@.len() implies (#[trigger] r@[a]).0 <= (
            #[trigger] r@[b]).0 by {
                if b < j {
                    assert(r@[a] == pre[a] && r@[b] == pre[b]);
                } else if a < j && b == j {
                    assert(r@[a] == pre[a]);
                } else if a < j && b > j {
                    assert(r@[a] == pre[a] && r@[b] == pre[b - 1]);
                } else if a == j {
                    assert(r@[b] == pre[b - 1]);
                    assert(pre[b - 1].0 >= pre[j as int].0 || b - 1 == j);
                } else {
                    assert(r@[a] == pre[a - 1] && r@[b] == pre[b - 1]);
                }
            }
        }
        i += 1;
    }
    proof {
        assert(vs@.take(vs@.len() as int) =~= vs@);
    }
    r
}

/// A journal record insert preserves the store invariant.
proof fn lemma_wf_store_put_ws(m: Map<Seq<u8>, Seq<u8>>, base_ts: u64, ws: Seq<Seq<u8>>)
    requires
        wf_store(m),
        parse_ws(crate::codec::ws_bytes(ws)) is Some,
    ensures
        wf_store(m.insert(bang_key(base_ts), crate::codec::ws_bytes(ws))),
{
    let k = bang_key(base_ts);
    let v = crate::codec::ws_bytes(ws);
    assert(!is_at(k) && is_bang(k) && k.len() == 9 && k != ts_persist_key());
    lemma_wf_store_insert(m, k, v);
}

/// A version-list insert preserves the store invariant.
proof fn lemma_wf_store_put_versions(m: Map<Seq<u8>, Seq<u8>>, key: Seq<u8>, vs: Seq<(u64, u64)>)
    requires
        wf_store(m),
        parse_versions(versions_bytes(vs)) == Some(vs),
        vs.len() > 0,
        forall|j: int| 0 <= j < vs.len() ==> (#[trigger] vs[j]).1 < TS_LIMIT,
    ensures
        wf_store(m.insert(at_key(key), versions_bytes(vs))),
{
    let k = at_key(key);
    let v = versions_bytes(vs);
    assert(is_at(k) && !is_bang(k) && k != ts_persist_key());
    lemma_wf_store_insert(m, k, v);
}

/// Linking a fresh stamp into a key's version list and then purging that
/// stamp restores the key's prior list bytes exactly: the appended pair
/// leaves, and the kept pairs re-encode to the bytes they came from.
pub proof fn lemma_add_then_purge_restores(
    m: Map<Seq<u8>, Seq<u8>>,
    key: Seq<u8>,
    ts: u64,
    version: u64,
)
    requires
        wf_store(m),
        !has_wts(prior_list(m, key), ts),
        prior_list(m, key).len() < u64::MAX,
    ensures
        read(purge_spec(add_version_spec(m, key, ts, version), key, ts), at_key(key)) == read(
            m,
            at_key(key),
        ),
{
    let prior = prior_list(m, key);
    let appended = prior.push((ts, version));
    let enc = versions_bytes(appended);
    let m1 = add_version_spec(m, key, ts, version);
    assert(read(m1, at_key(key)) == Some(enc));
    crate::codec::lemma_versions_round_trip(appended);
    assert(has_wts(appended, ts)) by {
        assert(appended[appended.len() - 1].0 == ts);
    }
    assert(without_wts(appended, ts) == without_wts(prior, ts)) by {
        assert(appended.drop_last() =~= prior);
    }
    lemma_without_wts_absent(prior, ts);
    let m2 = m1.remove_keys(purged_value_keys(appended, ts));
    if prior.len() == 0 {
        assert(read(purge_spec(m1, key, ts), at_key(key)) is None);
        if m.contains_key(at_key(key)) {
            assert(is_at(at_key(key)));
            assert(parse_versions(m[at_key(key)]) is Some);
            assert(parse_versions(m[at_key(key)])->0.len() > 0);
        }
        assert(read(m, at_key(key)) is None);
    } else {
        assert(read(purge_spec(m1, key, ts), at_key(key)) == Some(versions_bytes(prior)));
        assert(m.contains_key(at_key(key)));
        crate::codec::lemma_parse_versions_canonical(m[at_key(key)]);
        assert(versions_bytes(prior) == m[at_key(key)]);
    }
}

/// After a purge, the key's version list no longer references the purged
/// stamp at all: the list is gone, or it decodes and carries no such pair.
/// Together with recovery deleting every journal record, this is how an
/// unfinished transaction leaves no trace in the version index.
pub proof fn lemma_purge_removes_stamp(m: Map<Seq<u8>, Seq<u8>>, key: Seq<u8>, wts: u64)
    requires
        wf_store(m),
    ensures
        match read(purge_spec(m, key, wts), at_key(key)) {
            Some(bytes) => parse_versions(bytes) is Some && !has_wts(parse_versions(bytes)->0, wts),
            None => true,
        },
{
    match read(m, at_key(key)) {
        Some(bytes) => {
            assert(m.contains_key(at_key(key)) && is_at(at_key(key)));
            assert(parse_versions(bytes) is Some);
            let vs = parse_versions(bytes)->0;
            if has_wts(vs, wts) {
                let kept = without_wts(vs, wts);
                if kept.len() == 0 {
                } else {
                    lemma_without_wts_complete(vs, wts);
                    lemma_without_wts_len(vs, wts);
                    crate::codec::lemma_parse_versions_canonical(bytes);
                    crate::codec::lemma_versions_round_trip(kept);
                }
            } else {
            }
        },
        None => {},
    }
}

/// Purging preserves the store invariant.
pub proof fn lemma_purge_spec_wf(m: Map<Seq<u8>, Seq<u8>>, key: Seq<u8>, wts: u64)
    requires
        wf_store(m),
    ensures
        wf_store(purge_spec(m, key, wts)),
{
    match read(m, at_key(key)) {
        Some(bytes) => {
            assert(m.contains_key(at_key(key)) && is_at(at_key(key)));
            let vs = parse_versions(bytes)->0;
            if has_wts(vs, wts) {
                let kept = without_wts(vs, wts);
                let m1 = m.remove_keys(purged_value_keys(vs, wts));
                assert(wf_store(m1)) by {
                    assert forall|q: Seq<u8>| m1.contains_key(q) && is_at(q) implies {
                        &&& (#[trigger] parse_versions(m1[q])) is Some
                        &&& parse_versions(m1[q])->0.len() > 0
                        &&& forall|j: int|
                            0 <= j < parse_versions(m1[q])->0.len() ==> (#[trigger] parse_versions(
                                m1[q],
                            )->0[j]).1 < TS_LIMIT
                    } by {
                        assert(m.contains_key(q) && m1[q] == m[q]);
                    }
                    assert forall|q: Seq<u8>| m1.contains_key(q) && is_bang(q) implies q.len() == 9
                        && (#[trigger] parse_ws(m1[q])) is Some by {
                        assert(m.contains_key(q) && m1[q] == m[q]);
                    }
                }
                if kept.len() == 0 {
                    lemma_wf_store_remove(m1, at_key(key));
                } else {
                    lemma_without_wts_len(vs, wts);
                    crate::codec::lemma_parse_versions_canonical(bytes);
                    crate::codec::lemma_versions_round_trip(kept);
                    assert forall|j: int| 0 <= j < kept.len() implies (#[trigger] kept[j]).1
                        < TS_LIMIT by {
                        lemma_without_wts_elems(vs, wts);
                        let l = choose|l: int| 0 <= l < vs.len() && #[trigger] kept[j] == vs[l];
                        assert(vs[l].1 < TS_LIMIT);
                    }
                    lemma_wf_store_put_versions(m1, key, kept);
                }
            }
        },
        None => {},
    }
}

/// Purging one key leaves every other key's version list alone.
pub proof fn lemma_purge_spec_frame_at(m: Map<Seq<u8>, Seq<u8>>, key: Seq<u8>, wts: u64, k2: Seq<u8>)
    requires
        wf_store(m),
        k2 != key,
    ensures
        read(purge_spec(m, key, wts), at_key(k2)) == read(m, at_key(k2)),
{
    crate::bytes::lemma_at_keys_distinct(k2, key);
    match read(m, at_key(key)) {
        Some(bytes) => {
            assert(m.contains_key(at_key(key)) && is_at(at_key(key)));
            let vs = parse_versions(bytes)->0;
            if has_wts(vs, wts) {
                assert(!purged_value_keys(vs, wts).contains(at_key(k2))) by {
                    if purged_value_keys(vs, wts).contains(at_key(k2)) {
                        let j = choose|j: int|
                            0 <= j < vs.len() && (#[trigger] vs[j]).0 == wts && at_key(k2)
                                == version_key(vs[j].1);
                        crate::bytes::lemma_version_key_shape(vs[j].1);
                        assert(at_key(k2)[0] == 64);
                    }
                }
            }
        },
        None => {},
    }
}

/// Whether the key's persisted version list carries a pair stamped `t`.
pub open spec fn list_has_stamp(m: Map<Seq<u8>, Seq<u8>>, k: Seq<u8>, t: u64) -> bool {
    match read(m, at_key(k)) {
        Some(bytes) => parse_versions(bytes) is Some && has_wts(parse_versions(bytes)->0, t),
        None => false,
    }
}

/// Whether the key's persisted version list carries this exact pair.
pub open spec fn list_has_pair(m: Map<Seq<u8>, Seq<u8>>, k: Seq<u8>, p: (u64, u64)) -> bool {
    match read(m, at_key(k)) {
        Some(bytes) => parse_versions(bytes) is Some && parse_versions(bytes)->0.contains(p),
        None => false,
    }
}

/// A transaction's stamp has been scrubbed from a key, relative to the
/// pre-recovery store: the key's list no longer carries the stamp, and the
/// version values the pre-recovery list linked under it are deleted.
pub open spec fn stamp_gone(
    pre: Map<Seq<u8>, Seq<u8>>,
    post: Map<Seq<u8>, Seq<u8>>,
    t: u64,
    k: Seq<u8>,
) -> bool {
    &&& !list_has_stamp(post, k, t)
    &&& forall|l: int|
        0 <= l < prior_list(pre, k).len() && (#[trigger] prior_list(pre, k)[l]).0 == t
            ==> !post.contains_key(version_key(prior_list(pre, k)[l].1))
}

/// A journal record of the pre-recovery store has been fully reversed:
/// every key its write set names has the stamp scrubbed.
pub open spec fn recovered_record(
    pre: Map<Seq<u8>, Seq<u8>>,
    post: Map<Seq<u8>, Seq<u8>>,
    t: u64,
) -> bool
    recommends
        pre.contains_key(bang_key(t)),
        parse_ws(pre[bang_key(t)]) is Some,
{
    let ws = parse_ws(pre[bang_key(t)])->0;
    forall|j: int| 0 <= j < ws.len() ==> stamp_gone(pre, post, t, #[trigger] ws[j])
}

/// Every key a journal record's write set names is clear of the stamp.
pub open spec fn bang_scrubbed(
    pre: Map<Seq<u8>, Seq<u8>>,
    cur: Map<Seq<u8>, Seq<u8>>,
    t: u64,
) -> bool
    recommends
        pre.contains_key(bang_key(t)),
        parse_ws(pre[bang_key(t)]) is Some,
{
    let ws = parse_ws(pre[bang_key(t)])->0;
    forall|j: int| 0 <= j < ws.len() ==> !list_has_stamp(cur, #[trigger] ws[j], t)
}

/// A pair with a different stamp survives the filter.
pub proof fn lemma_without_wts_keeps(vs: Seq<(u64, u64)>, wts: u64, p: (u64, u64))
    requires
        vs.contains(p),
        p.0 != wts,
    ensures
        without_wts(vs, wts).contains(p),
    decreases vs.len(),
{
    let w = without_wts(vs.drop_last(), wts);
    if vs.last() == p {
        assert(without_wts(vs, wts) == w.push(p));
        assert(w.push(p).last() == p);
        assert(w.push(p).contains(p));
    } else {
        let l = choose|l: int| 0 <= l < vs.len() && vs[l] == p;
        assert(vs.drop_last()[l] == p);
        assert(vs.drop_last().contains(p));
        lemma_without_wts_keeps(vs.drop_last(), wts, p);
        let l2 = choose|l2: int| 0 <= l2 < w.len() && w[l2] == p;
        if vs.last().0 == wts {
        } else {
            assert(w.push(vs.last())[l2] == p);
        }
    }
}

/// Filtering one stamp never introduces another.
pub proof fn lemma_without_wts_no_stamp(vs: Seq<(u64, u64)>, wts: u64, t: u64)
    requires
        !has_wts(vs, t),
    ensures
        !has_wts(without_wts(vs, wts), t),
{
    if has_wts(without_wts(vs, wts), t) {
        let l = choose|l: int|
            0 <= l < without_wts(vs, wts).len() && (#[trigger] without_wts(vs, wts)[l]).0 == t;
        lemma_without_wts_elems(vs, wts);
        let j = choose|j: int| 0 <= j < vs.len() && #[trigger] without_wts(vs, wts)[l] == vs[j];
        assert(vs[j].0 == t);
    }
}

/// A key already clear of a stamp stays clear through any purge.
pub proof fn lemma_purge_no_stamp_preserved(
    m: Map<Seq<u8>, Seq<u8>>,
    key: Seq<u8>,
    wts: u64,
    k2: Seq<u8>,
    t: u64,
)
    requires
        wf_store(m),
        !list_has_stamp(m, k2, t),
    ensures
        !list_has_stamp(purge_spec(m, key, wts), k2, t),
{
    let post = purge_spec(m, key, wts);
    if k2 != key {
        crate::bytes::lemma_at_keys_distinct(k2, key);
        lemma_purge_spec_frame_at(m, key, wts, k2);
    } else {
        match read(m, at_key(key)) {
            Some(bytes) => {
                assert(m.contains_key(at_key(key)) && is_at(at_key(key)));
                let vs = parse_versions(bytes)->0;
                if has_wts(vs, wts) {
                    let kept = without_wts(vs, wts);
                    if kept.len() == 0 {
                    } else {
                        lemma_without_wts_len(vs, wts);
                        crate::codec::lemma_parse_versions_canonical(bytes);
                        crate::codec::lemma_versions_round_trip(kept);
                        lemma_without_wts_no_stamp(vs, wts, t);
                    }
                }
            },
            None => {},
        }
    }
}

/// Once a pair has left its key's list only because its version value was
/// deleted, that stays true through any further purge.
pub open spec fn pair_tracked(
    pre: Map<Seq<u8>, Seq<u8>>,
    cur: Map<Seq<u8>, Seq<u8>>,
    k: Seq<u8>,
    l: int,
) -> bool
    recommends
        0 <= l < prior_list(pre, k).len(),
{
    let p = prior_list(pre, k)[l];
    list_has_pair(cur, k, p) || !cur.contains_key(version_key(p.1))
}

/// Purging keeps every pre-recovery pair tracked: a pair either still sits
/// in its list, or its version value is gone.
pub proof fn lemma_purge_pair_tracked(
    pre: Map<Seq<u8>, Seq<u8>>,
    cur: Map<Seq<u8>, Seq<u8>>,
    key: Seq<u8>,
    wts: u64,
    k2: Seq<u8>,
    l: int,
)
    requires
        wf_store(pre),
        wf_store(cur),
        0 <= l < prior_list(pre, k2).len(),
        pair_tracked(pre, cur, k2, l),
    ensures
        pair_tracked(pre, purge_spec(cur, key, wts), k2, l),
{
    let p = prior_list(pre, k2)[l];
    let post = purge_spec(cur, key, wts);
    assert(pre.contains_key(at_key(k2)) && is_at(at_key(k2)));
    assert(p.1 < TS_LIMIT) by {
        assert(parse_versions(pre[at_key(k2)]) is Some);
        assert((#[trigger] parse_versions(pre[at_key(k2)])->0[l]).1 < TS_LIMIT);
    }
    crate::bytes::lemma_version_key_shape(p.1);
    if !cur.contains_key(version_key(p.1)) {
        assert(!post.contains_key(version_key(p.1))) by {
            match read(cur, at_key(key)) {
                Some(bytes) => {
                    if parse_versions(bytes) is Some && has_wts(parse_versions(bytes)->0, wts) {
                        assert(version_key(p.1) != at_key(key));
                    }
                },
                None => {},
            }
        }
    } else if list_has_pair(cur, k2, p) {
        if k2 != key {
            crate::bytes::lemma_at_keys_distinct(k2, key);
            lemma_purge_spec_frame_at(cur, key, wts, k2);
        } else {
            let bytes = read(cur, at_key(key))->0;
            let vs = parse_versions(bytes)->0;
            assert(cur.contains_key(at_key(key)) && is_at(at_key(key)));
            if has_wts(vs, wts) {
                if p.0 == wts {
                    assert(purged_value_keys(vs, wts).contains(version_key(p.1))) by {
                        let j = choose|j: int| 0 <= j < vs.len() && vs[j] == p;
                        assert(vs[j].0 == wts && version_key(p.1) == version_key(vs[j].1));
                    }
                    assert(!post.contains_key(version_key(p.1)));
                } else {
                    lemma_without_wts_keeps(vs, wts, p);
                    let kept = without_wts(vs, wts);
                    assert(kept.len() > 0) by {
                        let l2 = choose|l2: int| 0 <= l2 < kept.len() && kept[l2] == p;
                    }
                    lemma_without_wts_len(vs, wts);
                    crate::codec::lemma_parse_versions_canonical(bytes);
                    crate::codec::lemma_versions_round_trip(kept);
                    assert(list_has_pair(post, k2, p));
                }
            }
        }
    }
}

/// The version list a key's `@`-record decodes to, or the empty one.
pub open spec fn prior_list(m: Map<Seq<u8>, Seq<u8>>, key: Seq<u8>) -> Seq<(u64, u64)> {
    match read(m, at_key(key)) {
        Some(bytes) => parse_versions(bytes)->0,
        None => Seq::empty(),
    }
}

/// Every chain in the index keeps its pending record, if any, at the tail.
pub open spec fn settled_tails(cm: Map<Seq<u8>, Seq<MemRecord>>) -> bool {
    forall|k: Seq<u8>|
        cm.contains_key(k) ==> crate::mvcc::pending_only_at_tail(#[trigger] cm[k])
}

/// A materialized chain holds no pending record at all: its slots are
/// committed versions, or the committed floor.
pub proof fn lemma_materialized_settled(m: Map<Seq<u8>, Seq<u8>>, k: Seq<u8>)
    ensures
        crate::mvcc::pending_only_at_tail(materialized_chain(m, k)),
{
    let mk = materialized_chain(m, k);
    assert forall|i: int|
        0 <= i < mk.len() && (#[trigger] mk[i]).status is Pending implies i == mk.len() - 1 by {
        match read(m, at_key(k)) {
            Some(bytes) => {
                assert(mk[i] == committed_record(sort_by_wts(parse_versions(bytes)->0)[i]));
            },
            None => {},
        }
    }
}

/// A chain materialized from a fresh store is fresh: every stamp and
/// version handle in it sits below the counter.
pub proof fn lemma_materialized_fresh(m: Map<Seq<u8>, Seq<u8>>, k: Seq<u8>, c: u64)
    requires
        wf_store(m),
        fresh_versions(m, c),
        c >= 1,
    ensures
        fresh_chain(materialized_chain(m, k), c),
{
    let mk = materialized_chain(m, k);
    match read(m, at_key(k)) {
        Some(bytes) => {
            let vs0 = parse_versions(bytes)->0;
            assert(m.contains_key(at_key(k)) && is_at(at_key(k)));
            assert(fresh_list(vs0, c));
            lemma_sort_elems(vs0);
            assert forall|l: int| 0 <= l < mk.len() implies (#[trigger] mk[l]).wts < c && (
            mk[l].data matches Some(v) ==> v < c) by {
                assert(mk[l] == committed_record(sort_by_wts(vs0)[l]));
                let j = choose|j: int| 0 <= j < vs0.len() && #[trigger] sort_by_wts(vs0)[l] == vs0[j];
                assert(vs0[j].0 < c && vs0[j].1 < c);
            }
        },
        None => {},
    }
}

/// Inserting a record that itself meets the store invariant preserves it.
pub proof fn lemma_wf_store_insert(m: Map<Seq<u8>, Seq<u8>>, k: Seq<u8>, v: Seq<u8>)
    requires
        wf_store(m),
        is_at(k) ==> parse_versions(v) is Some && parse_versions(v)->0.len() > 0 && (forall|j: int|
            0 <= j < parse_versions(v)->0.len() ==> (#[trigger] parse_versions(v)->0[j]).1
                < TS_LIMIT),
        is_bang(k) ==> k.len() == 9 && parse_ws(v) is Some,
        k == ts_persist_key() ==> v.len() == 8,
    ensures
        wf_store(m.insert(k, v)),
{
    let m1 = m.insert(k, v);
    assert forall|q: Seq<u8>| m1.contains_key(q) && is_at(q) implies {
        &&& (#[trigger] parse_versions(m1[q])) is Some
        &&& parse_versions(m1[q])->0.len() > 0
        &&& forall|j: int|
            0 <= j < parse_versions(m1[q])->0.len() ==> (#[trigger] parse_versions(m1[q])->0[j]).1
                < TS_LIMIT
    } by {
        if q != k {
            assert(m.contains_key(q) && m1[q] == m[q]);
        }
    }
    assert forall|q: Seq<u8>| m1.contains_key(q) && is_bang(q) implies q.len() == 9 && (
    #[trigger] parse_ws(m1[q])) is Some by {
        if q != k {
            assert(m.contains_key(q) && m1[q] == m[q]);
        }
    }
}

/// Removing keys never breaks the store invariant.
pub proof fn lemma_wf_store_remove(m: Map<Seq<u8>, Seq<u8>>, k: Seq<u8>)
    requires
        wf_store(m),
    ensures
        wf_store(m.remove(k)),
{
    let m1 = m.remove(k);
    assert forall|q: Seq<u8>| m1.contains_key(q) && is_at(q) implies {
        &&& (#[trigger] parse_versions(m1[q])) is Some
        &&& parse_versions(m1[q])->0.len() > 0
        &&& forall|j: int|
            0 <= j < parse_versions(m1[q])->0.len() ==> (#[trigger] parse_versions(m1[q])->0[j]).1
                < TS_LIMIT
    } by {
        assert(m.contains_key(q) && m1[q] == m[q]);
    }
    assert forall|q: Seq<u8>| m1.contains_key(q) && is_bang(q) implies q.len() == 9 && (
    #[trigger] parse_ws(m1[q])) is Some by {
        assert(m.contains_key(q) && m1[q] == m[q]);
    }
}

/// The engine handle.
pub struct Db {
    tree: Store,
    ts: u64,
    mvcc: Mvcc,
}

/// The chain index of `b` is the chain index of `a`, entry for entry.
pub open spec fn same_chains(a: Db, b: Db) -> bool {
    &&& b.chains_view() == a.chains_view()
    &&& b.chain_count() == a.chain_count()
    &&& forall|j: int|
        0 <= j < a.chain_count() ==> #[trigger] b.chain_key_at(j) == a.chain_key_at(j)
            && b.chain_at_spec(j) == a.chain_at_spec(j)
}

impl Db {
    /// Store view.
    pub closed spec fn store_view(self) -> Map<Seq<u8>, Seq<u8>> {
        self.tree@
    }

    /// Oracle counter.
    pub closed spec fn ts_counter(self) -> u64 {
        self.ts
    }

    /// Chain index view.
    pub closed spec fn chains_view(self) -> Map<Seq<u8>, Seq<MemRecord>> {
        self.mvcc@
    }

    /// Number of chains in the index.
    pub closed spec fn chain_count(self) -> nat {
        self.mvcc.count()
    }

    /// Key of the chain at an index position.
    pub closed spec fn chain_key_at(self, i: int) -> Seq<u8> {
        self.mvcc.key_at(i)
    }

    /// Records of the chain at an index position.
    pub closed spec fn chain_at_spec(self, i: int) -> Seq<MemRecord> {
        self.mvcc.chain_seq_at(i)
    }

    /// The handle is internally consistent: the store decodes, the counter
    /// sits inside its window, and nothing anywhere is stamped at or above
    /// the counter.
    pub closed spec fn wf(self) -> bool {
        &&& self.tree.wf()
        &&& wf_store(self.tree@)
        &&& self.mvcc.wf()
        &&& TS_SAFETY_BUFFER <= self.ts <= TS_LIMIT
        &&& fresh_versions(self.tree@, self.ts)
        &&& fresh_chains(self.mvcc@, self.ts)
        &&& settled_tails(self.mvcc@)
    }

    /// What internal consistency guarantees to every caller.
    pub proof fn lemma_wf(self)
        requires
            self.wf(),
        ensures
            TS_SAFETY_BUFFER <= self.ts_counter() <= TS_LIMIT,
            wf_store(self.store_view()),
            fresh_versions(self.store_view(), self.ts_counter()),
            fresh_chains(self.chains_view(), self.ts_counter()),
            settled_tails(self.chains_view()),
    {
    }

    /// Bump the oracle and hand out the base timestamp for a transaction
    /// with `n` writes; once per safety window the checkpoint is moved
    /// forward durably.
    pub fn ts(&mut self, n: usize) -> (r: u64)
        requires
            old(self).wf(),
            old(self).ts_counter() + alloc_step(n) + TS_SAFETY_BUFFER <= TS_LIMIT,
        ensures
            final(self).wf(),
            r == old(self).ts_counter(),
            final(self).ts_counter() == alloc_next(old(self).ts_counter(), n),
            final(self).chains_view() == old(self).chains_view(),
            final(self).chain_count() == old(self).chain_count(),
            forall|j: int|
                0 <= j < old(self).chain_count() ==> final(self).chain_key_at(j) == old(
                    self,
                ).chain_key_at(j) && final(self).chain_at_spec(j) == old(self).chain_at_spec(j),
            !boost_applies(old(self).ts_counter(), n) ==> final(self).store_view() == old(
                self,
            ).store_view(),
            boost_applies(old(self).ts_counter(), n) ==> final(self).store_view() == (if read(
                old(self).store_view(),
                ts_persist_key(),
            ) == Some(
                u64_be(((old(self).ts_counter() / TS_SAFETY_BUFFER) * TS_SAFETY_BUFFER) as u64),
            ) {
                old(self).store_view().insert(
                    ts_persist_key(),
                    u64_be(alloc_next(old(self).ts_counter(), n)),
                )
            } else {
                old(self).store_view()
            }),
            forall|k: Seq<u8>|
                k != ts_persist_key() ==> read(final(self).store_view(), k) == read(
                    old(self).store_view(),
                    k,
                ),
            final(self).store_view() == alloc_store(
                old(self).store_view(),
                old(self).ts_counter(),
                n,
            ),
    {
        proof {
            lemma_alloc_next_advances(self.ts, n);
        }
        let step: u64 = if n == 0 {
            1
        } else {
            n as u64
        };
        let ret = self.ts;
        self.ts = self.ts + step;
        if ret % TS_SAFETY_BUFFER > TS_SAFETY_BUFFER / 4 * 3 {
            proof {
                assert(TS_SAFETY_BUFFER / 4 * 3 == TS_SAFETY_BUFFER * 3 / 4);
            }
            let last = ret / TS_SAFETY_BUFFER * TS_SAFETY_BUFFER;
            let next = (ret / TS_SAFETY_BUFFER + 1) * TS_SAFETY_BUFFER;
            proof {
                let b = TS_SAFETY_BUFFER;
                assert(ret % b < b && ret / b * b + ret % b == ret && (ret / b + 1) * b == ret / b
                    * b + b) by (nonlinear_arith)
                    requires
                        b > 0,
                ;
            }
            if n >= 1 && self.ts == ret + (n as u64) && next > self.ts {
                self.ts = next;
                let persist_key = crate::bytes::persist_key_bytes();
                let last_bytes = crate::bytes::ts_to_bytes(last);
                let next_bytes = crate::bytes::ts_to_bytes(next);
                let _ = self.tree.cas(persist_key, Some(last_bytes), Some(next_bytes));
            }
        }
        proof {
            if boost_applies(ret, n) {
                assert(alloc_next(ret, n) == (ret / TS_SAFETY_BUFFER + 1) * TS_SAFETY_BUFFER);
            } else {
                assert(alloc_next(ret, n) == ret + step);
            }
        }
        ret
    }

    /// Number of entries the store currently holds.
    pub closed spec fn store_entries(self) -> nat {
        self.tree.entry_count()
    }

    /// Journal a transaction's write-set key list under its `!`-key.
    #[verifier::rlimit(100)]
    pub fn put_writeset(&mut self, base_ts: u64, keys: &Vec<Vec<u8>>)
        requires
            old(self).wf(),
        ensures
            final(self).wf(),
            final(self).ts_counter() == old(self).ts_counter(),
            same_chains(*old(self), *final(self)),
            final(self).store_view() == old(self).store_view().insert(
                bang_key(base_ts),
                crate::codec::ws_bytes(keys.deep_view()),
            ),
    {
        let wk = crate::bytes::writeset_key(base_ts);
        let bytes = crate::codec::encode_ws(keys);
        proof {
            lemma_vec_writeset_encodable(keys);
            lemma_wf_store_put_ws(old(self).store_view(), base_ts, keys.deep_view());
        }
        self.tree.set(wk, bytes);
    }

    /// Delete a transaction's `!`-journal record; the commit point.
    pub fn del_writeset(&mut self, base_ts: u64)
        requires
            old(self).wf(),
        ensures
            final(self).wf(),
            final(self).ts_counter() == old(self).ts_counter(),
            same_chains(*old(self), *final(self)),
            final(self).store_view() == old(self).store_view().remove(bang_key(base_ts)),
    {
        let wk = crate::bytes::writeset_key(base_ts);
        self.tree.del(&wk);
    }

    /// Persist the value bytes of one version under its 8-byte key.
    pub fn put_version_value(&mut self, version: u64, value: &Vec<u8>)
        requires
            old(self).wf(),
            version < TS_LIMIT,
        ensures
            final(self).wf(),
            final(self).ts_counter() == old(self).ts_counter(),
            same_chains(*old(self), *final(self)),
            final(self).store_view() == old(self).store_view().insert(
                version_key(version),
                value@,
            ),
    {
        let vk = crate::bytes::ts_to_bytes(version);
        let v = crate::store::clone_bytes(value);
        proof {
            assert((version >> 56) & 0xff == 0) by (bit_vector)
                requires
                    version < 0x100000000000000u64,
            ;
            assert(version_key(version)[0] == 0);
        }
        proof {
            lemma_wf_store_insert(old(self).store_view(), version_key(version), value@);
        }
        self.tree.set(vk, v);
    }

    /// Read back the value bytes of one version.
    pub fn get_version_value(&self, version: u64) -> (r: Option<Vec<u8>>)
        requires
            self.wf(),
        ensures
            crate::store::opt_bytes(r) == read(self.store_view(), version_key(version)),
    {
        let vk = crate::bytes::ts_to_bytes(version);
        match self.tree.get(&vk) {
            Some(v) => Some(crate::store::clone_bytes(v)),
            None => None,
        }
    }

    /// Append `(ts, version)` to a key's version list with a compare-and-set
    /// against the list that was just read.
    pub fn add_version_to_key(&mut self, key: &Vec<u8>, ts: u64, version: u64) -> (r: TxResult<()>)
        requires
            old(self).wf(),
            ts < old(self).ts_counter(),
            version < old(self).ts_counter(),
        ensures
            final(self).wf(),
            r == Ok::<(), Error>(()),
            final(self).ts_counter() == old(self).ts_counter(),
            same_chains(*old(self), *final(self)),
            final(self).store_view() == add_version_spec(old(self).store_view(), key@, ts, version),
    {
        let padded = crate::bytes::key_safety_pad(key);
        let mut expected: Option<Vec<u8>> = None;
        let mut prior: Vec<(u64, u64)> = Vec::new();
        match self.tree.get(&padded) {
            Some(bytes) => {
                expected = Some(crate::store::clone_bytes(bytes));
                match crate::codec::decode_versions(bytes.as_slice()) {
                    Some(v) => {
                        prior = v;
                    },
                    None => {
                        proof {
                            assert(is_at(padded@));
                            assert(false);
                        }
                    },
                }
            },
            None => {},
        }
        prior.push((ts, version));
        let ghost prior_seq = prior@;
        let new_bytes = crate::codec::encode_versions(&prior);
        proof {
            vstd::std_specs::vec::axiom_spec_len(&prior);
            crate::codec::lemma_versions_round_trip(prior_seq);
        }
        proof {
            let m0 = old(self).store_view();
            let c = old(self).ts_counter();
            assert forall|j: int| 0 <= j < prior_seq.len() implies (#[trigger] prior_seq[j]).1
                < TS_LIMIT && prior_seq[j].0 < c && prior_seq[j].1 < c by {
                if j < prior_seq.len() - 1 {
                    assert(m0.contains_key(at_key(key@)) && is_at(at_key(key@)));
                    assert(fresh_list(parse_versions(m0[at_key(key@)])->0, c));
                }
            }
            lemma_wf_store_insert(m0, at_key(key@), versions_bytes(prior_seq));
            lemma_fresh_versions_insert(m0, c, at_key(key@), versions_bytes(prior_seq));
        }
        let r = self.tree.cas(padded, expected, Some(new_bytes));
        proof {
            assert(r is Ok);
        }
        match r {
            Ok(_) => Ok(()),
            Err(_) => vstd::pervasive::unreached(),
        }
    }

    /// Drop every `(wts, _)` pair from a key's version list and delete the
    /// matching version-value keys, compare-and-setting the list.
    pub fn purge_version_from_key(&mut self, key: &Vec<u8>, wts: u64) -> (r: TxResult<()>)
        requires
            old(self).wf(),
        ensures
            final(self).wf(),
            r == Ok::<(), Error>(()),
            final(self).ts_counter() == old(self).ts_counter(),
            same_chains(*old(self), *final(self)),
            final(self).store_view() == purge_spec(old(self).store_view(), key@, wts),
            final(self).store_entries() <= old(self).store_entries(),
    {
        let ghost m0 = old(self).store_view();
        let padded = crate::bytes::key_safety_pad(key);
        let value: Vec<u8> = match self.tree.get(&padded) {
            Some(b) => crate::store::clone_bytes(b),
            None => {
                return Ok(());
            },
        };
        let vs: Vec<(u64, u64)> = match crate::codec::decode_versions(value.as_slice()) {
            Some(v) => v,
            None => {
                proof {
                    assert(is_at(padded@));
                    assert(false);
                }
                vstd::pervasive::unreached()
            },
        };
        let ghost vseq = vs@;
        proof {
            assert(vseq.take(0) =~= Seq::<(u64, u64)>::empty());
            assert(purged_value_keys(vseq.take(0), wts) =~= Set::<Seq<u8>>::empty());
            assert(m0.remove_keys(purged_value_keys(vseq.take(0), wts)) =~= m0);
        }
        let mut pruned = false;
        let mut i: usize = 0;
        while i < vs.len()
            invariant
                old(self).wf(),
                m0 == old(self).store_view(),
                self.ts == old(self).ts_counter(),
                self.mvcc == old(self).mvcc,
                i <= vseq.len(),
                vs@ == vseq,
                read(m0, at_key(key@)) == Some(value@),
                parse_versions(value@) == Some(vseq),
                forall|j: int| 0 <= j < vseq.len() ==> (#[trigger] vseq[j]).1 < TS_LIMIT,
                self.tree.wf(),
                wf_store(self.tree@),
                fresh_versions(self.tree@, old(self).ts_counter()),
                self.tree@ == m0.remove_keys(purged_value_keys(vseq.take(i as int), wts)),
                self.tree.entry_count() <= old(self).store_entries(),
                pruned <==> has_wts(vseq.take(i as int), wts),
            decreases vseq.len() - i,
        {
            let (t, v) = vs[i];
            proof {
                assert(vseq.take(i + 1).drop_last() =~= vseq.take(i as int));
                assert(vseq.take(i + 1).last() == vseq[i as int]);
            }
            if t == wts {
                let vk = crate::bytes::ts_to_bytes(v);
                proof {
                    let s0 = purged_value_keys(vseq.take(i as int), wts);
                    let s1 = purged_value_keys(vseq.take(i + 1), wts);
                    assert forall|k: Seq<u8>| s1.contains(k) implies s0.insert(
                        version_key(v),
                    ).contains(k) by {
                        let j = choose|j: int|
                            0 <= j < vseq.take(i + 1).len() && (#[trigger] vseq.take(i + 1)[j]).0
                                == wts && k == version_key(vseq.take(i + 1)[j].1);
                        if j < i {
                            assert(vseq.take(i as int)[j] == vseq[j]);
                            assert(s0.contains(k));
                        }
                    }
                    assert forall|k: Seq<u8>| s0.insert(version_key(v)).contains(k) implies
                        s1.contains(k) by {
                        if s0.contains(k) {
                            let j = choose|j: int|
                                0 <= j < vseq.take(i as int).len() && (#[trigger] vseq.take(
                                    i as int,
                                )[j]).0 == wts && k == version_key(vseq.take(i as int)[j].1);
                            assert(vseq.take(i + 1)[j] == vseq[j]);
                        } else {
                            assert(vseq.take(i + 1)[i as int] == vseq[i as int]);
                        }
                    }
                    assert(s1 =~= s0.insert(version_key(v)));
                    assert(m0.remove_keys(s1) =~= m0.remove_keys(s0).remove(version_key(v)));
                    lemma_wf_store_remove(self.tree@, version_key(v));
                    lemma_fresh_versions_remove(self.tree@, old(self).ts_counter(), version_key(v));
                }
                self.tree.del(&vk);
                pruned = true;
                proof {
                    assert(has_wts(vseq.take(i + 1), wts)) by {
                        assert(vseq.take(i + 1)[i as int].0 == wts);
                    }
                }
            } else {
                proof {
                    let s0 = purged_value_keys(vseq.take(i as int), wts);
                    let s1 = purged_value_keys(vseq.take(i + 1), wts);
                    assert forall|k: Seq<u8>| s1.contains(k) implies s0.contains(k) by {
                        let j = choose|j: int|
                            0 <= j < vseq.take(i + 1).len() && (#[trigger] vseq.take(i + 1)[j]).0
                                == wts && k == version_key(vseq.take(i + 1)[j].1);
                        assert(j != i);
                        assert(vseq.take(i as int)[j] == vseq[j]);
                    }
                    assert forall|k: Seq<u8>| s0.contains(k) implies s1.contains(k) by {
                        let j = choose|j: int|
                            0 <= j < vseq.take(i as int).len() && (#[trigger] vseq.take(
                                i as int,
                            )[j]).0 == wts && k == version_key(vseq.take(i as int)[j].1);
                        assert(vseq.take(i + 1)[j] == vseq[j]);
                    }
                    assert(s1 =~= s0);
                    if has_wts(vseq.take(i + 1), wts) {
                        let j = choose|j: int|
                            0 <= j < vseq.take(i + 1).len() && (#[trigger] vseq.take(i + 1)[j]).0
                                == wts;
                        assert(j != i);
                        assert(vseq.take(i as int)[j] == vseq[j]);
                        assert(has_wts(vseq.take(i as int), wts));
                    }
                }
            }
            i += 1;
        }
        proof {
            assert(vseq.take(vseq.len() as int) =~= vseq);
        }
        if pruned {
            let mut kept: Vec<(u64, u64)> = Vec::new();
            let mut j: usize = 0;
            proof {
                assert(without_wts(vseq.take(0), wts) =~= Seq::<(u64, u64)>::empty());
                assert(m0.contains_key(at_key(key@)) && is_at(at_key(key@)));
                assert(fresh_list(parse_versions(m0[at_key(key@)])->0, old(self).ts_counter()));
            }
            while j < vs.len()
                invariant
                    j <= vseq.len(),
                    vs@ == vseq,
                    forall|l: int| 0 <= l < vseq.len() ==> (#[trigger] vseq[l]).1 < TS_LIMIT,
                    fresh_list(vseq, old(self).ts_counter()),
                    kept@ == without_wts(vseq.take(j as int), wts),
                    forall|l: int| 0 <= l < kept@.len() ==> (#[trigger] kept@[l]).1 < TS_LIMIT,
                    fresh_list(kept@, old(self).ts_counter()),
                decreases vseq.len() - j,
            {
                proof {
                    assert(vseq.take(j + 1).drop_last() =~= vseq.take(j as int));
                    assert(vseq.take(j + 1).last() == vseq[j as int]);
                }
                if vs[j].0 != wts {
                    kept.push(vs[j]);
                }
                j += 1;
            }
            proof {
                assert(vseq.take(vseq.len() as int) =~= vseq);
            }
            let new_v: Option<Vec<u8>> = if kept.len() == 0 {
                None
            } else {
                let ghost kseq = kept@;
                let enc = crate::codec::encode_versions(&kept);
                proof {
                    vstd::std_specs::vec::axiom_spec_len(&kept);
                    crate::codec::lemma_versions_round_trip(kseq);
                    lemma_wf_store_put_versions(self.tree@, key@, kseq);
                    lemma_fresh_versions_insert(
                        self.tree@,
                        old(self).ts_counter(),
                        at_key(key@),
                        versions_bytes(kseq),
                    );
                }
                Some(enc)
            };
            proof {
                if kept@.len() == 0 {
                    lemma_wf_store_remove(self.tree@, at_key(key@));
                    lemma_fresh_versions_remove(self.tree@, old(self).ts_counter(), at_key(key@));
                }
                assert(read(self.tree@, padded@) == read(m0, padded@)) by {
                    if purged_value_keys(vseq, wts).contains(padded@) {
                        let j = choose|j: int|
                            0 <= j < vseq.len() && (#[trigger] vseq[j]).0 == wts && padded@
                                == version_key(vseq[j].1);
                        let v = vseq[j].1;
                        assert((v >> 56) & 0xff == 0) by (bit_vector)
                            requires
                                v < 0x100000000000000u64,
                        ;
                        assert(version_key(v)[0] == 0);
                        assert(padded@[0] == 64);
                        assert(false);
                    }
                }
            }
            let r = self.tree.cas(padded, Some(value), new_v);
            proof {
                assert(r is Ok);
            }
            match r {
                Ok(_) => Ok(()),
                Err(_) => vstd::pervasive::unreached(),
            }
        } else {
            proof {
                assert(purged_value_keys(vseq, wts) =~= Set::<Seq<u8>>::empty());
                assert(m0.remove_keys(purged_value_keys(vseq, wts)) =~= m0);
            }
            Ok(())
        }
    }

    /// Open the engine over a store: read the durable timestamp checkpoint,
    /// jump the counter past the safety window, persist the new checkpoint,
    /// and reverse every unfinished transaction's journal record.
    pub fn start(tree: Store) -> (r: Db)
        requires
            tree.wf(),
            wf_store(tree@),
            stored_ts(tree@) + TS_SAFETY_BUFFER <= TS_LIMIT,
            fresh_versions(tree@, (stored_ts(tree@) + TS_SAFETY_BUFFER) as u64),
        ensures
            r.wf(),
            r.ts_counter() == stored_ts(tree@) + TS_SAFETY_BUFFER,
            r.chains_view() == Map::<Seq<u8>, Seq<MemRecord>>::empty(),
            r.chain_count() == 0,
            no_bang(r.store_view()),
            no_bang(tree@) ==> r.store_view() == tree@.insert(
                ts_persist_key(),
                u64_be((stored_ts(tree@) + TS_SAFETY_BUFFER) as u64),
            ),
            forall|t: u64| #[trigger]
                tree@.contains_key(bang_key(t)) ==> recovered_record(tree@, r.store_view(), t),
    {
        let ghost m0 = tree@;
        let mut tree = tree;
        let pk = crate::bytes::persist_key_bytes();
        let last_ts: u64 = match tree.get(&pk) {
            Some(b) => {
                proof {
                    assert(b@.subrange(0, 8) =~= b@);
                }
                crate::bytes::bytes_to_ts(b.as_slice())
            },
            None => 0,
        };
        let bumped = last_ts + TS_SAFETY_BUFFER;
        let bumped_bytes = crate::bytes::ts_to_bytes(bumped);
        proof {
            assert(!is_at(ts_persist_key()) && !is_bang(ts_persist_key()));
            lemma_wf_store_insert(m0, ts_persist_key(), u64_be(bumped));
            lemma_fresh_versions_insert(m0, bumped, ts_persist_key(), u64_be(bumped));
        }
        tree.set(pk, bumped_bytes);
        let mut db = Db { tree, ts: bumped, mvcc: Mvcc::default() };
        proof {
            assert(fresh_chains(db.chains_view(), bumped)) by {
                assert(forall|k: Seq<u8>| !db.chains_view().contains_key(k));
            }
        }
        proof {
            if no_bang(m0) {
                assert forall|k: Seq<u8>| db.store_view().contains_key(k) implies !is_bang(k) by {
                    if k != ts_persist_key() {
                        assert(m0.contains_key(k));
                    }
                }
            }
        }
        let ghost m1 = db.store_view();
        db.recover();
        proof {
            assert forall|t: u64| #[trigger]
                m0.contains_key(bang_key(t)) implies recovered_record(m0, db.store_view(), t) by {
                assert(bang_key(t).len() == 9);
                assert(bang_key(t) != ts_persist_key());
                assert(m1.contains_key(bang_key(t)) && m1[bang_key(t)] == m0[bang_key(t)]);
                assert(recovered_record(m1, db.store_view(), t));
                let ws = parse_ws(m0[bang_key(t)])->0;
                assert forall|j: int| 0 <= j < ws.len() implies stamp_gone(
                    m0,
                    db.store_view(),
                    t,
                    #[trigger] ws[j],
                ) by {
                    assert(stamp_gone(m1, db.store_view(), t, ws[j]));
                    assert(at_key(ws[j])[0] == 64 && ts_persist_key()[0] == 116);
                    assert(read(m1, at_key(ws[j])) == read(m0, at_key(ws[j])));
                    assert(prior_list(m1, ws[j]) == prior_list(m0, ws[j]));
                }
            }
        }
        db
    }

    /// Scan for pending write-set journal records and reverse each one:
    /// purge its versions from every key it names, then drop the record.
    /// A store without journal records is left untouched.
    pub fn recover(&mut self)
        requires
            old(self).wf(),
        ensures
            final(self).wf(),
            final(self).ts_counter() == old(self).ts_counter(),
            same_chains(*old(self), *final(self)),
            no_bang(final(self).store_view()),
            no_bang(old(self).store_view()) ==> final(self).store_view() == old(self).store_view(),
            recover_rel(old(self).store_view(), final(self).store_view()),
            forall|t: u64| #[trigger]
                old(self).store_view().contains_key(bang_key(t)) ==> recovered_record(
                    old(self).store_view(),
                    final(self).store_view(),
                    t,
                ),
    {
        let ghost m_old = old(self).store_view();
        proof {
            assert forall|k2: Seq<u8>, l: int|
                0 <= l < prior_list(m_old, k2).len() implies pair_tracked(
                m_old,
                self.store_view(),
                k2,
                l,
            ) by {
                let p = prior_list(m_old, k2)[l];
                assert(read(m_old, at_key(k2)) is Some);
                assert(m_old.contains_key(at_key(k2)) && is_at(at_key(k2)));
                assert(parse_versions(m_old[at_key(k2)]) is Some);
                assert(parse_versions(m_old[at_key(k2)])->0[l] == p);
                assert(parse_versions(m_old[at_key(k2)])->0.contains(p));
            }
        }
        loop
            invariant
                old(self).wf(),
                m_old == old(self).store_view(),
                self.wf(),
                self.ts_counter() == old(self).ts_counter(),
                same_chains(*old(self), *self),
                no_bang(m_old) ==> self.store_view() == m_old,
                forall|t: u64| #[trigger]
                    self.store_view().contains_key(bang_key(t)) ==> m_old.contains_key(bang_key(t))
                        && self.store_view()[bang_key(t)] == m_old[bang_key(t)],
                forall|t: u64|
                    #[trigger] m_old.contains_key(bang_key(t))
                        && !self.store_view().contains_key(bang_key(t)) ==> bang_scrubbed(
                        m_old,
                        self.store_view(),
                        t,
                    ),
                forall|k2: Seq<u8>, l: int|
                    0 <= l < prior_list(m_old, k2).len() ==> #[trigger] pair_tracked(
                        m_old,
                        self.store_view(),
                        k2,
                        l,
                    ),
            ensures
                self.wf(),
                self.ts_counter() == old(self).ts_counter(),
                same_chains(*old(self), *self),
                no_bang(m_old) ==> self.store_view() == m_old,
                no_bang(self.store_view()),
                forall|t: u64| #[trigger]
                    m_old.contains_key(bang_key(t)) ==> recovered_record(
                        m_old,
                        self.store_view(),
                        t,
                    ),
            decreases self.store_entries(),
        {
            let ghost entries0 = self.store_entries();
            let found = self.tree.first_key_with_prefix(33u8);
            match found {
                None => {
                    proof {
                        assert forall|k: Seq<u8>| self.store_view().contains_key(k) implies !is_bang(
                            k,
                        ) by {}
                        assert forall|t: u64| #[trigger]
                            m_old.contains_key(bang_key(t)) implies recovered_record(
                            m_old,
                            self.store_view(),
                            t,
                        ) by {
                            let cur = self.store_view();
                            assert(!cur.contains_key(bang_key(t))) by {
                                assert(is_bang(bang_key(t)));
                            }
                            assert(bang_scrubbed(m_old, cur, t));
                            let ws = parse_ws(m_old[bang_key(t)])->0;
                            assert forall|j: int| 0 <= j < ws.len() implies stamp_gone(
                                m_old,
                                cur,
                                t,
                                #[trigger] ws[j],
                            ) by {
                                assert(!list_has_stamp(cur, ws[j], t));
                                assert forall|l: int|
                                    0 <= l < prior_list(m_old, ws[j]).len() && (
                                #[trigger] prior_list(m_old, ws[j])[l]).0 == t implies
                                    !cur.contains_key(version_key(
                                    prior_list(m_old, ws[j])[l].1,
                                )) by {
                                    let p = prior_list(m_old, ws[j])[l];
                                    assert(pair_tracked(m_old, cur, ws[j], l));
                                    if list_has_pair(cur, ws[j], p) {
                                        let bytes = read(cur, at_key(ws[j]))->0;
                                        let vs = parse_versions(bytes)->0;
                                        let l2 = choose|l2: int|
                                            0 <= l2 < vs.len() && vs[l2] == p;
                                        assert((#[trigger] vs[l2]).0 == t);
                                        assert(has_wts(vs, t));
                                        assert(false);
                                    }
                                }
                            }
                        }
                    }
                    break ;
                },
                Some((wk, wbytes)) => {
                    proof {
                        assert(is_bang(wk@));
                        if no_bang(m_old) {
                            assert(m_old.contains_key(wk@)) by {
                                assert(self.store_view() == m_old);
                            }
                            assert(false);
                        }
                        assert(parse_ws(self.store_view()[wk@]) is Some && wk@.len() == 9);
                        assert(parse_ws(wbytes@) is Some);
                    }
                    let wts = crate::bytes::bytes_to_ts(&wk.as_slice()[1..9]);
                    proof {
                        let tail = wk@.subrange(1, 9);
                        assert(wk@.subrange(1, 9).subrange(0, 8) =~= tail);
                        crate::bytes::lemma_u64_of_be_round_trip(tail);
                        assert(bang_key(wts) =~= wk@);
                        assert(m_old.contains_key(bang_key(wts)) && m_old[bang_key(wts)]
                            == wbytes@);
                    }
                    let ws: Vec<Vec<u8>> = match crate::codec::decode_ws(wbytes.as_slice()) {
                        Some(w) => w,
                        None => {
                            proof {
                                assert(false);
                            }
                            vstd::pervasive::unreached()
                        },
                    };
                    let ghost wsd = ws.deep_view();
                    proof {
                        crate::codec::lemma_keys_deep_view(ws);
                        assert(wsd == parse_ws(m_old[bang_key(wts)])->0);
                    }
                    let ghost mid = *self;
                    let mut idx: usize = 0;
                    while idx < ws.len()
                        invariant
                            old(self).wf(),
                            m_old == old(self).store_view(),
                            idx <= ws@.len(),
                            wsd == ws.deep_view(),
                            wsd.len() == ws@.len(),
                            forall|j: int| 0 <= j < ws@.len() ==> #[trigger] ws@[j]@ == wsd[j],
                            self.wf(),
                            self.ts_counter() == mid.ts_counter(),
                            same_chains(mid, *self),
                            self.store_entries() <= mid.store_entries(),
                            read(self.store_view(), wk@) == read(mid.store_view(), wk@),
                            wk@.len() == 9,
                            wk@[0] == 33,
                            wk@ == bang_key(wts),
                            forall|t: u64| #[trigger]
                                self.store_view().contains_key(bang_key(t)) ==> m_old.contains_key(
                                    bang_key(t),
                                ) && self.store_view()[bang_key(t)] == m_old[bang_key(t)],
                            forall|t: u64|
                                #[trigger] m_old.contains_key(bang_key(t))
                                    && !self.store_view().contains_key(bang_key(t))
                                    ==> bang_scrubbed(m_old, self.store_view(), t),
                            forall|k2: Seq<u8>, l: int|
                                0 <= l < prior_list(m_old, k2).len() ==> #[trigger] pair_tracked(
                                    m_old,
                                    self.store_view(),
                                    k2,
                                    l,
                                ),
                            forall|j2: int|
                                0 <= j2 < idx ==> !list_has_stamp(
                                    self.store_view(),
                                    #[trigger] wsd[j2],
                                    wts,
                                ),
                        decreases ws@.len() - idx,
                    {
                        let ghost pre = self.store_view();
                        let key_ref = &ws[idx];
                        let _ = self.purge_version_from_key(key_ref, wts);
                        proof {
                            let kv = key_ref@;
                            assert(kv == wsd[idx as int]);
                            lemma_purge_spec_frame(pre, kv, wts);
                            assert(wk@ != at_key(kv));
                            lemma_purge_removes_stamp(pre, kv, wts);
                            assert forall|t: u64| #[trigger]
                                self.store_view().contains_key(bang_key(t)) implies
                                m_old.contains_key(bang_key(t)) && self.store_view()[bang_key(t)]
                                == m_old[bang_key(t)] by {
                                assert(bang_key(t).len() == 9 && bang_key(t)[0] == 33);
                                assert(at_key(kv)[0] == 64);
                                assert(read(self.store_view(), bang_key(t)) == read(
                                    pre,
                                    bang_key(t),
                                ));
                            }
                            assert forall|t: u64|
                                #[trigger] m_old.contains_key(bang_key(t))
                                    && !self.store_view().contains_key(bang_key(t)) implies
                                bang_scrubbed(m_old, self.store_view(), t) by {
                                assert(bang_key(t).len() == 9 && bang_key(t)[0] == 33);
                                assert(at_key(kv)[0] == 64);
                                assert(read(self.store_view(), bang_key(t)) == read(
                                    pre,
                                    bang_key(t),
                                ));
                                if !pre.contains_key(bang_key(t)) {
                                    assert(bang_scrubbed(m_old, pre, t));
                                    let ws2 = parse_ws(m_old[bang_key(t)])->0;
                                    assert forall|j: int| 0 <= j < ws2.len() implies
                                        !list_has_stamp(
                                        self.store_view(),
                                        #[trigger] ws2[j],
                                        t,
                                    ) by {
                                        lemma_purge_no_stamp_preserved(pre, kv, wts, ws2[j], t);
                                    }
                                } else {
                                    assert(self.store_view().contains_key(bang_key(t)));
                                    assert(false);
                                }
                            }
                            assert forall|k2: Seq<u8>, l: int|
                                0 <= l < prior_list(m_old, k2).len() implies #[trigger] pair_tracked(
                                m_old,
                                self.store_view(),
                                k2,
                                l,
                            ) by {
                                lemma_purge_pair_tracked(m_old, pre, kv, wts, k2, l);
                            }
                            assert forall|j2: int| 0 <= j2 < idx + 1 implies !list_has_stamp(
                                self.store_view(),
                                #[trigger] wsd[j2],
                                wts,
                            ) by {
                                if wsd[j2] == kv {
                                } else if j2 < idx {
                                    lemma_purge_no_stamp_preserved(pre, kv, wts, wsd[j2], wts);
                                }
                            }
                        }
                        idx += 1;
                    }
                    proof {
                        assert(self.store_view().contains_key(wk@));
                    }
                    let ghost pre_del = *self;
                    self.tree.del(&wk);
                    proof {
                        lemma_wf_store_remove(pre_del.store_view(), wk@);
                        assert(self.store_entries() < entries0);
                        if no_bang(m_old) {
                            assert(false);
                        }
                        assert forall|j: int| 0 <= j < old(self).chain_count() implies
                            #[trigger] self.chain_key_at(j) == old(self).chain_key_at(j)
                            && self.chain_at_spec(j) == old(self).chain_at_spec(j) by {
                            assert(mid.chain_key_at(j) == old(self).chain_key_at(j));
                            assert(mid.chain_at_spec(j) == old(self).chain_at_spec(j));
                            assert(pre_del.chain_key_at(j) == mid.chain_key_at(j));
                            assert(pre_del.chain_at_spec(j) == mid.chain_at_spec(j));
                            assert(self.mvcc == pre_del.mvcc);
                        }
                        assert(same_chains(*old(self), *self));
                        let cur = self.store_view();
                        let prev = pre_del.store_view();
                        assert(cur == prev.remove(wk@));
                        assert forall|t: u64| #[trigger]
                            cur.contains_key(bang_key(t)) implies m_old.contains_key(bang_key(t))
                            && cur[bang_key(t)] == m_old[bang_key(t)] by {
                            assert(prev.contains_key(bang_key(t)));
                        }
                        assert forall|t: u64|
                            #[trigger] m_old.contains_key(bang_key(t)) && !cur.contains_key(
                                bang_key(t),
                            ) implies bang_scrubbed(m_old, cur, t) by {
                            let ws2 = parse_ws(m_old[bang_key(t)])->0;
                            if t == wts {
                                assert forall|j: int| 0 <= j < ws2.len() implies !list_has_stamp(
                                    cur,
                                    #[trigger] ws2[j],
                                    t,
                                ) by {
                                    assert(ws2[j] == wsd[j]);
                                    assert(!list_has_stamp(prev, ws2[j], wts));
                                    assert(wk@ != at_key(ws2[j]));
                                    assert(read(cur, at_key(ws2[j])) == read(prev, at_key(ws2[j])));
                                }
                            } else {
                                assert(bang_key(t) != wk@) by {
                                    if bang_key(t) == bang_key(wts) {
                                        assert(bang_key(t).subrange(1, 9) =~= crate::bytes::u64_be(
                                            t,
                                        ));
                                        assert(bang_key(wts).subrange(1, 9)
                                            =~= crate::bytes::u64_be(wts));
                                        crate::bytes::lemma_u64_be_injective(t, wts);
                                    }
                                }
                                assert(!prev.contains_key(bang_key(t)));
                                assert(bang_scrubbed(m_old, prev, t));
                                let ws3 = parse_ws(m_old[bang_key(t)])->0;
                                assert forall|j: int| 0 <= j < ws3.len() implies !list_has_stamp(
                                    cur,
                                    #[trigger] ws3[j],
                                    t,
                                ) by {
                                    assert(!list_has_stamp(prev, ws3[j], t));
                                    assert(wk@ != at_key(ws3[j]));
                                    assert(read(cur, at_key(ws3[j])) == read(prev, at_key(ws3[j])));
                                }
                            }
                        }
                        assert forall|k2: Seq<u8>, l: int|
                            0 <= l < prior_list(m_old, k2).len() implies #[trigger] pair_tracked(
                            m_old,
                            cur,
                            k2,
                            l,
                        ) by {
                            assert(pair_tracked(m_old, prev, k2, l));
                            let p = prior_list(m_old, k2)[l];
                            assert(wk@ != at_key(k2));
                            assert(read(cur, at_key(k2)) == read(prev, at_key(k2)));
                        }
                    }
                },
            }
        }
    }

    /// Position of the in-memory chain for a key, if one is materialized.
    pub fn chain_index_of(&self, k: &Vec<u8>) -> (r: Option<usize>)
        requires
            self.wf(),
        ensures
            match r {
                Some(i) => {
                    &&& i < self.chain_count()
                    &&& self.chain_key_at(i as int) == k@
                    &&& self.chains_view().contains_key(k@)
                    &&& self.chains_view()[k@] == self.chain_at_spec(i as int)
                },
                None => !self.chains_view().contains_key(k@),
            },
    {
        self.mvcc.index_of(k)
    }

    /// Scan the chain at a position for the version visible at `ts`.
    pub fn chain_visible(&self, i: usize, ts: u64) -> (r: TxResult<u64>)
        requires
            i < self.chain_count(),
        ensures
            r == (match crate::mvcc::chain_visible(self.chain_at_spec(i as int), ts) {
                Some(t) => Ok::<u64, Error>(t),
                None => Err::<u64, Error>(Error::Blocked),
            }),
    {
        self.mvcc.chain_at(i).visible_ts(ts)
    }

    /// The most recent record with a given write timestamp on a chain.
    pub fn chain_find_by_wts(&self, i: usize, w: u64) -> (r: Option<MemRecord>)
        requires
            i < self.chain_count(),
        ensures
            r == crate::mvcc::record_with_wts(self.chain_at_spec(i as int), w),
    {
        self.mvcc.chain_at(i).find_by_wts(w)
    }

    /// Optimistically install a pending record on a chain.
    pub fn chain_install(&mut self, i: usize, last_ts: u64, rec: MemRecord) -> (r: TxResult<()>)
        requires
            old(self).wf(),
            i < old(self).chain_count(),
            rec.wts < old(self).ts_counter(),
            rec.data matches Some(v) ==> v < old(self).ts_counter(),
        ensures
            final(self).wf(),
            final(self).store_view() == old(self).store_view(),
            final(self).ts_counter() == old(self).ts_counter(),
            final(self).chain_count() == old(self).chain_count(),
            forall|j: int|
                0 <= j < old(self).chain_count() ==> final(self).chain_key_at(j) == old(
                    self,
                ).chain_key_at(j),
            forall|j: int|
                0 <= j < old(self).chain_count() && j != i ==> final(self).chain_at_spec(j) == old(
                    self,
                ).chain_at_spec(j),
            crate::mvcc::install_ok(old(self).chain_at_spec(i as int), last_ts, rec) ==> {
                &&& r == Ok::<(), Error>(())
                &&& final(self).chain_at_spec(i as int) == old(self).chain_at_spec(i as int).push(
                    rec,
                )
                &&& final(self).chains_view() == old(self).chains_view().insert(
                    old(self).chain_key_at(i as int),
                    old(self).chain_at_spec(i as int).push(rec),
                )
            },
            !crate::mvcc::install_ok(old(self).chain_at_spec(i as int), last_ts, rec) ==> {
                &&& r == Err::<(), Error>(Error::Abort)
                &&& final(self).chain_at_spec(i as int) == old(self).chain_at_spec(i as int)
                &&& final(self).chains_view() == old(self).chains_view()
            },
    {
        proof {
            old(self).mvcc.lemma_view_at(i as int);
        }
        let r = self.mvcc.chain_install_at(i, last_ts, rec);
        proof {
            let c = old(self).ts_counter();
            let ch = old(self).chain_at_spec(i as int);
            assert(fresh_chain(ch, c));
            if crate::mvcc::install_ok(ch, last_ts, rec) {
                assert forall|l: int| 0 <= l < ch.push(rec).len() implies (#[trigger] ch.push(
                    rec,
                )[l]).wts < c && (ch.push(rec)[l].data matches Some(v) ==> v < c) by {
                    if l < ch.len() {
                        assert(ch.push(rec)[l] == ch[l]);
                    } else {
                        assert(ch.push(rec)[l] == rec);
                    }
                }
                lemma_fresh_chains_insert(
                    old(self).chains_view(),
                    c,
                    old(self).chain_key_at(i as int),
                    ch.push(rec),
                );
            }
        }
        r
    }

    /// Commit the tail record of a chain.
    pub fn chain_commit(&mut self, i: usize, ts: u64)
        requires
            old(self).wf(),
            i < old(self).chain_count(),
            old(self).chain_at_spec(i as int).len() > 0,
            old(self).chain_at_spec(i as int).last().wts == ts,
            old(self).chain_at_spec(i as int).last().status is Pending,
        ensures
            final(self).wf(),
            final(self).store_view() == old(self).store_view(),
            final(self).ts_counter() == old(self).ts_counter(),
            final(self).chain_count() == old(self).chain_count(),
            forall|j: int|
                0 <= j < old(self).chain_count() ==> final(self).chain_key_at(j) == old(
                    self,
                ).chain_key_at(j),
            forall|j: int|
                0 <= j < old(self).chain_count() && j != i ==> final(self).chain_at_spec(j) == old(
                    self,
                ).chain_at_spec(j),
            final(self).chain_at_spec(i as int) == crate::mvcc::settle_last(
                old(self).chain_at_spec(i as int),
                Status::Committed,
            ),
            final(self).chains_view() == old(self).chains_view().insert(
                old(self).chain_key_at(i as int),
                crate::mvcc::settle_last(old(self).chain_at_spec(i as int), Status::Committed),
            ),
    {
        proof {
            old(self).mvcc.lemma_view_at(i as int);
        }
        self.mvcc.chain_commit_at(i, ts);
        proof {
            let c = old(self).ts_counter();
            let ch = old(self).chain_at_spec(i as int);
            let s = crate::mvcc::settle_last(ch, Status::Committed);
            assert(fresh_chain(ch, c));
            assert forall|l: int| 0 <= l < s.len() implies (#[trigger] s[l]).wts < c && (
            s[l].data matches Some(v) ==> v < c) by {
                assert(s[l].wts == ch[l].wts && s[l].data == ch[l].data);
            }
            lemma_fresh_chains_insert(old(self).chains_view(), c, old(self).chain_key_at(i as int), s);
        }
    }

    /// Abort the tail record of a chain.
    pub fn chain_abort(&mut self, i: usize, ts: u64)
        requires
            old(self).wf(),
            i < old(self).chain_count(),
            old(self).chain_at_spec(i as int).len() > 0,
            old(self).chain_at_spec(i as int).last().wts == ts,
            old(self).chain_at_spec(i as int).last().status is Pending,
        ensures
            final(self).wf(),
            final(self).store_view() == old(self).store_view(),
            final(self).ts_counter() == old(self).ts_counter(),
            final(self).chain_count() == old(self).chain_count(),
            forall|j: int|
                0 <= j < old(self).chain_count() ==> final(self).chain_key_at(j) == old(
                    self,
                ).chain_key_at(j),
            forall|j: int|
                0 <= j < old(self).chain_count() && j != i ==> final(self).chain_at_spec(j) == old(
                    self,
                ).chain_at_spec(j),
            final(self).chain_at_spec(i as int) == crate::mvcc::settle_last(
                old(self).chain_at_spec(i as int),
                Status::Aborted,
            ),
            final(self).chains_view() == old(self).chains_view().insert(
                old(self).chain_key_at(i as int),
                crate::mvcc::settle_last(old(self).chain_at_spec(i as int), Status::Aborted),
            ),
    {
        proof {
            old(self).mvcc.lemma_view_at(i as int);
        }
        self.mvcc.chain_abort_at(i, ts);
        proof {
            let c = old(self).ts_counter();
            let ch = old(self).chain_at_spec(i as int);
            let s = crate::mvcc::settle_last(ch, Status::Aborted);
            assert(fresh_chain(ch, c));
            assert forall|l: int| 0 <= l < s.len() implies (#[trigger] s[l]).wts < c && (
            s[l].data matches Some(v) ==> v < c) by {
                assert(s[l].wts == ch[l].wts && s[l].data == ch[l].data);
            }
            lemma_fresh_chains_insert(old(self).chains_view(), c, old(self).chain_key_at(i as int), s);
        }
    }

    /// Find or materialize the chain for a key: from the key's persisted
    /// version list when one exists, else as a fresh floor-record chain.
    /// Returns its position in the index.
    pub fn get_chain(&mut self, k: &Vec<u8>) -> (r: usize)
        requires
            old(self).wf(),
        ensures
            final(self).wf(),
            final(self).store_view() == old(self).store_view(),
            final(self).ts_counter() == old(self).ts_counter(),
            r < final(self).chain_count(),
            final(self).chain_key_at(r as int) == k@,
            final(self).chains_view().contains_key(k@),
            final(self).chains_view()[k@] == final(self).chain_at_spec(r as int),
            old(self).chains_view().contains_key(k@) ==> same_chains(*old(self), *final(self))
                && final(self).chain_at_spec(r as int) == old(self).chains_view()[k@],
            !old(self).chains_view().contains_key(k@) ==> {
                &&& final(self).chains_view() == old(self).chains_view().insert(
                    k@,
                    materialized_chain(old(self).store_view(), k@),
                )
                &&& final(self).chain_at_spec(r as int) == materialized_chain(
                    old(self).store_view(),
                    k@,
                )
                &&& final(self).chain_count() == old(self).chain_count() + 1
                &&& forall|j: int|
                    0 <= j < old(self).chain_count() ==> final(self).chain_key_at(j) == old(
                        self,
                    ).chain_key_at(j) && final(self).chain_at_spec(j) == old(self).chain_at_spec(j)
            },
    {
        match self.mvcc.index_of(k) {
            Some(i) => i,
            None => {
                let padded = crate::bytes::key_safety_pad(k);
                let mut records: Vec<MemRecord> = Vec::new();
                match self.tree.get(&padded) {
                    Some(found) => {
                        let vs: Vec<(u64, u64)> = match crate::codec::decode_versions(
                            found.as_slice(),
                        ) {
                            Some(v) => v,
                            None => {
                                proof {
                                    assert(is_at(padded@));
                                    assert(false);
                                }
                                vstd::pervasive::unreached()
                            },
                        };
                        let sorted = sort_versions(&vs);
                        let mut i: usize = 0;
                        while i < sorted.len()
                            invariant
                                i <= sorted@.len(),
                                records@.len() == i,
                                forall|j: int|
                                    0 <= j < i ==> #[trigger] records@[j] == committed_record(
                                        sorted@[j],
                                    ),
                            decreases sorted@.len() - i,
                        {
                            let (wts, version) = sorted[i];
                            records.push(
                                MemRecord {
                                    wts,
                                    rts: 0,
                                    data: Some(version),
                                    status: Status::Committed,
                                },
                            );
                            i += 1;
                        }
                        proof {
                            assert(records@ =~= materialized_chain(self.tree@, k@));
                        }
                    },
                    None => {
                        records.push(
                            MemRecord { wts: 0, rts: 0, data: None, status: Status::Committed },
                        );
                        proof {
                            assert(records@ =~= materialized_chain(self.tree@, k@));
                        }
                    },
                }
                proof {
                    let c = old(self).ts_counter();
                    let mk = materialized_chain(old(self).store_view(), k@);
                    match read(old(self).store_view(), at_key(k@)) {
                        Some(bytes) => {
                            let vs0 = parse_versions(bytes)->0;
                            assert(fresh_list(vs0, c)) by {
                                assert(old(self).store_view().contains_key(at_key(k@)) && is_at(
                                    at_key(k@),
                                ));
                            }
                            lemma_sort_elems(vs0);
                            assert forall|l: int| 0 <= l < mk.len() implies (#[trigger] mk[l]).wts
                                < c && (mk[l].data matches Some(v) ==> v < c) by {
                                assert(mk[l] == committed_record(sort_by_wts(vs0)[l]));
                                let j = choose|j: int|
                                    0 <= j < vs0.len() && #[trigger] sort_by_wts(vs0)[l] == vs0[j];
                                assert(vs0[j].0 < c && vs0[j].1 < c);
                            }
                        },
                        None => {
                            assert(fresh_chain(mk, c));
                        },
                    }
                    lemma_fresh_chains_insert(old(self).chains_view(), c, k@, mk);
                }
                let chain = crate::mvcc::Chain::new(records);
                let idx = self.mvcc.len();
                let kc = crate::store::clone_bytes(k);
                let res = self.mvcc.insert(kc, chain);
                proof {
                    assert(res is Ok);
                }
                idx
            },
        }
    }

    /// Read the raw bytes a store key currently holds.
    pub fn tree_get(&self, k: &Vec<u8>) -> (r: Option<Vec<u8>>)
        requires
            self.wf(),
        ensures
            crate::store::opt_bytes(r) == read(self.store_view(), k@),
    {
        match self.tree.get(k) {
            Some(v) => Some(crate::store::clone_bytes(v)),
            None => None,
        }
    }

    /// All store entries, as owned pairs.
    pub fn snapshot(&self) -> (r: Vec<(Vec<u8>, Vec<u8>)>)
        requires
            self.wf(),
        ensures
            forall|i: int|
                0 <= i < r@.len() ==> self.store_view().contains_key((#[trigger] r@[i]).0@)
                    && self.store_view()[r@[i].0@] == r@[i].1@,
            forall|k: Seq<u8>|
                self.store_view().contains_key(k) ==> exists|i: int|
                    0 <= i < r@.len() && (#[trigger] r@[i]).0@ == k,
    {
        self.tree.snapshot()
    }

    /// Open a fresh transaction on this engine.
    pub fn tx(&self) -> (r: crate::tx::Tx)
        ensures
            r.spec_base() == 0,
            r.spec_reads() =~= Seq::<Seq<u8>>::empty(),
            r.spec_predicates() =~= Seq::<(Seq<u8>, Option<Seq<u8>>)>::empty(),
            r.spec_sets() =~= Seq::<(Seq<u8>, Option<Seq<u8>>)>::empty(),
            r.spec_chains() =~= Seq::<(Seq<u8>, u64)>::empty(),
            r.spec_installed() == 0,
    {
        crate::tx::Tx::new()
    }

    /// Advertise a read at `ts` on a chain.
    pub fn chain_bump(&mut self, i: usize, ts: u64)
        requires
            old(self).wf(),
            i < old(self).chain_count(),
        ensures
            final(self).wf(),
            final(self).store_view() == old(self).store_view(),
            final(self).ts_counter() == old(self).ts_counter(),
            final(self).chain_count() == old(self).chain_count(),
            forall|j: int|
                0 <= j < old(self).chain_count() ==> final(self).chain_key_at(j) == old(
                    self,
                ).chain_key_at(j),
            forall|j: int|
                0 <= j < old(self).chain_count() && j != i ==> final(self).chain_at_spec(j) == old(
                    self,
                ).chain_at_spec(j),
            final(self).chain_at_spec(i as int) == crate::mvcc::bump_spec(
                old(self).chain_at_spec(i as int),
                ts,
            ),
            final(self).chains_view() == old(self).chains_view().insert(
                old(self).chain_key_at(i as int),
                crate::mvcc::bump_spec(old(self).chain_at_spec(i as int), ts),
            ),
    {
        proof {
            old(self).mvcc.lemma_view_at(i as int);
        }
        self.mvcc.chain_bump_at(i, ts);
        proof {
            let c = old(self).ts_counter();
            let ch = old(self).chain_at_spec(i as int);
            let s = crate::mvcc::bump_spec(ch, ts);
            assert(fresh_chain(ch, c));
            crate::mvcc::lemma_bump_index_range(ch, ts);
            assert forall|l: int| 0 <= l < s.len() implies (#[trigger] s[l]).wts < c && (
            s[l].data matches Some(v) ==> v < c) by {
                assert(s[l].wts == ch[l].wts && s[l].data == ch[l].data);
            }
            lemma_fresh_chains_insert(old(self).chains_view(), c, old(self).chain_key_at(i as int), s);
        }
    }
}

} // verus!
