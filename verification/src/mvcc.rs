//! The in-memory side of the engine: per-key version chains of memory
//! records, and the index that maps keys to chains.

use vstd::prelude::*;

use crate::tx::{Error, TxResult};

verus! {

/// Lifecycle of one memory record.  Only `Pending` records may change
/// status, and they settle exactly once.
#[derive(Clone, Copy, Debug, PartialEq, Eq, Structural)]
pub enum Status {
    Pending,
    Aborted,
    Committed,
}

impl Default for Status {
    /// The floor record of a fresh chain is already committed.
    fn default() -> (r: Status)
        ensures
            r == Status::Committed,
    {
        Status::Committed
    }
}

/// One slot in a version chain: write timestamp, read-timestamp
/// high-watermark, the version handle (`None` is a tombstone), and status.
#[derive(Clone, Copy, Debug)]
pub struct MemRecord {
    pub wts: u64,
    pub rts: u64,
    pub data: Option<u64>,
    pub status: Status,
}

impl Default for MemRecord {
    /// The floor record: timestamp zero, committed, no data.
    fn default() -> (r: MemRecord)
        ensures
            r == (MemRecord { wts: 0, rts: 0, data: None, status: Status::Committed }),
    {
        MemRecord { wts: 0, rts: 0, data: None, status: Status::Committed }
    }
}

/// The record a scan at timestamp `ts` settles on, walking tail to head: a
/// record own-stamped `ts` or the first committed record wins, aborted
/// records are skipped, and a foreign pending record blocks the scan.
pub open spec fn visible_record(s: Seq<MemRecord>, ts: u64) -> Option<MemRecord>
    decreases s.len(),
{
    if s.len() == 0 {
        None
    } else {
        let last = s.last();
        if last.wts == ts {
            Some(last)
        } else if last.status is Committed {
            Some(last)
        } else if last.status is Aborted {
            visible_record(s.drop_last(), ts)
        } else {
            None
        }
    }
}

/// The write timestamp a scan at `ts` reports, or `None` when it blocks.
pub open spec fn chain_visible(s: Seq<MemRecord>, ts: u64) -> Option<u64> {
    match visible_record(s, ts) {
        Some(r) => Some(r.wts),
        None => None,
    }
}

/// The most recent record with the given write timestamp.
pub open spec fn record_with_wts(s: Seq<MemRecord>, w: u64) -> Option<MemRecord>
    decreases s.len(),
{
    if s.len() == 0 {
        None
    } else if s.last().wts == w {
        Some(s.last())
    } else {
        record_with_wts(s.drop_last(), w)
    }
}

/// Index of the most recent record with `wts` strictly below `ts`, or -1.
pub open spec fn bump_index(s: Seq<MemRecord>, ts: u64) -> int
    decreases s.len(),
{
    if s.len() == 0 {
        -1
    } else if s.last().wts < ts {
        s.len() - 1
    } else {
        bump_index(s.drop_last(), ts)
    }
}

/// The bump position is always inside the chain (or -1), and points at a
/// record older than the reader.
pub proof fn lemma_bump_index_range(s: Seq<MemRecord>, ts: u64)
    ensures
        -1 <= bump_index(s, ts) < s.len(),
        bump_index(s, ts) >= 0 ==> s[bump_index(s, ts)].wts < ts,
    decreases s.len(),
{
    if s.len() == 0 {
    } else {
        lemma_bump_index_range(s.drop_last(), ts);
    }
}

/// Raise the read timestamp of the record a reader at `ts` observed.
pub open spec fn bump_spec(s: Seq<MemRecord>, ts: u64) -> Seq<MemRecord> {
    let i = bump_index(s, ts);
    if i >= 0 && s[i].rts < ts {
        s.update(i, MemRecord { wts: s[i].wts, rts: ts, data: s[i].data, status: s[i].status })
    } else {
        s
    }
}

/// Flip the status of the tail record.
pub open spec fn settle_last(s: Seq<MemRecord>, st: Status) -> Seq<MemRecord>
    recommends
        s.len() > 0,
{
    s.update(
        s.len() - 1,
        MemRecord { wts: s.last().wts, rts: s.last().rts, data: s.last().data, status: st },
    )
}

/// At most one pending record, and only as the tail.
pub open spec fn pending_only_at_tail(s: Seq<MemRecord>) -> bool {
    forall|i: int| 0 <= i < s.len() && (#[trigger] s[i]).status is Pending ==> i == s.len() - 1
}

/// When an optimistic install may append: the validated tail is still the
/// tail and is settled, and the new record is a pending one with a fresh,
/// larger stamp.
pub open spec fn install_ok(s: Seq<MemRecord>, last_ts: u64, rec: MemRecord) -> bool {
    rec.status is Pending && (s.len() == 0 || (s.last().wts == last_ts && rec.wts > s.last().wts
        && !(s.last().status is Pending)))
}

/// A healthy chain: records strictly ordered by write timestamp, with at
/// most one pending record, standing at the tail.
pub open spec fn wf_chain(s: Seq<MemRecord>) -> bool {
    &&& forall|i: int, j: int|
        0 <= i < j < s.len() ==> (#[trigger] s[i]).wts < (#[trigger] s[j]).wts
    &&& pending_only_at_tail(s)
}

/// A visible record is one of the chain's records.
pub proof fn lemma_visible_record_member(s: Seq<MemRecord>, ts: u64)
    ensures
        visible_record(s, ts) matches Some(r) ==> exists|i: int|
            0 <= i < s.len() && s[i] == r,
    decreases s.len(),
{
    if s.len() == 0 {
    } else {
        lemma_visible_record_member(s.drop_last(), ts);
        match visible_record(s, ts) {
            Some(r) => {
                if r == s.last() {
                    assert(s[s.len() - 1] == r);
                } else {
                    let i = choose|i: int| 0 <= i < s.drop_last().len() && s.drop_last()[i] == r;
                    assert(s[i] == r);
                }
            },
            None => {},
        }
    }
}

/// When the scan settles on the tail's own stamp and that stamp is not the
/// reader's, the tail is committed: a validated tail is a settled tail.
pub proof fn lemma_visible_tail_settled(s: Seq<MemRecord>, q: u64, t: u64)
    requires
        wf_chain(s),
        s.len() > 0,
        chain_visible(s, q) == Some(t),
        t != q,
        s.last().wts == t,
    ensures
        s.last().status is Committed,
{
    let last = s.last();
    if last.wts == q {
    } else if last.status is Committed {
    } else if last.status is Aborted {
        lemma_visible_record_member(s.drop_last(), q);
        let r = visible_record(s.drop_last(), q)->0;
        let i = choose|i: int| 0 <= i < s.drop_last().len() && s.drop_last()[i] == r;
        assert(s[i] == r);
        assert(s[i].wts < s[s.len() - 1].wts);
    }
}

/// At most one pending record, and only at the tail: appending a fresh
/// pending record onto a settled tail keeps a chain healthy.
pub proof fn lemma_install_single_pending(s: Seq<MemRecord>, rec: MemRecord)
    requires
        wf_chain(s),
        rec.status is Pending,
        s.len() > 0 ==> !(s.last().status is Pending) && rec.wts > s.last().wts,
    ensures
        wf_chain(s.push(rec)),
{
    let s2 = s.push(rec);
    assert forall|i: int, j: int| 0 <= i < j < s2.len() implies (#[trigger] s2[i]).wts < (
    #[trigger] s2[j]).wts by {
        if j < s.len() {
            assert(s2[i] == s[i] && s2[j] == s[j]);
        } else {
            assert(s2[j] == rec);
            if i < s.len() - 1 {
                assert(s2[i] == s[i]);
                assert(s[i].wts < s[s.len() - 1].wts);
            } else {
                assert(s2[i] == s[s.len() - 1]);
            }
        }
    }
    assert forall|i: int|
        0 <= i < s2.len() && (#[trigger] s2[i]).status is Pending implies i == s2.len() - 1 by {
        if i < s.len() {
            assert(s2[i] == s[i]);
            if s[i].status is Pending {
                assert(i == s.len() - 1);
            }
        }
    }
}

/// Committed visibility never regresses when the pending tail commits: what
/// becomes visible is the newly committed record, stamped later than any
/// committed record a reader could see before the install.
pub proof fn lemma_committed_visibility_commit(s: Seq<MemRecord>, q: u64, r: MemRecord)
    requires
        wf_chain(s),
        s.len() > 0,
        s.last().status is Pending,
        visible_record(s.drop_last(), q) == Some(r),
        r.status is Committed,
    ensures
        visible_record(settle_last(s, Status::Committed), q) matches Some(r2) && r2.wts >= r.wts
            && r2.status is Committed,
{
    let s2 = settle_last(s, Status::Committed);
    assert(s2.last().status is Committed && s2.last().wts == s.last().wts);
    lemma_visible_record_member(s.drop_last(), q);
    let i = choose|i: int| 0 <= i < s.drop_last().len() && s.drop_last()[i] == r;
    assert(s[i] == r);
    assert(s[i].wts < s[s.len() - 1].wts);
    assert(visible_record(s2, q) == Some(s2.last()));
}

/// A freshly installed pending record hides the chain from other readers:
/// the only record a scan can still settle on is the installer's own.
pub proof fn lemma_committed_visibility_install(s: Seq<MemRecord>, rec: MemRecord, q: u64)
    requires
        rec.status is Pending,
    ensures
        visible_record(s.push(rec), q) matches Some(r) ==> r == rec,
{
    assert(s.push(rec).last() == rec);
}

/// Aborting the pending tail restores exactly the visibility the chain had
/// before the install: committed observations are unchanged.
pub proof fn lemma_committed_visibility_abort(s: Seq<MemRecord>, q: u64)
    requires
        s.len() > 0,
        s.last().status is Pending,
        s.last().wts != q,
    ensures
        visible_record(settle_last(s, Status::Aborted), q) == visible_record(s.drop_last(), q),
{
    let s2 = settle_last(s, Status::Aborted);
    assert(s2.last().status is Aborted && s2.last().wts == s.last().wts);
    assert(s2.drop_last() =~= s.drop_last());
}

/// A per-key version chain of memory records.
#[derive(Debug)]
pub struct Chain {
    records: Vec<MemRecord>,
}

impl View for Chain {
    type V = Seq<MemRecord>;

    closed spec fn view(&self) -> Seq<MemRecord> {
        self.records@
    }
}

impl Default for Chain {
    /// A fresh chain holds exactly the committed floor record.
    fn default() -> (r: Chain)
        ensures
            r@ =~= seq![MemRecord { wts: 0, rts: 0, data: None, status: Status::Committed }],
    {
        let mut records: Vec<MemRecord> = Vec::new();
        records.push(MemRecord::default());
        Chain { records }
    }
}

impl Chain {
    pub fn new(records: Vec<MemRecord>) -> (r: Chain)
        ensures
            r@ == records@,
    {
        Chain { records }
    }

    /// Settle the tail record as committed; only a pending record settles.
    pub fn commit(&mut self, ts: u64)
        requires
            old(self)@.len() > 0,
            old(self)@.last().wts == ts,
            old(self)@.last().status is Pending,
        ensures
            final(self)@ == settle_last(old(self)@, Status::Committed),
    {
        let n = self.records.len();
        let rec = self.records[n - 1];
        self.records.set(
            n - 1,
            MemRecord { wts: rec.wts, rts: rec.rts, data: rec.data, status: Status::Committed },
        );
    }

    /// Settle the tail record as aborted; only a pending record settles.
    pub fn abort(&mut self, ts: u64)
        requires
            old(self)@.len() > 0,
            old(self)@.last().wts == ts,
            old(self)@.last().status is Pending,
        ensures
            final(self)@ == settle_last(old(self)@, Status::Aborted),
    {
        let n = self.records.len();
        let rec = self.records[n - 1];
        self.records.set(
            n - 1,
            MemRecord { wts: rec.wts, rts: rec.rts, data: rec.data, status: Status::Aborted },
        );
    }

    /// Scan for the version visible at `ts`; `Blocked` when a foreign
    /// pending record stands in the way or nothing is visible.
    pub fn visible_ts(&self, ts: u64) -> (r: TxResult<u64>)
        ensures
            r == (match chain_visible(self@, ts) {
                Some(t) => Ok::<u64, Error>(t),
                None => Err::<u64, Error>(Error::Blocked),
            }),
    {
        let mut i: usize = self.records.len();
        proof {
            assert(self@.take(i as int) =~= self@);
        }
        while i > 0
            invariant
                i <= self@.len(),
                visible_record(self@, ts) == visible_record(self@.take(i as int), ts),
            decreases i,
        {
            i -= 1;
            let rec = self.records[i];
            proof {
                assert(self@.take(i + 1).drop_last() =~= self@.take(i as int));
                assert(self@.take(i + 1).last() == self@[i as int]);
            }
            if rec.wts == ts {
                return Ok(rec.wts);
            }
            match rec.status {
                Status::Committed => {
                    return Ok(rec.wts);
                },
                Status::Aborted => {},
                Status::Pending => {
                    return Err(Error::Blocked);
                },
            }
        }
        Err(Error::Blocked)
    }

    /// The most recent record carrying the given write timestamp.
    pub fn find_by_wts(&self, w: u64) -> (r: Option<MemRecord>)
        ensures
            r == record_with_wts(self@, w),
    {
        let mut i: usize = self.records.len();
        proof {
            assert(self@.take(i as int) =~= self@);
        }
        while i > 0
            invariant
                i <= self@.len(),
                record_with_wts(self@, w) == record_with_wts(self@.take(i as int), w),
            decreases i,
        {
            i -= 1;
            let rec = self.records[i];
            proof {
                assert(self@.take(i + 1).drop_last() =~= self@.take(i as int));
                assert(self@.take(i + 1).last() == self@[i as int]);
            }
            if rec.wts == w {
                return Some(rec);
            }
        }
        None
    }

    /// Monotonically raise the read timestamp of the most recent record
    /// older than `ts`, advertising that a reader at `ts` observed it.
    pub fn bump_rts(&mut self, ts: u64)
        ensures
            final(self)@ == bump_spec(old(self)@, ts),
    {
        let ghost s = self@;
        let mut i: usize = self.records.len();
        proof {
            assert(s.take(i as int) =~= s);
        }
        while i > 0
            invariant
                i <= s.len(),
                s == old(self)@,
                self@ == s,
                bump_index(s, ts) == bump_index(s.take(i as int), ts),
            decreases i,
        {
            i -= 1;
            let rec = self.records[i];
            proof {
                assert(s.take(i + 1).drop_last() =~= s.take(i as int));
                assert(s.take(i + 1).last() == s[i as int]);
            }
            if rec.wts < ts {
                proof {
                    assert(s.take(i + 1).len() == i + 1);
                    assert(bump_index(s.take(i + 1), ts) == i);
                    assert(bump_index(s, ts) == i);
                }
                if rec.rts < ts {
                    self.records.set(
                        i,
                        MemRecord { wts: rec.wts, rts: ts, data: rec.data, status: rec.status },
                    );
                    proof {
                        assert(self@ =~= bump_spec(s, ts));
                    }
                } else {
                    proof {
                        assert(self@ =~= bump_spec(s, ts));
                    }
                }
                return ;
            }
        }
    }

    /// Optimistically append a pending record, provided the tail the caller
    /// validated against is still the tail and the stamp moves forward.
    pub fn install(&mut self, last_ts: u64, record: MemRecord) -> (r: TxResult<()>)
        ensures
            install_ok(old(self)@, last_ts, record) ==> r == Ok::<(), Error>(()) && final(self)@
                == old(self)@.push(record),
            !install_ok(old(self)@, last_ts, record) ==> r == Err::<(), Error>(Error::Abort)
                && final(self)@ == old(self)@,
    {
        if !matches!(record.status, Status::Pending) {
            return Err(Error::Abort);
        }
        if self.records.len() > 0 {
            let last = self.records[self.records.len() - 1];
            if last.wts != last_ts || record.wts <= last.wts || matches!(
                last.status,
                Status::Pending,
            ) {
                return Err(Error::Abort);
            }
        }
        self.records.push(record);
        Ok(())
    }

    /// Number of records in the chain.
    pub fn record_count(&self) -> (r: usize)
        ensures
            r == self@.len(),
    {
        self.records.len()
    }

    /// The record at a position, head first.
    pub fn record_at(&self, i: usize) -> (r: MemRecord)
        requires
            i < self@.len(),
        ensures
            r == self@[i as int],
    {
        self.records[i]
    }
}

spec fn chains_distinct(s: Seq<(Vec<u8>, Chain)>) -> bool {
    forall|i: int, j: int|
        0 <= i < j < s.len() ==> (#[trigger] s[i]).0@ != (#[trigger] s[j]).0@
}

spec fn chains_map(s: Seq<(Vec<u8>, Chain)>) -> Map<Seq<u8>, Seq<MemRecord>>
    decreases s.len(),
{
    if s.len() == 0 {
        Map::empty()
    } else {
        chains_map(s.drop_last()).insert(s.last().0@, s.last().1@)
    }
}

proof fn lemma_chains_map_contains(s: Seq<(Vec<u8>, Chain)>, k: Seq<u8>)
    ensures
        chains_map(s).contains_key(k) <==> exists|i: int|
            0 <= i < s.len() && (#[trigger] s[i]).0@ == k,
    decreases s.len(),
{
    if s.len() == 0 {
    } else {
        lemma_chains_map_contains(s.drop_last(), k);
        if chains_map(s).contains_key(k) {
            if s.last().0@ == k {
                assert((s[s.len() - 1]).0@ == k);
            } else {
                let i = choose|i: int|
                    0 <= i < s.drop_last().len() && (#[trigger] s.drop_last()[i]).0@ == k;
                assert((s[i]).0@ == k);
            }
        }
        if exists|i: int| 0 <= i < s.len() && (#[trigger] s[i]).0@ == k {
            let i = choose|i: int| 0 <= i < s.len() && (#[trigger] s[i]).0@ == k;
            if i < s.len() - 1 {
                assert((s.drop_last()[i]).0@ == k);
            }
        }
    }
}

proof fn lemma_chains_map_lookup(s: Seq<(Vec<u8>, Chain)>, i: int)
    requires
        chains_distinct(s),
        0 <= i < s.len(),
    ensures
        chains_map(s).contains_key(s[i].0@),
        chains_map(s)[s[i].0@] == s[i].1@,
    decreases s.len(),
{
    if i == s.len() - 1 {
    } else {
        assert(s.drop_last()[i] == s[i]);
        lemma_chains_map_lookup(s.drop_last(), i);
        assert(s[i].0@ != s.last().0@);
    }
}

proof fn lemma_chains_map_push(s: Seq<(Vec<u8>, Chain)>, x: (Vec<u8>, Chain))
    ensures
        chains_map(s.push(x)) == chains_map(s).insert(x.0@, x.1@),
{
    assert(s.push(x).drop_last() =~= s);
    assert(s.push(x).last() == x);
}

proof fn lemma_chains_map_update(s: Seq<(Vec<u8>, Chain)>, i: int, x: (Vec<u8>, Chain))
    requires
        chains_distinct(s),
        0 <= i < s.len(),
        x.0@ == s[i].0@,
    ensures
        chains_distinct(s.update(i, x)),
        chains_map(s.update(i, x)) == chains_map(s).insert(x.0@, x.1@),
    decreases s.len(),
{
    assert forall|a: int, b: int| 0 <= a < b < s.update(i, x).len() implies (#[trigger] s.update(
        i,
        x,
    )[a]).0@ != (#[trigger] s.update(i, x)[b]).0@ by {
        assert(s[a].0@ != s[b].0@);
    }
    if i == s.len() - 1 {
        assert(s.update(i, x).drop_last() =~= s.drop_last());
        assert(s.update(i, x).last() == x);
        assert(chains_map(s.drop_last()).insert(x.0@, x.1@) =~= chains_map(s).insert(x.0@, x.1@));
    } else {
        assert(s.update(i, x).drop_last() =~= s.drop_last().update(i, x));
        assert(s.update(i, x).last() == s.last());
        lemma_chains_map_update(s.drop_last(), i, x);
        assert(s[i].0@ != s.last().0@);
        assert(chains_map(s.drop_last()).insert(x.0@, x.1@).insert(s.last().0@, s.last().1@)
            =~= chains_map(s.drop_last()).insert(s.last().0@, s.last().1@).insert(x.0@, x.1@));
    }
}

/// The chain index: a map from application key to its version chain,
/// populated lazily and never shrunk.
#[derive(Debug)]
pub struct Mvcc {
    inner: Vec<(Vec<u8>, Chain)>,
}

impl View for Mvcc {
    type V = Map<Seq<u8>, Seq<MemRecord>>;

    closed spec fn view(&self) -> Map<Seq<u8>, Seq<MemRecord>> {
        chains_map(self.inner@)
    }
}

impl Default for Mvcc {
    /// A fresh, empty index.
    fn default() -> (r: Mvcc)
        ensures
            r.wf(),
            r@ == Map::<Seq<u8>, Seq<MemRecord>>::empty(),
            r.count() == 0,
    {
        Mvcc { inner: Vec::new() }
    }
}

impl Mvcc {
    /// Entries hold pairwise distinct keys.
    pub closed spec fn wf(self) -> bool {
        chains_distinct(self.inner@)
    }

    /// Number of chains in the index.
    pub closed spec fn count(self) -> nat {
        self.inner@.len()
    }

    /// The key of the entry at a position.
    pub closed spec fn key_at(self, i: int) -> Seq<u8> {
        self.inner@[i].0@
    }

    /// The chain of the entry at a position.
    pub closed spec fn chain_seq_at(self, i: int) -> Seq<MemRecord> {
        self.inner@[i].1@
    }

    /// The entry at a position is what the map view holds for its key.
    pub proof fn lemma_view_at(self, i: int)
        requires
            self.wf(),
            0 <= i < self.count(),
        ensures
            self@.contains_key(self.key_at(i)),
            self@[self.key_at(i)] == self.chain_seq_at(i),
    {
        lemma_chains_map_lookup(self.inner@, i);
    }

    /// Every key of the map view stands at some position.
    pub proof fn lemma_view_position(self, k: Seq<u8>)
        requires
            self.wf(),
            self@.contains_key(k),
        ensures
            exists|i: int| 0 <= i < self.count() && #[trigger] self.key_at(i) == k,
    {
        lemma_chains_map_contains(self.inner@, k);
        let i = choose|i: int| 0 <= i < self.inner@.len() && (#[trigger] self.inner@[i]).0@ == k;
        assert(self.key_at(i) == k);
    }

    fn find(&self, k: &Vec<u8>) -> (r: Option<usize>)
        ensures
            match r {
                Some(i) => i < self.inner@.len() && self.inner@[i as int].0@ == k@,
                None => forall|i: int|
                    0 <= i < self.inner@.len() ==> (#[trigger] self.inner@[i]).0@ != k@,
            },
    {
        let mut i: usize = 0;
        while i < self.inner.len()
            invariant
                i <= self.inner@.len(),
                forall|j: int| 0 <= j < i ==> (#[trigger] self.inner@[j]).0@ != k@,
            decreases self.inner@.len() - i,
        {
            if crate::store::bytes_eq(&self.inner[i].0, k) {
                return Some(i);
            }
            i += 1;
        }
        None
    }

    /// Position of the chain for a key, if the index holds one.
    pub fn index_of(&self, k: &Vec<u8>) -> (r: Option<usize>)
        requires
            self.wf(),
        ensures
            match r {
                Some(i) => {
                    &&& i < self.count()
                    &&& self.key_at(i as int) == k@
                    &&& self@.contains_key(k@)
                    &&& self@[k@] == self.chain_seq_at(i as int)
                },
                None => !self@.contains_key(k@),
            },
    {
        let r = self.find(k);
        proof {
            match r {
                Some(i) => {
                    lemma_chains_map_lookup(self.inner@, i as int);
                },
                None => {
                    lemma_chains_map_contains(self.inner@, k@);
                },
            }
        }
        r
    }

    /// Borrow the chain for a key.
    pub fn get(&self, k: &Vec<u8>) -> (r: Option<&Chain>)
        requires
            self.wf(),
        ensures
            match r {
                Some(c) => self@.contains_key(k@) && c@ == self@[k@],
                None => !self@.contains_key(k@),
            },
    {
        match self.index_of(k) {
            Some(i) => Some(&self.inner[i].1),
            None => None,
        }
    }

    /// Borrow the chain at a position.
    pub fn chain_at(&self, i: usize) -> (r: &Chain)
        requires
            i < self.count(),
        ensures
            r@ == self.chain_seq_at(i as int),
    {
        &self.inner[i].1
    }

    /// Number of chains held.
    pub fn len(&self) -> (r: usize)
        ensures
            r == self.count(),
    {
        self.inner.len()
    }

    /// Commit the tail record of the chain at a position.
    pub fn chain_commit_at(&mut self, i: usize, ts: u64)
        requires
            old(self).wf(),
            i < old(self).count(),
            old(self).chain_seq_at(i as int).len() > 0,
            old(self).chain_seq_at(i as int).last().wts == ts,
            old(self).chain_seq_at(i as int).last().status is Pending,
        ensures
            final(self).wf(),
            final(self).count() == old(self).count(),
            forall|j: int|
                0 <= j < old(self).count() ==> final(self).key_at(j) == old(self).key_at(j),
            forall|j: int|
                0 <= j < old(self).count() && j != i ==> final(self).chain_seq_at(j) == old(
                    self,
                ).chain_seq_at(j),
            final(self).chain_seq_at(i as int) == settle_last(
                old(self).chain_seq_at(i as int),
                Status::Committed,
            ),
            final(self)@ == old(self)@.insert(
                old(self).key_at(i as int),
                settle_last(old(self).chain_seq_at(i as int), Status::Committed),
            ),
    {
        let ghost pre = self.inner@;
        let mut entry = self.inner.remove(i);
        entry.1.commit(ts);
        let ghost e = entry;
        self.inner.insert(i, entry);
        proof {
            assert(self.inner@ =~= pre.update(i as int, e));
            lemma_chains_map_update(pre, i as int, e);
        }
    }

    /// Abort the tail record of the chain at a position.
    pub fn chain_abort_at(&mut self, i: usize, ts: u64)
        requires
            old(self).wf(),
            i < old(self).count(),
            old(self).chain_seq_at(i as int).len() > 0,
            old(self).chain_seq_at(i as int).last().wts == ts,
            old(self).chain_seq_at(i as int).last().status is Pending,
        ensures
            final(self).wf(),
            final(self).count() == old(self).count(),
            forall|j: int|
                0 <= j < old(self).count() ==> final(self).key_at(j) == old(self).key_at(j),
            forall|j: int|
                0 <= j < old(self).count() && j != i ==> final(self).chain_seq_at(j) == old(
                    self,
                ).chain_seq_at(j),
            final(self).chain_seq_at(i as int) == settle_last(
                old(self).chain_seq_at(i as int),
                Status::Aborted,
            ),
            final(self)@ == old(self)@.insert(
                old(self).key_at(i as int),
                settle_last(old(self).chain_seq_at(i as int), Status::Aborted),
            ),
    {
        let ghost pre = self.inner@;
        let mut entry = self.inner.remove(i);
        entry.1.abort(ts);
        let ghost e = entry;
        self.inner.insert(i, entry);
        proof {
            assert(self.inner@ =~= pre.update(i as int, e));
            lemma_chains_map_update(pre, i as int, e);
        }
    }

    /// Raise the read timestamp on the chain at a position.
    pub fn chain_bump_at(&mut self, i: usize, ts: u64)
        requires
            old(self).wf(),
            i < old(self).count(),
        ensures
            final(self).wf(),
            final(self).count() == old(self).count(),
            forall|j: int|
                0 <= j < old(self).count() ==> final(self).key_at(j) == old(self).key_at(j),
            forall|j: int|
                0 <= j < old(self).count() && j != i ==> final(self).chain_seq_at(j) == old(
                    self,
                ).chain_seq_at(j),
            final(self).chain_seq_at(i as int) == bump_spec(old(self).chain_seq_at(i as int), ts),
            final(self)@ == old(self)@.insert(
                old(self).key_at(i as int),
                bump_spec(old(self).chain_seq_at(i as int), ts),
            ),
    {
        let ghost pre = self.inner@;
        let mut entry = self.inner.remove(i);
        entry.1.bump_rts(ts);
        let ghost e = entry;
        self.inner.insert(i, entry);
        proof {
            assert(self.inner@ =~= pre.update(i as int, e));
            lemma_chains_map_update(pre, i as int, e);
        }
    }

    /// Optimistically install a pending record on the chain at a position.
    pub fn chain_install_at(&mut self, i: usize, last_ts: u64, rec: MemRecord) -> (r: TxResult<()>)
        requires
            old(self).wf(),
            i < old(self).count(),
        ensures
            final(self).wf(),
            final(self).count() == old(self).count(),
            forall|j: int|
                0 <= j < old(self).count() ==> final(self).key_at(j) == old(self).key_at(j),
            forall|j: int|
                0 <= j < old(self).count() && j != i ==> final(self).chain_seq_at(j) == old(
                    self,
                ).chain_seq_at(j),
            install_ok(old(self).chain_seq_at(i as int), last_ts, rec) ==> {
                &&& r == Ok::<(), Error>(())
                &&& final(self).chain_seq_at(i as int) == old(self).chain_seq_at(i as int).push(rec)
                &&& final(self)@ == old(self)@.insert(
                    old(self).key_at(i as int),
                    old(self).chain_seq_at(i as int).push(rec),
                )
            },
            !install_ok(old(self).chain_seq_at(i as int), last_ts, rec) ==> {
                &&& r == Err::<(), Error>(Error::Abort)
                &&& final(self).chain_seq_at(i as int) == old(self).chain_seq_at(i as int)
                &&& final(self)@ == old(self)@
            },
    {
        let ghost pre = self.inner@;
        let mut entry = self.inner.remove(i);
        let r = entry.1.install(last_ts, rec);
        let ghost e = entry;
        self.inner.insert(i, entry);
        proof {
            assert(self.inner@ =~= pre.update(i as int, e));
            lemma_chains_map_update(pre, i as int, e);
            if !install_ok(pre[i as int].1@, last_ts, rec) {
                lemma_chains_map_lookup(pre, i as int);
                assert(chains_map(pre).insert(e.0@, e.1@) =~= chains_map(pre));
            }
        }
        r
    }

    /// Add a chain for a key not yet present; refused when one is.
    pub fn insert(&mut self, k: Vec<u8>, chain: Chain) -> (r: Result<(), ()>)
        requires
            old(self).wf(),
        ensures
            final(self).wf(),
            old(self)@.contains_key(k@) ==> r == Err::<(), ()>(()) && final(self)@ == old(self)@
                && *final(self) == *old(self),
            !old(self)@.contains_key(k@) ==> {
                &&& r == Ok::<(), ()>(())
                &&& final(self)@ == old(self)@.insert(k@, chain@)
                &&& final(self).count() == old(self).count() + 1
                &&& final(self).key_at(old(self).count() as int) == k@
                &&& final(self).chain_seq_at(old(self).count() as int) == chain@
                &&& forall|j: int|
                    0 <= j < old(self).count() ==> final(self).key_at(j) == old(self).key_at(j)
                        && final(self).chain_seq_at(j) == old(self).chain_seq_at(j)
            },
    {
        proof {
            lemma_chains_map_contains(self.inner@, k@);
        }
        match self.find(&k) {
            Some(_) => Err(()),
            None => {
                let ghost pre = self.inner@;
                proof {
                    lemma_chains_map_push(self.inner@, (k, chain));
                }
                self.inner.push((k, chain));
                proof {
                    assert(forall|a: int|
                        0 <= a < pre.len() ==> #[trigger] pre[a] == self.inner@[a]);
                }
                Ok(())
            },
        }
    }
}

} // verus!
