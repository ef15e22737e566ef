//! In-memory model of the single-key atomic persistent store the engine
//! runs on: point get/set/delete, compare-and-set, and a prefix probe.  Its
//! abstract state is a map from byte keys to byte values.

use vstd::prelude::*;

verus! {

/// View of an `Option`al byte value.
pub open spec fn opt_bytes(o: Option<Vec<u8>>) -> Option<Seq<u8>> {
    match o {
        Some(v) => Some(v@),
        None => None,
    }
}

/// What a point read of `k` returns on abstract state `m`.
pub open spec fn read(m: Map<Seq<u8>, Seq<u8>>, k: Seq<u8>) -> Option<Seq<u8>> {
    if m.contains_key(k) {
        Some(m[k])
    } else {
        None
    }
}

spec fn distinct_keys(s: Seq<(Vec<u8>, Vec<u8>)>) -> bool {
    forall|i: int, j: int|
        0 <= i < j < s.len() ==> (#[trigger] s[i]).0@ != (#[trigger] s[j]).0@
}

spec fn map_of(s: Seq<(Vec<u8>, Vec<u8>)>) -> Map<Seq<u8>, Seq<u8>>
    decreases s.len(),
{
    if s.len() == 0 {
        Map::empty()
    } else {
        map_of(s.drop_last()).insert(s.last().0@, s.last().1@)
    }
}

proof fn lemma_map_of_contains(s: Seq<(Vec<u8>, Vec<u8>)>, k: Seq<u8>)
    ensures
        map_of(s).contains_key(k) <==> exists|i: int|
            0 <= i < s.len() && (#[trigger] s[i]).0@ == k,
    decreases s.len(),
{
    if s.len() == 0 {
    } else {
        lemma_map_of_contains(s.drop_last(), k);
        if map_of(s).contains_key(k) {
            if s.last().0@ == k {
                assert((s[s.len() - 1]).0@ == k);
            } else {
                let i = choose|i: int| 0 <= i < s.drop_last().len() && (#[trigger] s.drop_last()[i]).0@ == k;
                assert((s[i]).0@ == k);
            }
        }
        if exists|i: int| 0 <= i < s.len() && (#[trigger] s[i]).0@ == k {
            let i = choose|i: int| 0 <= i < s.len() && (#[trigger] s[i]).0@ == k;
            if i < s.len() - 1 {
                assert((s.drop_last()[i]).0@ == k);
            }
        }
    }
}

proof fn lemma_map_of_lookup(s: Seq<(Vec<u8>, Vec<u8>)>, i: int)
    requires
        distinct_keys(s),
        0 <= i < s.len(),
    ensures
        map_of(s).contains_key(s[i].0@),
        map_of(s)[s[i].0@] == s[i].1@,
    decreases s.len(),
{
    if i == s.len() - 1 {
    } else {
        assert(s.drop_last()[i] == s[i]);
        lemma_map_of_lookup(s.drop_last(), i);
        assert(s[i].0@ != s.last().0@);
    }
}

proof fn lemma_map_of_push(s: Seq<(Vec<u8>, Vec<u8>)>, x: (Vec<u8>, Vec<u8>))
    ensures
        map_of(s.push(x)) == map_of(s).insert(x.0@, x.1@),
{
    assert(s.push(x).drop_last() =~= s);
    assert(s.push(x).last() == x);
}

proof fn lemma_map_of_remove(s: Seq<(Vec<u8>, Vec<u8>)>, i: int)
    requires
        distinct_keys(s),
        0 <= i < s.len(),
    ensures
        distinct_keys(s.remove(i)),
        map_of(s.remove(i)) == map_of(s).remove(s[i].0@),
    decreases s.len(),
{
    let k = s[i].0@;
    assert forall|a: int, b: int| 0 <= a < b < s.remove(i).len() implies (#[trigger] s.remove(
        i,
    )[a]).0@ != (#[trigger] s.remove(i)[b]).0@ by {
        let a0 = if a < i {
            a
        } else {
            a + 1
        };
        let b0 = if b < i {
            b
        } else {
            b + 1
        };
        assert(s.remove(i)[a] == s[a0] && s.remove(i)[b] == s[b0]);
    }
    if i == s.len() - 1 {
        assert(s.remove(i) =~= s.drop_last());
        lemma_map_of_contains(s.drop_last(), k);
        assert(!map_of(s.drop_last()).contains_key(k));
        assert(map_of(s.drop_last()) =~= map_of(s).remove(k));
    } else {
        assert(s.remove(i).drop_last() =~= s.drop_last().remove(i));
        assert(s.remove(i).last() == s.last());
        lemma_map_of_remove(s.drop_last(), i);
        assert(s[i].0@ != s.last().0@);
        assert(map_of(s.drop_last()).remove(k).insert(s.last().0@, s.last().1@) =~= map_of(
            s.drop_last(),
        ).insert(s.last().0@, s.last().1@).remove(k));
    }
}

/// Compare two byte vectors for equality of contents.
pub fn bytes_eq(a: &Vec<u8>, b: &Vec<u8>) -> (r: bool)
    ensures
        r <==> a@ == b@,
{
    let r = a == b;
    proof {
        if r {
            assert(a@ =~= b@);
        } else {
            if a@ == b@ {
                assert(forall|i: int| 0 <= i < a@.len() ==> a@[i] == b@[i]);
            }
        }
    }
    r
}

/// Copy a byte vector.
pub fn clone_bytes(v: &Vec<u8>) -> (r: Vec<u8>)
    ensures
        r@ == v@,
{
    let r = v.clone();
    proof {
        assert(r@ =~= v@);
    }
    r
}

/// The in-memory store: a list of key/value entries with distinct keys.
pub struct Store {
    entries: Vec<(Vec<u8>, Vec<u8>)>,
}

impl View for Store {
    type V = Map<Seq<u8>, Seq<u8>>;

    closed spec fn view(&self) -> Map<Seq<u8>, Seq<u8>> {
        map_of(self.entries@)
    }
}

impl Store {
    /// Entries hold pairwise distinct keys.
    pub closed spec fn wf(self) -> bool {
        distinct_keys(self.entries@)
    }

    /// Number of keys currently present.
    pub closed spec fn entry_count(self) -> nat {
        self.entries@.len()
    }

    pub fn new() -> (r: Store)
        ensures
            r.wf(),
            r@ == Map::<Seq<u8>, Seq<u8>>::empty(),
            r.entry_count() == 0,
    {
        Store { entries: Vec::new() }
    }

    fn find(&self, k: &Vec<u8>) -> (r: Option<usize>)
        ensures
            match r {
                Some(i) => i < self.entries@.len() && self.entries@[i as int].0@ == k@,
                None => forall|i: int|
                    0 <= i < self.entries@.len() ==> (#[trigger] self.entries@[i]).0@ != k@,
            },
    {
        let mut i: usize = 0;
        while i < self.entries.len()
            invariant
                i <= self.entries@.len(),
                forall|j: int| 0 <= j < i ==> (#[trigger] self.entries@[j]).0@ != k@,
            decreases self.entries@.len() - i,
        {
            if bytes_eq(&self.entries[i].0, k) {
                return Some(i);
            }
            i += 1;
        }
        None
    }

    pub fn get(&self, k: &Vec<u8>) -> (r: Option<&Vec<u8>>)
        requires
            self.wf(),
        ensures
            match r {
                Some(v) => self@.contains_key(k@) && v@ == self@[k@],
                None => !self@.contains_key(k@),
            },
    {
        match self.find(k) {
            Some(i) => {
                proof {
                    lemma_map_of_lookup(self.entries@, i as int);
                }
                Some(&self.entries[i].1)
            },
            None => {
                proof {
                    lemma_map_of_contains(self.entries@, k@);
                }
                None
            },
        }
    }

    pub fn set(&mut self, k: Vec<u8>, v: Vec<u8>)
        requires
            old(self).wf(),
        ensures
            final(self).wf(),
            final(self)@ == old(self)@.insert(k@, v@),
            old(self)@.contains_key(k@) ==> final(self).entry_count() == old(self).entry_count(),
            !old(self)@.contains_key(k@) ==> final(self).entry_count() == old(self).entry_count()
                + 1,
    {
        proof {
            lemma_map_of_contains(self.entries@, k@);
        }
        match self.find(&k) {
            Some(i) => {
                proof {
                    lemma_map_of_remove(self.entries@, i as int);
                }
                let ghost pre = self.entries@;
                self.entries.remove(i);
                proof {
                    lemma_map_of_push(self.entries@, (k, v));
                    lemma_map_of_contains(self.entries@, k@);
                }
                let ghost mid = self.entries@;
                self.entries.push((k, v));
                proof {
                    assert(self.entries@ == mid.push((k, v)));
                    assert(forall|a: int|
                        0 <= a < mid.len() ==> #[trigger] mid[a] == self.entries@[a]);
                    assert(map_of(pre).remove(k@).insert(k@, v@) =~= map_of(pre).insert(k@, v@));
                }
            },
            None => {
                let ghost pre = self.entries@;
                proof {
                    lemma_map_of_push(self.entries@, (k, v));
                }
                self.entries.push((k, v));
                proof {
                    assert(forall|a: int|
                        0 <= a < pre.len() ==> #[trigger] pre[a] == self.entries@[a]);
                }
            },
        }
    }

    pub fn del(&mut self, k: &Vec<u8>)
        requires
            old(self).wf(),
        ensures
            final(self).wf(),
            final(self)@ == old(self)@.remove(k@),
            old(self)@.contains_key(k@) ==> final(self).entry_count() + 1 == old(
                self,
            ).entry_count(),
            !old(self)@.contains_key(k@) ==> final(self).entry_count() == old(self).entry_count(),
    {
        proof {
            lemma_map_of_contains(self.entries@, k@);
        }
        match self.find(k) {
            Some(i) => {
                proof {
                    lemma_map_of_remove(self.entries@, i as int);
                }
                self.entries.remove(i);
            },
            None => {
                proof {
                    assert(map_of(self.entries@).remove(k@) =~= map_of(self.entries@));
                }
            },
        }
    }

    /// Atomic compare-and-set of one key against an expected current value.
    /// On mismatch the state is unchanged and the actual value comes back.
    pub fn cas(&mut self, k: Vec<u8>, expected: Option<Vec<u8>>, new_v: Option<Vec<u8>>) -> (r:
        Result<(), Option<Vec<u8>>>)
        requires
            old(self).wf(),
        ensures
            final(self).wf(),
            read(old(self)@, k@) == opt_bytes(expected) ==> {
                &&& r is Ok
                &&& match new_v {
                    Some(v) => final(self)@ == old(self)@.insert(k@, v@),
                    None => final(self)@ == old(self)@.remove(k@),
                }
            },
            read(old(self)@, k@) != opt_bytes(expected) ==> {
                &&& r matches Err(actual)
                &&& opt_bytes(actual) == read(old(self)@, k@)
                &&& final(self)@ == old(self)@
            },
            final(self).entry_count() <= old(self).entry_count() + 1,
            old(self)@.contains_key(k@) ==> final(self).entry_count() <= old(self).entry_count(),
    {
        let idx = self.find(&k);
        proof {
            lemma_map_of_contains(self.entries@, k@);
            match idx {
                Some(i) => {
                    lemma_map_of_lookup(self.entries@, i as int);
                },
                None => {},
            }
        }
        let matched = match (idx, &expected) {
            (Some(i), Some(e)) => bytes_eq(&self.entries[i].1, e),
            (None, None) => true,
            _ => false,
        };
        if matched {
            match new_v {
                Some(v) => self.set(k, v),
                None => self.del(&k),
            }
            Ok(())
        } else {
            match idx {
                Some(i) => Err(Some(clone_bytes(&self.entries[i].1))),
                None => Err(None),
            }
        }
    }

    /// All entries, as owned pairs; the abstract state, spelled out.
    pub fn snapshot(&self) -> (r: Vec<(Vec<u8>, Vec<u8>)>)
        requires
            self.wf(),
        ensures
            forall|i: int|
                0 <= i < r@.len() ==> self@.contains_key((#[trigger] r@[i]).0@) && self@[r@[i].0@]
                    == r@[i].1@,
            forall|k: Seq<u8>|
                self@.contains_key(k) ==> exists|i: int|
                    0 <= i < r@.len() && (#[trigger] r@[i]).0@ == k,
    {
        let mut r: Vec<(Vec<u8>, Vec<u8>)> = Vec::new();
        let mut i: usize = 0;
        while i < self.entries.len()
            invariant
                self.wf(),
                i <= self.entries@.len(),
                r@.len() == i,
                forall|j: int|
                    0 <= j < i ==> (#[trigger] r@[j]).0@ == self.entries@[j].0@ && r@[j].1@
                        == self.entries@[j].1@,
            decreases self.entries@.len() - i,
        {
            let k = clone_bytes(&self.entries[i].0);
            let v = clone_bytes(&self.entries[i].1);
            r.push((k, v));
            i += 1;
        }
        proof {
            assert forall|j: int|
                0 <= j < r@.len() implies self@.contains_key((#[trigger] r@[j]).0@)
                && self@[r@[j].0@] == r@[j].1@ by {
                lemma_map_of_lookup(self.entries@, j);
            }
            assert forall|k: Seq<u8>| self@.contains_key(k) implies exists|i2: int|
                0 <= i2 < r@.len() && (#[trigger] r@[i2]).0@ == k by {
                lemma_map_of_contains(self.entries@, k);
                let j = choose|j: int|
                    0 <= j < self.entries@.len() && (#[trigger] self.entries@[j]).0@ == k;
                assert(r@[j].0@ == k);
            }
        }
        r
    }

    /// Probe for any key that starts with the namespace byte `p`.
    pub fn first_key_with_prefix(&self, p: u8) -> (r: Option<(Vec<u8>, Vec<u8>)>)
        requires
            self.wf(),
        ensures
            match r {
                Some(kv) => {
                    &&& kv.0@.len() > 0
                    &&& kv.0@[0] == p
                    &&& self@.contains_key(kv.0@)
                    &&& self@[kv.0@] == kv.1@
                },
                None => forall|k: Seq<u8>|
                    self@.contains_key(k) ==> !(k.len() > 0 && k[0] == p),
            },
    {
        let mut i: usize = 0;
        while i < self.entries.len()
            invariant
                self.wf(),
                i <= self.entries@.len(),
                forall|j: int|
                    0 <= j < i ==> !((#[trigger] self.entries@[j]).0@.len() > 0
                        && self.entries@[j].0@[0] == p),
            decreases self.entries@.len() - i,
        {
            if self.entries[i].0.len() > 0 && self.entries[i].0[0] == p {
                proof {
                    lemma_map_of_lookup(self.entries@, i as int);
                }
                let key = clone_bytes(&self.entries[i].0);
                let val = clone_bytes(&self.entries[i].1);
                return Some((key, val));
            }
            i += 1;
        }
        proof {
            assert forall|k: Seq<u8>| self@.contains_key(k) implies !(k.len() > 0 && k[0]
                == p) by {
                lemma_map_of_contains(self.entries@, k);
            }
        }
        None
    }
}

} // verus!
