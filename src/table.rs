//! One table of the store: a finite map from byte keys to byte values.
use vstd::prelude::*;

use crate::bytes::{bytes_eq, copy_bytes};

verus! {

/// The entries of a table as pairs of key and value.
pub type Entries = Seq<(Seq<u8>, Seq<u8>)>;

/// No two entries share a key.
pub open spec fn keys_distinct(s: Entries) -> bool {
    forall|i: int, j: int|
        0 <= i < s.len() && 0 <= j < s.len() && i != j ==> #[trigger] s[i].0 != #[trigger] s[j].0
}

/// Some entry has key `k`.
pub open spec fn has_key(s: Entries, k: Seq<u8>) -> bool {
    exists|i: int| 0 <= i < s.len() && (#[trigger] s[i]).0 == k
}

/// The map that a sequence of entries with distinct keys stands for.
pub open spec fn map_of(s: Entries) -> Map<Seq<u8>, Seq<u8>> {
    Map::new(
        |k: Seq<u8>| has_key(s, k),
        |k: Seq<u8>| s[choose|i: int| 0 <= i < s.len() && (#[trigger] s[i]).0 == k].1,
    )
}

/// An entry of a sequence with distinct keys is what the map holds at its key.
pub proof fn lemma_map_of_at(s: Entries, i: int)
    requires
        keys_distinct(s),
        0 <= i < s.len(),
    ensures
        map_of(s).contains_key(s[i].0),
        map_of(s)[s[i].0] == s[i].1,
{
    let k = s[i].0;
    assert(has_key(s, k));
    let j = choose|j: int| 0 <= j < s.len() && (#[trigger] s[j]).0 == k;
    assert(j == i);
}

/// One stored record.
#[derive(Debug)]
pub struct Record {
    pub key: Vec<u8>,
    pub value: Vec<u8>,
}

/// A table: records with pairwise distinct keys.
#[derive(Debug)]
pub struct Table {
    records: Vec<Record>,
}

impl Table {
    pub closed spec fn entries(&self) -> Entries {
        self.records@.map_values(|r: Record| (r.key@, r.value@))
    }

    pub open spec fn wf(&self) -> bool {
        keys_distinct(self.entries())
    }

    /// An empty table.
    pub fn new() -> (t: Table)
        ensures
            t.wf(),
            t@ == Map::<Seq<u8>, Seq<u8>>::empty(),
            t.entries().len() == 0,
    {
        let t = Table { records: Vec::new() };
        assert(t@ =~= Map::<Seq<u8>, Seq<u8>>::empty());
        t
    }

    /// Number of records.
    pub fn len(&self) -> (n: usize)
        ensures
            n == self.entries().len(),
    {
        self.records.len()
    }

    /// The key of the `i`-th record in scan order.
    pub fn key_at(&self, i: usize) -> (k: &Vec<u8>)
        requires
            i < self.entries().len(),
        ensures
            k@ == self.entries()[i as int].0,
    {
        &self.records[i].key
    }

    /// The value of the `i`-th record in scan order.
    pub fn value_at(&self, i: usize) -> (v: &Vec<u8>)
        requires
            i < self.entries().len(),
        ensures
            v@ == self.entries()[i as int].1,
    {
        &self.records[i].value
    }

    /// The position of the record with key `key`, if any.
    pub fn find(&self, key: &[u8]) -> (r: Option<usize>)
        requires
            self.wf(),
        ensures
            r is None <==> !self@.contains_key(key@),
            r matches Some(i) ==> i < self.entries().len() && self.entries()[i as int].0 == key@
                && self@[key@] == self.entries()[i as int].1,
    {
        let mut i: usize = 0;
        while i < self.records.len()
            invariant
                self.wf(),
                0 <= i <= self.entries().len(),
                self.entries().len() == self.records@.len(),
                forall|j: int| 0 <= j < i ==> (#[trigger] self.entries()[j]).0 != key@,
            decreases self.records@.len() - i,
        {
            if bytes_eq(self.records[i].key.as_slice(), key) {
                proof {
                    lemma_map_of_at(self.entries(), i as int);
                }
                return Some(i);
            }
            i = i + 1;
        }
        None
    }

    /// The value stored under `key`, if any.
    pub fn get(&self, key: &[u8]) -> (r: Option<&Vec<u8>>)
        requires
            self.wf(),
        ensures
            r is None <==> !self@.contains_key(key@),
            r matches Some(v) ==> v@ == self@[key@],
    {
        match self.find(key) {
            Some(i) => Some(&self.records[i].value),
            None => None,
        }
    }

    /// Stores `value` under `key`, replacing what was there.
    pub fn put(&mut self, key: Vec<u8>, value: Vec<u8>)
        requires
            old(self).wf(),
        ensures
            final(self).wf(),
            final(self)@ == old(self)@.insert(key@, value@),
    {
        let ghost k = key@;
        let ghost v = value@;
        let ghost m = self@.insert(k, v);
        match self.find(key.as_slice()) {
            Some(i) => {
                let ghost s0 = self.entries();
                self.records.set(i, Record { key, value });
                let ghost s1 = self.entries();
                assert(s1 =~= s0.update(i as int, (k, v)));
                assert forall|a: int, b: int|
                    0 <= a < s1.len() && 0 <= b < s1.len() && a != b implies #[trigger] s1[a].0
                    != #[trigger] s1[b].0 by {
                    if a != i && b != i {
                        assert(s0[a] == s1[a] && s0[b] == s1[b]);
                    }
                }
                assert forall|x: Seq<u8>| #[trigger] self@.contains_key(x) <==> m.contains_key(x) by {
                    if m.contains_key(x) {
                        if x != k {
                            let j = choose|j: int| 0 <= j < s0.len() && (#[trigger] s0[j]).0 == x;
                            assert(s1[j].0 == x);
                        } else {
                            assert(s1[i as int].0 == x);
                        }
                        assert(has_key(s1, x));
                    }
                    if has_key(s1, x) {
                        let j = choose|j: int| 0 <= j < s1.len() && (#[trigger] s1[j]).0 == x;
                        if j != i {
                            assert(s0[j] == s1[j]);
                            assert(has_key(s0, x));
                        }
                    }
                }
                assert forall|x: Seq<u8>| #[trigger] m.contains_key(x) implies self@[x] == m[x] by {
                    assert(self@.contains_key(x));
                    assert(has_key(s1, x));
                    let j = choose|j: int| 0 <= j < s1.len() && (#[trigger] s1[j]).0 == x;
                    lemma_map_of_at(s1, j);
                    if j != i {
                        assert(s0[j] == s1[j]);
                        lemma_map_of_at(s0, j);
                    }
                }
                assert(self@ =~= m);
            },
            None => {
                let ghost s0 = self.entries();
                self.records.push(Record { key, value });
                let ghost s1 = self.entries();
                assert(s1 =~= s0.push((k, v)));
                let ghost n = s0.len() as int;
                assert forall|a: int, b: int|
                    0 <= a < s1.len() && 0 <= b < s1.len() && a != b implies #[trigger] s1[a].0
                    != #[trigger] s1[b].0 by {
                    if a != n && b != n {
                        assert(s0[a] == s1[a] && s0[b] == s1[b]);
                    } else if a == n {
                        assert(s0[b] == s1[b]);
                    } else {
                        assert(s0[a] == s1[a]);
                    }
                }
                assert forall|x: Seq<u8>| #[trigger] self@.contains_key(x) <==> m.contains_key(x) by {
                    if m.contains_key(x) {
                        if x != k {
                            let j = choose|j: int| 0 <= j < s0.len() && (#[trigger] s0[j]).0 == x;
                            assert(s1[j].0 == x);
                        } else {
                            assert(s1[n].0 == x);
                        }
                        assert(has_key(s1, x));
                    }
                    if has_key(s1, x) {
                        let j = choose|j: int| 0 <= j < s1.len() && (#[trigger] s1[j]).0 == x;
                        if j != n {
                            assert(s0[j] == s1[j]);
                            assert(has_key(s0, x));
                        }
                    }
                }
                assert forall|x: Seq<u8>| #[trigger] m.contains_key(x) implies self@[x] == m[x] by {
                    assert(self@.contains_key(x));
                    assert(has_key(s1, x));
                    let j = choose|j: int| 0 <= j < s1.len() && (#[trigger] s1[j]).0 == x;
                    lemma_map_of_at(s1, j);
                    if j != n {
                        assert(s0[j] == s1[j]);
                        lemma_map_of_at(s0, j);
                    }
                }
                assert(self@ =~= m);
            },
        }
    }

    /// Removes the record under `key`, if there is one.
    pub fn delete(&mut self, key: &[u8])
        requires
            old(self).wf(),
        ensures
            final(self).wf(),
            final(self)@ == old(self)@.remove(key@),
    {
        let ghost m = self@.remove(key@);
        match self.find(key) {
            Some(i) => {
                let ghost s0 = self.entries();
                let _ = self.records.remove(i);
                let ghost s1 = self.entries();
                assert(s1 =~= s0.remove(i as int));
                assert forall|a: int, b: int|
                    0 <= a < s1.len() && 0 <= b < s1.len() && a != b implies #[trigger] s1[a].0
                    != #[trigger] s1[b].0 by {
                    let a0 = if a < i { a } else { a + 1 };
                    let b0 = if b < i { b } else { b + 1 };
                    assert(s1[a] == s0[a0] && s1[b] == s0[b0]);
                }
                assert forall|x: Seq<u8>| #[trigger] self@.contains_key(x) <==> m.contains_key(x) by {
                    if m.contains_key(x) {
                        let j = choose|j: int| 0 <= j < s0.len() && (#[trigger] s0[j]).0 == x;
                        assert(j != i);
                        let j1 = if j < i { j } else { j - 1 };
                        assert(s1[j1] == s0[j]);
                        assert(has_key(s1, x));
                    }
                    if has_key(s1, x) {
                        let j = choose|j: int| 0 <= j < s1.len() && (#[trigger] s1[j]).0 == x;
                        let j0 = if j < i { j } else { j + 1 };
                        assert(s0[j0] == s1[j]);
                        assert(has_key(s0, x));
                    }
                }
                assert forall|x: Seq<u8>| #[trigger] m.contains_key(x) implies self@[x] == m[x] by {
                    assert(self@.contains_key(x));
                    assert(has_key(s1, x));
                    let j = choose|j: int| 0 <= j < s1.len() && (#[trigger] s1[j]).0 == x;
                    lemma_map_of_at(s1, j);
                    let j0 = if j < i { j } else { j + 1 };
                    assert(s0[j0] == s1[j]);
                    lemma_map_of_at(s0, j0);
                }
                assert(self@ =~= m);
            },
            None => {
                assert(self@ =~= m);
            },
        }
    }

    /// A copy of the table holding the same records in the same order.
    pub fn copy(&self) -> (t: Table)
        requires
            self.wf(),
        ensures
            t.wf(),
            t.entries() == self.entries(),
            t@ == self@,
    {
        let mut records: Vec<Record> = Vec::with_capacity(self.records.len());
        let mut i: usize = 0;
        while i < self.records.len()
            invariant
                0 <= i <= self.records@.len(),
                records@.map_values(|r: Record| (r.key@, r.value@)) =~= self.entries().subrange(
                    0,
                    i as int,
                ),
            decreases self.records@.len() - i,
        {
            let key = copy_bytes(self.records[i].key.as_slice());
            let value = copy_bytes(self.records[i].value.as_slice());
            let ghost prev = records@;
            records.push(Record { key, value });
            proof {
                assert(records@ == prev.push(records@.last()));
                assert(records@.map_values(|r: Record| (r.key@, r.value@)) =~= prev.map_values(
                    |r: Record| (r.key@, r.value@),
                ).push(self.entries()[i as int]));
                assert(self.entries().subrange(0, i + 1) =~= self.entries().subrange(
                    0,
                    i as int,
                ).push(self.entries()[i as int]));
            }
            i = i + 1;
        }
        let t = Table { records };
        assert(t.entries() =~= self.entries());
        t
    }
}

impl View for Table {
    type V = Map<Seq<u8>, Seq<u8>>;

    open spec fn view(&self) -> Map<Seq<u8>, Seq<u8>> {
        map_of(self.entries())
    }
}

} // verus!
