//! The in-memory index: for each live key, where its latest record lies.

use vstd::prelude::*;
use vstd::slice::slice_to_vec;

verus! {

/// Where a record lies: the byte offset of its frame within its log file,
/// the length of the record after the frame's length field, and the file.
#[derive(Debug, Clone, Copy, PartialEq, Eq, Structural)]
pub struct MapValue {
    pub offset: u32,
    pub record_size: u32,
    pub file_id: u32,
}

/// Whether two byte strings are equal.
pub fn bytes_eq(a: &[u8], b: &[u8]) -> (eq: bool)
    ensures
        eq == (a@ == b@),
{
    if a.len() != b.len() {
        return false;
    }
    let mut i: usize = 0;
    while i < a.len()
        invariant
            a@.len() == b@.len(),
            i <= a@.len(),
            forall|j: int| 0 <= j < i ==> a@[j] == b@[j],
        decreases a@.len() - i,
    {
        if a[i] != b[i] {
            return false;
        }
        i = i + 1;
    }
    assert(a@ =~= b@);
    true
}

/// A map from keys to record locations, kept as a list of distinct keys.
pub struct KeyIndex {
    entries: Vec<(Vec<u8>, MapValue)>,
    map: Ghost<Map<Seq<u8>, MapValue>>,
}

impl View for KeyIndex {
    type V = Map<Seq<u8>, MapValue>;

    closed spec fn view(&self) -> Map<Seq<u8>, MapValue> {
        self.map@
    }
}

impl KeyIndex {
    /// The list holds each key once, and holds exactly the map.
    pub closed spec fn wf(&self) -> bool {
        &&& forall|i: int|
            0 <= i < self.entries@.len() ==> {
                &&& #[trigger] self.map@.contains_key(self.entries@[i].0@)
                &&& self.map@[self.entries@[i].0@] == self.entries@[i].1
            }
        &&& forall|i: int, j: int|
            0 <= i < j < self.entries@.len() ==> #[trigger] self.entries@[i].0@
                != #[trigger] self.entries@[j].0@
        &&& forall|k: Seq<u8>|
            #[trigger] self.map@.contains_key(k) ==> exists|i: int|
                0 <= i < self.entries@.len() && #[trigger] self.entries@[i].0@ == k
    }

    /// The empty index.
    pub fn new() -> (idx: KeyIndex)
        ensures
            idx.wf(),
            idx@ == Map::<Seq<u8>, MapValue>::empty(),
    {
        KeyIndex { entries: Vec::new(), map: Ghost(Map::empty()) }
    }

    /// The position of `key` in the list, if it is there.
    fn find(&self, key: &[u8]) -> (pos: Option<usize>)
        requires
            self.wf(),
        ensures
            match pos {
                Some(i) => i < self.entries@.len() && self.entries@[i as int].0@ == key@,
                None => !self@.contains_key(key@),
            },
    {
        let mut i: usize = 0;
        while i < self.entries.len()
            invariant
                self.wf(),
                i <= self.entries@.len(),
                forall|j: int| 0 <= j < i ==> self.entries@[j].0@ != key@,
            decreases self.entries@.len() - i,
        {
            if bytes_eq(self.entries[i].0.as_slice(), key) {
                return Some(i);
            }
            i = i + 1;
        }
        proof {
            if self@.contains_key(key@) {
                let w = choose|j: int| 0 <= j < self.entries@.len() && self.entries@[j].0@ == key@;
                assert(self.entries@[w].0@ == key@);
            }
        }
        None
    }

    /// Whether `key` has an entry.
    pub fn contains(&self, key: &[u8]) -> (b: bool)
        requires
            self.wf(),
        ensures
            b == self@.contains_key(key@),
    {
        match self.find(key) {
            Some(_) => true,
            None => false,
        }
    }

    /// The entry of `key`, if it has one.
    pub fn get(&self, key: &[u8]) -> (v: Option<MapValue>)
        requires
            self.wf(),
        ensures
            v == (if self@.contains_key(key@) {
                Some(self@[key@])
            } else {
                None
            }),
    {
        match self.find(key) {
            Some(i) => Some(self.entries[i].1),
            None => None,
        }
    }

    /// Gives `key` the entry `v`, in place of any it had.
    pub fn insert(&mut self, key: &[u8], v: MapValue)
        requires
            old(self).wf(),
        ensures
            final(self).wf(),
            final(self)@ == old(self)@.insert(key@, v),
    {
        let pos = self.find(key);
        let ghost old_entries = self.entries@;
        match pos {
            Some(i) => {
                self.entries[i] = (slice_to_vec(key), v);
                proof {
                    self.map@ = self.map@.insert(key@, v);
                    assert forall|j: int| 0 <= j < self.entries@.len() implies {
                        &&& #[trigger] self.map@.contains_key(self.entries@[j].0@)
                        &&& self.map@[self.entries@[j].0@] == self.entries@[j].1
                    } by {
                        if j != i {
                            assert(self.entries@[j] == old_entries[j]);
                            assert(old(self).map@.contains_key(old(self).entries@[j].0@));
                            assert(old_entries[j].0@ != old_entries[i as int].0@);
                        } else {
                            assert(self.entries@[j].0@ == key@);
                        }
                    }
                    assert forall|a: int, b: int|
                        0 <= a < b < self.entries@.len() implies #[trigger] self.entries@[a].0@
                        != #[trigger] self.entries@[b].0@ by {
                        assert(self.entries@[a].0@ == old_entries[a].0@);
                        assert(self.entries@[b].0@ == old_entries[b].0@);
                    }
                    assert forall|k: Seq<u8>| #[trigger] self.map@.contains_key(k) implies exists|
                        j: int,
                    | 0 <= j < self.entries@.len() && #[trigger] self.entries@[j].0@ == k by {
                        if k == key@ {
                            assert(self.entries@[i as int].0@ == k);
                        } else {
                            let w = choose|j: int|
                                0 <= j < old_entries.len() && old_entries[j].0@ == k;
                            assert(self.entries@[w].0@ == k);
                        }
                    }
                }
            },
            None => {
                self.entries.push((slice_to_vec(key), v));
                proof {
                    self.map@ = self.map@.insert(key@, v);
                    let n = old_entries.len() as int;
                    assert(self.entries@[n].0@ == key@);
                    assert forall|j: int| 0 <= j < self.entries@.len() implies {
                        &&& #[trigger] self.map@.contains_key(self.entries@[j].0@)
                        &&& self.map@[self.entries@[j].0@] == self.entries@[j].1
                    } by {
                        if j < n {
                            assert(self.entries@[j] == old_entries[j]);
                            assert(old(self).map@.contains_key(old_entries[j].0@));
                        }
                    }
                    assert forall|a: int, b: int|
                        0 <= a < b < self.entries@.len() implies #[trigger] self.entries@[a].0@
                        != #[trigger] self.entries@[b].0@ by {
                        assert(self.entries@[a] == old_entries[a]);
                        if b < n {
                            assert(self.entries@[b] == old_entries[b]);
                        } else {
                            assert(old(self).map@.contains_key(old_entries[a].0@));
                        }
                    }
                    assert forall|k: Seq<u8>| #[trigger] self.map@.contains_key(k) implies exists|
                        j: int,
                    | 0 <= j < self.entries@.len() && #[trigger] self.entries@[j].0@ == k by {
                        if k == key@ {
                            assert(self.entries@[n].0@ == k);
                        } else {
                            let w = choose|j: int|
                                0 <= j < old_entries.len() && old_entries[j].0@ == k;
                            assert(self.entries@[w].0@ == k);
                        }
                    }
                }
            },
        }
    }

    /// Drops the entry of `key`, if it has one.
    pub fn remove(&mut self, key: &[u8])
        requires
            old(self).wf(),
        ensures
            final(self).wf(),
            final(self)@ == old(self)@.remove(key@),
    {
        let pos = self.find(key);
        match pos {
            Some(i) => {
                let ghost old_entries = self.entries@;
                self.entries.remove(i);
                proof {
                    self.map@ = self.map@.remove(key@);
                    assert forall|j: int| 0 <= j < self.entries@.len() implies {
                        &&& #[trigger] self.map@.contains_key(self.entries@[j].0@)
                        &&& self.map@[self.entries@[j].0@] == self.entries@[j].1
                    } by {
                        if j < i {
                            assert(self.entries@[j] == old_entries[j]);
                        } else {
                            assert(self.entries@[j] == old_entries[j + 1]);
                        }
                    }
                    assert forall|a: int, b: int|
                        0 <= a < b < self.entries@.len() implies #[trigger] self.entries@[a].0@
                        != #[trigger] self.entries@[b].0@ by {
                        let a2 = if a < i { a } else { a + 1 };
                        let b2 = if b < i { b } else { b + 1 };
                        assert(self.entries@[a] == old_entries[a2]);
                        assert(self.entries@[b] == old_entries[b2]);
                    }
                    assert forall|k: Seq<u8>| #[trigger] self.map@.contains_key(k) implies exists|
                        j: int,
                    | 0 <= j < self.entries@.len() && #[trigger] self.entries@[j].0@ == k by {
                        let w = choose|j: int|
                            0 <= j < old_entries.len() && old_entries[j].0@ == k;
                        assert(w != i);
                        if w < i {
                            assert(self.entries@[w].0@ == k);
                        } else {
                            assert(self.entries@[w - 1].0@ == k);
                        }
                    }
                }
            },
            None => {
                proof {
                    assert(self.map@.remove(key@) =~= self.map@);
                }
            },
        }
    }
    /// Every key that has an entry, each once.
    pub fn keys(&self) -> (ks: Vec<Vec<u8>>)
        requires
            self.wf(),
        ensures
            forall|i: int| 0 <= i < ks@.len() ==> #[trigger] self@.contains_key(ks@[i]@),
            forall|i: int, j: int| 0 <= i < j < ks@.len() ==> #[trigger] ks@[i]@ != #[trigger] ks@[j]@,
            forall|k: Seq<u8>|
                #[trigger] self@.contains_key(k) ==> exists|i: int|
                    0 <= i < ks@.len() && #[trigger] ks@[i]@ == k,
    {
        let mut ks: Vec<Vec<u8>> = Vec::new();
        let mut i: usize = 0;
        while i < self.entries.len()
            invariant
                self.wf(),
                i <= self.entries@.len(),
                ks@.len() == i,
                forall|j: int| 0 <= j < i ==> #[trigger] ks@[j]@ == self.entries@[j].0@,
            decreases self.entries@.len() - i,
        {
            ks.push(slice_to_vec(self.entries[i].0.as_slice()));
            i = i + 1;
        }
        proof {
            assert forall|a: int, b: int| 0 <= a < b < ks@.len() implies #[trigger] ks@[a]@
                != #[trigger] ks@[b]@ by {
                assert(ks@[a]@ == self.entries@[a].0@);
                assert(ks@[b]@ == self.entries@[b].0@);
            }
            assert forall|k: Seq<u8>| #[trigger] self@.contains_key(k) implies exists|j: int|
                0 <= j < ks@.len() && #[trigger] ks@[j]@ == k by {
                let w = choose|j: int| 0 <= j < self.entries@.len() && self.entries@[j].0@ == k;
                assert(ks@[w]@ == k);
            }
            assert forall|j: int| 0 <= j < ks@.len() implies #[trigger] self@.contains_key(
                ks@[j]@,
            ) by {
                assert(ks@[j]@ == self.entries@[j].0@);
            }
        }
        ks
    }

    /// The entries that lie outside file `file_id`, one for each such key.
    pub fn entries_outside(&self, file_id: u32) -> (r: (Vec<Vec<u8>>, Vec<MapValue>))
        requires
            self.wf(),
        ensures
            lists_entries_outside(self@, file_id, key_views(r.0@), r.1@),
    {
        let mut keys: Vec<Vec<u8>> = Vec::new();
        let mut vs: Vec<MapValue> = Vec::new();
        let ghost mut ks: Seq<Seq<u8>> = Seq::empty();
        let ghost mut from: Seq<int> = Seq::empty();
        let mut i: usize = 0;
        while i < self.entries.len()
            invariant
                self.wf(),
                i <= self.entries@.len(),
                ks.len() == vs@.len(),
                ks == key_views(keys@),
                from.len() == vs@.len(),
                forall|j: int|
                    0 <= j < from.len() ==> 0 <= #[trigger] from[j] < i && self.entries@[from[j]].0@
                        == ks[j] && self.entries@[from[j]].1 == vs@[j],
                forall|a: int, b: int| 0 <= a < b < from.len() ==> #[trigger] from[a] < #[trigger] from[b],
                forall|j: int|
                    0 <= j < i && (#[trigger] self.entries@[j]).1.file_id != file_id ==> exists|
                        t: int,
                    | 0 <= t < from.len() && from[t] == j,
                forall|j: int| 0 <= j < vs@.len() ==> (#[trigger] vs@[j]).file_id != file_id,
            decreases self.entries@.len() - i,
        {
            let v = self.entries[i].1;
            let ghost from0 = from;
            if v.file_id != file_id {
                vs.push(v);
                keys.push(slice_to_vec(self.entries[i].0.as_slice()));
                proof {
                    ks = ks.push(self.entries@[i as int].0@);
                    assert(ks =~= key_views(keys@));
                    from = from.push(i as int);
                    assert(from[from.len() - 1] == i);
                }
            }
            proof {
                assert forall|j: int|
                    0 <= j < i + 1 && (#[trigger] self.entries@[j]).1.file_id != file_id implies exists|
                    t: int,
                | 0 <= t < from.len() && from[t] == j by {
                    if j == i {
                        assert(from[from.len() - 1] == j);
                    } else {
                        let t = choose|t: int| 0 <= t < from0.len() && from0[t] == j;
                        assert(from[t] == j);
                    }
                }
            }
            i = i + 1;
        }
        proof {
            assert forall|t: int| 0 <= t < ks.len() implies {
                &&& #[trigger] self@.contains_key(ks[t])
                &&& self@[ks[t]] == vs@[t]
            } by {
                assert(self.entries@[from[t]].0@ == ks[t]);
                assert(self.map@.contains_key(self.entries@[from[t]].0@));
            }
            assert forall|a: int, b: int| 0 <= a < b < ks.len() implies #[trigger] ks[a]
                != #[trigger] ks[b] by {
                assert(from[a] < from[b]);
                assert(self.entries@[from[a]].0@ == ks[a]);
                assert(self.entries@[from[b]].0@ == ks[b]);
            }
            assert forall|k: Seq<u8>|
                #[trigger] self@.contains_key(k) && self@[k].file_id != file_id implies exists|
                t: int,
            | 0 <= t < ks.len() && #[trigger] ks[t] == k by {
                let w = choose|j: int| 0 <= j < self.entries@.len() && self.entries@[j].0@ == k;
                assert(self.entries@[w].1.file_id != file_id);
                let t = choose|t: int| 0 <= t < from.len() && from[t] == w;
                assert(ks[t] == k);
            }
            assert(lists_entries_outside(self@, file_id, ks, vs@));
        }
        (keys, vs)
    }
}

/// The keys as values.
pub open spec fn key_views(keys: Seq<Vec<u8>>) -> Seq<Seq<u8>> {
    Seq::new(keys.len(), |i: int| keys[i]@)
}

/// `vs` lists the entry of each key in `ks`, and `ks` holds, once each,
/// exactly the keys of `m` whose entry lies outside file `file_id`.
pub open spec fn lists_entries_outside(
    m: Map<Seq<u8>, MapValue>,
    file_id: u32,
    ks: Seq<Seq<u8>>,
    vs: Seq<MapValue>,
) -> bool {
    &&& ks.len() == vs.len()
    &&& forall|t: int|
        0 <= t < ks.len() ==> {
            &&& #[trigger] m.contains_key(ks[t])
            &&& m[ks[t]] == vs[t]
            &&& vs[t].file_id != file_id
        }
    &&& forall|a: int, b: int| 0 <= a < b < ks.len() ==> #[trigger] ks[a] != #[trigger] ks[b]
    &&& forall|k: Seq<u8>|
        #[trigger] m.contains_key(k) && m[k].file_id != file_id ==> exists|t: int|
            0 <= t < ks.len() && #[trigger] ks[t] == k
}

} // verus!
