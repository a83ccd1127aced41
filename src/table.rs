//! A keyed table: a vector of entries with unique keys, seen as a map.
use vstd::prelude::*;

verus! {

/// A key of a table: its view identifies it, and it can be compared.
pub trait TableKey: View + Sized {
    fn same_key(&self, other: &Self) -> (r: bool)
        ensures
            r == (self@ == other@),
    ;
}

/// Entries with pairwise distinct keys; `contents` is the map they form.
pub struct Table<K: View, V> {
    entries: Vec<(K, V)>,
    contents: Ghost<Map<K::V, V>>,
}

impl<K: View, V> View for Table<K, V> {
    type V = Map<K::V, V>;

    closed spec fn view(&self) -> Map<K::V, V> {
        self.contents@
    }
}

impl<K: TableKey, V> Table<K, V> {
    /// The entries hold exactly the map, each key once.
    pub closed spec fn wf(&self) -> bool {
        &&& forall|i: int|
            0 <= i < self.entries@.len() ==> #[trigger] self.contents@.contains_key(
                self.entries@[i].0@,
            ) && self.contents@[self.entries@[i].0@] == self.entries@[i].1
        &&& forall|k: K::V|
            #[trigger] self.contents@.contains_key(k) ==> exists|i: int|
                0 <= i < self.entries@.len() && #[trigger] self.entries@[i].0@ == k
        &&& forall|i: int, j: int|
            0 <= i < self.entries@.len() && 0 <= j < self.entries@.len() && i != j
                ==> #[trigger] self.entries@[i].0@ != #[trigger] self.entries@[j].0@
    }

    pub fn new() -> (r: Self)
        ensures
            r.wf(),
            r@ == Map::<K::V, V>::empty(),
    {
        Table { entries: Vec::new(), contents: Ghost(Map::empty()) }
    }

    /// Number of keys.
    pub fn len(&self) -> (r: usize)
        requires
            self.wf(),
        ensures
            r == self@.len(),
    {
        proof { self.lemma_len(); }
        self.entries.len()
    }

    proof fn lemma_len(&self)
        requires
            self.wf(),
        ensures
            self@.len() == self.entries@.len(),
            self@.dom().finite(),
    {
        let keys = self.entries@.map_values(|e: (K, V)| e.0@);
        assert forall|k: K::V| self@.dom().contains(k) implies keys.to_set().contains(k) by {
            let i = choose|i: int|
                0 <= i < self.entries@.len() && #[trigger] self.entries@[i].0@ == k;
            assert(keys[i] == k);
        }
        assert forall|k: K::V| keys.to_set().contains(k) implies self@.dom().contains(k) by {
            let i = choose|i: int| 0 <= i < keys.len() && keys[i] == k;
            assert(self.entries@[i].0@ == k);
        }
        assert(self@.dom() =~= keys.to_set());
        assert forall|i: int, j: int| 0 <= i < j < keys.len() implies keys[i] != keys[j] by {
            assert(self.entries@[i].0@ != self.entries@[j].0@);
        }
        keys.unique_seq_to_set();
    }

    fn find(&self, k: &K) -> (r: Option<usize>)
        requires
            self.wf(),
        ensures
            match r {
                Some(i) => i < self.entries@.len() && self.entries@[i as int].0@ == k@,
                None => !self@.contains_key(k@),
            },
    {
        let mut i: usize = 0;
        while i < self.entries.len()
            invariant
                self.wf(),
                i <= self.entries@.len(),
                forall|j: int| 0 <= j < i ==> self.entries@[j].0@ != k@,
            decreases self.entries@.len() - i,
        {
            if self.entries[i].0.same_key(k) {
                return Some(i);
            }
            i = i + 1;
        }
        None
    }

    pub fn contains(&self, k: &K) -> (r: bool)
        requires
            self.wf(),
        ensures
            r == self@.contains_key(k@),
    {
        self.find(k).is_some()
    }

    pub fn get(&self, k: &K) -> (r: Option<&V>)
        requires
            self.wf(),
        ensures
            r == (if self@.contains_key(k@) {
                Some(&self@[k@])
            } else {
                None::<&V>
            }),
    {
        match self.find(k) {
            Some(i) => Some(&self.entries[i].1),
            None => None,
        }
    }

    /// Sets the value of `k`, adding the key where it is absent.
    pub fn upsert(&mut self, k: K, v: V)
        requires
            old(self).wf(),
        ensures
            final(self).wf(),
            final(self)@ == old(self)@.insert(k@, v),
    {
        let ghost kv = k@;
        let ghost vv = v;
        let ghost before = self.entries@;
        let idx: usize;
        match self.find(&k) {
            Some(i) => {
                self.entries.set(i, (k, v));
                idx = i;
            },
            None => {
                idx = self.entries.len();
                self.entries.push((k, v));
            },
        }
        self.contents = Ghost(self.contents@.insert(kv, vv));
        assert(self.entries@[idx as int].0@ == kv);
        assert forall|k2: K::V| #[trigger] self.contents@.contains_key(k2) implies exists|i: int|
            0 <= i < self.entries@.len() && #[trigger] self.entries@[i].0@ == k2 by {
            if k2 != kv {
                let i = choose|i: int| 0 <= i < before.len() && #[trigger] before[i].0@ == k2;
                assert(self.entries@[i].0@ == k2);
            } else {
                assert(self.entries@[idx as int].0@ == k2);
            }
        }
        assert forall|a: int, b: int|
            0 <= a < self.entries@.len() && 0 <= b < self.entries@.len() && a != b
                implies #[trigger] self.entries@[a].0@ != #[trigger] self.entries@[b].0@ by {
            if a != idx && b != idx {
                assert(self.entries@[a] == before[a]);
                assert(self.entries@[b] == before[b]);
            } else if a == idx {
                assert(self.entries@[b] == before[b]);
            } else {
                assert(self.entries@[a] == before[a]);
            }
        }
        assert forall|a: int| 0 <= a < self.entries@.len() implies #[trigger] self.contents@.contains_key(
            self.entries@[a].0@,
        ) && self.contents@[self.entries@[a].0@] == self.entries@[a].1 by {
            if a != idx {
                assert(self.entries@[a] == before[a]);
            }
        }
    }

    /// Removes `k` and hands back its value, if it was there.
    pub fn remove(&mut self, k: &K) -> (r: Option<V>)
        requires
            old(self).wf(),
        ensures
            final(self).wf(),
            final(self)@ == old(self)@.remove(k@),
            r == (if old(self)@.contains_key(k@) {
                Some(old(self)@[k@])
            } else {
                None::<V>
            }),
    {
        match self.find(k) {
            Some(i) => {
                let ghost before = self.entries@;
                let e = self.entries.swap_remove(i);
                self.contents = Ghost(self.contents@.remove(k@));
                assert forall|k2: K::V| #[trigger] self.contents@.contains_key(k2) implies exists|
                    j: int,
                | 0 <= j < self.entries@.len() && #[trigger] self.entries@[j].0@ == k2 by {
                    let j = choose|j: int|
                        0 <= j < before.len() && #[trigger] before[j].0@ == k2;
                    if j == before.len() - 1 {
                        assert(self.entries@[i as int].0@ == k2);
                    } else {
                        assert(self.entries@[j].0@ == k2);
                    }
                }
                assert forall|a: int, b: int|
                    0 <= a < self.entries@.len() && 0 <= b < self.entries@.len() && a != b
                        implies #[trigger] self.entries@[a].0@ != #[trigger] self.entries@[b].0@ by {
                    let ia = if a == i { before.len() - 1 } else { a };
                    let ib = if b == i { before.len() - 1 } else { b };
                    assert(self.entries@[a] == before[ia]);
                    assert(self.entries@[b] == before[ib]);
                }
                assert forall|a: int| 0 <= a < self.entries@.len() implies #[trigger] self.contents@.contains_key(
                    self.entries@[a].0@,
                ) && self.contents@[self.entries@[a].0@] == self.entries@[a].1 by {
                    let ia = if a == i { before.len() - 1 } else { a };
                    assert(self.entries@[a] == before[ia]);
                    assert(before[ia].0@ != before[i as int].0@);
                    assert(old(self).contents@.contains_key(before[ia].0@));
                    assert(old(self).contents@[before[ia].0@] == before[ia].1);
                }
                Some(e.1)
            },
            None => {
                assert(self.contents@.remove(k@) =~= self.contents@);
                None
            },
        }
    }

    /// The entries, in storage order.
    pub fn entries(&self) -> (r: &Vec<(K, V)>)
        requires
            self.wf(),
        ensures
            forall|i: int| 0 <= i < r@.len() ==> #[trigger] self@.contains_key(r@[i].0@),
            forall|k: K::V| #[trigger] self@.contains_key(k) ==> exists|i: int|
                0 <= i < r@.len() && r@[i].0@ == k,
            r@.len() == self@.len(),
    {
        proof { self.lemma_len(); }
        &self.entries
    }
}

} // verus!
