//! # Maps from public ids
//!
//! An ordered map keyed by a number, which a walk visits in ascending order
//! of its keys.

use vstd::prelude::*;

verus! {

/// Whether the ids stand in strictly ascending order.
pub open spec fn ids_ascend(ids: Seq<i64>) -> bool {
    forall|i: int, j: int| 0 <= i < j < ids.len() ==> #[trigger] ids[i] < #[trigger] ids[j]
}

/// The members of a finite set of ids, in ascending order.
pub open spec fn ids_in_order(set: Set<i64>) -> Seq<i64> {
    choose|ids: Seq<i64>| ids_ascend(ids) && #[trigger] ids.to_set() == set
}

proof fn lemma_ids_unique(a: Seq<i64>, b: Seq<i64>)
    requires
        ids_ascend(a),
        ids_ascend(b),
        a.to_set() == b.to_set(),
    ensures
        a == b,
    decreases a.len(),
{
    if a.len() == 0 {
        if b.len() > 0 {
            assert(b.to_set().contains(b[0]));
            assert(a.to_set().contains(b[0]));
        }
        assert(a =~= b);
    } else {
        assert(a.to_set().contains(a.last()));
        assert(b.to_set().contains(a.last()));
        let i = choose|i: int| 0 <= i < b.len() && b[i] == a.last();
        assert(b.to_set().contains(b.last()));
        assert(a.to_set().contains(b.last()));
        let j = choose|j: int| 0 <= j < a.len() && a[j] == b.last();
        assert(a.last() == b.last()) by {
            if i < b.len() - 1 {
                assert(b[i] < b[b.len() - 1]);
                if j < a.len() - 1 {
                    assert(a[j] < a[a.len() - 1]);
                }
            }
        }
        let x = a.drop_last();
        let y = b.drop_last();
        assert forall|id: i64| x.to_set().contains(id) == y.to_set().contains(id) by {
            if x.contains(id) {
                let k = x.index_of(id);
                assert(a[k] == id);
                assert(a[k] < a[a.len() - 1]);
                assert(a.to_set().contains(id));
                assert(b.to_set().contains(id));
                let m = b.index_of(id);
                assert(y[m] == id);
            }
            if y.contains(id) {
                let k = y.index_of(id);
                assert(b[k] == id);
                assert(b[k] < b[b.len() - 1]);
                assert(b.to_set().contains(id));
                assert(a.to_set().contains(id));
                let m = a.index_of(id);
                assert(x[m] == id);
            }
        }
        assert(x.to_set() =~= y.to_set());
        lemma_ids_unique(x, y);
        assert(a =~= x.push(a.last()));
        assert(b =~= y.push(b.last()));
    }
}

/// The members of a set in order are the one ascending sequence of them.
pub proof fn lemma_ids_in_order(ids: Seq<i64>)
    requires
        ids_ascend(ids),
    ensures
        ids_in_order(ids.to_set()) == ids,
{
    assert(ids_ascend(ids) && ids.to_set() == ids.to_set());
    lemma_ids_unique(ids_in_order(ids.to_set()), ids);
}

/// A map from ids, its keys in ascending order.
#[derive(Debug, PartialEq, Eq)]
pub struct IdMap<T> {
    entries: Vec<(i64, T)>,
}

impl<T> IdMap<T> {
    /// The keys, in ascending order.
    pub closed spec fn keys(&self) -> Seq<i64> {
        self.entries@.map_values(|entry: (i64, T)| entry.0)
    }

    /// The values, in the order of their keys.
    pub closed spec fn values(&self) -> Seq<T> {
        self.entries@.map_values(|entry: (i64, T)| entry.1)
    }

    #[verifier::type_invariant]
    closed spec fn ordered(&self) -> bool {
        ids_ascend(self.keys())
    }
}

impl<T: View> View for IdMap<T> {
    type V = Map<i64, T::V>;

    open spec fn view(&self) -> Map<i64, T::V> {
        Map::new(
            |id: i64| self.keys().contains(id),
            |id: i64| self.values()[self.keys().index_of(id)]@,
        )
    }
}

proof fn lemma_index_of(ids: Seq<i64>, i: int)
    requires
        ids_ascend(ids),
        0 <= i < ids.len(),
    ensures
        ids.contains(ids[i]),
        ids.index_of(ids[i]) == i,
{
    assert(ids.contains(ids[i]));
    let k = ids.index_of(ids[i]);
    if k < i {
        assert(ids[k] < ids[i]);
    } else if i < k {
        assert(ids[i] < ids[k]);
    }
}

impl<T: View> IdMap<T> {
    /// A map holding nothing.
    pub fn new() -> (map: Self)
        ensures
            map@ == Map::<i64, T::V>::empty(),
    {
        let map = IdMap { entries: Vec::new() };
        proof {
            assert(map@ =~= Map::<i64, T::V>::empty());
        }
        map
    }

    proof fn lemma_keys(&self)
        requires
            ids_ascend(self.keys()),
        ensures
            self.keys() == ids_in_order(self@.dom()),
            self.keys().to_set() == self@.dom(),
            self.keys().len() == self.values().len(),
            forall|i: int|
                0 <= i < self.keys().len() ==> self@.dom().contains(#[trigger] self.keys()[i])
                    && self@[self.keys()[i]] == self.values()[i]@,
    {
        assert(self.keys().to_set() =~= self@.dom());
        lemma_ids_in_order(self.keys());
        assert forall|i: int| 0 <= i < self.keys().len() implies self@.dom().contains(
            #[trigger] self.keys()[i],
        ) && self@[self.keys()[i]] == self.values()[i]@ by {
            lemma_index_of(self.keys(), i);
        }
    }

    /// How many keys the map holds.
    pub fn len(&self) -> (len: usize)
        ensures
            len == self.keys().len(),
            ids_ascend(self.keys()),
            self.keys() == ids_in_order(self@.dom()),
            self.keys().to_set() == self@.dom(),
    {
        proof {
            use_type_invariant(self);
            self.lemma_keys();
        }
        self.entries.len()
    }

    /// The key at a position of the order.
    pub fn key_at(&self, i: usize) -> (key: i64)
        requires
            i < self.keys().len(),
        ensures
            key == self.keys()[i as int],
            self@.dom().contains(key),
    {
        proof {
            use_type_invariant(self);
            self.lemma_keys();
            assert(self@.dom().contains(self.keys()[i as int]));
        }
        self.entries[i].0
    }

    /// The value at a position of the order.
    pub fn value_at(&self, i: usize) -> (value: &T)
        requires
            i < self.keys().len(),
        ensures
            value@ == self@[self.keys()[i as int]],
    {
        proof {
            use_type_invariant(self);
            self.lemma_keys();
            assert(self@.dom().contains(self.keys()[i as int]));
        }
        &self.entries[i].1
    }

    /// Where a key stands, or where it would be placed.
    fn search(&self, key: i64) -> (found: Result<usize, usize>)
        ensures
            match found {
                Ok(i) => i < self.keys().len() && self.keys()[i as int] == key,
                Err(at) => {
                    &&& at <= self.keys().len()
                    &&& forall|j: int| 0 <= j < at ==> #[trigger] self.keys()[j] < key
                    &&& forall|j: int| at <= j < self.keys().len() ==> key < #[trigger] self.keys()[j]
                },
            },
    {
        let mut i: usize = 0;
        while i < self.entries.len() && self.entries[i].0 < key
            invariant
                i <= self.entries.len(),
                forall|j: int| 0 <= j < i ==> #[trigger] self.keys()[j] < key,
            decreases self.entries.len() - i,
        {
            assert(self.keys()[i as int] == self.entries@[i as int].0);
            i = i + 1;
        }
        if i < self.entries.len() && self.entries[i].0 == key {
            return Ok(i);
        }
        proof {
            use_type_invariant(self);
            if i < self.entries.len() {
                assert(self.keys()[i as int] == self.entries@[i as int].0);
                assert forall|j: int| i <= j < self.keys().len() implies key
                    < #[trigger] self.keys()[j] by {
                    if j > i {
                        assert(self.keys()[i as int] < self.keys()[j]);
                    }
                }
            }
        }
        Err(i)
    }

    /// The value a key maps to.
    pub fn get(&self, key: i64) -> (value: Option<&T>)
        ensures
            match value {
                Some(value) => self@.dom().contains(key) && value@ == self@[key],
                None => !self@.dom().contains(key),
            },
    {
        proof {
            use_type_invariant(self);
            self.lemma_keys();
        }
        match self.search(key) {
            Ok(i) => {
                assert(self@.dom().contains(self.keys()[i as int]));
                Some(&self.entries[i].1)
            },
            Err(_) => None,
        }
    }

    /// Maps a key to a value, in place of any it mapped to before.
    pub fn insert(&mut self, key: i64, value: T)
        ensures
            final(self)@ == old(self)@.insert(key, value@),
    {
        proof {
            use_type_invariant(&*self);
            self.lemma_keys();
        }
        let ghost before = *self;
        let found = self.search(key);
        let mut entries: Vec<(i64, T)> = Vec::new();
        std::mem::swap(&mut entries, &mut self.entries);
        match found {
            Ok(i) => {
                entries.set(i, (key, value));
                proof {
                    assert(entries@.map_values(|e: (i64, T)| e.0) =~= before.keys());
                }
            },
            Err(at) => {
                entries.insert(at, (key, value));
                proof {
                    let keys = entries@.map_values(|e: (i64, T)| e.0);
                    assert(keys =~= before.keys().insert(at as int, key));
                    assert forall|i: int, j: int| 0 <= i < j < keys.len() implies #[trigger] keys[i]
                        < #[trigger] keys[j] by {
                        let old_keys = before.keys();
                        if i < at && j > at {
                            assert(old_keys[i] < old_keys[j - 1]);
                        } else if i < at && j < at {
                            assert(old_keys[i] < old_keys[j]);
                        } else if i > at {
                            assert(old_keys[i - 1] < old_keys[j - 1]);
                        } else if i == at {
                            assert(key < old_keys[j - 1]);
                        } else {
                            assert(old_keys[i] < key);
                        }
                    }
                }
            },
        }
        self.entries = entries;
        proof {
            use_type_invariant(&*self);
            self.lemma_keys();
            let (keys, old_keys) = (self.keys(), before.keys());
            let wanted = before@.insert(key, value@);
            match found {
                Ok(i) => {
                    assert forall|k: i64| self@.dom().contains(k) implies self@[k] == wanted[k] by {
                        let j = keys.index_of(k);
                        assert(keys[j] == k);
                        lemma_index_of(keys, j);
                        lemma_index_of(old_keys, j);
                        lemma_index_of(keys, i as int);
                    }
                },
                Err(at) => {
                    assert forall|k: i64| self@.dom().contains(k) == wanted.dom().contains(k) by {
                        if keys.contains(k) {
                            let j = keys.index_of(k);
                            if j < at {
                                assert(old_keys[j] == k);
                            } else if j > at {
                                assert(old_keys[j - 1] == k);
                            }
                        }
                        if old_keys.contains(k) {
                            let j = old_keys.index_of(k);
                            if j < at {
                                assert(keys[j] == k);
                            } else {
                                assert(keys[j + 1] == k);
                            }
                        }
                        assert(keys[at as int] == key);
                    }
                    assert forall|k: i64| self@.dom().contains(k) implies self@[k] == wanted[k] by {
                        let j = keys.index_of(k);
                        assert(keys[j] == k);
                        if j < at {
                            lemma_index_of(old_keys, j);
                            assert(old_keys[j] == k);
                        } else if j > at {
                            lemma_index_of(old_keys, j - 1);
                            assert(old_keys[j - 1] == k);
                        }
                    }
                },
            }
            assert(self@ =~= wanted);
        }
    }

    /// Takes a key out of the map, giving back the value it mapped to.
    pub fn remove(&mut self, key: i64) -> (value: Option<T>)
        ensures
            final(self)@ == old(self)@.remove(key),
            match value {
                Some(value) => old(self)@.dom().contains(key) && value@ == old(self)@[key],
                None => !old(self)@.dom().contains(key),
            },
    {
        proof {
            use_type_invariant(&*self);
            self.lemma_keys();
        }
        let ghost before = *self;
        let i: usize = match self.search(key) {
            Ok(i) => i,
            Err(_) => {
                assert(self@ =~= before@.remove(key));
                return None;
            },
        };
        let mut entries: Vec<(i64, T)> = Vec::new();
        std::mem::swap(&mut entries, &mut self.entries);
        let entry = entries.remove(i);
        proof {
            let keys = entries@.map_values(|e: (i64, T)| e.0);
            assert(keys =~= before.keys().remove(i as int));
            assert forall|a: int, b: int| 0 <= a < b < keys.len() implies #[trigger] keys[a]
                < #[trigger] keys[b] by {
                let x = if a < i { a } else { a + 1 };
                let y = if b < i { b } else { b + 1 };
                assert(before.keys()[x] < before.keys()[y]);
            }
        }
        self.entries = entries;
        proof {
            use_type_invariant(&*self);
            self.lemma_keys();
            let (keys, old_keys) = (self.keys(), before.keys());
            lemma_index_of(old_keys, i as int);
            assert forall|k: i64| self@.dom().contains(k) == before@.remove(key).dom().contains(k) by {
                if keys.contains(k) {
                    let j = keys.index_of(k);
                    let m = if j < i { j } else { j + 1 };
                    assert(old_keys[m] == k);
                    lemma_index_of(old_keys, m);
                }
                if old_keys.contains(k) && k != key {
                    let j = old_keys.index_of(k);
                    let m = if j < i { j } else { j - 1 };
                    assert(keys[m] == k);
                }
            }
            assert forall|k: i64| self@.dom().contains(k) implies self@[k] == before@.remove(key)[k] by {
                let j = keys.index_of(k);
                let m = if j < i { j } else { j + 1 };
                assert(old_keys[m] == k);
                lemma_index_of(old_keys, m);
            }
            assert(self@ =~= before@.remove(key));
        }
        Some(entry.1)
    }
}

} // verus!
