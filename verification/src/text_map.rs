//! # Text maps
//!
//! An ordered map and an ordered set keyed by strings: each key once, in
//! the order strings have.

use crate::text::{
    lemma_text_irreflexive, lemma_text_total, lemma_text_transitive, text_before, text_lt,
    text_same, Text,
};
use vstd::prelude::*;

verus! {

/// Whether the texts stand in strictly ascending order.
pub open spec fn ascending(texts: Seq<Text>) -> bool {
    forall|i: int, j: int| 0 <= i < j < texts.len() ==> text_lt(#[trigger] texts[i], #[trigger] texts[j])
}

/// The members of a finite set of texts, in ascending order.
pub open spec fn in_order(set: Set<Text>) -> Seq<Text> {
    choose|texts: Seq<Text>| ascending(texts) && #[trigger] texts.to_set() == set
}

/// An ascending sequence holds no text twice.
pub proof fn lemma_ascending_distinct(texts: Seq<Text>, i: int, j: int)
    requires
        ascending(texts),
        0 <= i < texts.len(),
        0 <= j < texts.len(),
        texts[i] == texts[j],
    ensures
        i == j,
{
    if i < j {
        lemma_text_irreflexive(texts[i]);
    } else if j < i {
        lemma_text_irreflexive(texts[i]);
    }
}

/// Texts each before the next stand in ascending order.
pub proof fn lemma_steps_ascend(texts: Seq<Text>)
    requires
        forall|i: int| 0 <= i < texts.len() - 1 ==> text_lt(#[trigger] texts[i], texts[i + 1]),
    ensures
        ascending(texts),
{
    assert forall|i: int, j: int| 0 <= i < j < texts.len() implies text_lt(
        #[trigger] texts[i],
        #[trigger] texts[j],
    ) by {
        lemma_steps_between(texts, i, j);
    }
}

proof fn lemma_steps_between(texts: Seq<Text>, i: int, j: int)
    requires
        0 <= i < j < texts.len(),
        forall|k: int| 0 <= k < texts.len() - 1 ==> text_lt(#[trigger] texts[k], texts[k + 1]),
    ensures
        text_lt(texts[i], texts[j]),
    decreases j - i,
{
    assert(text_lt(texts[j - 1], texts[j - 1 + 1]));
    if i < j - 1 {
        lemma_steps_between(texts, i, j - 1);
        lemma_text_transitive(texts[i], texts[j - 1], texts[j]);
    }
}

/// Two ascending sequences of the same texts are the same sequence.
pub proof fn lemma_ascending_unique(a: Seq<Text>, b: Seq<Text>)
    requires
        ascending(a),
        ascending(b),
        a.to_set() == b.to_set(),
    ensures
        a == b,
    decreases a.len(),
{
    if a.len() == 0 {
        if b.len() > 0 {
            assert(b.to_set().contains(b[0]));
            assert(a.to_set().contains(b[0]));
        }
        assert(a =~= b);
    } else {
        assert(a.to_set().contains(a.last()));
        assert(b.to_set().contains(a.last()));
        let i = choose|i: int| 0 <= i < b.len() && b[i] == a.last();
        assert(b.to_set().contains(b.last()));
        assert(a.to_set().contains(b.last()));
        let j = choose|j: int| 0 <= j < a.len() && a[j] == b.last();
        if i < b.len() - 1 {
            assert(text_lt(b[i], b[b.len() - 1]));
            if j < a.len() - 1 {
                assert(text_lt(a[j], a[a.len() - 1]));
                lemma_text_transitive(a.last(), b.last(), a.last());
            }
            lemma_text_irreflexive(a.last());
        }
        let x = a.drop_last();
        let y = b.drop_last();
        assert forall|t: Text| x.to_set().contains(t) == y.to_set().contains(t) by {
            if x.to_set().contains(t) {
                let k = choose|k: int| 0 <= k < x.len() && x[k] == t;
                assert(a[k] == t);
                assert(a.to_set().contains(t));
                assert(b.to_set().contains(t));
                let m = choose|m: int| 0 <= m < b.len() && b[m] == t;
                if m == b.len() - 1 {
                    lemma_ascending_distinct(a, k, a.len() - 1);
                }
                assert(y[m] == t);
            }
            if y.to_set().contains(t) {
                let k = choose|k: int| 0 <= k < y.len() && y[k] == t;
                assert(b[k] == t);
                assert(b.to_set().contains(t));
                assert(a.to_set().contains(t));
                let m = choose|m: int| 0 <= m < a.len() && a[m] == t;
                if m == a.len() - 1 {
                    lemma_ascending_distinct(b, k, b.len() - 1);
                }
                assert(x[m] == t);
            }
        }
        assert(x.to_set() =~= y.to_set());
        lemma_ascending_unique(x, y);
        assert(a =~= x.push(a.last()));
        assert(b =~= y.push(b.last()));
    }
}

/// The members of a set in order are the one ascending sequence of them.
pub proof fn lemma_in_order(texts: Seq<Text>)
    requires
        ascending(texts),
    ensures
        in_order(texts.to_set()) == texts,
{
    assert(ascending(texts) && texts.to_set() == texts.to_set());
    lemma_ascending_unique(in_order(texts.to_set()), texts);
}

/// Every finite set of texts has an ascending sequence of its members.
pub proof fn lemma_order_of_finite(set: Set<Text>)
    requires
        set.finite(),
    ensures
        ascending(in_order(set)),
        in_order(set).to_set() == set,
    decreases set.len(),
{
    if set.len() == 0 {
        let none = Seq::<Text>::empty();
        assert(set =~= Set::<Text>::empty());
        assert(none.to_set() =~= set);
        assert(ascending(none) && none.to_set() == set);
    } else {
        let item = set.choose();
        let rest = set.remove(item);
        lemma_order_of_finite(rest);
        let texts = in_order(rest);
        assert forall|i: int| 0 <= i < texts.len() implies #[trigger] texts[i] != item by {
            assert(texts.to_set().contains(texts[i]));
        }
        let at = lemma_place_for(texts, item, texts.len() as int);
        let new = texts.insert(at, item);
        lemma_insert_ascending(texts, at, item);
        assert forall|t: Text| new.to_set().contains(t) == set.contains(t) by {
            if new.contains(t) {
                let k = new.index_of(t);
                if k < at {
                    assert(texts[k] == t);
                    assert(texts.to_set().contains(t));
                } else if k > at {
                    assert(texts[k - 1] == t);
                    assert(texts.to_set().contains(t));
                }
            }
            if set.contains(t) {
                if t == item {
                    assert(new[at] == item);
                } else {
                    assert(texts.to_set().contains(t));
                    let k = texts.index_of(t);
                    if k < at {
                        assert(new[k] == t);
                    } else {
                        assert(new[k + 1] == t);
                    }
                }
            }
        }
        assert(new.to_set() =~= set);
        assert(ascending(new) && new.to_set() == set);
    }
}

/// Where a text not in an ascending sequence belongs, at most at `end`.
proof fn lemma_place_for(texts: Seq<Text>, item: Text, end: int) -> (at: int)
    requires
        ascending(texts),
        0 <= end <= texts.len(),
        forall|i: int| 0 <= i < texts.len() ==> #[trigger] texts[i] != item,
        forall|i: int| end <= i < texts.len() ==> text_lt(item, #[trigger] texts[i]),
    ensures
        0 <= at <= texts.len(),
        forall|i: int| 0 <= i < at ==> text_lt(#[trigger] texts[i], item),
        forall|i: int| at <= i < texts.len() ==> text_lt(item, #[trigger] texts[i]),
    decreases end,
{
    if end == 0 {
        0
    } else {
        lemma_text_total(texts[end - 1], item);
        if text_lt(texts[end - 1], item) {
            assert forall|i: int| 0 <= i < end implies text_lt(#[trigger] texts[i], item) by {
                if i < end - 1 {
                    lemma_text_transitive(texts[i], texts[end - 1], item);
                }
            }
            end
        } else {
            lemma_place_for(texts, item, end - 1)
        }
    }
}

/// A map from strings, its keys in ascending order.
#[derive(Debug, PartialEq, Eq)]
pub struct TextMap<T> {
    entries: Vec<(String, T)>,
}

impl<T> TextMap<T> {
    /// The keys, in ascending order.
    pub closed spec fn keys(&self) -> Seq<Text> {
        self.entries@.map_values(|entry: (String, T)| entry.0@)
    }

    /// The values, in the order of their keys.
    pub closed spec fn values(&self) -> Seq<T> {
        self.entries@.map_values(|entry: (String, T)| entry.1)
    }

    #[verifier::type_invariant]
    closed spec fn ordered(&self) -> bool {
        ascending(self.keys())
    }
}

/// The map that pairs each key with the view of the value beside it.
pub open spec fn paired<T: View>(keys: Seq<Text>, values: Seq<T>) -> Map<Text, T::V> {
    Map::new(|key: Text| keys.contains(key), |key: Text| values[keys.index_of(key)]@)
}

impl<T: View> View for TextMap<T> {
    type V = Map<Text, T::V>;

    open spec fn view(&self) -> Map<Text, T::V> {
        paired(self.keys(), self.values())
    }
}

impl<T: View> DeepView for TextMap<T> {
    type V = Map<Text, T::V>;

    open spec fn deep_view(&self) -> Map<Text, T::V> {
        self@
    }
}

proof fn lemma_index_of(keys: Seq<Text>, i: int)
    requires
        ascending(keys),
        0 <= i < keys.len(),
    ensures
        keys.contains(keys[i]),
        keys.index_of(keys[i]) == i,
{
    assert(keys.contains(keys[i]));
    lemma_ascending_distinct(keys, keys.index_of(keys[i]), i);
}

/// A key placed between its neighbours leaves the keys ascending.
proof fn lemma_insert_ascending(keys: Seq<Text>, at: int, key: Text)
    requires
        ascending(keys),
        0 <= at <= keys.len(),
        forall|j: int| 0 <= j < at ==> text_lt(#[trigger] keys[j], key),
        forall|j: int| at <= j < keys.len() ==> text_lt(key, #[trigger] keys[j]),
    ensures
        ascending(keys.insert(at, key)),
{
    let new = keys.insert(at, key);
    assert forall|i: int, j: int| 0 <= i < j < new.len() implies text_lt(#[trigger] new[i], #[trigger] new[j]) by {
        if i < at && j > at {
            assert(text_lt(keys[i], keys[j - 1]));
        } else if i < at && j < at {
            assert(text_lt(keys[i], keys[j]));
        } else if i > at {
            assert(text_lt(keys[i - 1], keys[j - 1]));
        } else if i == at {
            assert(text_lt(key, keys[j - 1]));
        } else {
            assert(text_lt(keys[i], key));
        }
    }
}

impl<T: View> TextMap<T> {
    /// A map holding nothing.
    pub fn new() -> (map: Self)
        ensures
            map@ == Map::<Text, T::V>::empty(),
    {
        let map = TextMap { entries: Vec::new() };
        proof {
            assert(map@ =~= Map::<Text, T::V>::empty());
        }
        map
    }

    /// The keys are those of the map, in ascending order.
    pub proof fn lemma_keys(&self)
        requires
            ascending(self.keys()),
        ensures
            self.keys() == in_order(self@.dom()),
            self.keys().to_set() == self@.dom(),
            self.keys().len() == self.values().len(),
            forall|i: int|
                0 <= i < self.keys().len() ==> self@.dom().contains(#[trigger] self.keys()[i])
                    && self@[self.keys()[i]] == self.values()[i]@,
    {
        assert(self.keys().to_set() =~= self@.dom());
        lemma_in_order(self.keys());
        assert forall|i: int| 0 <= i < self.keys().len() implies self@.dom().contains(
            #[trigger] self.keys()[i],
        ) && self@[self.keys()[i]] == self.values()[i]@ by {
            lemma_index_of(self.keys(), i);
        }
    }

    /// How many keys the map holds.
    pub fn len(&self) -> (len: usize)
        ensures
            len == self.keys().len(),
            ascending(self.keys()),
            self.keys() == in_order(self@.dom()),
            self.keys().to_set() == self@.dom(),
    {
        proof {
            use_type_invariant(self);
            self.lemma_keys();
        }
        self.entries.len()
    }

    /// Whether the map holds nothing.
    pub fn is_empty(&self) -> (empty: bool)
        ensures
            empty == (self@.dom() =~= Set::<Text>::empty()),
    {
        proof {
            use_type_invariant(self);
            self.lemma_keys();
            if self.entries.len() > 0 {
                assert(self@.dom().contains(self.keys()[0]));
            } else {
                assert(self@.dom() =~= Set::<Text>::empty());
            }
        }
        self.entries.len() == 0
    }

    /// The key at a position of the order.
    pub fn key_at(&self, i: usize) -> (key: &String)
        requires
            i < self.keys().len(),
        ensures
            key@ == self.keys()[i as int],
            self@.dom().contains(key@),
    {
        proof {
            use_type_invariant(self);
            self.lemma_keys();
            assert(self@.dom().contains(self.keys()[i as int]));
        }
        &self.entries[i].0
    }

    /// The value at a position of the order.
    pub fn value_at(&self, i: usize) -> (value: &T)
        requires
            i < self.keys().len(),
        ensures
            *value == self.values()[i as int],
            value@ == self@[self.keys()[i as int]],
    {
        proof {
            use_type_invariant(self);
            self.lemma_keys();
            assert(self@.dom().contains(self.keys()[i as int]));
        }
        &self.entries[i].1
    }

    /// Where a key stands, or where it would be placed.
    fn search(&self, key: &str) -> (found: Result<usize, usize>)
        ensures
            match found {
                Ok(i) => i < self.keys().len() && self.keys()[i as int] == key@,
                Err(at) => {
                    &&& at <= self.keys().len()
                    &&& forall|j: int| 0 <= j < at ==> text_lt(#[trigger] self.keys()[j], key@)
                    &&& forall|j: int|
                        at <= j < self.keys().len() ==> text_lt(key@, #[trigger] self.keys()[j])
                },
            },
    {
        let mut i: usize = 0;
        while i < self.entries.len() && text_before(self.entries[i].0.as_str(), key)
            invariant
                i <= self.entries.len(),
                forall|j: int| 0 <= j < i ==> text_lt(#[trigger] self.keys()[j], key@),
            decreases self.entries.len() - i,
        {
            assert(self.keys()[i as int] == self.entries@[i as int].0@);
            i = i + 1;
        }
        if i < self.entries.len() && text_same(self.entries[i].0.as_str(), key) {
            return Ok(i);
        }
        proof {
            use_type_invariant(self);
            if i < self.entries.len() {
                let next = self.keys()[i as int];
                assert(next == self.entries@[i as int].0@);
                lemma_text_total(next, key@);
                assert forall|j: int| i <= j < self.keys().len() implies text_lt(
                    key@,
                    #[trigger] self.keys()[j],
                ) by {
                    if j > i {
                        lemma_text_transitive(key@, next, self.keys()[j]);
                    }
                }
            }
        }
        Err(i)
    }

    /// The value a key maps to.
    pub fn get(&self, key: &str) -> (value: Option<&T>)
        ensures
            match value {
                Some(value) => self@.dom().contains(key@) && value@ == self@[key@],
                None => !self@.dom().contains(key@),
            },
    {
        proof {
            use_type_invariant(self);
            self.lemma_keys();
        }
        match self.search(key) {
            Ok(i) => {
                assert(self@.dom().contains(self.keys()[i as int]));
                Some(&self.entries[i].1)
            },
            Err(at) => {
                proof {
                    if self@.dom().contains(key@) {
                        let j = self.keys().index_of(key@);
                        assert(self.keys()[j] == key@);
                        lemma_text_irreflexive(key@);
                    }
                }
                None
            },
        }
    }

    /// Whether the map holds a key.
    pub fn contains_key(&self, key: &str) -> (held: bool)
        ensures
            held == self@.dom().contains(key@),
    {
        self.get(key).is_some()
    }

    /// Maps a key to a value, in place of any it mapped to before.
    pub fn insert(&mut self, key: String, value: T)
        ensures
            final(self)@ == old(self)@.insert(key@, value@),
            final(self).keys() == in_order(final(self)@.dom()),
    {
        proof {
            use_type_invariant(&*self);
            self.lemma_keys();
        }
        let ghost before = *self;
        let found = self.search(key.as_str());
        let mut entries: Vec<(String, T)> = Vec::new();
        std::mem::swap(&mut entries, &mut self.entries);
        match found {
            Ok(i) => {
                entries.set(i, (key, value));
                proof {
                    assert(entries@.map_values(|e: (String, T)| e.0@) =~= before.keys());
                }
            },
            Err(at) => {
                entries.insert(at, (key, value));
                proof {
                    assert(entries@.map_values(|e: (String, T)| e.0@) =~= before.keys().insert(at as int, key@));
                    lemma_insert_ascending(before.keys(), at as int, key@);
                }
            },
        }
        self.entries = entries;
        proof {
            use_type_invariant(&*self);
            self.lemma_keys();
            let old_map = before@;
            let new_map = self@;
            match found {
                Ok(i) => {
                    assert forall|k: Text| new_map.dom().contains(k) == old_map.insert(key@, value@).dom().contains(k) by {}
                    assert forall|k: Text| new_map.dom().contains(k) implies new_map[k] == old_map.insert(key@, value@)[k] by {
                        let j = self.keys().index_of(k);
                        assert(self.keys()[j] == k);
                        lemma_index_of(self.keys(), j);
                        lemma_index_of(before.keys(), j);
                        if k == key@ {
                            lemma_ascending_distinct(self.keys(), j, i as int);
                        }
                    }
                },
                Err(at) => {
                    let keys = self.keys();
                    let old_keys = before.keys();
                    assert forall|k: Text| new_map.dom().contains(k) == old_map.insert(key@, value@).dom().contains(k) by {
                        if keys.contains(k) {
                            let j = keys.index_of(k);
                            if j < at {
                                assert(old_keys[j] == k);
                            } else if j > at {
                                assert(old_keys[j - 1] == k);
                            }
                        }
                        if old_keys.contains(k) {
                            let j = old_keys.index_of(k);
                            if j < at {
                                assert(keys[j] == k);
                            } else {
                                assert(keys[j + 1] == k);
                            }
                        }
                        assert(keys[at as int] == key@);
                    }
                    assert forall|k: Text| new_map.dom().contains(k) implies new_map[k] == old_map.insert(key@, value@)[k] by {
                        let j = keys.index_of(k);
                        assert(keys[j] == k);
                        if j < at {
                            lemma_index_of(old_keys, j);
                            assert(old_keys[j] == k);
                            lemma_text_irreflexive(k);
                        } else if j > at {
                            lemma_index_of(old_keys, j - 1);
                            assert(old_keys[j - 1] == k);
                            lemma_text_irreflexive(k);
                        }
                    }
                },
            }
            assert(new_map =~= old_map.insert(key@, value@));
        }
    }

    /// Takes a key out of the map, giving back the value it mapped to.
    pub fn remove(&mut self, key: &str) -> (value: Option<T>)
        ensures
            final(self)@ == old(self)@.remove(key@),
            final(self).keys() == in_order(final(self)@.dom()),
            match value {
                Some(value) => old(self)@.dom().contains(key@) && value@ == old(self)@[key@],
                None => !old(self)@.dom().contains(key@),
            },
    {
        proof {
            use_type_invariant(&*self);
            self.lemma_keys();
        }
        let ghost before = *self;
        if !self.contains_key(key) {
            assert(self@ =~= before@.remove(key@));
            return None;
        }
        let found = self.search(key);
        let i: usize = match found {
            Ok(i) => i,
            Err(at) => {
                proof {
                    let j = self.keys().index_of(key@);
                    assert(self.keys()[j] == key@);
                    lemma_text_irreflexive(key@);
                }
                at
            },
        };
        let mut entries: Vec<(String, T)> = Vec::new();
        std::mem::swap(&mut entries, &mut self.entries);
        let entry = entries.remove(i);
        proof {
            let keys = entries@.map_values(|e: (String, T)| e.0@);
            assert(keys =~= before.keys().remove(i as int));
            assert forall|a: int, b: int| 0 <= a < b < keys.len() implies text_lt(#[trigger] keys[a], #[trigger] keys[b]) by {
                let x = if a < i { a } else { a + 1 };
                let y = if b < i { b } else { b + 1 };
                assert(text_lt(before.keys()[x], before.keys()[y]));
            }
        }
        self.entries = entries;
        proof {
            use_type_invariant(&*self);
            self.lemma_keys();
            let keys = self.keys();
            let old_keys = before.keys();
            lemma_index_of(old_keys, i as int);
            assert forall|k: Text| self@.dom().contains(k) == before@.remove(key@).dom().contains(k) by {
                if keys.contains(k) {
                    let j = keys.index_of(k);
                    let m = if j < i { j } else { j + 1 };
                    assert(old_keys[m] == k);
                    if k == key@ {
                        lemma_ascending_distinct(old_keys, m, i as int);
                    }
                }
                if old_keys.contains(k) && k != key@ {
                    let j = old_keys.index_of(k);
                    let m = if j < i { j } else { j - 1 };
                    assert(keys[m] == k);
                }
            }
            assert forall|k: Text| self@.dom().contains(k) implies self@[k] == before@.remove(key@)[k] by {
                let j = keys.index_of(k);
                let m = if j < i { j } else { j + 1 };
                assert(old_keys[m] == k);
                lemma_index_of(old_keys, m);
            }
            assert(self@ =~= before@.remove(key@));
        }
        Some(entry.1)
    }
}

/// Two maps with the same keys and values of the same views are the same.
pub proof fn lemma_same_entries<T: View>(a: TextMap<T>, b: TextMap<T>)
    requires
        a.keys() == b.keys(),
        a.values().len() == a.keys().len(),
        b.values().len() == b.keys().len(),
        forall|i: int| 0 <= i < a.values().len() ==> (#[trigger] a.values()[i])@ == b.values()[i]@,
    ensures
        a@ == b@,
{
    assert forall|key: Text| a@.dom().contains(key) implies a@[key] == b@[key] by {
        let i = a.keys().index_of(key);
        assert(a.values()[i]@ == b.values()[i]@);
    }
    assert(a@ =~= b@);
}

impl<T: Clone> Clone for TextMap<T> {
    fn clone(&self) -> (copy: Self)
        ensures
            copy.keys() == self.keys(),
            copy.values().len() == copy.keys().len(),
            self.values().len() == self.keys().len(),
            forall|i: int|
                0 <= i < self.values().len() ==> cloned::<T>(
                    #[trigger] self.values()[i],
                    copy.values()[i],
                ),
    {
        let mut entries: Vec<(String, T)> = Vec::new();
        let mut i: usize = 0;
        while i < self.entries.len()
            invariant
                i <= self.entries.len(),
                entries.len() == i,
                forall|j: int| 0 <= j < i ==> (#[trigger] entries@[j]).0@ == self.entries@[j].0@,
                forall|j: int|
                    0 <= j < i ==> cloned::<T>(self.entries@[j].1, (#[trigger] entries@[j]).1),
            decreases self.entries.len() - i,
        {
            let key = self.entries[i].0.clone();
            let value = self.entries[i].1.clone();
            entries.push((key, value));
            i = i + 1;
        }
        proof {
            use_type_invariant(self);
            assert(entries@.map_values(|e: (String, T)| e.0@) =~= self.keys());
        }
        TextMap { entries }
    }
}

/// A set of strings, in ascending order.
#[derive(Debug, PartialEq, Eq)]
pub struct TextSet {
    items: TextMap<()>,
}

impl View for TextSet {
    type V = Set<Text>;

    closed spec fn view(&self) -> Set<Text> {
        self.items@.dom()
    }
}

impl DeepView for TextSet {
    type V = Set<Text>;

    open spec fn deep_view(&self) -> Set<Text> {
        self@
    }
}

impl TextSet {
    /// The members, in ascending order.
    pub closed spec fn list(&self) -> Seq<Text> {
        self.items.keys()
    }

    /// A set holding nothing.
    pub fn new() -> (set: Self)
        ensures
            set@ == Set::<Text>::empty(),
    {
        let set = TextSet { items: TextMap::new() };
        assert(set@ =~= Set::<Text>::empty());
        set
    }

    /// How many members the set has.
    pub fn len(&self) -> (len: usize)
        ensures
            len == self.list().len(),
            self.list() == in_order(self@),
            self.list().to_set() == self@,
    {
        self.items.len()
    }

    /// The member at a position of the order.
    pub fn at(&self, i: usize) -> (item: &String)
        requires
            i < self.list().len(),
        ensures
            item@ == self.list()[i as int],
            self@.contains(item@),
    {
        self.items.key_at(i)
    }

    /// Whether a string is a member.
    pub fn contains(&self, item: &str) -> (held: bool)
        ensures
            held == self@.contains(item@),
    {
        self.items.contains_key(item)
    }

    /// Adds a member.
    pub fn insert(&mut self, item: String)
        ensures
            final(self)@ == old(self)@.insert(item@),
    {
        let ghost before = *self;
        self.items.insert(item, ());
        assert(self@ =~= before@.insert(item@));
    }

    /// Takes a member out.
    pub fn remove(&mut self, item: &str)
        ensures
            final(self)@ == old(self)@.remove(item@),
    {
        let ghost before = *self;
        let _ = self.items.remove(item);
        assert(self@ =~= before@.remove(item@));
    }

    /// Whether two sets have the same members.
    pub fn same(&self, other: &TextSet) -> (same: bool)
        ensures
            same == (self@ == other@),
    {
        let n: usize = self.len();
        let m: usize = other.len();
        if n != m {
            return false;
        }
        let mut i: usize = 0;
        while i < n
            invariant
                i <= n,
                n == self.list().len(),
                n == other.list().len(),
                self.list() == in_order(self@),
                other.list() == in_order(other@),
                forall|j: int| 0 <= j < i ==> self.list()[j] == other.list()[j],
            decreases n - i,
        {
            if !text_same(self.at(i).as_str(), other.at(i).as_str()) {
                assert(self.list()[i as int] != other.list()[i as int]);
                return false;
            }
            i = i + 1;
        }
        assert(self.list() =~= other.list());
        true
    }
}

impl Clone for TextSet {
    fn clone(&self) -> (copy: Self)
        ensures
            copy@ == self@,
    {
        let items = self.items.clone();
        proof {
            lemma_same_entries(self.items, items);
        }
        TextSet { items }
    }
}

} // verus!
