//! A map keyed by byte strings.
//!
//! Entries stand in the order in which their keys were first inserted, and an
//! index from a key's hash to the positions of the keys with that hash finds
//! them. No key occurs twice.

use std::collections::HashMap;
use std::sync::Arc;

use vstd::prelude::*;

use crate::bytes;
use crate::bytes::{hash_key, same_bytes};

verus! {

broadcast use vstd::std_specs::hash::group_hash_axioms;

/// Some position listed under `hash` is `position`.
spec fn listed(index: Map<u64, Vec<usize>>, hash: u64, position: int) -> bool {
    index.contains_key(hash) && exists|p: int|
        0 <= p < index[hash]@.len() && #[trigger] index[hash]@[p] == position
}

/// Every key's position is listed under its hash, and only positions of keys
/// are listed.
spec fn index_covers(index: Map<u64, Vec<usize>>, keys: Seq<Seq<u8>>) -> bool {
    &&& forall|i: int|
        0 <= i < keys.len() ==> listed(index, bytes::fnv_hash(#[trigger] keys[i]), i)
    &&& forall|hash: u64, p: int|
        index.contains_key(hash) && 0 <= p < index[hash]@.len() ==> (
        #[trigger] index[hash]@[p]) < keys.len()
}

/// A map from byte strings to values, walked in order of first insertion.
pub struct KeyMap<V> {
    /// The entries, in order of first insertion.
    entries: Vec<(Arc<[u8]>, V)>,
    /// The positions of the keys with a given hash.
    index: HashMap<u64, Vec<usize>>,
}

impl<V> View for KeyMap<V> {
    type V = Map<Seq<u8>, V>;

    open spec fn view(&self) -> Map<Seq<u8>, V> {
        Map::new(
            |key: Seq<u8>| self.keys().contains(key),
            |key: Seq<u8>| self.values()[self.keys().index_of(key)],
        )
    }
}

impl<V> KeyMap<V> {
    /// The keys, in order of first insertion.
    pub closed spec fn keys(&self) -> Seq<Seq<u8>> {
        Seq::new(self.entries@.len(), |i: int| bytes::bytes_of(self.entries@[i].0))
    }

    /// The values, each at its key's position.
    pub closed spec fn values(&self) -> Seq<V> {
        Seq::new(self.entries@.len(), |i: int| self.entries@[i].1)
    }

    /// No key occurs twice, and the index leads to every entry.
    pub closed spec fn wf(&self) -> bool {
        &&& self.keys().no_duplicates()
        &&& index_covers(self.index@, self.keys())
    }

    /// An empty map.
    pub fn new() -> (map: Self)
        ensures
            map.wf(),
            map.keys() == Seq::<Seq<u8>>::empty(),
            map@ == Map::<Seq<u8>, V>::empty(),
    {
        let map = KeyMap { entries: Vec::new(), index: HashMap::new() };
        assert(map.keys() =~= Seq::<Seq<u8>>::empty());
        assert(map@ =~= Map::<Seq<u8>, V>::empty());
        map
    }

    /// Number of keys.
    pub fn len(&self) -> (len: usize)
        ensures
            len == self.keys().len(),
    {
        self.entries.len()
    }

    /// Where `key` stands, if it is in the map.
    pub fn position(&self, key: &[u8]) -> (position: Option<usize>)
        requires
            self.wf(),
        ensures
            match position {
                Some(i) => i < self.keys().len() && self.keys()[i as int] == key@,
                None => !self.keys().contains(key@),
            },
    {
        match self.index.get(&hash_key(key)) {
            Some(list) => {
                let mut p: usize = 0;
                while p < list.len()
                    invariant
                        self.wf(),
                        p <= list@.len(),
                        self.index@.contains_key(bytes::fnv_hash(key@)),
                        *list == self.index@[bytes::fnv_hash(key@)],
                        forall|q: int|
                            0 <= q < p ==> self.keys()[(#[trigger] list@[q]) as int] != key@,
                    decreases list@.len() - p,
                {
                    let i = list[p];
                    assert(self.index@[bytes::fnv_hash(key@)]@[p as int] < self.entries@.len());
                    if same_bytes(&*self.entries[i].0, key) {
                        return Some(i);
                    }
                    p += 1;
                }
                assert(!self.keys().contains(key@)) by {
                    if self.keys().contains(key@) {
                        let i = self.keys().index_of(key@);
                        assert(listed(self.index@, bytes::fnv_hash(self.keys()[i]), i));
                    }
                }
                None
            },
            None => {
                assert(!self.keys().contains(key@)) by {
                    if self.keys().contains(key@) {
                        let i = self.keys().index_of(key@);
                        assert(listed(self.index@, bytes::fnv_hash(self.keys()[i]), i));
                    }
                }
                None
            },
        }
    }

    /// The value at a position, for writing.
    pub fn value_at_mut(&mut self, i: usize) -> (value: &mut V)
        requires
            old(self).wf(),
            i < old(self).keys().len(),
        ensures
            *value == old(self).values()[i as int],
            final(self).wf(),
            final(self).keys() == old(self).keys(),
            final(self).values() == old(self).values().update(i as int, *final(value)),
    {
        assert(forall|map: Self|
            map.index == self.index && map.keys() =~= self.keys() ==> #[trigger] map.wf());
        &mut self.entries[i].1
    }

    /// The value of `key`, if it is in the map.
    pub fn get(&self, key: &[u8]) -> (value: Option<&V>)
        requires
            self.wf(),
        ensures
            match value {
                Some(v) => self@.contains_key(key@) && *v == self@[key@],
                None => !self@.contains_key(key@),
            },
    {
        match self.position(key) {
            Some(i) => {
                proof {
                    self.lemma_at(i as int);
                }
                Some(&self.entries[i].1)
            },
            None => None,
        }
    }

    /// Add a key that is not in the map yet, at the end.
    pub fn push_new(&mut self, key: Arc<[u8]>, value: V)
        requires
            old(self).wf(),
            !old(self).keys().contains(bytes::bytes_of(key)),
        ensures
            final(self).wf(),
            final(self).keys() == old(self).keys().push(bytes::bytes_of(key)),
            final(self).values() == old(self).values().push(value),
    {
        let hash = hash_key(&*key);
        let position = self.entries.len();
        let mut list: Vec<usize> = match self.index.remove(&hash) {
            Some(list) => list,
            None => Vec::new(),
        };
        let ghost listed_before = list@;
        list.push(position);
        let _ = self.index.insert(hash, list);
        self.entries.push((key, value));
        proof {
            let before = old(self).index@;
            let after = self.index@;
            assert(self.keys() =~= old(self).keys().push(bytes::bytes_of(key)));
            assert(self.values() =~= old(self).values().push(value));
            assert(after[hash]@ == listed_before.push(position));
            assert forall|i: int| 0 <= i < self.keys().len() implies listed(
                after,
                bytes::fnv_hash(#[trigger] self.keys()[i]),
                i,
            ) by {
                let h = bytes::fnv_hash(self.keys()[i]);
                if i < position {
                    assert(self.keys()[i] == old(self).keys()[i]);
                    assert(listed(before, h, i));
                    let p = choose|p: int|
                        0 <= p < before[h]@.len() && #[trigger] before[h]@[p] == i;
                    assert(after[h]@[p] == i);
                } else {
                    assert(after[h]@[listed_before.len() as int] == i);
                }
            }
            assert forall|h: u64, p: int|
                after.contains_key(h) && 0 <= p < after[h]@.len() implies (
            #[trigger] after[h]@[p]) < self.keys().len() by {
                if h == hash {
                    if p < listed_before.len() {
                        assert(before[h]@[p] < old(self).keys().len());
                    }
                } else {
                    assert(before[h]@[p] < old(self).keys().len());
                }
            }
        }
    }

    /// Set the value of `key`, replacing the one it had.
    pub fn insert(&mut self, key: Arc<[u8]>, value: V)
        requires
            old(self).wf(),
        ensures
            final(self).wf(),
            final(self)@ == old(self)@.insert(bytes::bytes_of(key), value),
    {
        match self.position(&*key) {
            Some(i) => {
                *self.value_at_mut(i) = value;
                proof {
                    self.lemma_view();
                    old(self).lemma_view();
                    assert(self@ =~= old(self)@.insert(bytes::bytes_of(key), value));
                }
            },
            None => {
                self.push_new(key, value);
                proof {
                    self.lemma_view();
                    old(self).lemma_view();
                    assert(self.keys()[self.keys().len() - 1] == bytes::bytes_of(key));
                    assert forall|k: Seq<u8>| old(self).keys().contains(k) implies
                        self.keys().contains(k) by {
                        let i = old(self).keys().index_of(k);
                        assert(self.keys()[i] == k);
                    }
                    assert(self@ =~= old(self)@.insert(bytes::bytes_of(key), value));
                }
            },
        }
    }

    /// The entries, in order of first insertion.
    pub fn into_entries(self) -> (entries: Vec<(Arc<[u8]>, V)>)
        ensures
            entries@.len() == self.keys().len(),
            entries@.len() == self.values().len(),
            forall|i: int|
                0 <= i < entries@.len() ==> bytes::bytes_of((#[trigger] entries@[i]).0)
                    == self.keys()[i] && entries@[i].1 == self.values()[i],
    {
        self.entries
    }

    /// The keys, in order of first insertion.
    pub fn into_keys(self) -> (keys: Vec<Arc<[u8]>>)
        ensures
            bytes::keys_of(keys@) == self.keys(),
    {
        let mut keys: Vec<Arc<[u8]>> = Vec::new();
        for entry in entries: self.entries
            invariant
                entries.seq() == self.entries@,
                keys@.len() == entries.index(),
                forall|i: int| 0 <= i < keys@.len() ==> keys@[i] == (#[trigger] self.entries@[i]).0,
        {
            keys.push(entry.0);
        }
        assert(bytes::keys_of(keys@) =~= self.keys());
        keys
    }

    /// The entry at a position is what the map holds under its key.
    pub proof fn lemma_at(&self, i: int)
        requires
            self.wf(),
            0 <= i < self.keys().len(),
        ensures
            self@.contains_key(self.keys()[i]),
            self@[self.keys()[i]] == self.values()[i],
    {
        assert(self.keys().contains(self.keys()[i]));
        let j = self.keys().index_of(self.keys()[i]);
        assert(self.keys()[j] == self.keys()[i]);
    }

    /// Every entry is what the map holds under its key.
    pub proof fn lemma_view(&self)
        requires
            self.wf(),
        ensures
            self.keys().len() == self.values().len(),
            self.keys().no_duplicates(),
            forall|key: Seq<u8>| #[trigger]
                self@.contains_key(key) <==> self.keys().contains(key),
            forall|i: int|
                #![trigger self.keys()[i]]
                0 <= i < self.keys().len() ==> self@.contains_key(self.keys()[i])
                    && self@[self.keys()[i]] == self.values()[i],
    {
        assert forall|i: int|
            #![trigger self.keys()[i]]
            0 <= i < self.keys().len() implies self@.contains_key(self.keys()[i])
            && self@[self.keys()[i]] == self.values()[i] by {
            self.lemma_at(i);
        }
    }
}

} // verus!
