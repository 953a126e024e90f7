//! Ordered maps and sets keyed by strings, kept in increasing key order.
use vstd::prelude::*;
use crate::keys::{compare_keys, key_lt, keys_sorted, lemma_key_order, lemma_sorted_unique, KeyOrder};

verus! {

/// A map from string keys to values, whose entries stay in increasing key order.
#[derive(Clone, Debug)]
pub struct KeyMap<V> {
    entries: Vec<(String, V)>,
}

impl<V> KeyMap<V> {
    /// The keys, in the order in which they are kept.
    pub closed spec fn keys(&self) -> Seq<Seq<char>> {
        self.entries@.map_values(|e: (String, V)| e.0@)
    }

    /// The values, aligned with `keys`.
    pub closed spec fn values(&self) -> Seq<V> {
        self.entries@.map_values(|e: (String, V)| e.1)
    }

    pub open spec fn wf(&self) -> bool {
        &&& keys_sorted(self.keys())
        &&& self.keys().len() == self.values().len()
    }

    pub open spec fn view(&self) -> Map<Seq<char>, V> {
        Map::new(
            |k: Seq<char>| self.keys().contains(k),
            |k: Seq<char>| self.values()[self.keys().index_of(k)],
        )
    }

    /// How the ordered entries make up the map.
    pub proof fn lemma_view(&self)
        requires
            self.wf(),
        ensures
            forall|i: int|
                0 <= i < self.keys().len() ==> #[trigger] self@.contains_key(self.keys()[i])
                    && self@[self.keys()[i]] == self.values()[i],
            forall|k: Seq<char>| #[trigger] self@.contains_key(k) ==> self.keys().contains(k),
            self@.dom() == self.keys().to_set(),
            self@.dom().finite(),
            self@.dom().len() == self.keys().len(),
    {
        let keys = self.keys();
        assert forall|i: int| 0 <= i < keys.len() implies #[trigger] self@.contains_key(keys[i])
            && self@[keys[i]] == self.values()[i] by {
            assert(keys.contains(keys[i]));
            let j = keys.index_of(keys[i]);
            lemma_sorted_unique(keys, i, j);
        }
        assert(self@.dom() =~= keys.to_set());
        assert forall|i: int, j: int| 0 <= i < keys.len() && 0 <= j < keys.len() && i != j implies keys[i]
            != keys[j] by {
            if keys[i] == keys[j] {
                lemma_sorted_unique(keys, i, j);
            }
        }
        assert(keys.no_duplicates());
        keys.unique_seq_to_set();
    }

    /// An empty map.
    pub fn new() -> (map: Self)
        ensures
            map.wf(),
            map.keys() == Seq::<Seq<char>>::empty(),
            map.values() == Seq::<V>::empty(),
            map@ == Map::<Seq<char>, V>::empty(),
    {
        let map = KeyMap { entries: Vec::new() };
        assert(map.keys() =~= Seq::<Seq<char>>::empty());
        assert(map.values() =~= Seq::<V>::empty());
        assert(map@ =~= Map::<Seq<char>, V>::empty());
        map
    }

    /// The number of entries.
    pub fn len(&self) -> (n: usize)
        requires
            self.wf(),
        ensures
            n == self.keys().len(),
            n == self@.len(),
    {
        proof {
            self.lemma_view();
        }
        self.entries.len()
    }

    /// Where `key` stands, or where it would be inserted.
    pub fn find(&self, key: &String) -> (found: Result<usize, usize>)
        requires
            self.wf(),
        ensures
            match found {
                Ok(i) => i < self.keys().len() && self.keys()[i as int] == key@,
                Err(i) => {
                    &&& i <= self.keys().len()
                    &&& forall|j: int| 0 <= j < i ==> key_lt(#[trigger] self.keys()[j], key@)
                    &&& forall|j: int| i <= j < self.keys().len() ==> key_lt(key@, #[trigger] self.keys()[j])
                },
            },
            found is Ok <==> self@.contains_key(key@),
    {
        proof {
            lemma_key_order();
            self.lemma_view();
        }
        let n = self.entries.len();
        let mut i: usize = 0;
        while i < n
            invariant
                self.wf(),
                n == self.keys().len(),
                i <= n,
                forall|j: int| 0 <= j < i ==> key_lt(#[trigger] self.keys()[j], key@),
            decreases n - i,
        {
            proof {
                lemma_key_order();
                self.lemma_view();
            }
            let order = compare_keys(&self.entries[i].0, key);
            assert(self.entries@[i as int].0@ == self.keys()[i as int]);
            match order {
                KeyOrder::Less => {
                    i = i + 1;
                },
                KeyOrder::Equal => {
                    return Ok(i);
                },
                KeyOrder::Greater => {
                    assert forall|j: int| i <= j < self.keys().len() implies key_lt(
                        key@,
                        #[trigger] self.keys()[j],
                    ) by {
                        if j > i {
                            assert(key_lt(self.keys()[i as int], self.keys()[j]));
                        }
                    }
                    assert(!self.keys().contains(key@));
                    return Err(i);
                },
            }
        }
        proof {
            lemma_key_order();
            self.lemma_view();
        }
        assert(!self.keys().contains(key@));
        Err(i)
    }

    /// The key at position `i`.
    pub fn key_at(&self, i: usize) -> (key: &String)
        requires
            i < self.keys().len(),
        ensures
            key@ == self.keys()[i as int],
    {
        &self.entries[i].0
    }

    /// The value at position `i`.
    pub fn value_at(&self, i: usize) -> (value: &V)
        requires
            i < self.keys().len(),
        ensures
            *value == self.values()[i as int],
    {
        &self.entries[i].1
    }

    /// Inserts a new entry at the position that `find` reported for its key.
    pub fn insert_at(&mut self, i: usize, key: String, value: V)
        requires
            old(self).wf(),
            i <= old(self).keys().len(),
            forall|j: int| 0 <= j < i ==> key_lt(#[trigger] old(self).keys()[j], key@),
            forall|j: int| i <= j < old(self).keys().len() ==> key_lt(key@, #[trigger] old(self).keys()[j]),
        ensures
            final(self).wf(),
            final(self).keys() == old(self).keys().insert(i as int, key@),
            final(self).values() == old(self).values().insert(i as int, value),
            final(self)@ == old(self)@.insert(key@, value),
    {
        let ghost k = key@;
        self.entries.insert(i, (key, value));
        assert(self.keys() =~= old(self).keys().insert(i as int, k));
        assert(self.values() =~= old(self).values().insert(i as int, value));
        proof {
            lemma_key_order();
            let keys = self.keys();
            assert forall|a: int, b: int| 0 <= a < b < keys.len() implies key_lt(
                #[trigger] keys[a],
                #[trigger] keys[b],
            ) by {
                let ok = old(self).keys();
                if b < i {
                    assert(key_lt(ok[a], ok[b]));
                } else if b == i {
                    assert(key_lt(ok[a], k));
                } else if a < i {
                    assert(key_lt(ok[a], k));
                    assert(key_lt(k, ok[b - 1]));
                } else if a == i {
                    assert(key_lt(k, ok[b - 1]));
                } else {
                    assert(key_lt(ok[a - 1], ok[b - 1]));
                }
            }
            old(self).lemma_view();
            self.lemma_view();
            assert(!old(self)@.contains_key(k)) by {
                if old(self)@.contains_key(k) {
                    let j = old(self).keys().index_of(k);
                    assert(old(self).keys()[j] == k);
                    if j < i {
                        assert(key_lt(old(self).keys()[j], k));
                    } else {
                        assert(key_lt(k, old(self).keys()[j]));
                    }
                }
            }
            assert forall|kk: Seq<char>| #[trigger] self@.contains_key(kk) <==> old(self)@.insert(
                k,
                value,
            ).contains_key(kk) by {
                if self@.contains_key(kk) {
                    let j = self.keys().index_of(kk);
                    if j < i {
                        assert(old(self).keys()[j] == kk);
                    } else if j > i {
                        assert(old(self).keys()[j - 1] == kk);
                    }
                }
                if old(self)@.contains_key(kk) {
                    let j = old(self).keys().index_of(kk);
                    if j < i {
                        assert(self.keys()[j] == kk);
                    } else {
                        assert(self.keys()[j + 1] == kk);
                    }
                }
                if kk == k {
                    assert(self.keys()[i as int] == kk);
                }
            }
            assert forall|kk: Seq<char>| #[trigger] self@.contains_key(kk) implies self@[kk] == old(
                self,
            )@.insert(k, value)[kk] by {
                let j = self.keys().index_of(kk);
                if j < i {
                    assert(old(self).keys()[j] == kk);
                } else if j > i {
                    assert(old(self).keys()[j - 1] == kk);
                }
            }
            assert(self@ =~= old(self)@.insert(k, value));
        }
    }

    /// Removes and returns the entry at position `i`.
    pub fn remove_at(&mut self, i: usize) -> (removed: (String, V))
        requires
            old(self).wf(),
            i < old(self).keys().len(),
        ensures
            final(self).wf(),
            final(self).keys() == old(self).keys().remove(i as int),
            final(self).values() == old(self).values().remove(i as int),
            removed.0@ == old(self).keys()[i as int],
            removed.1 == old(self).values()[i as int],
            final(self)@ == old(self)@.remove(removed.0@),
    {
        let removed = self.entries.remove(i);
        let ghost k = removed.0@;
        assert(self.keys() =~= old(self).keys().remove(i as int));
        assert(self.values() =~= old(self).values().remove(i as int));
        proof {
            lemma_key_order();
            let keys = self.keys();
            let ok = old(self).keys();
            assert forall|a: int, b: int| 0 <= a < b < keys.len() implies key_lt(
                #[trigger] keys[a],
                #[trigger] keys[b],
            ) by {
                if b < i {
                    assert(key_lt(ok[a], ok[b]));
                } else if a < i {
                    assert(key_lt(ok[a], ok[b + 1]));
                } else {
                    assert(key_lt(ok[a + 1], ok[b + 1]));
                }
            }
            old(self).lemma_view();
            self.lemma_view();
            assert forall|kk: Seq<char>| #[trigger] self@.contains_key(kk) <==> old(self)@.remove(
                k,
            ).contains_key(kk) by {
                if self@.contains_key(kk) {
                    let j = self.keys().index_of(kk);
                    if j < i {
                        assert(ok[j] == kk);
                        if kk == k {
                            lemma_sorted_unique(ok, j, i as int);
                        }
                    } else {
                        assert(ok[j + 1] == kk);
                        if kk == k {
                            lemma_sorted_unique(ok, j + 1, i as int);
                        }
                    }
                }
                if old(self)@.contains_key(kk) && kk != k {
                    let j = ok.index_of(kk);
                    if j < i {
                        assert(self.keys()[j] == kk);
                    } else if j > i {
                        assert(self.keys()[j - 1] == kk);
                    }
                }
            }
            assert forall|kk: Seq<char>| #[trigger] self@.contains_key(kk) implies self@[kk] == old(
                self,
            )@.remove(k)[kk] by {
                let j = self.keys().index_of(kk);
                if j < i {
                    assert(ok[j] == kk);
                } else {
                    assert(ok[j + 1] == kk);
                }
            }
            assert(self@ =~= old(self)@.remove(k));
        }
        removed
    }

    /// Replaces the value at position `i`, returning the value that stood there.
    pub fn replace_at(&mut self, i: usize, value: V) -> (previous: V)
        requires
            old(self).wf(),
            i < old(self).keys().len(),
        ensures
            final(self).wf(),
            final(self).keys() == old(self).keys(),
            final(self).values() == old(self).values().update(i as int, value),
            previous == old(self).values()[i as int],
            final(self)@ == old(self)@.insert(old(self).keys()[i as int], value),
    {
        let (key, previous) = self.entries.remove(i);
        self.entries.insert(i, (key, value));
        assert(self.keys() =~= old(self).keys());
        assert(self.values() =~= old(self).values().update(i as int, value));
        proof {
            let k = old(self).keys()[i as int];
            old(self).lemma_view();
            self.lemma_view();
            assert forall|kk: Seq<char>| #[trigger] self@.contains_key(kk) <==> old(self)@.insert(
                k,
                value,
            ).contains_key(kk) by {
                if kk == k {
                    assert(self.keys()[i as int] == kk);
                }
            }
            assert forall|kk: Seq<char>| #[trigger] self@.contains_key(kk) implies self@[kk] == old(
                self,
            )@.insert(k, value)[kk] by {
                let j = self.keys().index_of(kk);
                if j != i {
                    assert(kk != k) by {
                        if kk == k {
                            lemma_sorted_unique(self.keys(), j, i as int);
                        }
                    }
                }
            }
            assert(self@ =~= old(self)@.insert(k, value));
        }
        previous
    }

    /// The value under `key`, if any.
    pub fn get(&self, key: &String) -> (value: Option<&V>)
        requires
            self.wf(),
        ensures
            match value {
                Some(v) => self@.contains_key(key@) && *v == self@[key@],
                None => !self@.contains_key(key@),
            },
    {
        match self.find(key) {
            Ok(i) => {
                proof {
                    self.lemma_view();
                }
                Some(self.value_at(i))
            },
            Err(_) => None,
        }
    }

    /// Sets the value under `key`, returning the value it replaced.
    pub fn insert(&mut self, key: String, value: V) -> (previous: Option<V>)
        requires
            old(self).wf(),
        ensures
            final(self).wf(),
            final(self)@ == old(self)@.insert(key@, value),
            match previous {
                Some(v) => old(self)@.contains_key(key@) && v == old(self)@[key@],
                None => !old(self)@.contains_key(key@),
            },
    {
        match self.find(&key) {
            Ok(i) => {
                proof {
                    self.lemma_view();
                }
                Some(self.replace_at(i, value))
            },
            Err(i) => {
                self.insert_at(i, key, value);
                None
            },
        }
    }

    /// Removes the entry under `key`, returning its value.
    pub fn remove(&mut self, key: &String) -> (removed: Option<V>)
        requires
            old(self).wf(),
        ensures
            final(self).wf(),
            final(self)@ == old(self)@.remove(key@),
            match removed {
                Some(v) => old(self)@.contains_key(key@) && v == old(self)@[key@],
                None => !old(self)@.contains_key(key@),
            },
    {
        match self.find(key) {
            Ok(i) => {
                proof {
                    self.lemma_view();
                }
                let (_, value) = self.remove_at(i);
                Some(value)
            },
            Err(_) => {
                assert(self@.remove(key@) =~= self@);
                None
            },
        }
    }
}

/// A set of string keys, kept in increasing key order.
#[derive(Clone, Debug)]
pub struct KeySet {
    map: KeyMap<()>,
}

impl KeySet {
    pub closed spec fn wf(&self) -> bool {
        self.map.wf()
    }

    /// The members in increasing key order.
    pub closed spec fn items(&self) -> Seq<Seq<char>> {
        self.map.keys()
    }

    pub closed spec fn view(&self) -> Set<Seq<char>> {
        self.map@.dom()
    }

    /// How the ordered members make up the set.
    pub proof fn lemma_items(&self)
        requires
            self.wf(),
        ensures
            keys_sorted(self.items()),
            self@ == self.items().to_set(),
            self@.finite(),
            self@.len() == self.items().len(),
            forall|i: int| 0 <= i < self.items().len() ==> #[trigger] self@.contains(self.items()[i]),
            forall|k: Seq<char>| #[trigger] self@.contains(k) ==> self.items().contains(k),
    {
        self.map.lemma_view();
    }

    /// An empty set.
    pub fn new() -> (set: Self)
        ensures
            set.wf(),
            set@ == Set::<Seq<char>>::empty(),
            set.items() == Seq::<Seq<char>>::empty(),
    {
        let set = KeySet { map: KeyMap::new() };
        assert(set@ =~= Set::<Seq<char>>::empty());
        set
    }

    /// The number of members.
    pub fn len(&self) -> (n: usize)
        requires
            self.wf(),
        ensures
            n == self@.len(),
            n == self.items().len(),
    {
        proof {
            self.lemma_items();
        }
        self.map.len()
    }

    /// Whether the set has no member.
    pub fn is_empty(&self) -> (empty: bool)
        requires
            self.wf(),
        ensures
            empty == (self@.len() == 0),
            empty == (self@ == Set::<Seq<char>>::empty()),
    {
        proof {
            self.lemma_items();
            if self@.len() > 0 {
                assert(self@.contains(self.items()[0]));
                assert(!Set::<Seq<char>>::empty().contains(self.items()[0]));
            } else {
                vstd::set_lib::lemma_set_empty_equivalency_len(self@);
            }
        }
        self.len() == 0
    }

    /// Whether `key` is a member.
    pub fn contains(&self, key: &String) -> (member: bool)
        requires
            self.wf(),
        ensures
            member == self@.contains(key@),
    {
        self.map.find(key).is_ok()
    }

    /// Adds `key`; tells whether it was new.
    pub fn insert(&mut self, key: String) -> (added: bool)
        requires
            old(self).wf(),
        ensures
            final(self).wf(),
            final(self)@ == old(self)@.insert(key@),
            added == !old(self)@.contains(key@),
    {
        let ghost k = key@;
        let previous = self.map.insert(key, ());
        assert(self@ =~= old(self)@.insert(k));
        previous.is_none()
    }

    /// Removes `key`; tells whether it was a member.
    pub fn remove(&mut self, key: &String) -> (removed: bool)
        requires
            old(self).wf(),
        ensures
            final(self).wf(),
            final(self)@ == old(self)@.remove(key@),
            removed == old(self)@.contains(key@),
    {
        let previous = self.map.remove(key);
        assert(self@ =~= old(self)@.remove(key@));
        previous.is_some()
    }

    /// The member at position `i` of the increasing order.
    pub fn item_at(&self, i: usize) -> (key: &String)
        requires
            self.wf(),
            i < self.items().len(),
        ensures
            key@ == self.items()[i as int],
    {
        self.map.key_at(i)
    }

    /// The members, in increasing key order.
    pub fn to_vec(&self) -> (members: Vec<String>)
        requires
            self.wf(),
        ensures
            members@.map_values(|s: String| s@) == self.items(),
    {
        let n = self.map.len();
        let mut members: Vec<String> = Vec::new();
        let mut i: usize = 0;
        while i < n
            invariant
                self.wf(),
                n == self.items().len(),
                i <= n,
                members@.map_values(|s: String| s@) == self.items().take(i as int),
            decreases n - i,
        {
            let key = self.map.key_at(i);
            members.push(key.clone());
            assert(self.items().take(i + 1) =~= self.items().take(i as int).push(key@));
            assert(members@.map_values(|s: String| s@) =~= self.items().take(i as int).push(key@));
            i = i + 1;
        }
        assert(self.items().take(n as int) =~= self.items());
        members
    }
}

} // verus!
