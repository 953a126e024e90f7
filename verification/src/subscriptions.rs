//! A subscription registry indexed both by stream and by connection.
use vstd::prelude::*;
use crate::keymap::{KeyMap, KeySet};
use crate::keys::{key_views, keys_sorted};

verus! {

/// The connections subscribed to `stream`.
pub open spec fn connections_of_stream(
    pairs: Set<(Seq<char>, Seq<char>)>,
    stream: Seq<char>,
) -> Set<Seq<char>> {
    Set::new(|connection: Seq<char>| pairs.contains((stream, connection)))
}

/// The streams to which `connection` is subscribed.
pub open spec fn streams_of_connection(
    pairs: Set<(Seq<char>, Seq<char>)>,
    connection: Seq<char>,
) -> Set<Seq<char>> {
    Set::new(|stream: Seq<char>| pairs.contains((stream, connection)))
}

/// The streams with at least one subscriber.
pub open spec fn subscribed_streams(pairs: Set<(Seq<char>, Seq<char>)>) -> Set<Seq<char>> {
    Set::new(|stream: Seq<char>| exists|connection: Seq<char>| pairs.contains((stream, connection)))
}

/// The connections with at least one subscription.
pub open spec fn subscribed_connections(pairs: Set<(Seq<char>, Seq<char>)>) -> Set<Seq<char>> {
    Set::new(|connection: Seq<char>| exists|stream: Seq<char>| pairs.contains((stream, connection)))
}

/// Counts over a registry.
#[derive(Clone, Copy, Debug, Default, Eq, PartialEq)]
pub struct SubscriptionStats {
    pub streams: usize,
    pub subscriptions: usize,
    pub connections: usize,
}

/// Which connection is subscribed to which stream, indexed in both directions.
#[derive(Clone, Debug)]
pub struct SubscriptionRegistry {
    by_stream: KeyMap<KeySet>,
    by_connection: KeyMap<KeySet>,
}

impl SubscriptionRegistry {
    /// The subscriptions, as (stream, connection) pairs.
    pub closed spec fn view(&self) -> Set<(Seq<char>, Seq<char>)> {
        Set::new(
            |pair: (Seq<char>, Seq<char>)|
                self.by_stream@.contains_key(pair.0) && self.by_stream@[pair.0]@.contains(pair.1),
        )
    }

    /// Both indexes hold exactly the subscriptions `pairs`, and no index keeps an empty entry.
    closed spec fn indexes_hold(&self, pairs: Set<(Seq<char>, Seq<char>)>) -> bool {
        &&& self.by_stream.wf()
        &&& self.by_connection.wf()
        &&& pairs.finite()
        &&& forall|s: Seq<char>| #[trigger]
            self.by_stream@.contains_key(s) ==> {
                &&& self.by_stream@[s].wf()
                &&& self.by_stream@[s]@.len() > 0
                &&& self.by_stream@[s]@ == connections_of_stream(pairs, s)
            }
        &&& forall|c: Seq<char>| #[trigger]
            self.by_connection@.contains_key(c) ==> {
                &&& self.by_connection@[c].wf()
                &&& self.by_connection@[c]@.len() > 0
                &&& self.by_connection@[c]@ == streams_of_connection(pairs, c)
            }
        &&& forall|s: Seq<char>, c: Seq<char>| #[trigger]
            pairs.contains((s, c)) ==> self.by_stream@.contains_key(s)
                && self.by_connection@.contains_key(c)
    }

    /// Both indexes hold exactly the subscriptions, and no index keeps an empty entry.
    pub closed spec fn wf(&self) -> bool {
        self.indexes_hold(self@)
    }

    /// Indexes that hold `pairs` hold nothing else.
    proof fn lemma_view_is(&self, pairs: Set<(Seq<char>, Seq<char>)>)
        requires
            self.indexes_hold(pairs),
        ensures
            self@ == pairs,
            self.wf(),
    {
        assert forall|pr: (Seq<char>, Seq<char>)| #[trigger] self@.contains(pr) <==> pairs.contains(pr) by {
            let (a, b) = pr;
            if pairs.contains((a, b)) {
                assert(self.by_stream@.contains_key(a));
                assert(connections_of_stream(pairs, a).contains(b));
            }
        }
        assert(self@ =~= pairs);
    }

    /// The subscriptions of a well-formed registry are finitely many.
    pub proof fn lemma_finite(&self)
        requires
            self.wf(),
        ensures
            self@.finite(),
    {
    }

    /// The index by stream: each subscribed stream with the set of its connections.
    pub closed spec fn stream_index(&self) -> Map<Seq<char>, Set<Seq<char>>> {
        Map::new(|s: Seq<char>| self.by_stream@.contains_key(s), |s: Seq<char>| self.by_stream@[s]@)
    }

    /// The index by connection: each subscribed connection with the set of its streams.
    pub closed spec fn connection_index(&self) -> Map<Seq<char>, Set<Seq<char>>> {
        Map::new(
            |c: Seq<char>| self.by_connection@.contains_key(c),
            |c: Seq<char>| self.by_connection@[c]@,
        )
    }

    /// The two indexes agree in both directions with the subscriptions, and neither keeps an
    /// entry without subscriptions.
    pub proof fn law_indexes_consistent(&self)
        requires
            self.wf(),
        ensures
            forall|s: Seq<char>, c: Seq<char>|
                #![trigger self@.contains((s, c))]
                #![trigger self.stream_index()[s].contains(c)]
                #![trigger self.connection_index()[c].contains(s)]
                {
                    &&& self@.contains((s, c)) <==> (self.stream_index().contains_key(s)
                        && self.stream_index()[s].contains(c))
                    &&& self@.contains((s, c)) <==> (self.connection_index().contains_key(c)
                        && self.connection_index()[c].contains(s))
                },
            forall|s: Seq<char>| #[trigger]
                self.stream_index().contains_key(s) ==> self.stream_index()[s].len() > 0,
            forall|c: Seq<char>| #[trigger]
                self.connection_index().contains_key(c) ==> self.connection_index()[c].len() > 0,
            self@.finite(),
    {
    }

    /// An empty registry.
    pub fn new() -> (registry: Self)
        ensures
            registry.wf(),
            registry@ == Set::<(Seq<char>, Seq<char>)>::empty(),
            registry@.finite(),
    {
        let registry = SubscriptionRegistry { by_stream: KeyMap::new(), by_connection: KeyMap::new() };
        proof {
            registry.lemma_view_is(Set::empty());
        }
        registry
    }

    /// Takes the set stored under `key`, or an empty set when there is none.
    fn take_set(index: &mut KeyMap<KeySet>, key: &String) -> (set: KeySet)
        requires
            old(index).wf(),
            forall|k: Seq<char>| #[trigger] old(index)@.contains_key(k) ==> old(index)@[k].wf(),
        ensures
            final(index).wf(),
            final(index)@ == old(index)@.remove(key@),
            set.wf(),
            old(index)@.contains_key(key@) ==> set == old(index)@[key@],
            !old(index)@.contains_key(key@) ==> set@ == Set::<Seq<char>>::empty(),
    {
        match index.remove(key) {
            Some(set) => set,
            None => KeySet::new(),
        }
    }

    /// Subscribes `connection` to `stream`; tells whether the subscription is new.
    pub fn subscribe(&mut self, stream: String, connection: String) -> (added: bool)
        requires
            old(self).wf(),
        ensures
            final(self).wf(),
            final(self)@ == old(self)@.insert((stream@, connection@)),
            added == !old(self)@.contains((stream@, connection@)),
            final(self)@.finite(),
            final(self)@.len() == old(self)@.len() + if added {
                1int
            } else {
                0int
            },
    {
        let ghost p = self@;
        let ghost s = stream@;
        let ghost c = connection@;
        let ghost old_by_stream = self.by_stream@;
        let ghost old_by_connection = self.by_connection@;
        proof {
            if !old_by_stream.contains_key(s) {
                assert(connections_of_stream(p, s) =~= Set::<Seq<char>>::empty());
            }
            if !old_by_connection.contains_key(c) {
                assert(streams_of_connection(p, c) =~= Set::<Seq<char>>::empty());
            }
        }
        let mut connections = Self::take_set(&mut self.by_stream, &stream);
        assert(connections@ == connections_of_stream(p, s));
        let added = connections.insert(connection.clone());
        proof {
            connections.lemma_items();
            assert(connections@.contains(c));
        }
        let ghost new_connections = connections;
        self.by_stream.insert(stream.clone(), connections);
        let mut streams = Self::take_set(&mut self.by_connection, &connection);
        assert(streams@ == streams_of_connection(p, c));
        streams.insert(stream);
        proof {
            streams.lemma_items();
            assert(streams@.contains(s));
        }
        let ghost new_streams = streams;
        self.by_connection.insert(connection, streams);
        proof {
            let q = p.insert((s, c));
            assert(self.by_stream@ == old_by_stream.remove(s).insert(s, new_connections));
            assert(self.by_connection@ == old_by_connection.remove(c).insert(c, new_streams));
            assert forall|s2: Seq<char>| #[trigger] self.by_stream@.contains_key(s2) implies {
                &&& self.by_stream@[s2].wf()
                &&& self.by_stream@[s2]@.len() > 0
                &&& self.by_stream@[s2]@ == connections_of_stream(q, s2)
            } by {
                if s2 == s {
                    assert(new_connections@ =~= connections_of_stream(q, s2));
                } else {
                    assert(connections_of_stream(q, s2) =~= connections_of_stream(p, s2));
                }
            }
            assert forall|c2: Seq<char>| #[trigger] self.by_connection@.contains_key(c2) implies {
                &&& self.by_connection@[c2].wf()
                &&& self.by_connection@[c2]@.len() > 0
                &&& self.by_connection@[c2]@ == streams_of_connection(q, c2)
            } by {
                if c2 == c {
                    assert(new_streams@ =~= streams_of_connection(q, c2));
                } else {
                    assert(streams_of_connection(q, c2) =~= streams_of_connection(p, c2));
                }
            }
            assert(added == !p.contains((s, c)));
            self.lemma_view_is(q);
        }
        added
    }

    /// Removes one subscription; tells whether it existed.
    pub fn unsubscribe(&mut self, stream: &String, connection: &String) -> (removed: bool)
        requires
            old(self).wf(),
        ensures
            final(self).wf(),
            final(self)@ == old(self)@.remove((stream@, connection@)),
            removed == old(self)@.contains((stream@, connection@)),
            final(self)@.finite(),
            final(self)@.len() == old(self)@.len() - if removed {
                1int
            } else {
                0int
            },
    {
        let ghost p = self@;
        let ghost s = stream@;
        let ghost c = connection@;
        let ghost q = p.remove((s, c));
        let ghost old_by_stream = self.by_stream@;
        let ghost old_by_connection = self.by_connection@;
        let removed = match self.by_stream.remove(stream) {
            Some(mut connections) => {
                let was = connections.remove(connection);
                assert(connections@ =~= connections_of_stream(q, s));
                if !connections.is_empty() {
                    self.by_stream.insert(stream.clone(), connections);
                    assert(self.by_stream@ == old_by_stream.insert(s, connections));
                } else {
                    assert(self.by_stream@ == old_by_stream.remove(s));
                }
                was
            },
            None => {
                assert(connections_of_stream(q, s) =~= Set::<Seq<char>>::empty());
                false
            },
        };
        match self.by_connection.remove(connection) {
            Some(mut streams) => {
                streams.remove(stream);
                assert(streams@ =~= streams_of_connection(q, c));
                if !streams.is_empty() {
                    self.by_connection.insert(connection.clone(), streams);
                    assert(self.by_connection@ == old_by_connection.insert(c, streams));
                } else {
                    assert(self.by_connection@ == old_by_connection.remove(c));
                }
            },
            None => {
                assert(streams_of_connection(q, c) =~= Set::<Seq<char>>::empty());
            },
        }
        proof {
            assert forall|s2: Seq<char>| #[trigger] self.by_stream@.contains_key(s2) implies {
                &&& self.by_stream@[s2].wf()
                &&& self.by_stream@[s2]@.len() > 0
                &&& self.by_stream@[s2]@ == connections_of_stream(q, s2)
            } by {
                if s2 != s {
                    assert(connections_of_stream(q, s2) =~= connections_of_stream(p, s2));
                }
            }
            assert forall|c2: Seq<char>| #[trigger] self.by_connection@.contains_key(c2) implies {
                &&& self.by_connection@[c2].wf()
                &&& self.by_connection@[c2]@.len() > 0
                &&& self.by_connection@[c2]@ == streams_of_connection(q, c2)
            } by {
                if c2 != c {
                    assert(streams_of_connection(q, c2) =~= streams_of_connection(p, c2));
                }
            }
            assert forall|s2: Seq<char>, c2: Seq<char>| #[trigger]
                q.contains((s2, c2)) implies self.by_stream@.contains_key(s2)
                && self.by_connection@.contains_key(c2) by {
                assert(p.contains((s2, c2)));
                if s2 == s {
                    assert(connections_of_stream(q, s).contains(c2));
                }
                if c2 == c {
                    assert(streams_of_connection(q, c).contains(s2));
                }
            }
            self.lemma_view_is(q);
        }
        removed
    }

    /// Removes every subscription of `connection`; returns how many there were.
    pub fn remove_connection(&mut self, connection: &String) -> (count: usize)
        requires
            old(self).wf(),
        ensures
            final(self).wf(),
            final(self)@ == old(self)@.filter(|pair: (Seq<char>, Seq<char>)| pair.1 != connection@),
            count == streams_of_connection(old(self)@, connection@).len(),
            final(self)@.finite(),
            final(self)@.len() == old(self)@.len() - count,
    {
        let ghost p = self@;
        let ghost c = connection@;
        proof {
            lemma_without_connection_len(p, c);
        }
        let ghost target = p.filter(|pair: (Seq<char>, Seq<char>)| pair.1 != c);
        let ghost old_by_connection = self.by_connection@;
        match self.by_connection.remove(connection) {
            None => {
                proof {
                    assert forall|pr: (Seq<char>, Seq<char>)| #[trigger] p.contains(pr) implies pr.1 != c by {
                        let (a, b) = pr;
                        assert(p.contains((a, b)));
                    }
                    assert(target =~= p);
                    assert(streams_of_connection(p, c) =~= Set::<Seq<char>>::empty());
                    assert forall|c2: Seq<char>| #[trigger] self.by_connection@.contains_key(c2)
                        implies self.by_connection@[c2]@ == streams_of_connection(target, c2) by {
                    }
                    self.lemma_view_is(target);
                }
                0
            },
            Some(streams) => {
                proof {
                    streams.lemma_items();
                }
                let ghost connection_index = self.by_connection;
                let count = streams.len();
                let mut i: usize = 0;
                while i < count
                    invariant
                        streams.wf(),
                        count == streams.items().len(),
                        streams@ == streams_of_connection(p, c),
                        streams@ == streams.items().to_set(),
                        keys_sorted(streams.items()),
                        i <= count,
                        p.finite(),
                        c == connection@,
                        self.by_connection == connection_index,
                        self.by_stream.wf(),
                        forall|s2: Seq<char>| #[trigger]
                            self.by_stream@.contains_key(s2) ==> {
                                &&& self.by_stream@[s2].wf()
                                &&& self.by_stream@[s2]@.len() > 0
                                &&& self.by_stream@[s2]@ == connections_of_stream(
                                    Self::without_upto(p, c, streams.items(), i as int),
                                    s2,
                                )
                            },
                        forall|s2: Seq<char>, c2: Seq<char>| #[trigger]
                            Self::without_upto(p, c, streams.items(), i as int).contains((s2, c2))
                                ==> self.by_stream@.contains_key(s2),
                    decreases count - i,
                {
                    let stream = streams.item_at(i);
                    let ghost s = stream@;
                    let ghost before = Self::without_upto(p, c, streams.items(), i as int);
                    let ghost after = Self::without_upto(p, c, streams.items(), i + 1);
                    proof {
                        assert(streams.items().take(i + 1) =~= streams.items().take(i as int).push(s));
                        assert(after =~= before.remove((s, c))) by {
                            assert forall|pr: (Seq<char>, Seq<char>)| after.contains(pr) <==> before.remove((s, c)).contains(pr) by {
                                if pr.1 == c && streams.items().take(i + 1).contains(pr.0) && !streams.items().take(i as int).contains(pr.0) {
                                    let j = choose|j: int| 0 <= j < i + 1 && #[trigger] streams.items().take(i + 1)[j] == pr.0;
                                    if j < i {
                                        assert(streams.items().take(i as int)[j] == pr.0);
                                    }
                                }
                                if pr == (s, c) {
                                    assert(streams.items().take(i + 1)[i as int] == s);
                                }
                            }
                        }
                    }
                    let ghost old_by_stream = self.by_stream@;
                    match self.by_stream.remove(stream) {
                        Some(mut connections) => {
                            assert(old_by_stream.contains_key(s));
                            assert(connections@ == connections_of_stream(before, s));
                            connections.remove(connection);
                            assert forall|x: Seq<char>| connections@.contains(x) <==> #[trigger] connections_of_stream(after, s).contains(x) by {
                                assert(after.contains((s, x)) == before.remove((s, c)).contains((s, x)));
                                if x != c {
                                    assert((s, x) != (s, c));
                                }
                            }
                            assert(connections@ =~= connections_of_stream(after, s));
                            if !connections.is_empty() {
                                self.by_stream.insert(stream.clone(), connections);
                                assert(self.by_stream@ == old_by_stream.insert(s, connections));
                            } else {
                                assert(self.by_stream@ == old_by_stream.remove(s));
                            }
                        },
                        None => {
                            assert(connections_of_stream(after, s) =~= Set::<Seq<char>>::empty());
                        },
                    }
                    proof {
                        assert forall|s2: Seq<char>| #[trigger] self.by_stream@.contains_key(s2) implies {
                            &&& self.by_stream@[s2].wf()
                            &&& self.by_stream@[s2]@.len() > 0
                            &&& self.by_stream@[s2]@ == connections_of_stream(after, s2)
                        } by {
                            if s2 != s {
                                assert(connections_of_stream(after, s2) =~= connections_of_stream(before, s2));
                            }
                        }
                        assert forall|s2: Seq<char>, c2: Seq<char>| #[trigger]
                            after.contains((s2, c2)) implies self.by_stream@.contains_key(s2) by {
                            assert(before.contains((s2, c2)));
                            if s2 == s {
                                assert(connections_of_stream(after, s).contains(c2));
                            }
                        }
                    }
                    i = i + 1;
                }
                proof {
                    assert(Self::without_upto(p, c, streams.items(), count as int) =~= target) by {
                        assert(streams.items().take(count as int) =~= streams.items());
                        assert forall|pr: (Seq<char>, Seq<char>)| #[trigger] p.contains(pr) && pr.1 == c
                            implies streams.items().contains(pr.0) by {
                            assert(streams_of_connection(p, c).contains(pr.0));
                        }
                    }
                    assert forall|c2: Seq<char>| #[trigger] self.by_connection@.contains_key(c2) implies {
                        &&& self.by_connection@[c2].wf()
                        &&& self.by_connection@[c2]@.len() > 0
                        &&& self.by_connection@[c2]@ == streams_of_connection(target, c2)
                    } by {
                        assert(streams_of_connection(target, c2) =~= streams_of_connection(p, c2));
                    }
                    assert forall|s2: Seq<char>, c2: Seq<char>| #[trigger]
                        target.contains((s2, c2)) implies self.by_stream@.contains_key(s2)
                        && self.by_connection@.contains_key(c2) by {
                        assert(p.contains((s2, c2)));
                    }
                    self.lemma_view_is(target);
                }
                count
            },
        }
    }

    /// The subscribers of `stream`, in increasing key order.
    pub fn subscribers(&self, stream: &String) -> (connections: Vec<String>)
        requires
            self.wf(),
        ensures
            keys_sorted(key_views(connections@)),
            key_views(connections@).to_set() == connections_of_stream(self@, stream@),
            key_views(connections@).len() == connections_of_stream(self@, stream@).len(),
    {
        match self.by_stream.get(stream) {
            Some(set) => {
                proof {
                    set.lemma_items();
                }
                set.to_vec()
            },
            None => {
                let connections: Vec<String> = Vec::new();
                proof {
                    assert(key_views(connections@) =~= Seq::<Seq<char>>::empty());
                    assert(connections_of_stream(self@, stream@) =~= Set::<Seq<char>>::empty());
                    assert(key_views(connections@).to_set() =~= Set::<Seq<char>>::empty());
                }
                connections
            },
        }
    }

    /// How many connections are subscribed to `stream`.
    pub fn subscriber_count(&self, stream: &String) -> (count: usize)
        requires
            self.wf(),
        ensures
            count == connections_of_stream(self@, stream@).len(),
    {
        match self.by_stream.get(stream) {
            Some(set) => set.len(),
            None => {
                assert(connections_of_stream(self@, stream@) =~= Set::<Seq<char>>::empty());
                0
            },
        }
    }

    /// The index by stream covers exactly the subscribed streams.
    proof fn lemma_stream_index(&self)
        requires
            self.wf(),
        ensures
            self.by_stream@.dom() == subscribed_streams(self@),
            self.by_connection@.dom() == subscribed_connections(self@),
    {
        assert forall|s: Seq<char>| self.by_stream@.dom().contains(s) <==> #[trigger] subscribed_streams(
            self@,
        ).contains(s) by {
            if self.by_stream@.contains_key(s) {
                let set = self.by_stream@[s];
                set.lemma_items();
                assert(set@.contains(set.items()[0]));
                assert(self@.contains((s, set.items()[0])));
            }
            if subscribed_streams(self@).contains(s) {
                let c = choose|c: Seq<char>| self@.contains((s, c));
                assert(self@.contains((s, c)));
            }
        }
        assert(self.by_stream@.dom() =~= subscribed_streams(self@));
        assert forall|c: Seq<char>| self.by_connection@.dom().contains(c) <==> #[trigger] subscribed_connections(
            self@,
        ).contains(c) by {
            if self.by_connection@.contains_key(c) {
                let set = self.by_connection@[c];
                set.lemma_items();
                assert(set@.contains(set.items()[0]));
                assert(self@.contains((set.items()[0], c)));
            }
            if subscribed_connections(self@).contains(c) {
                let s = choose|s: Seq<char>| self@.contains((s, c));
                assert(self@.contains((s, c)));
            }
        }
        assert(self.by_connection@.dom() =~= subscribed_connections(self@));
    }

    /// How many streams have subscribers.
    pub fn stream_count(&self) -> (count: usize)
        requires
            self.wf(),
        ensures
            count == subscribed_streams(self@).len(),
    {
        proof {
            self.lemma_stream_index();
            self.by_stream.lemma_view();
        }
        self.by_stream.len()
    }

    /// How many connections have subscriptions.
    fn connection_count(&self) -> (count: usize)
        requires
            self.wf(),
        ensures
            count == subscribed_connections(self@).len(),
    {
        proof {
            self.lemma_stream_index();
            self.by_connection.lemma_view();
        }
        self.by_connection.len()
    }

    /// Stream, subscription and connection counts; the subscription count saturates at the
    /// largest `usize`.
    pub fn stats(&self) -> (stats: SubscriptionStats)
        requires
            self.wf(),
        ensures
            stats.streams == subscribed_streams(self@).len(),
            stats.subscriptions == if self@.len() <= usize::MAX {
                self@.len()
            } else {
                usize::MAX as nat
            },
            stats.connections == subscribed_connections(self@).len(),
    {
        let ghost p = self@;
        let ghost keys = self.by_stream.keys();
        proof {
            self.by_stream.lemma_view();
            assert(keys.take(0) =~= Seq::<Seq<char>>::empty());
            assert(Self::pairs_upto(p, keys, 0) =~= Set::<(Seq<char>, Seq<char>)>::empty());
        }
        let n = self.by_stream.len();
        let mut total: usize = 0;
        let mut i: usize = 0;
        while i < n
            invariant
                self.wf(),
                p == self@,
                keys == self.by_stream.keys(),
                n == keys.len(),
                i <= n,
                Self::pairs_upto(p, keys, i as int).finite(),
                total == if Self::pairs_upto(p, keys, i as int).len() <= usize::MAX {
                    Self::pairs_upto(p, keys, i as int).len()
                } else {
                    usize::MAX as nat
                },
            decreases n - i,
        {
            let set = self.by_stream.value_at(i);
            let ghost k = keys[i as int];
            proof {
                self.by_stream.lemma_view();
                assert(self.by_stream@.contains_key(k));
                assert(self.by_stream@[k] == *set);
                set.lemma_items();
                let before = Self::pairs_upto(p, keys, i as int);
                let added = set@.map(|c: Seq<char>| (k, c));
                assert(keys.take(i + 1) =~= keys.take(i as int).push(k));
                assert(Self::pairs_upto(p, keys, i + 1) =~= before + added) by {
                    assert forall|pr: (Seq<char>, Seq<char>)| #[trigger] (before + added).contains(pr) implies Self::pairs_upto(p, keys, i + 1).contains(pr) by {
                        if added.contains(pr) {
                            let c = choose|c: Seq<char>| set@.contains(c) && (k, c) == pr;
                            assert(connections_of_stream(p, k).contains(c));
                            assert(p.contains((k, c)));
                            assert(keys.take(i + 1)[i as int] == k);
                        } else {
                            let j = choose|j: int| 0 <= j < i && #[trigger] keys.take(i as int)[j] == pr.0;
                            assert(keys.take(i + 1)[j] == pr.0);
                        }
                    }
                    assert forall|pr: (Seq<char>, Seq<char>)| #[trigger] Self::pairs_upto(p, keys, i + 1).contains(pr) implies (before + added).contains(pr) by {
                        if !keys.take(i as int).contains(pr.0) {
                            let (a, b) = pr;
                            assert(p.contains((a, b)));
                            assert(set@.contains(b));
                            assert(added.contains((a, b)));
                        }
                    }
                }
                assert(before.disjoint(added)) by {
                    assert forall|pr: (Seq<char>, Seq<char>)| #[trigger] added.contains(pr) implies !before.contains(pr) by {
                        if before.contains(pr) {
                            let j = choose|j: int| 0 <= j < i && #[trigger] keys.take(i as int)[j] == pr.0;
                            assert(keys[j] == k);
                            crate::keys::lemma_sorted_unique(keys, j, i as int);
                        }
                    }
                }
                vstd::set_lib::lemma_map_size(set@, added, |c: Seq<char>| (k, c));
                vstd::set_lib::lemma_set_disjoint_lens(before, added);
            }
            total = total.saturating_add(set.len());
            i = i + 1;
        }
        proof {
            assert(keys.take(n as int) =~= keys);
            assert(Self::pairs_upto(p, keys, n as int) =~= p) by {
                assert forall|pr: (Seq<char>, Seq<char>)| #[trigger] p.contains(pr) implies keys.contains(pr.0) by {
                    let (a, b) = pr;
                    assert(p.contains((a, b)));
                    assert(self.by_stream@.contains_key(a));
                }
            }
        }
        SubscriptionStats {
            streams: self.stream_count(),
            subscriptions: total,
            connections: self.connection_count(),
        }
    }

    /// The subscriptions to the first `i` of `streams`.
    spec fn pairs_upto(
        pairs: Set<(Seq<char>, Seq<char>)>,
        streams: Seq<Seq<char>>,
        i: int,
    ) -> Set<(Seq<char>, Seq<char>)> {
        pairs.filter(|pair: (Seq<char>, Seq<char>)| streams.take(i).contains(pair.0))
    }

    /// The pairs that remain once the subscriptions of `connection` to the first `i` of `streams`
    /// are gone.
    spec fn without_upto(
        pairs: Set<(Seq<char>, Seq<char>)>,
        connection: Seq<char>,
        streams: Seq<Seq<char>>,
        i: int,
    ) -> Set<(Seq<char>, Seq<char>)> {
        pairs.filter(
            |pair: (Seq<char>, Seq<char>)| !(pair.1 == connection && streams.take(i).contains(pair.0)),
        )
    }
}

impl Default for SubscriptionRegistry {
    fn default() -> (registry: Self)
        ensures
            registry.wf(),
            registry@ == Set::<(Seq<char>, Seq<char>)>::empty(),
    {
        SubscriptionRegistry::new()
    }
}

/// Dropping the subscriptions of `connection` removes exactly as many pairs as it has streams.
proof fn lemma_without_connection_len(pairs: Set<(Seq<char>, Seq<char>)>, connection: Seq<char>)
    requires
        pairs.finite(),
    ensures
        streams_of_connection(pairs, connection).finite(),
        pairs.filter(|pair: (Seq<char>, Seq<char>)| pair.1 != connection).finite(),
        pairs.filter(|pair: (Seq<char>, Seq<char>)| pair.1 != connection).len()
            + streams_of_connection(pairs, connection).len() == pairs.len(),
{
    let kept = pairs.filter(|pair: (Seq<char>, Seq<char>)| pair.1 != connection);
    let dropped = pairs.filter(|pair: (Seq<char>, Seq<char>)| pair.1 == connection);
    let streams = streams_of_connection(pairs, connection);
    let to_pair = |s: Seq<char>| (s, connection);
    let to_stream = |pair: (Seq<char>, Seq<char>)| pair.0;
    assert(streams =~= dropped.map(to_stream)) by {
        assert forall|s: Seq<char>| streams.contains(s) implies #[trigger] dropped.map(to_stream).contains(s) by {
            assert(dropped.contains((s, connection)));
            assert(to_stream((s, connection)) == s);
        }
    }
    dropped.lemma_map_finite(to_stream);
    assert(dropped =~= streams.map(to_pair)) by {
        assert forall|pr: (Seq<char>, Seq<char>)| dropped.contains(pr) implies #[trigger] streams.map(to_pair).contains(pr) by {
            let (a, b) = pr;
            assert(streams.contains(a));
            assert(to_pair(a) == pr);
        }
    }
    vstd::set_lib::lemma_map_size(streams, dropped, to_pair);
    assert(pairs =~= kept + dropped);
    assert(kept.disjoint(dropped));
    vstd::set_lib::lemma_set_disjoint_lens(kept, dropped);
}

/// Unsubscribing undoes a subscription that was new.
pub proof fn law_unsubscribe_undoes_subscribe(
    pairs: Set<(Seq<char>, Seq<char>)>,
    stream: Seq<char>,
    connection: Seq<char>,
)
    requires
        !pairs.contains((stream, connection)),
    ensures
        pairs.insert((stream, connection)).remove((stream, connection)) == pairs,
{
    assert(pairs.insert((stream, connection)).remove((stream, connection)) =~= pairs);
}

} // verus!
