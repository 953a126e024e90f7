//! Heartbeat acknowledgement state for liveness sweeps.
use vstd::prelude::*;
use crate::keymap::KeyMap;
use crate::keys::{key_views, keys_sorted, lemma_key_order};

verus! {

/// What a sweep asks the transport to do: probe these connections, drop those.
#[derive(Clone, Debug, Eq, PartialEq)]
pub struct LivenessSweep {
    pub probe: Vec<String>,
    pub stale: Vec<String>,
}

/// The keys of `alive` whose flag is `flag`.
pub open spec fn keys_flagged(alive: Map<Seq<char>, bool>, flag: bool) -> Set<Seq<char>> {
    Set::new(|k: Seq<char>| alive.contains_key(k) && alive[k] == flag)
}

/// What a sweep leaves: the acknowledged connections, each awaiting a new acknowledgement.
pub open spec fn after_sweep(alive: Map<Seq<char>, bool>) -> Map<Seq<char>, bool> {
    Map::new(|k: Seq<char>| alive.contains_key(k) && alive[k], |k: Seq<char>| false)
}

/// The keys whose flag is `flag`, in the order of `keys`.
pub open spec fn flagged_keys(keys: Seq<Seq<char>>, flags: Seq<bool>, flag: bool) -> Seq<Seq<char>>
    decreases keys.len(),
{
    if keys.len() == 0 || flags.len() != keys.len() {
        Seq::empty()
    } else {
        let earlier = flagged_keys(keys.drop_last(), flags.drop_last(), flag);
        if flags.last() == flag {
            earlier.push(keys.last())
        } else {
            earlier
        }
    }
}

/// The flagged keys of a sorted key sequence are sorted, and are exactly the keys with that flag.
pub proof fn lemma_flagged_keys(keys: Seq<Seq<char>>, flags: Seq<bool>, flag: bool)
    requires
        keys.len() == flags.len(),
        keys_sorted(keys),
    ensures
        keys_sorted(flagged_keys(keys, flags, flag)),
        forall|x: Seq<char>|
            #[trigger] flagged_keys(keys, flags, flag).contains(x) <==> exists|m: int|
                0 <= m < keys.len() && #[trigger] keys[m] == x && flags[m] == flag,
    decreases keys.len(),
{
    if keys.len() > 0 {
        let k0 = keys.drop_last();
        let f0 = flags.drop_last();
        assert(keys_sorted(k0));
        lemma_flagged_keys(k0, f0, flag);
        let earlier = flagged_keys(k0, f0, flag);
        lemma_key_order();
        assert forall|x: Seq<char>|
            #[trigger] flagged_keys(keys, flags, flag).contains(x) <==> exists|m: int|
                0 <= m < keys.len() && #[trigger] keys[m] == x && flags[m] == flag by {
            if flagged_keys(keys, flags, flag).contains(x) {
                if earlier.contains(x) {
                    let m = choose|m: int| 0 <= m < k0.len() && #[trigger] k0[m] == x && f0[m] == flag;
                    assert(keys[m] == x);
                } else {
                    assert(keys[keys.len() - 1] == x);
                }
            }
            if exists|m: int| 0 <= m < keys.len() && #[trigger] keys[m] == x && flags[m] == flag {
                let m = choose|m: int| 0 <= m < keys.len() && #[trigger] keys[m] == x && flags[m] == flag;
                if m < keys.len() - 1 {
                    assert(k0[m] == x);
                    assert(earlier.contains(x));
                    if flags.last() == flag {
                        let j = earlier.index_of(x);
                        assert(flagged_keys(keys, flags, flag)[j] == x);
                    }
                } else {
                    let r = flagged_keys(keys, flags, flag);
                    assert(r[r.len() - 1] == x);
                }
            }
        }
        if flags.last() == flag {
            let r = flagged_keys(keys, flags, flag);
            assert forall|a: int, b: int| 0 <= a < b < r.len() implies crate::keys::key_lt(
                #[trigger] r[a],
                #[trigger] r[b],
            ) by {
                if b == r.len() - 1 {
                    assert(earlier.contains(r[a]));
                    let m = choose|m: int| 0 <= m < k0.len() && #[trigger] k0[m] == r[a] && f0[m] == flag;
                    assert(crate::keys::key_lt(keys[m], keys[keys.len() - 1]));
                } else {
                    assert(r[a] == earlier[a]);
                    assert(r[b] == earlier[b]);
                }
            }
        }
    }
}

/// Per tracked connection, whether it acknowledged since the last sweep.
#[derive(Clone, Debug)]
pub struct LivenessTracker {
    alive: KeyMap<bool>,
}

impl LivenessTracker {
    pub closed spec fn view(&self) -> Map<Seq<char>, bool> {
        self.alive@
    }

    pub closed spec fn wf(&self) -> bool {
        self.alive.wf()
    }

    /// A well-formed tracker tracks finitely many connections.
    pub proof fn lemma_finite(&self)
        requires
            self.wf(),
        ensures
            self@.dom().finite(),
    {
        self.alive.lemma_view();
    }

    /// A tracker with no connection.
    pub fn new() -> (tracker: Self)
        ensures
            tracker.wf(),
            tracker@ == Map::<Seq<char>, bool>::empty(),
            tracker@.dom().finite(),
    {
        LivenessTracker { alive: KeyMap::new() }
    }

    /// Starts tracking `connection` as alive; tells whether it was new.
    pub fn track(&mut self, connection: String) -> (added: bool)
        requires
            old(self).wf(),
        ensures
            final(self).wf(),
            added == !old(self)@.contains_key(connection@),
            final(self)@ == if added {
                old(self)@.insert(connection@, true)
            } else {
                old(self)@
            },
            final(self)@.dom().finite(),
            final(self)@.len() == old(self)@.len() + if added {
                1int
            } else {
                0int
            },
    {
        proof {
            self.alive.lemma_view();
        }
        match self.alive.find(&connection) {
            Ok(_) => false,
            Err(i) => {
                self.alive.insert_at(i, connection, true);
                proof {
                    self.alive.lemma_view();
                }
                true
            },
        }
    }

    /// Records an acknowledgement; tells whether `connection` is tracked.
    pub fn acknowledge(&mut self, connection: &String) -> (known: bool)
        requires
            old(self).wf(),
        ensures
            final(self).wf(),
            known == old(self)@.contains_key(connection@),
            final(self)@ == if known {
                old(self)@.insert(connection@, true)
            } else {
                old(self)@
            },
            final(self)@.dom().finite(),
    {
        proof {
            self.alive.lemma_view();
        }
        match self.alive.find(connection) {
            Ok(i) => {
                proof {
                    self.alive.lemma_view();
                }
                self.alive.replace_at(i, true);
                proof {
                    self.alive.lemma_view();
                }
                true
            },
            Err(_) => false,
        }
    }

    /// Stops tracking `connection`; tells whether it was tracked.
    pub fn remove(&mut self, connection: &String) -> (removed: bool)
        requires
            old(self).wf(),
        ensures
            final(self).wf(),
            removed == old(self)@.contains_key(connection@),
            final(self)@ == old(self)@.remove(connection@),
            final(self)@.dom().finite(),
            final(self)@.len() == old(self)@.len() - if removed {
                1int
            } else {
                0int
            },
    {
        proof {
            self.alive.lemma_view();
        }
        let removed = self.alive.remove(connection).is_some();
        proof {
            self.alive.lemma_view();
        }
        removed
    }

    /// Probes the connections that acknowledged since the last sweep and drops the others.
    #[verifier::spinoff_prover]
    pub fn sweep(&mut self) -> (sweep: LivenessSweep)
        requires
            old(self).wf(),
        ensures
            final(self).wf(),
            final(self)@ == after_sweep(old(self)@),
            final(self)@.dom().finite(),
            keys_sorted(key_views(sweep.probe@)),
            key_views(sweep.probe@).to_set() == keys_flagged(old(self)@, true),
            keys_sorted(key_views(sweep.stale@)),
            key_views(sweep.stale@).to_set() == keys_flagged(old(self)@, false),
    {
        let n = self.alive.len();
        let ghost keys = self.alive.keys();
        let ghost values = self.alive.values();
        let mut probe: Vec<String> = Vec::new();
        let mut stale: Vec<String> = Vec::new();
        let mut kept: KeyMap<bool> = KeyMap::new();
        let mut i: usize = 0;
        proof {
            assert(keys.take(0) =~= Seq::<Seq<char>>::empty());
            assert(key_views(probe@) =~= Seq::<Seq<char>>::empty());
            assert(key_views(stale@) =~= Seq::<Seq<char>>::empty());
        }
        while i < n
            invariant
                self.alive.wf(),
                keys == self.alive.keys(),
                values == self.alive.values(),
                n == keys.len(),
                n == values.len(),
                i <= n,
                keys_sorted(keys),
                kept.wf(),
                key_views(probe@) == flagged_keys(keys.take(i as int), values.take(i as int), true),
                key_views(stale@) == flagged_keys(keys.take(i as int), values.take(i as int), false),
                kept.keys() == flagged_keys(keys.take(i as int), values.take(i as int), true),
                forall|j: int| 0 <= j < kept.values().len() ==> !(#[trigger] kept.values()[j]),
            decreases n - i,
        {
            let key = self.alive.key_at(i);
            let flag = *self.alive.value_at(i);
            let ghost k = keys[i as int];
            proof {
                lemma_key_order();
                assert(keys.take(i + 1).drop_last() =~= keys.take(i as int));
                assert(values.take(i + 1).drop_last() =~= values.take(i as int));
                assert(keys.take(i + 1).last() == k);
                assert(values.take(i + 1).last() == flag);
                lemma_flagged_keys(keys.take(i as int), values.take(i as int), true);
            }
            if flag {
                let ghost old_probe = key_views(probe@);
                probe.push(key.clone());
                assert(key_views(probe@) =~= old_probe.push(k));
                let len = kept.len();
                proof {
                    assert forall|j: int| 0 <= j < kept.keys().len() implies crate::keys::key_lt(
                        #[trigger] kept.keys()[j],
                        k,
                    ) by {
                        assert(kept.keys().contains(kept.keys()[j]));
                        let m = choose|m: int|
                            0 <= m < i && #[trigger] keys.take(i as int)[m] == kept.keys()[j]
                                && values.take(i as int)[m] == true;
                        assert(crate::keys::key_lt(keys[m], keys[i as int]));
                    }
                }
                let ghost old_values = kept.values();
                kept.insert_at(len, key.clone(), false);
                assert forall|j: int| 0 <= j < kept.values().len() implies !(#[trigger] kept.values()[j]) by {
                    if j < len {
                        assert(kept.values()[j] == old_values[j]);
                    }
                }
            } else {
                let ghost old_stale = key_views(stale@);
                stale.push(key.clone());
                assert(key_views(stale@) =~= old_stale.push(k));
            }
            i = i + 1;
        }
        let ghost before = self.alive@;
        proof {
            assert(keys.take(n as int) =~= keys);
            assert(values.take(n as int) =~= values);
            self.alive.lemma_view();
            kept.lemma_view();
            lemma_flagged_keys(keys, values, true);
            lemma_flagged_keys(keys, values, false);
            assert forall|k: Seq<char>| kept@.contains_key(k) <==> #[trigger] after_sweep(before).contains_key(k) by {
                if kept@.contains_key(k) {
                    assert(kept.keys().contains(k));
                    let m = choose|m: int| 0 <= m < n && #[trigger] keys[m] == k && values[m] == true;
                    assert(self.alive@.contains_key(self.alive.keys()[m]));
                    assert(before[keys[m]] == values[m]);
                }
                if after_sweep(before).contains_key(k) {
                    let m = keys.index_of(k);
                    assert(before[keys[m]] == values[m]);
                    assert(kept.keys().contains(k));
                }
            }
            assert forall|k: Seq<char>| #[trigger] kept@.contains_key(k) implies kept@[k] == after_sweep(before)[k] by {
                assert(kept.keys().contains(k));
                let j = kept.keys().index_of(k);
                assert(kept.keys()[j] == k);
                assert(kept@.contains_key(kept.keys()[j]));
                assert(kept@[k] == kept.values()[j]);
                assert(!kept.values()[j]);
                assert(after_sweep(before).contains_key(k));
                assert(after_sweep(before)[k] == false);
            }
            assert(kept@ =~= after_sweep(before));
            assert forall|flag: bool, k: Seq<char>| flagged_keys(keys, values, flag).to_set().contains(k) <==> #[trigger] keys_flagged(before, flag).contains(k) by {
                lemma_flagged_keys(keys, values, flag);
                if flagged_keys(keys, values, flag).contains(k) {
                    let m = choose|m: int| 0 <= m < n && #[trigger] keys[m] == k && values[m] == flag;
                    assert(self.alive@.contains_key(self.alive.keys()[m]));
                    assert(before[keys[m]] == values[m]);
                }
                if keys_flagged(before, flag).contains(k) {
                    assert(keys.contains(k));
                    let m = keys.index_of(k);
                    assert(self.alive@.contains_key(self.alive.keys()[m]));
                    assert(before[keys[m]] == values[m]);
                }
            }
            assert(key_views(probe@).to_set() =~= keys_flagged(before, true));
            assert(key_views(stale@).to_set() =~= keys_flagged(before, false));
        }
        self.alive = kept;
        proof {
            self.alive.lemma_view();
        }
        LivenessSweep { probe, stale }
    }

    /// How many connections are tracked.
    pub fn len(&self) -> (n: usize)
        requires
            self.wf(),
        ensures
            n == self@.len(),
    {
        self.alive.len()
    }

    /// Whether no connection is tracked.
    pub fn is_empty(&self) -> (empty: bool)
        requires
            self.wf(),
        ensures
            empty == (self@.len() == 0),
    {
        self.alive.len() == 0
    }

    /// Stops tracking every connection; returns how many there were.
    pub fn clear(&mut self) -> (removed: usize)
        requires
            old(self).wf(),
        ensures
            final(self).wf(),
            removed == old(self)@.len(),
            final(self)@ == Map::<Seq<char>, bool>::empty(),
            final(self)@.dom().finite(),
    {
        let removed = self.alive.len();
        self.alive = KeyMap::new();
        removed
    }
}

impl Default for LivenessTracker {
    fn default() -> (tracker: Self)
        ensures
            tracker.wf(),
            tracker@ == Map::<Seq<char>, bool>::empty(),
    {
        LivenessTracker::new()
    }
}

/// A connection probed by one sweep is reported stale by the next unless it acknowledges, and the
/// sweep after that no longer tracks it.
pub proof fn law_unacknowledged_connection_reaped(alive: Map<Seq<char>, bool>, connection: Seq<char>)
    requires
        alive.contains_key(connection),
        alive[connection],
    ensures
        keys_flagged(alive, true).contains(connection),
        keys_flagged(after_sweep(alive), false).contains(connection),
        !after_sweep(after_sweep(alive)).contains_key(connection),
{
}

} // verus!
