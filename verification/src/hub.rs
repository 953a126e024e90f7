//! A subscription hub composing subscription indexes with ordered delivery, and replay compaction.
use std::collections::VecDeque;
use vstd::prelude::*;
use crate::error::RealtimeError;
use crate::keys::{key_lt, key_views, keys_equal, keys_sorted, lemma_key_order, list_contains};
use crate::limits::MAX_INTEROPERABLE_INTEGER;
use crate::recovery::{
    is_blank, log_parameters_error, DeliveryCursor, DeliveryEntry, DeliveryLog, DeliveryRecovery,
    SnapshotRequiredReason, MAX_DELIVERY_SEQUENCE,
};
use crate::subscriptions::{connections_of_stream, SubscriptionRegistry, SubscriptionStats};

verus! {

/// A delivery and the connections a transport should notify of it.
#[derive(Debug, Eq, PartialEq)]
pub struct DeliveryPlan<Payload> {
    pub entry: DeliveryEntry<Payload>,
    pub connections: Vec<String>,
}

/// Subscription indexes and ordered recovery, without I/O.
#[derive(Clone, Debug)]
pub struct SubscriptionHub<Payload> {
    subscriptions: SubscriptionRegistry,
    deliveries: DeliveryLog<Payload>,
}

impl<Payload> SubscriptionHub<Payload> {
    /// The subscriptions of the hub.
    pub closed spec fn registry(&self) -> SubscriptionRegistry {
        self.subscriptions
    }

    /// The delivery log of the hub.
    pub closed spec fn log(&self) -> DeliveryLog<Payload> {
        self.deliveries
    }

    pub open spec fn wf(&self) -> bool {
        &&& self.registry().wf()
        &&& self.log().wf()
    }

    /// Creates an empty hub.
    pub fn new(epoch: String, max_entries: usize) -> (hub: Result<Self, RealtimeError>)
        ensures
            match hub {
                Ok(h) => {
                    &&& h.wf()
                    &&& h.registry()@ == Set::<(Seq<char>, Seq<char>)>::empty()
                    &&& h.log().log_epoch() == epoch
                    &&& h.log().capacity() == max_entries
                    &&& h.log().latest() == 0
                    &&& h.log().history() == Seq::<DeliveryEntry<Payload>>::empty()
                },
                Err(error) => log_parameters_error(epoch@, max_entries, 0) == Some(error),
            },
            hub is Ok <==> log_parameters_error(epoch@, max_entries, 0) is None,
            hub is Ok <==> (!is_blank(epoch@) && 1 <= max_entries <= MAX_INTEROPERABLE_INTEGER),
    {
        Self::with_initial_sequence(epoch, max_entries, 0)
    }

    /// Creates an empty hub whose next delivery follows `initial_sequence`.
    pub fn with_initial_sequence(epoch: String, max_entries: usize, initial_sequence: u64) -> (hub:
        Result<Self, RealtimeError>)
        ensures
            match hub {
                Ok(h) => {
                    &&& h.wf()
                    &&& h.registry()@ == Set::<(Seq<char>, Seq<char>)>::empty()
                    &&& h.log().log_epoch() == epoch
                    &&& h.log().capacity() == max_entries
                    &&& h.log().latest() == initial_sequence
                    &&& h.log().history() == Seq::<DeliveryEntry<Payload>>::empty()
                },
                Err(error) => log_parameters_error(epoch@, max_entries, initial_sequence) == Some(
                    error,
                ),
            },
            hub is Ok <==> log_parameters_error(epoch@, max_entries, initial_sequence) is None,
            hub is Ok <==> (!is_blank(epoch@) && 1 <= max_entries <= MAX_INTEROPERABLE_INTEGER
                && initial_sequence <= MAX_DELIVERY_SEQUENCE),
    {
        let deliveries = DeliveryLog::with_initial_sequence(epoch, max_entries, initial_sequence)?;
        Ok(SubscriptionHub { subscriptions: SubscriptionRegistry::new(), deliveries })
    }

    /// Subscribes `connection` to `stream`; tells whether the subscription is new.
    pub fn subscribe(&mut self, stream: String, connection: String) -> (added: bool)
        requires
            old(self).wf(),
        ensures
            final(self).wf(),
            final(self).log() == old(self).log(),
            final(self).registry()@ == old(self).registry()@.insert((stream@, connection@)),
            added == !old(self).registry()@.contains((stream@, connection@)),
    {
        self.subscriptions.subscribe(stream, connection)
    }

    /// Removes one subscription; tells whether it existed.
    pub fn unsubscribe(&mut self, stream: &String, connection: &String) -> (removed: bool)
        requires
            old(self).wf(),
        ensures
            final(self).wf(),
            final(self).log() == old(self).log(),
            final(self).registry()@ == old(self).registry()@.remove((stream@, connection@)),
            removed == old(self).registry()@.contains((stream@, connection@)),
    {
        self.subscriptions.unsubscribe(stream, connection)
    }

    /// Removes every subscription of `connection`; returns how many there were.
    pub fn remove_connection(&mut self, connection: &String) -> (count: usize)
        requires
            old(self).wf(),
        ensures
            final(self).wf(),
            final(self).log() == old(self).log(),
            final(self).registry()@ == old(self).registry()@.filter(
                |pair: (Seq<char>, Seq<char>)| pair.1 != connection@,
            ),
            count == crate::subscriptions::streams_of_connection(
                old(self).registry()@,
                connection@,
            ).len(),
    {
        self.subscriptions.remove_connection(connection)
    }

    /// Appends a delivery and returns the connections a transport should notify.
    pub fn plan_delivery(&mut self, stream: String, stream_version: u64, payload: Payload) -> (plan:
        Result<DeliveryPlan<Payload>, RealtimeError>) where Payload: Clone
        requires
            old(self).wf(),
        ensures
            final(self).wf(),
            final(self).registry() == old(self).registry(),
            match plan {
                Ok(p) => {
                    &&& p.entry.stream == stream
                    &&& p.entry.stream_version == stream_version
                    &&& p.entry.payload == payload
                    &&& final(self).log().history().len() > 0
                    &&& crate::recovery::entry_cloned(p.entry, final(self).log().history().last())
                    &&& DeliveryLog::append_step(
                        old(self).log(),
                        final(self).log(),
                        p.entry,
                        final(self).log().history().last(),
                    )
                    &&& keys_sorted(key_views(p.connections@))
                    &&& key_views(p.connections@).to_set() == connections_of_stream(
                        old(self).registry()@,
                        stream@,
                    )
                },
                Err(error) => {
                    &&& final(self).log() == old(self).log()
                    &&& error == if old(self).log().latest()
                        == crate::recovery::MAX_DELIVERY_SEQUENCE {
                        RealtimeError::SequenceExhausted
                    } else {
                        RealtimeError::InvalidStreamVersion
                    }
                },
            },
            plan is Ok <==> old(self).log().latest() < crate::recovery::MAX_DELIVERY_SEQUENCE
                && stream_version <= crate::limits::MAX_INTEROPERABLE_INTEGER,
    {
        let connections = self.subscriptions.subscribers(&stream);
        let entry = self.deliveries.append(stream, stream_version, payload)?;
        Ok(DeliveryPlan { entry, connections })
    }

    /// Replays retained deliveries of authorized streams after `cursor`, or tells why a
    /// snapshot is required.
    pub fn recover_after(&self, cursor: &DeliveryCursor, authorized_streams: &Vec<String>) -> (recovery:
        DeliveryRecovery<Payload>) where Payload: Clone
        requires
            self.wf(),
        ensures
            match recovery {
                DeliveryRecovery::Replay { latest_cursor, entries } => {
                    &&& self.log().replay_owed(*cursor)
                    &&& cursor.epoch@ == self.log().log_epoch()@
                    &&& cursor.sequence <= self.log().latest()
                    &&& latest_cursor.epoch == self.log().log_epoch()
                    &&& latest_cursor.sequence == self.log().latest()
                    &&& crate::recovery::entries_cloned(
                        crate::recovery::replay_selection(
                            self.log().history(),
                            cursor.sequence,
                            Some(key_views(authorized_streams@)),
                        ),
                        entries@,
                    )
                },
                DeliveryRecovery::SnapshotRequired {
                    reason,
                    latest_cursor,
                    earliest_available_sequence,
                } => {
                    &&& !self.log().replay_owed(*cursor)
                    &&& reason == self.log().snapshot_reason(*cursor)
                    &&& (cursor.epoch@ != self.log().log_epoch()@ <==> reason
                        == SnapshotRequiredReason::EpochMismatch)
                    &&& (reason == SnapshotRequiredReason::FutureCursor <==> (cursor.epoch@
                        == self.log().log_epoch()@ && cursor.sequence > self.log().latest()))
                    &&& latest_cursor.epoch == self.log().log_epoch()
                    &&& latest_cursor.sequence == self.log().latest()
                    &&& earliest_available_sequence == self.log().earliest_available()
                },
            },
            cursor.epoch@ != self.log().log_epoch()@ ==> recovery is SnapshotRequired,
    {
        self.deliveries.recover_after(cursor, Some(authorized_streams))
    }

    /// The retained deliveries, oldest first.
    pub fn entries(&self) -> (entries: &VecDeque<DeliveryEntry<Payload>>)
        ensures
            entries@ == self.log().history(),
    {
        self.deliveries.entries()
    }

    /// The streams of the retained deliveries, each once.
    pub fn retained_streams(&self) -> (streams: Vec<String>)
        ensures
            key_views(streams@).no_duplicates(),
            key_views(streams@).to_set() == Set::new(
                |s: Seq<char>|
                    exists|i: int|
                        0 <= i < self.log().history().len() && #[trigger] self.log().history()[i].stream@
                            == s,
            ),
    {
        let entries = self.deliveries.entries();
        let ghost h = self.log().history();
        let n = entries.len();
        let mut streams: Vec<String> = Vec::new();
        let mut i: usize = 0;
        while i < n
            invariant
                entries@ == h,
                n == h.len(),
                i <= n,
                key_views(streams@).no_duplicates(),
                forall|s: Seq<char>|
                    key_views(streams@).contains(s) <==> exists|j: int|
                        0 <= j < i && #[trigger] h[j].stream@ == s,
            decreases n - i,
        {
            let stream = &entries[i].stream;
            let ghost before = key_views(streams@);
            if !list_contains(&streams, stream) {
                streams.push(stream.clone());
                assert(key_views(streams@) =~= before.push(stream@));
            }
            assert forall|s: Seq<char>|
                key_views(streams@).contains(s) <==> exists|j: int|
                    0 <= j < i + 1 && #[trigger] h[j].stream@ == s by {
                if key_views(streams@).contains(s) && !before.contains(s) {
                    assert(h[i as int].stream@ == s);
                }
                if exists|j: int| 0 <= j < i + 1 && #[trigger] h[j].stream@ == s {
                    let j = choose|j: int| 0 <= j < i + 1 && #[trigger] h[j].stream@ == s;
                    if j == i {
                        if !before.contains(s) {
                            assert(key_views(streams@)[before.len() as int] == s);
                        }
                    }
                    if before.contains(s) {
                        let t = before.index_of(s);
                        assert(key_views(streams@)[t] == s);
                    }
                }
            }
            i = i + 1;
        }
        assert(key_views(streams@).to_set() =~= Set::new(
            |s: Seq<char>|
                exists|i: int| 0 <= i < h.len() && #[trigger] h[i].stream@ == s,
        ));
        streams
    }

    /// How many deliveries are retained.
    pub fn history_len(&self) -> (n: usize)
        ensures
            n == self.log().history().len(),
    {
        self.deliveries.len()
    }

    /// The cursor of the latest delivery.
    pub fn latest_cursor(&self) -> (cursor: DeliveryCursor)
        ensures
            cursor.epoch == self.log().log_epoch(),
            cursor.sequence == self.log().latest(),
    {
        self.deliveries.latest_cursor()
    }

    /// How many connections are subscribed to `stream`.
    pub fn subscriber_count(&self, stream: &String) -> (count: usize)
        requires
            self.wf(),
        ensures
            count == connections_of_stream(self.registry()@, stream@).len(),
    {
        self.subscriptions.subscriber_count(stream)
    }

    /// How many streams have subscribers.
    pub fn stream_count(&self) -> (count: usize)
        requires
            self.wf(),
        ensures
            count == crate::subscriptions::subscribed_streams(self.registry()@).len(),
    {
        self.subscriptions.stream_count()
    }

    /// Stream, subscription and connection counts of the subscriptions.
    pub fn stats(&self) -> (stats: SubscriptionStats)
        requires
            self.wf(),
        ensures
            stats.streams == crate::subscriptions::subscribed_streams(self.registry()@).len(),
            stats.subscriptions == if self.registry()@.len() <= usize::MAX {
                self.registry()@.len()
            } else {
                usize::MAX as nat
            },
            stats.connections == crate::subscriptions::subscribed_connections(
                self.registry()@,
            ).len(),
    {
        self.subscriptions.stats()
    }
}

/// `a` comes before `b` in the final delivery order: by sequence, then by stream key.
pub open spec fn delivered_before<Payload>(a: DeliveryEntry<Payload>, b: DeliveryEntry<Payload>) -> bool {
    ||| a.cursor.sequence < b.cursor.sequence
    ||| a.cursor.sequence == b.cursor.sequence && key_lt(a.stream@, b.stream@)
}

/// `entries[i]` is the newest delivery of its stream among `entries[from..]`; among equal
/// sequences, the first one.
#[verifier::opaque]
pub open spec fn latest_of_stream<Payload>(
    entries: Seq<DeliveryEntry<Payload>>,
    from: int,
    i: int,
) -> bool {
    &&& 0 <= from <= i < entries.len()
    &&& forall|j: int|
        from <= j < entries.len() && (#[trigger] entries[j]).stream@ == entries[i].stream@ ==> {
            ||| entries[j].cursor.sequence < entries[i].cursor.sequence
            ||| entries[j].cursor.sequence == entries[i].cursor.sequence && i <= j
        }
}

/// Every entry of `result` is the newest delivery of its stream among `entries[from..]`.
#[verifier::opaque]
pub open spec fn kept_are_latest<Payload>(
    entries: Seq<DeliveryEntry<Payload>>,
    from: int,
    result: Seq<DeliveryEntry<Payload>>,
) -> bool {
    forall|t: int| 0 <= t < result.len() ==> is_newest_delivery(entries, from, #[trigger] result[t])
}

/// `delivery` is the newest delivery of its stream among `entries[from..]`.
pub open spec fn is_newest_delivery<Payload>(
    entries: Seq<DeliveryEntry<Payload>>,
    from: int,
    delivery: DeliveryEntry<Payload>,
) -> bool {
    exists|i: int| #![trigger entries[i]] latest_of_stream(entries, from, i) && delivery == entries[i]
}

/// Some entry of `result` belongs to `stream`.
pub open spec fn has_stream<Payload>(result: Seq<DeliveryEntry<Payload>>, stream: Seq<char>) -> bool {
    exists|t: int| #![trigger result[t]] 0 <= t < result.len() && result[t].stream@ == stream
}

/// Every stream of `entries[from..]` has an entry in `result`.
#[verifier::opaque]
pub open spec fn covers_streams<Payload>(
    entries: Seq<DeliveryEntry<Payload>>,
    from: int,
    result: Seq<DeliveryEntry<Payload>>,
) -> bool {
    forall|i: int| from <= i < entries.len() ==> has_stream(result, (#[trigger] entries[i]).stream@)
}

/// `result` is strictly increasing in final delivery order.
pub open spec fn delivery_sorted<Payload>(result: Seq<DeliveryEntry<Payload>>) -> bool {
    forall|a: int, b: int| 0 <= a < b < result.len() ==> delivered_before(#[trigger] result[a], #[trigger] result[b])
}

/// Whether every entry shares the epoch of the first.
pub open spec fn single_epoch<Payload>(entries: Seq<DeliveryEntry<Payload>>) -> bool {
    forall|i: int| 0 <= i < entries.len() ==> (#[trigger] entries[i]).cursor.epoch@ == entries[0].cursor.epoch@
}

/// `result` is the newest delivery of each stream of `entries[from..]`, in final delivery order.
pub open spec fn is_latest_per_stream<Payload>(
    entries: Seq<DeliveryEntry<Payload>>,
    from: int,
    result: Seq<DeliveryEntry<Payload>>,
) -> bool {
    &&& kept_are_latest(entries, from, result)
    &&& covers_streams(entries, from, result)
    &&& delivery_sorted(result)
}

/// No two entries share a stream.
pub open spec fn distinct_streams<Payload>(entries: Seq<DeliveryEntry<Payload>>) -> bool {
    forall|a: int, b: int|
        0 <= a < entries.len() && 0 <= b < entries.len() && a != b ==> (#[trigger] entries[a]).stream@
            != (#[trigger] entries[b]).stream@
}

proof fn lemma_delivered_before_order<Payload>()
    ensures
        forall|a: DeliveryEntry<Payload>, b: DeliveryEntry<Payload>, c: DeliveryEntry<Payload>|
            #[trigger] delivered_before(a, b) && #[trigger] delivered_before(b, c) ==> delivered_before(a, c),
        forall|a: DeliveryEntry<Payload>, b: DeliveryEntry<Payload>|
            a.stream@ != b.stream@ && !delivered_before(a, b) ==> #[trigger] delivered_before(b, a),
{
    lemma_key_order();
}

/// A newest delivery stays the newest when an older or unrelated delivery is put before it.
proof fn lemma_latest_extend<Payload>(entries: Seq<DeliveryEntry<Payload>>, k: int, i: int)
    requires
        0 <= k,
        latest_of_stream(entries, k + 1, i),
        entries[k].stream@ != entries[i].stream@ || entries[k].cursor.sequence
            < entries[i].cursor.sequence,
    ensures
        latest_of_stream(entries, k, i),
{
    reveal(latest_of_stream);
}

/// The newest delivery of a stream has the largest sequence of that stream.
proof fn lemma_latest_bound<Payload>(entries: Seq<DeliveryEntry<Payload>>, from: int, i: int, j: int)
    requires
        latest_of_stream(entries, from, i),
        from <= j < entries.len(),
        entries[j].stream@ == entries[i].stream@,
    ensures
        entries[j].cursor.sequence <= entries[i].cursor.sequence,
{
    reveal(latest_of_stream);
    assert(entries[j] == entries[j]);
}

/// A delivery no later one of its stream outdoes is the newest of its stream.
proof fn lemma_latest_fresh<Payload>(entries: Seq<DeliveryEntry<Payload>>, k: int)
    requires
        0 <= k < entries.len(),
        forall|j: int|
            k < j < entries.len() && (#[trigger] entries[j]).stream@ == entries[k].stream@
                ==> entries[j].cursor.sequence <= entries[k].cursor.sequence,
    ensures
        latest_of_stream(entries, k, k),
{
    reveal(latest_of_stream);
}

/// Inserting `x` at `p` keeps the order when everything before `p` precedes it, the entry at `p`
/// does not, and no entry shares its stream.
proof fn lemma_insert_sorted<Payload>(
    middle: Seq<DeliveryEntry<Payload>>,
    p: int,
    x: DeliveryEntry<Payload>,
)
    requires
        0 <= p <= middle.len(),
        delivery_sorted(middle),
        forall|q: int| 0 <= q < p ==> delivered_before(#[trigger] middle[q], x),
        p < middle.len() ==> !delivered_before(middle[p], x),
        forall|q: int| 0 <= q < middle.len() ==> (#[trigger] middle[q]).stream@ != x.stream@,
    ensures
        delivery_sorted(middle.insert(p, x)),
{
    lemma_delivered_before_order::<Payload>();
    let r = middle.insert(p, x);
    if p < middle.len() {
        assert(delivered_before(x, middle[p]));
    }
    assert forall|a: int, b: int| 0 <= a < b < r.len() implies delivered_before(
        #[trigger] r[a],
        #[trigger] r[b],
    ) by {
        if b < p {
            assert(delivered_before(middle[a], middle[b]));
        } else if b == p {
        } else if a < p {
            assert(delivered_before(middle[a], x));
            if b - 1 > p {
                assert(delivered_before(middle[p], middle[b - 1]));
            }
        } else if a == p {
            if b - 1 > p {
                assert(delivered_before(middle[p], middle[b - 1]));
            }
        } else {
            assert(delivered_before(middle[a - 1], middle[b - 1]));
        }
    }
}

/// The state after `all[k]` displaced the delivery of its stream at `t` (or joined as new).
proof fn lemma_keep_step<Payload>(
    all: Seq<DeliveryEntry<Payload>>,
    k: int,
    before: Seq<DeliveryEntry<Payload>>,
    t: int,
    middle: Seq<DeliveryEntry<Payload>>,
    p: int,
)
    requires
        0 <= k < all.len(),
        distinct_streams(before),
        is_latest_per_stream(all, k + 1, before),
        0 <= t <= before.len(),
        forall|q: int| 0 <= q < t ==> (#[trigger] before[q]).stream@ != all[k].stream@,
        t < before.len() ==> before[t].stream@ == all[k].stream@ && before[t].cursor.sequence
            <= all[k].cursor.sequence,
        middle == if t < before.len() {
            before.remove(t)
        } else {
            before
        },
        0 <= p <= middle.len(),
        forall|q: int| 0 <= q < p ==> delivered_before(#[trigger] middle[q], all[k]),
        p < middle.len() ==> !delivered_before(middle[p], all[k]),
    ensures
        distinct_streams(middle.insert(p, all[k])),
        is_latest_per_stream(all, k, middle.insert(p, all[k])),
{
    let e = all[k];
    let m = before.len();
    // Where each entry of `middle` stood in `before`.
    assert forall|q: int| 0 <= q < middle.len() implies #[trigger] middle[q] == before[if t < m
        && q >= t {
        q + 1
    } else {
        q
    }] by {}
    assert forall|q: int| 0 <= q < middle.len() implies (#[trigger] middle[q]).stream@ != e.stream@ by {
        let o = if t < m && q >= t { q + 1 } else { q };
        assert(middle[q] == before[o]);
        if t < m {
            assert(before[o].stream@ != before[t].stream@);
        }
    }
    assert forall|a: int, b: int| 0 <= a < b < middle.len() implies delivered_before(
        #[trigger] middle[a],
        #[trigger] middle[b],
    ) by {
        let oa = if t < m && a >= t { a + 1 } else { a };
        let ob = if t < m && b >= t { b + 1 } else { b };
        assert(middle[a] == before[oa]);
        assert(middle[b] == before[ob]);
    }
    lemma_insert_sorted(middle, p, e);
    let r = middle.insert(p, e);
    assert forall|a: int, b: int| 0 <= a < r.len() && 0 <= b < r.len() && a != b implies (
    #[trigger] r[a]).stream@ != (#[trigger] r[b]).stream@ by {
        let ma = if a < p { a } else { a - 1 };
        let mb = if b < p { b } else { b - 1 };
        if a != p && b != p {
            let oa = if t < m && ma >= t { ma + 1 } else { ma };
            let ob = if t < m && mb >= t { mb + 1 } else { mb };
            assert(r[a] == middle[ma]);
            assert(r[b] == middle[mb]);
            assert(middle[ma] == before[oa]);
            assert(middle[mb] == before[ob]);
        } else if a != p {
            assert(r[a] == middle[ma]);
        } else {
            assert(r[b] == middle[mb]);
        }
    }
    reveal(kept_are_latest);
    reveal(covers_streams);
    assert forall|j: int|
        k < j < all.len() && (#[trigger] all[j]).stream@ == e.stream@ implies all[j].cursor.sequence
        <= e.cursor.sequence by {
        let w = choose|w: int| 0 <= w < before.len() && before[w].stream@ == all[j].stream@;
        if w != t {
            assert(before[w].stream@ != e.stream@) by {
                if w > t && t < m {
                    assert(before[w].stream@ != before[t].stream@);
                }
            }
        }
        let i0 = choose|i0: int| latest_of_stream(all, k + 1, i0) && #[trigger] before[w] == all[i0];
        lemma_latest_bound(all, k + 1, i0, j);
    }
    lemma_latest_fresh(all, k);
    assert forall|q: int| 0 <= q < r.len() implies exists|i: int|
        latest_of_stream(all, k, i) && #[trigger] r[q] == all[i] by {
        if q == p {
            assert(r[q] == all[k]);
        } else {
            let mq = if q < p { q } else { q - 1 };
            let o = if t < m && mq >= t { mq + 1 } else { mq };
            assert(r[q] == middle[mq]);
            assert(middle[mq] == before[o]);
            let i0 = choose|i0: int| latest_of_stream(all, k + 1, i0) && #[trigger] before[o] == all[i0];
            assert(before[o].stream@ != e.stream@);
            lemma_latest_extend(all, k, i0);
        }
    }
    assert forall|i: int| k <= i < all.len() implies exists|q: int|
        0 <= q < r.len() && r[q].stream@ == (#[trigger] all[i]).stream@ by {
        if i == k {
            assert(r[p].stream@ == all[i].stream@);
        } else {
            let w = choose|w: int| 0 <= w < before.len() && before[w].stream@ == all[i].stream@;
            if t < m && w == t {
                assert(r[p].stream@ == all[i].stream@);
            } else {
                let mw = if t < m && w > t { w - 1 } else { w };
                assert(middle[mw] == before[w]);
                if mw < p {
                    assert(r[mw] == middle[mw]);
                } else {
                    assert(r[mw + 1] == middle[mw]);
                }
            }
        }
    }
}

/// The state is unchanged when a newer delivery of the stream of `all[k]` is kept at `t`.
proof fn lemma_drop_step<Payload>(
    all: Seq<DeliveryEntry<Payload>>,
    k: int,
    before: Seq<DeliveryEntry<Payload>>,
    t: int,
)
    requires
        0 <= k < all.len(),
        distinct_streams(before),
        is_latest_per_stream(all, k + 1, before),
        0 <= t < before.len(),
        before[t].stream@ == all[k].stream@,
        all[k].cursor.sequence < before[t].cursor.sequence,
    ensures
        is_latest_per_stream(all, k, before),
{
    reveal(kept_are_latest);
    reveal(covers_streams);
    assert forall|q: int| 0 <= q < before.len() implies exists|i: int|
        latest_of_stream(all, k, i) && #[trigger] before[q] == all[i] by {
        let i0 = choose|i0: int| latest_of_stream(all, k + 1, i0) && #[trigger] before[q] == all[i0];
        if q != t {
            assert(before[q].stream@ != before[t].stream@);
        }
        lemma_latest_extend(all, k, i0);
    }
    assert forall|i: int| k <= i < all.len() implies exists|q: int|
        0 <= q < before.len() && before[q].stream@ == (#[trigger] all[i]).stream@ by {
        if i == k {
            assert(before[t].stream@ == all[i].stream@);
        }
    }
}

/// No delivery precedes itself, and no two precede each other.
proof fn lemma_delivered_before_strict<Payload>()
    ensures
        forall|a: DeliveryEntry<Payload>| !#[trigger] delivered_before(a, a),
        forall|a: DeliveryEntry<Payload>, b: DeliveryEntry<Payload>|
            #[trigger] delivered_before(a, b) ==> !delivered_before(b, a),
{
    lemma_key_order();
}

/// A stream has only one newest delivery.
proof fn lemma_latest_unique<Payload>(entries: Seq<DeliveryEntry<Payload>>, i: int, j: int)
    requires
        latest_of_stream(entries, 0, i),
        latest_of_stream(entries, 0, j),
        entries[i].stream@ == entries[j].stream@,
    ensures
        i == j,
{
    reveal(latest_of_stream);
    assert(entries[i] == entries[i]);
    assert(entries[j] == entries[j]);
}

/// A compaction result never holds two deliveries of one stream.
proof fn lemma_latest_result_distinct<Payload>(
    entries: Seq<DeliveryEntry<Payload>>,
    result: Seq<DeliveryEntry<Payload>>,
)
    requires
        is_latest_per_stream(entries, 0, result),
    ensures
        distinct_streams(result),
{
    reveal(kept_are_latest);
    lemma_delivered_before_strict::<Payload>();
    assert forall|a: int, b: int|
        0 <= a < result.len() && 0 <= b < result.len() && a != b implies (
        #[trigger] result[a]).stream@ != (#[trigger] result[b]).stream@ by {
        let ia = choose|i: int| latest_of_stream(entries, 0, i) && #[trigger] result[a] == entries[i];
        let ib = choose|i: int| latest_of_stream(entries, 0, i) && #[trigger] result[b] == entries[i];
        if result[a].stream@ == result[b].stream@ {
            lemma_latest_unique(entries, ia, ib);
            if a < b {
                assert(delivered_before(result[a], result[b]));
            } else {
                assert(delivered_before(result[b], result[a]));
            }
        }
    }
}

/// Two strictly ordered sequences with the same members are equal.
proof fn lemma_sorted_same_members<Payload>(
    a: Seq<DeliveryEntry<Payload>>,
    b: Seq<DeliveryEntry<Payload>>,
)
    requires
        delivery_sorted(a),
        delivery_sorted(b),
        forall|t: int| 0 <= t < a.len() ==> b.contains(#[trigger] a[t]),
        forall|u: int| 0 <= u < b.len() ==> a.contains(#[trigger] b[u]),
    ensures
        a == b,
    decreases a.len(),
{
    lemma_delivered_before_strict::<Payload>();
    if a.len() == 0 {
        if b.len() > 0 {
            assert(a.contains(b[0]));
        }
        assert(a =~= b);
    } else if b.len() == 0 {
        assert(b.contains(a[0]));
    } else {
        let j = choose|j: int| 0 <= j < b.len() && b[j] == a[0];
        let i = choose|i: int| 0 <= i < a.len() && a[i] == b[0];
        if j > 0 {
            assert(delivered_before(b[0], b[j]));
            if i > 0 {
                assert(delivered_before(a[0], a[i]));
            }
        }
        assert(a[0] == b[0]);
        let ta = a.drop_first();
        let tb = b.drop_first();
        assert forall|t: int| 0 <= t < ta.len() implies tb.contains(#[trigger] ta[t]) by {
            assert(a[t + 1] == ta[t]);
            assert(delivered_before(a[0], a[t + 1]));
            let u = choose|u: int| 0 <= u < b.len() && b[u] == a[t + 1];
            assert(u != 0);
            assert(tb[u - 1] == ta[t]);
        }
        assert forall|u: int| 0 <= u < tb.len() implies ta.contains(#[trigger] tb[u]) by {
            assert(b[u + 1] == tb[u]);
            assert(delivered_before(b[0], b[u + 1]));
            let t = choose|t: int| 0 <= t < a.len() && a[t] == b[u + 1];
            assert(t != 0);
            assert(ta[t - 1] == tb[u]);
        }
        assert forall|x: int, y: int| 0 <= x < y < ta.len() implies delivered_before(
            #[trigger] ta[x],
            #[trigger] ta[y],
        ) by {
            assert(delivered_before(a[x + 1], a[y + 1]));
        }
        assert forall|x: int, y: int| 0 <= x < y < tb.len() implies delivered_before(
            #[trigger] tb[x],
            #[trigger] tb[y],
        ) by {
            assert(delivered_before(b[x + 1], b[y + 1]));
        }
        lemma_sorted_same_members(ta, tb);
        assert(a =~= b) by {
            assert forall|t: int| 0 <= t < a.len() implies a[t] == b[t] by {
                if t > 0 {
                    assert(a[t] == ta[t - 1]);
                    assert(b[t] == tb[t - 1]);
                }
            }
        }
    }
}

/// The newest delivery of a stream lies within the range it was picked from.
proof fn lemma_latest_in_range<Payload>(entries: Seq<DeliveryEntry<Payload>>, from: int, i: int)
    requires
        latest_of_stream(entries, from, i),
    ensures
        0 <= from <= i < entries.len(),
{
    reveal(latest_of_stream);
}

/// Every member of one compaction result of `entries` is a member of any other.
proof fn lemma_compaction_member<Payload>(
    entries: Seq<DeliveryEntry<Payload>>,
    first: Seq<DeliveryEntry<Payload>>,
    second: Seq<DeliveryEntry<Payload>>,
    t: int,
)
    requires
        is_latest_per_stream(entries, 0, first),
        is_latest_per_stream(entries, 0, second),
        0 <= t < first.len(),
    ensures
        second.contains(first[t]),
{
    reveal(kept_are_latest);
    reveal(covers_streams);
    let i = choose|i: int| latest_of_stream(entries, 0, i) && #[trigger] first[t] == entries[i];
    lemma_latest_in_range(entries, 0, i);
    assert(entries[i] == entries[i]);
    let u = choose|u: int| 0 <= u < second.len() && second[u].stream@ == entries[i].stream@;
    let j = choose|j: int| latest_of_stream(entries, 0, j) && #[trigger] second[u] == entries[j];
    lemma_latest_unique(entries, i, j);
    assert(second[u] == first[t]);
}

/// The entries are compacted to one result only: the newest delivery of each stream, in final
/// delivery order, is determined by the entries.
pub proof fn law_compaction_unique<Payload>(
    entries: Seq<DeliveryEntry<Payload>>,
    first: Seq<DeliveryEntry<Payload>>,
    second: Seq<DeliveryEntry<Payload>>,
)
    requires
        is_latest_per_stream(entries, 0, first),
        is_latest_per_stream(entries, 0, second),
    ensures
        first == second,
{
    assert forall|t: int| 0 <= t < first.len() implies second.contains(#[trigger] first[t]) by {
        lemma_compaction_member(entries, first, second, t);
    }
    assert forall|u: int| 0 <= u < second.len() implies first.contains(#[trigger] second[u]) by {
        lemma_compaction_member(entries, second, first, u);
    }
    lemma_sorted_same_members(first, second);
}

/// Compacting a compaction result changes nothing: it has a single epoch, it is its own newest
/// delivery per stream, and no other sequence is.
pub proof fn law_compaction_idempotent<Payload>(
    entries: Seq<DeliveryEntry<Payload>>,
    result: Seq<DeliveryEntry<Payload>>,
)
    requires
        single_epoch(entries),
        is_latest_per_stream(entries, 0, result),
    ensures
        single_epoch(result),
        is_latest_per_stream(result, 0, result),
        forall|other: Seq<DeliveryEntry<Payload>>|
            is_latest_per_stream(result, 0, other) ==> other == result,
{
    lemma_latest_result_distinct(entries, result);
    reveal(kept_are_latest);
    reveal(covers_streams);
    assert forall|t: int| 0 <= t < result.len() implies (#[trigger] result[t]).cursor.epoch@
        == result[0].cursor.epoch@ by {
        let i = choose|i: int| latest_of_stream(entries, 0, i) && #[trigger] result[t] == entries[i];
        let i0 = choose|i: int| latest_of_stream(entries, 0, i) && #[trigger] result[0] == entries[i];
        reveal(latest_of_stream);
        assert(entries[i].cursor.epoch@ == entries[0].cursor.epoch@);
        assert(entries[i0].cursor.epoch@ == entries[0].cursor.epoch@);
    }
    assert forall|t: int| #![trigger latest_of_stream(result, 0, t)] 0 <= t < result.len() implies latest_of_stream(result, 0, t) by {
        reveal(latest_of_stream);
        assert forall|j: int|
            0 <= j < result.len() && (#[trigger] result[j]).stream@ == result[t].stream@ implies {
            ||| result[j].cursor.sequence < result[t].cursor.sequence
            ||| result[j].cursor.sequence == result[t].cursor.sequence && t <= j
        } by {
            if j != t {
                assert(result[j].stream@ != result[t].stream@);
            }
        }
    }
    assert(kept_are_latest(result, 0, result)) by {
        reveal(kept_are_latest);
        assert forall|t: int| 0 <= t < result.len() implies is_newest_delivery(result, 0, #[trigger] result[t]) by {
            assert(latest_of_stream(result, 0, t));
        }
    }
    assert(covers_streams(result, 0, result)) by {
        reveal(covers_streams);
        assert forall|i: int| 0 <= i < result.len() implies has_stream(result, (#[trigger] result[i]).stream@) by {
        }
    }
    assert(delivery_sorted(result));
    assert forall|other: Seq<DeliveryEntry<Payload>>|
        is_latest_per_stream(result, 0, other) implies other == result by {
        law_compaction_unique(result, other, result);
    }
}

/// Keeps only the newest delivery for each stream, ordered by final delivery sequence.
///
/// Deliveries from different epochs are refused rather than compared.
pub fn latest_delivery_per_stream<Payload>(entries: Vec<DeliveryEntry<Payload>>) -> (latest: Result<
    Vec<DeliveryEntry<Payload>>,
    RealtimeError,
>)
    ensures
        match latest {
            Ok(result) => single_epoch(entries@) && is_latest_per_stream(entries@, 0, result@),
            Err(error) => !single_epoch(entries@) && error == RealtimeError::MixedDeliveryEpoch,
        },
{
    let ghost all = entries@;
    let n = entries.len();
    if n > 0 {
        let mut i: usize = 1;
        while i < n
            invariant
                entries@ == all,
                n == all.len(),
                1 <= i <= n,
                forall|j: int| 0 <= j < i ==> (#[trigger] all[j]).cursor.epoch@ == all[0].cursor.epoch@,
            decreases n - i,
        {
            if entries[i].cursor.epoch != entries[0].cursor.epoch {
                return Err(RealtimeError::MixedDeliveryEpoch);
            }
            i = i + 1;
        }
    }
    let mut entries = entries;
    let mut result: Vec<DeliveryEntry<Payload>> = Vec::new();
    let mut k: usize = n;
    proof {
        reveal(kept_are_latest);
        reveal(covers_streams);
        assert(all.take(n as int) =~= all);
    }
    while k > 0
        invariant
            n == all.len(),
            k <= n,
            entries@ == all.take(k as int),
            distinct_streams(result@),
            is_latest_per_stream(all, k as int, result@),
        decreases k,
    {
        let entry = entries.pop().unwrap();
        k = k - 1;
        let ghost e = entry;
        assert(e == all[k as int]);
        assert(entries@ =~= all.take(k as int));
        let ghost before = result@;
        // Where the stream of `entry` already stands, if anywhere.
        let m = result.len();
        let mut t: usize = 0;
        while t < m
            invariant
                m == result@.len(),
                result@ == before,
                t <= m,
                entry == e,
                forall|q: int| 0 <= q < t ==> (#[trigger] before[q]).stream@ != e.stream@,
            ensures
                t <= m,
                forall|q: int| 0 <= q < t ==> (#[trigger] before[q]).stream@ != e.stream@,
                t < m ==> before[t as int].stream@ == e.stream@,
            decreases m - t,
        {
            if keys_equal(&result[t].stream, &entry.stream) {
                break;
            }
            t = t + 1;
        }
        let keep = if t < m {
            if entry.cursor.sequence >= result[t].cursor.sequence {
                result.remove(t);
                assert(result@ == before.remove(t as int));
                true
            } else {
                false
            }
        } else {
            true
        };
        let ghost middle = result@;
        if keep {
            // `entry` displaces the older delivery of its stream, if any; insert it in order.
            let len = result.len();
            let mut p: usize = 0;
            while p < len
                invariant
                    len == middle.len(),
                    result@ == middle,
                    p <= len,
                    entry == e,
                    forall|q: int| 0 <= q < p ==> delivered_before(#[trigger] middle[q], e),
                ensures
                    p <= len,
                    forall|q: int| 0 <= q < p ==> delivered_before(#[trigger] middle[q], e),
                    p < len ==> !delivered_before(middle[p as int], e),
                decreases len - p,
            {
                let before_entry = result[p].cursor.sequence < entry.cursor.sequence
                    || (result[p].cursor.sequence == entry.cursor.sequence && crate::keys::compare_keys(
                    &result[p].stream,
                    &entry.stream,
                ) == crate::keys::KeyOrder::Less);
                if !before_entry {
                    break;
                }
                p = p + 1;
            }
            result.insert(p, entry);
            proof {
                lemma_keep_step(all, k as int, before, t as int, middle, p as int);
            }
        } else {
            // An equally new or newer delivery of this stream is already kept.
            proof {
                lemma_drop_step(all, k as int, before, t as int);
            }
        }
    }
    Ok(result)
}

} // verus!
