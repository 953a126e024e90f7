//! A client-side reducer from decoded deliveries to invalidation work.
use vstd::prelude::*;
use crate::keys::{key_views, list_contains};
use crate::recovery::{
    advance_delivery_cursor, cursor_transition, transition_cursor, DeliveryCursor,
    DeliveryCursorTransition,
};

verus! {

/// The client's position in the delivery stream.
#[derive(Debug, Default, Eq, PartialEq)]
pub struct ClientRecoveryState {
    pub cursor: Option<DeliveryCursor>,
}

impl Clone for ClientRecoveryState {
    fn clone(&self) -> (copy: Self)
        ensures
            copy == *self,
    {
        ClientRecoveryState { cursor: clone_cursor(&self.cursor) }
    }
}

/// One recovered delivery: its stream and, when known, its cursor.
#[derive(Debug, Eq, PartialEq)]
pub struct ClientRecoveryEntry {
    pub stream: String,
    pub cursor: Option<DeliveryCursor>,
}

/// What the transport decoded for the client.
#[derive(Debug, Eq, PartialEq)]
pub enum ClientRecoveryEvent {
    Update { stream: String, cursor: Option<DeliveryCursor> },
    Recovery {
        entries: Vec<ClientRecoveryEntry>,
        latest_cursor: Option<DeliveryCursor>,
        snapshot_required: bool,
    },
}

/// Which cached streams the client must drop.
#[derive(Debug, Eq, PartialEq)]
pub enum ClientInvalidation {
    Nothing,
    Streams(Vec<String>),
    All,
}

/// The next client state and the invalidation work it implies.
#[derive(Debug, Eq, PartialEq)]
pub struct ClientRecoveryDecision {
    pub state: ClientRecoveryState,
    pub invalidation: ClientInvalidation,
    pub requires_snapshot: bool,
}

/// An owned copy of an optional cursor.
fn clone_cursor(cursor: &Option<DeliveryCursor>) -> (copy: Option<DeliveryCursor>)
    ensures
        copy == *cursor,
{
    match cursor {
        Some(c) => Some(c.clone()),
        None => None,
    }
}

/// The cursor a client keeps after `incoming`, and whether the epoch changed.
pub open spec fn accepted(current: Option<DeliveryCursor>, incoming: DeliveryCursor) -> (
    DeliveryCursor,
    bool,
) {
    let transition = cursor_transition(current, incoming);
    (transition_cursor(transition), transition is EpochChanged)
}

/// The cursor after every entry cursor in turn, and whether any of them changed the epoch.
pub open spec fn fold_entry_cursors(
    start: Option<DeliveryCursor>,
    entries: Seq<ClientRecoveryEntry>,
) -> (Option<DeliveryCursor>, bool)
    decreases entries.len(),
{
    if entries.len() == 0 {
        (start, false)
    } else {
        let (cursor, changed) = fold_entry_cursors(start, entries.drop_last());
        match entries.last().cursor {
            None => (cursor, changed),
            Some(incoming) => {
                let (next, epoch_changed) = accepted(cursor, incoming);
                (Some(next), changed || epoch_changed)
            },
        }
    }
}

/// The streams of `entries`, each once, in order of first appearance.
pub open spec fn distinct_streams(entries: Seq<ClientRecoveryEntry>) -> Seq<Seq<char>>
    decreases entries.len(),
{
    if entries.len() == 0 {
        Seq::empty()
    } else {
        let earlier = distinct_streams(entries.drop_last());
        let stream = entries.last().stream@;
        if earlier.contains(stream) {
            earlier
        } else {
            earlier.push(stream)
        }
    }
}

/// The cursor and epoch-change flag after a recovery without a snapshot.
pub open spec fn recovered_cursor(
    start: Option<DeliveryCursor>,
    entries: Seq<ClientRecoveryEntry>,
    latest_cursor: Option<DeliveryCursor>,
) -> (Option<DeliveryCursor>, bool) {
    let (cursor, changed) = fold_entry_cursors(start, entries);
    match latest_cursor {
        None => (cursor, changed),
        Some(incoming) => {
            let (next, epoch_changed) = accepted(cursor, incoming);
            (Some(next), changed || epoch_changed)
        },
    }
}

/// The epoch-change flag of the fold, once raised by a prefix, stays raised for every longer one.
proof fn lemma_epoch_change_persists(
    start: Option<DeliveryCursor>,
    entries: Seq<ClientRecoveryEntry>,
    k: int,
)
    requires
        0 <= k <= entries.len(),
        fold_entry_cursors(start, entries.take(k)).1,
    ensures
        fold_entry_cursors(start, entries).1,
    decreases entries.len() - k,
{
    if k == entries.len() {
        assert(entries.take(k) =~= entries);
    } else {
        let next = entries.take(k + 1);
        assert(next.drop_last() =~= entries.take(k));
        assert(next.take(k) =~= entries.take(k));
        lemma_epoch_change_persists(start, entries, k + 1);
    }
}

/// A recovery without a snapshot reports an epoch change (and so invalidates everything) as soon
/// as any entry cursor, or the latest cursor, belongs to another epoch than the cursor held just
/// before it; later entries of the new epoch never clear that.
pub proof fn law_epoch_change_is_never_cleared(
    start: Option<DeliveryCursor>,
    entries: Seq<ClientRecoveryEntry>,
    latest_cursor: Option<DeliveryCursor>,
)
    ensures
        forall|k: int|
            #![trigger entries[k]]
            0 <= k < entries.len() && entries[k].cursor is Some && fold_entry_cursors(
                start,
                entries.take(k),
            ).0 is Some && fold_entry_cursors(start, entries.take(k)).0.unwrap().epoch@
                != entries[k].cursor.unwrap().epoch@ ==> fold_entry_cursors(start, entries).1
                && recovered_cursor(start, entries, latest_cursor).1,
        fold_entry_cursors(start, entries).1 ==> recovered_cursor(start, entries, latest_cursor).1,
        latest_cursor is Some && fold_entry_cursors(start, entries).0 is Some
            && fold_entry_cursors(start, entries).0.unwrap().epoch@
            != latest_cursor.unwrap().epoch@ ==> recovered_cursor(start, entries, latest_cursor).1,
{
    assert forall|k: int|
        #![trigger entries[k]]
        0 <= k < entries.len() && entries[k].cursor is Some && fold_entry_cursors(
            start,
            entries.take(k),
        ).0 is Some && fold_entry_cursors(start, entries.take(k)).0.unwrap().epoch@
            != entries[k].cursor.unwrap().epoch@ implies fold_entry_cursors(start, entries).1 by {
        let next = entries.take(k + 1);
        assert(next.drop_last() =~= entries.take(k));
        assert(next.last() == entries[k]);
        lemma_epoch_change_persists(start, entries, k + 1);
    }
}

/// Without entries the held cursor stays the starting one with no epoch change. An entry without
/// a cursor changes nothing; an entry cursor becomes the held cursor when nothing was held, when
/// it is of another epoch, or when its sequence is higher, and is otherwise ignored as stale; the
/// epoch-change flag is raised exactly by an entry cursor of another epoch than the held one.
pub proof fn law_entry_cursor_step(
    start: Option<DeliveryCursor>,
    entries: Seq<ClientRecoveryEntry>,
    entry: ClientRecoveryEntry,
)
    ensures
        fold_entry_cursors(start, Seq::<ClientRecoveryEntry>::empty()) == (start, false),
        ({
            let (held, changed) = fold_entry_cursors(start, entries);
            let (next, next_changed) = fold_entry_cursors(start, entries.push(entry));
            &&& entry.cursor is None ==> next == held && next_changed == changed
            &&& entry.cursor is Some ==> {
                let c = entry.cursor.unwrap();
                &&& (held is None || held.unwrap().epoch@ != c.epoch@ || c.sequence
                    > held.unwrap().sequence) ==> next == Some(c)
                &&& (held is Some && held.unwrap().epoch@ == c.epoch@ && c.sequence
                    <= held.unwrap().sequence) ==> next == held
                &&& next_changed == (changed || (held is Some && held.unwrap().epoch@ != c.epoch@))
            }
        }),
{
    assert(entries.push(entry).drop_last() =~= entries);
    assert(entries.push(entry).last() == entry);
}

/// The invalidated streams are exactly the streams of the entries, each once.
pub proof fn law_distinct_streams(entries: Seq<ClientRecoveryEntry>)
    ensures
        forall|x: Seq<char>|
            distinct_streams(entries).contains(x) <==> exists|k: int|
                0 <= k < entries.len() && (#[trigger] entries[k]).stream@ == x,
        forall|i: int, j: int|
            0 <= i < j < distinct_streams(entries).len() ==> (#[trigger] distinct_streams(
                entries,
            )[i]) != (#[trigger] distinct_streams(entries)[j]),
    decreases entries.len(),
{
    if entries.len() > 0 {
        let rest = entries.drop_last();
        law_distinct_streams(rest);
        assert forall|x: Seq<char>|
            distinct_streams(entries).contains(x) <==> exists|k: int|
                0 <= k < entries.len() && (#[trigger] entries[k]).stream@ == x by {
            let earlier = distinct_streams(rest);
            let last = entries.last().stream@;
            if distinct_streams(entries).contains(x) {
                if earlier.contains(x) {
                    let k = choose|k: int| 0 <= k < rest.len() && (#[trigger] rest[k]).stream@ == x;
                    assert(entries[k] == rest[k]);
                } else {
                    let i = choose|i: int|
                        0 <= i < distinct_streams(entries).len() && distinct_streams(entries)[i]
                            == x;
                    assert(i == earlier.len());
                    assert(entries[entries.len() - 1].stream@ == x);
                }
            }
            if exists|k: int| 0 <= k < entries.len() && (#[trigger] entries[k]).stream@ == x {
                let k = choose|k: int| 0 <= k < entries.len() && (#[trigger] entries[k]).stream@ == x;
                if k < entries.len() - 1 {
                    assert(rest[k] == entries[k]);
                    assert(earlier.contains(x));
                    let i = choose|i: int| 0 <= i < earlier.len() && earlier[i] == x;
                    assert(earlier.push(last)[i] == x);
                } else if !earlier.contains(last) {
                    assert(earlier.push(last)[earlier.len() as int] == last);
                }
            }
        }
    }
}

fn accept_cursor(current: Option<&DeliveryCursor>, incoming: &DeliveryCursor) -> (accepted_cursor: (
    DeliveryCursor,
    bool,
))
    ensures
        accepted_cursor == accepted(
            match current {
                Some(c) => Some(*c),
                None => None,
            },
            *incoming,
        ),
{
    match advance_delivery_cursor(current, incoming) {
        DeliveryCursorTransition::Initialized(cursor) => (cursor, false),
        DeliveryCursorTransition::Advanced(cursor) => (cursor, false),
        DeliveryCursorTransition::Stale(cursor) => (cursor, false),
        DeliveryCursorTransition::EpochChanged(cursor) => (cursor, true),
    }
}

/// Reduces transport-decoded deliveries into deterministic invalidation work.
pub fn reduce_client_recovery(state: &ClientRecoveryState, event: &ClientRecoveryEvent) -> (decision:
    ClientRecoveryDecision)
    ensures
        decision.requires_snapshot <==> decision.invalidation is All,
        match event {
            ClientRecoveryEvent::Update { stream, cursor } => match cursor {
                None => {
                    &&& decision.state == *state
                    &&& decision.invalidation matches ClientInvalidation::Streams(v) && key_views(
                        v@,
                    ) == seq![stream@]
                },
                Some(incoming) => {
                    let (next, epoch_changed) = accepted(state.cursor, *incoming);
                    &&& decision.state.cursor == Some(next)
                    &&& decision.requires_snapshot == epoch_changed
                    &&& !epoch_changed ==> (decision.invalidation matches ClientInvalidation::Streams(
                        v,
                    ) && key_views(v@) == seq![stream@])
                },
            },
            ClientRecoveryEvent::Recovery { entries, latest_cursor, snapshot_required } => {
                if *snapshot_required {
                    &&& decision.state.cursor == *latest_cursor
                    &&& decision.requires_snapshot
                } else {
                    let (cursor, epoch_changed) = recovered_cursor(
                        state.cursor,
                        entries@,
                        *latest_cursor,
                    );
                    let streams = distinct_streams(entries@);
                    &&& decision.state.cursor == cursor
                    &&& decision.requires_snapshot == epoch_changed
                    &&& forall|k: int|
                        #![trigger entries@[k]]
                        0 <= k < entries@.len() && entries@[k].cursor is Some && fold_entry_cursors(
                            state.cursor,
                            entries@.take(k),
                        ).0 is Some && fold_entry_cursors(state.cursor, entries@.take(k)).0.unwrap().epoch@
                            != entries@[k].cursor.unwrap().epoch@ ==> decision.requires_snapshot
                            && decision.invalidation is All
                    &&& (latest_cursor is Some && fold_entry_cursors(state.cursor, entries@).0 is Some
                        && fold_entry_cursors(state.cursor, entries@).0.unwrap().epoch@
                        != latest_cursor.unwrap().epoch@ ==> decision.requires_snapshot
                        && decision.invalidation is All)
                    &&& !epoch_changed && streams.len() == 0 ==> decision.invalidation
                        is Nothing
                    &&& !epoch_changed && streams.len() > 0 ==> (decision.invalidation matches ClientInvalidation::Streams(
                        v,
                    ) && key_views(v@) == streams)
                }
            },
        },
{
    match event {
        ClientRecoveryEvent::Update { stream, cursor } => {
            match cursor {
                None => {
                    let streams = vec![stream.clone()];
                    assert(key_views(streams@) =~= seq![stream@]);
                    ClientRecoveryDecision {
                        state: state.clone(),
                        invalidation: ClientInvalidation::Streams(streams),
                        requires_snapshot: false,
                    }
                },
                Some(incoming) => {
                    let (cursor, epoch_changed) = accept_cursor(state.cursor.as_ref(), incoming);
                    let invalidation = if epoch_changed {
                        ClientInvalidation::All
                    } else {
                        let streams = vec![stream.clone()];
                        assert(key_views(streams@) =~= seq![stream@]);
                        ClientInvalidation::Streams(streams)
                    };
                    ClientRecoveryDecision {
                        state: ClientRecoveryState { cursor: Some(cursor) },
                        invalidation,
                        requires_snapshot: epoch_changed,
                    }
                },
            }
        },
        ClientRecoveryEvent::Recovery { entries, latest_cursor, snapshot_required } => {
            if *snapshot_required {
                return ClientRecoveryDecision {
                    state: ClientRecoveryState { cursor: clone_cursor(latest_cursor) },
                    invalidation: ClientInvalidation::All,
                    requires_snapshot: true,
                };
            }
            proof {
                law_epoch_change_is_never_cleared(state.cursor, entries@, *latest_cursor);
            }
            let mut cursor = clone_cursor(&state.cursor);
            let mut epoch_changed = false;
            let mut streams: Vec<String> = Vec::new();
            let n = entries.len();
            let mut i: usize = 0;
            proof {
                assert(entries@.take(0) =~= Seq::<ClientRecoveryEntry>::empty());
                assert(key_views(streams@) =~= Seq::<Seq<char>>::empty());
            }
            while i < n
                invariant
                    n == entries@.len(),
                    i <= n,
                    (cursor, epoch_changed) == fold_entry_cursors(
                        state.cursor,
                        entries@.take(i as int),
                    ),
                    key_views(streams@) == distinct_streams(entries@.take(i as int)),
                decreases n - i,
            {
                let entry = &entries[i];
                proof {
                    assert(entries@.take(i + 1).drop_last() =~= entries@.take(i as int));
                    assert(entries@.take(i + 1).last() == entries@[i as int]);
                }
                if !list_contains(&streams, &entry.stream) {
                    let ghost before = key_views(streams@);
                    streams.push(entry.stream.clone());
                    assert(key_views(streams@) =~= before.push(entry.stream@));
                }
                match &entry.cursor {
                    Some(incoming) => {
                        let accepted_cursor = accept_cursor(cursor.as_ref(), incoming);
                        cursor = Some(accepted_cursor.0);
                        epoch_changed = epoch_changed || accepted_cursor.1;
                    },
                    None => {},
                }
                i = i + 1;
            }
            assert(entries@.take(n as int) =~= entries@);
            match latest_cursor {
                Some(incoming) => {
                    let accepted_cursor = accept_cursor(cursor.as_ref(), incoming);
                    cursor = Some(accepted_cursor.0);
                    epoch_changed = epoch_changed || accepted_cursor.1;
                },
                None => {},
            }
            let invalidation = if epoch_changed {
                ClientInvalidation::All
            } else if streams.len() == 0 {
                ClientInvalidation::Nothing
            } else {
                ClientInvalidation::Streams(streams)
            };
            ClientRecoveryDecision {
                state: ClientRecoveryState { cursor },
                invalidation,
                requires_snapshot: epoch_changed,
            }
        },
    }
}

} // verus!
