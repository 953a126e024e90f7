//! Delivery cursors, a bounded delivery log, and replay recovery.
use std::collections::VecDeque;
use vstd::prelude::*;
use crate::error::RealtimeError;
use crate::keys::{key_views, list_contains};
use crate::limits::MAX_INTEROPERABLE_INTEGER;

verus! {

/// The largest delivery sequence a log hands out.
pub const MAX_DELIVERY_SEQUENCE: u64 = 9_007_199_254_740_991u64;

/// Whether `c` is a Unicode White_Space character (what `char::is_whitespace` tests).
pub open spec fn is_whitespace(c: char) -> bool {
    let u = c as u32;
    ||| 0x9 <= u <= 0xd
    ||| u == 0x20
    ||| u == 0x85
    ||| u == 0xa0
    ||| u == 0x1680
    ||| 0x2000 <= u <= 0x200a
    ||| u == 0x2028
    ||| u == 0x2029
    ||| u == 0x202f
    ||| u == 0x205f
    ||| u == 0x3000
}

/// Whether a text is empty once surrounding whitespace is trimmed.
pub open spec fn is_blank(text: Seq<char>) -> bool {
    forall|i: int| 0 <= i < text.len() ==> is_whitespace(#[trigger] text[i])
}

/// Tells whether `c` is a Unicode White_Space character.
fn char_is_whitespace(c: char) -> (whitespace: bool)
    ensures
        whitespace == is_whitespace(c),
{
    let u = c as u32;
    (0x9 <= u && u <= 0xd) || u == 0x20 || u == 0x85 || u == 0xa0 || u == 0x1680 || (0x2000 <= u
        && u <= 0x200a) || u == 0x2028 || u == 0x2029 || u == 0x202f || u == 0x205f || u == 0x3000
}

/// Accepts an application-supplied epoch unless it is empty or only whitespace.
fn validate_epoch(epoch: String) -> (validated: Result<String, RealtimeError>)
    ensures
        match validated {
            Ok(e) => e == epoch && !is_blank(epoch@),
            Err(error) => error == RealtimeError::InvalidEpoch && is_blank(epoch@),
        },
{
    let n = epoch.as_str().unicode_len();
    let mut i: usize = 0;
    while i < n
        invariant
            n == epoch@.len(),
            i <= n,
            forall|j: int| 0 <= j < i ==> is_whitespace(#[trigger] epoch@[j]),
        decreases n - i,
    {
        let c = epoch.as_str().get_char(i);
        if !char_is_whitespace(c) {
            return Ok(epoch);
        }
        i = i + 1;
    }
    Err(RealtimeError::InvalidEpoch)
}

/// A position in the deliveries of one log epoch.
#[derive(Debug, Eq, PartialEq)]
pub struct DeliveryCursor {
    pub epoch: String,
    pub sequence: u64,
}

impl Clone for DeliveryCursor {
    fn clone(&self) -> (copy: Self)
        ensures
            copy == *self,
    {
        DeliveryCursor { epoch: self.epoch.clone(), sequence: self.sequence }
    }
}

impl DeliveryCursor {
    /// Creates a cursor with an application-supplied delivery-log epoch.
    pub fn new(epoch: String, sequence: u64) -> (cursor: Result<Self, RealtimeError>)
        ensures
            match cursor {
                Ok(c) => c.epoch == epoch && c.sequence == sequence && !is_blank(epoch@),
                Err(error) => error == RealtimeError::InvalidEpoch && is_blank(epoch@),
            },
    {
        let epoch = validate_epoch(epoch)?;
        Ok(DeliveryCursor { epoch, sequence })
    }
}

/// How a consumer cursor moved on receipt of a delivery.
#[derive(Clone, Debug, Eq, PartialEq)]
pub enum DeliveryCursorTransition {
    Initialized(DeliveryCursor),
    Advanced(DeliveryCursor),
    Stale(DeliveryCursor),
    EpochChanged(DeliveryCursor),
}

/// The transition that `advance_delivery_cursor` reports.
pub open spec fn cursor_transition(
    current: Option<DeliveryCursor>,
    incoming: DeliveryCursor,
) -> DeliveryCursorTransition {
    match current {
        None => DeliveryCursorTransition::Initialized(incoming),
        Some(c) => if c.epoch@ != incoming.epoch@ {
            DeliveryCursorTransition::EpochChanged(incoming)
        } else if incoming.sequence > c.sequence {
            DeliveryCursorTransition::Advanced(incoming)
        } else {
            DeliveryCursorTransition::Stale(c)
        },
    }
}

/// The cursor that a transition leaves the consumer at.
pub open spec fn transition_cursor(transition: DeliveryCursorTransition) -> DeliveryCursor {
    match transition {
        DeliveryCursorTransition::Initialized(c) => c,
        DeliveryCursorTransition::Advanced(c) => c,
        DeliveryCursorTransition::Stale(c) => c,
        DeliveryCursorTransition::EpochChanged(c) => c,
    }
}

/// Advances a consumer cursor and reports epoch changes explicitly.
pub fn advance_delivery_cursor(
    current: Option<&DeliveryCursor>,
    incoming: &DeliveryCursor,
) -> (transition: DeliveryCursorTransition)
    ensures
        transition == cursor_transition(
            match current {
                Some(c) => Some(*c),
                None => None,
            },
            *incoming,
        ),
        match current {
            None => transition == DeliveryCursorTransition::Initialized(*incoming),
            Some(c) => if c.epoch@ != incoming.epoch@ {
                transition == DeliveryCursorTransition::EpochChanged(*incoming)
            } else if incoming.sequence > c.sequence {
                transition == DeliveryCursorTransition::Advanced(*incoming)
            } else {
                transition == DeliveryCursorTransition::Stale(*c)
            },
        },
{
    match current {
        None => DeliveryCursorTransition::Initialized(incoming.clone()),
        Some(current) => {
            if current.epoch != incoming.epoch {
                DeliveryCursorTransition::EpochChanged(incoming.clone())
            } else if incoming.sequence > current.sequence {
                DeliveryCursorTransition::Advanced(incoming.clone())
            } else {
                DeliveryCursorTransition::Stale(current.clone())
            }
        },
    }
}

/// Why a recovery cannot be served from retained history.
#[derive(Clone, Copy, Debug, Eq, PartialEq)]
pub enum SnapshotRequiredReason {
    EpochMismatch,
    HistoryGap,
    FutureCursor,
}

/// One delivery of the log.
#[derive(Debug, Eq, PartialEq)]
pub struct DeliveryEntry<Payload> {
    pub cursor: DeliveryCursor,
    pub stream: String,
    pub stream_version: u64,
    pub payload: Payload,
}

/// `copy` is `original` with its payload cloned.
pub open spec fn entry_cloned<Payload: Clone>(
    original: DeliveryEntry<Payload>,
    copy: DeliveryEntry<Payload>,
) -> bool {
    &&& copy.cursor == original.cursor
    &&& copy.stream == original.stream
    &&& copy.stream_version == original.stream_version
    &&& cloned(original.payload, copy.payload)
}

/// `copies` is `originals`, entry by entry, with payloads cloned.
pub open spec fn entries_cloned<Payload: Clone>(
    originals: Seq<DeliveryEntry<Payload>>,
    copies: Seq<DeliveryEntry<Payload>>,
) -> bool {
    &&& copies.len() == originals.len()
    &&& forall|i: int| 0 <= i < originals.len() ==> entry_cloned(#[trigger] originals[i], copies[i])
}

impl<Payload: Clone> Clone for DeliveryEntry<Payload> {
    fn clone(&self) -> (copy: Self)
        ensures
            entry_cloned(*self, copy),
    {
        DeliveryEntry {
            cursor: self.cursor.clone(),
            stream: self.stream.clone(),
            stream_version: self.stream_version,
            payload: self.payload.clone(),
        }
    }
}

/// The outcome of a recovery request.
#[derive(Clone, Debug, Eq, PartialEq)]
pub enum DeliveryRecovery<Payload> {
    Replay { latest_cursor: DeliveryCursor, entries: Vec<DeliveryEntry<Payload>> },
    SnapshotRequired {
        reason: SnapshotRequiredReason,
        latest_cursor: DeliveryCursor,
        earliest_available_sequence: u64,
    },
}

/// Whether a stream passes an optional authorization list.
pub open spec fn authorized(streams: Option<Seq<Seq<char>>>, stream: Seq<char>) -> bool {
    match streams {
        None => true,
        Some(allowed) => allowed.contains(stream),
    }
}

/// The retained entries after `after` whose streams are authorized, in log order.
pub open spec fn replay_selection<Payload>(
    history: Seq<DeliveryEntry<Payload>>,
    after: u64,
    streams: Option<Seq<Seq<char>>>,
) -> Seq<DeliveryEntry<Payload>>
    decreases history.len(),
{
    if history.len() == 0 {
        Seq::empty()
    } else {
        let earlier = replay_selection(history.drop_last(), after, streams);
        let last = history.last();
        if last.cursor.sequence > after && authorized(streams, last.stream@) {
            earlier.push(last)
        } else {
            earlier
        }
    }
}

/// The optional authorization list as keys.
pub open spec fn streams_view(streams: Option<&Vec<String>>) -> Option<Seq<Seq<char>>> {
    match streams {
        None => None,
        Some(list) => Some(key_views(list@)),
    }
}

/// A bounded, ordered record of deliveries within one epoch.
#[derive(Clone, Debug)]
pub struct DeliveryLog<Payload> {
    epoch: String,
    max_entries: usize,
    entries: VecDeque<DeliveryEntry<Payload>>,
    latest_sequence: u64,
}

impl<Payload> DeliveryLog<Payload> {
    /// The epoch of every delivery of this log.
    pub closed spec fn log_epoch(&self) -> String {
        self.epoch
    }

    /// How many deliveries are retained at most.
    pub closed spec fn capacity(&self) -> nat {
        self.max_entries as nat
    }

    /// The retained deliveries, oldest first.
    pub closed spec fn history(&self) -> Seq<DeliveryEntry<Payload>> {
        self.entries@
    }

    /// The sequence of the latest delivery (or the initial sequence before any).
    pub closed spec fn latest(&self) -> u64 {
        self.latest_sequence
    }

    /// The retained deliveries are the latest ones, with consecutive sequences ending at the latest.
    pub open spec fn wf(&self) -> bool {
        &&& !is_blank(self.log_epoch()@)
        &&& 1 <= self.capacity() <= MAX_INTEROPERABLE_INTEGER
        &&& self.latest() <= MAX_DELIVERY_SEQUENCE
        &&& self.history().len() <= self.capacity()
        &&& self.history().len() <= self.latest()
        &&& forall|i: int|
            0 <= i < self.history().len() ==> {
                &&& (#[trigger] self.history()[i]).cursor.epoch == self.log_epoch()
                &&& self.history()[i].cursor.sequence == self.latest() - self.history().len() + 1
                    + i
                &&& self.history()[i].stream_version <= MAX_INTEROPERABLE_INTEGER
            }
    }

    /// The first sequence still available for replay.
    pub open spec fn earliest_available(&self) -> u64 {
        (self.latest() - self.history().len() + 1) as u64
    }

    /// Whether retained history can serve a replay after `after`.
    pub open spec fn replay_owed(&self, after: DeliveryCursor) -> bool {
        &&& after.epoch@ == self.log_epoch()@
        &&& self.latest() - self.history().len() <= after.sequence
        &&& after.sequence <= self.latest()
    }

    /// Why a replay after `after` cannot be served.
    pub open spec fn snapshot_reason(&self, after: DeliveryCursor) -> SnapshotRequiredReason {
        if after.epoch@ != self.log_epoch()@ {
            SnapshotRequiredReason::EpochMismatch
        } else if after.sequence > self.latest() {
            SnapshotRequiredReason::FutureCursor
        } else {
            SnapshotRequiredReason::HistoryGap
        }
    }

    /// `after` is `before` once `entry` was appended, the stored copy being `stored`.
    pub open spec fn append_step(
        before: Self,
        after: Self,
        entry: DeliveryEntry<Payload>,
        stored: DeliveryEntry<Payload>,
    ) -> bool {
        &&& after.log_epoch() == before.log_epoch()
        &&& after.capacity() == before.capacity()
        &&& after.latest() == before.latest() + 1
        &&& entry.cursor.epoch == before.log_epoch()
        &&& entry.cursor.sequence == before.latest() + 1
        &&& after.history() == if before.history().len() == before.capacity() {
            before.history().drop_first().push(stored)
        } else {
            before.history().push(stored)
        }
    }

    /// Creates an empty delivery log beginning at sequence zero.
    pub fn new(epoch: String, max_entries: usize) -> (log: Result<Self, RealtimeError>)
        ensures
            match log {
                Ok(l) => {
                    &&& l.wf()
                    &&& l.log_epoch() == epoch
                    &&& l.capacity() == max_entries
                    &&& l.latest() == 0
                    &&& l.history() == Seq::<DeliveryEntry<Payload>>::empty()
                },
                Err(error) => log_parameters_error(epoch@, max_entries, 0) == Some(error),
            },
            log is Ok <==> log_parameters_error(epoch@, max_entries, 0) is None,
            log is Ok <==> (!is_blank(epoch@) && 1 <= max_entries <= MAX_INTEROPERABLE_INTEGER),
    {
        Self::with_initial_sequence(epoch, max_entries, 0)
    }

    /// Creates an empty log whose next entry follows `initial_sequence`.
    pub fn with_initial_sequence(epoch: String, max_entries: usize, initial_sequence: u64) -> (log:
        Result<Self, RealtimeError>)
        ensures
            match log {
                Ok(l) => {
                    &&& l.wf()
                    &&& l.log_epoch() == epoch
                    &&& l.capacity() == max_entries
                    &&& l.latest() == initial_sequence
                    &&& l.history() == Seq::<DeliveryEntry<Payload>>::empty()
                },
                Err(error) => log_parameters_error(epoch@, max_entries, initial_sequence) == Some(
                    error,
                ),
            },
            log is Ok <==> log_parameters_error(epoch@, max_entries, initial_sequence) is None,
            log is Ok <==> (!is_blank(epoch@) && 1 <= max_entries <= MAX_INTEROPERABLE_INTEGER
                && initial_sequence <= MAX_DELIVERY_SEQUENCE),
    {
        let epoch = validate_epoch(epoch)?;
        if max_entries == 0 || max_entries as u64 > MAX_INTEROPERABLE_INTEGER {
            return Err(RealtimeError::InvalidCapacity);
        }
        if initial_sequence > MAX_DELIVERY_SEQUENCE {
            return Err(RealtimeError::InvalidSequence);
        }
        Ok(DeliveryLog {
            epoch,
            max_entries,
            entries: VecDeque::new(),
            latest_sequence: initial_sequence,
        })
    }

    /// Appends one delivery without letting its sequence leave the interoperable range.
    pub fn append(&mut self, stream: String, stream_version: u64, payload: Payload) -> (appended:
        Result<DeliveryEntry<Payload>, RealtimeError>) where Payload: Clone
        requires
            old(self).wf(),
        ensures
            final(self).wf(),
            match appended {
                Ok(entry) => {
                    &&& entry.stream == stream
                    &&& entry.stream_version == stream_version
                    &&& entry.payload == payload
                    &&& final(self).history().len() > 0
                    &&& entry_cloned(entry, final(self).history().last())
                    &&& Self::append_step(
                        *old(self),
                        *final(self),
                        entry,
                        final(self).history().last(),
                    )
                },
                Err(error) => {
                    &&& *final(self) == *old(self)
                    &&& error == if old(self).latest() == MAX_DELIVERY_SEQUENCE {
                        RealtimeError::SequenceExhausted
                    } else {
                        RealtimeError::InvalidStreamVersion
                    }
                },
            },
            appended is Ok <==> old(self).latest() < MAX_DELIVERY_SEQUENCE && stream_version
                <= MAX_INTEROPERABLE_INTEGER,
    {
        if self.latest_sequence >= MAX_DELIVERY_SEQUENCE {
            return Err(RealtimeError::SequenceExhausted);
        }
        if stream_version > MAX_INTEROPERABLE_INTEGER {
            return Err(RealtimeError::InvalidStreamVersion);
        }
        let sequence = self.latest_sequence + 1;
        let entry = DeliveryEntry {
            cursor: DeliveryCursor { epoch: self.epoch.clone(), sequence },
            stream,
            stream_version,
            payload,
        };
        let stored = entry.clone();
        let ghost before = *self;
        let ghost stored_view = stored;
        self.latest_sequence = sequence;
        self.entries.push_back(stored);
        if self.entries.len() > self.max_entries {
            self.entries.pop_front();
            assert(self.entries@ =~= before.entries@.drop_first().push(stored_view));
        }
        proof {
            let h = self.history();
            assert(h.last() == stored_view);
            assert forall|i: int| 0 <= i < h.len() implies {
                &&& (#[trigger] h[i]).cursor.epoch == self.log_epoch()
                &&& h[i].cursor.sequence == self.latest() - h.len() + 1 + i
                &&& h[i].stream_version <= MAX_INTEROPERABLE_INTEGER
            } by {
                if i < h.len() - 1 {
                    if before.history().len() == before.capacity() {
                        assert(h[i] == before.history()[i + 1]);
                    } else {
                        assert(h[i] == before.history()[i]);
                    }
                }
            }
        }
        Ok(entry)
    }

    /// Replays retained deliveries after `after`, or tells why a snapshot is required.
    pub fn recover_after(&self, after: &DeliveryCursor, streams: Option<&Vec<String>>) -> (recovery:
        DeliveryRecovery<Payload>) where Payload: Clone
        requires
            self.wf(),
        ensures
            match recovery {
                DeliveryRecovery::Replay { latest_cursor, entries } => {
                    &&& self.replay_owed(*after)
                    &&& after.epoch@ == self.log_epoch()@
                    &&& after.sequence <= self.latest()
                    &&& latest_cursor.epoch == self.log_epoch()
                    &&& latest_cursor.sequence == self.latest()
                    &&& entries_cloned(
                        replay_selection(self.history(), after.sequence, streams_view(streams)),
                        entries@,
                    )
                },
                DeliveryRecovery::SnapshotRequired {
                    reason,
                    latest_cursor,
                    earliest_available_sequence,
                } => {
                    &&& !self.replay_owed(*after)
                    &&& reason == self.snapshot_reason(*after)
                    &&& (after.epoch@ != self.log_epoch()@ <==> reason
                        == SnapshotRequiredReason::EpochMismatch)
                    &&& (reason == SnapshotRequiredReason::FutureCursor <==> (after.epoch@
                        == self.log_epoch()@ && after.sequence > self.latest()))
                    &&& latest_cursor.epoch == self.log_epoch()
                    &&& latest_cursor.sequence == self.latest()
                    &&& earliest_available_sequence == self.earliest_available()
                },
            },
            after.epoch@ != self.log_epoch()@ ==> recovery is SnapshotRequired,
    {
        let latest_cursor = self.latest_cursor();
        let n = self.entries.len();
        let earliest_available_sequence = if n == 0 {
            self.latest_sequence + 1
        } else {
            self.entries[0].cursor.sequence
        };
        if after.epoch != self.epoch {
            return DeliveryRecovery::SnapshotRequired {
                reason: SnapshotRequiredReason::EpochMismatch,
                latest_cursor,
                earliest_available_sequence,
            };
        }
        let future_cursor = after.sequence > self.latest_sequence;
        let history_gap = !future_cursor && if n == 0 {
            after.sequence != self.latest_sequence
        } else {
            after.sequence < self.entries[0].cursor.sequence - 1
        };
        if history_gap || future_cursor {
            return DeliveryRecovery::SnapshotRequired {
                reason: if future_cursor {
                    SnapshotRequiredReason::FutureCursor
                } else {
                    SnapshotRequiredReason::HistoryGap
                },
                latest_cursor,
                earliest_available_sequence,
            };
        }
        let ghost sv = streams_view(streams);
        let ghost h = self.history();
        let mut entries: Vec<DeliveryEntry<Payload>> = Vec::new();
        let mut i: usize = 0;
        proof {
            assert(h.take(0) =~= Seq::<DeliveryEntry<Payload>>::empty());
        }
        while i < n
            invariant
                h == self.history(),
                n == h.len(),
                i <= n,
                sv == streams_view(streams),
                entries_cloned(replay_selection(h.take(i as int), after.sequence, sv), entries@),
            decreases n - i,
        {
            let entry = &self.entries[i];
            let wanted = entry.cursor.sequence > after.sequence && match streams {
                None => true,
                Some(list) => list_contains(list, &entry.stream),
            };
            proof {
                assert(h.take(i + 1).drop_last() =~= h.take(i as int));
                assert(h.take(i + 1).last() == h[i as int]);
            }
            if wanted {
                entries.push(entry.clone());
            }
            i = i + 1;
        }
        assert(h.take(n as int) =~= h);
        DeliveryRecovery::Replay { latest_cursor, entries }
    }

    /// The retained deliveries, oldest first.
    pub fn entries(&self) -> (entries: &VecDeque<DeliveryEntry<Payload>>)
        ensures
            entries@ == self.history(),
    {
        &self.entries
    }

    /// How many deliveries are retained.
    pub fn len(&self) -> (n: usize)
        ensures
            n == self.history().len(),
    {
        self.entries.len()
    }

    /// Whether no delivery is retained.
    pub fn is_empty(&self) -> (empty: bool)
        ensures
            empty == (self.history().len() == 0),
    {
        self.entries.len() == 0
    }

    /// The cursor of the latest delivery.
    pub fn latest_cursor(&self) -> (cursor: DeliveryCursor)
        ensures
            cursor.epoch == self.log_epoch(),
            cursor.sequence == self.latest(),
    {
        DeliveryCursor { epoch: self.epoch.clone(), sequence: self.latest_sequence }
    }
}

/// The error, if any, with which a log refuses its construction parameters.
pub open spec fn log_parameters_error(
    epoch: Seq<char>,
    max_entries: usize,
    initial_sequence: u64,
) -> Option<RealtimeError> {
    if is_blank(epoch) {
        Some(RealtimeError::InvalidEpoch)
    } else if max_entries == 0 || max_entries > MAX_INTEROPERABLE_INTEGER {
        Some(RealtimeError::InvalidCapacity)
    } else if initial_sequence > MAX_DELIVERY_SEQUENCE {
        Some(RealtimeError::InvalidSequence)
    } else {
        None
    }
}

/// A log is refused only for a blank epoch, a capacity of zero or above the largest exact
/// integer, or an initial sequence above the largest delivery sequence, checked in that order;
/// every other set of parameters is accepted.
pub proof fn law_log_parameters(epoch: Seq<char>, max_entries: usize, initial_sequence: u64)
    ensures
        log_parameters_error(epoch, max_entries, initial_sequence) is None <==> (!is_blank(epoch)
            && 1 <= max_entries <= MAX_INTEROPERABLE_INTEGER && initial_sequence
            <= MAX_DELIVERY_SEQUENCE),
        log_parameters_error(epoch, max_entries, initial_sequence) == Some(
            RealtimeError::InvalidEpoch,
        ) <==> is_blank(epoch),
        log_parameters_error(epoch, max_entries, initial_sequence) == Some(
            RealtimeError::InvalidCapacity,
        ) <==> (!is_blank(epoch) && (max_entries == 0 || max_entries > MAX_INTEROPERABLE_INTEGER)),
        log_parameters_error(epoch, max_entries, initial_sequence) == Some(
            RealtimeError::InvalidSequence,
        ) <==> (!is_blank(epoch) && 1 <= max_entries <= MAX_INTEROPERABLE_INTEGER
            && initial_sequence > MAX_DELIVERY_SEQUENCE),
{
}

/// The replay selection is a subsequence of `history` past `after`: each selected entry is a
/// history entry, and when history sequences increase, so do the selected ones.
pub proof fn lemma_replay_selection<Payload>(
    history: Seq<DeliveryEntry<Payload>>,
    after: u64,
    streams: Option<Seq<Seq<char>>>,
)
    requires
        forall|i: int, j: int|
            0 <= i < j < history.len() ==> (#[trigger] history[i]).cursor.sequence < (
            #[trigger] history[j]).cursor.sequence,
    ensures
        forall|a: int|
            0 <= a < replay_selection(history, after, streams).len() ==> {
                &&& history.contains(#[trigger] replay_selection(history, after, streams)[a])
                &&& replay_selection(history, after, streams)[a].cursor.sequence > after
                &&& authorized(streams, replay_selection(history, after, streams)[a].stream@)
            },
        forall|a: int, b: int|
            0 <= a < b < replay_selection(history, after, streams).len() ==> (
            #[trigger] replay_selection(history, after, streams)[a]).cursor.sequence < (
            #[trigger] replay_selection(history, after, streams)[b]).cursor.sequence,
    decreases history.len(),
{
    if history.len() > 0 {
        let rest = history.drop_last();
        lemma_replay_selection(rest, after, streams);
        let earlier = replay_selection(rest, after, streams);
        let sel = replay_selection(history, after, streams);
        assert forall|a: int| 0 <= a < earlier.len() implies history.contains(#[trigger] earlier[a])
            && earlier[a].cursor.sequence < history.last().cursor.sequence by {
            let i = choose|i: int| 0 <= i < rest.len() && rest[i] == earlier[a];
            assert(history[i] == earlier[a]);
            assert(history[i].cursor.sequence < history[history.len() - 1].cursor.sequence);
        }
        assert forall|a: int| 0 <= a < sel.len() implies history.contains(#[trigger] sel[a]) by {
            if a < earlier.len() {
                assert(sel[a] == earlier[a]);
            } else {
                assert(history[history.len() - 1] == sel[a]);
            }
        }
    }
}

/// Nothing at or before `after` is selected.
proof fn lemma_replay_selection_empty<Payload>(
    history: Seq<DeliveryEntry<Payload>>,
    after: u64,
    streams: Option<Seq<Seq<char>>>,
)
    requires
        forall|i: int| 0 <= i < history.len() ==> (#[trigger] history[i]).cursor.sequence <= after,
    ensures
        replay_selection(history, after, streams) == Seq::<DeliveryEntry<Payload>>::empty(),
    decreases history.len(),
{
    if history.len() > 0 {
        lemma_replay_selection_empty(history.drop_last(), after, streams);
    }
}

impl<Payload> DeliveryLog<Payload> {
    /// Sequences never repeat: retained deliveries are in strictly increasing sequence order, none
    /// beyond the latest, and the retained history never exceeds the capacity.
    pub proof fn law_history_ordered_and_bounded(&self)
        requires
            self.wf(),
        ensures
            self.history().len() <= self.capacity(),
            forall|i: int, j: int|
                0 <= i < j < self.history().len() ==> (#[trigger] self.history()[i]).cursor.sequence
                    < (#[trigger] self.history()[j]).cursor.sequence,
            forall|i: int|
                0 <= i < self.history().len() ==> (#[trigger] self.history()[i]).cursor.sequence
                    <= self.latest(),
    {
    }

    /// An append hands out a sequence above every earlier one, and eviction never changes the
    /// latest sequence: it is always the appended one, which stays retained.
    pub proof fn law_append_sequence(
        before: Self,
        after: Self,
        entry: DeliveryEntry<Payload>,
        stored: DeliveryEntry<Payload>,
    )
        requires
            before.wf(),
            Self::append_step(before, after, entry, stored),
        ensures
            after.latest() == before.latest() + 1,
            entry.cursor.sequence == after.latest(),
            forall|i: int|
                0 <= i < before.history().len() ==> (#[trigger] before.history()[i]).cursor.sequence
                    < entry.cursor.sequence,
            after.history().len() == if before.history().len() == before.capacity() {
                before.history().len()
            } else {
                before.history().len() + 1
            },
            after.history().last() == stored,
    {
    }

    /// What a replay gives back of an append: recovering after the cursor that preceded the
    /// append yields exactly the appended delivery (when its stream is authorized), whatever was
    /// evicted to make room for it.
    pub proof fn law_replay_after_append(
        before: Self,
        after: Self,
        entry: DeliveryEntry<Payload>,
        stored: DeliveryEntry<Payload>,
        streams: Option<Seq<Seq<char>>>,
    )
        requires
            before.wf(),
            Self::append_step(before, after, entry, stored),
            stored.cursor == entry.cursor,
            stored.stream == entry.stream,
        ensures
            after.replay_owed(DeliveryCursor { epoch: before.log_epoch(), sequence: before.latest() }),
            replay_selection(after.history(), before.latest(), streams) == if authorized(
                streams,
                entry.stream@,
            ) {
                seq![stored]
            } else {
                Seq::<DeliveryEntry<Payload>>::empty()
            },
    {
        let h = after.history();
        assert(h.drop_last() == if before.history().len() == before.capacity() {
            before.history().drop_first()
        } else {
            before.history()
        });
        assert forall|i: int| 0 <= i < h.drop_last().len() implies (#[trigger] h.drop_last()[i]).cursor.sequence
            <= before.latest() by {
            if before.history().len() == before.capacity() {
                assert(h.drop_last()[i] == before.history()[i + 1]);
            } else {
                assert(h.drop_last()[i] == before.history()[i]);
            }
        }
        lemma_replay_selection_empty(h.drop_last(), before.latest(), streams);
        assert(h.last() == stored);
        assert(seq![stored] =~= Seq::<DeliveryEntry<Payload>>::empty().push(stored));
    }

    /// `states` runs through `entries.len()` successful appends: the `k`-th takes `states[k]` to
    /// `states[k + 1]`, appending `entries[k]` and retaining the copy `stored[k]`.
    pub open spec fn append_run(
        states: Seq<Self>,
        entries: Seq<DeliveryEntry<Payload>>,
        stored: Seq<DeliveryEntry<Payload>>,
    ) -> bool {
        &&& states.len() == entries.len() + 1
        &&& stored.len() == entries.len()
        &&& forall|k: int|
            #![trigger entries[k]]
            0 <= k < entries.len() ==> Self::append_step(states[k], states[k + 1], entries[k], stored[k])
    }

    /// Over any run of successful appends (a failed append leaves the log as it was, so it adds
    /// nothing to a run), the latest sequence grows by exactly the number of appends whatever the
    /// capacity, epoch and capacity never change, and the log retains the most recent stored
    /// deliveries, oldest first, as many as fit: `min(retained + appends, capacity)` of them.
    pub proof fn law_append_run(
        states: Seq<Self>,
        entries: Seq<DeliveryEntry<Payload>>,
        stored: Seq<DeliveryEntry<Payload>>,
    )
        requires
            Self::append_run(states, entries, stored),
            states[0].wf(),
        ensures
            ({
                let first = states[0];
                let last = states.last();
                let all = first.history() + stored;
                let kept: int = if first.history().len() + entries.len() < first.capacity() {
                    (first.history().len() + entries.len()) as int
                } else {
                    first.capacity() as int
                };
                &&& last.latest() == first.latest() + entries.len()
                &&& last.log_epoch() == first.log_epoch()
                &&& last.capacity() == first.capacity()
                &&& last.history().len() == kept
                &&& last.history() == all.subrange(all.len() - kept, all.len() as int)
            }),
        decreases entries.len(),
    {
        let first = states[0];
        let n = entries.len() as int;
        if n == 0 {
            assert(stored =~= Seq::<DeliveryEntry<Payload>>::empty());
            assert(first.history() + stored =~= first.history());
        } else {
            let states0 = states.drop_last();
            let entries0 = entries.drop_last();
            let stored0 = stored.drop_last();
            assert forall|k: int|
                #![trigger entries0[k]]
                0 <= k < entries0.len() implies Self::append_step(
                states0[k],
                states0[k + 1],
                entries0[k],
                stored0[k],
            ) by {
                assert(entries0[k] == entries[k]);
            }
            Self::law_append_run(states0, entries0, stored0);
            let prev = states[n - 1];
            let last = states[n];
            assert(Self::append_step(prev, last, entries[n - 1], stored[n - 1]));
            let all0 = first.history() + stored0;
            let all = first.history() + stored;
            assert(all =~= all0.push(stored[n - 1]));
            let kept: int = if first.history().len() + n < first.capacity() {
                first.history().len() + n
            } else {
                first.capacity() as int
            };
            assert(last.history() =~= all.subrange(all.len() - kept, all.len() as int));
        }
    }

    /// A cursor of another epoch is never replayed and is always an epoch mismatch, whatever its
    /// sequence; a future cursor is one of this epoch past the latest sequence; a history gap is
    /// one of this epoch before the earliest retained predecessor; every cursor of this epoch from
    /// that predecessor up to the latest is replayed. The earliest available sequence is the first
    /// retained one, or the one after the latest when nothing is retained.
    pub proof fn law_snapshot_reasons(&self, after: DeliveryCursor)
        requires
            self.wf(),
        ensures
            after.epoch@ != self.log_epoch()@ ==> !self.replay_owed(after)
                && self.snapshot_reason(after) == SnapshotRequiredReason::EpochMismatch,
            self.snapshot_reason(after) == SnapshotRequiredReason::FutureCursor <==> (after.epoch@
                == self.log_epoch()@ && after.sequence > self.latest()),
            self.snapshot_reason(after) == SnapshotRequiredReason::HistoryGap <==> (after.epoch@
                == self.log_epoch()@ && after.sequence <= self.latest()),
            self.replay_owed(after) <==> (after.epoch@ == self.log_epoch()@ && self.latest()
                - self.history().len() <= after.sequence <= self.latest()),
            self.history().len() > 0 ==> self.earliest_available()
                == self.history()[0].cursor.sequence,
            self.history().len() == 0 ==> self.earliest_available() == self.latest() + 1,
    {
    }

    /// Replays are ordered by delivery sequence and hold only deliveries after the cursor.
    pub proof fn law_replay_ordered(&self, after: u64, streams: Option<Seq<Seq<char>>>)
        requires
            self.wf(),
        ensures
            forall|a: int, b: int|
                0 <= a < b < replay_selection(self.history(), after, streams).len() ==> (
                #[trigger] replay_selection(self.history(), after, streams)[a]).cursor.sequence < (
                #[trigger] replay_selection(self.history(), after, streams)[b]).cursor.sequence,
            forall|a: int|
                0 <= a < replay_selection(self.history(), after, streams).len() ==> (
                #[trigger] replay_selection(self.history(), after, streams)[a]).cursor.sequence
                    > after,
    {
        lemma_replay_selection(self.history(), after, streams);
    }
}

/// A first delivery initializes the cursor; any epoch difference is an epoch change to the
/// incoming cursor, whatever the two sequences are; within one epoch a higher sequence advances
/// to the incoming cursor and any other keeps the current one as stale.
pub proof fn law_cursor_transition_cases(current: Option<DeliveryCursor>, incoming: DeliveryCursor)
    ensures
        current is None ==> cursor_transition(current, incoming)
            == DeliveryCursorTransition::Initialized(incoming),
        current is Some && current.unwrap().epoch@ != incoming.epoch@ ==> cursor_transition(
            current,
            incoming,
        ) == DeliveryCursorTransition::EpochChanged(incoming),
        current is Some && current.unwrap().epoch@ == incoming.epoch@ && incoming.sequence
            > current.unwrap().sequence ==> cursor_transition(current, incoming)
            == DeliveryCursorTransition::Advanced(incoming),
        current is Some && current.unwrap().epoch@ == incoming.epoch@ && incoming.sequence
            <= current.unwrap().sequence ==> cursor_transition(current, incoming)
            == DeliveryCursorTransition::Stale(current.unwrap()),
        cursor_transition(current, incoming) is EpochChanged <==> (current is Some
            && current.unwrap().epoch@ != incoming.epoch@),
{
}

/// Within one epoch a consumer cursor never moves backward: it ends at the larger of the two
/// sequences.
pub proof fn law_cursor_never_regresses(current: DeliveryCursor, incoming: DeliveryCursor)
    requires
        current.epoch@ == incoming.epoch@,
    ensures
        transition_cursor(cursor_transition(Some(current), incoming)).sequence == if incoming.sequence
            > current.sequence {
            incoming.sequence
        } else {
            current.sequence
        },
        !(cursor_transition(Some(current), incoming) is EpochChanged),
{
}

} // verus!
