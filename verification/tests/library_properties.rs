use realtime_core::{
    advance_delivery_cursor, latest_delivery_per_stream, mark_reconnect_connecting,
    mark_reconnect_open, reconnect_delay_ms, reduce_client_recovery, reset_reconnect_state,
    schedule_reconnect_attempt, ClientInvalidation, ClientRecoveryEntry, ClientRecoveryEvent,
    ClientRecoveryState, DeliveryCursor, DeliveryCursorTransition, DeliveryEntry, DeliveryLog,
    DeliveryRecovery, LivenessTracker, RealtimeError, ReconnectBackoffPolicy, ReconnectState,
    ReconnectStatus, SnapshotRequiredReason, SubscriptionHub, SubscriptionRegistry,
    MAX_DELIVERY_SEQUENCE, MAX_INTEROPERABLE_INTEGER,
};

fn s(text: &str) -> String {
    text.to_string()
}

fn cursor(epoch: &str, sequence: u64) -> DeliveryCursor {
    DeliveryCursor::new(s(epoch), sequence).unwrap()
}

fn entry(epoch: &str, sequence: u64, stream: &str, version: u64) -> DeliveryEntry<u32> {
    DeliveryEntry {
        cursor: cursor(epoch, sequence),
        stream: s(stream),
        stream_version: version,
        payload: 0,
    }
}

#[test]
fn log_parameters_are_checked_in_order() {
    assert_eq!(
        DeliveryLog::<u8>::new(s("\t \u{3000}"), 2).unwrap_err(),
        RealtimeError::InvalidEpoch
    );
    assert_eq!(
        DeliveryLog::<u8>::new(s("epoch"), 0).unwrap_err(),
        RealtimeError::InvalidCapacity
    );
    assert_eq!(
        DeliveryLog::<u8>::new(s("epoch"), (MAX_INTEROPERABLE_INTEGER + 1) as usize).unwrap_err(),
        RealtimeError::InvalidCapacity
    );
    assert_eq!(
        DeliveryLog::<u8>::with_initial_sequence(s("epoch"), 2, MAX_DELIVERY_SEQUENCE + 1)
            .unwrap_err(),
        RealtimeError::InvalidSequence
    );
    assert_eq!(
        DeliveryLog::<u8>::with_initial_sequence(s(""), 0, u64::MAX).unwrap_err(),
        RealtimeError::InvalidEpoch
    );
    assert!(DeliveryLog::<u8>::new(s(" epoch "), 1).is_ok());
    assert_eq!(MAX_DELIVERY_SEQUENCE, 9_007_199_254_740_991);
}

#[test]
fn stream_versions_beyond_the_interoperable_range_are_refused() {
    let mut log = DeliveryLog::new(s("epoch"), 2).unwrap();
    assert_eq!(
        log.append(s("room"), MAX_INTEROPERABLE_INTEGER + 1, 1u8),
        Err(RealtimeError::InvalidStreamVersion)
    );
    assert!(log.is_empty());
    assert_eq!(log.latest_cursor(), cursor("epoch", 0));
    let appended = log.append(s("room"), MAX_INTEROPERABLE_INTEGER, 1u8).unwrap();
    assert_eq!(appended.cursor, cursor("epoch", 1));
}

#[test]
fn error_messages_describe_each_refusal() {
    assert_eq!(
        RealtimeError::InvalidEpoch.message(),
        "delivery log epoch must be non-empty"
    );
    assert_eq!(
        RealtimeError::MixedDeliveryEpoch.message(),
        "deliveries from different epochs cannot be collapsed together"
    );
    assert_eq!(
        RealtimeError::SequenceExhausted.message(),
        "delivery sequence is exhausted"
    );
}

#[test]
fn replay_after_an_append_returns_exactly_that_append_even_after_eviction() {
    let mut log = DeliveryLog::new(s("epoch"), 1).unwrap();
    log.append(s("a"), 1, 10u32).unwrap();
    let before = log.latest_cursor();
    let appended = log.append(s("b"), 1, 20u32).unwrap();
    assert_eq!(log.len(), 1);
    assert_eq!(
        log.recover_after(&before, None),
        DeliveryRecovery::Replay {
            latest_cursor: cursor("epoch", 2),
            entries: vec![appended],
        }
    );
    let other = vec![s("a")];
    assert_eq!(
        log.recover_after(&before, Some(&other)),
        DeliveryRecovery::Replay {
            latest_cursor: cursor("epoch", 2),
            entries: Vec::new(),
        }
    );
}

#[test]
fn eviction_never_changes_the_latest_sequence() {
    let mut log = DeliveryLog::with_initial_sequence(s("epoch"), 2, 5).unwrap();
    for version in 0..5u64 {
        log.append(s("room"), version, version).unwrap();
    }
    assert_eq!(log.latest_cursor(), cursor("epoch", 10));
    assert_eq!(log.len(), 2);
    assert_eq!(
        log.recover_after(&cursor("epoch", 7), None),
        DeliveryRecovery::SnapshotRequired {
            reason: SnapshotRequiredReason::HistoryGap,
            latest_cursor: cursor("epoch", 10),
            earliest_available_sequence: 9,
        }
    );
    let replay = log.recover_after(&cursor("epoch", 8), None);
    match replay {
        DeliveryRecovery::Replay { entries, .. } => {
            let sequences: Vec<u64> = entries.iter().map(|e| e.cursor.sequence).collect();
            assert_eq!(sequences, vec![9, 10]);
        }
        DeliveryRecovery::SnapshotRequired { .. } => panic!("replay expected"),
    }
}

#[test]
fn an_empty_log_replays_nothing_at_its_latest_cursor_only() {
    let log = DeliveryLog::<u8>::with_initial_sequence(s("epoch"), 3, 4).unwrap();
    assert_eq!(
        log.recover_after(&cursor("epoch", 4), None),
        DeliveryRecovery::Replay {
            latest_cursor: cursor("epoch", 4),
            entries: Vec::new(),
        }
    );
    assert_eq!(
        log.recover_after(&cursor("epoch", 3), None),
        DeliveryRecovery::SnapshotRequired {
            reason: SnapshotRequiredReason::HistoryGap,
            latest_cursor: cursor("epoch", 4),
            earliest_available_sequence: 5,
        }
    );
}

#[test]
fn a_consumer_cursor_never_moves_backward_within_an_epoch() {
    let current = cursor("epoch", 5);
    for sequence in 0..10u64 {
        let transition = advance_delivery_cursor(Some(&current), &cursor("epoch", sequence));
        let kept = match transition {
            DeliveryCursorTransition::Advanced(c) | DeliveryCursorTransition::Stale(c) => c,
            _ => panic!("same epoch"),
        };
        assert_eq!(kept.sequence, sequence.max(5));
    }
}

#[test]
fn backoff_doubles_then_caps_and_rejects_unbounded_policies() {
    let policy = ReconnectBackoffPolicy {
        base_ms: 1_000,
        max_ms: 15_000,
    };
    let delays: Vec<u64> = (0..6).map(|a| reconnect_delay_ms(a, policy).unwrap()).collect();
    assert_eq!(delays, vec![1_000, 2_000, 4_000, 8_000, 15_000, 15_000]);
    let zero = ReconnectBackoffPolicy {
        base_ms: 0,
        max_ms: 10,
    };
    assert_eq!(reconnect_delay_ms(70, zero), Ok(0));
    let wide = ReconnectBackoffPolicy {
        base_ms: MAX_INTEROPERABLE_INTEGER,
        max_ms: MAX_INTEROPERABLE_INTEGER,
    };
    assert_eq!(reconnect_delay_ms(40, wide), Ok(MAX_INTEROPERABLE_INTEGER));
    assert_eq!(
        reconnect_delay_ms(
            0,
            ReconnectBackoffPolicy {
                base_ms: 1,
                max_ms: MAX_INTEROPERABLE_INTEGER + 1,
            }
        ),
        Err(RealtimeError::InvalidBackoffPolicy)
    );
}

#[test]
fn reconnect_transitions_keep_attempts_until_stable() {
    let policy = ReconnectBackoffPolicy {
        base_ms: 10,
        max_ms: 100,
    };
    let state = ReconnectState {
        attempt: 3,
        status: ReconnectStatus::Waiting,
    };
    let open = mark_reconnect_open(mark_reconnect_connecting(state));
    assert_eq!(open.attempt, 3);
    assert_eq!(open.status, ReconnectStatus::Open);
    assert_eq!(
        schedule_reconnect_attempt(
            state,
            ReconnectBackoffPolicy {
                base_ms: 5,
                max_ms: 1,
            }
        ),
        Err(RealtimeError::InvalidBackoffPolicy)
    );
    let scheduled = schedule_reconnect_attempt(state, policy).unwrap();
    assert_eq!(scheduled.delay_ms, 80);
    assert_eq!(scheduled.state.attempt, 4);
    assert_eq!(scheduled.state.status, ReconnectStatus::Waiting);
    assert_eq!(reset_reconnect_state(), ReconnectState::default());
    assert_eq!(reset_reconnect_state().status, ReconnectStatus::Idle);
}

#[test]
fn subscribers_come_in_byte_order_and_counts_follow_the_pairs() {
    let mut registry = SubscriptionRegistry::default();
    for connection in ["z", "é", "ab", "a", "b"] {
        assert!(registry.subscribe(s("room"), s(connection)));
    }
    assert_eq!(
        registry.subscribers(&s("room")),
        vec![s("a"), s("ab"), s("b"), s("z"), s("é")]
    );
    assert!(registry.subscribe(s("hall"), s("a")));
    assert_eq!(registry.subscriber_count(&s("room")), 5);
    assert_eq!(registry.subscriber_count(&s("nowhere")), 0);
    assert_eq!(registry.stream_count(), 2);
    let stats = registry.stats();
    assert_eq!(stats.streams, 2);
    assert_eq!(stats.subscriptions, 6);
    assert_eq!(stats.connections, 5);
    assert_eq!(registry.remove_connection(&s("a")), 2);
    assert_eq!(registry.remove_connection(&s("a")), 0);
    assert_eq!(registry.stream_count(), 1);
    assert!(registry.subscribers(&s("hall")).is_empty());
}

#[test]
fn unsubscribing_undoes_a_new_subscription() {
    let mut registry = SubscriptionRegistry::new();
    assert!(registry.subscribe(s("room"), s("c1")));
    assert!(registry.subscribe(s("room"), s("c2")));
    assert!(!registry.unsubscribe(&s("room"), &s("c3")));
    assert!(registry.unsubscribe(&s("room"), &s("c2")));
    assert!(!registry.unsubscribe(&s("room"), &s("c2")));
    assert_eq!(registry.subscribers(&s("room")), vec![s("c1")]);
    assert_eq!(registry.stats().subscriptions, 1);
    assert_eq!(registry.stats().connections, 1);
}

#[test]
fn liveness_sweeps_probe_in_order_and_reap_silent_connections() {
    let mut tracker = LivenessTracker::default();
    for connection in ["c", "a", "b"] {
        assert!(tracker.track(s(connection)));
    }
    assert!(!tracker.acknowledge(&s("missing")));
    let first = tracker.sweep();
    assert_eq!(first.probe, vec![s("a"), s("b"), s("c")]);
    assert!(first.stale.is_empty());
    assert!(tracker.acknowledge(&s("b")));
    let second = tracker.sweep();
    assert_eq!(second.probe, vec![s("b")]);
    assert_eq!(second.stale, vec![s("a"), s("c")]);
    assert_eq!(tracker.len(), 1);
    assert!(tracker.remove(&s("b")));
    assert!(!tracker.remove(&s("b")));
    assert!(tracker.track(s("d")));
    assert!(tracker.track(s("e")));
    assert_eq!(tracker.clear(), 2);
    assert!(tracker.is_empty());
}

#[test]
fn client_updates_without_cursor_keep_the_state() {
    let state = ClientRecoveryState {
        cursor: Some(cursor("epoch", 3)),
    };
    let decision = reduce_client_recovery(
        &state,
        &ClientRecoveryEvent::Update {
            stream: s("room"),
            cursor: None,
        },
    );
    assert_eq!(decision.state, state);
    assert_eq!(decision.invalidation, ClientInvalidation::Streams(vec![s("room")]));
    assert!(!decision.requires_snapshot);

    let stale = reduce_client_recovery(
        &state,
        &ClientRecoveryEvent::Update {
            stream: s("room"),
            cursor: Some(cursor("epoch", 1)),
        },
    );
    assert_eq!(stale.state.cursor, Some(cursor("epoch", 3)));
}

#[test]
fn client_recovery_without_entries_invalidates_nothing_and_epoch_changes_invalidate_all() {
    let state = ClientRecoveryState {
        cursor: Some(cursor("epoch-a", 3)),
    };
    let quiet = reduce_client_recovery(
        &state,
        &ClientRecoveryEvent::Recovery {
            entries: Vec::new(),
            latest_cursor: None,
            snapshot_required: false,
        },
    );
    assert_eq!(quiet.invalidation, ClientInvalidation::Nothing);
    assert_eq!(quiet.state, state);
    assert!(!quiet.requires_snapshot);

    let changed = reduce_client_recovery(
        &state,
        &ClientRecoveryEvent::Recovery {
            entries: vec![ClientRecoveryEntry {
                stream: s("room"),
                cursor: Some(cursor("epoch-b", 1)),
            }],
            latest_cursor: None,
            snapshot_required: false,
        },
    );
    assert_eq!(changed.invalidation, ClientInvalidation::All);
    assert!(changed.requires_snapshot);
    assert_eq!(changed.state.cursor, Some(cursor("epoch-b", 1)));
}

#[test]
fn hub_fans_out_to_current_subscribers_and_reports_refusals() {
    let mut hub = SubscriptionHub::with_initial_sequence(s("epoch"), 2, MAX_DELIVERY_SEQUENCE - 1)
        .unwrap();
    assert!(hub.subscribe(s("room"), s("c2")));
    assert!(hub.subscribe(s("room"), s("c1")));
    assert!(hub.unsubscribe(&s("room"), &s("c2")));
    let plan = hub.plan_delivery(s("room"), 1, 5u8).unwrap();
    assert_eq!(plan.connections, vec![s("c1")]);
    assert_eq!(plan.entry.cursor, cursor("epoch", MAX_DELIVERY_SEQUENCE));
    assert_eq!(
        hub.plan_delivery(s("room"), 2, 6u8).unwrap_err(),
        RealtimeError::SequenceExhausted
    );
    assert_eq!(hub.history_len(), 1);
    assert_eq!(hub.latest_cursor(), cursor("epoch", MAX_DELIVERY_SEQUENCE));
    assert_eq!(hub.subscriber_count(&s("room")), 1);
    assert_eq!(hub.stream_count(), 1);
    assert_eq!(hub.entries().len(), 1);
    assert_eq!(
        SubscriptionHub::<u8>::new(s(" "), 2).unwrap_err(),
        RealtimeError::InvalidEpoch
    );
}

#[test]
fn hub_reports_each_retained_stream_once() {
    let mut hub = SubscriptionHub::new(s("epoch"), 8).unwrap();
    for stream in ["b", "a", "b", "c", "a"] {
        hub.plan_delivery(s(stream), 1, ()).unwrap();
    }
    let mut streams = hub.retained_streams();
    streams.sort();
    assert_eq!(streams, vec![s("a"), s("b"), s("c")]);
}

#[test]
fn compaction_orders_ties_by_stream_and_refuses_mixed_epochs() {
    let entries = vec![
        entry("e", 4, "b", 1),
        entry("e", 4, "a", 1),
        entry("e", 2, "a", 2),
        entry("e", 4, "b", 3),
    ];
    let latest = latest_delivery_per_stream(entries).unwrap();
    assert_eq!(
        latest
            .iter()
            .map(|e| (e.stream.as_str(), e.cursor.sequence, e.stream_version))
            .collect::<Vec<_>>(),
        vec![("a", 4, 1), ("b", 4, 1)]
    );
    assert_eq!(latest_delivery_per_stream(Vec::<DeliveryEntry<u32>>::new()), Ok(Vec::new()));
    assert_eq!(
        latest_delivery_per_stream(vec![entry("e", 1, "a", 1), entry("f", 2, "b", 1)]),
        Err(RealtimeError::MixedDeliveryEpoch)
    );
}

#[test]
fn a_run_of_appends_keeps_the_most_recent_deliveries_and_counts_every_sequence() {
    let mut log = DeliveryLog::with_initial_sequence(s("epoch"), 3, 20).unwrap();
    assert!(log.is_empty());
    for version in 0..5u64 {
        log.append(s("room"), version, version as u32).unwrap();
        assert!(log.len() <= 3);
    }
    assert_eq!(
        log.append(s("room"), MAX_INTEROPERABLE_INTEGER + 1, 0),
        Err(RealtimeError::InvalidStreamVersion)
    );
    assert_eq!(log.len(), 3);
    assert_eq!(log.entries().len(), 3);
    assert!(!log.is_empty());
    assert_eq!(log.latest_cursor(), cursor("epoch", 25));
    let kept: Vec<(u64, u64)> = log
        .entries()
        .iter()
        .map(|e| (e.cursor.sequence, e.stream_version))
        .collect();
    assert_eq!(kept, vec![(23, 2), (24, 3), (25, 4)]);
}

#[test]
fn compacting_a_compaction_changes_nothing() {
    let entries = vec![
        entry("e", 1, "b", 1),
        entry("e", 3, "a", 2),
        entry("e", 2, "c", 1),
        entry("e", 5, "b", 4),
        entry("e", 5, "c", 7),
    ];
    let once = latest_delivery_per_stream(entries).unwrap();
    let twice = latest_delivery_per_stream(once.clone()).unwrap();
    assert_eq!(twice, once);
    assert_eq!(
        once.iter()
            .map(|e| (e.stream.as_str(), e.cursor.sequence))
            .collect::<Vec<_>>(),
        vec![("a", 3), ("b", 5), ("c", 5)]
    );
}

#[test]
fn subscription_counts_follow_each_change() {
    let mut registry = SubscriptionRegistry::new();
    assert!(registry.subscribe(s("table:1"), s("connection:1")));
    assert!(registry.subscribe(s("table:2"), s("connection:1")));
    assert!(registry.subscribe(s("table:1"), s("connection:2")));
    assert!(!registry.subscribe(s("table:1"), s("connection:2")));
    assert_eq!(registry.stats().subscriptions, 3);
    assert!(registry.unsubscribe(&s("table:1"), &s("connection:2")));
    assert_eq!(registry.stats().subscriptions, 2);
    assert_eq!(registry.remove_connection(&s("connection:1")), 2);
    let stats = registry.stats();
    assert_eq!(stats.subscriptions, 0);
    assert_eq!(stats.streams, 0);
    assert_eq!(stats.connections, 0);
}

#[test]
fn tracking_and_removing_change_the_tracked_count_by_one() {
    let mut tracker = LivenessTracker::new();
    assert!(tracker.track(s("a")));
    assert!(!tracker.track(s("a")));
    assert_eq!(tracker.len(), 1);
    assert!(tracker.track(s("b")));
    assert_eq!(tracker.len(), 2);
    assert!(tracker.remove(&s("a")));
    assert_eq!(tracker.len(), 1);
    assert!(!tracker.remove(&s("a")));
    assert_eq!(tracker.len(), 1);
}

struct RecoveryCase {
    name: &'static str,
    max_entries: usize,
    initial_sequence: u64,
    entries: Vec<(&'static str, u64, &'static str)>,
    after: DeliveryCursor,
    authorized: Vec<&'static str>,
    expected: DeliveryRecovery<String>,
}

fn delivered(sequence: u64, stream: &str, version: u64, payload: &str) -> DeliveryEntry<String> {
    DeliveryEntry {
        cursor: cursor("epoch", sequence),
        stream: s(stream),
        stream_version: version,
        payload: s(payload),
    }
}

#[test]
fn recovery_cases_cover_authorization_eviction_epoch_future_and_integer_boundary() {
    let three = vec![("a", 1, "p1"), ("b", 1, "p2"), ("a", 2, "p3")];
    let cases = vec![
        RecoveryCase {
            name: "only authorized streams are replayed",
            max_entries: 4,
            initial_sequence: 0,
            entries: three.clone(),
            after: cursor("epoch", 0),
            authorized: vec!["a"],
            expected: DeliveryRecovery::Replay {
                latest_cursor: cursor("epoch", 3),
                entries: vec![delivered(1, "a", 1, "p1"), delivered(3, "a", 2, "p3")],
            },
        },
        RecoveryCase {
            name: "no authorized stream replays nothing",
            max_entries: 4,
            initial_sequence: 0,
            entries: three.clone(),
            after: cursor("epoch", 1),
            authorized: vec![],
            expected: DeliveryRecovery::Replay {
                latest_cursor: cursor("epoch", 3),
                entries: vec![],
            },
        },
        RecoveryCase {
            name: "an evicted cursor is a history gap",
            max_entries: 2,
            initial_sequence: 0,
            entries: three.clone(),
            after: cursor("epoch", 0),
            authorized: vec!["a", "b"],
            expected: DeliveryRecovery::SnapshotRequired {
                reason: SnapshotRequiredReason::HistoryGap,
                latest_cursor: cursor("epoch", 3),
                earliest_available_sequence: 2,
            },
        },
        RecoveryCase {
            name: "the oldest retained predecessor still replays",
            max_entries: 2,
            initial_sequence: 0,
            entries: three.clone(),
            after: cursor("epoch", 1),
            authorized: vec!["a", "b"],
            expected: DeliveryRecovery::Replay {
                latest_cursor: cursor("epoch", 3),
                entries: vec![delivered(2, "b", 1, "p2"), delivered(3, "a", 2, "p3")],
            },
        },
        RecoveryCase {
            name: "another epoch needs a snapshot",
            max_entries: 4,
            initial_sequence: 0,
            entries: three.clone(),
            after: cursor("other", 3),
            authorized: vec!["a", "b"],
            expected: DeliveryRecovery::SnapshotRequired {
                reason: SnapshotRequiredReason::EpochMismatch,
                latest_cursor: cursor("epoch", 3),
                earliest_available_sequence: 1,
            },
        },
        RecoveryCase {
            name: "a cursor ahead of the log needs a snapshot",
            max_entries: 4,
            initial_sequence: 0,
            entries: three.clone(),
            after: cursor("epoch", 4),
            authorized: vec!["a", "b"],
            expected: DeliveryRecovery::SnapshotRequired {
                reason: SnapshotRequiredReason::FutureCursor,
                latest_cursor: cursor("epoch", 3),
                earliest_available_sequence: 1,
            },
        },
        RecoveryCase {
            name: "the last exact integer is replayed",
            max_entries: 2,
            initial_sequence: MAX_DELIVERY_SEQUENCE - 1,
            entries: vec![("a", MAX_INTEROPERABLE_INTEGER, "last")],
            after: cursor("epoch", MAX_DELIVERY_SEQUENCE - 1),
            authorized: vec!["a"],
            expected: DeliveryRecovery::Replay {
                latest_cursor: cursor("epoch", MAX_DELIVERY_SEQUENCE),
                entries: vec![delivered(
                    MAX_DELIVERY_SEQUENCE,
                    "a",
                    MAX_INTEROPERABLE_INTEGER,
                    "last",
                )],
            },
        },
        RecoveryCase {
            name: "nothing follows the last exact integer",
            max_entries: 2,
            initial_sequence: MAX_DELIVERY_SEQUENCE - 1,
            entries: vec![("a", 1, "last")],
            after: cursor("epoch", MAX_DELIVERY_SEQUENCE),
            authorized: vec!["a"],
            expected: DeliveryRecovery::Replay {
                latest_cursor: cursor("epoch", MAX_DELIVERY_SEQUENCE),
                entries: vec![],
            },
        },
    ];
    for case in cases {
        let mut log =
            DeliveryLog::with_initial_sequence(s("epoch"), case.max_entries, case.initial_sequence)
                .unwrap();
        for (stream, version, payload) in case.entries {
            log.append(s(stream), version, s(payload)).unwrap();
        }
        let authorized: Vec<String> = case.authorized.iter().map(|stream| s(stream)).collect();
        assert_eq!(
            log.recover_after(&case.after, Some(&authorized)),
            case.expected,
            "{}",
            case.name
        );
    }
}
