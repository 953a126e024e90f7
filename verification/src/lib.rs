//! Transport-neutral primitives for subscriptions, ordered delivery, reconnect recovery,
//! and application-defined realtime envelopes.
//!
//! The crate performs no network, storage, authentication, clock, broker or serialization I/O.
//! Streams and connections are identified by string keys, ordered as `str` orders them.

pub mod backoff;
pub mod client_recovery;
pub mod envelopes;
pub mod error;
pub mod hub;
pub mod keymap;
pub mod keys;
pub mod limits;
pub mod liveness;
pub mod reconnect;
pub mod recovery;
pub mod subscriptions;

pub use backoff::{reconnect_delay_ms, ReconnectBackoffPolicy};
pub use client_recovery::{
    reduce_client_recovery, ClientInvalidation, ClientRecoveryDecision, ClientRecoveryEntry,
    ClientRecoveryEvent, ClientRecoveryState,
};
pub use envelopes::{CommandEnvelope, CommandReceipt, DeltaEnvelope, SnapshotEnvelope};
pub use error::RealtimeError;
pub use hub::{latest_delivery_per_stream, DeliveryPlan, SubscriptionHub};
pub use limits::{MAX_INTEROPERABLE_INTEGER, MAX_RECONNECT_ATTEMPT};
pub use liveness::{LivenessSweep, LivenessTracker};
pub use reconnect::{
    ensure_minimum_reconnect_attempt, mark_reconnect_connecting, mark_reconnect_open,
    mark_reconnect_stable, reset_reconnect_state, schedule_reconnect_attempt, ReconnectSchedule,
    ReconnectState, ReconnectStatus,
};
pub use recovery::{
    advance_delivery_cursor, DeliveryCursor, DeliveryCursorTransition, DeliveryEntry, DeliveryLog,
    DeliveryRecovery, SnapshotRequiredReason, MAX_DELIVERY_SEQUENCE,
};
pub use subscriptions::{SubscriptionRegistry, SubscriptionStats};
