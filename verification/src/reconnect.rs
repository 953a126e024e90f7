//! Reconnect state transitions that keep backoff across transport-open events.
use vstd::prelude::*;
use crate::backoff::{backoff_delay, backoff_policy_valid, reconnect_delay_ms, ReconnectBackoffPolicy};
use crate::error::RealtimeError;
use crate::limits::MAX_RECONNECT_ATTEMPT;

verus! {

/// Where a reconnecting client stands.
#[derive(Clone, Copy, Debug, Eq, PartialEq)]
pub enum ReconnectStatus {
    Idle,
    Waiting,
    Connecting,
    Open,
    Stable,
}

/// The attempt counter and the status of a reconnecting client.
#[derive(Clone, Copy, Debug, Eq, PartialEq)]
pub struct ReconnectState {
    pub attempt: u32,
    pub status: ReconnectStatus,
}

impl Default for ReconnectState {
    fn default() -> (state: Self)
        ensures
            state == (ReconnectState { attempt: 0, status: ReconnectStatus::Idle }),
    {
        ReconnectState { attempt: 0, status: ReconnectStatus::Idle }
    }
}

/// The next state and the delay to wait before the scheduled attempt.
#[derive(Clone, Copy, Debug, Eq, PartialEq)]
pub struct ReconnectSchedule {
    pub state: ReconnectState,
    pub delay_ms: u64,
}

/// Calculates a delay and advances the attempt before a timer or I/O runs.
pub fn schedule_reconnect_attempt(state: ReconnectState, policy: ReconnectBackoffPolicy) -> (schedule:
    Result<ReconnectSchedule, RealtimeError>)
    ensures
        match schedule {
            Ok(s) => {
                &&& state.attempt < MAX_RECONNECT_ATTEMPT
                &&& backoff_policy_valid(policy)
                &&& s.delay_ms == backoff_delay(state.attempt, policy)
                &&& s.state == (ReconnectState {
                    attempt: (state.attempt + 1) as u32,
                    status: ReconnectStatus::Waiting,
                })
            },
            Err(error) => error == if state.attempt == MAX_RECONNECT_ATTEMPT {
                RealtimeError::ReconnectAttemptExhausted
            } else {
                RealtimeError::InvalidBackoffPolicy
            },
        },
        schedule is Ok <==> state.attempt < MAX_RECONNECT_ATTEMPT && backoff_policy_valid(policy),
{
    if state.attempt >= MAX_RECONNECT_ATTEMPT {
        return Err(RealtimeError::ReconnectAttemptExhausted);
    }
    let attempt = state.attempt + 1;
    let delay_ms = reconnect_delay_ms(state.attempt, policy)?;
    Ok(ReconnectSchedule {
        delay_ms,
        state: ReconnectState { attempt, status: ReconnectStatus::Waiting },
    })
}

/// The transport started connecting; the attempt count is kept.
pub fn mark_reconnect_connecting(state: ReconnectState) -> (next: ReconnectState)
    ensures
        next == (ReconnectState { status: ReconnectStatus::Connecting, ..state }),
{
    ReconnectState { status: ReconnectStatus::Connecting, ..state }
}

/// The transport opened; the attempt count is kept until the connection proves stable.
pub fn mark_reconnect_open(state: ReconnectState) -> (next: ReconnectState)
    ensures
        next == (ReconnectState { status: ReconnectStatus::Open, ..state }),
{
    ReconnectState { status: ReconnectStatus::Open, ..state }
}

/// The connection proved stable; the attempt count starts over.
pub fn mark_reconnect_stable(state: ReconnectState) -> (next: ReconnectState)
    ensures
        next == (ReconnectState { attempt: 0, status: ReconnectStatus::Stable }),
{
    ReconnectState { attempt: 0, status: ReconnectStatus::Stable }
}

/// Raises the attempt count to at least `minimum_attempt`.
pub fn ensure_minimum_reconnect_attempt(state: ReconnectState, minimum_attempt: u32) -> (next:
    ReconnectState)
    ensures
        next.status == state.status,
        next.attempt == if state.attempt > minimum_attempt {
            state.attempt
        } else {
            minimum_attempt
        },
{
    ReconnectState {
        attempt: if state.attempt > minimum_attempt {
            state.attempt
        } else {
            minimum_attempt
        },
        ..state
    }
}

/// The idle state with no attempt made.
pub fn reset_reconnect_state() -> (state: ReconnectState)
    ensures
        state == (ReconnectState { attempt: 0, status: ReconnectStatus::Idle }),
{
    ReconnectState::default()
}

} // verus!
