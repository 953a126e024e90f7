use vstd::prelude::*;

verus! {

/// Every way in which a realtime primitive refuses an input.
#[derive(Clone, Copy, Debug, Eq, PartialEq)]
pub enum RealtimeError {
    InvalidEpoch,
    InvalidCapacity,
    InvalidBackoffPolicy,
    InvalidSequence,
    InvalidStreamVersion,
    MixedDeliveryEpoch,
    ReconnectAttemptExhausted,
    SequenceExhausted,
}

/// The human-readable description of each error.
pub open spec fn error_message(error: RealtimeError) -> Seq<char> {
    match error {
        RealtimeError::InvalidEpoch => "delivery log epoch must be non-empty"@,
        RealtimeError::InvalidCapacity => "delivery log capacity must be positive and interoperably bounded"@,
        RealtimeError::InvalidBackoffPolicy => "reconnect delays must be interoperably bounded and maximum must be at least base"@,
        RealtimeError::InvalidSequence => "delivery sequence exceeds the interoperable integer range"@,
        RealtimeError::InvalidStreamVersion => "stream version exceeds the interoperable integer range"@,
        RealtimeError::MixedDeliveryEpoch => "deliveries from different epochs cannot be collapsed together"@,
        RealtimeError::ReconnectAttemptExhausted => "reconnect attempt is exhausted"@,
        RealtimeError::SequenceExhausted => "delivery sequence is exhausted"@,
    }
}

impl RealtimeError {
    /// The description that a `Display` of this error would print.
    pub fn message(&self) -> (text: &'static str)
        ensures
            text@ == error_message(*self),
    {
        match self {
            RealtimeError::InvalidEpoch => "delivery log epoch must be non-empty",
            RealtimeError::InvalidCapacity => "delivery log capacity must be positive and interoperably bounded",
            RealtimeError::InvalidBackoffPolicy => "reconnect delays must be interoperably bounded and maximum must be at least base",
            RealtimeError::InvalidSequence => "delivery sequence exceeds the interoperable integer range",
            RealtimeError::InvalidStreamVersion => "stream version exceeds the interoperable integer range",
            RealtimeError::MixedDeliveryEpoch => "deliveries from different epochs cannot be collapsed together",
            RealtimeError::ReconnectAttemptExhausted => "reconnect attempt is exhausted",
            RealtimeError::SequenceExhausted => "delivery sequence is exhausted",
        }
    }
}

} // verus!
