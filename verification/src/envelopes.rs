//! Application-defined snapshot, delta, command and receipt envelopes.
use vstd::prelude::*;

verus! {

/// The authoritative state of a stream at a delivery sequence.
#[derive(Clone, Debug, Eq, PartialEq)]
pub struct SnapshotEnvelope<Stream, Payload> {
    pub stream: Stream,
    pub sequence: u64,
    pub payload: Payload,
}

/// A change to a stream at a delivery sequence.
#[derive(Clone, Debug, Eq, PartialEq)]
pub struct DeltaEnvelope<Stream, Payload> {
    pub stream: Stream,
    pub sequence: u64,
    pub payload: Payload,
}

/// A command, optionally conditioned on the version it expects.
#[derive(Clone, Debug, Eq, PartialEq)]
pub struct CommandEnvelope<Command, Payload> {
    pub command_id: Command,
    pub expected_version: Option<u64>,
    pub payload: Payload,
}

/// The answer to a command: its result, or why it was rejected.
#[derive(Clone, Debug, Eq, PartialEq)]
pub enum CommandReceipt<Command, Outcome, Rejection = String> {
    Accepted { command_id: Command, result: Outcome },
    Rejected { command_id: Command, rejection: Rejection },
}

} // verus!
