# realtime_core

Transport-neutral primitives for authoritative realtime systems, written in Verus: subscription
indexes, a bounded delivery log with replay recovery, replay compaction, a client recovery
reducer, reconnect backoff and state, and heartbeat liveness tracking. The library performs no I/O.

Streams and connections are string keys, ordered as `str` orders them (by UTF-8 bytes).

- `src/keys.rs`, `src/keymap.rs`: the key order and ordered maps and sets over it.
- `src/subscriptions.rs`: the two-way subscription registry.
- `src/recovery.rs`: delivery cursors, the delivery log and recovery.
- `src/hub.rs`: the hub that plans deliveries, and latest-delivery-per-stream compaction.
- `src/client_recovery.rs`, `src/reconnect.rs`, `src/backoff.rs`, `src/liveness.rs`: client-side
  reducers and state machines.
- `app/lib.rs`: `Display` and `std::error::Error` for the library's error.

Delivery sequences, stream versions, capacities and reconnect delays stay within the largest
integer that JavaScript represents exactly; larger inputs are refused before any mutation.
