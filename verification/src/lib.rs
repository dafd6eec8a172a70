//! Heartbeat-driven membership tracking.
//!
//! A stream of heartbeat events, one per remote agent address, is folded into
//! an authoritative set of currently alive agents. The set is committed at
//! fixed epoch boundaries: an address that heartbeated during the closing
//! epoch stays, every other address is evicted. Each change of the set is
//! rendered as one textual snapshot message and handed to a single-slot
//! broadcast from which any number of subscribers read the latest value.
//!
//! The asynchronous transports (raw heartbeat sockets, the streaming
//! subscriber endpoint, the timer) live outside this crate; they feed plain
//! byte strings in and carry rendered snapshots out.

pub mod order;

pub mod codec;

pub mod tracker;

pub mod broadcast;







