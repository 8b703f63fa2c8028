//! Gossip handler for signed statements on a peer-to-peer overlay.
//!
//! The library is the verified core of the handler: the per-peer state, the
//! in-flight verification bookkeeping, the bounded validation queue, the
//! reputation rules, the wire codec and the propagation logic. The host wires
//! it to a real transport, sync oracle and statement store: it feeds events in
//! and performs the actions (sends, reputation reports, reserved-set changes)
//! that the engine hands back.

use vstd::prelude::*;

pub mod codec;
pub mod engine;
pub mod hashing;
pub mod lru;
pub mod peers;
pub mod protocol;
pub mod pending;
pub mod queue;
pub mod reputation;
pub mod types;

verus! {

/// Maximum size in bytes of a notification payload.
pub const MAX_STATEMENT_SIZE: usize = 1048576;

/// Per-peer capacity of the set of statement hashes known to that peer.
pub const MAX_KNOWN_STATEMENTS: usize = 1024;

/// Maximum number of statement verifications tracked in flight at once.
pub const MAX_PENDING_STATEMENTS: usize = 8192;

/// Capacity of the handoff queue between the engine and the verification
/// worker.
pub const VALIDATION_QUEUE_CAPACITY: usize = 100000;

/// Interval, in seconds, at which the host should trigger a full propagation.
pub const PROPAGATE_TIMEOUT_SECS: u64 = 10;

} // verus!
