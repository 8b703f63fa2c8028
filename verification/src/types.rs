//! Plain value types shared by the engine, the queue and the host.

use vstd::prelude::*;

verus! {

/// Identifier of a connected peer, as assigned by the host transport layer.
pub type PeerId = u64;

/// Content hash identifying a statement.
pub type StatementHash = u64;

/// Role a peer reported in its handshake.
#[derive(Clone, Copy, Debug, PartialEq, Eq, Structural)]
pub enum Role {
    Full,
    Authority,
    Light,
}

/// Priority the store assigned to a newly imported statement.
#[derive(Clone, Copy, Debug, PartialEq, Eq, Structural)]
pub enum NetworkPriority {
    High,
    Low,
}

/// Outcome of submitting a statement to the statement store.
#[derive(Clone, Copy, Debug, PartialEq, Eq, Structural)]
pub enum SubmitResult {
    New(NetworkPriority),
    Known,
    KnownExpired,
    Ignored,
    Bad,
    InternalError,
}

/// Verdict on an inbound substream validation request.
#[derive(Clone, Copy, Debug, PartialEq, Eq, Structural)]
pub enum ValidationResult {
    Accept,
    Reject,
}

/// A reputation adjustment to be reported against a peer.
#[derive(Clone, Copy, Debug, PartialEq, Eq, Structural)]
pub struct Report {
    pub peer: PeerId,
    pub change: i32,
}

} // verus!
