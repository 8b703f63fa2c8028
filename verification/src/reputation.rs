//! Reputation deltas reported against peers for observable behaviour.

use vstd::prelude::*;

use crate::types::{NetworkPriority, PeerId, Report, SubmitResult};

verus! {

/// Debit applied for every announced statement: the announcer pays for the
/// verification work it forces on us. Refunded via `ANY_STATEMENT_REFUND`
/// once the statement is verified and is not bad.
pub const ANY_STATEMENT: i32 = -16;

/// Refund of `ANY_STATEMENT` when the statement was valid but already known.
pub const ANY_STATEMENT_REFUND: i32 = 16;

/// Reward for a new statement the store imported with low priority.
pub const GOOD_STATEMENT: i32 = 128;

/// Penalty for a statement the store rejected as bad.
pub const BAD_STATEMENT: i32 = -4096;

/// Penalty for announcing the same statement twice from the same peer.
pub const DUPLICATE_STATEMENT: i32 = -128;

/// Reward for a new statement the store imported with high priority.
pub const EXCELLENT_STATEMENT: i32 = 256;

/// The settlement a peer receives when the verification of a statement it
/// announced completes with `result`.
pub open spec fn settlement(result: SubmitResult) -> int {
    match result {
        SubmitResult::New(NetworkPriority::High) => EXCELLENT_STATEMENT as int,
        SubmitResult::New(NetworkPriority::Low) => GOOD_STATEMENT as int,
        SubmitResult::Known => ANY_STATEMENT_REFUND as int,
        SubmitResult::KnownExpired => 0,
        SubmitResult::Ignored => 0,
        SubmitResult::Bad => BAD_STATEMENT as int,
        SubmitResult::InternalError => 0,
    }
}

/// The reputation report one announcer receives when the verification of a
/// statement completes: its settlement, or nothing when the settlement is
/// zero. Local failures (`InternalError`) never punish the peer.
pub fn statement_import_report(who: PeerId, result: SubmitResult) -> (r: Option<Report>)
    ensures
        settlement(result) == 0 ==> r is None,
        settlement(result) != 0 ==> r == Some(
            Report { peer: who, change: settlement(result) as i32 },
        ),
{
    match result {
        SubmitResult::New(NetworkPriority::High) => Some(
            Report { peer: who, change: EXCELLENT_STATEMENT },
        ),
        SubmitResult::New(NetworkPriority::Low) => Some(
            Report { peer: who, change: GOOD_STATEMENT },
        ),
        SubmitResult::Known => Some(Report { peer: who, change: ANY_STATEMENT_REFUND }),
        SubmitResult::KnownExpired => None,
        SubmitResult::Ignored => None,
        SubmitResult::Bad => Some(Report { peer: who, change: BAD_STATEMENT }),
        SubmitResult::InternalError => None,
    }
}

/// Whatever a verification returns, the settlement is one of the five
/// permitted values: the refund, the low reward, the high reward, the bad
/// penalty, or nothing.
pub proof fn lemma_settlement_values(result: SubmitResult)
    ensures
        settlement(result) == ANY_STATEMENT_REFUND as int || settlement(result)
            == GOOD_STATEMENT as int || settlement(result) == EXCELLENT_STATEMENT as int
            || settlement(result) == BAD_STATEMENT as int || settlement(result) == 0,
{
}

} // verus!
