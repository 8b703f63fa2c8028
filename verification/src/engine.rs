//! The gossip engine: the state machine at the heart of the handler.
//!
//! The engine owns all gossip state — the peer table, the in-flight
//! verification bookkeeping and the validation queue — and is driven by the
//! host event loop. Each entry point consumes one event and returns the
//! actions the host must perform: reputation reports, substream verdicts,
//! reserved-set changes and outbound notifications. The host supplies the
//! sync oracle's answer (`major_syncing`) with each event that consults it.

use vstd::prelude::*;

use crate::codec::decode_statements;
use crate::codec::encode_statements;
use crate::codec::statements_decoding;
use crate::codec::statements_encoding;
use crate::codec::views_of;
use crate::hashing::hash_of;
use crate::hashing::statement_hash;
use crate::lru::lemma_lru_insert_contains;
use crate::lru::lru_insert;
use crate::peers::peer_idx;
use crate::peers::peer_ids;
use crate::peers::Peer;
use crate::peers::PeerTable;
use crate::peers::PeerView;
use crate::pending::pending_hashes;
use crate::pending::pending_idx;
use crate::pending::pending_peers;
use crate::pending::AnnounceOutcome;
use crate::pending::PendingStatements;
use crate::queue::QueueItem;
use crate::queue::TrySendOutcome;
use crate::queue::ValidationQueue;
use crate::reputation::settlement;
use crate::reputation::statement_import_report;
use crate::reputation::ANY_STATEMENT;
use crate::reputation::DUPLICATE_STATEMENT;
use crate::types::PeerId;
use crate::types::Report;
use crate::types::Role;
use crate::types::StatementHash;
use crate::types::SubmitResult;
use crate::types::ValidationResult;

verus! {

/// Abstract state of the engine.
#[verifier::ext_equal]
pub struct EngineView {
    /// Connected peers, in table order.
    pub peers: Seq<(PeerId, PeerView)>,
    /// Hashes with a verification in flight, each with its announcers.
    pub pending: Seq<(StatementHash, Seq<PeerId>)>,
    /// Number of verification completions still outstanding.
    pub in_flight: int,
    /// Queued statements awaiting the verification worker.
    pub queue: Seq<(StatementHash, Seq<u8>)>,
    /// Whether the validation queue is closed.
    pub queue_closed: bool,
    /// Capacity of the validation queue.
    pub queue_capacity: int,
    /// Cap on concurrently tracked verifications.
    pub max_pending: int,
    /// Per-peer capacity of the known-statement set.
    pub max_known: int,
}

/// An event from the notification transport, with any outside lookups (the
/// peer's role from its handshake) already resolved by the host.
pub enum NotificationEvent {
    ValidateInboundSubstream { peer: PeerId, role: Option<Role> },
    NotificationStreamOpened { peer: PeerId, role: Option<Role> },
    NotificationStreamClosed { peer: PeerId },
    NotificationReceived { peer: PeerId, notification: Vec<u8> },
}

/// An event from the sync service.
pub enum SyncEvent {
    InitialPeers(Vec<PeerId>),
    PeerConnected(PeerId),
    PeerDisconnected(PeerId),
}

/// Reserved-set change the host must apply to the transport.
pub enum ReservedSetAction {
    AddReserved(Vec<PeerId>),
    RemoveReserved(Vec<PeerId>),
}

/// Verdict owed on a substream validation request.
pub struct ValidationReply {
    pub peer: PeerId,
    pub result: ValidationResult,
}

/// Everything a notification event asks the host to do.
pub struct NotificationOutput {
    pub validation: Option<ValidationReply>,
    pub reports: Vec<Report>,
}

/// One outbound notification: an encoded statement batch for a peer.
pub struct Outbound {
    pub peer: PeerId,
    pub payload: Vec<u8>,
}

/// What a propagation pass asks the host to send, and how many statements it
/// covers (saturating, for the metrics counter).
pub struct PropagationOutput {
    pub sends: Vec<Outbound>,
    pub propagated: u64,
}

/// What a verification completion produced.
pub struct CompletionOutput {
    /// Whether the hash had a pending entry; a completion for an unknown
    /// hash indicates an internal inconsistency and is only logged.
    pub known_hash: bool,
    pub reports: Vec<Report>,
}

/// The gossip engine.
pub struct StatementHandler {
    peers: PeerTable,
    pending: PendingStatements,
    in_flight: usize,
    queue: ValidationQueue,
    max_pending: usize,
    max_known: usize,
}

impl View for StatementHandler {
    type V = EngineView;

    closed spec fn view(&self) -> EngineView {
        EngineView {
            peers: self.peers@,
            pending: self.pending@,
            in_flight: self.in_flight as int,
            queue: self.queue@,
            queue_closed: self.queue.spec_closed(),
            queue_capacity: self.queue.spec_capacity() as int,
            max_pending: self.max_pending as int,
            max_known: self.max_known as int,
        }
    }
}

/// The peer table after a substream for `who` with role `role` opened: a
/// fresh record, replacing any stale one.
pub open spec fn opened_peers(
    v: Seq<(PeerId, PeerView)>,
    who: PeerId,
    cap: int,
    role: Role,
) -> Seq<(PeerId, PeerView)> {
    let fresh = PeerView { known: Seq::empty(), known_capacity: cap as usize, role };
    if peer_ids(v).contains(who) {
        v.update(peer_idx(v, who), (who, fresh))
    } else {
        v.push((who, fresh))
    }
}

/// The peer table after the substream for `who` closed.
pub open spec fn closed_peers(v: Seq<(PeerId, PeerView)>, who: PeerId) -> Seq<(PeerId, PeerView)> {
    if peer_ids(v).contains(who) {
        v.remove(peer_idx(v, who))
    } else {
        v
    }
}

impl StatementHandler {
    /// Well-formedness of the whole engine state.
    pub closed spec fn wf(&self) -> bool {
        &&& self.peers.wf()
        &&& self.pending.wf()
        &&& self.queue.wf()
        &&& self.in_flight == self.pending@.len()
        &&& self.max_pending > 0
        &&& self.max_known > 0
    }

    /// A fresh engine with no peers and nothing in flight.
    pub fn new(max_known: usize, max_pending: usize, queue_capacity: usize) -> (r:
        StatementHandler)
        requires
            max_known > 0,
            max_pending > 0,
            queue_capacity > 0,
        ensures
            r.wf(),
            r@.peers == Seq::<(PeerId, PeerView)>::empty(),
            r@.pending == Seq::<(StatementHash, Seq<PeerId>)>::empty(),
            r@.in_flight == 0,
            r@.queue == Seq::<(StatementHash, Seq<u8>)>::empty(),
            !r@.queue_closed,
            r@.queue_capacity == queue_capacity,
            r@.max_pending == max_pending,
            r@.max_known == max_known,
    {
        StatementHandler {
            peers: PeerTable::new(),
            pending: PendingStatements::new(),
            in_flight: 0,
            queue: ValidationQueue::new(queue_capacity),
            max_pending,
            max_known,
        }
    }

    /// The one gate for admitting peers: a substream is accepted exactly
    /// when the transport could determine the peer's role.
    pub fn validate_substream(&self, peer: PeerId, role: Option<Role>) -> (r: ValidationReply)
        ensures
            r.peer == peer,
            (r.result == ValidationResult::Accept) <==> (role is Some),
            (r.result == ValidationResult::Reject) <==> (role is None),
    {
        match role {
            Some(_) => ValidationReply { peer, result: ValidationResult::Accept },
            None => ValidationReply { peer, result: ValidationResult::Reject },
        }
    }

    /// A substream for `who` opened: insert a fresh peer record, unless the
    /// role could not be determined, in which case nothing is recorded.
    pub fn on_stream_opened(&mut self, who: PeerId, role: Option<Role>)
        requires
            old(self).wf(),
        ensures
            final(self).wf(),
            role is None ==> final(self)@ == old(self)@,
            role is Some ==> final(self)@ == (EngineView {
                peers: opened_peers(old(self)@.peers, who, old(self)@.max_known, role.unwrap()),
                ..old(self)@
            }),
    {
        let r = match role {
            None => {
                return ;
            },
            Some(r) => r,
        };
        let fresh = Peer::new(self.max_known, r);
        proof {
            assert(fresh@ =~= PeerView {
                known: Seq::empty(),
                known_capacity: (self@.max_known) as usize,
                role: r,
            });
        }
        self.peers.insert(who, fresh);
        proof {
            assert(self@ =~= EngineView {
                peers: opened_peers(old(self)@.peers, who, old(self)@.max_known, r),
                ..old(self)@
            });
        }
    }

    /// The substream for `who` closed: drop its record, if one exists.
    pub fn on_stream_closed(&mut self, who: PeerId) -> (was_present: bool)
        requires
            old(self).wf(),
        ensures
            final(self).wf(),
            was_present == peer_ids(old(self)@.peers).contains(who),
            final(self)@ == (EngineView { peers: closed_peers(old(self)@.peers, who), ..old(self)@ }),
    {
        let was_present = self.peers.remove(who);
        proof {
            assert(self@ =~= EngineView {
                peers: closed_peers(old(self)@.peers, who),
                ..old(self)@
            });
        }
        was_present
    }

    /// Number of connected peers.
    pub fn peer_count(&self) -> (r: usize)
        ensures
            r == self@.peers.len(),
    {
        self.peers.len()
    }

    /// Number of verifications in flight.
    pub fn in_flight_count(&self) -> (r: usize)
        ensures
            r == self@.in_flight,
    {
        self.in_flight
    }

    /// Whether `who` is connected and already knows `h`.
    pub fn peer_knows(&self, who: PeerId, h: StatementHash) -> (r: bool)
        requires
            self.wf(),
        ensures
            r == (peer_ids(self@.peers).contains(who) && peer_idx(self@.peers, who) >= 0
                && self@.peers[peer_idx(self@.peers, who)].1.known.contains(h)),
    {
        match self.peers.index_of(who) {
            None => false,
            Some(i) => self.peers.known_at(i, h),
        }
    }

    /// Hand the next queued statement to the verification worker.
    pub fn next_verification(&mut self) -> (r: Option<QueueItem>)
        requires
            old(self).wf(),
        ensures
            final(self).wf(),
            (r is Some) <==> old(self)@.queue.len() > 0,
            r is None ==> final(self)@ == old(self)@,
            r is Some ==> (r.unwrap().hash, r.unwrap().statement@) == old(self)@.queue[0]
                && final(self)@ == (EngineView { queue: old(self)@.queue.drop_first(), ..old(self)@ }),
    {
        let r = self.queue.next_item();
        proof {
            if r is Some {
                assert(self@ =~= EngineView { queue: old(self)@.queue.drop_first(), ..old(self)@ });
            } else {
                assert(self@ =~= old(self)@);
            }
        }
        r
    }

    /// Mark the validation queue closed (the worker has gone away).
    pub fn close_queue(&mut self)
        requires
            old(self).wf(),
        ensures
            final(self).wf(),
            final(self)@ == (EngineView { queue_closed: true, ..old(self)@ }),
    {
        self.queue.close();
        proof {
            assert(self@ =~= EngineView { queue_closed: true, ..old(self)@ });
        }
    }

    /// P1: at any instant, the number of outstanding verification
    /// completions equals the number of pending-map entries, and every
    /// pending entry has at least one announcer.
    pub proof fn lemma_in_flight_matches_pending(&self)
        requires
            self.wf(),
        ensures
            self@.in_flight == self@.pending.len(),
            forall|i: int| 0 <= i < self@.pending.len() ==> (#[trigger] self@.pending[i]).1.len()
                > 0,
    {
    }
}

/// What one inbound statement `s` from `who` does to the engine state, and
/// the reputation reports it produces. `who` must be a connected peer.
///
/// When the in-flight cap is reached the statement is dropped outright.
/// Otherwise the hash is recorded in the peer's known set, the peer pays the
/// `ANY_STATEMENT` debit, and the statement is enqueued for verification iff
/// it is the first announcement of its hash and the queue has room; a second
/// announcement by the same peer costs it `DUPLICATE_STATEMENT`.
pub open spec fn step_statement(v: EngineView, who: PeerId, s: Seq<u8>) -> (EngineView, Seq<
    Report,
>) {
    if v.in_flight >= v.max_pending {
        (v, Seq::empty())
    } else {
        let h = hash_of(s);
        let i = peer_idx(v.peers, who);
        let pv = v.peers[i].1;
        let pv2 = PeerView {
            known: lru_insert(pv.known, h, pv.known_capacity as int),
            known_capacity: pv.known_capacity,
            role: pv.role,
        };
        let v1 = EngineView { peers: v.peers.update(i, (who, pv2)), ..v };
        let base = seq![Report { peer: who, change: ANY_STATEMENT }];
        if !pending_hashes(v.pending).contains(h) {
            if v.queue_closed || v.queue.len() >= v.queue_capacity {
                (v1, base)
            } else {
                (
                    EngineView {
                        pending: v1.pending.push((h, seq![who])),
                        in_flight: v1.in_flight + 1,
                        queue: v1.queue.push((h, s)),
                        ..v1
                    },
                    base,
                )
            }
        } else if pending_peers(v.pending, h).contains(who) {
            (v1, base.push(Report { peer: who, change: DUPLICATE_STATEMENT }))
        } else {
            (
                EngineView {
                    pending: v1.pending.update(
                        pending_idx(v1.pending, h),
                        (h, pending_peers(v1.pending, h).push(who)),
                    ),
                    ..v1
                },
                base,
            )
        }
    }
}

/// The engine state and reports after processing a whole inbound batch from
/// `who`, statement by statement, in order.
pub open spec fn statements_steps(v: EngineView, who: PeerId, ss: Seq<Seq<u8>>) -> (EngineView, Seq<
    Report,
>)
    decreases ss.len(),
{
    if ss.len() == 0 {
        (v, Seq::empty())
    } else {
        let prev = statements_steps(v, who, ss.drop_last());
        let step = step_statement(prev.0, who, ss.last());
        (step.0, prev.1 + step.1)
    }
}

/// The reports a completed verification produces: each announcer receives
/// the settlement for the result, except when the settlement is zero.
pub open spec fn completion_reports(announcers: Seq<PeerId>, result: SubmitResult) -> Seq<Report>
    decreases announcers.len(),
{
    if announcers.len() == 0 {
        Seq::empty()
    } else {
        let prev = completion_reports(announcers.drop_last(), result);
        if settlement(result) == 0 {
            prev
        } else {
            prev.push(Report { peer: announcers.last(), change: settlement(result) as i32 })
        }
    }
}

/// A copy of a byte vector.
fn clone_bytes(v: &Vec<u8>) -> (r: Vec<u8>)
    ensures
        r@ == v@,
{
    let mut out: Vec<u8> = Vec::new();
    let n = v.len();
    let mut i: usize = 0;
    while i < n
        invariant
            n == v@.len(),
            i <= n,
            out@ == v@.take(i as int),
        decreases n - i,
    {
        let b = v[i];
        out.push(b);
        proof {
            assert(v@.take(i + 1) =~= v@.take(i as int).push(b));
        }
        i += 1;
    }
    proof {
        assert(v@.take(n as int) =~= v@);
    }
    out
}

impl StatementHandler {
    /// Process an inbound batch of statements from `who`, in order.
    ///
    /// Returns the reputation reports the host must submit. A batch from a
    /// peer with no record is ignored entirely.
    pub fn on_statements(&mut self, who: PeerId, statements: Vec<Vec<u8>>) -> (reports: Vec<
        Report,
    >)
        requires
            old(self).wf(),
        ensures
            final(self).wf(),
            !peer_ids(old(self)@.peers).contains(who) ==> final(self)@ == old(self)@ && reports@
                == Seq::<Report>::empty(),
            peer_ids(old(self)@.peers).contains(who) ==> final(self)@ == statements_steps(
                old(self)@,
                who,
                views_of(statements@),
            ).0 && reports@ == statements_steps(old(self)@, who, views_of(statements@)).1,
    {
        let idx = match self.peers.index_of(who) {
            None => {
                return Vec::new();
            },
            Some(i) => i,
        };
        let mut reports: Vec<Report> = Vec::new();
        let n = statements.len();
        let mut i: usize = 0;
        while i < n
            invariant
                old(self).wf(),
                self.wf(),
                n == statements@.len(),
                i <= n,
                peer_ids(old(self)@.peers).contains(who),
                idx < self@.peers.len(),
                self@.peers[idx as int].0 == who,
                self@ == statements_steps(old(self)@, who, views_of(statements@).take(i as int)).0,
                reports@ == statements_steps(
                    old(self)@,
                    who,
                    views_of(statements@).take(i as int),
                ).1,
            decreases n - i,
        {
            let ghost vpre = self@;
            let ghost rpre = reports@;
            let ghost sview = statements@[i as int]@;
            if self.in_flight < self.max_pending {
                let h = statement_hash(&statements[i]);
                proof {
                    assert(peer_ids(vpre.peers)[idx as int] == who);
                    assert(peer_ids(vpre.peers).contains(who));
                    let k = peer_idx(vpre.peers, who);
                    assert(vpre.peers[k].0 == who);
                    assert(peer_ids(vpre.peers)[k] == who);
                    if k != idx {
                        assert(false);
                    }
                }
                let _newly = self.peers.insert_known(idx, h);
                reports.push(Report { peer: who, change: ANY_STATEMENT });
                let ghost v1 = (EngineView {
                    peers: vpre.peers.update(
                        peer_idx(vpre.peers, who),
                        (
                            who,
                            PeerView {
                                known: lru_insert(
                                    vpre.peers[peer_idx(vpre.peers, who)].1.known,
                                    h,
                                    vpre.peers[peer_idx(vpre.peers, who)].1.known_capacity as int,
                                ),
                                known_capacity: vpre.peers[peer_idx(
                                    vpre.peers,
                                    who,
                                )].1.known_capacity,
                                role: vpre.peers[peer_idx(vpre.peers, who)].1.role,
                            },
                        ),
                    ),
                    ..vpre
                });
                proof {
                    assert(self@ =~~= v1);
                }
                match self.pending.announce(h, who) {
                    AnnounceOutcome::FirstAnnouncer => {
                        let stmt = clone_bytes(&statements[i]);
                        match self.queue.try_send(h, stmt) {
                            TrySendOutcome::Sent => {
                                self.pending.insert_new(h, who);
                                self.in_flight += 1;
                                proof {
                                    assert(self@ =~~= step_statement(vpre, who, sview).0);
                                }
                            },
                            TrySendOutcome::Full => {
                                proof {
                                    assert(self@ =~~= step_statement(vpre, who, sview).0);
                                }
                            },
                            TrySendOutcome::Closed => {
                                proof {
                                    assert(self@ =~~= step_statement(vpre, who, sview).0);
                                }
                            },
                        }
                        proof {
                            assert(reports@ =~= rpre + step_statement(vpre, who, sview).1);
                        }
                    },
                    AnnounceOutcome::Duplicate => {
                        reports.push(Report { peer: who, change: DUPLICATE_STATEMENT });
                        proof {
                            assert(self@ =~~= step_statement(vpre, who, sview).0);
                            assert(reports@ =~= rpre + step_statement(vpre, who, sview).1);
                        }
                    },
                    AnnounceOutcome::AdditionalNew => {
                        proof {
                            assert(self@ =~~= step_statement(vpre, who, sview).0);
                            assert(reports@ =~= rpre + step_statement(vpre, who, sview).1);
                        }
                    },
                }
            } else {
                proof {
                    assert(step_statement(vpre, who, sview) == (vpre, Seq::<Report>::empty()));
                    assert(rpre + Seq::<Report>::empty() =~= rpre);
                }
            }
            proof {
                let tk0 = views_of(statements@).take(i as int);
                let tk1 = views_of(statements@).take(i + 1);
                assert(tk1.drop_last() =~= tk0);
                assert(tk1.last() == sview);
                assert(self@ == statements_steps(old(self)@, who, tk1).0);
                assert(reports@ == statements_steps(old(self)@, who, tk1).1);
            }
            i += 1;
        }
        proof {
            assert(views_of(statements@).take(n as int) =~= views_of(statements@));
        }
        reports
    }

    /// A verification completed (or its reply was dropped): release the
    /// pending entry for `h` and settle every announcer.
    ///
    /// `known_hash` is false when no verification of `h` was in flight —
    /// an internal inconsistency the host merely logs.
    pub fn on_verification_complete(&mut self, h: StatementHash, result: Option<SubmitResult>) -> (
        out: CompletionOutput)
        requires
            old(self).wf(),
        ensures
            final(self).wf(),
            out.known_hash == pending_hashes(old(self)@.pending).contains(h),
            !out.known_hash ==> final(self)@ == old(self)@ && out.reports@ == Seq::<
                Report,
            >::empty(),
            out.known_hash ==> final(self)@ == (EngineView {
                pending: old(self)@.pending.remove(pending_idx(old(self)@.pending, h)),
                in_flight: old(self)@.in_flight - 1,
                ..old(self)@
            }),
            out.known_hash ==> out.reports@ == (match result {
                None => Seq::<Report>::empty(),
                Some(res) => completion_reports(pending_peers(old(self)@.pending, h), res),
            }),
    {
        let taken = self.pending.take(h);
        let announcers = match taken {
            None => {
                return CompletionOutput { known_hash: false, reports: Vec::new() };
            },
            Some(p) => p,
        };
        proof {
            let j = choose|j: int|
                0 <= j < pending_hashes(old(self)@.pending).len() && pending_hashes(
                    old(self)@.pending,
                )[j] == h;
            assert(old(self)@.pending.len() > 0);
        }
        self.in_flight = self.in_flight - 1;
        proof {
            assert(self@ =~~= (EngineView {
                pending: old(self)@.pending.remove(pending_idx(old(self)@.pending, h)),
                in_flight: old(self)@.in_flight - 1,
                ..old(self)@
            }));
        }
        let mut reports: Vec<Report> = Vec::new();
        let res = match result {
            None => {
                return CompletionOutput { known_hash: true, reports };
            },
            Some(r) => r,
        };
        let n = announcers.len();
        let mut i: usize = 0;
        while i < n
            invariant
                n == announcers@.len(),
                i <= n,
                reports@ == completion_reports(announcers@.take(i as int), res),
            decreases n - i,
        {
            let ghost rpre = reports@;
            match statement_import_report(announcers[i], res) {
                Some(rep) => {
                    reports.push(rep);
                },
                None => {},
            }
            proof {
                assert(announcers@.take(i + 1).drop_last() =~= announcers@.take(i as int));
                assert(announcers@.take(i + 1).last() == announcers@[i as int]);
                assert(reports@ == completion_reports(announcers@.take(i + 1), res));
            }
            i += 1;
        }
        proof {
            assert(announcers@.take(n as int) =~= announcers@);
        }
        CompletionOutput { known_hash: true, reports }
    }

    /// An inbound notification payload from `who`: ignored outright while
    /// the node is major-syncing, otherwise decoded and processed; a payload
    /// that does not decode is dropped without punishment.
    pub fn on_notification_received(
        &mut self,
        who: PeerId,
        notification: Vec<u8>,
        major_syncing: bool,
    ) -> (reports: Vec<Report>)
        requires
            old(self).wf(),
        ensures
            final(self).wf(),
            major_syncing ==> final(self)@ == old(self)@ && reports@ == Seq::<Report>::empty(),
            !major_syncing ==> (match statements_decoding(notification@) {
                None => final(self)@ == old(self)@ && reports@ == Seq::<Report>::empty(),
                Some(ss) => {
                    if peer_ids(old(self)@.peers).contains(who) {
                        final(self)@ == statements_steps(old(self)@, who, ss).0 && reports@
                            == statements_steps(old(self)@, who, ss).1
                    } else {
                        final(self)@ == old(self)@ && reports@ == Seq::<Report>::empty()
                    }
                },
            }),
    {
        if major_syncing {
            return Vec::new();
        }
        match decode_statements(&notification) {
            None => Vec::new(),
            Some(ss) => self.on_statements(who, ss),
        }
    }
}

/// The views of a batch of `(hash, statement)` pairs.
pub open spec fn pairs_view(s: Seq<(StatementHash, Vec<u8>)>) -> Seq<(StatementHash, Seq<u8>)> {
    s.map_values(|p: (StatementHash, Vec<u8>)| (p.0, p.1@))
}

/// The views of a list of outbound notifications.
pub open spec fn sends_view(s: Seq<Outbound>) -> Seq<(PeerId, Seq<u8>)> {
    s.map_values(|o: Outbound| (o.peer, o.payload@))
}

/// Machine bounds under which a batch can be encoded.
pub open spec fn batch_bounded(batch: Seq<(StatementHash, Seq<u8>)>) -> bool {
    &&& batch.len() < 0x100000000
    &&& forall|i: int| 0 <= i < batch.len() ==> (#[trigger] batch[i]).1.len() < 0x100000000
}

/// What one propagation pass selects for one peer: the subsequence of the
/// batch whose hashes the peer does not know at the moment each is
/// considered, and the peer's known set afterwards (every batch hash
/// inserted, oldest entries evicted as needed).
pub open spec fn peer_send(
    known: Seq<StatementHash>,
    cap: int,
    batch: Seq<(StatementHash, Seq<u8>)>,
) -> (Seq<(StatementHash, Seq<u8>)>, Seq<StatementHash>)
    decreases batch.len(),
{
    if batch.len() == 0 {
        (Seq::empty(), known)
    } else {
        let prev = peer_send(known, cap, batch.drop_last());
        let h = batch.last().0;
        let kn1 = lru_insert(prev.1, h, cap);
        if prev.1.contains(h) {
            (prev.0, kn1)
        } else {
            (prev.0.push(batch.last()), kn1)
        }
    }
}

/// The payload sent for a selection: the wire encoding of its statements.
pub open spec fn selected_payload(sel: Seq<(StatementHash, Seq<u8>)>) -> Seq<u8> {
    statements_encoding(sel.map_values(|p: (StatementHash, Seq<u8>)| p.1))
}

/// What a propagation pass does: for each peer in table order, light peers
/// are skipped; every other peer has the batch filtered against its known
/// set and receives one notification when the selection is non-empty. The
/// third component counts all statements selected across peers.
pub open spec fn propagate_spec(
    peers: Seq<(PeerId, PeerView)>,
    batch: Seq<(StatementHash, Seq<u8>)>,
) -> (Seq<(PeerId, PeerView)>, Seq<(PeerId, Seq<u8>)>, int)
    decreases peers.len(),
{
    if peers.len() == 0 {
        (peers, Seq::empty(), 0)
    } else {
        let prev = propagate_spec(peers.drop_last(), batch);
        let who = peers.last().0;
        let pv = peers.last().1;
        if pv.role == Role::Light {
            (prev.0.push(peers.last()), prev.1, prev.2)
        } else {
            let ps = peer_send(pv.known, pv.known_capacity as int, batch);
            let pv2 = PeerView { known: ps.1, known_capacity: pv.known_capacity, role: pv.role };
            if ps.0.len() == 0 {
                (prev.0.push((who, pv2)), prev.1, prev.2)
            } else {
                (
                    prev.0.push((who, pv2)),
                    prev.1.push((who, selected_payload(ps.0))),
                    prev.2 + ps.0.len(),
                )
            }
        }
    }
}

/// A propagation pass keeps the peer table's length (and, entrywise, its
/// identifiers, roles and capacities).
pub proof fn lemma_propagate_len(
    peers: Seq<(PeerId, PeerView)>,
    batch: Seq<(StatementHash, Seq<u8>)>,
)
    ensures
        propagate_spec(peers, batch).0.len() == peers.len(),
        forall|i: int|
            0 <= i < peers.len() ==> (#[trigger] propagate_spec(peers, batch).0[i]).0
                == peers[i].0 && propagate_spec(peers, batch).0[i].1.known_capacity
                == peers[i].1.known_capacity && propagate_spec(peers, batch).0[i].1.role
                == peers[i].1.role,
    decreases peers.len(),
{
    if peers.len() > 0 {
        lemma_propagate_len(peers.drop_last(), batch);
    }
}

/// Truncated addition for the metrics counter.
pub open spec fn sat64(x: int) -> int {
    if x > u64::MAX as int {
        u64::MAX as int
    } else {
        x
    }
}

fn sat_add_u64(a: u64, b: usize) -> (r: u64)
    ensures
        r as int == sat64(a as int + b as int),
{
    let bb = b as u64;
    if a > u64::MAX - bb {
        u64::MAX
    } else {
        a + bb
    }
}

/// The relation between the engine state, sends and counter before and
/// after a propagation pass over `batch`.
pub open spec fn propagation_transition(
    pre: EngineView,
    batch: Seq<(StatementHash, Seq<u8>)>,
    post: EngineView,
    sends: Seq<(PeerId, Seq<u8>)>,
    count: int,
) -> bool {
    &&& post == (EngineView { peers: propagate_spec(pre.peers, batch).0, ..pre })
    &&& sends == propagate_spec(pre.peers, batch).1
    &&& count == sat64(propagate_spec(pre.peers, batch).2)
}

impl StatementHandler {
    /// One propagation pass over the given `(hash, statement)` batch.
    fn do_propagate_statements(&mut self, statements: &Vec<(StatementHash, Vec<u8>)>) -> (out:
        PropagationOutput)
        requires
            old(self).wf(),
            batch_bounded(pairs_view(statements@)),
        ensures
            final(self).wf(),
            propagation_transition(
                old(self)@,
                pairs_view(statements@),
                final(self)@,
                sends_view(out.sends@),
                out.propagated as int,
            ),
    {
        let ghost batchv = pairs_view(statements@);
        let ghost peers0 = self@.peers;
        let mut sends: Vec<Outbound> = Vec::new();
        let mut propagated: u64 = 0;
        let n = self.peers.len();
        let mut i: usize = 0;
        proof {
            assert(peers0.take(0) =~= Seq::<(PeerId, PeerView)>::empty());
            assert(peers0.skip(0) =~= peers0);
            assert(sends_view(sends@) =~= Seq::<(PeerId, Seq<u8>)>::empty());
            assert(self@.peers =~= propagate_spec(peers0.take(0), batchv).0 + peers0.skip(0));
        }
        while i < n
            invariant
                old(self).wf(),
                self.wf(),
                n == peers0.len(),
                i <= n,
                peers0 == old(self)@.peers,
                batchv == pairs_view(statements@),
                batch_bounded(batchv),
                statements@.len() < 0x100000000,
                self@.peers == propagate_spec(peers0.take(i as int), batchv).0 + peers0.skip(
                    i as int,
                ),
                sends_view(sends@) == propagate_spec(peers0.take(i as int), batchv).1,
                propagated as int == sat64(propagate_spec(peers0.take(i as int), batchv).2),
                self@.pending == old(self)@.pending,
                self@.in_flight == old(self)@.in_flight,
                self@.queue == old(self)@.queue,
                self@.queue_closed == old(self)@.queue_closed,
                self@.queue_capacity == old(self)@.queue_capacity,
                self@.max_pending == old(self)@.max_pending,
                self@.max_known == old(self)@.max_known,
            decreases n - i,
        {
            let ghost peersmid = self@.peers;
            proof {
                lemma_propagate_len(peers0.take(i as int), batchv);
                assert(peersmid.len() == n);
                assert(peersmid[i as int] == peers0.skip(i as int)[0]);
                assert(peersmid[i as int] == peers0[i as int]);
                assert(peers0.take(i + 1).drop_last() =~= peers0.take(i as int));
                assert(peers0.take(i + 1).last() == peers0[i as int]);
            }
            let who = self.peers.id_at(i);
            let role = self.peers.role_at(i);
            let ghost kn0 = peersmid[i as int].1.known;
            let ghost capg = peersmid[i as int].1.known_capacity;
            match role {
                Role::Light => {
                    proof {
                        assert(propagate_spec(peers0.take(i + 1), batchv).0 =~= propagate_spec(
                            peers0.take(i as int),
                            batchv,
                        ).0.push(peers0[i as int]));
                        assert(self@.peers =~= propagate_spec(peers0.take(i + 1), batchv).0
                            + peers0.skip(i + 1));
                        assert(propagate_spec(peers0.take(i + 1), batchv).1 == propagate_spec(
                            peers0.take(i as int),
                            batchv,
                        ).1);
                    }
                },
                _ => {
                    let ghost roleg = peersmid[i as int].1.role;
                    let m = statements.len();
                    let mut selected: Vec<Vec<u8>> = Vec::new();
                    let mut j: usize = 0;
                    proof {
                        assert(batchv.take(0) =~= Seq::<(StatementHash, Seq<u8>)>::empty());
                        assert(peersmid.update(
                            i as int,
                            (who, PeerView { known: kn0, known_capacity: capg, role: roleg }),
                        ) =~= peersmid);
                        assert(views_of(selected@) =~= Seq::<Seq<u8>>::empty());
                        assert(peer_send(kn0, capg as int, batchv.take(0)).0.map_values(
                            |p: (StatementHash, Seq<u8>)| p.1,
                        ) =~= Seq::<Seq<u8>>::empty());
                    }
                    while j < m
                        invariant
                            old(self).wf(),
                            self.wf(),
                            i < n,
                            n == peersmid.len(),
                            n == self@.peers.len(),
                            m == statements@.len(),
                            j <= m,
                            batchv == pairs_view(statements@),
                            batch_bounded(batchv),
                            who == peersmid[i as int].0,
                            kn0 == peersmid[i as int].1.known,
                            capg == peersmid[i as int].1.known_capacity,
                            roleg == peersmid[i as int].1.role,
                            self@.peers == peersmid.update(
                                i as int,
                                (
                                    who,
                                    PeerView {
                                        known: peer_send(kn0, capg as int, batchv.take(j as int)).1,
                                        known_capacity: capg,
                                        role: roleg,
                                    },
                                ),
                            ),
                            views_of(selected@) == peer_send(
                                kn0,
                                capg as int,
                                batchv.take(j as int),
                            ).0.map_values(|p: (StatementHash, Seq<u8>)| p.1),
                            selected@.len() == peer_send(kn0, capg as int, batchv.take(j as int)).0.len(),
                            selected@.len() <= j,
                            forall|k: int|
                                0 <= k < selected@.len() ==> (#[trigger] selected@[k])@.len()
                                    < 0x100000000,
                            self@.pending == old(self)@.pending,
                            self@.in_flight == old(self)@.in_flight,
                            self@.queue == old(self)@.queue,
                            self@.queue_closed == old(self)@.queue_closed,
                            self@.queue_capacity == old(self)@.queue_capacity,
                            self@.max_pending == old(self)@.max_pending,
                            self@.max_known == old(self)@.max_known,
                        decreases m - j,
                    {
                        let ghost selpre = selected@;
                        let ghost knpre = peer_send(kn0, capg as int, batchv.take(j as int)).1;
                        let h = statements[j].0;
                        proof {
                            assert(batchv[j as int] == (statements@[j as int].0, statements@[j as int].1@));
                            assert(batchv.take(j + 1).drop_last() =~= batchv.take(j as int));
                            assert(batchv.take(j + 1).last() == batchv[j as int]);
                            assert(self@.peers[i as int].1.known == knpre);
                        }
                        let newly = self.peers.insert_known(i, h);
                        proof {
                            assert(self@.peers =~= peersmid.update(
                                i as int,
                                (
                                    who,
                                    PeerView {
                                        known: lru_insert(knpre, h, capg as int),
                                        known_capacity: capg,
                                        role: roleg,
                                    },
                                ),
                            ));
                        }
                        if newly {
                            let stmt = clone_bytes(&statements[j].1);
                            selected.push(stmt);
                            proof {
                                assert(views_of(selected@) =~= views_of(selpre).push(
                                    statements@[j as int].1@,
                                ));
                            }
                        }
                        proof {
                            let psj = peer_send(kn0, capg as int, batchv.take(j + 1));
                            assert(views_of(selected@) =~= psj.0.map_values(
                                |p: (StatementHash, Seq<u8>)| p.1,
                            ));
                        }
                        j += 1;
                    }
                    proof {
                        assert(batchv.take(m as int) =~= batchv);
                    }
                    let ghost psfull = peer_send(kn0, capg as int, batchv);
                    let ghost pv2 = PeerView {
                        known: psfull.1,
                        known_capacity: capg,
                        role: roleg,
                    };
                    if selected.len() > 0 {
                        proof {
                            assert(views_of(selected@).len() == selected@.len());
                        }
                        let payload = encode_statements(&selected);
                        proof {
                            assert(payload@ == selected_payload(psfull.0));
                        }
                        sends.push(Outbound { peer: who, payload });
                        propagated = sat_add_u64(propagated, selected.len());
                        proof {
                            assert(sends_view(sends@) =~= propagate_spec(
                                peers0.take(i as int),
                                batchv,
                            ).1.push((who, selected_payload(psfull.0))));
                        }
                    }
                    proof {
                        assert(propagate_spec(peers0.take(i + 1), batchv).0 =~= propagate_spec(
                            peers0.take(i as int),
                            batchv,
                        ).0.push((who, pv2)));
                        assert(self@.peers =~= propagate_spec(peers0.take(i + 1), batchv).0
                            + peers0.skip(i + 1));
                        assert(sends_view(sends@) == propagate_spec(peers0.take(i + 1), batchv).1);
                        assert(propagated as int == sat64(propagate_spec(
                            peers0.take(i + 1),
                            batchv,
                        ).2));
                    }
                },
            }
            i += 1;
        }
        proof {
            assert(peers0.take(n as int) =~= peers0);
            assert(peers0.skip(n as int) =~= Seq::<(PeerId, PeerView)>::empty());
            assert(self@.peers =~= propagate_spec(peers0, batchv).0);
            assert(self@ =~~= (EngineView { peers: propagate_spec(peers0, batchv).0, ..old(
                self,
            )@ }));
        }
        PropagationOutput { sends, propagated }
    }

    /// Propagate a batch of statements read from the store; a no-op while
    /// the node is major-syncing.
    pub fn propagate_statements(
        &mut self,
        statements: &Vec<(StatementHash, Vec<u8>)>,
        major_syncing: bool,
    ) -> (out: PropagationOutput)
        requires
            old(self).wf(),
            batch_bounded(pairs_view(statements@)),
        ensures
            final(self).wf(),
            major_syncing ==> final(self)@ == old(self)@ && out.sends@ == Seq::<Outbound>::empty()
                && out.propagated == 0,
            !major_syncing ==> propagation_transition(
                old(self)@,
                pairs_view(statements@),
                final(self)@,
                sends_view(out.sends@),
                out.propagated as int,
            ),
    {
        if major_syncing {
            return PropagationOutput { sends: Vec::new(), propagated: 0 };
        }
        self.do_propagate_statements(statements)
    }

    /// Propagate one statement (as looked up in the store by the host); a
    /// no-op while major-syncing or when the store does not hold the hash.
    pub fn propagate_statement(
        &mut self,
        hash: StatementHash,
        statement: Option<Vec<u8>>,
        major_syncing: bool,
    ) -> (out: PropagationOutput)
        requires
            old(self).wf(),
            statement matches Some(s) ==> s@.len() < 0x100000000,
        ensures
            final(self).wf(),
            (major_syncing || statement is None) ==> final(self)@ == old(self)@ && out.sends@
                == Seq::<Outbound>::empty() && out.propagated == 0,
            (!major_syncing && statement is Some) ==> propagation_transition(
                old(self)@,
                seq![(hash, statement.unwrap()@)],
                final(self)@,
                sends_view(out.sends@),
                out.propagated as int,
            ),
    {
        if major_syncing {
            return PropagationOutput { sends: Vec::new(), propagated: 0 };
        }
        let s = match statement {
            None => {
                return PropagationOutput { sends: Vec::new(), propagated: 0 };
            },
            Some(s) => s,
        };
        let mut batch: Vec<(StatementHash, Vec<u8>)> = Vec::new();
        batch.push((hash, s));
        proof {
            assert(pairs_view(batch@) =~= seq![(hash, statement.unwrap()@)]);
        }
        self.do_propagate_statements(&batch)
    }
}

/// The relation between the engine state and outputs before and after one
/// notification event.
pub open spec fn notification_transition(
    pre: EngineView,
    event: NotificationEvent,
    major_syncing: bool,
    post: EngineView,
    validation: Option<ValidationReply>,
    reports: Seq<Report>,
) -> bool {
    match event {
        NotificationEvent::ValidateInboundSubstream { peer, role } => {
            &&& post == pre
            &&& reports == Seq::<Report>::empty()
            &&& validation == Some(
                ValidationReply {
                    peer,
                    result: if role is Some {
                        ValidationResult::Accept
                    } else {
                        ValidationResult::Reject
                    },
                },
            )
        },
        NotificationEvent::NotificationStreamOpened { peer, role } => {
            &&& validation is None
            &&& reports == Seq::<Report>::empty()
            &&& (if role is Some {
                post == (EngineView {
                    peers: opened_peers(pre.peers, peer, pre.max_known, role.unwrap()),
                    ..pre
                })
            } else {
                post == pre
            })
        },
        NotificationEvent::NotificationStreamClosed { peer } => {
            &&& validation is None
            &&& reports == Seq::<Report>::empty()
            &&& post == (EngineView { peers: closed_peers(pre.peers, peer), ..pre })
        },
        NotificationEvent::NotificationReceived { peer, notification } => {
            &&& validation is None
            &&& (if major_syncing {
                post == pre && reports == Seq::<Report>::empty()
            } else {
                match statements_decoding(notification@) {
                    None => post == pre && reports == Seq::<Report>::empty(),
                    Some(ss) => {
                        if peer_ids(pre.peers).contains(peer) {
                            post == statements_steps(pre, peer, ss).0 && reports
                                == statements_steps(pre, peer, ss).1
                        } else {
                            post == pre && reports == Seq::<Report>::empty()
                        }
                    },
                }
            })
        },
    }
}

impl StatementHandler {
    /// Dispatch one notification event, returning the verdicts and reports
    /// owed to the host.
    pub fn handle_notification_event(&mut self, event: NotificationEvent, major_syncing: bool) -> (
        out: NotificationOutput)
        requires
            old(self).wf(),
        ensures
            final(self).wf(),
            notification_transition(
                old(self)@,
                event,
                major_syncing,
                final(self)@,
                out.validation,
                out.reports@,
            ),
    {
        match event {
            NotificationEvent::ValidateInboundSubstream { peer, role } => {
                let reply = self.validate_substream(peer, role);
                NotificationOutput { validation: Some(reply), reports: Vec::new() }
            },
            NotificationEvent::NotificationStreamOpened { peer, role } => {
                self.on_stream_opened(peer, role);
                NotificationOutput { validation: None, reports: Vec::new() }
            },
            NotificationEvent::NotificationStreamClosed { peer } => {
                let _ = self.on_stream_closed(peer);
                NotificationOutput { validation: None, reports: Vec::new() }
            },
            NotificationEvent::NotificationReceived { peer, notification } => {
                let reports = self.on_notification_received(peer, notification, major_syncing);
                NotificationOutput { validation: None, reports }
            },
        }
    }
}

/// The peer table tracks exactly the open substreams: opening a substream
/// for a new peer with a known role grows the table by one, re-opening
/// replaces the record without growing it, and closing an open substream
/// shrinks the table by one.
pub proof fn lemma_peer_count(v: Seq<(PeerId, PeerView)>, who: PeerId, cap: int, role: Role)
    ensures
        !peer_ids(v).contains(who) ==> opened_peers(v, who, cap, role).len() == v.len() + 1,
        peer_ids(v).contains(who) ==> opened_peers(v, who, cap, role).len() == v.len(),
        peer_ids(v).contains(who) ==> closed_peers(v, who).len() == v.len() - 1,
        !peer_ids(v).contains(who) ==> closed_peers(v, who) == v,
{
    if peer_ids(v).contains(who) {
        let j = choose|j: int| 0 <= j < peer_ids(v).len() && peer_ids(v)[j] == who;
        assert(v[j].0 == who);
        let k = peer_idx(v, who);
        assert(0 <= k < v.len());
    }
}

/// When a verification completes with a non-zero settlement, every
/// announcer receives exactly one report, carrying exactly that settlement;
/// with a zero settlement nobody receives anything. Together with the
/// per-announcement debit in `step_statement`, the cumulative reputation
/// delta a peer collects for one statement hash is the debit plus at most
/// one settlement (plus the duplicate penalty where it announced twice).
pub proof fn lemma_one_settlement_per_announcer(announcers: Seq<PeerId>, result: SubmitResult)
    ensures
        settlement(result) == 0 ==> completion_reports(announcers, result) == Seq::<
            Report,
        >::empty(),
        settlement(result) != 0 ==> completion_reports(announcers, result).len()
            == announcers.len(),
        settlement(result) != 0 ==> forall|i: int|
            0 <= i < announcers.len() ==> completion_reports(announcers, result)[i] == (Report {
                peer: announcers[i],
                change: settlement(result) as i32,
            }),
    decreases announcers.len(),
{
    if announcers.len() > 0 {
        lemma_one_settlement_per_announcer(announcers.drop_last(), result);
        if settlement(result) == 0 {
        } else {
            assert forall|i: int|
                0 <= i < announcers.len() implies completion_reports(announcers, result)[i]
                == (Report { peer: announcers[i], change: settlement(result) as i32 }) by {
                if i < announcers.len() - 1 {
                    assert(completion_reports(announcers, result)[i] == completion_reports(
                        announcers.drop_last(),
                        result,
                    )[i]);
                    assert(announcers.drop_last()[i] == announcers[i]);
                }
            }
        }
    }
}

/// While the in-flight cap is reached, an inbound batch — however long —
/// changes nothing and produces no reports: every statement past the cap is
/// dropped, and no further statement of the batch is processed.
pub proof fn lemma_backpressure(v: EngineView, who: PeerId, ss: Seq<Seq<u8>>)
    requires
        v.in_flight >= v.max_pending,
    ensures
        statements_steps(v, who, ss).0 == v,
        statements_steps(v, who, ss).1 == Seq::<Report>::empty(),
    decreases ss.len(),
{
    if ss.len() > 0 {
        lemma_backpressure(v, who, ss.drop_last());
        assert(statements_steps(v, who, ss).1 =~= Seq::<Report>::empty());
    }
}

/// A statement is selected for a peer only at an instant when its hash is
/// absent from the peer's known set: if the peer knows the hash when the
/// statement is considered, the selection does not grow there, so a hash is
/// never re-sent to a peer until it has been evicted.
pub proof fn lemma_no_resend_while_known(
    known: Seq<StatementHash>,
    cap: int,
    batch: Seq<(StatementHash, Seq<u8>)>,
)
    requires
        batch.len() > 0,
        peer_send(known, cap, batch.drop_last()).1.contains(batch.last().0),
    ensures
        peer_send(known, cap, batch).0 == peer_send(known, cap, batch.drop_last()).0,
{
}

/// Light peers receive no outbound notifications: every send of a
/// propagation pass is addressed to a peer whose role is not `Light`.
pub proof fn lemma_no_light_sends(
    peers: Seq<(PeerId, PeerView)>,
    batch: Seq<(StatementHash, Seq<u8>)>,
)
    ensures
        forall|k: int|
            0 <= k < propagate_spec(peers, batch).1.len() ==> exists|j: int|
                0 <= j < peers.len() && peers[j].0 == (#[trigger] propagate_spec(
                    peers,
                    batch,
                ).1[k]).0 && peers[j].1.role != Role::Light,
    decreases peers.len(),
{
    if peers.len() > 0 {
        lemma_no_light_sends(peers.drop_last(), batch);
        let sends = propagate_spec(peers, batch).1;
        let prev_sends = propagate_spec(peers.drop_last(), batch).1;
        assert forall|k: int| 0 <= k < sends.len() implies exists|j: int|
            0 <= j < peers.len() && peers[j].0 == (#[trigger] sends[k]).0 && peers[j].1.role
                != Role::Light by {
            if k < prev_sends.len() {
                assert(sends[k] == prev_sends[k]);
                let j = choose|j: int|
                    0 <= j < peers.drop_last().len() && peers.drop_last()[j].0 == prev_sends[k].0
                        && peers.drop_last()[j].1.role != Role::Light;
                assert(peers[j] == peers.drop_last()[j]);
                assert(0 <= j < peers.len() && peers[j].0 == sends[k].0 && peers[j].1.role
                    != Role::Light);
            } else {
                let j = peers.len() - 1;
                assert(0 <= j < peers.len() && peers[j].0 == sends[k].0 && peers[j].1.role
                    != Role::Light);
            }
        }
    }
}

/// Repeating a single-statement propagation with no new peers causes zero
/// new sends: after one pass over `[(h, st)]`, every non-light peer knows
/// `h`, so a second pass over the same hash selects nothing, changes no
/// peer state and counts zero statements.
pub proof fn lemma_propagate_one_idempotent(
    peers: Seq<(PeerId, PeerView)>,
    h: StatementHash,
    st: Seq<u8>,
    st2: Seq<u8>,
)
    ensures
        propagate_spec(propagate_spec(peers, seq![(h, st)]).0, seq![(h, st2)]).0
            == propagate_spec(peers, seq![(h, st)]).0,
        propagate_spec(propagate_spec(peers, seq![(h, st)]).0, seq![(h, st2)]).1 == Seq::<
            (PeerId, Seq<u8>),
        >::empty(),
        propagate_spec(propagate_spec(peers, seq![(h, st)]).0, seq![(h, st2)]).2 == 0,
    decreases peers.len(),
{
    let b1 = seq![(h, st)];
    let b2 = seq![(h, st2)];
    assert(b1.drop_last() =~= Seq::<(StatementHash, Seq<u8>)>::empty());
    assert(b2.drop_last() =~= Seq::<(StatementHash, Seq<u8>)>::empty());
    if peers.len() == 0 {
        assert(propagate_spec(peers, b1).0 =~= peers);
        assert(propagate_spec(peers, b1).0.len() == 0);
    } else {
        lemma_propagate_one_idempotent(peers.drop_last(), h, st, st2);
        let prev_once = propagate_spec(peers.drop_last(), b1).0;
        let once = propagate_spec(peers, b1).0;
        let pv = peers.last().1;
        let who = peers.last().0;
        let cap = pv.known_capacity as int;
        assert(b1.last() == (h, st));
        assert(b2.last() == (h, st2));
        if pv.role == Role::Light {
            assert(once == prev_once.push(peers.last()));
        } else {
            let kn1 = lru_insert(pv.known, h, cap);
            assert(peer_send(pv.known, cap, b1.drop_last()) == (
                Seq::<(StatementHash, Seq<u8>)>::empty(),
                pv.known,
            ));
            assert(peer_send(pv.known, cap, b1).1 == kn1);
            lemma_lru_insert_contains(pv.known, h, cap);
            assert(kn1.contains(h));
        }
        assert(once.drop_last() =~= prev_once);
        assert(once.last().1.role == pv.role);
        if pv.role != Role::Light {
            let kn1 = lru_insert(pv.known, h, cap);
            assert(once.last().1.known == kn1);
            assert(once.last().1.known_capacity == pv.known_capacity);
            assert(peer_send(kn1, cap, b2.drop_last()) == (
                Seq::<(StatementHash, Seq<u8>)>::empty(),
                kn1,
            ));
            assert(peer_send(kn1, cap, b2).0 =~= Seq::<(StatementHash, Seq<u8>)>::empty());
            assert(lru_insert(kn1, h, cap) == kn1);
            assert(propagate_spec(once, b2).0 =~= propagate_spec(prev_once, b2).0.push(
                once.last(),
            ));
        }
        assert(propagate_spec(once, b2).0 =~= once);
    }
}

/// What the reserved-set change for a sync event must be: connections the
/// sync service reports are mirrored into this protocol's reserved set,
/// disconnections are removed from it.
pub open spec fn sync_action_for(event: SyncEvent, a: ReservedSetAction) -> bool {
    match event {
        SyncEvent::InitialPeers(ps) => a matches ReservedSetAction::AddReserved(v) && v == ps,
        SyncEvent::PeerConnected(p) => a matches ReservedSetAction::AddReserved(v) && v@ == seq![p],
        SyncEvent::PeerDisconnected(p) => a matches ReservedSetAction::RemoveReserved(v) && v@
            == seq![p],
    }
}

/// Decide the reserved-set change for a sync event.
pub fn handle_sync_event(event: SyncEvent) -> (a: ReservedSetAction)
    ensures
        sync_action_for(event, a),
{
    match event {
        SyncEvent::InitialPeers(ps) => ReservedSetAction::AddReserved(ps),
        SyncEvent::PeerConnected(p) => {
            let mut v: Vec<PeerId> = Vec::new();
            v.push(p);
            ReservedSetAction::AddReserved(v)
        },
        SyncEvent::PeerDisconnected(p) => {
            let mut v: Vec<PeerId> = Vec::new();
            v.push(p);
            ReservedSetAction::RemoveReserved(v)
        },
    }
}

} // verus!
