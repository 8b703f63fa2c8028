use statement_gossip::engine::{
    handle_sync_event, NotificationEvent, ReservedSetAction, StatementHandler, SyncEvent,
};
use statement_gossip::hashing::statement_hash;
use statement_gossip::codec::encode_statements;
use statement_gossip::types::{NetworkPriority, Report, Role, SubmitResult, ValidationResult};

fn engine() -> StatementHandler {
    StatementHandler::new(1024, 8192, 100000)
}

#[test]
fn peer_count_tracks_open_and_close() {
    let mut e = engine();
    assert_eq!(e.peer_count(), 0);
    e.on_stream_opened(1, Some(Role::Full));
    e.on_stream_opened(2, Some(Role::Authority));
    assert_eq!(e.peer_count(), 2);
    assert!(e.on_stream_closed(1));
    assert_eq!(e.peer_count(), 1);
    assert!(!e.on_stream_closed(7));
    assert_eq!(e.peer_count(), 1);
}

#[test]
fn open_with_unknown_role_records_nothing() {
    let mut e = engine();
    e.on_stream_opened(1, None);
    assert_eq!(e.peer_count(), 0);
}

#[test]
fn validate_substream_requires_known_role() {
    let mut e = engine();
    let out = e.handle_notification_event(
        NotificationEvent::ValidateInboundSubstream { peer: 9, role: Some(Role::Light) },
        false,
    );
    let reply = out.validation.unwrap();
    assert_eq!(reply.peer, 9);
    assert_eq!(reply.result, ValidationResult::Accept);
    let out = e.handle_notification_event(
        NotificationEvent::ValidateInboundSubstream { peer: 9, role: None },
        false,
    );
    assert_eq!(out.validation.unwrap().result, ValidationResult::Reject);
}

#[test]
fn single_peer_new_statement_settles_plus_240() {
    let mut e = engine();
    e.on_stream_opened(1, Some(Role::Full));
    let s: Vec<u8> = vec![1, 2, 3];
    let h = statement_hash(&s);
    let payload = encode_statements(&vec![s.clone()]);
    let out = e.handle_notification_event(
        NotificationEvent::NotificationReceived { peer: 1, notification: payload },
        false,
    );
    assert_eq!(out.reports, vec![Report { peer: 1, change: -16 }]);
    assert_eq!(e.in_flight_count(), 1);
    let item = e.next_verification().unwrap();
    assert_eq!(item.hash, h);
    assert_eq!(item.statement, s);
    let done = e.on_verification_complete(h, Some(SubmitResult::New(NetworkPriority::High)));
    assert!(done.known_hash);
    assert_eq!(done.reports, vec![Report { peer: 1, change: 256 }]);
    let total: i32 = -16 + 256;
    assert_eq!(total, 240);
    assert_eq!(e.in_flight_count(), 0);
    assert!(e.peer_knows(1, h));
    // The next propagation pass does not resend the statement to this peer.
    let out = e.propagate_statements(&vec![(h, s)], false);
    assert_eq!(out.sends.len(), 0);
    assert_eq!(out.propagated, 0);
}

#[test]
fn two_peers_same_statement_single_verification() {
    let mut e = engine();
    e.on_stream_opened(1, Some(Role::Full));
    e.on_stream_opened(2, Some(Role::Full));
    let s: Vec<u8> = vec![7, 7, 7];
    let h = statement_hash(&s);
    let r1 = e.on_statements(1, vec![s.clone()]);
    assert_eq!(r1, vec![Report { peer: 1, change: -16 }]);
    let r2 = e.on_statements(2, vec![s.clone()]);
    assert_eq!(r2, vec![Report { peer: 2, change: -16 }]);
    // Only one verification was submitted.
    assert_eq!(e.in_flight_count(), 1);
    assert!(e.next_verification().is_some());
    assert!(e.next_verification().is_none());
    let done = e.on_verification_complete(h, Some(SubmitResult::Known));
    assert_eq!(
        done.reports,
        vec![Report { peer: 1, change: 16 }, Report { peer: 2, change: 16 }]
    );
}

#[test]
fn same_peer_duplicate_is_punished_once_verified_once() {
    let mut e = engine();
    e.on_stream_opened(1, Some(Role::Full));
    let s: Vec<u8> = vec![9];
    let r1 = e.on_statements(1, vec![s.clone()]);
    assert_eq!(r1, vec![Report { peer: 1, change: -16 }]);
    let r2 = e.on_statements(1, vec![s.clone()]);
    assert_eq!(
        r2,
        vec![Report { peer: 1, change: -16 }, Report { peer: 1, change: -128 }]
    );
    assert_eq!(e.in_flight_count(), 1);
}

#[test]
fn bad_statement_debits_4112() {
    let mut e = engine();
    e.on_stream_opened(1, Some(Role::Full));
    let s: Vec<u8> = vec![4, 4];
    let h = statement_hash(&s);
    let r1 = e.on_statements(1, vec![s]);
    assert_eq!(r1, vec![Report { peer: 1, change: -16 }]);
    let done = e.on_verification_complete(h, Some(SubmitResult::Bad));
    assert_eq!(done.reports, vec![Report { peer: 1, change: -4096 }]);
    let total: i32 = -16 + -4096;
    assert_eq!(total, -4112);
    // The statement is not in the store, so nothing is propagated.
    let out = e.propagate_statement(h, None, false);
    assert_eq!(out.sends.len(), 0);
}

#[test]
fn major_syncing_suppresses_inbound_and_outbound() {
    let mut e = engine();
    e.on_stream_opened(1, Some(Role::Full));
    let s: Vec<u8> = vec![5];
    let h = statement_hash(&s);
    let payload = encode_statements(&vec![s.clone()]);
    let out = e.handle_notification_event(
        NotificationEvent::NotificationReceived { peer: 1, notification: payload.clone() },
        true,
    );
    assert_eq!(out.reports.len(), 0);
    assert_eq!(e.in_flight_count(), 0);
    assert!(e.next_verification().is_none());
    let out = e.propagate_statements(&vec![(h, s.clone())], true);
    assert_eq!(out.sends.len(), 0);
    assert_eq!(out.propagated, 0);
    // After syncing flips off, the same payload proceeds normally.
    let out = e.handle_notification_event(
        NotificationEvent::NotificationReceived { peer: 1, notification: payload },
        false,
    );
    assert_eq!(out.reports, vec![Report { peer: 1, change: -16 }]);
    assert_eq!(e.in_flight_count(), 1);
}

#[test]
fn backpressure_drops_whole_rest_of_batch() {
    let mut e = StatementHandler::new(1024, 1, 100000);
    e.on_stream_opened(1, Some(Role::Full));
    let r1 = e.on_statements(1, vec![vec![1]]);
    assert_eq!(r1.len(), 1);
    assert_eq!(e.in_flight_count(), 1);
    // The cap is reached: a further batch is ignored entirely, with no
    // debits, no pending entry and no queueing.
    let r2 = e.on_statements(1, vec![vec![2], vec![3]]);
    assert_eq!(r2.len(), 0);
    assert_eq!(e.in_flight_count(), 1);
    let h2 = statement_hash(&vec![2]);
    assert!(!e.on_verification_complete(h2, Some(SubmitResult::Known)).known_hash);
}

#[test]
fn statement_past_the_cap_in_one_batch_is_dropped() {
    let mut e = StatementHandler::new(1024, 2, 100000);
    e.on_stream_opened(1, Some(Role::Full));
    // With a cap of two, the third statement of one batch is dropped: only
    // the first two are debited and enqueued.
    let r = e.on_statements(1, vec![vec![1], vec![2], vec![3]]);
    assert_eq!(r.len(), 2);
    assert_eq!(e.in_flight_count(), 2);
    let h3 = statement_hash(&vec![3]);
    assert!(!e.on_verification_complete(h3, Some(SubmitResult::Known)).known_hash);
}

#[test]
fn full_queue_drops_statement_without_pending_entry() {
    let mut e = StatementHandler::new(1024, 8192, 1);
    e.on_stream_opened(1, Some(Role::Full));
    let r = e.on_statements(1, vec![vec![1], vec![2]]);
    // Both statements pay the debit; the second finds the queue full and is
    // dropped without a pending entry (the debit is not refunded).
    assert_eq!(
        r,
        vec![Report { peer: 1, change: -16 }, Report { peer: 1, change: -16 }]
    );
    assert_eq!(e.in_flight_count(), 1);
    let h2 = statement_hash(&vec![2]);
    assert!(!e.on_verification_complete(h2, Some(SubmitResult::Known)).known_hash);
}

#[test]
fn dropped_completion_releases_entry_without_reports() {
    let mut e = engine();
    e.on_stream_opened(1, Some(Role::Full));
    let s: Vec<u8> = vec![8];
    let h = statement_hash(&s);
    e.on_statements(1, vec![s]);
    assert_eq!(e.in_flight_count(), 1);
    let done = e.on_verification_complete(h, None);
    assert!(done.known_hash);
    assert_eq!(done.reports.len(), 0);
    assert_eq!(e.in_flight_count(), 0);
}

#[test]
fn light_peers_receive_nothing() {
    let mut e = engine();
    e.on_stream_opened(1, Some(Role::Light));
    e.on_stream_opened(2, Some(Role::Full));
    let s: Vec<u8> = vec![1, 1];
    let h = statement_hash(&s);
    let out = e.propagate_statements(&vec![(h, s.clone())], false);
    assert_eq!(out.sends.len(), 1);
    assert_eq!(out.sends[0].peer, 2);
    assert_eq!(out.sends[0].payload, encode_statements(&vec![s]));
    assert_eq!(out.propagated, 1);
}

#[test]
fn propagate_one_twice_sends_nothing_new() {
    let mut e = engine();
    e.on_stream_opened(1, Some(Role::Full));
    e.on_stream_opened(2, Some(Role::Authority));
    let s: Vec<u8> = vec![3, 3];
    let h = statement_hash(&s);
    let out = e.propagate_statement(h, Some(s.clone()), false);
    assert_eq!(out.sends.len(), 2);
    assert_eq!(out.propagated, 2);
    let out = e.propagate_statement(h, Some(s), false);
    assert_eq!(out.sends.len(), 0);
    assert_eq!(out.propagated, 0);
}

#[test]
fn lru_eviction_makes_hash_resendable() {
    let mut e = StatementHandler::new(2, 8192, 100000);
    e.on_stream_opened(1, Some(Role::Full));
    let a: Vec<u8> = vec![10];
    let b: Vec<u8> = vec![11];
    let c: Vec<u8> = vec![12];
    let ha = statement_hash(&a);
    e.on_statements(1, vec![a.clone()]);
    e.on_statements(1, vec![b]);
    assert!(e.peer_knows(1, ha));
    // The third distinct hash evicts the oldest one.
    e.on_statements(1, vec![c]);
    assert!(!e.peer_knows(1, ha));
    // The evicted hash is re-sendable.
    let out = e.propagate_statement(ha, Some(a), false);
    assert_eq!(out.sends.len(), 1);
    assert_eq!(out.sends[0].peer, 1);
}

#[test]
fn unknown_peer_batch_is_ignored() {
    let mut e = engine();
    let r = e.on_statements(42, vec![vec![1]]);
    assert_eq!(r.len(), 0);
    assert_eq!(e.in_flight_count(), 0);
}

#[test]
fn undecodable_notification_is_dropped_without_punishment() {
    let mut e = engine();
    e.on_stream_opened(1, Some(Role::Full));
    // Mode bits say "two-byte length" but only one byte follows.
    let garbage: Vec<u8> = vec![0x01];
    let out = e.handle_notification_event(
        NotificationEvent::NotificationReceived { peer: 1, notification: garbage },
        false,
    );
    assert_eq!(out.reports.len(), 0);
    assert_eq!(e.in_flight_count(), 0);
}

#[test]
fn sync_events_map_to_reserved_set_changes() {
    match handle_sync_event(SyncEvent::InitialPeers(vec![3, 4, 5])) {
        ReservedSetAction::AddReserved(v) => assert_eq!(v, vec![3, 4, 5]),
        ReservedSetAction::RemoveReserved(_) => panic!("expected an addition"),
    }
    match handle_sync_event(SyncEvent::PeerConnected(8)) {
        ReservedSetAction::AddReserved(v) => assert_eq!(v, vec![8]),
        ReservedSetAction::RemoveReserved(_) => panic!("expected an addition"),
    }
    match handle_sync_event(SyncEvent::PeerDisconnected(8)) {
        ReservedSetAction::RemoveReserved(v) => assert_eq!(v, vec![8]),
        ReservedSetAction::AddReserved(_) => panic!("expected a removal"),
    }
}

#[test]
fn reopening_a_substream_resets_the_record() {
    let mut e = engine();
    e.on_stream_opened(1, Some(Role::Full));
    let s: Vec<u8> = vec![2];
    let h = statement_hash(&s);
    e.on_statements(1, vec![s]);
    assert!(e.peer_knows(1, h));
    // A duplicate open is a transport-contract violation; the engine keeps a
    // single record per peer and starts it fresh.
    e.on_stream_opened(1, Some(Role::Full));
    assert_eq!(e.peer_count(), 1);
    assert!(!e.peer_knows(1, h));
}

#[test]
fn closed_queue_drops_statements_without_pending_entry() {
    let mut e = engine();
    e.on_stream_opened(1, Some(Role::Full));
    e.close_queue();
    let s: Vec<u8> = vec![6];
    let h = statement_hash(&s);
    let r = e.on_statements(1, vec![s]);
    // The debit is still paid, but nothing is queued or tracked.
    assert_eq!(r, vec![Report { peer: 1, change: -16 }]);
    assert_eq!(e.in_flight_count(), 0);
    assert!(e.next_verification().is_none());
    assert!(!e.on_verification_complete(h, Some(SubmitResult::Known)).known_hash);
    // The hash still went into the peer's known set.
    assert!(e.peer_knows(1, h));
}

#[test]
fn statement_hash_is_deterministic_and_content_sensitive() {
    let a: Vec<u8> = vec![1, 2, 3];
    let b: Vec<u8> = vec![1, 2, 4];
    assert_eq!(statement_hash(&a), statement_hash(&a));
    assert_ne!(statement_hash(&a), statement_hash(&b));
}
