use fts::{
    digest, split_chunks, Admission, ChunkOutcome, DrainStep, FailureKind, FirstContact,
    Lifecycle, Manifest, ResumeCache, Role, ServerHandle, Session, SessionConfig,
    SessionOutcome, SessionState, TrustStore,
};

fn config() -> SessionConfig {
    SessionConfig {
        max_attempts: 3,
        backoff_base: 10,
        backoff_cap: 100,
        max_chunk_retries: 2,
        max_chunk_size: 1024,
        window: 4,
        policy: FirstContact::AutoAccept,
    }
}

fn content(n: usize, seed: u8) -> Vec<u8> {
    (0..n).map(|i| (i as u8).wrapping_mul(31).wrapping_add(seed)).collect()
}

fn negotiating(id: u64, store: &mut TrustStore) -> Session {
    let mut s = Session::new(id, Role::Responder, "sender.example".to_string(), config());
    s.start();
    assert_eq!(s.state, SessionState::Connecting);
    assert_eq!(s.connect_result(true), None);
    assert_eq!(s.state, SessionState::Handshaking);
    s.handshake(77);
    assert_eq!(s.state, SessionState::TrustCheck);
    assert_eq!(s.trust_check(store, 1), Ok(()));
    assert_eq!(s.state, SessionState::Negotiating);
    s
}

fn receive_all(s: &mut Session, data: &[u8], cache: &mut ResumeCache) -> usize {
    let chunks = split_chunks(data, s.manifest.as_ref().unwrap().chunk_size);
    let mut sent = 0;
    while let Some(i) = s.next_pending() {
        assert_eq!(s.receive_chunk(i, &chunks[i], cache), ChunkOutcome::Stored);
        sent += 1;
    }
    sent
}

#[test]
fn send_then_receive_round_trip() {
    let data = content(1000, 3);
    let mut store = TrustStore::new();
    let mut cache = ResumeCache::new(1 << 20);
    let mut s = negotiating(1, &mut store);
    let proposal = Manifest::from_content("f.bin".to_string(), &data, 64).unwrap();
    assert_eq!(s.negotiate(proposal, &mut cache), Ok(()));
    assert_eq!(s.state, SessionState::Transferring);
    assert_eq!(receive_all(&mut s, &data, &mut cache), 16);
    assert_eq!(s.state, SessionState::Verifying);
    let out = s.verify_file(&mut cache).unwrap();
    assert_eq!(out, data);
    assert_eq!(digest(&out), digest(&data));
    s.complete(&mut cache);
    assert_eq!(s.state, SessionState::Closed);
    assert_eq!(s.outcome(), Some(SessionOutcome::Completed(1000)));
    assert!(s.is_finished());
}

#[test]
fn interrupted_transfer_resumes_with_remaining_chunks() {
    let data = content(40, 9);
    let mut store = TrustStore::new();
    let mut cache = ResumeCache::new(1 << 20);
    let chunks = split_chunks(&data, 10);
    let mut first = negotiating(1, &mut store);
    first
        .negotiate(Manifest::from_content("f".to_string(), &data, 10).unwrap(), &mut cache)
        .unwrap();
    assert_eq!(first.receive_chunk(0, &chunks[0], &mut cache), ChunkOutcome::Stored);
    assert_eq!(first.receive_chunk(1, &chunks[1], &mut cache), ChunkOutcome::Stored);
    first.cancel(&mut cache);
    assert_eq!(
        first.outcome(),
        Some(SessionOutcome::Failed(FailureKind::Cancelled, true))
    );
    assert_eq!(first.manifest.as_ref().unwrap().done, vec![true, true, false, false]);

    let mut second = negotiating(2, &mut store);
    second
        .negotiate(Manifest::from_content("f".to_string(), &data, 10).unwrap(), &mut cache)
        .unwrap();
    assert_eq!(second.pending_indices(), vec![2, 3]);
    assert_eq!(receive_all(&mut second, &data, &mut cache), 2);
    assert_eq!(second.verify_file(&mut cache).unwrap(), data);
    second.complete(&mut cache);
    assert_eq!(second.outcome(), Some(SessionOutcome::Completed(40)));
}

#[test]
fn trust_violation_on_changed_certificate() {
    let mut store = TrustStore::new();
    let _ = negotiating(1, &mut store);
    let mut s = Session::new(2, Role::Initiator, "sender.example".to_string(), config());
    s.start();
    s.connect_result(true);
    s.handshake(78);
    assert_eq!(s.trust_check(&mut store, 2), Err(FailureKind::TrustViolation));
    assert_eq!(s.state, SessionState::Failed(FailureKind::TrustViolation));
    assert_eq!(
        s.outcome(),
        Some(SessionOutcome::Failed(FailureKind::TrustViolation, false))
    );
}

#[test]
fn connection_retries_then_network_error() {
    let mut s = Session::new(1, Role::Initiator, "p".to_string(), config());
    s.start();
    assert_eq!(s.connect_result(false), Some(10));
    assert_eq!(s.connect_result(false), Some(20));
    assert_eq!(s.state, SessionState::Connecting);
    assert_eq!(s.connect_result(false), None);
    assert_eq!(s.state, SessionState::Failed(FailureKind::NetworkError));
}

#[test]
fn oversized_chunk_proposal_is_protocol_violation() {
    let mut store = TrustStore::new();
    let mut cache = ResumeCache::new(100);
    let mut s = negotiating(1, &mut store);
    let m = Manifest::from_content("f".to_string(), &content(5000, 1), 2048).unwrap();
    assert_eq!(s.negotiate(m, &mut cache), Err(FailureKind::ProtocolViolation));
    assert_eq!(s.state, SessionState::Failed(FailureKind::ProtocolViolation));
}

#[test]
fn inconsistent_manifest_is_protocol_violation() {
    let mut store = TrustStore::new();
    let mut cache = ResumeCache::new(100);
    let mut s = negotiating(1, &mut store);
    let mut m = Manifest::from_content("f".to_string(), &content(50, 1), 10).unwrap();
    m.hashes.pop();
    assert_eq!(s.negotiate(m, &mut cache), Err(FailureKind::ProtocolViolation));
}

#[test]
fn out_of_order_chunk_is_protocol_violation() {
    let data = content(30, 2);
    let mut store = TrustStore::new();
    let mut cache = ResumeCache::new(1000);
    let chunks = split_chunks(&data, 10);
    let mut s = negotiating(1, &mut store);
    s.negotiate(Manifest::from_content("f".to_string(), &data, 10).unwrap(), &mut cache)
        .unwrap();
    assert_eq!(
        s.receive_chunk(1, &chunks[1], &mut cache),
        ChunkOutcome::Failed(FailureKind::ProtocolViolation)
    );
    assert_eq!(s.state, SessionState::Failed(FailureKind::ProtocolViolation));
}

#[test]
fn corrupted_chunk_is_resent_then_fails() {
    let data = content(30, 2);
    let mut store = TrustStore::new();
    let mut cache = ResumeCache::new(1000);
    let chunks = split_chunks(&data, 10);
    let mut s = negotiating(1, &mut store);
    s.negotiate(Manifest::from_content("f".to_string(), &data, 10).unwrap(), &mut cache)
        .unwrap();
    let mut bad = chunks[0].clone();
    bad[0] ^= 0xff;
    assert_eq!(s.receive_chunk(0, &bad, &mut cache), ChunkOutcome::Resend);
    assert_eq!(s.receive_chunk(0, &bad, &mut cache), ChunkOutcome::Resend);
    assert_eq!(s.retries[0], 2);
    assert_eq!(
        s.receive_chunk(0, &bad, &mut cache),
        ChunkOutcome::Failed(FailureKind::IntegrityMismatch)
    );
    assert!(!cache.has(digest(&bad)));
    assert_eq!(
        s.outcome(),
        Some(SessionOutcome::Failed(FailureKind::IntegrityMismatch, true))
    );
}

#[test]
fn corrupted_chunk_then_good_one_is_stored() {
    let data = content(30, 2);
    let mut store = TrustStore::new();
    let mut cache = ResumeCache::new(1000);
    let chunks = split_chunks(&data, 10);
    let mut s = negotiating(1, &mut store);
    s.negotiate(Manifest::from_content("f".to_string(), &data, 10).unwrap(), &mut cache)
        .unwrap();
    let mut bad = chunks[0].clone();
    bad[3] ^= 1;
    assert_eq!(s.receive_chunk(0, &bad, &mut cache), ChunkOutcome::Resend);
    assert_eq!(s.receive_chunk(0, &chunks[0], &mut cache), ChunkOutcome::Stored);
    assert_eq!(s.next_pending(), Some(1));
}

#[test]
fn verify_fails_when_chunks_were_evicted() {
    let data = content(20, 4);
    let mut store = TrustStore::new();
    let mut cache = ResumeCache::new(0);
    let mut s = negotiating(1, &mut store);
    s.negotiate(Manifest::from_content("f".to_string(), &data, 10).unwrap(), &mut cache)
        .unwrap();
    receive_all(&mut s, &data, &mut cache);
    let h0 = s.manifest.as_ref().unwrap().hashes[0];
    cache.release(h0).unwrap();
    cache.evict();
    assert!(s.verify_file(&mut cache).is_none());
    assert_eq!(s.state, SessionState::Failed(FailureKind::IntegrityMismatch));
}

#[test]
fn shared_chunks_are_stored_once_and_counted_twice() {
    let shared = content(10, 5);
    let mut a = shared.clone();
    a.extend(content(10, 6));
    let mut b = shared.clone();
    b.extend(content(10, 7));
    let mut store = TrustStore::new();
    let mut cache = ResumeCache::new(0);
    let mut sa = negotiating(1, &mut store);
    sa.negotiate(Manifest::from_content("a".to_string(), &a, 10).unwrap(), &mut cache)
        .unwrap();
    receive_all(&mut sa, &a, &mut cache);
    let mut sb = negotiating(2, &mut store);
    sb.negotiate(Manifest::from_content("b".to_string(), &b, 10).unwrap(), &mut cache)
        .unwrap();
    assert_eq!(sb.pending_indices(), vec![1]);
    receive_all(&mut sb, &b, &mut cache);
    assert_eq!(cache.entry_count(), 3);
    assert_eq!(cache.stored_bytes(), 30);
    sa.complete(&mut cache);
    cache.evict();
    assert!(cache.has(digest(&shared)));
    assert!(!cache.has(digest(&a[10..])));
    sb.complete(&mut cache);
    cache.evict();
    assert_eq!(cache.entry_count(), 0);
}

#[test]
fn concurrent_sessions_stay_isolated() {
    let files: Vec<Vec<u8>> = (0..3).map(|k| content(95, 40 + k as u8)).collect();
    let mut store = TrustStore::new();
    let mut cache = ResumeCache::new(1 << 20);
    let mut sessions: Vec<Session> = (0..3).map(|k| negotiating(k, &mut store)).collect();
    for (s, f) in sessions.iter_mut().zip(files.iter()) {
        s.negotiate(Manifest::from_content("f".to_string(), f, 10).unwrap(), &mut cache)
            .unwrap();
    }
    let chunked: Vec<Vec<Vec<u8>>> = files.iter().map(|f| split_chunks(f, 10)).collect();
    for round in 0..10 {
        for k in 0..3 {
            let s = &mut sessions[k];
            assert_eq!(s.next_pending(), Some(round));
            assert_eq!(s.receive_chunk(round, &chunked[k][round], &mut cache), ChunkOutcome::Stored);
        }
    }
    for k in 0..3 {
        assert_eq!(sessions[k].verify_file(&mut cache).unwrap(), files[k]);
        sessions[k].complete(&mut cache);
        assert_eq!(sessions[k].outcome(), Some(SessionOutcome::Completed(95)));
    }
}

#[test]
fn server_admission_control() {
    let mut srv = ServerHandle::open("0.0.0.0:9000".to_string(), 2, 1);
    assert_eq!(srv.state(), Lifecycle::Listening);
    assert_eq!(srv.endpoint(), "0.0.0.0:9000");
    assert_eq!(srv.accept(1), Admission::Started);
    assert_eq!(srv.accept(1), Admission::Rejected);
    assert_eq!(srv.accept(2), Admission::Started);
    assert_eq!(srv.accept(3), Admission::Queued);
    assert_eq!(srv.accept(4), Admission::Rejected);
    assert_eq!(srv.finished(1), Some(3));
    assert_eq!(srv.active_ids(), vec![2, 3]);
    assert!(srv.queued_ids().is_empty());
    assert_eq!(srv.finished(9), None);
}

#[test]
fn graceful_drain_waits_for_sessions() {
    let mut srv = ServerHandle::open("e".to_string(), 1, 2);
    srv.accept(1);
    srv.accept(2);
    assert_eq!(srv.close(), vec![2]);
    assert_eq!(srv.state(), Lifecycle::Draining);
    assert_eq!(srv.accept(5), Admission::Rejected);
    assert_eq!(srv.drain_tick(10, 100), DrainStep::Waiting);
    assert_eq!(srv.finished(1), None);
    assert_eq!(srv.state(), Lifecycle::Stopped);
    assert_eq!(srv.drain_tick(20, 100), DrainStep::Drained);
}

#[test]
fn close_without_sessions_stops_at_once() {
    let mut srv = ServerHandle::open("e".to_string(), 1, 1);
    assert!(srv.close().is_empty());
    assert_eq!(srv.state(), Lifecycle::Stopped);
    assert!(srv.close().is_empty());
}

#[test]
fn drain_timeout_forces_resumable_failures() {
    let data = content(30, 8);
    let mut store = TrustStore::new();
    let mut cache = ResumeCache::new(1000);
    let mut srv = ServerHandle::open("e".to_string(), 4, 0);
    let mut s = negotiating(7, &mut store);
    assert_eq!(srv.accept(7), Admission::Started);
    s.negotiate(Manifest::from_content("f".to_string(), &data, 10).unwrap(), &mut cache)
        .unwrap();
    let chunks = split_chunks(&data, 10);
    s.receive_chunk(0, &chunks[0], &mut cache);
    srv.close();
    assert_eq!(srv.drain_tick(99, 100), DrainStep::Waiting);
    assert_eq!(srv.drain_tick(100, 100), DrainStep::Forced(vec![7]));
    assert_eq!(srv.state(), Lifecycle::Stopped);
    s.cancel(&mut cache);
    assert_eq!(s.outcome(), Some(SessionOutcome::Failed(FailureKind::Cancelled, true)));
    assert!(cache.has(digest(&chunks[0])));
    assert_eq!(s.manifest.as_ref().unwrap().done, vec![true, false, false]);
}

#[test]
fn resumed_run_sends_only_missing_chunks() {
    let data = content(50, 12);
    let mut store = TrustStore::new();
    let mut cache = ResumeCache::new(1 << 20);
    let chunks = split_chunks(&data, 10);
    let mut first = negotiating(1, &mut store);
    first
        .negotiate(Manifest::from_content("f".to_string(), &data, 10).unwrap(), &mut cache)
        .unwrap();
    first.receive_chunk(0, &chunks[0], &mut cache);
    first.receive_chunk(1, &chunks[1], &mut cache);
    first.receive_chunk(2, &chunks[2], &mut cache);
    first.cancel(&mut cache);
    let mut second = negotiating(2, &mut store);
    second
        .negotiate(Manifest::from_content("f".to_string(), &data, 10).unwrap(), &mut cache)
        .unwrap();
    let sent = second.receive_pending(&chunks, &mut cache);
    assert_eq!(sent, vec![3, 4]);
    assert_eq!(second.state, SessionState::Verifying);
    assert_eq!(second.verify_file(&mut cache).unwrap(), data);
    second.complete(&mut cache);
    assert_eq!(second.outcome(), Some(SessionOutcome::Completed(50)));
}

#[test]
fn fully_cached_file_goes_straight_to_verifying() {
    let data = content(25, 13);
    let mut store = TrustStore::new();
    let mut cache = ResumeCache::new(1 << 20);
    let mut first = negotiating(1, &mut store);
    first
        .negotiate(Manifest::from_content("f".to_string(), &data, 10).unwrap(), &mut cache)
        .unwrap();
    let chunks = split_chunks(&data, 10);
    assert_eq!(first.receive_pending(&chunks, &mut cache), vec![0, 1, 2]);
    first.verify_file(&mut cache).unwrap();
    first.complete(&mut cache);
    let mut second = negotiating(2, &mut store);
    second
        .negotiate(Manifest::from_content("f".to_string(), &data, 10).unwrap(), &mut cache)
        .unwrap();
    assert_eq!(second.state, SessionState::Verifying);
    assert!(second.pending_indices().is_empty());
    assert_eq!(second.verify_file(&mut cache).unwrap(), data);
}

#[test]
fn empty_file_round_trip() {
    let mut store = TrustStore::new();
    let mut cache = ResumeCache::new(16);
    let mut s = negotiating(1, &mut store);
    let m = Manifest::from_content("empty".to_string(), &[], 8).unwrap();
    assert!(m.hashes.is_empty());
    s.negotiate(m, &mut cache).unwrap();
    assert_eq!(s.state, SessionState::Verifying);
    assert_eq!(s.verify_file(&mut cache).unwrap(), Vec::<u8>::new());
    s.complete(&mut cache);
    assert_eq!(s.outcome(), Some(SessionOutcome::Completed(0)));
}

#[test]
fn receive_pending_stops_on_bad_chunk() {
    let data = content(30, 14);
    let mut store = TrustStore::new();
    let mut cache = ResumeCache::new(1000);
    let mut chunks = split_chunks(&data, 10);
    chunks[1][0] ^= 0x55;
    let mut s = negotiating(1, &mut store);
    s.negotiate(Manifest::from_content("f".to_string(), &data, 10).unwrap(), &mut cache)
        .unwrap();
    assert_eq!(s.receive_pending(&chunks, &mut cache), vec![0]);
    assert_eq!(s.state, SessionState::Failed(FailureKind::IntegrityMismatch));
}

#[test]
fn repeated_chunk_takes_one_reference_per_manifest() {
    let block = content(10, 21);
    let mut twice = block.clone();
    twice.extend(block.clone());
    let h = digest(&block);
    let mut store = TrustStore::new();
    let mut cache = ResumeCache::new(0);
    let mut sa = negotiating(1, &mut store);
    sa.negotiate(Manifest::from_content("a".to_string(), &twice, 10).unwrap(), &mut cache)
        .unwrap();
    let chunks = split_chunks(&twice, 10);
    assert_eq!(sa.receive_pending(&chunks, &mut cache), vec![0, 1]);
    let mut sb = negotiating(2, &mut store);
    sb.negotiate(Manifest::from_content("b".to_string(), &block, 10).unwrap(), &mut cache)
        .unwrap();
    assert_eq!(sb.state, SessionState::Verifying);
    assert_eq!(cache.entry_count(), 1);
    sa.verify_file(&mut cache).unwrap();
    sa.complete(&mut cache);
    cache.evict();
    assert!(cache.has(h));
    sb.verify_file(&mut cache).unwrap();
    sb.complete(&mut cache);
    assert_eq!(cache.release(h), Err(fts::CacheError::NotReferenced));
    cache.evict();
    assert!(!cache.has(h));
}

#[test]
fn send_window_from_session_config() {
    let w = fts::SendWindow::from_config(&config(), 3);
    assert_eq!(w.window, 4);
    assert_eq!(w.in_flight, 0);
    assert_eq!(w.max_timeouts, 3);
}
