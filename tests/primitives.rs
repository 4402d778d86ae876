use fts::{
    backoff_delay, chunk_count_of, combine, digest, round_trip, split_chunks, window_allows,
    FailureKind, Manifest,
};

#[test]
fn digest_of_empty_is_offset_basis() {
    assert_eq!(digest(&[]), 0xcbf2_9ce4_8422_2325);
}

#[test]
fn digest_matches_known_values() {
    assert_eq!(digest(b"a"), 0xaf63_dc4c_8601_ec8c);
    assert_eq!(digest(b"foobar"), 0x8594_4171_f739_67e8);
}

#[test]
fn combine_of_no_digests_is_offset_basis() {
    assert_eq!(combine(&[]), 0xcbf2_9ce4_8422_2325);
    assert_ne!(combine(&[1, 2]), combine(&[2, 1]));
}

#[test]
fn chunk_count_rounds_up() {
    assert_eq!(chunk_count_of(10, 4), 3);
    assert_eq!(chunk_count_of(8, 4), 2);
    assert_eq!(chunk_count_of(0, 4), 0);
    assert_eq!(chunk_count_of(1, 4), 1);
    assert_eq!(chunk_count_of(usize::MAX, 1), usize::MAX);
    assert_eq!(chunk_count_of(usize::MAX, 2), usize::MAX / 2 + 1);
}

#[test]
fn split_chunks_sizes() {
    let content: Vec<u8> = (0u8..10).collect();
    let chunks = split_chunks(&content, 4);
    assert_eq!(chunks, vec![vec![0, 1, 2, 3], vec![4, 5, 6, 7], vec![8, 9]]);
    assert!(split_chunks(&[], 4).is_empty());
}

#[test]
fn round_trip_reconstructs_content() {
    let content: Vec<u8> = (0u8..=255).cycle().take(1000).collect();
    for cs in [1usize, 3, 7, 64, 1000, 5000] {
        assert_eq!(round_trip(&content, cs), content);
    }
    assert_eq!(round_trip(&[], 3), Vec::<u8>::new());
}

#[test]
fn manifest_from_content() {
    let content = b"hello world".to_vec();
    let m = Manifest::from_content("greeting.txt".to_string(), &content, 4).unwrap();
    assert_eq!(m.size, 11);
    assert_eq!(m.chunk_size, 4);
    assert_eq!(m.hashes, vec![digest(b"hell"), digest(b"o wo"), digest(b"rld")]);
    assert_eq!(m.done, vec![false, false, false]);
    assert!(!m.is_complete());
    assert_eq!(m.file_digest(), combine(&m.hashes));
    assert_eq!(m.chunk_total(), 3);
}

#[test]
fn manifest_rejects_zero_chunk_size() {
    let r = Manifest::from_content("x".to_string(), b"abc", 0);
    assert!(matches!(r, Err(FailureKind::ProtocolViolation)));
}

#[test]
fn backoff_doubles_up_to_cap() {
    assert_eq!(backoff_delay(100, 1000, 0), 100);
    assert_eq!(backoff_delay(100, 1000, 1), 100);
    assert_eq!(backoff_delay(100, 1000, 2), 200);
    assert_eq!(backoff_delay(100, 1000, 3), 400);
    assert_eq!(backoff_delay(100, 1000, 4), 800);
    assert_eq!(backoff_delay(100, 1000, 5), 1000);
    assert_eq!(backoff_delay(100, 1000, 60), 1000);
    assert_eq!(backoff_delay(5000, 1000, 1), 1000);
    assert_eq!(backoff_delay(u64::MAX, u64::MAX, 3), u64::MAX);
}

#[test]
fn window_bounds_in_flight_chunks() {
    assert!(window_allows(0, 4));
    assert!(window_allows(3, 4));
    assert!(!window_allows(4, 4));
    assert!(!window_allows(0, 0));
}

#[test]
fn failure_kinds_resumable_and_transient() {
    assert!(FailureKind::Cancelled.is_resumable());
    assert!(FailureKind::IntegrityMismatch.is_resumable());
    assert!(FailureKind::NetworkError.is_resumable());
    assert!(!FailureKind::TrustViolation.is_resumable());
    assert!(!FailureKind::ProtocolViolation.is_resumable());
    assert!(FailureKind::Timeout.is_transient());
    assert!(FailureKind::NetworkError.is_transient());
    assert!(!FailureKind::Cancelled.is_transient());
    assert!(FailureKind::StorageFull.is_resumable());
    assert!(!FailureKind::StorageFull.is_transient());
}

#[test]
fn send_window_bounds_chunks_in_flight() {
    let mut w = fts::SendWindow::new(2, 1);
    assert!(w.try_send());
    assert!(w.try_send());
    assert!(!w.try_send());
    assert_eq!(w.in_flight, 2);
    w.acknowledge();
    assert!(w.try_send());
    assert_eq!(w.timed_out(), Ok(()));
    assert_eq!(w.timed_out(), Err(FailureKind::Timeout));
    w.acknowledge();
    assert_eq!(w.timeouts, 0);
    assert_eq!(w.in_flight, 1);
}

#[test]
fn manifest_of_positive_chunk_size_always_succeeds() {
    for cs in [1usize, 2, 100] {
        assert!(Manifest::from_content("e".to_string(), &[], cs).is_ok());
        assert!(Manifest::from_content("x".to_string(), b"xyz", cs).is_ok());
    }
}
