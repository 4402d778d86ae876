use fts::{FailureKind, FirstContact, TrustStatus, TrustStore, TrustVerdict};

#[test]
fn first_contact_auto_accept_pins_trusted() {
    let mut store = TrustStore::new();
    let host = "peer.example".to_string();
    assert_eq!(store.check(&host, 7), TrustVerdict::New);
    assert_eq!(store.authorize(&host, 7, 100, FirstContact::AutoAccept), Ok(()));
    let pin = store.lookup(&host).unwrap();
    assert_eq!(pin.fingerprint, 7);
    assert_eq!(pin.first_seen, 100);
    assert_eq!(pin.status, TrustStatus::Trusted);
    assert_eq!(store.check(&host, 7), TrustVerdict::Known);
    assert_eq!(store.len(), 1);
}

#[test]
fn changed_fingerprint_is_refused_under_both_policies() {
    for first in [FirstContact::AutoAccept, FirstContact::RequireApproval] {
        for later in [FirstContact::AutoAccept, FirstContact::RequireApproval] {
            let mut store = TrustStore::new();
            let host = "h".to_string();
            let _ = store.authorize(&host, 1, 10, first);
            assert_eq!(store.check(&host, 2), TrustVerdict::Changed);
            assert_eq!(store.authorize(&host, 2, 20, later), Err(FailureKind::TrustViolation));
            let pin = store.lookup(&host).unwrap();
            assert_eq!(pin.fingerprint, 1);
            assert_eq!(pin.first_seen, 10);
        }
    }
}

#[test]
fn require_approval_pins_pending_until_approved() {
    let mut store = TrustStore::new();
    let host = "h".to_string();
    assert_eq!(
        store.authorize(&host, 5, 1, FirstContact::RequireApproval),
        Err(FailureKind::TrustViolation)
    );
    assert_eq!(store.lookup(&host).unwrap().status, TrustStatus::Pending);
    assert_eq!(store.check(&host, 5), TrustVerdict::New);
    assert_eq!(
        store.authorize(&host, 5, 2, FirstContact::RequireApproval),
        Err(FailureKind::TrustViolation)
    );
    store.approve(&host, 5, 3);
    let pin = store.lookup(&host).unwrap();
    assert_eq!(pin.status, TrustStatus::Trusted);
    assert_eq!(pin.first_seen, 1);
    assert_eq!(store.authorize(&host, 5, 4, FirstContact::RequireApproval), Ok(()));
}

#[test]
fn approve_overrides_changed_fingerprint() {
    let mut store = TrustStore::new();
    let host = "h".to_string();
    store.record(&host, 1, 10, FirstContact::AutoAccept);
    assert_eq!(store.check(&host, 9), TrustVerdict::Changed);
    store.approve(&host, 9, 50);
    assert_eq!(store.check(&host, 9), TrustVerdict::Known);
    assert_eq!(store.check(&host, 1), TrustVerdict::Changed);
    assert_eq!(store.lookup(&host).unwrap().first_seen, 50);
    assert_eq!(store.len(), 1);
}

#[test]
fn record_is_idempotent_and_hosts_are_separate() {
    let mut store = TrustStore::new();
    let a = "a".to_string();
    let b = "b".to_string();
    store.record(&a, 1, 10, FirstContact::AutoAccept);
    store.record(&a, 2, 20, FirstContact::RequireApproval);
    store.record(&b, 3, 30, FirstContact::RequireApproval);
    assert_eq!(store.len(), 2);
    assert_eq!(store.lookup(&a).unwrap().fingerprint, 1);
    assert_eq!(store.lookup(&b).unwrap().status, TrustStatus::Pending);
    assert!(store.lookup(&"c".to_string()).is_none());
}
