use fts::{digest, CacheError, ResumeCache};

#[test]
fn put_checks_the_digest() {
    let mut c = ResumeCache::new(1000);
    assert_eq!(c.put(digest(b"abc") ^ 1, b"abc"), Err(CacheError::HashMismatch));
    assert!(!c.has(digest(b"abc")));
    assert_eq!(c.put(digest(b"abc"), b"abc"), Ok(()));
    assert!(c.has(digest(b"abc")));
    assert_eq!(c.get(digest(b"abc")), Ok(b"abc".to_vec()));
    assert_eq!(c.stored_bytes(), 3);
}

#[test]
fn put_is_idempotent() {
    let mut c = ResumeCache::new(1000);
    let h = digest(b"chunk");
    assert_eq!(c.put(h, b"chunk"), Ok(()));
    assert_eq!(c.put(h, b"chunk"), Ok(()));
    assert_eq!(c.entry_count(), 1);
    assert_eq!(c.stored_bytes(), 5);
}

#[test]
fn get_missing_is_not_found() {
    let c = ResumeCache::new(10);
    assert_eq!(c.get(42), Err(CacheError::NotFound));
}

#[test]
fn reference_counting() {
    let mut c = ResumeCache::new(1000);
    let h = digest(b"x");
    assert_eq!(c.acquire(h), Err(CacheError::NotFound));
    assert_eq!(c.release(h), Err(CacheError::NotFound));
    c.put(h, b"x").unwrap();
    assert_eq!(c.release(h), Err(CacheError::NotReferenced));
    assert_eq!(c.acquire(h), Ok(()));
    assert_eq!(c.acquire(h), Ok(()));
    assert_eq!(c.release(h), Ok(()));
    assert_eq!(c.release(h), Ok(()));
    assert_eq!(c.release(h), Err(CacheError::NotReferenced));
}

#[test]
fn evict_removes_least_recently_used_unreferenced() {
    let mut c = ResumeCache::new(4);
    let a = digest(b"aaaa");
    let b = digest(b"bbbb");
    let d = digest(b"dddd");
    c.put(a, b"aaaa").unwrap();
    c.put(b, b"bbbb").unwrap();
    c.put(d, b"dddd").unwrap();
    c.acquire(a).unwrap();
    c.evict();
    assert!(c.has(a));
    assert!(!c.has(b));
    assert!(!c.has(d));
    assert_eq!(c.stored_bytes(), 4);
}

#[test]
fn evict_stops_at_budget() {
    let mut c = ResumeCache::new(8);
    let a = digest(b"aaaa");
    let b = digest(b"bbbb");
    let d = digest(b"dddd");
    c.put(a, b"aaaa").unwrap();
    c.put(b, b"bbbb").unwrap();
    c.put(d, b"dddd").unwrap();
    c.evict();
    assert!(!c.has(a));
    assert!(c.has(b));
    assert!(c.has(d));
    assert_eq!(c.stored_bytes(), 8);
}

#[test]
fn evict_never_removes_referenced() {
    let mut c = ResumeCache::new(0);
    let a = digest(b"aa");
    c.put(a, b"aa").unwrap();
    c.acquire(a).unwrap();
    c.evict();
    assert!(c.has(a));
    c.release(a).unwrap();
    c.evict();
    assert!(!c.has(a));
    assert_eq!(c.stored_bytes(), 0);
}

#[test]
fn evict_under_budget_keeps_everything() {
    let mut c = ResumeCache::new(100);
    let a = digest(b"aa");
    c.put(a, b"aa").unwrap();
    c.evict();
    assert!(c.has(a));
}

#[test]
fn acquire_all_and_release_all_count_occurrences() {
    let mut c = ResumeCache::new(0);
    let a = digest(b"a");
    c.put(a, b"a").unwrap();
    c.acquire_all(&[a, a]);
    c.evict();
    assert!(c.has(a));
    c.release_all(&[a]);
    c.evict();
    assert!(c.has(a));
    c.release_all(&[a]);
    c.evict();
    assert!(!c.has(a));
}

#[test]
fn acquire_refreshes_recency() {
    let mut c = ResumeCache::new(4);
    let a = digest(b"aaaa");
    let b = digest(b"bbbb");
    c.put(a, b"aaaa").unwrap();
    c.put(b, b"bbbb").unwrap();
    c.acquire(a).unwrap();
    c.release(a).unwrap();
    c.evict();
    assert!(c.has(a));
    assert!(!c.has(b));
}
