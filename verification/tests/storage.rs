//! Storage engine and command tests: the set/get, delete/exists, increment,
//! expiration, and flush behaviours, with the clock driven explicitly.

use keyval::db::storage::{new_db, Store, IncrError};

fn set_plain(db: &mut Store, key: &[u8], value: &[u8]) {
    db.set(key.to_vec(), value.to_vec(), None);
}

#[test]
fn set_then_get_returns_value() {
    let mut db = new_db();
    set_plain(&mut db, b"k", b"v");
    assert_eq!(db.get(b"k", 0), Some(b"v".to_vec()));
}

#[test]
fn get_of_never_set_key_is_nil() {
    let mut db = new_db();
    assert_eq!(db.get(b"missing", 0), None);
}

#[test]
fn set_replaces_wholesale_and_drops_old_expiry() {
    let mut db = new_db();
    db.set(b"k".to_vec(), b"old".to_vec(), Some(10));
    set_plain(&mut db, b"k", b"new");
    // Past the old expiry the entry is still there: the plain SET discarded it.
    assert_eq!(db.get(b"k", 1_000_000), Some(b"new".to_vec()));
}

#[test]
fn del_and_exists_lifecycle() {
    let mut db = new_db();
    assert!(!db.delete(b"absent"));
    set_plain(&mut db, b"k", b"v");
    assert!(db.contains(b"k", 0));
    assert!(db.delete(b"k"));
    assert!(!db.contains(b"k", 0));
    assert!(!db.delete(b"k"));
}

#[test]
fn incr_counts_from_absent() {
    let mut db = new_db();
    assert_eq!(db.increment(b"ctr", 0), Ok(1));
    assert_eq!(db.increment(b"ctr", 0), Ok(2));
    assert_eq!(db.get(b"ctr", 0), Some(b"2".to_vec()));
}

#[test]
fn incr_on_text_fails_without_mutation() {
    let mut db = new_db();
    set_plain(&mut db, b"k", b"bar");
    assert_eq!(db.increment(b"k", 0), Err(IncrError::NotAnInteger));
    assert_eq!(db.get(b"k", 0), Some(b"bar".to_vec()));
}

#[test]
fn incr_parses_signed_and_plus_values() {
    let mut db = new_db();
    set_plain(&mut db, b"k", b"-3");
    assert_eq!(db.increment(b"k", 0), Ok(-2));
    set_plain(&mut db, b"p", b"+41");
    assert_eq!(db.increment(b"p", 0), Ok(42));
}

#[test]
fn incr_at_max_refuses_overflow() {
    let mut db = new_db();
    set_plain(&mut db, b"k", b"9223372036854775807");
    assert_eq!(db.increment(b"k", 0), Err(IncrError::Overflow));
    assert_eq!(db.get(b"k", 0), Some(b"9223372036854775807".to_vec()));
}

#[test]
fn expire_arms_and_lazy_get_evicts() {
    let mut db = new_db();
    set_plain(&mut db, b"k", b"1");
    assert!(db.expire(b"k", 1000, 0));
    // Before the deadline the key lives.
    assert_eq!(db.get(b"k", 1000), Some(b"1".to_vec()));
    // Strictly past it, the lazy path reports nil and evicts.
    assert_eq!(db.get(b"k", 1001), None);
    assert_eq!(db.len(), 0);
}

#[test]
fn expire_of_absent_key_reports_zero() {
    let mut db = new_db();
    assert!(!db.expire(b"nope", 5, 0));
}

#[test]
fn key_without_expiry_never_expires() {
    let mut db = new_db();
    set_plain(&mut db, b"k", b"v");
    assert_eq!(db.get(b"k", u64::MAX), Some(b"v".to_vec()));
}

#[test]
fn exists_applies_lazy_expiration() {
    let mut db = new_db();
    set_plain(&mut db, b"k", b"v");
    assert!(db.expire(b"k", 10, 0));
    assert!(db.contains(b"k", 10));
    assert!(!db.contains(b"k", 11));
    assert_eq!(db.len(), 0);
}

#[test]
fn keys_snapshot_skips_no_one() {
    let mut db = new_db();
    set_plain(&mut db, b"a", b"1");
    set_plain(&mut db, b"b", b"2");
    assert!(db.expire(b"a", 1, 0));
    // Logically expired but unswept: KEYS still reports it.
    let ks = db.keys();
    assert_eq!(ks, vec![b"a".to_vec(), b"b".to_vec()]);
}

#[test]
fn sweep_removes_exactly_the_expired() {
    let mut db = new_db();
    set_plain(&mut db, b"stay", b"1");
    set_plain(&mut db, b"go", b"2");
    assert!(db.expire(b"go", 1, 0));
    db.sweep_expired(2);
    assert_eq!(db.keys(), vec![b"stay".to_vec()]);
    db.sweep_expired(u64::MAX);
    assert_eq!(db.keys(), vec![b"stay".to_vec()]);
}

#[test]
fn flushall_clears_everything() {
    let mut db = new_db();
    set_plain(&mut db, b"a", b"1");
    set_plain(&mut db, b"b", b"2");
    db.clear();
    assert_eq!(db.len(), 0);
    assert!(db.keys().is_empty());
    assert!(!db.contains(b"a", 0));
    assert!(!db.contains(b"b", 0));
}

#[test]
fn sequential_increments_never_lose_updates() {
    // The serialized view of N workers times M increments each.
    let mut db = new_db();
    let workers = 8u64;
    let per_worker = 250u64;
    for _ in 0..workers {
        for _ in 0..per_worker {
            db.increment(b"ctr", 0).unwrap();
        }
    }
    let expected = (workers * per_worker).to_string().into_bytes();
    assert_eq!(db.get(b"ctr", 0), Some(expected));
}
