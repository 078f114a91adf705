use credstore::store::{Store, StoreError};

fn s(x: &str) -> String {
    String::from(x)
}

#[test]
fn new_store_is_empty() {
    let store = Store::new();
    assert_eq!(store.len(), 0);
    assert!(!store.find_by_token("anything"));
}

#[test]
fn insert_then_find_by_credentials() {
    let mut store = Store::new();
    assert!(store.insert(s("alice"), s("d1"), s("t1")).is_ok());
    assert_eq!(store.len(), 1);
    assert_eq!(store.find_by_credentials("alice", "d1"), Some(s("t1")));
    assert_eq!(store.find_by_credentials("alice", "other"), None);
    assert_eq!(store.find_by_credentials("bob", "d1"), None);
}

#[test]
fn insert_duplicate_username_rejected() {
    let mut store = Store::new();
    assert!(store.insert(s("alice"), s("d1"), s("t1")).is_ok());
    let r = store.insert(s("alice"), s("d2"), s("t2"));
    assert_eq!(r, Err(StoreError::DuplicateUsername));
    assert_eq!(store.len(), 1);
    assert_eq!(store.find_by_credentials("alice", "d1"), Some(s("t1")));
}

#[test]
fn update_token_rewrites_only_the_matching_record() {
    let mut store = Store::new();
    store.insert(s("alice"), s("d1"), s("t1")).unwrap();
    store.insert(s("bob"), s("d2"), s("t2")).unwrap();
    store.update_token("alice", "t3");
    assert_eq!(store.len(), 2);
    assert!(store.find_by_token("t3"));
    assert!(!store.find_by_token("t1"));
    assert!(store.find_by_token("t2"));
    assert_eq!(store.find_by_credentials("alice", "d1"), Some(s("t3")));
    assert_eq!(store.find_by_credentials("bob", "d2"), Some(s("t2")));
}

#[test]
fn find_by_token_is_exact() {
    let mut store = Store::new();
    store.insert(s("alice"), s("d1"), s("token")).unwrap();
    assert!(store.find_by_token("token"));
    assert!(!store.find_by_token("toke"));
    assert!(!store.find_by_token("token "));
    assert!(!store.find_by_token(""));
}

#[test]
fn record_at_keeps_insertion_order() {
    let mut store = Store::new();
    store.insert(s("alice"), s("d1"), s("t1")).unwrap();
    store.insert(s("bob"), s("d2"), s("t2")).unwrap();
    assert_eq!(store.record_at(0).username, "alice");
    assert_eq!(store.record_at(1).username, "bob");
}
