use credstore::auth::{login, validate, AuthError};
use credstore::hashing::digest;
use credstore::store::Store;

#[test]
fn empty_username_is_invalid_request() {
    let mut store = Store::new();
    let r = login(&mut store, "", "secret1", 1);
    assert_eq!(r, Err(AuthError::InvalidRequest));
    assert_eq!(store.len(), 0);
}

#[test]
fn empty_password_is_invalid_request() {
    let mut store = Store::new();
    store.insert(String::from("alice"), digest("secret1"), String::from("t1")).unwrap();
    let r = login(&mut store, "alice", "", 1);
    assert_eq!(r, Err(AuthError::InvalidRequest));
    assert_eq!(store.len(), 1);
    assert!(store.find_by_token("t1"));
}

#[test]
fn first_login_creates_one_record_second_rotates_token() {
    let mut store = Store::new();
    let t1 = login(&mut store, "alice", "secret1", 100).unwrap();
    assert_eq!(store.len(), 1);
    let t2 = login(&mut store, "alice", "secret1", 200).unwrap();
    assert_eq!(store.len(), 1);
    assert_ne!(t1, t2);
}

#[test]
fn login_token_validates_and_other_strings_do_not() {
    let mut store = Store::new();
    let t = login(&mut store, "alice", "secret1", 100).unwrap();
    assert!(validate(&store, &t));
    assert!(!validate(&store, "somethingelse"));
    assert!(!validate(&store, ""));
}

#[test]
fn wrong_password_for_existing_user_is_rejected() {
    let mut store = Store::new();
    login(&mut store, "alice", "secret1", 100).unwrap();
    let r = login(&mut store, "alice", "wrong", 200);
    assert_eq!(r, Err(AuthError::InvalidCredentials));
    assert_eq!(store.len(), 1);
}

#[test]
fn two_logins_for_distinct_users_both_kept() {
    let mut store = Store::new();
    let t1 = login(&mut store, "alice", "secret1", 100).unwrap();
    let t2 = login(&mut store, "bob", "secret2", 100).unwrap();
    assert_eq!(store.len(), 2);
    assert!(validate(&store, &t1));
    assert!(validate(&store, &t2));
}

#[test]
fn login_scenario_on_empty_store() {
    let mut store = Store::new();
    let t1 = login(&mut store, "alice", "secret1", 1000).unwrap();
    assert_eq!(store.len(), 1);
    let rec = store.record_at(0);
    assert_eq!(rec.username, "alice");
    assert_eq!(rec.password_digest, digest("secret1"));
    assert_eq!(rec.token, t1);

    let t2 = login(&mut store, "alice", "secret1", 2000).unwrap();
    assert_ne!(t2, t1);
    assert_eq!(store.len(), 1);
    assert!(!validate(&store, &t1));
    assert!(validate(&store, &t2));
}
