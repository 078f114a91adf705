use credstore::codec::{encode_record, from_lines, parse_record, to_lines};
use credstore::store::{Record, Store, StoreError};

fn rec(u: &str, d: &str, t: &str) -> Record {
    Record { username: String::from(u), password_digest: String::from(d), token: String::from(t) }
}

#[test]
fn encode_writes_one_json_line() {
    let line = encode_record(&rec("alice", "d1", "t1"));
    assert_eq!(line, "{\"username\":\"alice\",\"hashed_password\":\"d1\",\"token\":\"t1\"}");
}

#[test]
fn parse_reads_the_line_back() {
    let r = parse_record("{\"username\":\"alice\",\"hashed_password\":\"d1\",\"token\":\"t1\"}")
        .unwrap();
    assert_eq!(r.username, "alice");
    assert_eq!(r.password_digest, "d1");
    assert_eq!(r.token, "t1");
}

#[test]
fn round_trip_with_quotes_and_backslashes() {
    let original = rec("a\"li\\ce", "d\\1", "t\"1");
    let line = encode_record(&original);
    let back = parse_record(&line).unwrap();
    assert_eq!(back.username, original.username);
    assert_eq!(back.password_digest, original.password_digest);
    assert_eq!(back.token, original.token);
}

#[test]
fn line_breaks_in_values_stay_on_one_line() {
    let original = rec("ali\nce", "d\r1", "t\n\r1");
    let line = encode_record(&original);
    assert!(!line.contains('\n'));
    assert!(!line.contains('\r'));
    assert_eq!(
        line,
        "{\"username\":\"ali\\nce\",\"hashed_password\":\"d\\r1\",\"token\":\"t\\n\\r1\"}"
    );
    let back = parse_record(&line).unwrap();
    assert_eq!(back.username, original.username);
    assert_eq!(back.password_digest, original.password_digest);
    assert_eq!(back.token, original.token);
}

#[test]
fn named_escapes_read_back_as_terminators() {
    let r = parse_record("{\"username\":\"a\\nb\",\"hashed_password\":\"c\\rd\",\"token\":\"t\"}")
        .unwrap();
    assert_eq!(r.username, "a\nb");
    assert_eq!(r.password_digest, "c\rd");
    assert_eq!(r.token, "t");
}

#[test]
fn malformed_lines_are_corrupt() {
    assert_eq!(parse_record("not a record").unwrap_err(), StoreError::Corrupt);
    assert_eq!(parse_record("").unwrap_err(), StoreError::Corrupt);
    assert_eq!(
        parse_record("{\"username\":\"alice\",\"hashed_password\":\"d1\"}").unwrap_err(),
        StoreError::Corrupt
    );
    assert_eq!(
        parse_record("{\"token\":\"t1\",\"username\":\"alice\",\"hashed_password\":\"d1\"}")
            .unwrap_err(),
        StoreError::Corrupt
    );
    assert_eq!(
        parse_record("{\"username\":\"alice\",\"hashed_password\":\"d1\",\"token\":\"t1\"} ")
            .unwrap_err(),
        StoreError::Corrupt
    );
    assert_eq!(
        parse_record("{\"username\":\"ali\\tce\",\"hashed_password\":\"d\",\"token\":\"t\"}")
            .unwrap_err(),
        StoreError::Corrupt
    );
}

#[test]
fn store_round_trip_through_lines() {
    let mut store = Store::new();
    store.insert(String::from("alice"), String::from("d1"), String::from("t1")).unwrap();
    store.insert(String::from("bob"), String::from("d2"), String::from("t2")).unwrap();
    let lines = to_lines(&store);
    assert_eq!(lines.len(), 2);
    let loaded = from_lines(&lines).unwrap();
    assert_eq!(loaded.len(), 2);
    assert_eq!(loaded.find_by_credentials("alice", "d1"), Some(String::from("t1")));
    assert_eq!(loaded.find_by_credentials("bob", "d2"), Some(String::from("t2")));
    assert!(loaded.find_by_token("t1"));
    assert!(loaded.find_by_token("t2"));
}

#[test]
fn store_with_line_breaks_survives_persistence() {
    let mut store = Store::new();
    store.insert(String::from("ali\nce"), String::from("d\r1"), String::from("t1")).unwrap();
    let lines = to_lines(&store);
    let loaded = from_lines(&lines).unwrap();
    assert_eq!(loaded.find_by_credentials("ali\nce", "d\r1"), Some(String::from("t1")));
}

#[test]
fn from_lines_rejects_a_corrupt_line() {
    let lines = vec![
        String::from("{\"username\":\"alice\",\"hashed_password\":\"d1\",\"token\":\"t1\"}"),
        String::from("garbage"),
    ];
    assert_eq!(from_lines(&lines).unwrap_err(), StoreError::Corrupt);
}

#[test]
fn from_lines_rejects_duplicate_usernames() {
    let lines = vec![
        String::from("{\"username\":\"alice\",\"hashed_password\":\"d1\",\"token\":\"t1\"}"),
        String::from("{\"username\":\"alice\",\"hashed_password\":\"d2\",\"token\":\"t2\"}"),
    ];
    assert_eq!(from_lines(&lines).unwrap_err(), StoreError::DuplicateUsername);
}

#[test]
fn from_lines_of_nothing_is_an_empty_store() {
    let lines: Vec<String> = Vec::new();
    let store = from_lines(&lines).unwrap();
    assert_eq!(store.len(), 0);
}
