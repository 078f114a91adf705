use credstore::hashing::{dec_string, digest, generate_token};

#[test]
fn digest_deterministic() {
    assert_eq!(digest("secret1"), digest("secret1"));
    assert_eq!(digest(""), digest(""));
}

#[test]
fn digest_known_vectors() {
    assert_eq!(
        digest("abc"),
        "ba7816bf8f01cfea414140de5dae2223b00361a396177a9cb410ff61f20015ad"
    );
    assert_eq!(
        digest(""),
        "e3b0c44298fc1c149afbf4c8996fb92427ae41e4649b934ca495991b7852b855"
    );
}

#[test]
fn digest_is_not_the_input() {
    let d = digest("abc");
    assert_ne!(d, "abc");
    assert_eq!(d.len(), 64);
}

#[test]
fn token_hashes_the_three_parts_run_together() {
    // The token for (u, p, 7) is the digest of the string "up7".
    assert_eq!(generate_token("u", "p", 7), digest("up7"));
    assert_eq!(generate_token("alice", "secret1", 1700000000), digest("alicesecret11700000000"));
}

#[test]
fn tokens_differ_across_timestamps() {
    let t1 = generate_token("alice", "secret1", 1);
    let t2 = generate_token("alice", "secret1", 2);
    assert_ne!(t1, t2);
    assert_eq!(t1.len(), 64);
    assert_eq!(t2.len(), 64);
}

#[test]
fn decimal_strings() {
    assert_eq!(dec_string(0), "0");
    assert_eq!(dec_string(7), "7");
    assert_eq!(dec_string(10), "10");
    assert_eq!(dec_string(1234567890), "1234567890");
    assert_eq!(dec_string(u64::MAX), "18446744073709551615");
}
