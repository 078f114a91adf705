use crate::auth::{login_accepted, login_result};
use crate::hashing::{sha256_hex_of, token_of};
use crate::store::{
    cred_matches, has_credentials, has_token, has_username, token_updated, usernames_distinct,
    with_token, RecordView,
};
use vstd::prelude::*;

verus! {

/// Credentials can only match a record registered under the same username.
pub proof fn lemma_credentials_imply_username(s: Seq<RecordView>, u: Seq<char>, d: Seq<char>)
    ensures
        has_credentials(s, u, d) ==> has_username(s, u),
{
    if has_credentials(s, u, d) {
        let i = choose|i: int| 0 <= i < s.len() && cred_matches(s[i], u, d);
        assert(s[i].username == u);
    }
}

/// Appending a record for a fresh username keeps usernames distinct, and
/// afterwards the username is present; nothing else moves.
pub proof fn lemma_push_fresh(pre: Seq<RecordView>, r: RecordView)
    requires
        usernames_distinct(pre),
        !has_username(pre, r.username),
    ensures
        usernames_distinct(pre.push(r)),
        has_username(pre.push(r), r.username),
        forall|i: int| 0 <= i < pre.len() && #[trigger] pre.push(r)[i].username == r.username
            ==> false,
{
    let s = pre.push(r);
    assert(s[pre.len() as int] == r);
    assert forall|i: int, j: int| 0 <= i < j < s.len() implies s[i].username != s[j].username by {
        if j == pre.len() {
            assert(s[i] == pre[i]);
        } else {
            assert(s[i] == pre[i] && s[j] == pre[j]);
        }
    }
    assert forall|i: int|
        0 <= i < pre.len() && #[trigger] s[i].username == r.username implies false by {
        assert(s[i] == pre[i]);
    }
}

/// A whole-store token rewrite keeps length, order and every username; it
/// touches tokens only, and only on the records of the given username.
pub proof fn lemma_token_updated_shape(s: Seq<RecordView>, u: Seq<char>, t: Seq<char>)
    ensures
        token_updated(s, u, t).len() == s.len(),
        forall|i: int| 0 <= i < s.len() ==> #[trigger] token_updated(s, u, t)[i].username
            == s[i].username,
        forall|i: int| 0 <= i < s.len() && s[i].username == u ==> #[trigger] token_updated(
            s,
            u,
            t,
        )[i].token == t,
        forall|i: int| 0 <= i < s.len() && s[i].username != u ==> #[trigger] token_updated(
            s,
            u,
            t,
        )[i] == s[i],
        usernames_distinct(s) ==> usernames_distinct(token_updated(s, u, t)),
        has_username(s, u) ==> has_username(token_updated(s, u, t), u),
        has_username(s, u) ==> has_token(token_updated(s, u, t), t),
{
    let s2 = token_updated(s, u, t);
    if usernames_distinct(s) {
        assert forall|i: int, j: int| 0 <= i < j < s2.len() implies s2[i].username
            != s2[j].username by {
            assert(s2[i].username == s[i].username);
            assert(s2[j].username == s[j].username);
        }
    }
    if has_username(s, u) {
        let i = choose|i: int| 0 <= i < s.len() && s[i].username == u;
        assert(s2[i].username == u);
        assert(s2[i].token == t);
    }
}

/// A first login for a username never inserted before creates exactly one
/// record for it; a second login with the same credentials replaces only
/// that record's token, and exactly one record for the username remains.
/// The first token is the hash at the first timestamp, the second the hash
/// at the second; for distinct timestamps the hash inputs differ, so the
/// tokens differ except for a hash collision, which no proof rules out.
pub proof fn lemma_login_twice(
    pre: Seq<RecordView>,
    u: Seq<char>,
    p: Seq<char>,
    ts1: nat,
    ts2: nat,
)
    requires
        usernames_distinct(pre),
        !has_username(pre, u),
    ensures
        ({
            let s1 = login_result(pre, u, p, ts1);
            let s2 = login_result(s1, u, p, ts2);
            s1.len() == pre.len() + 1 && s2.len() == s1.len() && usernames_distinct(s1)
                && has_username(s1, u) && usernames_distinct(s2) && has_username(s2, u) && (forall|
                i: int,
            |
                0 <= i < s1.len() && #[trigger] s1[i].username == u ==> s1[i].token == token_of(
                    u,
                    p,
                    ts1,
                )) && (forall|i: int|
                0 <= i < s2.len() && #[trigger] s2[i].username == u ==> s2[i].token == token_of(
                    u,
                    p,
                    ts2,
                ))
        }),
{
    let d = sha256_hex_of(p);
    let t1 = token_of(u, p, ts1);
    let t2 = token_of(u, p, ts2);
    let rec = RecordView { username: u, password_digest: d, token: t1 };
    lemma_credentials_imply_username(pre, u, d);
    let s1 = login_result(pre, u, p, ts1);
    assert(s1 == pre.push(rec));
    lemma_push_fresh(pre, rec);
    assert(s1[pre.len() as int] == rec);
    assert forall|i: int|
        0 <= i < s1.len() && #[trigger] s1[i].username == u implies s1[i].token == t1 by {
        if i < pre.len() {
            assert(s1[i] == pre[i]);
        }
    }
    assert(cred_matches(s1[pre.len() as int], u, d));
    assert(has_credentials(s1, u, d));
    let s2 = login_result(s1, u, p, ts2);
    assert(s2 == token_updated(s1, u, t2));
    lemma_token_updated_shape(s1, u, t2);
    assert forall|i: int|
        0 <= i < s2.len() && #[trigger] s2[i].username == u implies s2[i].token == t2 by {
        assert(s2[i].username == s1[i].username);
    }
}

/// A token returned by a successful login validates against the store that
/// the login left behind: some record holds it. (The token is non-empty by
/// `login`'s own contract, and any string that equals no stored token is
/// denied by `validate`'s own contract.)
pub proof fn lemma_login_token_validates(pre: Seq<RecordView>, u: Seq<char>, p: Seq<char>, ts: nat)
    ensures
        has_token(login_result(pre, u, p, ts), token_of(u, p, ts)),
{
    let d = sha256_hex_of(p);
    let t = token_of(u, p, ts);
    let s1 = login_result(pre, u, p, ts);
    if has_credentials(pre, u, d) {
        let i = choose|i: int| 0 <= i < pre.len() && cred_matches(pre[i], u, d);
        assert(s1[i] == with_token(pre[i], t));
        assert(s1[i].token == t);
    } else {
        assert(s1[pre.len() as int].token == t);
    }
}

/// Round trip through the store, first half: a record just inserted for a
/// fresh username is found again by its credentials, and every record that
/// matches them carries the token it was inserted with.
pub proof fn lemma_insert_then_find(pre: Seq<RecordView>, u: Seq<char>, d: Seq<char>, t: Seq<char>)
    requires
        usernames_distinct(pre),
        !has_username(pre, u),
    ensures
        ({
            let s = pre.push(RecordView { username: u, password_digest: d, token: t });
            has_credentials(s, u, d) && (forall|i: int|
                0 <= i < s.len() && #[trigger] cred_matches(s[i], u, d) ==> s[i].token == t)
        }),
{
    let rec = RecordView { username: u, password_digest: d, token: t };
    let s = pre.push(rec);
    lemma_push_fresh(pre, rec);
    assert(s[pre.len() as int] == rec);
    assert(cred_matches(s[pre.len() as int], u, d));
    assert forall|i: int|
        0 <= i < s.len() && #[trigger] cred_matches(s[i], u, d) implies s[i].token == t by {
        if i < pre.len() {
            assert(s[i] == pre[i]);
        }
    }
}

/// Round trip through the store, second half: after a token rewrite the new
/// token is found, and the previous one — held, as the uniqueness invariant
/// promises, by no record of another username — is found no more.
pub proof fn lemma_update_then_find(
    pre: Seq<RecordView>,
    u: Seq<char>,
    t1: Seq<char>,
    t2: Seq<char>,
)
    requires
        has_username(pre, u),
        forall|i: int| 0 <= i < pre.len() && #[trigger] pre[i].token == t1 ==> pre[i].username
            == u,
        t1 != t2,
    ensures
        has_token(token_updated(pre, u, t2), t2),
        !has_token(token_updated(pre, u, t2), t1),
{
    let s2 = token_updated(pre, u, t2);
    lemma_token_updated_shape(pre, u, t2);
    assert forall|i: int| 0 <= i < s2.len() implies #[trigger] s2[i].token != t1 by {
        if pre[i].username == u {
            assert(s2[i].token == t2);
        } else {
            assert(s2[i] == pre[i]);
        }
    }
}

/// Two logins for distinct usernames, neither inserted before, both
/// succeed, and afterwards both records are present: the store serializes
/// its mutations, so neither insert is lost.
pub proof fn lemma_two_logins_distinct_users(
    pre: Seq<RecordView>,
    u1: Seq<char>,
    p1: Seq<char>,
    ts1: nat,
    u2: Seq<char>,
    p2: Seq<char>,
    ts2: nat,
)
    requires
        usernames_distinct(pre),
        !has_username(pre, u1),
        !has_username(pre, u2),
        u1 != u2,
        u1.len() != 0,
        p1.len() != 0,
        u2.len() != 0,
        p2.len() != 0,
    ensures
        ({
            let s1 = login_result(pre, u1, p1, ts1);
            let s2 = login_result(s1, u2, p2, ts2);
            login_accepted(pre, u1, p1) && login_accepted(s1, u2, p2) && has_username(s2, u1)
                && has_username(s2, u2) && s2.len() == pre.len() + 2 && usernames_distinct(s2)
        }),
{
    let d1 = sha256_hex_of(p1);
    let d2 = sha256_hex_of(p2);
    let rec1 = RecordView { username: u1, password_digest: d1, token: token_of(u1, p1, ts1) };
    let rec2 = RecordView { username: u2, password_digest: d2, token: token_of(u2, p2, ts2) };
    lemma_credentials_imply_username(pre, u1, d1);
    let s1 = login_result(pre, u1, p1, ts1);
    assert(s1 == pre.push(rec1));
    lemma_push_fresh(pre, rec1);
    assert forall|i: int| 0 <= i < s1.len() implies #[trigger] s1[i].username != u2 by {
        if i < pre.len() {
            assert(s1[i] == pre[i]);
        } else {
            assert(s1[i] == rec1);
        }
    }
    lemma_credentials_imply_username(s1, u2, d2);
    let s2 = login_result(s1, u2, p2, ts2);
    assert(s2 == s1.push(rec2));
    lemma_push_fresh(s1, rec2);
    assert(s2[pre.len() as int] == rec1);
    assert(has_username(s2, u1));
}

} // verus!
