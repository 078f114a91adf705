use crate::hashing::{digest, generate_token, sha256_hex_of, token_of};
use crate::store::{
    has_credentials, has_token, has_username, token_updated, RecordView, Store, StoreError,
};
use vstd::prelude::*;

verus! {

/// Why a login request was declined.
#[derive(Clone, Copy, Debug, PartialEq, Eq, Structural)]
pub enum AuthError {
    /// Username or password missing or empty: no store access is attempted.
    InvalidRequest,
    /// The username is registered but the presented password does not
    /// digest to its record's digest; the store's uniqueness rule forbids
    /// creating a second record for the name.
    InvalidCredentials,
}

/// The store contents after a successful login: if the credentials match an
/// existing record, that record's token is replaced; otherwise one new
/// record is appended. Exactly one of the two happens.
pub open spec fn login_result(
    pre: Seq<RecordView>,
    u: Seq<char>,
    p: Seq<char>,
    ts: nat,
) -> Seq<RecordView> {
    let d = sha256_hex_of(p);
    let t = token_of(u, p, ts);
    if has_credentials(pre, u, d) {
        token_updated(pre, u, t)
    } else {
        pre.push(RecordView { username: u, password_digest: d, token: t })
    }
}

/// Whether a login request is bound to succeed: both fields present and
/// the username either fresh or presented with its registered password.
pub open spec fn login_accepted(pre: Seq<RecordView>, u: Seq<char>, p: Seq<char>) -> bool {
    u.len() != 0 && p.len() != 0 && (!has_username(pre, u) || has_credentials(
        pre,
        u,
        sha256_hex_of(p),
    ))
}

/// Login: digest the password, look the credentials up, mint a fresh token,
/// and persist it — by replacing the matching record's token, or by
/// inserting one new record for a username never seen before. On success
/// exactly one mutation happens; on failure none.
pub fn login(store: &mut Store, username: &str, password: &str, timestamp: u64) -> (r: Result<
    String,
    AuthError,
>)
    requires
        old(store).wf(),
    ensures
        final(store).wf(),
        (r is Ok) == login_accepted(old(store)@, username@, password@),
        r matches Ok(tok) ==> tok@ == token_of(username@, password@, timestamp as nat)
            && tok@.len() == 64 && final(store)@ == login_result(
            old(store)@,
            username@,
            password@,
            timestamp as nat,
        ),
        r is Err ==> final(store)@ == old(store)@,
        r matches Err(e) ==> (e == AuthError::InvalidRequest) == (username@.len() == 0
            || password@.len() == 0),
{
    if username.is_empty() || password.is_empty() {
        return Err(AuthError::InvalidRequest);
    }
    let d = digest(password);
    let token = generate_token(username, password, timestamp);
    match store.find_by_credentials(username, d.as_str()) {
        Some(_existing) => {
            store.update_token(username, token.as_str());
            proof {
                assert(store@ == login_result(
                    old(store)@,
                    username@,
                    password@,
                    timestamp as nat,
                ));
            }
            Ok(token)
        },
        None => {
            match store.insert(username.to_owned(), d, token.clone()) {
                Ok(()) => {
                    proof {
                        assert(store@ =~= login_result(
                            old(store)@,
                            username@,
                            password@,
                            timestamp as nat,
                        ));
                    }
                    Ok(token)
                },
                Err(_) => Err(AuthError::InvalidCredentials),
            }
        },
    }
}

/// Validate a presented bearer token: granted exactly when it is non-empty
/// and equal, byte for byte, to the token of some record. The store is
/// never changed.
pub fn validate(store: &Store, token: &str) -> (granted: bool)
    ensures
        granted == (token@.len() != 0 && has_token(store@, token@)),
{
    if token.is_empty() {
        return false;
    }
    store.find_by_token(token)
}

} // verus!
