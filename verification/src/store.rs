use vstd::prelude::*;

verus! {

/// A single identity record: one registered user, the one-way digest of
/// their password, and the currently active bearer token.
#[derive(Debug)]
pub struct Record {
    pub username: String,
    pub password_digest: String,
    pub token: String,
}

/// The mathematical content of a record: its three fields as character
/// sequences.
#[verifier::ext_equal]
pub ghost struct RecordView {
    pub username: Seq<char>,
    pub password_digest: Seq<char>,
    pub token: Seq<char>,
}

impl View for Record {
    type V = RecordView;

    open spec fn view(&self) -> RecordView {
        RecordView {
            username: self.username@,
            password_digest: self.password_digest@,
            token: self.token@,
        }
    }
}

/// The record with its token replaced and everything else kept.
pub open spec fn with_token(r: RecordView, t: Seq<char>) -> RecordView {
    RecordView { username: r.username, password_digest: r.password_digest, token: t }
}

/// Whether a record carries exactly these credentials.
pub open spec fn cred_matches(r: RecordView, u: Seq<char>, d: Seq<char>) -> bool {
    r.username == u && r.password_digest == d
}

/// Whether some record is registered under this username.
pub open spec fn has_username(s: Seq<RecordView>, u: Seq<char>) -> bool {
    exists|i: int| 0 <= i < s.len() && s[i].username == u
}

/// Whether some record carries these credentials.
pub open spec fn has_credentials(s: Seq<RecordView>, u: Seq<char>, d: Seq<char>) -> bool {
    exists|i: int| 0 <= i < s.len() && cred_matches(s[i], u, d)
}

/// Whether some record holds exactly this token.
pub open spec fn has_token(s: Seq<RecordView>, t: Seq<char>) -> bool {
    exists|i: int| 0 <= i < s.len() && s[i].token == t
}

/// No two records share a username.
pub open spec fn usernames_distinct(s: Seq<RecordView>) -> bool {
    forall|i: int, j: int| 0 <= i < j < s.len() ==> s[i].username != s[j].username
}

/// The store contents after a whole-store token rewrite: every record
/// registered under the username carries the new token, every other record
/// is kept as it was, in the original order.
pub open spec fn token_updated(s: Seq<RecordView>, u: Seq<char>, t: Seq<char>) -> Seq<RecordView> {
    Seq::new(
        s.len(),
        |i: int|
            if s[i].username == u {
                with_token(s[i], t)
            } else {
                s[i]
            },
    )
}

/// What can go wrong inside the record store itself.
#[derive(Clone, Copy, Debug, PartialEq, Eq, Structural)]
pub enum StoreError {
    /// A persisted line does not parse as a record.
    Corrupt,
    /// An insert would create a second record for an existing username.
    DuplicateUsername,
}

/// Character-for-character string comparison.
pub fn str_eq(a: &str, b: &str) -> (r: bool)
    ensures
        r == (a@ == b@),
{
    let n = a.unicode_len();
    let m = b.unicode_len();
    if n != m {
        return false;
    }
    let mut i: usize = 0;
    while i < n
        invariant
            n == a@.len(),
            n == b@.len(),
            i <= n,
            forall|j: int| 0 <= j < i ==> a@[j] == b@[j],
        decreases n - i,
    {
        if a.get_char(i) != b.get_char(i) {
            return false;
        }
        i += 1;
    }
    proof {
        assert(a@ =~= b@);
    }
    true
}

/// The collection of all identity records, usernames unique. It is the
/// in-memory image of the durable store; the caller moves it to and from
/// the backing medium as encoded lines.
#[derive(Debug)]
pub struct Store {
    records: Vec<Record>,
}

impl View for Store {
    type V = Seq<RecordView>;

    closed spec fn view(&self) -> Seq<RecordView> {
        self.records@.map_values(|r: Record| r@)
    }
}

impl Store {
    /// The store's invariant: no username is registered twice.
    pub open spec fn wf(self) -> bool {
        usernames_distinct(self@)
    }

    /// An empty store.
    pub fn new() -> (s: Store)
        ensures
            s@ == Seq::<RecordView>::empty(),
            s.wf(),
    {
        let s = Store { records: Vec::new() };
        proof {
            assert(s@ =~= Seq::<RecordView>::empty());
        }
        s
    }

    /// How many records the store holds.
    pub fn len(&self) -> (n: usize)
        ensures
            n == self@.len(),
    {
        self.records.len()
    }

    /// The record at one position, in insertion order.
    pub fn record_at(&self, i: usize) -> (r: &Record)
        requires
            i < self@.len(),
        ensures
            r@ == self@[i as int],
    {
        &self.records[i]
    }

    /// Whether a record for this username exists.
    pub fn contains_username(&self, username: &str) -> (r: bool)
        ensures
            r == has_username(self@, username@),
    {
        let n = self.records.len();
        let mut i: usize = 0;
        while i < n
            invariant
                n == self.records.len(),
                i <= n,
                forall|j: int| 0 <= j < i ==> self@[j].username != username@,
            decreases n - i,
        {
            if str_eq(self.records[i].username.as_str(), username) {
                proof {
                    assert(self@[i as int].username == username@);
                }
                return true;
            }
            i += 1;
        }
        false
    }

    /// Linear scan for the record whose username and password digest both
    /// match; returns its token. Under `wf` at most one record can match.
    pub fn find_by_credentials(&self, username: &str, password_digest: &str) -> (r: Option<
        String,
    >)
        ensures
            (r is Some) == has_credentials(self@, username@, password_digest@),
            r matches Some(t) ==> exists|i: int|
                0 <= i < self@.len() && cred_matches(self@[i], username@, password_digest@)
                    && t@ == self@[i].token && (forall|j: int|
                    0 <= j < i ==> !cred_matches(self@[j], username@, password_digest@)),
    {
        let n = self.records.len();
        let mut i: usize = 0;
        while i < n
            invariant
                n == self.records.len(),
                i <= n,
                forall|j: int| 0 <= j < i ==> !cred_matches(self@[j], username@, password_digest@),
            decreases n - i,
        {
            let rec = &self.records[i];
            if str_eq(rec.username.as_str(), username) && str_eq(
                rec.password_digest.as_str(),
                password_digest,
            ) {
                proof {
                    assert(cred_matches(self@[i as int], username@, password_digest@));
                }
                return Some(rec.token.clone());
            }
            i += 1;
        }
        None
    }

    /// Linear scan for a record whose token equals the presented value
    /// exactly.
    pub fn find_by_token(&self, token: &str) -> (r: bool)
        ensures
            r == has_token(self@, token@),
    {
        let n = self.records.len();
        let mut i: usize = 0;
        while i < n
            invariant
                n == self.records.len(),
                i <= n,
                forall|j: int| 0 <= j < i ==> self@[j].token != token@,
            decreases n - i,
        {
            if str_eq(self.records[i].token.as_str(), token) {
                proof {
                    assert(self@[i as int].token == token@);
                }
                return true;
            }
            i += 1;
        }
        false
    }

    /// Append a new record. The store enforces the uniqueness invariant
    /// itself: a second record for an existing username is rejected and
    /// the store is left unchanged.
    pub fn insert(&mut self, username: String, password_digest: String, token: String) -> (r:
        Result<(), StoreError>)
        ensures
            match r {
                Ok(()) => !has_username(old(self)@, username@) && final(self)@ == old(self)@.push(
                    RecordView { username: username@, password_digest: password_digest@, token: token@ },
                ),
                Err(e) => e == StoreError::DuplicateUsername && has_username(old(self)@, username@)
                    && final(self)@ == old(self)@,
            },
            old(self).wf() ==> final(self).wf(),
    {
        if self.contains_username(username.as_str()) {
            return Err(StoreError::DuplicateUsername);
        }
        let ghost pre = self@;
        let ghost rv = RecordView { username: username@, password_digest: password_digest@, token: token@ };
        self.records.push(Record { username, password_digest, token });
        proof {
            assert(self@ =~= pre.push(rv));
            if usernames_distinct(pre) {
                assert forall|i: int, j: int| 0 <= i < j < self@.len() implies self@[i].username
                    != self@[j].username by {
                    if j < pre.len() {
                        assert(self@[i] == pre[i] && self@[j] == pre[j]);
                    } else {
                        assert(self@[j] == rv);
                        assert(self@[i] == pre[i]);
                        assert(!has_username(pre, rv.username));
                    }
                }
            }
        }
        Ok(())
    }

    /// Read-modify-write over the whole store: every record is visited and
    /// the one matching the username gets the new token; everything else,
    /// and the order, is kept.
    pub fn update_token(&mut self, username: &str, new_token: &str)
        ensures
            final(self)@ == token_updated(old(self)@, username@, new_token@),
            old(self).wf() ==> final(self).wf(),
    {
        let ghost pre = self@;
        let n = self.records.len();
        let mut i: usize = 0;
        while i < n
            invariant
                n == self.records.len(),
                i <= n,
                pre.len() == n,
                forall|j: int| 0 <= j < n ==> self@[j] == (if i <= j {
                    pre[j]
                } else if pre[j].username == username@ {
                    with_token(pre[j], new_token@)
                } else {
                    pre[j]
                }),
            decreases n - i,
        {
            let ghost before = self@;
            proof {
                assert(self@[i as int] == pre[i as int]);
                assert(self@[i as int].username == self.records@[i as int]@.username);
            }
            let matched = str_eq(self.records[i].username.as_str(), username);
            if matched {
                self.records[i].token = new_token.to_owned();
                proof {
                    assert(self@[i as int] == self.records@[i as int]@);
                    assert(self.records@[i as int]@.token == new_token@);
                    assert(self.records@[i as int]@.username == before[i as int].username);
                    assert(self@[i as int] =~= with_token(pre[i as int], new_token@));
                    assert(forall|j: int| 0 <= j < n && j != i ==> self@[j] == before[j]);
                }
            }
            i += 1;
            proof {
                assert forall|j: int| 0 <= j < n implies self@[j] == (if i <= j {
                    pre[j]
                } else if pre[j].username == username@ {
                    with_token(pre[j], new_token@)
                } else {
                    pre[j]
                }) by {
                    if j == i - 1 {
                        if matched {
                            assert(pre[j].username == username@);
                            assert(self@[j] == with_token(pre[j], new_token@));
                        } else {
                            assert(pre[j].username != username@);
                            assert(self@[j] == before[j]);
                        }
                    } else {
                        assert(self@[j] == before[j]);
                    }
                }
            }
        }
        proof {
            assert(self@ =~= token_updated(pre, username@, new_token@));
            if usernames_distinct(pre) {
                assert forall|i: int, j: int| 0 <= i < j < self@.len() implies self@[i].username
                    != self@[j].username by {
                    assert(self@[i].username == pre[i].username);
                    assert(self@[j].username == pre[j].username);
                }
            }
        }
    }
}

} // verus!
