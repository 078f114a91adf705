use crate::store::{has_username, usernames_distinct, Record, RecordView, Store, StoreError};
use vstd::prelude::*;

verus! {

// Each record is persisted as one self-describing line:
//
//     {"username":"U","hashed_password":"D","token":"T"}
//
// where the three values carry a backslash before every quote and every
// backslash of their own, and write line feed and carriage return as the
// named escapes `\n` and `\r` — so an encoded record never spans more
// than one physical line of the backing medium, whatever its values hold.
// The store reads back exactly the canonical shape it writes: fixed key
// order, no padding. A line of any other shape does not parse, and the
// store treats it as corruption rather than skip it.
/// Whether a character may not stand for itself inside a value.
pub open spec fn needs_escape(c: char) -> bool {
    c == '"' || c == '\\' || c == '\n' || c == '\r'
}

/// The character written after the backslash for an escaped character.
pub open spec fn escape_code(c: char) -> char {
    if c == '\n' {
        'n'
    } else if c == '\r' {
        'r'
    } else {
        c
    }
}

/// The character an escape code stands for.
pub open spec fn unescape_code(e: char) -> char {
    if e == 'n' {
        '\n'
    } else if e == 'r' {
        '\r'
    } else {
        e
    }
}

/// How one character of a value is written inside a line.
pub open spec fn escape_char(c: char) -> Seq<char> {
    if needs_escape(c) {
        seq!['\\', escape_code(c)]
    } else {
        seq![c]
    }
}

/// How a whole value is written inside a line.
pub open spec fn escape(s: Seq<char>) -> Seq<char>
    decreases s.len(),
{
    if s.len() == 0 {
        Seq::empty()
    } else {
        escape_char(s[0]) + escape(s.skip(1))
    }
}

/// Reading an escaped value back, up to and including its closing quote:
/// the value and whatever follows the quote, or nothing where the text ends
/// first or an unknown escape appears.
pub open spec fn unescape_prefix(s: Seq<char>) -> Option<(Seq<char>, Seq<char>)>
    decreases s.len(),
{
    if s.len() == 0 {
        None
    } else if s[0] == '"' {
        Some((Seq::empty(), s.skip(1)))
    } else if s[0] == '\\' {
        if s.len() >= 2 && (s[1] == '"' || s[1] == '\\' || s[1] == 'n' || s[1] == 'r') {
            match unescape_prefix(s.skip(2)) {
                Some(p) => Some((seq![unescape_code(s[1])] + p.0, p.1)),
                None => None,
            }
        } else {
            None
        }
    } else {
        match unescape_prefix(s.skip(1)) {
            Some(p) => Some((seq![s[0]] + p.0, p.1)),
            None => None,
        }
    }
}

/// Whether `p` occurs at the very start of `s`.
pub open spec fn starts_with(s: Seq<char>, p: Seq<char>) -> bool {
    p.len() <= s.len() && forall|k: int| 0 <= k < p.len() ==> s[k] == p[k]
}

/// The text before the username value.
pub open spec fn line_head() -> Seq<char> {
    "{\"username\":\""@
}

/// The text between the username's closing quote and the digest value.
pub open spec fn line_mid1() -> Seq<char> {
    ",\"hashed_password\":\""@
}

/// The text between the digest's closing quote and the token value.
pub open spec fn line_mid2() -> Seq<char> {
    ",\"token\":\""@
}

/// The whole line written for one record.
pub open spec fn encode_line(r: RecordView) -> Seq<char> {
    "{\"username\":\""@ + escape(r.username) + "\",\"hashed_password\":\""@ + escape(
        r.password_digest,
    ) + "\",\"token\":\""@ + escape(r.token) + "\"}"@
}

/// What one line means: the record it carries, or nothing where the line
/// does not have the record shape.
pub open spec fn parse_line(s: Seq<char>) -> Option<RecordView> {
    if !starts_with(s, line_head()) {
        None
    } else {
        match unescape_prefix(s.skip(line_head().len() as int)) {
            None => None,
            Some(p1) => if !starts_with(p1.1, line_mid1()) {
                None
            } else {
                match unescape_prefix(p1.1.skip(line_mid1().len() as int)) {
                    None => None,
                    Some(p2) => if !starts_with(p2.1, line_mid2()) {
                        None
                    } else {
                        match unescape_prefix(p2.1.skip(line_mid2().len() as int)) {
                            None => None,
                            Some(p3) => if p3.1.len() == 1 && p3.1[0] == '}' {
                                Some(
                                    RecordView {
                                        username: p1.0,
                                        password_digest: p2.0,
                                        token: p3.0,
                                    },
                                )
                            } else {
                                None
                            },
                        }
                    },
                }
            },
        }
    }
}

/// Escaping one more character appends that character's escaped form.
pub proof fn lemma_escape_snoc(s: Seq<char>, c: char)
    ensures
        escape(s.push(c)) == escape(s) + escape_char(c),
    decreases s.len(),
{
    if s.len() == 0 {
        assert(s.push(c)[0] == c);
        assert(s.push(c).skip(1) =~= Seq::<char>::empty());
        assert(escape(Seq::<char>::empty()) == Seq::<char>::empty());
        assert(escape(s.push(c)) == escape_char(c) + escape(Seq::<char>::empty()));
        assert(escape_char(c) + Seq::<char>::empty() =~= escape_char(c));
        assert(Seq::<char>::empty() + escape_char(c) =~= escape_char(c));
    } else {
        lemma_escape_snoc(s.skip(1), c);
        assert(s.push(c)[0] == s[0]);
        assert(s.push(c).skip(1) =~= s.skip(1).push(c));
        assert(escape(s.push(c)) == escape_char(s[0]) + escape(s.skip(1).push(c)));
        assert(escape_char(s[0]) + (escape(s.skip(1)) + escape_char(c)) =~= (escape_char(s[0])
            + escape(s.skip(1))) + escape_char(c));
    }
}

/// Reading back what escaping wrote recovers the value and consumes its
/// closing quote, whatever follows.
pub proof fn lemma_unescape_escape(v: Seq<char>, rest: Seq<char>)
    ensures
        unescape_prefix(escape(v) + seq!['"'] + rest) == Some((v, rest)),
    decreases v.len(),
{
    let s = escape(v) + seq!['"'] + rest;
    if v.len() == 0 {
        assert(s[0] == '"');
        assert(s.skip(1) =~= rest);
    } else {
        let c = v[0];
        lemma_unescape_escape(v.skip(1), rest);
        let s1 = escape(v.skip(1)) + seq!['"'] + rest;
        if needs_escape(c) {
            assert(s[0] == '\\');
            assert(s[1] == escape_code(c));
            assert(s.len() >= 2);
            assert(s[1] == '"' || s[1] == '\\' || s[1] == 'n' || s[1] == 'r');
            assert(unescape_code(escape_code(c)) == c);
            assert(s.skip(2) =~= s1);
            assert(seq![c] + v.skip(1) =~= v);
        } else {
            assert(s[0] == c);
            assert(s.skip(1) =~= s1);
            assert(seq![c] + v.skip(1) =~= v);
        }
    }
}

/// Whether a text holds no line terminator, so it fits on one physical
/// line of a line-oriented medium.
pub open spec fn line_clean(s: Seq<char>) -> bool {
    forall|i: int| 0 <= i < s.len() ==> s[i] != '\n' && s[i] != '\r'
}

/// Escaping leaves no line terminator behind: both are written as named
/// escapes.
pub proof fn lemma_escape_clean(v: Seq<char>)
    ensures
        line_clean(escape(v)),
    decreases v.len(),
{
    if v.len() > 0 {
        lemma_escape_clean(v.skip(1));
        assert forall|i: int| 0 <= i < escape(v).len() implies escape(v)[i] != '\n' && escape(
            v,
        )[i] != '\r' by {
            assert(escape(v) == escape_char(v[0]) + escape(v.skip(1)));
            if i >= escape_char(v[0]).len() {
                assert(escape(v)[i] == escape(v.skip(1))[i - escape_char(v[0]).len()]);
            }
        }
    }
}

/// A whole encoded line holds no line terminator: one record stays one
/// physical line, whatever its values hold.
pub proof fn lemma_encode_line_clean(r: RecordView)
    ensures
        line_clean(encode_line(r)),
{
    reveal_strlit("{\"username\":\"");
    reveal_strlit("\",\"hashed_password\":\"");
    reveal_strlit("\",\"token\":\"");
    reveal_strlit("\"}");
    lemma_escape_clean(r.username);
    lemma_escape_clean(r.password_digest);
    lemma_escape_clean(r.token);
    assert(line_clean("{\"username\":\""@));
    assert(line_clean("\",\"hashed_password\":\""@));
    assert(line_clean("\",\"token\":\""@));
    assert(line_clean("\"}"@));
    let a1 = "{\"username\":\""@ + escape(r.username);
    lemma_add_clean("{\"username\":\""@, escape(r.username));
    let a2 = a1 + "\",\"hashed_password\":\""@;
    lemma_add_clean(a1, "\",\"hashed_password\":\""@);
    let a3 = a2 + escape(r.password_digest);
    lemma_add_clean(a2, escape(r.password_digest));
    let a4 = a3 + "\",\"token\":\""@;
    lemma_add_clean(a3, "\",\"token\":\""@);
    let a5 = a4 + escape(r.token);
    lemma_add_clean(a4, escape(r.token));
    lemma_add_clean(a5, "\"}"@);
    assert(encode_line(r) == a5 + "\"}"@);
}

/// Two clean texts concatenated stay clean.
proof fn lemma_add_clean(a: Seq<char>, b: Seq<char>)
    requires
        line_clean(a),
        line_clean(b),
    ensures
        line_clean(a + b),
{
    assert forall|i: int| 0 <= i < (a + b).len() implies (a + b)[i] != '\n' && (a + b)[i]
        != '\r' by {
        if i < a.len() {
            assert((a + b)[i] == a[i]);
        } else {
            assert((a + b)[i] == b[i - a.len()]);
        }
    }
}

/// Append the escaped form of a value.
fn append_escaped(out: &mut String, v: &str)
    ensures
        final(out)@ == old(out)@ + escape(v@),
{
    let n = v.unicode_len();
    let mut i: usize = 0;
    while i < n
        invariant
            n == v@.len(),
            i <= n,
            out@ == old(out)@ + escape(v@.take(i as int)),
        decreases n - i,
    {
        let ghost out0 = out@;
        let c = v.get_char(i);
        if c == '"' || c == '\\' {
            out.append("\\");
            out.append(v.substring_char(i, i + 1));
            proof {
                reveal_strlit("\\");
                assert("\\"@ =~= seq!['\\']);
                assert(v@.subrange(i as int, (i + 1) as int) =~= seq![c]);
                assert(out@ =~= out0 + escape_char(c));
            }
        } else if c == '\n' {
            out.append("\\n");
            proof {
                reveal_strlit("\\n");
                assert("\\n"@ =~= seq!['\\', 'n']);
                assert(out@ =~= out0 + escape_char(c));
            }
        } else if c == '\r' {
            out.append("\\r");
            proof {
                reveal_strlit("\\r");
                assert("\\r"@ =~= seq!['\\', 'r']);
                assert(out@ =~= out0 + escape_char(c));
            }
        } else {
            out.append(v.substring_char(i, i + 1));
            proof {
                assert(v@.subrange(i as int, (i + 1) as int) =~= seq![c]);
                assert(out@ =~= out0 + escape_char(c));
            }
        }
        proof {
            assert(v@.take((i + 1) as int) =~= v@.take(i as int).push(c));
            lemma_escape_snoc(v@.take(i as int), c);
            assert(out@ =~= old(out)@ + escape(v@.take((i + 1) as int)));
        }
        i += 1;
    }
    proof {
        assert(v@.take(n as int) =~= v@);
    }
}

/// Write the line for one record. The result holds no line terminator, so
/// on a line-oriented medium it stays one record.
pub fn encode_record(rec: &Record) -> (out: String)
    ensures
        out@ == encode_line(rec@),
        line_clean(out@),
{
    proof {
        lemma_encode_line_clean(rec@);
    }
    let mut out = String::from_str("{\"username\":\"");
    append_escaped(&mut out, rec.username.as_str());
    out.append("\",\"hashed_password\":\"");
    append_escaped(&mut out, rec.password_digest.as_str());
    out.append("\",\"token\":\"");
    append_escaped(&mut out, rec.token.as_str());
    out.append("\"}");
    proof {
        assert(out@ =~= encode_line(rec@));
    }
    out
}

/// Whether `lit` stands in `s` exactly at `start`.
fn has_lit_at(s: &str, start: usize, lit: &str) -> (r: bool)
    requires
        start <= s@.len(),
    ensures
        r == starts_with(s@.skip(start as int), lit@),
{
    let n = s.unicode_len();
    let ln = lit.unicode_len();
    if ln > n - start {
        return false;
    }
    let mut j: usize = 0;
    while j < ln
        invariant
            n == s@.len(),
            ln == lit@.len(),
            start + ln <= n,
            j <= ln,
            forall|k: int| 0 <= k < j ==> s@[start + k] == lit@[k],
        decreases ln - j,
    {
        if s.get_char(start + j) != lit.get_char(j) {
            proof {
                assert(s@.skip(start as int)[j as int] == s@[start + j]);
            }
            return false;
        }
        j += 1;
    }
    proof {
        assert forall|k: int| 0 <= k < lit@.len() implies s@.skip(start as int)[k] == lit@[k] by {
            assert(s@.skip(start as int)[k] == s@[start + k]);
        }
    }
    true
}

/// Scan an escaped value from `start` up to and over its closing quote.
/// Returns the value and the position after the quote, or nothing where the
/// text ends first or an unknown escape appears.
fn scan_value(s: &str, start: usize) -> (r: Option<(String, usize)>)
    requires
        start <= s@.len(),
    ensures
        match r {
            Some(p) => start <= p.1 <= s@.len() && unescape_prefix(s@.skip(start as int)) == Some(
                (p.0@, s@.skip(p.1 as int)),
            ),
            None => unescape_prefix(s@.skip(start as int)) is None,
        },
{
    let n = s.unicode_len();
    let mut out = String::new();
    let mut i: usize = start;
    loop
        invariant
            start <= i <= n,
            n == s@.len(),
            unescape_prefix(s@.skip(start as int)) == (match unescape_prefix(s@.skip(i as int)) {
                Some(p) => Some((out@ + p.0, p.1)),
                None => None::<(Seq<char>, Seq<char>)>,
            }),
        decreases n - i,
    {
        if i == n {
            proof {
                assert(s@.skip(i as int) =~= Seq::<char>::empty());
            }
            return None;
        }
        let c = s.get_char(i);
        proof {
            assert(s@.skip(i as int)[0] == c);
            assert(s@.skip(i as int).skip(1) =~= s@.skip((i + 1) as int));
        }
        if c == '"' {
            proof {
                assert(out@ + Seq::<char>::empty() =~= out@);
            }
            return Some((out, i + 1));
        } else if c == '\\' {
            if i + 1 == n {
                return None;
            }
            let c2 = s.get_char(i + 1);
            proof {
                assert(s@.skip(i as int)[1] == c2);
                assert(s@.skip(i as int).skip(2) =~= s@.skip((i + 2) as int));
            }
            if c2 == '"' || c2 == '\\' || c2 == 'n' || c2 == 'r' {
                let ghost out0 = out@;
                if c2 == 'n' {
                    out.append("\n");
                    proof {
                        reveal_strlit("\n");
                        assert("\n"@ =~= seq![unescape_code(c2)]);
                    }
                } else if c2 == 'r' {
                    out.append("\r");
                    proof {
                        reveal_strlit("\r");
                        assert("\r"@ =~= seq![unescape_code(c2)]);
                    }
                } else {
                    out.append(s.substring_char(i + 1, i + 2));
                    proof {
                        assert(s@.subrange((i + 1) as int, (i + 2) as int) =~= seq![unescape_code(
                            c2,
                        )]);
                    }
                }
                proof {
                    if unescape_prefix(s@.skip((i + 2) as int)) is Some {
                        let p = unescape_prefix(s@.skip((i + 2) as int)).unwrap();
                        assert(out0 + (seq![unescape_code(c2)] + p.0) =~= out@ + p.0);
                    }
                }
                i = i + 2;
            } else {
                return None;
            }
        } else {
            let ghost out0 = out@;
            out.append(s.substring_char(i, i + 1));
            proof {
                assert(s@.subrange(i as int, (i + 1) as int) =~= seq![c]);
                if unescape_prefix(s@.skip((i + 1) as int)) is Some {
                    let p = unescape_prefix(s@.skip((i + 1) as int)).unwrap();
                    assert(out0 + (seq![c] + p.0) =~= out@ + p.0);
                }
            }
            i = i + 1;
        }
    }
}

/// Read the record a line carries. A line of any other shape is corrupt,
/// never skipped.
pub fn parse_record(line: &str) -> (r: Result<Record, StoreError>)
    ensures
        match r {
            Ok(rec) => parse_line(line@) == Some(rec@),
            Err(e) => e == StoreError::Corrupt && parse_line(line@) is None,
        },
{
    let n = line.unicode_len();
    proof {
        assert(line@.skip(0) =~= line@);
    }
    if !has_lit_at(line, 0, "{\"username\":\"") {
        return Err(StoreError::Corrupt);
    }
    let pos0 = "{\"username\":\"".unicode_len();
    let (username, pos1) = match scan_value(line, pos0) {
        None => {
            return Err(StoreError::Corrupt);
        },
        Some(p) => p,
    };
    if !has_lit_at(line, pos1, ",\"hashed_password\":\"") {
        return Err(StoreError::Corrupt);
    }
    proof {
        assert(line@.skip(pos1 as int).len() == n - pos1);
        assert(pos1 + line_mid1().len() <= n);
    }
    let pos2 = pos1 + ",\"hashed_password\":\"".unicode_len();
    proof {
        assert(line@.skip(pos1 as int).skip(line_mid1().len() as int) =~= line@.skip(pos2 as int));
    }
    let (password_digest, pos3) = match scan_value(line, pos2) {
        None => {
            return Err(StoreError::Corrupt);
        },
        Some(p) => p,
    };
    if !has_lit_at(line, pos3, ",\"token\":\"") {
        return Err(StoreError::Corrupt);
    }
    proof {
        assert(line@.skip(pos3 as int).len() == n - pos3);
        assert(pos3 + line_mid2().len() <= n);
    }
    let pos4 = pos3 + ",\"token\":\"".unicode_len();
    proof {
        assert(line@.skip(pos3 as int).skip(line_mid2().len() as int) =~= line@.skip(pos4 as int));
    }
    let (token, pos5) = match scan_value(line, pos4) {
        None => {
            return Err(StoreError::Corrupt);
        },
        Some(p) => p,
    };
    if n - pos5 != 1 {
        proof {
            assert(line@.skip(pos5 as int).len() != 1);
        }
        return Err(StoreError::Corrupt);
    }
    let close = line.get_char(pos5);
    proof {
        assert(line@.skip(pos5 as int)[0] == close);
    }
    if close != '}' {
        return Err(StoreError::Corrupt);
    }
    let rec = Record { username, password_digest, token };
    proof {
        assert(parse_line(line@) == Some(rec@));
    }
    Ok(rec)
}

/// What wrote a line parses back to the record it wrote: encoding loses
/// nothing and parsing inverts it.
pub proof fn lemma_parse_encode_line(r: RecordView)
    ensures
        parse_line(encode_line(r)) == Some(r),
{
    reveal_strlit("{\"username\":\"");
    reveal_strlit("\",\"hashed_password\":\"");
    reveal_strlit("\",\"token\":\"");
    reveal_strlit("\"}");
    reveal_strlit(",\"hashed_password\":\"");
    reveal_strlit(",\"token\":\"");
    let s = encode_line(r);
    let rest3 = seq!['}'];
    let rest2 = line_mid2() + (escape(r.token) + seq!['"'] + rest3);
    let rest1 = line_mid1() + (escape(r.password_digest) + seq!['"'] + rest2);
    assert(starts_with(s, line_head()));
    assert(s.skip(line_head().len() as int) =~= escape(r.username) + seq!['"'] + rest1);
    lemma_unescape_escape(r.username, rest1);
    assert(starts_with(rest1, line_mid1()));
    assert(rest1.skip(line_mid1().len() as int) =~= escape(r.password_digest) + seq!['"'] + rest2);
    lemma_unescape_escape(r.password_digest, rest2);
    assert(starts_with(rest2, line_mid2()));
    assert(rest2.skip(line_mid2().len() as int) =~= escape(r.token) + seq!['"'] + rest3);
    lemma_unescape_escape(r.token, rest3);
    assert(rest3.len() == 1 && rest3[0] == '}');
}

/// Whether every line parses as a record.
pub open spec fn all_lines_parse(ls: Seq<Seq<char>>) -> bool {
    forall|i: int| 0 <= i < ls.len() ==> parse_line(ls[i]) is Some
}

/// The records the lines carry, where all of them parse.
pub open spec fn parsed_records(ls: Seq<Seq<char>>) -> Seq<RecordView> {
    Seq::new(ls.len(), |i: int| parse_line(ls[i]).unwrap())
}

/// Writing records out as lines and reading the lines back loses nothing:
/// every written line parses, and it parses to the record that wrote it.
pub proof fn lemma_lines_round_trip(rs: Seq<RecordView>)
    ensures
        ({
            let ls = rs.map_values(|r: RecordView| encode_line(r));
            all_lines_parse(ls) && parsed_records(ls) == rs
        }),
{
    let ls = rs.map_values(|r: RecordView| encode_line(r));
    assert forall|i: int| 0 <= i < ls.len() implies parse_line(ls[i]) is Some by {
        lemma_parse_encode_line(rs[i]);
    }
    assert forall|i: int| 0 <= i < ls.len() implies parsed_records(ls)[i] == rs[i] by {
        lemma_parse_encode_line(rs[i]);
    }
    assert(parsed_records(ls) =~= rs);
}

/// Load a store from its persisted lines. A line that does not parse is
/// corruption; two records under one username break the store's invariant
/// and are rejected as well. Only a clean file yields a store.
pub fn from_lines(lines: &Vec<String>) -> (r: Result<Store, StoreError>)
    ensures
        match r {
            Ok(s) => s.wf() && all_lines_parse(lines.deep_view()) && s@ == parsed_records(
                lines.deep_view(),
            ),
            Err(e) => (e == StoreError::Corrupt ==> !all_lines_parse(lines.deep_view())) && (e
                == StoreError::DuplicateUsername ==> all_lines_parse(lines.deep_view())
                && !usernames_distinct(parsed_records(lines.deep_view()))),
        },
{
    let ghost ls = lines.deep_view();
    let n = lines.len();
    let mut recs: Vec<Record> = Vec::new();
    let mut i: usize = 0;
    while i < n
        invariant
            n == lines.len(),
            ls == lines.deep_view(),
            i <= n,
            recs@.len() == i,
            forall|j: int| 0 <= j < i ==> parse_line(ls[j]) == Some(#[trigger] recs@[j]@),
        decreases n - i,
    {
        proof {
            assert(ls[i as int] == lines@[i as int]@);
        }
        match parse_record(lines[i].as_str()) {
            Ok(rec) => {
                recs.push(rec);
            },
            Err(_) => {
                proof {
                    assert(parse_line(ls[i as int]) is None);
                }
                return Err(StoreError::Corrupt);
            },
        }
        i += 1;
    }
    proof {
        assert forall|j: int| 0 <= j < n implies parse_line(ls[j]) is Some by {
            let rv = recs@[j]@;
            assert(parse_line(ls[j]) == Some(rv));
        }
        assert(all_lines_parse(ls));
    }
    let mut store = Store::new();
    let mut k: usize = 0;
    while k < n
        invariant
            n == lines.len(),
            ls == lines.deep_view(),
            n == recs@.len(),
            k <= n,
            all_lines_parse(ls),
            forall|j: int| 0 <= j < n ==> parse_line(ls[j]) == Some(#[trigger] recs@[j]@),
            store@ == parsed_records(ls).take(k as int),
            store.wf(),
        decreases n - k,
    {
        let rec = &recs[k];
        let ghost pre = store@;
        proof {
            assert(parse_line(ls[k as int]) == Some(recs@[k as int]@));
            assert(parsed_records(ls)[k as int] == recs@[k as int]@);
        }
        match store.insert(
            rec.username.clone(),
            rec.password_digest.clone(),
            rec.token.clone(),
        ) {
            Ok(()) => {
                proof {
                    assert(store@ =~= parsed_records(ls).take((k + 1) as int));
                }
            },
            Err(_) => {
                proof {
                    let u = recs@[k as int]@.username;
                    let j = choose|j: int| 0 <= j < pre.len() && pre[j].username == u;
                    assert(pre[j] == parsed_records(ls).take(k as int)[j]);
                    assert(parsed_records(ls)[j] == pre[j]);
                    assert(0 <= j < k < parsed_records(ls).len());
                    assert(parsed_records(ls)[j].username == parsed_records(ls)[k as int].username);
                    assert(!usernames_distinct(parsed_records(ls)));
                }
                return Err(StoreError::DuplicateUsername);
            },
        }
        k += 1;
    }
    proof {
        assert(store@ =~= parsed_records(ls));
    }
    Ok(store)
}

/// Write every record of a store out as lines, in store order. No line
/// holds a line terminator, so the lines survive a line-oriented medium.
pub fn to_lines(store: &Store) -> (lines: Vec<String>)
    ensures
        lines@.len() == store@.len(),
        forall|i: int| 0 <= i < store@.len() ==> #[trigger] lines@[i]@ == encode_line(store@[i]),
        forall|i: int| 0 <= i < store@.len() ==> line_clean(#[trigger] lines@[i]@),
{
    let n = store.len();
    let mut lines: Vec<String> = Vec::new();
    let mut i: usize = 0;
    while i < n
        invariant
            n == store@.len(),
            i <= n,
            lines@.len() == i,
            forall|j: int| 0 <= j < i ==> #[trigger] lines@[j]@ == encode_line(store@[j]),
            forall|j: int| 0 <= j < i ==> line_clean(#[trigger] lines@[j]@),
        decreases n - i,
    {
        let line = encode_record(store.record_at(i));
        lines.push(line);
        i += 1;
    }
    lines
}

} // verus!
