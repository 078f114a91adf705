use vstd::prelude::*;

verus! {

/// The 64-character lowercase hexadecimal form of the SHA-256 digest of the
/// UTF-8 encoding of a character sequence. The digest itself is outside
/// code; this name stands for its result, which depends on the input alone.
pub uninterp spec fn sha256_hex_of(s: Seq<char>) -> Seq<char>;

/// The character for one decimal digit.
pub open spec fn digit_char(d: int) -> char {
    if d == 0 {
        '0'
    } else if d == 1 {
        '1'
    } else if d == 2 {
        '2'
    } else if d == 3 {
        '3'
    } else if d == 4 {
        '4'
    } else if d == 5 {
        '5'
    } else if d == 6 {
        '6'
    } else if d == 7 {
        '7'
    } else if d == 8 {
        '8'
    } else {
        '9'
    }
}

/// The decimal representation of a natural number, without leading zeros
/// (a single zero for zero itself).
pub open spec fn dec_str_of(n: nat) -> Seq<char>
    decreases n,
{
    if n < 10 {
        seq![digit_char(n as int)]
    } else {
        dec_str_of(n / 10) + seq![digit_char((n % 10) as int)]
    }
}

/// The token minted for a login: the hash of username, secret and the
/// decimal form of the timestamp, run together.
pub open spec fn token_of(username: Seq<char>, secret: Seq<char>, timestamp: nat) -> Seq<char> {
    sha256_hex_of(username + secret + dec_str_of(timestamp))
}

/// Relies on sha2's Sha256 through the Digest trait: `update` feeds more
/// input to a streaming hash, so the result is the digest of the
/// concatenation of the three parts, a function of those bytes alone; and
/// on generic_array's LowerHex, which `format!("{:x}", ..)` uses and which
/// writes exactly two lowercase hexadecimal digits for each of the 32
/// digest bytes.
#[verifier::external_body]
fn sha256_hex_parts(a: &str, b: &str, c: &str) -> (r: String)
    ensures
        r@ == sha256_hex_of(a@ + b@ + c@),
        r@.len() == 64,
{
    let mut h = <sha2::Sha256 as sha2::Digest>::new();
    sha2::Digest::update(&mut h, a.as_bytes());
    sha2::Digest::update(&mut h, b.as_bytes());
    sha2::Digest::update(&mut h, c.as_bytes());
    format!("{:x}", sha2::Digest::finalize(h))
}

/// One decimal digit as a string slice.
fn digit_str(d: u64) -> (s: &'static str)
    requires
        d < 10,
    ensures
        s@ == seq![digit_char(d as int)],
{
    if d == 0 {
        proof {
            reveal_strlit("0");
            assert("0"@ =~= seq![digit_char(0int)]);
        }
        "0"
    } else if d == 1 {
        proof {
            reveal_strlit("1");
            assert("1"@ =~= seq![digit_char(1int)]);
        }
        "1"
    } else if d == 2 {
        proof {
            reveal_strlit("2");
            assert("2"@ =~= seq![digit_char(2int)]);
        }
        "2"
    } else if d == 3 {
        proof {
            reveal_strlit("3");
            assert("3"@ =~= seq![digit_char(3int)]);
        }
        "3"
    } else if d == 4 {
        proof {
            reveal_strlit("4");
            assert("4"@ =~= seq![digit_char(4int)]);
        }
        "4"
    } else if d == 5 {
        proof {
            reveal_strlit("5");
            assert("5"@ =~= seq![digit_char(5int)]);
        }
        "5"
    } else if d == 6 {
        proof {
            reveal_strlit("6");
            assert("6"@ =~= seq![digit_char(6int)]);
        }
        "6"
    } else if d == 7 {
        proof {
            reveal_strlit("7");
            assert("7"@ =~= seq![digit_char(7int)]);
        }
        "7"
    } else if d == 8 {
        proof {
            reveal_strlit("8");
            assert("8"@ =~= seq![digit_char(8int)]);
        }
        "8"
    } else {
        proof {
            reveal_strlit("9");
            assert("9"@ =~= seq![digit_char(9int)]);
        }
        "9"
    }
}

/// The decimal form of a 64-bit number, matching `dec_str_of`.
pub fn dec_string(n: u64) -> (s: String)
    ensures
        s@ == dec_str_of(n as nat),
    decreases n,
{
    if n < 10 {
        String::from_str(digit_str(n))
    } else {
        let mut s = dec_string(n / 10);
        s.append(digit_str(n % 10));
        s
    }
}

/// One-way hash of a secret: deterministic, so equal secrets always give
/// equal digests; total over every string.
pub fn digest(secret: &str) -> (r: String)
    ensures
        r@ == sha256_hex_of(secret@),
        r@.len() == 64,
{
    let r = sha256_hex_parts(secret, "", "");
    proof {
        reveal_strlit("");
        assert(secret@ + ""@ + ""@ =~= secret@);
    }
    r
}

/// Mint an opaque bearer token for an identity at a point in time. The
/// caller supplies the clock reading; for equal arguments the token is
/// equal, and its unpredictability comes from the one-way hash.
pub fn generate_token(username: &str, secret: &str, timestamp: u64) -> (r: String)
    ensures
        r@ == token_of(username@, secret@, timestamp as nat),
        r@.len() == 64,
{
    let ts = dec_string(timestamp);
    sha256_hex_parts(username, secret, ts.as_str())
}

} // verus!
