//! Small helpers of the request gate: email masking for logs, the
//! git-HTTP path test, and the basic-auth cache key.

use vstd::prelude::*;
use vstd::string::StringExecFns;
use crate::text::{str_eq, chars_of_bytes, string_of_bytes_or_empty};
use crate::sha::{sha1_of, sha1_digest};
use crate::hex::{hex_of, hex_encode};

verus! {

/// The position of the first `c`, or the length.
pub open spec fn spec_char_pos(s: Seq<char>, c: char, i: int) -> int
    decreases s.len() - i,
{
    if i < 0 || i >= s.len() {
        s.len() as int
    } else if s[i] == c {
        i
    } else {
        spec_char_pos(s, c, i + 1)
    }
}

/// A masked email for logs: its first character, three stars, and the
/// domain from the `@` on when there is one.
pub open spec fn spec_mask_email(email: Seq<char>) -> Seq<char> {
    let first: Seq<char> = if email.len() > 0 {
        email.take(1)
    } else {
        "*"@
    };
    let p = spec_char_pos(email, '@', 0);
    if p < email.len() {
        first + "***"@ + email.skip(p)
    } else {
        first + "***"@
    }
}

/// Masks an email address for logging.
pub fn mask_email(email: &str) -> (r: String)
    ensures
        r@ == spec_mask_email(email@),
{
    let n = email.unicode_len();
    let mut s: String = if n > 0 {
        email.substring_char(0, 1).to_owned()
    } else {
        proof {
            reveal_strlit("*");
        }
        String::from_str("*")
    };
    let mut i: usize = 0;
    while i < n
        invariant
            i <= n,
            n == email@.len(),
            s@ == (if email@.len() > 0 {
                email@.take(1)
            } else {
                "*"@
            }),
            spec_char_pos(email@, '@', 0) == spec_char_pos(email@, '@', i as int),
        decreases n - i,
    {
        if email.get_char(i) == '@' {
            proof {
                assert(spec_char_pos(email@, '@', i as int) == i as int);
            }
            s.append("***");
            let rest = email.substring_char(i, n);
            s.append(rest);
            proof {
                assert(rest@ =~= email@.skip(i as int));
            }
            return s;
        }
        i = i + 1;
    }
    s.append("***");
    s
}

/// Whether `s` ends with `sfx`, at the character level.
pub open spec fn spec_chars_end(s: Seq<char>, sfx: Seq<char>) -> bool {
    sfx.len() <= s.len() && s.skip(s.len() - sfx.len()) == sfx
}

fn chars_end(s: &str, sfx: &str) -> (r: bool)
    ensures
        r == spec_chars_end(s@, sfx@),
{
    let n = s.unicode_len();
    let p = sfx.unicode_len();
    if p > n {
        return false;
    }
    let tail = s.substring_char(n - p, n);
    let r = str_eq(tail, sfx);
    proof {
        assert(tail@ =~= s@.skip(n - p));
    }
    r
}

/// Whether a request path is one of the three git smart-HTTP endpoints.
pub open spec fn spec_is_git_http_path(path: Seq<char>) -> bool {
    spec_chars_end(path, "/info/refs"@) || spec_chars_end(path, "/git-receive-pack"@)
        || spec_chars_end(path, "/git-upload-pack"@)
}

/// Tests a request path for the git smart-HTTP endpoints.
pub fn is_git_http_path(path: &str) -> (r: bool)
    ensures
        r == spec_is_git_http_path(path@),
{
    chars_end(path, "/info/refs") || chars_end(path, "/git-receive-pack") || chars_end(
        path,
        "/git-upload-pack",
    )
}

/// The basic-auth cache key: the SHA-1 of `email:password`, in hex.
pub open spec fn spec_basic_auth_cache_key(email: Seq<char>, password: Seq<char>) -> Seq<char> {
    chars_of_bytes(
        hex_of(
            sha1_of(
                vstd::utf8::encode_utf8(email) + seq![58u8] + vstd::utf8::encode_utf8(password),
            ),
        ),
    )
}

/// Hashes credentials into their cache key.
pub fn basic_auth_cache_key(email: &str, password: &str) -> (r: String)
    ensures
        r@ == spec_basic_auth_cache_key(email@, password@),
{
    let mut data = email.as_bytes_vec();
    data.push(58);
    let mut pw = password.as_bytes_vec();
    data.append(&mut pw);
    proof {
        assert(data@ =~= vstd::utf8::encode_utf8(email@) + seq![58u8] + vstd::utf8::encode_utf8(
            password@,
        ));
    }
    let digest = sha1_digest(data.as_slice());
    let hx = hex_encode(digest.as_slice());
    proof {
        crate::tree::lemma_hex_chars_pub(digest@);
    }
    string_of_bytes_or_empty(hx.as_slice())
}

} // verus!
