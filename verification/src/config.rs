//! Configuration values and the URL normalization applied to the auth
//! collaborator's address.

use vstd::prelude::*;
use vstd::string::StringExecFns;
use crate::text::{str_eq, chars_of_bytes};

verus! {

/// The engine's configuration, as the process edge loads it.
pub struct Config {
    pub port: u16,
    pub database_url: String,
    pub aws_endpoint_url: String,
    pub aws_access_key_id: String,
    pub aws_secret_access_key: String,
    pub aws_s3_bucket_name: String,
    pub auth_service_url: String,
    pub redis_url: Option<String>,
}

/// Whether `s` begins with `prefix`, at the character level.
pub open spec fn spec_chars_start(s: Seq<char>, prefix: Seq<char>) -> bool {
    prefix.len() <= s.len() && s.take(prefix.len() as int) == prefix
}

/// Whether `needle` occurs anywhere in `s`.
pub open spec fn spec_chars_contain(s: Seq<char>, needle: Seq<char>, i: int) -> bool
    decreases s.len() - i,
{
    if i < 0 || i + needle.len() > s.len() {
        false
    } else if s.subrange(i, i + needle.len()) == needle {
        true
    } else if i >= s.len() {
        false
    } else {
        spec_chars_contain(s, needle, i + 1)
    }
}

fn chars_start(s: &str, prefix: &str) -> (r: bool)
    ensures
        r == spec_chars_start(s@, prefix@),
{
    let n = s.unicode_len();
    let p = prefix.unicode_len();
    if p > n {
        return false;
    }
    let head = s.substring_char(0, p);
    str_eq(head, prefix)
}

fn chars_contain(s: &str, needle: &str) -> (r: bool)
    ensures
        r == spec_chars_contain(s@, needle@, 0),
{
    let n = s.unicode_len();
    let p = needle.unicode_len();
    if p == 0 {
        let w = s.substring_char(0, 0);
        let r = str_eq(w, needle);
        proof {
            assert(s@.subrange(0, 0) =~= needle@);
        }
        return r;
    }
    let mut i: usize = 0;
    loop
        invariant_except_break
            i <= n,
            n == s@.len(),
            p == needle@.len(),
            p >= 1,
            spec_chars_contain(s@, needle@, 0) == spec_chars_contain(s@, needle@, i as int),
        ensures
            spec_chars_contain(s@, needle@, 0) == false,
        decreases n - i,
    {
        if p > n - i {
            proof {
                assert(!spec_chars_contain(s@, needle@, i as int));
            }
            break;
        }
        let w = s.substring_char(i, i + p);
        if str_eq(w, needle) {
            proof {
                assert(s@.subrange(i as int, i + p) == needle@);
                assert(spec_chars_contain(s@, needle@, i as int));
            }
            return true;
        }
        i = i + 1;
    }
    false
}

/// The normalized collaborator URL: an explicit scheme is kept, loopback
/// hosts get `http://`, anything else `https://`.
pub open spec fn spec_normalize_url(url: Seq<char>) -> Seq<char> {
    if spec_chars_start(url, "http://"@) || spec_chars_start(url, "https://"@) {
        url
    } else if spec_chars_contain(url, "localhost"@, 0) || spec_chars_start(url, "127.0.0.1"@)
        || spec_chars_start(url, "::1"@) {
        "http://"@ + url
    } else {
        "https://"@ + url
    }
}

/// Normalizes a collaborator URL to carry a scheme.
pub fn normalize_url(url: &str) -> (r: String)
    ensures
        r@ == spec_normalize_url(url@),
{
    if chars_start(url, "http://") || chars_start(url, "https://") {
        return url.to_owned();
    }
    if chars_contain(url, "localhost") || chars_start(url, "127.0.0.1") || chars_start(
        url,
        "::1",
    ) {
        let mut s = String::from_str("http://");
        s.append(url);
        return s;
    }
    let mut s = String::from_str("https://");
    s.append(url);
    s
}

} // verus!
