//! Conversions between byte strings and `String`, and small text helpers.
//! Object payloads are bytes; the browsing structures carry `String`
//! fields, so parsing converts at the edge through `string_of_bytes`.

use vstd::prelude::*;
use vstd::string::StringSliceAdditionalSpecFns;

verus! {

/// The characters of a byte string where it is valid UTF-8, and the empty
/// character sequence where it is not.
pub open spec fn chars_of_bytes(s: Seq<u8>) -> Seq<char> {
    if vstd::utf8::valid_utf8(s) {
        vstd::utf8::decode_utf8(s)
    } else {
        Seq::empty()
    }
}

/// Relies on `String::from_utf8` of std: it accepts exactly valid UTF-8
/// and the returned string holds exactly the given bytes.
#[verifier::external_body]
pub(crate) fn string_of_bytes(data: &[u8]) -> (r: Option<String>)
    ensures
        r is Some <==> vstd::utf8::valid_utf8(data@),
        r is Some ==> r->0@ == vstd::utf8::decode_utf8(data@),
{
    match core::str::from_utf8(data) {
        Ok(s) => Some(s.to_string()),
        Err(_) => None,
    }
}

/// The string of a byte range, or the empty string where it is not valid
/// UTF-8; mirrors how parsed fields fall back when a payload is mangled.
pub fn string_of_bytes_or_empty(data: &[u8]) -> (r: String)
    ensures
        r@ == chars_of_bytes(data@),
{
    match string_of_bytes(data) {
        Some(s) => s,
        None => String::new(),
    }
}

/// True when two strings hold the same characters.
pub fn str_eq(a: &str, b: &str) -> (r: bool)
    ensures
        r == (a@ == b@),
{
    let r = crate::bytes::bytes_eq(a.as_bytes(), b.as_bytes());
    proof {
        if a.spec_bytes() == b.spec_bytes() {
            vstd::utf8::encode_utf8_decode_utf8(a@);
            vstd::utf8::encode_utf8_decode_utf8(b@);
            assert(a@ == b@);
        }
    }
    r
}

/// Lexicographic order on character sequences by code point, as `String`
/// comparison orders them.
pub open spec fn spec_chars_le(a: Seq<char>, b: Seq<char>) -> bool
    decreases a.len(),
{
    if a.len() == 0 {
        true
    } else if b.len() == 0 {
        false
    } else if a[0] != b[0] {
        (a[0] as u32) < (b[0] as u32)
    } else {
        spec_chars_le(a.drop_first(), b.drop_first())
    }
}

/// The order is total: one direction always holds.
pub proof fn lemma_chars_le_total(a: Seq<char>, b: Seq<char>)
    ensures
        spec_chars_le(a, b) || spec_chars_le(b, a),
    decreases a.len(),
{
    if a.len() > 0 && b.len() > 0 {
        if a[0] == b[0] {
            lemma_chars_le_total(a.drop_first(), b.drop_first());
        } else {
            vstd::utf8::char_u32_cast(a[0], a[0] as u32);
            vstd::utf8::char_u32_cast(b[0], b[0] as u32);
            assert(a[0] as u32 != b[0] as u32);
        }
    }
}

/// Compares two strings in code-point order.
pub fn chars_le(a: &str, b: &str) -> (r: bool)
    ensures
        r == spec_chars_le(a@, b@),
{
    let na = a.unicode_len();
    let nb = b.unicode_len();
    let mut i: usize = 0;
    proof {
        assert(a@.skip(0) =~= a@);
        assert(b@.skip(0) =~= b@);
    }
    loop
        invariant_except_break
            i <= na,
            i <= nb,
            na == a@.len(),
            nb == b@.len(),
            spec_chars_le(a@, b@) == spec_chars_le(a@.skip(i as int), b@.skip(i as int)),
        ensures
            i <= na && i <= nb,
            na == a@.len() && nb == b@.len(),
            spec_chars_le(a@, b@) == spec_chars_le(a@.skip(i as int), b@.skip(i as int)),
            (i >= na || i >= nb) || a@[i as int] != b@[i as int],
        decreases na - i,
    {
        if i >= na || i >= nb {
            break;
        }
        let ca = a.get_char(i);
        let cb = b.get_char(i);
        if ca != cb {
            break;
        }
        proof {
            assert(a@.skip(i as int).drop_first() =~= a@.skip(i + 1));
            assert(b@.skip(i as int).drop_first() =~= b@.skip(i + 1));
            assert(a@.skip(i as int)[0] == a@[i as int]);
            assert(b@.skip(i as int)[0] == b@[i as int]);
        }
        i = i + 1;
    }
    if i >= na {
        proof {
            assert(i == na);
            assert(a@.skip(i as int).len() == 0);
        }
        return true;
    }
    if i >= nb {
        proof {
            assert(i == nb);
            assert(b@.skip(i as int).len() == 0);
            assert(a@.skip(i as int).len() > 0);
        }
        return false;
    }
    let ca = a.get_char(i);
    let cb = b.get_char(i);
    proof {
        assert(a@.skip(i as int)[0] == a@[i as int]);
        assert(b@.skip(i as int)[0] == b@[i as int]);
    }
    (ca as u32) < (cb as u32)
}

} // verus!
