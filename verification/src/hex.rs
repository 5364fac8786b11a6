//! Lowercase hex encoding and decoding of byte strings, with a direct
//! mathematical specification.

use vstd::prelude::*;

verus! {

/// The lowercase hex digit for a value below 16.
pub open spec fn hex_digit_of(v: u8) -> u8
    recommends
        v < 16,
{
    if v < 10 {
        (48 + v) as u8
    } else {
        (97 + (v - 10)) as u8
    }
}

/// The numeric value of a lowercase hex digit.
pub open spec fn hex_value_of(b: u8) -> u8 {
    if 48 <= b && b <= 57 {
        (b - 48) as u8
    } else {
        (b - 97 + 10) as u8
    }
}

/// The two lowercase hex digits of one byte, high nibble first.
pub open spec fn hex_pair_of(b: u8) -> Seq<u8> {
    seq![hex_digit_of(b / 16), hex_digit_of((b % 16) as u8)]
}

/// Lowercase hex encoding of a byte string: two digits for each byte.
pub open spec fn hex_of(s: Seq<u8>) -> Seq<u8>
    decreases s.len(),
{
    if s.len() == 0 {
        Seq::empty()
    } else {
        hex_pair_of(s[0]) + hex_of(s.drop_first())
    }
}

/// The byte named by two hex digits, high nibble first.
pub open spec fn byte_of_hex_pair(hi: u8, lo: u8) -> u8 {
    (hex_value_of(hi) * 16 + hex_value_of(lo)) as u8
}

/// Decoding of an even-length string of lowercase hex digits.
pub open spec fn unhex_of(s: Seq<u8>) -> Seq<u8>
    decreases s.len(),
{
    if s.len() < 2 {
        Seq::empty()
    } else {
        seq![byte_of_hex_pair(s[0], s[1])] + unhex_of(s.skip(2))
    }
}

proof fn lemma_hex_len(s: Seq<u8>)
    ensures
        hex_of(s).len() == 2 * s.len(),
    decreases s.len(),
{
    if s.len() > 0 {
        lemma_hex_len(s.drop_first());
    }
}

proof fn lemma_hex_snoc(s: Seq<u8>, b: u8)
    ensures
        hex_of(s.push(b)) == hex_of(s) + hex_pair_of(b),
    decreases s.len(),
{
    assert(s.push(b)[0] == if s.len() == 0 { b } else { s[0] });
    if s.len() == 0 {
        assert(s.push(b).drop_first() =~= s);
        assert(hex_of(s.push(b)) == hex_pair_of(b) + hex_of(s));
        assert(hex_of(s.push(b)) =~= hex_of(s) + hex_pair_of(b));
    } else {
        lemma_hex_snoc(s.drop_first(), b);
        assert(s.push(b).drop_first() =~= s.drop_first().push(b));
        assert(hex_of(s.push(b)) =~= hex_of(s) + hex_pair_of(b));
    }
}

pub fn hex_digit(v: u8) -> (r: u8)
    requires
        v < 16,
    ensures
        r == hex_digit_of(v),
        crate::is_hex_digit(r),
{
    if v < 10 {
        48 + v
    } else {
        97 + (v - 10)
    }
}

/// Encodes bytes as lowercase hex, two digits for each byte.
pub fn hex_encode(data: &[u8]) -> (r: Vec<u8>)
    ensures
        r@ == hex_of(data@),
        r@.len() == 2 * data@.len(),
{
    proof {
        lemma_hex_len(data@);
    }
    let mut out: Vec<u8> = Vec::new();
    let mut i: usize = 0;
    while i < data.len()
        invariant
            i <= data.len(),
            out@ == hex_of(data@.take(i as int)),
            out@.len() == 2 * i,
        decreases data.len() - i,
    {
        let b = data[i];
        proof {
            lemma_hex_len(data@.take(i as int));
            lemma_hex_snoc(data@.take(i as int), b);
            assert(data@.take(i + 1) =~= data@.take(i as int).push(b));
        }
        out.push(hex_digit(b / 16));
        out.push(hex_digit(b % 16));
        i = i + 1;
    }
    proof {
        assert(data@.take(data@.len() as int) =~= data@);
    }
    out
}

fn hex_value(b: u8) -> (r: Option<u8>)
    ensures
        r is Some <==> crate::is_hex_digit(b),
        r is Some ==> r->0 == hex_value_of(b) && r->0 < 16,
{
    if 48 <= b && b <= 57 {
        Some(b - 48)
    } else if 97 <= b && b <= 102 {
        Some(b - 97 + 10)
    } else {
        None
    }
}

proof fn lemma_unhex_snoc(s: Seq<u8>, hi: u8, lo: u8)
    requires
        s.len() % 2 == 0,
    ensures
        unhex_of(s + seq![hi, lo]) == unhex_of(s) + seq![byte_of_hex_pair(hi, lo)],
    decreases s.len(),
{
    if s.len() == 0 {
        let t = s + seq![hi, lo];
        assert(t =~= seq![hi, lo]);
        assert(t[0] == hi && t[1] == lo);
        assert(t.skip(2) =~= Seq::<u8>::empty());
        assert(unhex_of(t) == seq![byte_of_hex_pair(t[0], t[1])] + unhex_of(t.skip(2)));
        assert(unhex_of(t) =~= unhex_of(s) + seq![byte_of_hex_pair(hi, lo)]);
    } else {
        lemma_unhex_snoc(s.skip(2), hi, lo);
        assert((s + seq![hi, lo]).skip(2) =~= s.skip(2) + seq![hi, lo]);
        assert(unhex_of(s + seq![hi, lo]) =~= unhex_of(s) + seq![byte_of_hex_pair(hi, lo)]);
    }
}

pub proof fn lemma_unhex_len(s: Seq<u8>)
    requires
        s.len() % 2 == 0,
    ensures
        unhex_of(s).len() == s.len() / 2,
    decreases s.len(),
{
    if s.len() >= 2 {
        lemma_unhex_len(s.skip(2));
    }
}

/// True when every byte of `s` is a lowercase hex digit.
pub open spec fn all_hex_digits(s: Seq<u8>) -> bool {
    forall|i: int| 0 <= i < s.len() ==> crate::is_hex_digit(#[trigger] s[i])
}

/// Decodes an even-length lowercase hex string; `None` when the length is
/// odd or a byte is not a lowercase hex digit.
pub fn hex_decode(data: &[u8]) -> (r: Option<Vec<u8>>)
    ensures
        r is Some <==> (data@.len() % 2 == 0 && all_hex_digits(data@)),
        r is Some ==> r->0@ == unhex_of(data@) && r->0@.len() == data@.len() / 2,
{
    if data.len() % 2 != 0 {
        return None;
    }
    let mut out: Vec<u8> = Vec::new();
    let mut i: usize = 0;
    while i < data.len()
        invariant
            i <= data.len(),
            i % 2 == 0,
            data.len() % 2 == 0,
            out@ == unhex_of(data@.take(i as int)),
            all_hex_digits(data@.take(i as int)),
        decreases data.len() - i,
    {
        let hi = match hex_value(data[i]) {
            Some(v) => v,
            None => {
                return None;
            },
        };
        let lo = match hex_value(data[i + 1]) {
            Some(v) => v,
            None => {
                return None;
            },
        };
        proof {
            lemma_unhex_snoc(data@.take(i as int), data@[i as int], data@[i + 1]);
            assert(data@.take(i + 2) =~= data@.take(i as int) + seq![data@[i as int], data@[i + 1]]);
        }
        out.push(hi * 16 + lo);
        i = i + 2;
    }
    proof {
        assert(data@.take(data@.len() as int) =~= data@);
        lemma_unhex_len(data@);
    }
    Some(out)
}

/// Hex encoding inverts decoding: the digits of the decoded bytes are the
/// original digits.
pub proof fn lemma_hex_of_unhex(s: Seq<u8>)
    requires
        s.len() % 2 == 0,
        all_hex_digits(s),
    ensures
        hex_of(unhex_of(s)) == s,
    decreases s.len(),
{
    if s.len() == 0 {
        assert(hex_of(unhex_of(s)) =~= s);
    } else {
        lemma_hex_of_unhex(s.skip(2));
        let b = byte_of_hex_pair(s[0], s[1]);
        assert(hex_digit_of(b / 16) == s[0] && hex_digit_of((b % 16) as u8) == s[1]) by {
            assert(hex_value_of(s[0]) < 16 && hex_value_of(s[1]) < 16);
        }
        assert((seq![b] + unhex_of(s.skip(2))).drop_first() =~= unhex_of(s.skip(2)));
        assert(hex_of(unhex_of(s)) =~= s);
    }
}

/// Hex decoding inverts encoding: decoding the digits of `s` gives `s` back.
pub proof fn lemma_unhex_of_hex(s: Seq<u8>)
    ensures
        unhex_of(hex_of(s)) == s,
        hex_of(s).len() % 2 == 0,
        all_hex_digits(hex_of(s)),
    decreases s.len(),
{
    lemma_hex_len(s);
    if s.len() == 0 {
        assert(unhex_of(hex_of(s)) =~= s);
    } else {
        lemma_unhex_of_hex(s.drop_first());
        let b = s[0];
        assert(hex_value_of(hex_digit_of(b / 16)) == b / 16);
        assert(hex_value_of(hex_digit_of((b % 16) as u8)) == b % 16);
        assert(byte_of_hex_pair(hex_of(s)[0], hex_of(s)[1]) == b);
        assert(hex_of(s).skip(2) =~= hex_of(s.drop_first()));
        assert(unhex_of(hex_of(s)) =~= s);
        assert(forall|i: int| 0 <= i < hex_of(s).len() ==> crate::is_hex_digit(#[trigger] hex_of(s)[i]));
    }
}

} // verus!
