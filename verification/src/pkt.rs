//! pkt-line framing: each frame is a four-hex-digit length (counting the
//! prefix itself) followed by the payload; `0000` is a flush frame.

use vstd::prelude::*;
use crate::hex::{hex_digit_of, hex_value_of};
use crate::bytes::copy_range;
use crate::text::{chars_of_bytes, string_of_bytes};

verus! {

/// One pkt-line frame: a payload-carrying line or a flush.
pub enum PktPart {
    Line(Vec<u8>),
    Flush,
}

impl View for PktPart {
    type V = Option<Seq<u8>>;

    open spec fn view(&self) -> Option<Seq<u8>> {
        match self {
            PktPart::Line(v) => Some(v@),
            PktPart::Flush => None,
        }
    }
}

/// The frame sequence a vector of parts stands for.
pub open spec fn pkt_model(parts: Seq<PktPart>) -> Seq<Option<Seq<u8>>> {
    parts.map(|i: int, p: PktPart| p@)
}

/// A hex digit in either case.
pub open spec fn is_hex_digit_ci(b: u8) -> bool {
    (48 <= b && b <= 57) || (97 <= b && b <= 102) || (65 <= b && b <= 70)
}

/// The value of a hex digit in either case.
pub open spec fn hex_value_ci(b: u8) -> u8 {
    if 65 <= b && b <= 70 {
        (b - 65 + 10) as u8
    } else {
        hex_value_of(b)
    }
}

fn hex_value_ci_at(b: u8) -> (r: Option<u8>)
    ensures
        r is Some <==> is_hex_digit_ci(b),
        r is Some ==> r->0 == hex_value_ci(b) && r->0 < 16,
{
    if 48 <= b && b <= 57 {
        Some(b - 48)
    } else if 97 <= b && b <= 102 {
        Some(b - 97 + 10)
    } else if 65 <= b && b <= 70 {
        Some(b - 65 + 10)
    } else {
        None
    }
}

/// The four-digit hex length field at `pos`, where all four bytes are hex
/// digits.
pub open spec fn spec_parse_hex4(s: Seq<u8>, pos: int) -> Option<nat> {
    if pos < 0 || pos + 4 > s.len() {
        None
    } else if is_hex_digit_ci(s[pos]) && is_hex_digit_ci(s[pos + 1]) && is_hex_digit_ci(
        s[pos + 2],
    ) && is_hex_digit_ci(s[pos + 3]) {
        Some(
            (hex_value_ci(s[pos]) as nat * 4096 + hex_value_ci(s[pos + 1]) as nat * 256
                + hex_value_ci(s[pos + 2]) as nat * 16 + hex_value_ci(s[pos + 3]) as nat) as nat,
        )
    } else {
        None
    }
}

fn parse_hex4(s: &[u8], pos: usize) -> (r: Option<u16>)
    requires
        pos + 4 <= s@.len(),
    ensures
        match spec_parse_hex4(s@, pos as int) {
            None => r is None,
            Some(v) => r == Some(v as u16) && v < 0x10000,
        },
{
    let d0 = match hex_value_ci_at(s[pos]) {
        Some(v) => v,
        None => {
            return None;
        },
    };
    let d1 = match hex_value_ci_at(s[pos + 1]) {
        Some(v) => v,
        None => {
            return None;
        },
    };
    let d2 = match hex_value_ci_at(s[pos + 2]) {
        Some(v) => v,
        None => {
            return None;
        },
    };
    let d3 = match hex_value_ci_at(s[pos + 3]) {
        Some(v) => v,
        None => {
            return None;
        },
    };
    Some((d0 as u16) * 4096 + (d1 as u16) * 256 + (d2 as u16) * 16 + (d3 as u16))
}

/// The four lowercase hex digits of a value below `0x10000`.
pub open spec fn spec_hex4_bytes(v: nat) -> Seq<u8>
    recommends
        v < 0x10000,
{
    seq![
        hex_digit_of((v / 4096 % 16) as u8),
        hex_digit_of((v / 256 % 16) as u8),
        hex_digit_of((v / 16 % 16) as u8),
        hex_digit_of((v % 16) as u8),
    ]
}

fn push_hex4(out: &mut Vec<u8>, v: u16)
    ensures
        final(out)@ == old(out)@ + spec_hex4_bytes(v as nat),
{
    out.push(crate::hex::hex_digit((v / 4096 % 16) as u8));
    out.push(crate::hex::hex_digit((v / 256 % 16) as u8));
    out.push(crate::hex::hex_digit((v / 16 % 16) as u8));
    out.push(crate::hex::hex_digit((v % 16) as u8));
    proof {
        assert(out@ =~= old(out)@ + spec_hex4_bytes(v as nat));
    }
}

/// The framed form of a sequence of parts: each line's length plus four
/// as four hex digits, then the payload; `0000` for a flush.
pub open spec fn spec_pkt_encode(parts: Seq<Option<Seq<u8>>>) -> Seq<u8>
    decreases parts.len(),
{
    if parts.len() == 0 {
        Seq::empty()
    } else {
        let head = match parts[0] {
            Some(payload) => spec_hex4_bytes(payload.len() + 4) + payload,
            None => spec_hex4_bytes(0),
        };
        head + spec_pkt_encode(parts.drop_first())
    }
}

/// Frames a sequence of parts as pkt-lines.
pub fn pkt_encode(parts: &Vec<PktPart>) -> (r: Vec<u8>)
    requires
        forall|i: int| 0 <= i < parts@.len() ==> match #[trigger] parts@[i]@ {
            Some(payload) => payload.len() <= 0xfffb,
            None => true,
        },
    ensures
        r@ == spec_pkt_encode(pkt_model(parts@)),
{
    let mut out: Vec<u8> = Vec::new();
    let mut i: usize = 0;
    proof {
        assert(pkt_model(parts@).skip(0) =~= pkt_model(parts@));
    }
    while i < parts.len()
        invariant
            i <= parts@.len(),
            forall|j: int| 0 <= j < parts@.len() ==> match #[trigger] parts@[j]@ {
                Some(payload) => payload.len() <= 0xfffb,
                None => true,
            },
            spec_pkt_encode(pkt_model(parts@)) == out@ + spec_pkt_encode(
                pkt_model(parts@).skip(i as int),
            ),
        decreases parts.len() - i,
    {
        let ghost before = out@;
        let ghost tail = pkt_model(parts@).skip(i as int);
        proof {
            assert(tail[0] == parts@[i as int]@);
            assert(tail.drop_first() =~= pkt_model(parts@).skip(i + 1));
        }
        match &parts[i] {
            PktPart::Line(payload) => {
                let n = payload.len();
                push_hex4(&mut out, (n + 4) as u16);
                let mut piece = copy_range(payload.as_slice(), 0, n);
                out.append(&mut piece);
                proof {
                    assert(payload@.subrange(0, payload@.len() as int) =~= payload@);
                    assert(out@ =~= before + (spec_hex4_bytes(payload@.len() + 4) + payload@));
                    assert(before + (spec_hex4_bytes(payload@.len() + 4) + payload@)
                        + spec_pkt_encode(pkt_model(parts@).skip(i + 1)) =~= before
                        + spec_pkt_encode(tail));
                }
            },
            PktPart::Flush => {
                push_hex4(&mut out, 0);
                proof {
                    assert(out@ =~= before + spec_hex4_bytes(0));
                    assert(before + spec_hex4_bytes(0) + spec_pkt_encode(
                        pkt_model(parts@).skip(i + 1),
                    ) =~= before + spec_pkt_encode(tail));
                }
            },
        }
        i = i + 1;
    }
    proof {
        assert(pkt_model(parts@).skip(parts@.len() as int) =~= Seq::<Option<Seq<u8>>>::empty());
        assert(out@ + Seq::<u8>::empty() =~= out@);
    }
    out
}

/// The frames of a pkt-line stream from `pos`: stops at a short frame, a
/// length below four, or a length field that is not hex.
pub open spec fn spec_pkt_parse(data: Seq<u8>, pos: int) -> Seq<Option<Seq<u8>>>
    decreases data.len() - pos,
{
    if pos < 0 || pos + 4 > data.len() {
        Seq::empty()
    } else {
        match spec_parse_hex4(data, pos) {
            None => Seq::empty(),
            Some(l) => if l == 0 {
                seq![None] + spec_pkt_parse(data, pos + 4)
            } else if l < 4 {
                Seq::empty()
            } else if pos + l > data.len() {
                Seq::empty()
            } else {
                seq![Some(data.subrange(pos + 4, pos + l))] + spec_pkt_parse(data, pos + l)
            },
        }
    }
}

/// Splits a pkt-line stream into its frames, preserving flush frames.
pub fn pkt_parse(data: &[u8]) -> (r: Vec<PktPart>)
    ensures
        pkt_model(r@) == spec_pkt_parse(data@, 0),
{
    let n = data.len();
    let mut out: Vec<PktPart> = Vec::new();
    let mut pos: usize = 0;
    loop
        invariant_except_break
            data@.len() == n,
            pos <= n,
            spec_pkt_parse(data@, 0) == pkt_model(out@) + spec_pkt_parse(data@, pos as int),
        ensures
            spec_pkt_parse(data@, 0) == pkt_model(out@),
        decreases n - pos,
    {
        let ghost before = pkt_model(out@);
        if n - pos < 4 {
            proof {
                assert(before + Seq::<Option<Seq<u8>>>::empty() =~= before);
            }
            break;
        }
        let l = match parse_hex4(data, pos) {
            Some(v) => v as usize,
            None => {
                proof {
                    assert(before + Seq::<Option<Seq<u8>>>::empty() =~= before);
                }
                break;
            },
        };
        if l == 0 {
            out.push(PktPart::Flush);
            proof {
                assert(pkt_model(out@) =~= before + seq![Option::<Seq<u8>>::None]);
                assert(before + (seq![Option::<Seq<u8>>::None] + spec_pkt_parse(
                    data@,
                    pos + 4,
                )) =~= pkt_model(out@) + spec_pkt_parse(data@, pos + 4));
            }
            pos = pos + 4;
        } else if l < 4 {
            proof {
                assert(before + Seq::<Option<Seq<u8>>>::empty() =~= before);
            }
            break;
        } else if l > n - pos {
            proof {
                assert(before + Seq::<Option<Seq<u8>>>::empty() =~= before);
            }
            break;
        } else {
            let payload = copy_range(data, pos + 4, pos + l);
            let ghost pv = payload@;
            out.push(PktPart::Line(payload));
            proof {
                assert(pkt_model(out@) =~= before + seq![Some(pv)]);
                assert(before + (seq![Some(pv)] + spec_pkt_parse(data@, pos + l)) =~= pkt_model(
                    out@,
                ) + spec_pkt_parse(data@, pos + l));
            }
            pos = pos + l;
        }
    }
    out
}

/// Lowercase hex digits are case-insensitive hex digits with the same
/// value.
proof fn lemma_hex_digit_ci(v: u8)
    requires
        v < 16,
    ensures
        is_hex_digit_ci(hex_digit_of(v)),
        hex_value_ci(hex_digit_of(v)) == v,
{
}

/// A four-digit length field written by the encoder reads back to its
/// value.
proof fn lemma_hex4_round_trip(s: Seq<u8>, pos: int, v: nat)
    requires
        v < 0x10000,
        0 <= pos,
        pos + 4 <= s.len(),
        s.subrange(pos, pos + 4) == spec_hex4_bytes(v),
    ensures
        spec_parse_hex4(s, pos) == Some(v),
{
    let enc = spec_hex4_bytes(v);
    assert(s[pos] == enc[0] && s[pos + 1] == enc[1] && s[pos + 2] == enc[2] && s[pos + 3]
        == enc[3]) by {
        assert(forall|i: int| 0 <= i < 4 ==> s.subrange(pos, pos + 4)[i] == #[trigger] s[pos + i]);
    }
    lemma_hex_digit_ci((v / 4096 % 16) as u8);
    lemma_hex_digit_ci((v / 256 % 16) as u8);
    lemma_hex_digit_ci((v / 16 % 16) as u8);
    lemma_hex_digit_ci((v % 16) as u8);
    assert((v / 4096 % 16) * 4096 + (v / 256 % 16) * 256 + (v / 16 % 16) * 16 + v % 16 == v) by {
        assert(v / 4096 % 16 == v / 4096);
        assert(v / 256 % 16 == v / 256 - (v / 4096) * 16) by (nonlinear_arith)
            requires v < 0x10000;
        assert(v / 16 % 16 == v / 16 - (v / 256) * 16) by (nonlinear_arith)
            requires v < 0x10000;
        assert(v % 16 == v - (v / 16) * 16) by (nonlinear_arith)
            requires v < 0x10000;
    }
}

/// Framing round trip: parsing an encoded stream of frames gives back
/// exactly those frames, flush frames included.
pub proof fn lemma_pkt_round_trip(parts: Seq<Option<Seq<u8>>>)
    requires
        forall|i: int| 0 <= i < parts.len() ==> match #[trigger] parts[i] {
            Some(payload) => payload.len() <= 0xfffb,
            None => true,
        },
    ensures
        spec_pkt_parse(spec_pkt_encode(parts), 0) == parts,
    decreases parts.len(),
{
    assert(spec_pkt_encode(parts).skip(0) =~= spec_pkt_encode(parts));
    lemma_pkt_parse_prefix(parts, spec_pkt_encode(parts), 0);
}

/// The general form: an encoded frame sequence standing at `pos` in a
/// larger stream parses back to those frames when nothing follows it.
proof fn lemma_pkt_parse_prefix(parts: Seq<Option<Seq<u8>>>, s: Seq<u8>, pos: int)
    requires
        forall|i: int| 0 <= i < parts.len() ==> match #[trigger] parts[i] {
            Some(payload) => payload.len() <= 0xfffb,
            None => true,
        },
        0 <= pos <= s.len(),
        s.skip(pos) == spec_pkt_encode(parts),
    ensures
        spec_pkt_parse(s, pos) == parts,
    decreases parts.len(),
{
    if parts.len() == 0 {
        assert(s.skip(pos).len() == 0);
        assert(spec_pkt_parse(s, pos) =~= parts);
    } else {
        let head = parts[0];
        let rest = parts.drop_first();
        let enc = spec_pkt_encode(parts);
        let headenc: Seq<u8> = match head {
            Some(payload) => spec_hex4_bytes(payload.len() + 4) + payload,
            None => spec_hex4_bytes(0),
        };
        assert(enc == headenc + spec_pkt_encode(rest));
        assert(s.skip(pos).len() == enc.len());
        match head {
            None => {
                assert(headenc.len() == 4);
                assert(s.subrange(pos, pos + 4) =~= spec_hex4_bytes(0)) by {
                    assert(forall|i: int| 0 <= i < 4 ==> s.skip(pos)[i] == #[trigger] headenc[i]);
                }
                lemma_hex4_round_trip(s, pos, 0);
                assert(s.skip(pos + 4) =~= spec_pkt_encode(rest)) by {
                    assert(forall|i: int| 0 <= i < spec_pkt_encode(rest).len() ==> s.skip(pos)[i
                        + 4] == #[trigger] spec_pkt_encode(rest)[i]);
                }
                lemma_pkt_parse_prefix(rest, s, pos + 4);
                assert(spec_pkt_parse(s, pos) =~= parts);
            },
            Some(payload) => {
                let l = payload.len() + 4;
                assert(headenc.len() == l);
                assert(s.subrange(pos, pos + 4) =~= spec_hex4_bytes(l)) by {
                    assert(forall|i: int| 0 <= i < 4 ==> s.skip(pos)[i] == #[trigger] headenc[i]);
                }
                lemma_hex4_round_trip(s, pos, l);
                assert(s.subrange(pos + 4, pos + l) =~= payload) by {
                    assert(forall|i: int| 0 <= i < payload.len() ==> s.skip(pos)[i + 4]
                        == #[trigger] payload[i]);
                }
                assert(s.skip(pos + l) =~= spec_pkt_encode(rest)) by {
                    assert(forall|i: int| 0 <= i < spec_pkt_encode(rest).len() ==> s.skip(pos)[i
                        + l] == #[trigger] spec_pkt_encode(rest)[i]);
                }
                lemma_pkt_parse_prefix(rest, s, pos + l);
                assert(spec_pkt_parse(s, pos) =~= parts);
            },
        }
    }
}

/// True of the ASCII whitespace bytes that line trimming removes.
pub open spec fn is_ascii_ws(b: u8) -> bool {
    b == 32 || b == 9 || b == 10 || b == 13 || b == 11 || b == 12
}

pub fn is_ascii_ws_at(b: u8) -> (r: bool)
    ensures
        r == is_ascii_ws(b),
{
    b == 32 || b == 9 || b == 10 || b == 13 || b == 11 || b == 12
}

/// The first position at or after `i` holding a byte that is not ASCII
/// whitespace, or the length when there is none.
pub open spec fn spec_skip_ws(s: Seq<u8>, i: int) -> int
    decreases s.len() - i,
{
    if i < 0 || i >= s.len() {
        s.len() as int
    } else if is_ascii_ws(s[i]) {
        spec_skip_ws(s, i + 1)
    } else {
        i
    }
}

/// The position after the last byte at or before `j - 1` that is not
/// ASCII whitespace, scanning down from `j`.
pub open spec fn spec_rskip_ws(s: Seq<u8>, j: int) -> int
    decreases j,
{
    if j <= 0 {
        0
    } else if j > s.len() {
        s.len() as int
    } else if is_ascii_ws(s[j - 1]) {
        spec_rskip_ws(s, j - 1)
    } else {
        j
    }
}

/// `s` with leading and trailing ASCII whitespace removed.
pub open spec fn spec_trim(s: Seq<u8>) -> Seq<u8> {
    let a = spec_skip_ws(s, 0);
    let b = spec_rskip_ws(s, s.len() as int);
    if a <= b {
        s.subrange(a, b)
    } else {
        Seq::empty()
    }
}

/// Removes leading and trailing ASCII whitespace.
pub fn trim_bytes(s: &[u8]) -> (r: Vec<u8>)
    ensures
        r@ == spec_trim(s@),
{
    let n = s.len();
    let mut a: usize = 0;
    while a < n && is_ascii_ws_at(s[a])
        invariant
            a <= n,
            n == s@.len(),
            spec_skip_ws(s@, 0) == spec_skip_ws(s@, a as int),
        decreases n - a,
    {
        a = a + 1;
    }
    assert(spec_skip_ws(s@, 0) == a as int);
    let mut b: usize = n;
    while b > 0 && is_ascii_ws_at(s[b - 1])
        invariant
            b <= n,
            n == s@.len(),
            spec_rskip_ws(s@, n as int) == spec_rskip_ws(s@, b as int),
        decreases b,
    {
        b = b - 1;
    }
    assert(spec_rskip_ws(s@, n as int) == b as int);
    if a <= b {
        copy_range(s, a, b)
    } else {
        Vec::new()
    }
}

/// The lines of a pkt-line stream as the protocol reader sees them:
/// flush frames are dropped, each payload is trimmed of ASCII whitespace,
/// and payloads that are not valid UTF-8 are skipped.
pub open spec fn spec_pkt_lines(frames: Seq<Option<Seq<u8>>>) -> Seq<Seq<char>>
    decreases frames.len(),
{
    if frames.len() == 0 {
        Seq::empty()
    } else {
        let rest = spec_pkt_lines(frames.drop_first());
        match frames[0] {
            None => rest,
            Some(payload) => if vstd::utf8::valid_utf8(spec_trim(payload)) {
                seq![chars_of_bytes(spec_trim(payload))] + rest
            } else {
                rest
            },
        }
    }
}

/// Extracts the textual command lines of a pkt-line stream.
pub fn parse_pkt_lines(data: &[u8]) -> (r: Vec<String>)
    ensures
        r@.map(|i: int, s: String| s@) == spec_pkt_lines(spec_pkt_parse(data@, 0)),
{
    let frames = pkt_parse(data);
    let ghost model = pkt_model(frames@);
    let mut out: Vec<String> = Vec::new();
    let mut i: usize = 0;
    proof {
        assert(model.skip(0) =~= model);
        assert(out@.map(|k: int, s: String| s@) =~= Seq::<Seq<char>>::empty());
    }
    while i < frames.len()
        invariant
            i <= frames@.len(),
            model == pkt_model(frames@),
            spec_pkt_lines(model) == out@.map(|k: int, s: String| s@) + spec_pkt_lines(
                model.skip(i as int),
            ),
        decreases frames.len() - i,
    {
        let ghost before = out@.map(|k: int, s: String| s@);
        let ghost tail = model.skip(i as int);
        proof {
            assert(tail[0] == model[i as int]);
            assert(tail.drop_first() =~= model.skip(i + 1));
        }
        match &frames[i] {
            PktPart::Flush => {
            },
            PktPart::Line(payload) => {
                let trimmed = trim_bytes(payload.as_slice());
                match string_of_bytes(trimmed.as_slice()) {
                    Some(line) => {
                        out.push(line);
                        proof {
                            assert(out@.map(|k: int, s: String| s@) =~= before + seq![
                                chars_of_bytes(spec_trim(payload@)),
                            ]);
                            assert(before + (seq![chars_of_bytes(spec_trim(payload@))]
                                + spec_pkt_lines(model.skip(i + 1))) =~= out@.map(
                                |k: int, s: String| s@,
                            ) + spec_pkt_lines(model.skip(i + 1)));
                        }
                    },
                    None => {
                    },
                }
            },
        }
        i = i + 1;
    }
    proof {
        assert(model.skip(model.len() as int) =~= Seq::<Option<Seq<u8>>>::empty());
        assert(out@.map(|k: int, s: String| s@) + Seq::<Seq<char>>::empty() =~= out@.map(
            |k: int, s: String| s@,
        ));
    }
    out
}

/// A framed stream whose first part is a kept line begins with the
/// line's four hex length digits and its payload.
pub proof fn lemma_pkt_encode_first(parts: Seq<Option<Seq<u8>>>, l: Seq<u8>)
    requires
        parts.len() > 0,
        parts[0] == Some(l),
    ensures
        spec_pkt_encode(parts) == spec_hex4_bytes((l.len() + 4) as nat) + l + spec_pkt_encode(
            parts.drop_first(),
        ),
{
    assert(spec_pkt_encode(parts) =~= spec_hex4_bytes((l.len() + 4) as nat) + l
        + spec_pkt_encode(parts.drop_first()));
}

/// A flush appended to a framed stream appends its four zero digits.
pub proof fn lemma_pkt_encode_flush(parts: Seq<Option<Seq<u8>>>)
    ensures
        spec_pkt_encode(parts.push(Option::<Seq<u8>>::None)) == spec_pkt_encode(parts)
            + spec_hex4_bytes(0),
    decreases parts.len(),
{
    let whole = parts.push(Option::<Seq<u8>>::None);
    if parts.len() == 0 {
        assert(whole[0] is None);
        assert(whole.drop_first() =~= parts);
        assert(spec_pkt_encode(whole) =~= spec_pkt_encode(parts) + spec_hex4_bytes(0));
    } else {
        lemma_pkt_encode_flush(parts.drop_first());
        assert(whole[0] == parts[0]);
        assert(whole.drop_first() =~= parts.drop_first().push(Option::<Seq<u8>>::None));
        assert(spec_pkt_encode(whole) =~= spec_pkt_encode(parts) + spec_hex4_bytes(0));
    }
}

} // verus!
