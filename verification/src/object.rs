//! The canonical object envelope: `"<type> <decimal-size>\0<payload>"`,
//! zlib-deflated at rest.

use vstd::prelude::*;
use crate::bytes::{copy_range, spec_find_byte, find_byte};
use crate::text::{chars_of_bytes, string_of_bytes};
use crate::zlib::{inflate_of, deflate_of, decompress_zlib, compress_zlib};
use vstd::slice::slice_subrange;

verus! {

/// The decimal digits of `n`, most significant first.
pub open spec fn spec_dec_of(n: nat) -> Seq<u8>
    decreases n,
{
    if n < 10 {
        seq![(48 + n) as u8]
    } else {
        spec_dec_of(n / 10) + seq![(48 + n % 10) as u8]
    }
}

/// Appends the decimal digits of `n`.
pub fn push_dec(out: &mut Vec<u8>, n: usize)
    ensures
        final(out)@ == old(out)@ + spec_dec_of(n as nat),
    decreases n,
{
    if n < 10 {
        out.push(48 + n as u8);
        assert(out@ =~= old(out)@ + spec_dec_of(n as nat));
    } else {
        push_dec(out, n / 10);
        let ghost mid = out@;
        out.push(48 + (n % 10) as u8);
        proof {
            assert(out@ =~= mid + seq![(48 + (n as nat) % 10) as u8]);
            assert(out@ =~= old(out)@ + spec_dec_of(n as nat));
        }
    }
}

/// The canonical envelope for a payload: type name, a space, the decimal
/// payload length, a NUL, then the payload.
pub open spec fn spec_object_frame(tname: Seq<u8>, payload: Seq<u8>) -> Seq<u8> {
    tname + seq![32u8] + spec_dec_of(payload.len()) + seq![0u8] + payload
}

/// Builds the canonical envelope around a payload.
pub fn make_object_frame(tname: &[u8], payload: &[u8]) -> (r: Vec<u8>)
    ensures
        r@ == spec_object_frame(tname@, payload@),
{
    let mut out: Vec<u8> = Vec::new();
    let mut t = copy_range(tname, 0, tname.len());
    out.append(&mut t);
    out.push(32);
    push_dec(&mut out, payload.len());
    out.push(0);
    let mut p = copy_range(payload, 0, payload.len());
    out.append(&mut p);
    proof {
        assert(tname@.subrange(0, tname@.len() as int) =~= tname@);
        assert(payload@.subrange(0, payload@.len() as int) =~= payload@);
        assert(out@ =~= spec_object_frame(tname@, payload@));
    }
    out
}

/// The split of an inflated object into type and payload: the header runs
/// to the first NUL and must be UTF-8 holding a space; the type is what
/// stands before the first space.
pub open spec fn spec_split_object(d: Seq<u8>) -> Option<(Seq<u8>, Seq<u8>)> {
    match spec_find_byte(d, 0, 0) {
        None => None,
        Some(nul) => {
            let header = d.take(nul);
            if !vstd::utf8::valid_utf8(header) {
                None
            } else {
                match spec_find_byte(header, 32, 0) {
                    None => None,
                    Some(sp) => {
                        let type_bytes = header.take(sp);
                        if vstd::utf8::valid_utf8(type_bytes) {
                            Some((type_bytes, d.skip(nul + 1)))
                        } else {
                            None
                        }
                    },
                }
            }
        },
    }
}

/// What a stored object parses to: the inflated bytes split into the
/// envelope's type name and the payload.
pub open spec fn spec_parse_git_object(raw: Seq<u8>) -> Option<(Seq<u8>, Seq<u8>)> {
    match inflate_of(raw) {
        None => None,
        Some(d) => spec_split_object(d),
    }
}

/// Inflates a stored object and splits the envelope, returning the type
/// name and the payload bytes.
pub fn parse_git_object(data: &[u8]) -> (r: Option<(String, Vec<u8>)>)
    ensures
        r is Some <==> spec_parse_git_object(data@) is Some,
        r matches Some((t, payload)) ==> spec_parse_git_object(data@) matches Some((tb, pb))
            && t@ == chars_of_bytes(tb) && payload@ == pb,
{
    let decompressed = match decompress_zlib(data) {
        Some(d) => d,
        None => {
            return None;
        },
    };
    split_object(decompressed.as_slice())
}

/// Splits an already-inflated object envelope.
pub fn split_object(d: &[u8]) -> (r: Option<(String, Vec<u8>)>)
    ensures
        r is Some <==> spec_split_object(d@) is Some,
        r matches Some((t, payload)) ==> spec_split_object(d@) matches Some((tb, pb)) && t@
            == chars_of_bytes(tb) && payload@ == pb,
{
    let n = d.len();
    let nul = match find_byte(d, 0, 0) {
        Some(p) => p,
        None => {
            return None;
        },
    };
    let header = slice_subrange(d, 0, nul);
    proof {
        assert(header@ =~= d@.take(nul as int));
    }
    if string_of_bytes(header).is_none() {
        return None;
    }
    let sp = match find_byte(header, 32, 0) {
        Some(p) => p,
        None => {
            return None;
        },
    };
    let type_bytes = slice_subrange(header, 0, sp);
    proof {
        assert(type_bytes@ =~= header@.take(sp as int));
    }
    let t = match string_of_bytes(type_bytes) {
        Some(s) => s,
        None => {
            return None;
        },
    };
    let payload = copy_range(d, nul + 1, n);
    proof {
        assert(payload@ =~= d@.skip(nul + 1));
    }
    Some((t, payload))
}

/// The payload of a stored blob where it is valid UTF-8.
pub open spec fn spec_parse_blob(raw: Seq<u8>) -> Option<Seq<char>> {
    match inflate_of(raw) {
        None => None,
        Some(d) => match spec_find_byte(d, 0, 0) {
            None => None,
            Some(nul) => {
                let payload = d.skip(nul + 1);
                if vstd::utf8::valid_utf8(payload) {
                    Some(vstd::utf8::decode_utf8(payload))
                } else {
                    None
                }
            },
        },
    }
}

/// Inflates a stored blob and returns its payload as text.
pub fn parse_blob(data: &[u8]) -> (r: Option<String>)
    ensures
        r is Some <==> spec_parse_blob(data@) is Some,
        r matches Some(s) ==> spec_parse_blob(data@) == Some(s@),
{
    let decompressed = match decompress_zlib(data) {
        Some(d) => d,
        None => {
            return None;
        },
    };
    let n = decompressed.len();
    let nul = match find_byte(decompressed.as_slice(), 0, 0) {
        Some(p) => p,
        None => {
            return None;
        },
    };
    let payload = copy_range(decompressed.as_slice(), nul + 1, n);
    proof {
        assert(payload@ =~= decompressed@.skip(nul + 1));
    }
    string_of_bytes(payload.as_slice())
}

/// The zlib-wrapped canonical form of an object: what the store keeps and
/// hands out.
pub open spec fn spec_wrap_object(tname: Seq<u8>, payload: Seq<u8>) -> Seq<u8> {
    deflate_of(spec_object_frame(tname, payload))
}

/// Frames a payload in the canonical envelope and deflates it.
pub fn wrap_object(tname: &[u8], payload: &[u8]) -> (r: Vec<u8>)
    ensures
        r@ == spec_wrap_object(tname@, payload@),
        inflate_of(r@) == Some(spec_object_frame(tname@, payload@)),
{
    let framed = make_object_frame(tname, payload);
    compress_zlib(framed.as_slice())
}

/// The pack type number of a type name: 1 commit, 2 tree, 3 blob, 4 tag.
pub open spec fn spec_type_number(t: Seq<char>) -> Option<u8> {
    if t == "commit"@ {
        Some(1u8)
    } else if t == "tree"@ {
        Some(2u8)
    } else if t == "blob"@ {
        Some(3u8)
    } else if t == "tag"@ {
        Some(4u8)
    } else {
        None
    }
}

/// The type name of a pack type number.
pub open spec fn spec_tname(n: u8) -> Option<Seq<u8>> {
    if n == 1 {
        Some("commit"@.map(|i: int, c: char| c as u8))
    } else if n == 2 {
        Some("tree"@.map(|i: int, c: char| c as u8))
    } else if n == 3 {
        Some("blob"@.map(|i: int, c: char| c as u8))
    } else if n == 4 {
        Some("tag"@.map(|i: int, c: char| c as u8))
    } else {
        None
    }
}

/// The byte form of an ASCII type name.
pub fn tname_bytes(n: u8) -> (r: Option<Vec<u8>>)
    ensures
        match spec_tname(n) {
            None => r is None,
            Some(tb) => r matches Some(v) && v@ == tb,
        },
{
    let mut out: Vec<u8> = Vec::new();
    if n == 1 {
        out.push(99);
        out.push(111);
        out.push(109);
        out.push(109);
        out.push(105);
        out.push(116);
        proof {
            reveal_strlit("commit");
            assert(out@ =~= spec_tname(1)->0);
        }
        Some(out)
    } else if n == 2 {
        out.push(116);
        out.push(114);
        out.push(101);
        out.push(101);
        proof {
            reveal_strlit("tree");
            assert(out@ =~= spec_tname(2)->0);
        }
        Some(out)
    } else if n == 3 {
        out.push(98);
        out.push(108);
        out.push(111);
        out.push(98);
        proof {
            reveal_strlit("blob");
            assert(out@ =~= spec_tname(3)->0);
        }
        Some(out)
    } else if n == 4 {
        out.push(116);
        out.push(97);
        out.push(103);
        proof {
            reveal_strlit("tag");
            assert(out@ =~= spec_tname(4)->0);
        }
        Some(out)
    } else {
        None
    }
}

} // verus!
