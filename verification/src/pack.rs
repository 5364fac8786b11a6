//! Packfiles: the object header encoding, the non-deltifying pack writer,
//! in-pack delta resolution, and a sequential scan that locates an object
//! by id when a pack's index has an all-zero fanout.

use vstd::prelude::*;
use crate::bytes::{copy_range, spec_u32_be_bytes, push_u32_be, starts_with, bytes_eq};
use crate::delta::{
    spec_varint, read_varint_at, spec_varint_bytes, spec_ofs_delta, read_ofs_delta_offset,
    spec_apply_delta, apply_delta,
};
use crate::zlib::{
    inflate_of, deflate_of, inflate_len_of, compress_zlib, decompress_zlib, decompress_zlib_prefix,
};
use crate::sha::{sha1_of, sha1_digest};
use crate::idx::spec_find_object_in_index;
use crate::object::{spec_object_frame, make_object_frame, spec_tname, tname_bytes};
use vstd::slice::slice_subrange;

verus! {

/// The pack object header at `pos`: three type bits and a size in a low
/// four bits plus seven-bit continuation groups.  `None` on a truncated
/// header.
pub open spec fn spec_pack_header(s: Seq<u8>, pos: int) -> Option<(u8, nat, int)> {
    if pos < 0 || pos >= s.len() {
        None
    } else {
        let b = s[pos];
        let t = ((b / 16) % 8) as u8;
        let low = (b % 16) as nat;
        if b < 128 {
            Some((t, low, pos + 1))
        } else {
            match spec_varint(s, pos + 1) {
                None => None,
                Some((v, np)) => Some((t, (low + v * 16) as nat, np)),
            }
        }
    }
}

/// Reads the object header at `offset`: the type, the size (where it fits
/// in memory), and the position just past the header.  A size varint cut
/// off by the end of the pack, or a size beyond the address space, is
/// `None`: such an entry is malformed, and a malformed entry is treated
/// as an object absent from this pack rather than read leniently.
pub fn read_pack_object_header(pack_data: &[u8], offset: u64) -> (r: Option<(u8, usize, usize)>)
    ensures
        match spec_pack_header(pack_data@, offset as int) {
            None => r is None,
            Some((t, size, next)) => if size <= usize::MAX {
                r == Some((t, size as usize, next as usize))
            } else {
                r is None
            },
        },
{
    let n = pack_data.len();
    if offset >= n as u64 {
        return None;
    }
    let pos = offset as usize;
    let b = pack_data[pos];
    let t = (b / 16) % 8;
    let low = (b % 16) as usize;
    if b < 128 {
        return Some((t, low, pos + 1));
    }
    match read_varint_at(pack_data, pos + 1) {
        None => None,
        Some((v, np)) => {
            if v > (usize::MAX - low) / 16 {
                None
            } else {
                Some((t, low + v * 16, np))
            }
        },
    }
}

/// The header bytes for an object of type `t` and payload size `size`:
/// the low four size bits share the first byte with the type, the rest is
/// a varint.
pub open spec fn spec_pack_header_bytes(t: u8, size: nat) -> Seq<u8>
    recommends
        1 <= t <= 4,
{
    if size < 16 {
        seq![(t * 16 + size) as u8]
    } else {
        seq![(128 + t * 16 + size % 16) as u8] + spec_varint_bytes(size / 16)
    }
}

/// Appends the pack object header for type `t` and size `size`.
pub fn push_pack_header(out: &mut Vec<u8>, t: u8, size: usize)
    requires
        1 <= t <= 4,
    ensures
        final(out)@ == old(out)@ + spec_pack_header_bytes(t, size as nat),
{
    if size < 16 {
        out.push(t * 16 + size as u8);
        assert(out@ =~= old(out)@ + spec_pack_header_bytes(t, size as nat));
    } else {
        out.push(128 + t * 16 + (size % 16) as u8);
        let ghost mid = out@;
        crate::delta::push_varint(out, size / 16);
        proof {
            assert(out@ =~= old(out)@ + spec_pack_header_bytes(t, size as nat));
        }
    }
}

/// The bytes of a non-deltifying pack over the given `(type, payload)`
/// objects: the `PACK` magic, version 2, the object count, each object's
/// header and deflated payload, and a trailing SHA-1.
pub open spec fn spec_pack_bytes(objects: Seq<(u8, Seq<u8>)>) -> Seq<u8> {
    let body = seq![80u8, 65u8, 67u8, 75u8] + spec_u32_be_bytes(2) + spec_u32_be_bytes(
        objects.len() as u32,
    ) + spec_pack_objects(objects);
    body + sha1_of(body)
}

/// The concatenated entries of a pack body.
pub open spec fn spec_pack_objects(objects: Seq<(u8, Seq<u8>)>) -> Seq<u8>
    decreases objects.len(),
{
    if objects.len() == 0 {
        Seq::empty()
    } else {
        spec_pack_header_bytes(objects[0].0, objects[0].1.len()) + deflate_of(objects[0].1)
            + spec_pack_objects(objects.drop_first())
    }
}

/// The model of a vector of `(type, payload)` objects.
pub open spec fn objects_model(objects: Seq<(u8, Vec<u8>)>) -> Seq<(u8, Seq<u8>)> {
    objects.map(|i: int, o: (u8, Vec<u8>)| (o.0, o.1@))
}

/// Writes a non-deltifying pack over the given objects; `None` when there
/// are none, as the protocol then sends nothing.
pub fn build_packfile(objects: &Vec<(u8, Vec<u8>)>) -> (r: Option<Vec<u8>>)
    requires
        objects@.len() <= 0xffffffff,
        forall|i: int| 0 <= i < objects@.len() ==> 1 <= (#[trigger] objects@[i]).0 <= 4,
    ensures
        r is Some <==> objects@.len() > 0,
        r matches Some(v) ==> v@ == spec_pack_bytes(objects_model(objects@)),
{
    if objects.len() == 0 {
        return None;
    }
    let ghost model = objects_model(objects@);
    let mut pack: Vec<u8> = Vec::new();
    pack.push(80);
    pack.push(65);
    pack.push(67);
    pack.push(75);
    push_u32_be(&mut pack, 2);
    push_u32_be(&mut pack, objects.len() as u32);
    let ghost front = pack@;
    proof {
        assert(front =~= seq![80u8, 65u8, 67u8, 75u8] + spec_u32_be_bytes(2) + spec_u32_be_bytes(
            model.len() as u32,
        ));
        assert(model.skip(0) =~= model);
    }
    let mut i: usize = 0;
    while i < objects.len()
        invariant
            i <= objects@.len(),
            model == objects_model(objects@),
            forall|k: int| 0 <= k < objects@.len() ==> 1 <= (#[trigger] objects@[k]).0 <= 4,
            front + spec_pack_objects(model) == pack@ + spec_pack_objects(model.skip(i as int)),
        decreases objects.len() - i,
    {
        let ghost before = pack@;
        let ghost tail = model.skip(i as int);
        proof {
            assert(tail[0] == model[i as int]);
            assert(tail.drop_first() =~= model.skip(i + 1));
        }
        let t = objects[i].0;
        let size = objects[i].1.len();
        push_pack_header(&mut pack, t, size);
        let mut compressed = compress_zlib(objects[i].1.as_slice());
        pack.append(&mut compressed);
        proof {
            assert(pack@ =~= before + (spec_pack_header_bytes(t, size as nat) + deflate_of(
                model[i as int].1,
            )));
            assert(before + (spec_pack_header_bytes(t, size as nat) + deflate_of(
                model[i as int].1,
            ) + spec_pack_objects(model.skip(i + 1))) =~= pack@ + spec_pack_objects(
                model.skip(i + 1),
            ));
        }
        i = i + 1;
    }
    proof {
        assert(model.skip(model.len() as int) =~= Seq::<(u8, Seq<u8>)>::empty());
        assert(pack@ + Seq::<u8>::empty() =~= pack@);
        assert(pack@ == front + spec_pack_objects(model));
    }
    let mut checksum = sha1_digest(pack.as_slice());
    pack.append(&mut checksum);
    proof {
        assert(pack@ =~= spec_pack_bytes(model));
    }
    Some(pack)
}

/// What resolving the pack object at `offset` yields, with `fuel` bounding
/// the delta-chain depth: a plain object's type and inflated payload, an
/// OFS_DELTA applied to the base found by back-offset, or a REF_DELTA
/// applied to the base the pack's own index locates.
pub open spec fn spec_read_pack_object(pack: Seq<u8>, idx: Seq<u8>, offset: int, fuel: nat)
    -> Option<(u8, Seq<u8>)>
    decreases fuel,
{
    if fuel == 0 {
        None
    } else {
        match spec_pack_header(pack, offset) {
            None => None,
            Some((t, size, next)) => if 1 <= t <= 4 {
                match inflate_of(pack.skip(next)) {
                    None => None,
                    Some(content) => Some((t, content)),
                }
            } else if t == 6 {
                match spec_ofs_delta(pack.skip(next)) {
                    None => None,
                    Some((back, used)) => if back > offset || back == 0 {
                        None
                    } else {
                        match spec_read_pack_object(pack, idx, offset - back, (fuel - 1) as nat) {
                            None => None,
                            Some((bt, base)) => match inflate_of(pack.skip(next + used)) {
                                None => None,
                                Some(d) => match spec_apply_delta(base, d) {
                                    None => None,
                                    Some(result) => Some((bt, result)),
                                },
                            },
                        }
                    },
                }
            } else if t == 7 {
                if next + 20 > pack.len() {
                    None
                } else {
                    let base_oid = pack.subrange(next, next + 20);
                    match spec_find_object_in_index(idx, base_oid) {
                        None => None,
                        Some(base_off) => match spec_read_pack_object(
                            pack,
                            idx,
                            base_off as int,
                            (fuel - 1) as nat,
                        ) {
                            None => None,
                            Some((bt, base)) => match inflate_of(pack.skip(next + 20)) {
                                None => None,
                                Some(d) => match spec_apply_delta(base, d) {
                                    None => None,
                                    Some(result) => Some((bt, result)),
                                },
                            },
                        },
                    }
                }
            } else {
                None
            },
        }
    }
}

/// The position just past the varint at `pos`, without its value.
fn varint_end(s: &[u8], pos: usize) -> (r: Option<usize>)
    ensures
        match spec_varint(s@, pos as int) {
            None => r is None,
            Some((v, np)) => r == Some(np as usize) && pos < np <= s@.len(),
        },
    decreases s@.len() - pos,
{
    if pos >= s.len() {
        return None;
    }
    if s[pos] < 128 {
        Some(pos + 1)
    } else {
        varint_end(s, pos + 1)
    }
}

/// The type and end position of the header at `offset`, independent of
/// the stated size.
pub fn pack_header_pos(pack: &[u8], offset: u64) -> (r: Option<(u8, usize)>)
    ensures
        match spec_pack_header(pack@, offset as int) {
            None => r is None,
            Some((t, size, next)) => r == Some((t, next as usize)) && offset < next <= pack@.len(),
        },
{
    let n = pack.len();
    if offset >= n as u64 {
        return None;
    }
    let pos = offset as usize;
    let b = pack[pos];
    let t = (b / 16) % 8;
    if b < 128 {
        return Some((t, pos + 1));
    }
    match varint_end(pack, pos + 1) {
        None => None,
        Some(np) => Some((t, np)),
    }
}

/// Resolves the pack object at `offset`, following OFS_DELTA back-offsets
/// and in-pack REF_DELTA bases to a chain depth of at most `fuel`.
#[verifier::rlimit(100)]
#[verifier::spinoff_prover]
pub fn read_pack_object(pack: &[u8], idx: &[u8], offset: u64, fuel: usize) -> (r: Option<
    (u8, Vec<u8>),
>)
    ensures
        match spec_read_pack_object(pack@, idx@, offset as int, fuel as nat) {
            None => r is None,
            Some((t, content)) => r matches Some(p) && p.0 == t && p.1@ == content,
        },
    decreases fuel,
{
    if fuel == 0 {
        return None;
    }
    let n = pack.len();
    let (t, next) = match pack_header_pos(pack, offset) {
        Some(h) => h,
        None => {
            return None;
        },
    };
    if 1 <= t && t <= 4 {
        let region = slice_subrange(pack, next, n);
        proof {
            assert(region@ =~= pack@.skip(next as int));
        }
        match decompress_zlib(region) {
            None => None,
            Some(content) => Some((t, content)),
        }
    } else if t == 6 {
        let region = slice_subrange(pack, next, n);
        proof {
            assert(region@ =~= pack@.skip(next as int));
        }
        let (back, used) = match read_ofs_delta_offset(region) {
            Some(x) => x,
            None => {
                proof {
                    match spec_ofs_delta(pack@.skip(next as int)) {
                        Some(p) => {
                            assert(p.0 > u64::MAX);
                            assert(p.0 > offset as nat);
                        },
                        None => {},
                    }
                }
                return None;
            },
        };
        if back > offset || back == 0 {
            return None;
        }
        let base = match read_pack_object(pack, idx, offset - back, fuel - 1) {
            Some(b) => b,
            None => {
                return None;
            },
        };
        let dregion = slice_subrange(pack, next + used, n);
        proof {
            assert(dregion@ =~= pack@.skip(next + used));
        }
        let d = match decompress_zlib(dregion) {
            Some(d) => d,
            None => {
                return None;
            },
        };
        match apply_delta(base.1.as_slice(), d.as_slice()) {
            None => None,
            Some(result) => Some((base.0, result)),
        }
    } else if t == 7 {
        if 20 > n - next {
            return None;
        }
        let base_oid = slice_subrange(pack, next, next + 20);
        proof {
            assert(base_oid@ =~= pack@.subrange(next as int, next + 20));
        }
        let base_off = match crate::idx::find_object_in_index(idx, base_oid) {
            Some(o) => o,
            None => {
                return None;
            },
        };
        let base = match read_pack_object(pack, idx, base_off, fuel - 1) {
            Some(b) => b,
            None => {
                return None;
            },
        };
        let dregion = slice_subrange(pack, next + 20, n);
        proof {
            assert(dregion@ =~= pack@.skip(next + 20));
        }
        let d = match decompress_zlib(dregion) {
            Some(d) => d,
            None => {
                return None;
            },
        };
        match apply_delta(base.1.as_slice(), d.as_slice()) {
            None => None,
            Some(result) => Some((base.0, result)),
        }
    } else {
        None
    }
}

/// The canonical zlib-wrapped form of the pack object at `offset`, for
/// the plain object types.
pub open spec fn spec_extract_object(pack: Seq<u8>, idx: Seq<u8>, offset: int) -> Option<Seq<u8>> {
    match spec_read_pack_object(pack, idx, offset, 100) {
        None => None,
        Some((t, content)) => match spec_tname(t) {
            None => None,
            Some(tname) => Some(deflate_of(spec_object_frame(tname, content))),
        },
    }
}

/// Resolves the pack object at `offset` through any delta chain of depth
/// at most one hundred and rewraps it in the canonical deflated envelope.
pub fn extract_object_with_deltas(pack_data: &[u8], idx_data: &[u8], offset: u64) -> (r: Option<
    Vec<u8>,
>)
    ensures
        match spec_extract_object(pack_data@, idx_data@, offset as int) {
            None => r is None,
            Some(v) => r matches Some(o) && o@ == v,
        },
{
    let (t, content) = match read_pack_object(pack_data, idx_data, offset, 100) {
        Some(x) => x,
        None => {
            return None;
        },
    };
    let tname = match tname_bytes(t) {
        Some(tn) => tn,
        None => {
            return None;
        },
    };
    let framed = make_object_frame(tname.as_slice(), content.as_slice());
    Some(compress_zlib(framed.as_slice()))
}

/// The number of bytes between a header's end and its zlib payload: the
/// OFS_DELTA back-offset varint, the REF_DELTA base id, or nothing.
pub open spec fn spec_entry_extra(pack: Seq<u8>, t: u8, next: int) -> Option<int> {
    if 1 <= t <= 4 {
        Some(0int)
    } else if t == 6 {
        match spec_ofs_delta(pack.skip(next)) {
            None => None,
            Some((back, used)) => Some(used),
        }
    } else if t == 7 {
        if next + 20 > pack.len() {
            None
        } else {
            Some(20int)
        }
    } else {
        None
    }
}

/// The offset of the first pack entry at or after `pos` whose resolved
/// canonical form has the SHA-1 `oid20`: the fallback lookup for a pack
/// whose index claims nothing.  The walk stops at a malformed entry or
/// when fewer than twenty bytes remain (the trailing checksum).
pub open spec fn spec_scan_pack(pack: Seq<u8>, idx: Seq<u8>, pos: int, oid20: Seq<u8>) -> Option<
    int,
>
    decreases pack.len() - pos,
{
    if pos < 0 || pos + 20 >= pack.len() {
        None
    } else {
        match spec_pack_header(pack, pos) {
            None => None,
            Some((t, size, next)) => if next <= pos || next > pack.len() {
                None
            } else {
                match spec_entry_extra(pack, t, next) {
                None => None,
                Some(extra) => if extra < 0 {
                    None
                } else {
                    let zstart = next + extra;
                    match inflate_of(pack.skip(zstart)) {
                        None => None,
                        Some(_content) => {
                            let used = inflate_len_of(pack.skip(zstart)) as int;
                            if used < 1 || zstart + used > pack.len() {
                                None
                            } else if spec_entry_matches(pack, idx, pos, oid20) {
                                Some(pos)
                            } else {
                                spec_scan_pack(pack, idx, zstart + used, oid20)
                            }
                        },
                    }
                },
                }
            },
        }
    }
}

/// Whether the entry at `pos` resolves to an object whose canonical form
/// hashes to `oid20`.
pub open spec fn spec_entry_matches(pack: Seq<u8>, idx: Seq<u8>, pos: int, oid20: Seq<u8>)
    -> bool {
    match spec_read_pack_object(pack, idx, pos, 100) {
        None => false,
        Some((t, content)) => match spec_tname(t) {
            None => false,
            Some(tname) => sha1_of(spec_object_frame(tname, content)) == oid20,
        },
    }
}

/// A scan hit lies within the pack, at or after where the walk began.
pub proof fn lemma_scan_pack_range(pack: Seq<u8>, idx: Seq<u8>, pos: int, oid20: Seq<u8>)
    ensures
        spec_scan_pack(pack, idx, pos, oid20) matches Some(o) ==> pos <= o < pack.len(),
    decreases pack.len() - pos,
{
    if 0 <= pos && pos + 20 < pack.len() {
        match spec_pack_header(pack, pos) {
            None => {},
            Some((t, size, next)) => {
                if next <= pos || next > pack.len() {
                } else {
                    match spec_entry_extra(pack, t, next) {
                        None => {},
                        Some(extra) => {
                            if extra >= 0 {
                                let zstart = next + extra;
                                match inflate_of(pack.skip(zstart)) {
                                    None => {},
                                    Some(_c) => {
                                        let used = inflate_len_of(pack.skip(zstart)) as int;
                                        if 1 <= used && zstart + used <= pack.len() {
                                            lemma_scan_pack_range(pack, idx, zstart + used, oid20);
                                        }
                                    },
                                }
                            }
                        },
                    }
                }
            },
        }
    }
}

/// Scans a pack for the object with id `oid20`, resolving each entry and
/// hashing its canonical form; the way into a pack whose index has an
/// all-zero fanout.
#[verifier::rlimit(100)]
#[verifier::spinoff_prover]
pub fn scan_pack_for_object(pack: &[u8], idx: &[u8], oid20: &[u8]) -> (r: Option<u64>)
    ensures
        match spec_scan_pack(pack@, idx@, 12, oid20@) {
            None => r is None,
            Some(o) => r == Some(o as u64),
        },
{
    let n = pack.len();
    let mut pos: usize = 12;
    loop
        invariant_except_break
            pack@.len() == n,
            spec_scan_pack(pack@, idx@, 12, oid20@) == spec_scan_pack(
                pack@,
                idx@,
                pos as int,
                oid20@,
            ),
        ensures
            spec_scan_pack(pack@, idx@, 12, oid20@) is None,
        decreases n - pos,
    {
        if pos >= n || 20 >= n - pos {
            proof {
                assert(spec_scan_pack(pack@, idx@, pos as int, oid20@) is None);
            }
            break;
        }
        let (t, next) = match pack_header_pos(pack, pos as u64) {
            Some(h) => h,
            None => {
                break;
            },
        };
        let extra: usize = if 1 <= t && t <= 4 {
            0
        } else if t == 6 {
            let region = slice_subrange(pack, next, n);
            proof {
                assert(region@ =~= pack@.skip(next as int));
            }
            match ofs_end_pub(region) {
                Some(np) => np,
                None => {
                    break;
                },
            }
        } else if t == 7 {
            if 20 > n - next {
                break;
            }
            20
        } else {
            break;
        };
        let zstart = next + extra;
        let region = slice_subrange(pack, zstart, n);
        proof {
            assert(region@ =~= pack@.skip(zstart as int));
        }
        let used = match decompress_zlib_prefix(region) {
            Some((_content, used)) => used,
            None => {
                break;
            },
        };
        if entry_matches(pack, idx, pos as u64, oid20) {
            proof {
                assert(spec_scan_pack(pack@, idx@, pos as int, oid20@) == Some(pos as int));
            }
            return Some(pos as u64);
        }
        pos = zstart + used;
    }
    None
}

/// The length of the OFS_DELTA back-offset varint at the start of `s`.
pub fn ofs_end_pub(s: &[u8]) -> (r: Option<usize>)
    ensures
        match spec_ofs_delta(s@) {
            None => r is None,
            Some((v, np)) => r == Some(np as usize) && 0 < np <= s@.len(),
        },
{
    if s.len() == 0 {
        return None;
    }
    let b = s[0];
    if b < 128 {
        Some(1)
    } else {
        ofs_rest_end(s, 1, Ghost(((b - 128) as nat)))
    }
}

fn ofs_rest_end(s: &[u8], pos: usize, Ghost(acc): Ghost<nat>) -> (r: Option<usize>)
    ensures
        match crate::delta::spec_ofs_rest(s@, pos as int, acc) {
            None => r is None,
            Some((v, np)) => r == Some(np as usize) && pos < np <= s@.len(),
        },
    decreases s@.len() - pos,
{
    if pos >= s.len() {
        return None;
    }
    let b = s[pos];
    if b < 128 {
        Some(pos + 1)
    } else {
        let ghost low: int = (b - 128) as int;
        ofs_rest_end(s, pos + 1, Ghost((((acc + 1) * 128 + low) as nat)))
    }
}

/// Whether the entry at `offset` resolves to the object `oid20`.
fn entry_matches(pack: &[u8], idx: &[u8], offset: u64, oid20: &[u8]) -> (r: bool)
    ensures
        r == spec_entry_matches(pack@, idx@, offset as int, oid20@),
{
    let (t, content) = match read_pack_object(pack, idx, offset, 100) {
        Some(x) => x,
        None => {
            return false;
        },
    };
    let tname = match tname_bytes(t) {
        Some(tn) => tn,
        None => {
            return false;
        },
    };
    let framed = make_object_frame(tname.as_slice(), content.as_slice());
    let digest = sha1_digest(framed.as_slice());
    bytes_eq(digest.as_slice(), oid20)
}

} // verus!
