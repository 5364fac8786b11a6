//! The v2 pack index: magic, version, 256-entry fanout, sorted SHA table,
//! CRC table, offset table and optional 64-bit offset table.  Lookup runs
//! over the fanout-bounded range of the SHA table and projects the hit
//! into the offset tables.

use vstd::prelude::*;
use crate::bytes::{spec_u32_be_at, spec_u64_be_at, u32_be_at, u64_be_at, bytes_eq};
use crate::sha::{sha1_of, sha1_digest};
use crate::bytes::push_u32_be;
use vstd::slice::slice_subrange;

verus! {

/// The fanout entry for leading byte `k`: how many stored object ids have
/// a first byte at most `k`.
pub open spec fn idx_fanout_at(idx: Seq<u8>, k: int) -> u32 {
    spec_u32_be_at(idx, 8 + 4 * k)
}

/// A well-formed index front: the four magic bytes, version 2, and room
/// for the whole fanout table.
pub open spec fn idx_header_ok(idx: Seq<u8>) -> bool {
    &&& idx.len() >= 1032
    &&& idx[0] == 0xff_u8
    &&& idx[1] == 0x74_u8
    &&& idx[2] == 0x4f_u8
    &&& idx[3] == 0x63_u8
    &&& spec_u32_be_at(idx, 4) == 2_u32
}

/// The 20-byte object id at position `i` of the SHA table.
pub open spec fn idx_sha_at(idx: Seq<u8>, i: int) -> Seq<u8> {
    idx.subrange(1032 + 20 * i, 1032 + 20 * i + 20)
}

/// The pack offset recorded for table position `i`: the 32-bit entry, or,
/// where its high bit is set, the entry of the 64-bit table it points to.
/// `None` where a table runs past the end of the index.
pub open spec fn idx_offset_value(idx: Seq<u8>, total: int, i: int) -> Option<u64> {
    let off_pos = 1032 + 24 * total + 4 * i;
    if off_pos + 4 > idx.len() {
        None
    } else {
        let off32 = spec_u32_be_at(idx, off_pos);
        if off32 < 0x80000000 {
            Some(off32 as u64)
        } else {
            let lpos = 1032 + 28 * total + 8 * ((off32 - 0x80000000) as int);
            if lpos + 8 > idx.len() {
                None
            } else {
                Some(spec_u64_be_at(idx, lpos))
            }
        }
    }
}

/// The first position in `[i, end)` whose SHA-table entry is `oid`,
/// projected into the offset tables; `None` when there is none, or the
/// SHA table ends before one is found.
pub open spec fn spec_idx_scan(idx: Seq<u8>, oid: Seq<u8>, total: int, i: int, end: int)
    -> Option<u64>
    decreases end - i,
{
    if i >= end {
        None
    } else if 1032 + 20 * i + 20 > idx.len() {
        None
    } else if idx_sha_at(idx, i) == oid {
        idx_offset_value(idx, total, i)
    } else {
        spec_idx_scan(idx, oid, total, i + 1, end)
    }
}

/// The pack offset the index records for `oid`: a fanout-bounded scan of
/// the SHA table.  `None` for a short or foreign index, a wrong version,
/// an id that is not 20 bytes, or an id the index does not hold.
pub open spec fn spec_find_object_in_index(idx: Seq<u8>, oid: Seq<u8>) -> Option<u64> {
    if oid.len() != 20 || !idx_header_ok(idx) {
        None
    } else {
        let total = idx_fanout_at(idx, 255) as int;
        let first = oid[0] as int;
        let lo = if first == 0 { 0int } else { idx_fanout_at(idx, first - 1) as int };
        let hi = idx_fanout_at(idx, first) as int;
        spec_idx_scan(idx, oid, total, lo, hi)
    }
}

/// Looks an object id up in a v2 pack index, returning its pack offset.
pub fn find_object_in_index(idx_data: &[u8], target_oid: &[u8]) -> (r: Option<u64>)
    ensures
        r == spec_find_object_in_index(idx_data@, target_oid@),
{
    let n = idx_data.len();
    if target_oid.len() != 20 || n < 1032 {
        return None;
    }
    if !(idx_data[0] == 0xff && idx_data[1] == 0x74 && idx_data[2] == 0x4f
        && idx_data[3] == 0x63) {
        return None;
    }
    if u32_be_at(idx_data, 4) != 2 {
        return None;
    }
    let total = u32_be_at(idx_data, 8 + 4 * 255) as u64;
    let first = target_oid[0] as usize;
    let lo = if first == 0 {
        0u64
    } else {
        u32_be_at(idx_data, 8 + 4 * (first - 1)) as u64
    };
    let hi = u32_be_at(idx_data, 8 + 4 * first) as u64;
    let ghost gtotal = total as int;
    let ghost ghi = hi as int;
    let mut i: u64 = lo;
    loop
        invariant_except_break
            idx_data@.len() == n,
            n >= 1032,
            target_oid@.len() == 20,
            idx_header_ok(idx_data@),
            gtotal == idx_fanout_at(idx_data@, 255) as int,
            ghi == idx_fanout_at(idx_data@, target_oid@[0] as int) as int,
            hi <= 0xffffffff_u64,
            hi as int == ghi,
            total <= 0xffffffff_u64,
            total as int == gtotal,
            i <= 0xffffffff_u64 || i as int >= ghi,
            spec_find_object_in_index(idx_data@, target_oid@) == spec_idx_scan(
                idx_data@,
                target_oid@,
                gtotal,
                i as int,
                ghi,
            ),
        ensures
            spec_find_object_in_index(idx_data@, target_oid@) == spec_idx_scan(
                idx_data@,
                target_oid@,
                gtotal,
                i as int,
                ghi,
            ),
            i as int >= ghi || 1032 + 20 * (i as int) + 20 > idx_data@.len()
                || idx_sha_at(idx_data@, i as int) == target_oid@,
        decreases ghi - i,
    {
        if i >= hi {
            break;
        }
        let sha_pos: u64 = 1032 + 20 * i;
        if sha_pos + 20 > n as u64 {
            break;
        }
        let sp = sha_pos as usize;
        let entry = slice_subrange(idx_data, sp, sp + 20);
        if bytes_eq(entry, target_oid) {
            proof {
                assert(idx_sha_at(idx_data@, i as int) =~= entry@);
            }
            break;
        }
        i = i + 1;
    }
    if i >= hi {
        return None;
    }
    let sha_pos: u64 = 1032 + 20 * i;
    if sha_pos + 20 > n as u64 {
        return None;
    }
    // At this point position `i` holds the id; project into the tables.
    let off_pos: u64 = 1032 + 24 * total + 4 * i;
    if off_pos + 4 > n as u64 {
        return None;
    }
    let off32 = u32_be_at(idx_data, off_pos as usize);
    if off32 < 0x80000000 {
        return Some(off32 as u64);
    }
    let lpos: u64 = 1032 + 28 * total + 8 * ((off32 - 0x80000000) as u64);
    if lpos + 8 > n as u64 {
        return None;
    }
    Some(u64_be_at(idx_data, lpos as usize))
}

/// Looks an object id up in a v2 pack index, returning its pack offset.
pub fn find_object_in_index_pub(idx_data: &[u8], target_oid: &[u8]) -> (r: Option<u64>)
    ensures
        r == spec_find_object_in_index(idx_data@, target_oid@),
{
    find_object_in_index(idx_data, target_oid)
}

/// The bytes of the minimal index for a stored pack: magic, version 2, an
/// all-zero fanout, the pack's SHA-1, and the index's own trailing SHA-1.
pub open spec fn spec_pack_index_bytes(pack: Seq<u8>) -> Seq<u8> {
    let head = seq![0xff_u8, 0x74_u8, 0x4f_u8, 0x63_u8] + crate::bytes::spec_u32_be_bytes(2)
        + Seq::new(1024, |i: int| 0u8);
    head + sha1_of(pack) + sha1_of(head + sha1_of(pack))
}

/// Writes the minimal index for a pack: a skeletal v2 index whose fanout
/// is all zero, carrying the pack's SHA-1 and its own checksum.  Readers
/// fall back to scanning the pack itself for such an index.
pub fn create_pack_index(pack_data: &[u8]) -> (r: Option<Vec<u8>>)
    ensures
        r is Some <==> pack_data@.len() >= 12,
        r matches Some(v) ==> v@ == spec_pack_index_bytes(pack_data@),
{
    if pack_data.len() < 12 {
        return None;
    }
    let mut idx: Vec<u8> = Vec::new();
    idx.push(0xff);
    idx.push(0x74);
    idx.push(0x4f);
    idx.push(0x63);
    push_u32_be(&mut idx, 2);
    let mut z: usize = 0;
    while z < 1024
        invariant
            z <= 1024,
            idx@ == seq![0xff_u8, 0x74_u8, 0x4f_u8, 0x63_u8] + crate::bytes::spec_u32_be_bytes(2)
                + Seq::new(z as nat, |i: int| 0u8),
        decreases 1024 - z,
    {
        idx.push(0);
        proof {
            assert(Seq::new((z + 1) as nat, |i: int| 0u8) =~= Seq::new(z as nat, |i: int| 0u8)
                .push(0u8));
            assert(idx@ =~= seq![0xff_u8, 0x74_u8, 0x4f_u8, 0x63_u8]
                + crate::bytes::spec_u32_be_bytes(2) + Seq::new((z + 1) as nat, |i: int| 0u8));
        }
        z = z + 1;
    }
    let ghost head = idx@;
    let mut pack_checksum = sha1_digest(pack_data);
    idx.append(&mut pack_checksum);
    let ghost with_pack = idx@;
    let mut idx_checksum = sha1_digest(idx.as_slice());
    idx.append(&mut idx_checksum);
    proof {
        assert(with_pack == head + sha1_of(pack_data@));
        assert(idx@ =~= spec_pack_index_bytes(pack_data@));
    }
    Some(idx)
}

} // verus!
