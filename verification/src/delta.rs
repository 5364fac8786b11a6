//! The pack delta mini-language: size varints, the OFS_DELTA back-offset
//! varint, and COPY/INSERT instruction application.

use vstd::prelude::*;
use vstd::slice::slice_subrange;
use crate::bytes::copy_range;

verus! {

/// A little-endian base-128 varint at `pos`: each byte contributes its low
/// seven bits, the high bit continues.  `None` on a truncated encoding.
pub open spec fn spec_varint(s: Seq<u8>, pos: int) -> Option<(nat, int)>
    decreases s.len() - pos,
{
    if pos < 0 || pos >= s.len() {
        None
    } else {
        let b = s[pos];
        if b < 128 {
            Some((b as nat, pos + 1))
        } else {
            match spec_varint(s, pos + 1) {
                None => None,
                Some((v, np)) => Some((((b - 128) as nat + v * 128) as nat, np)),
            }
        }
    }
}

/// Reads the varint at `pos`; `None` on truncation or where the value does
/// not fit in `usize`.
pub fn read_varint_at(s: &[u8], pos: usize) -> (r: Option<(usize, usize)>)
    ensures
        match spec_varint(s@, pos as int) {
            None => r is None,
            Some((v, np)) => pos < np <= s@.len() && if v <= usize::MAX {
                r == Some((v as usize, np as usize))
            } else {
                r is None
            },
        },
    decreases s@.len() - pos,
{
    if pos >= s.len() {
        return None;
    }
    let b = s[pos];
    if b < 128 {
        return Some((b as usize, pos + 1));
    }
    let low = (b - 128) as usize;
    match read_varint_at(s, pos + 1) {
        None => None,
        Some((v, np)) => {
            if v > (usize::MAX - low) / 128 {
                None
            } else {
                Some((low + v * 128, np))
            }
        },
    }
}

/// Reads the varint at the start of `data`, returning its value and how
/// many bytes it occupied.
pub fn read_varint(data: &[u8]) -> (r: Option<(usize, usize)>)
    ensures
        match spec_varint(data@, 0) {
            None => r is None,
            Some((v, np)) => if v <= usize::MAX {
                r == Some((v as usize, np as usize))
            } else {
                r is None
            },
        },
{
    read_varint_at(data, 0)
}

/// The continuation bytes of an OFS_DELTA back-offset: each step turns
/// `acc` into `(acc + 1) * 128` plus the byte's low seven bits.
pub open spec fn spec_ofs_rest(s: Seq<u8>, pos: int, acc: nat) -> Option<(nat, int)>
    decreases s.len() - pos,
{
    if pos < 0 || pos >= s.len() {
        None
    } else {
        let b = s[pos];
        let a2 = ((acc + 1) * 128 + if b < 128 { b as int } else { (b - 128) as int }) as nat;
        if b < 128 {
            Some((a2, pos + 1))
        } else {
            spec_ofs_rest(s, pos + 1, a2)
        }
    }
}

/// An OFS_DELTA back-offset at the start of `s`: the first byte's low
/// seven bits, then continuation steps.
pub open spec fn spec_ofs_delta(s: Seq<u8>) -> Option<(nat, int)> {
    if s.len() == 0 {
        None
    } else {
        let b = s[0];
        if b < 128 {
            Some((b as nat, 1))
        } else {
            spec_ofs_rest(s, 1, (b - 128) as nat)
        }
    }
}

fn read_ofs_rest(s: &[u8], pos: usize, acc: u64) -> (r: Option<(u64, usize)>)
    ensures
        match spec_ofs_rest(s@, pos as int, acc as nat) {
            None => r is None,
            Some((v, np)) => pos < np <= s@.len() && if v <= u64::MAX {
                r == Some((v as u64, np as usize))
            } else {
                r is None
            },
        },
    decreases s@.len() - pos,
{
    if pos >= s.len() {
        return None;
    }
    let b = s[pos];
    let low: u64 = if b < 128 { b as u64 } else { (b - 128) as u64 };
    if acc > (u64::MAX - low - 128) / 128 {
        // The accumulated offset would exceed `u64`, and it only grows.
        proof {
            lemma_ofs_rest_grows(s@, pos as int, acc as nat);
        }
        return None;
    }
    let a2: u64 = (acc + 1) * 128 + low;
    if b < 128 {
        Some((a2, pos + 1))
    } else {
        read_ofs_rest(s, pos + 1, a2)
    }
}

/// A parsed back-offset is at least as large as its accumulator seed, and
/// ends within the input.
proof fn lemma_ofs_rest_grows(s: Seq<u8>, pos: int, acc: nat)
    ensures
        match spec_ofs_rest(s, pos, acc) {
            None => true,
            Some((v, np)) => v >= (acc + 1) * 128 && pos < np <= s.len(),
        },
    decreases s.len() - pos,
{
    if 0 <= pos < s.len() {
        let b = s[pos];
        let a2 = ((acc + 1) * 128 + if b < 128 { b as int } else { (b - 128) as int }) as nat;
        if b >= 128 {
            lemma_ofs_rest_grows(s, pos + 1, a2);
        }
    }
}

/// Reads the OFS_DELTA back-offset at the start of `data`, returning the
/// offset and how many bytes it occupied; `None` on truncation or where
/// the offset does not fit in `u64`.
pub fn read_ofs_delta_offset(data: &[u8]) -> (r: Option<(u64, usize)>)
    ensures
        match spec_ofs_delta(data@) {
            None => r is None,
            Some((v, np)) => 0 < np <= data@.len() && if v <= u64::MAX {
                r == Some((v as u64, np as usize))
            } else {
                r is None
            },
        },
{
    if data.len() == 0 {
        return None;
    }
    let b = data[0];
    if b < 128 {
        Some((b as u64, 1))
    } else {
        read_ofs_rest(data, 1, (b - 128) as u64)
    }
}

/// The byte of `s` at `p`, with absent bytes read as zero, as the COPY
/// argument reader does.
pub open spec fn byte_or_zero(s: Seq<u8>, p: int) -> u8 {
    if 0 <= p < s.len() {
        s[p]
    } else {
        0
    }
}

/// Whether COPY flag bit `i` of the command byte is set.
pub open spec fn copy_flag(cmd: u8, i: int) -> bool {
    if i == 0 { cmd % 2 == 1 }
    else if i == 1 { (cmd / 2) % 2 == 1 }
    else if i == 2 { (cmd / 4) % 2 == 1 }
    else if i == 3 { (cmd / 8) % 2 == 1 }
    else if i == 4 { (cmd / 16) % 2 == 1 }
    else if i == 5 { (cmd / 32) % 2 == 1 }
    else if i == 6 { (cmd / 64) % 2 == 1 }
    else { false }
}

/// How many of the first `i` COPY flags are set: argument byte `i`, when
/// present, stands that many bytes after the command byte.
pub open spec fn copy_args_before(cmd: u8, i: int) -> nat {
    ((if 1 <= i && copy_flag(cmd, 0) { 1int } else { 0int })
        + (if 2 <= i && copy_flag(cmd, 1) { 1int } else { 0int })
        + (if 3 <= i && copy_flag(cmd, 2) { 1int } else { 0int })
        + (if 4 <= i && copy_flag(cmd, 3) { 1int } else { 0int })
        + (if 5 <= i && copy_flag(cmd, 4) { 1int } else { 0int })
        + (if 6 <= i && copy_flag(cmd, 5) { 1int } else { 0int })
        + (if 7 <= i && copy_flag(cmd, 6) { 1int } else { 0int })) as nat
}

/// The value of COPY argument `i`: the selected byte, or zero where the
/// flag is clear (absent bytes also read as zero).
pub open spec fn copy_arg(delta: Seq<u8>, pos: int, cmd: u8, i: int) -> int {
    if copy_flag(cmd, i) {
        byte_or_zero(delta, pos + 1 + copy_args_before(cmd, i)) as int
    } else {
        0
    }
}

/// The arguments of a COPY instruction whose command byte `cmd` stands at
/// `pos`: the low four flag bits select offset bytes, the next three
/// select size bytes; absent bytes default to zero, and a zero size means
/// `0x10000`.  Returns `(offset, size, next_pos)`.
#[verifier::opaque]
pub open spec fn spec_copy_args(delta: Seq<u8>, pos: int, cmd: u8) -> (int, int, int) {
    let off = copy_arg(delta, pos, cmd, 0) + copy_arg(delta, pos, cmd, 1) * 0x100
        + copy_arg(delta, pos, cmd, 2) * 0x10000 + copy_arg(delta, pos, cmd, 3) * 0x1000000;
    let size = copy_arg(delta, pos, cmd, 4) + copy_arg(delta, pos, cmd, 5) * 0x100
        + copy_arg(delta, pos, cmd, 6) * 0x10000;
    let size = if size == 0 { 0x10000 } else { size };
    (off, size, pos + 1 + copy_args_before(cmd, 7))
}

/// The result of running the delta instructions from `pos` to the end of
/// `delta` against `base`: `None` on a zero command byte, a COPY outside
/// `base`, or a truncated INSERT.
pub open spec fn spec_delta_insns(base: Seq<u8>, delta: Seq<u8>, pos: int) -> Option<Seq<u8>>
    decreases delta.len() - pos,
{
    if pos >= delta.len() {
        Some(Seq::empty())
    } else if pos < 0 {
        None
    } else {
        let cmd = delta[pos];
        if cmd >= 128 {
            let (off, size, unused) = spec_copy_args(delta, pos, cmd);
            let next = pos + 1 + copy_args_before(cmd, 7);
            if off + size > base.len() {
                None
            } else if next > delta.len() {
                Some(base.subrange(off, off + size))
            } else {
                match spec_delta_insns(base, delta, next) {
                    None => None,
                    Some(rest) => Some(base.subrange(off, off + size) + rest),
                }
            }
        } else if cmd > 0 {
            if pos + 1 + cmd > delta.len() {
                None
            } else {
                match spec_delta_insns(base, delta, pos + 1 + cmd) {
                    None => None,
                    Some(rest) => Some(delta.subrange(pos + 1, pos + 1 + cmd) + rest),
                }
            }
        } else {
            None
        }
    }
}

/// The two size headers of a delta: source size, then target size, and the
/// position after them.  `None` where a varint is truncated.
pub open spec fn spec_delta_sizes(delta: Seq<u8>) -> Option<(nat, nat, int)> {
    match spec_varint(delta, 0) {
        None => None,
        Some((src, p1)) => match spec_varint(delta, p1) {
            None => None,
            Some((dst, p2)) => Some((src, dst, p2)),
        },
    }
}

/// The application of `delta` to `base`: the headers must parse with sizes
/// that fit in memory, the instructions must run to the end, and the
/// result must be exactly as long as the stated target size.
pub open spec fn spec_apply_delta(base: Seq<u8>, delta: Seq<u8>) -> Option<Seq<u8>> {
    match spec_delta_sizes(delta) {
        None => None,
        Some((src, dst, p)) => if src > usize::MAX || dst > usize::MAX {
            None
        } else {
            match spec_delta_insns(base, delta, p) {
                None => None,
                Some(out) => if out.len() == dst {
                    Some(out)
                } else {
                    None
                },
            }
        },
    }
}

/// Appends `r` to `acc` inside the option.
pub open spec fn opt_prepend(acc: Seq<u8>, rest: Option<Seq<u8>>) -> Option<Seq<u8>> {
    match rest {
        None => None,
        Some(r) => Some(acc + r),
    }
}

fn byte_at_or_zero(s: &[u8], p: usize) -> (r: u8)
    ensures
        r == byte_or_zero(s@, p as int),
{
    if p < s.len() {
        s[p]
    } else {
        0
    }
}

/// Reads the offset and size of the COPY instruction whose command byte
/// `cmd` stands at `pos`, and how many argument bytes follow the command.
fn copy_flag_at(cmd: u8, i: usize) -> (r: bool)
    requires
        i < 7,
    ensures
        r == copy_flag(cmd, i as int),
{
    match i {
        0 => cmd % 2 == 1,
        1 => (cmd / 2) % 2 == 1,
        2 => (cmd / 4) % 2 == 1,
        3 => (cmd / 8) % 2 == 1,
        4 => (cmd / 16) % 2 == 1,
        5 => (cmd / 32) % 2 == 1,
        _ => (cmd / 64) % 2 == 1,
    }
}

fn copy_args_before_at(cmd: u8, i: usize) -> (r: usize)
    requires
        i <= 7,
    ensures
        r as nat == copy_args_before(cmd, i as int),
        r <= 7,
{
    let mut n: usize = 0;
    if 1 <= i && copy_flag_at(cmd, 0) {
        n = n + 1;
    }
    if 2 <= i && copy_flag_at(cmd, 1) {
        n = n + 1;
    }
    if 3 <= i && copy_flag_at(cmd, 2) {
        n = n + 1;
    }
    if 4 <= i && copy_flag_at(cmd, 3) {
        n = n + 1;
    }
    if 5 <= i && copy_flag_at(cmd, 4) {
        n = n + 1;
    }
    if 6 <= i && copy_flag_at(cmd, 5) {
        n = n + 1;
    }
    if 7 <= i && copy_flag_at(cmd, 6) {
        n = n + 1;
    }
    n
}

/// The byte `d` places after `pos`, or zero where that runs off the end.
fn byte_at_or_zero_wrap(s: &[u8], pos: usize, d: usize) -> (r: u8)
    requires
        pos < s@.len(),
        d <= 8,
    ensures
        r == byte_or_zero(s@, pos + d),
{
    if d <= s.len() - 1 - pos {
        s[pos + d]
    } else {
        0
    }
}

fn copy_arg_at(delta: &[u8], pos: usize, cmd: u8, i: usize) -> (r: u64)
    requires
        pos < delta@.len(),
        i < 7,
    ensures
        r as int == copy_arg(delta@, pos as int, cmd, i as int),
        r <= 255,
{
    if copy_flag_at(cmd, i) {
        byte_at_or_zero_wrap(delta, pos, 1 + copy_args_before_at(cmd, i)) as u64
    } else {
        0
    }
}

/// Reads the offset and size of the COPY instruction whose command byte
/// `cmd` stands at `pos`, and how many argument bytes follow the command.
fn read_copy_args(delta: &[u8], pos: usize, cmd: u8) -> (r: (u64, u64, usize))
    requires
        pos < delta@.len(),
        cmd >= 128,
    ensures
        spec_copy_args(delta@, pos as int, cmd) == (r.0 as int, r.1 as int, pos + 1 + r.2 as int),
        r.0 < 0x100000000,
        1 <= r.1 <= 0xffffff,
        r.2 as nat == copy_args_before(cmd, 7),
        r.2 <= 7,
{
    proof {
        reveal(spec_copy_args);
    }
    let b0 = copy_arg_at(delta, pos, cmd, 0);
    let b1 = copy_arg_at(delta, pos, cmd, 1);
    let b2 = copy_arg_at(delta, pos, cmd, 2);
    let b3 = copy_arg_at(delta, pos, cmd, 3);
    let b4 = copy_arg_at(delta, pos, cmd, 4);
    let b5 = copy_arg_at(delta, pos, cmd, 5);
    let b6 = copy_arg_at(delta, pos, cmd, 6);
    let off: u64 = b0 + b1 * 0x100 + b2 * 0x10000 + b3 * 0x1000000;
    let mut size: u64 = b4 + b5 * 0x100 + b6 * 0x10000;
    if size == 0 {
        size = 0x10000;
    }
    (off, size, copy_args_before_at(cmd, 7))
}

#[verifier::rlimit(100)]
#[verifier::spinoff_prover]
pub fn apply_delta(base: &[u8], delta: &[u8]) -> (r: Option<Vec<u8>>)
    ensures
        match spec_apply_delta(base@, delta@) {
            None => r is None,
            Some(out) => r is Some && r->0@ == out,
        },
        r matches Some(v) ==> spec_delta_sizes(delta@) matches Some((src, dst, p))
            && v@.len() == dst,
{
    let bl = base.len();
    let dl = delta.len();
    let (_src_size, p1) = match read_varint_at(delta, 0) {
        Some(x) => x,
        None => {
            return None;
        },
    };
    let (dst_size, p2) = match read_varint_at(delta, p1) {
        Some(x) => x,
        None => {
            return None;
        },
    };
    let mut result: Vec<u8> = Vec::new();
    let mut pos: usize = p2;
    loop
        invariant_except_break
            base@.len() == bl,
            delta@.len() == dl,
            spec_delta_sizes(delta@) matches Some((s0, d0, pp)) && s0 <= usize::MAX
                && d0 == dst_size as nat && pp == p2 as int,
            spec_delta_insns(base@, delta@, p2 as int)
                == opt_prepend(result@, spec_delta_insns(base@, delta@, pos as int)),
        ensures
            spec_delta_insns(base@, delta@, p2 as int) == Some(result@),
            spec_delta_sizes(delta@) matches Some((s0, d0, pp)) && s0 <= usize::MAX
                && d0 == dst_size as nat && pp == p2 as int,
        decreases delta.len() - pos,
    {
        if pos >= delta.len() {
            proof {
                assert(spec_delta_insns(base@, delta@, pos as int) == Some(Seq::<u8>::empty()));
                assert(result@ + Seq::<u8>::empty() =~= result@);
            }
            break;
        }
        let ghost prev = result@;
        let cmd = delta[pos];
        if cmd >= 128 {
            let (off, size, k) = read_copy_args(delta, pos, cmd);
            if off > bl as u64 || size > bl as u64 - off {
                proof {
                    assert(spec_delta_insns(base@, delta@, pos as int) is None);
                }
                return None;
            }
            let offu = off as usize;
            let sizeu = size as usize;
            let mut piece = copy_range(base, offu, offu + sizeu);
            let ghost sub = piece@;
            result.append(&mut piece);
            if k > delta.len() - pos - 1 {
                // The instruction's argument bytes run past the end: it is
                // the last one.
                proof {
                    assert(pos + 1 + k > delta@.len());
                    assert(spec_delta_insns(base@, delta@, pos as int) == Some(sub));
                    assert(prev + sub =~= result@);
                }
                break;
            }
            let p = pos + 1 + k;
            proof {
                let tail = spec_delta_insns(base@, delta@, p as int);
                if tail is Some {
                    let rest = tail->0;
                    assert(spec_delta_insns(base@, delta@, pos as int) == Some(sub + rest));
                    assert(prev + (sub + rest) =~= (prev + sub) + rest);
                } else {
                    assert(spec_delta_insns(base@, delta@, pos as int) is None);
                }
            }
            pos = p;
        } else if cmd > 0 {
            let insert = cmd as usize;
            if insert > delta.len() - pos - 1 {
                proof {
                    assert(spec_delta_insns(base@, delta@, pos as int) is None);
                }
                return None;
            }
            let mut piece = copy_range(delta, pos + 1, pos + 1 + insert);
            let ghost sub = piece@;
            result.append(&mut piece);
            let next = pos + 1 + insert;
            proof {
                let tail = spec_delta_insns(base@, delta@, next as int);
                if tail is Some {
                    let rest = tail->0;
                    assert(spec_delta_insns(base@, delta@, pos as int) == Some(sub + rest));
                    assert(prev + (sub + rest) =~= (prev + sub) + rest);
                } else {
                    assert(spec_delta_insns(base@, delta@, pos as int) is None);
                }
            }
            pos = next;
        } else {
            proof {
                assert(spec_delta_insns(base@, delta@, pos as int) is None);
            }
            return None;
        }
    }
    if result.len() != dst_size {
        return None;
    }
    Some(result)
}

/// The varint encoding of `v`: low seven bits first, high bit set on all
/// bytes but the last.
pub open spec fn spec_varint_bytes(v: nat) -> Seq<u8>
    decreases v,
{
    if v < 128 {
        seq![v as u8]
    } else {
        seq![(v % 128 + 128) as u8] + spec_varint_bytes(v / 128)
    }
}

/// A varint encoding embedded in a larger string parses back to its value.
proof fn lemma_varint_parse(s: Seq<u8>, pos: int, v: nat)
    requires
        0 <= pos,
        pos + spec_varint_bytes(v).len() <= s.len(),
        s.subrange(pos, pos + spec_varint_bytes(v).len() as int) == spec_varint_bytes(v),
    ensures
        spec_varint(s, pos) == Some((v, pos + spec_varint_bytes(v).len())),
    decreases v,
{
    let enc = spec_varint_bytes(v);
    assert(s[pos] == enc[0]);
    if v < 128 {
        assert(enc =~= seq![v as u8]);
        assert(s[pos] == v as u8);
    } else {
        let rest = spec_varint_bytes(v / 128);
        assert(enc[0] == (v % 128 + 128) as u8);
        assert(s[pos] >= 128);
        assert(s.subrange(pos + 1, pos + 1 + rest.len() as int) =~= rest) by {
            assert(forall|i: int| 0 <= i < rest.len() ==> s.subrange(
                pos, pos + enc.len() as int)[i + 1] == #[trigger] rest[i]);
        }
        lemma_varint_parse(s, pos + 1, v / 128);
        assert(spec_varint(s, pos + 1) == Some((v / 128, pos + 1 + rest.len())));
        assert(((s[pos] - 128) as nat + (v / 128) * 128) as nat == v) by {
            assert(s[pos] == (v % 128 + 128) as u8);
            assert(v % 128 + (v / 128) * 128 == v) by {
                vstd::arithmetic::div_mod::lemma_fundamental_div_mod(v as int, 128);
            }
        }
    }
}

/// The INSERT-only encoding of `t`: literal chunks of at most 127 bytes.
pub open spec fn spec_insert_chunks(t: Seq<u8>) -> Seq<u8>
    decreases t.len(),
{
    if t.len() == 0 {
        Seq::empty()
    } else if t.len() <= 127 {
        seq![t.len() as u8] + t
    } else {
        seq![127u8] + t.take(127) + spec_insert_chunks(t.skip(127))
    }
}

/// Running an INSERT-only chunk encoding reproduces the encoded bytes,
/// against any base.
proof fn lemma_chunks_parse(base: Seq<u8>, s: Seq<u8>, pos: int, t: Seq<u8>)
    requires
        0 <= pos <= s.len(),
        s.skip(pos) == spec_insert_chunks(t),
    ensures
        spec_delta_insns(base, s, pos) == Some(t),
    decreases t.len(),
{
    let enc = spec_insert_chunks(t);
    if t.len() == 0 {
        assert(s.skip(pos).len() == 0);
        assert(t =~= Seq::<u8>::empty());
    } else {
        let chunk: int = if t.len() <= 127 { t.len() as int } else { 127 };
        assert(enc.len() > 0);
        assert(s.skip(pos).len() == s.len() - pos);
        assert(pos < s.len());
        assert(s.skip(pos)[0] == enc[0]);
        assert(s.skip(pos)[0] == s[pos]);
        assert(enc[0] == chunk as u8);
        assert(0 < chunk <= 127);
        assert(s[pos] < 128 && s[pos] > 0);
        assert(s.skip(pos).len() == enc.len());
        if t.len() <= 127 {
            assert(enc.len() == 1 + t.len());
            assert(pos + 1 + chunk <= s.len());
            assert(s.subrange(pos + 1, pos + 1 + chunk) =~= t) by {
                assert(forall|i: int| 0 <= i < t.len() ==> s.skip(pos)[i + 1] == #[trigger] t[i]);
            }
            assert(s.skip(pos + 1 + chunk) =~= spec_insert_chunks(Seq::<u8>::empty())) by {
                assert(s.skip(pos).len() == 1 + t.len());
            }
            lemma_chunks_parse(base, s, pos + 1 + chunk, Seq::empty());
            assert(spec_delta_insns(base, s, pos) == Some(t + Seq::<u8>::empty()));
            assert(t + Seq::<u8>::empty() =~= t);
        } else {
            assert(enc.len() == 1 + 127 + spec_insert_chunks(t.skip(127)).len());
            assert(pos + 1 + chunk <= s.len());
            assert(s.subrange(pos + 1, pos + 1 + chunk) =~= t.take(127)) by {
                assert(forall|i: int| 0 <= i < 127 ==> s.skip(pos)[i + 1] == #[trigger] t.take(127)[i]);
            }
            assert(s.skip(pos + 1 + chunk) =~= spec_insert_chunks(t.skip(127))) by {
                assert(forall|i: int| 0 <= i < spec_insert_chunks(t.skip(127)).len()
                    ==> s.skip(pos)[i + 128] == #[trigger] spec_insert_chunks(t.skip(127))[i]);
            }
            lemma_chunks_parse(base, s, pos + 1 + chunk, t.skip(127));
            assert(spec_delta_insns(base, s, pos) == Some(t.take(127) + t.skip(127)));
            assert(t.take(127) + t.skip(127) =~= t);
        }
    }
}

/// Appends the varint encoding of `v`.
pub fn push_varint(out: &mut Vec<u8>, v: usize)
    ensures
        final(out)@ == old(out)@ + spec_varint_bytes(v as nat),
    decreases v,
{
    if v < 128 {
        out.push(v as u8);
        assert(out@ =~= old(out)@ + spec_varint_bytes(v as nat));
    } else {
        out.push((v % 128 + 128) as u8);
        let ghost mid = out@;
        push_varint(out, v / 128);
        assert(out@ =~= old(out)@ + spec_varint_bytes(v as nat)) by {
            assert(out@ == mid + spec_varint_bytes((v / 128) as nat));
            assert(mid == old(out)@ + seq![(v % 128 + 128) as u8]);
            assert(spec_varint_bytes(v as nat)
                == seq![(v % 128 + 128) as u8] + spec_varint_bytes((v / 128) as nat));
        }
    }
}

/// Builds a delta that rewrites any base into `target`, using only INSERT
/// instructions, and proves the round trip: applying the result to `base`
/// gives back exactly `target`.
pub fn make_delta(base: &[u8], target: &[u8]) -> (r: Vec<u8>)
    ensures
        spec_apply_delta(base@, r@) == Some(target@),
{
    let mut out: Vec<u8> = Vec::new();
    push_varint(&mut out, base.len());
    let ghost vb1 = spec_varint_bytes(base@.len());
    push_varint(&mut out, target.len());
    let ghost vb2 = spec_varint_bytes(target@.len());
    let ghost prefix = out@;
    assert(prefix == vb1 + vb2);
    let p0 = out.len();
    proof {
        assert(target@.skip(0) =~= target@);
    }
    let mut i: usize = 0;
    while i < target.len()
        invariant
            i <= target@.len(),
            p0 as int == prefix.len(),
            out@ + spec_insert_chunks(target@.skip(i as int)) == prefix + spec_insert_chunks(
                target@),
        decreases target.len() - i,
    {
        let ghost before = out@;
        let rem = target.len() - i;
        let chunk = if rem <= 127 { rem } else { 127 };
        out.push(chunk as u8);
        let mut piece = copy_range(target, i, i + chunk);
        out.append(&mut piece);
        proof {
            let tr = target@.skip(i as int);
            if rem <= 127 {
                assert(spec_insert_chunks(tr) == seq![tr.len() as u8] + tr);
                assert(tr =~= target@.subrange(i as int, i + chunk));
                assert(out@ =~= before + seq![chunk as u8] + target@.subrange(i as int, i + chunk));
                assert(out@ + spec_insert_chunks(target@.skip(i + chunk)) =~= before
                    + spec_insert_chunks(tr)) by {
                    assert(target@.skip(i + chunk) =~= Seq::<u8>::empty());
                }
            } else {
                assert(spec_insert_chunks(tr) == seq![127u8] + tr.take(127) + spec_insert_chunks(
                    tr.skip(127)));
                assert(tr.take(127) =~= target@.subrange(i as int, i + chunk));
                assert(tr.skip(127) =~= target@.skip(i + chunk));
                assert(out@ =~= before + seq![chunk as u8] + target@.subrange(i as int, i + chunk));
                assert(out@ + spec_insert_chunks(target@.skip(i + chunk)) =~= before
                    + spec_insert_chunks(tr));
            }
        }
        i = i + chunk;
    }
    proof {
        assert(target@.skip(target@.len() as int) =~= Seq::<u8>::empty());
        assert(out@ + Seq::<u8>::empty() =~= out@);
        assert(out@ == prefix + spec_insert_chunks(target@));
        assert(out@.subrange(0, vb1.len() as int) =~= vb1);
        lemma_varint_parse(out@, 0, base@.len());
        assert(out@.subrange(vb1.len() as int, (vb1.len() + vb2.len()) as int) =~= vb2);
        lemma_varint_parse(out@, vb1.len() as int, target@.len());
        assert(spec_delta_sizes(out@) == Some(
            (base@.len(), target@.len(), prefix.len() as int),
        ));
        assert(out@.skip(prefix.len() as int) =~= spec_insert_chunks(target@));
        lemma_chunks_parse(base@, out@, prefix.len() as int, target@);
        assert(spec_delta_insns(base@, out@, prefix.len() as int) == Some(target@));
    }
    out
}

} // verus!
