//! Commit payload parsing: header lines (`tree`, `parent`, `author`), the
//! blank separator, and the message.

use vstd::prelude::*;
use crate::bytes::{copy_range, spec_find_byte, find_byte, starts_with, spec_starts_with};
use crate::text::{chars_of_bytes, string_of_bytes};
use crate::zlib::{inflate_of, decompress_zlib};
use crate::pkt::{spec_trim, trim_bytes, is_ascii_ws, is_ascii_ws_at, spec_skip_ws};
use vstd::slice::slice_subrange;

verus! {

/// A line with a trailing carriage return removed.
pub open spec fn spec_strip_cr(s: Seq<u8>) -> Seq<u8> {
    if s.len() > 0 && s[s.len() - 1] == 13 {
        s.take(s.len() - 1)
    } else {
        s
    }
}

/// The lines of a byte text: split at newlines, each with a trailing
/// carriage return removed; a trailing newline ends the last line rather
/// than opening an empty one.
pub open spec fn spec_lines(s: Seq<u8>) -> Seq<Seq<u8>>
    decreases s.len(),
{
    if s.len() == 0 {
        Seq::empty()
    } else {
        match spec_find_byte(s, 10, 0) {
            None => seq![spec_strip_cr(s)],
            Some(p) => if 0 <= p < s.len() {
                seq![spec_strip_cr(s.take(p))] + spec_lines(s.skip(p + 1))
            } else {
                Seq::empty()
            },
        }
    }
}

fn strip_cr(s: Vec<u8>) -> (r: Vec<u8>)
    ensures
        r@ == spec_strip_cr(s@),
{
    let n = s.len();
    if n > 0 && s[n - 1] == 13 {
        copy_range(s.as_slice(), 0, n - 1)
    } else {
        s
    }
}

/// Splits a byte text into its lines.
pub fn split_lines(content: &[u8]) -> (r: Vec<Vec<u8>>)
    ensures
        r@.map(|i: int, l: Vec<u8>| l@) == spec_lines(content@),
{
    let n = content.len();
    let mut out: Vec<Vec<u8>> = Vec::new();
    let mut pos: usize = 0;
    proof {
        assert(out@.map(|i: int, l: Vec<u8>| l@) =~= Seq::<Seq<u8>>::empty());
        assert(content@.skip(0) =~= content@);
    }
    loop
        invariant_except_break
            content@.len() == n,
            pos <= n,
            spec_lines(content@) == out@.map(|i: int, l: Vec<u8>| l@) + spec_lines(
                content@.skip(pos as int),
            ),
        ensures
            spec_lines(content@) == out@.map(|i: int, l: Vec<u8>| l@),
        decreases n - pos,
    {
        let ghost before = out@.map(|i: int, l: Vec<u8>| l@);
        let ghost tail = content@.skip(pos as int);
        if pos >= n {
            proof {
                assert(tail.len() == 0);
                assert(before + Seq::<Seq<u8>>::empty() =~= before);
            }
            break;
        }
        match find_byte(content, 10, pos) {
            None => {
                let line = strip_cr(copy_range(content, pos, n));
                let ghost lv = line@;
                out.push(line);
                proof {
                    assert(spec_find_byte(tail, 10, 0) is None) by {
                        lemma_find_byte_shift_pub(content@, 10, pos as int, 0);
                    }
                    assert(content@.subrange(pos as int, n as int) =~= tail);
                    assert(spec_lines(tail) == seq![spec_strip_cr(tail)]);
                    assert(out@.map(|i: int, l: Vec<u8>| l@) =~= before + seq![lv]);
                    assert(before + seq![spec_strip_cr(tail)] =~= out@.map(
                        |i: int, l: Vec<u8>| l@,
                    ));
                }
                proof {
                    assert(spec_lines(content@.skip(n as int)) =~= Seq::<Seq<u8>>::empty());
                    assert(spec_lines(content@) =~= out@.map(|i: int, l: Vec<u8>| l@));
                }
                break;
            },
            Some(p) => {
                let line = strip_cr(copy_range(content, pos, p));
                let ghost lv = line@;
                out.push(line);
                proof {
                    assert(spec_find_byte(tail, 10, 0) == Some(p - pos)) by {
                        lemma_find_byte_shift_pub(content@, 10, pos as int, 0);
                    }
                    assert(content@.subrange(pos as int, p as int) =~= tail.take(p - pos));
                    assert(tail.skip(p - pos + 1) =~= content@.skip(p + 1));
                    assert(spec_lines(tail) == seq![spec_strip_cr(tail.take(p - pos))]
                        + spec_lines(content@.skip(p + 1)));
                    assert(out@.map(|i: int, l: Vec<u8>| l@) =~= before + seq![lv]);
                    assert(before + (seq![spec_strip_cr(tail.take(p - pos))] + spec_lines(
                        content@.skip(p + 1),
                    )) =~= out@.map(|i: int, l: Vec<u8>| l@) + spec_lines(content@.skip(p + 1)));
                }
                pos = p + 1;
            },
        }
    }
    out
}

/// Searching from `from` in `s` finds the same byte as searching the
/// suffix at `from` from its start, shifted by `from`.
pub proof fn lemma_find_byte_shift_pub(s: Seq<u8>, b: u8, from: int, d: int)
    requires
        0 <= from <= s.len(),
        0 <= d,
    ensures
        match spec_find_byte(s, b, from + d) {
            None => spec_find_byte(s.skip(from), b, d) is None,
            Some(p) => spec_find_byte(s.skip(from), b, d) == Some(p - from),
        },
    decreases s.len() - from - d,
{
    if from + d < s.len() {
        assert(s.skip(from)[d] == s[from + d]);
        if s[from + d] != b {
            lemma_find_byte_shift_pub(s, b, from, d + 1);
        }
    }
}

/// The index of the first empty line at or after `i`, or the line count.
pub open spec fn spec_first_empty(lines: Seq<Seq<u8>>, i: int) -> int
    decreases lines.len() - i,
{
    if i < 0 || i >= lines.len() {
        lines.len() as int
    } else if lines[i].len() == 0 {
        i
    } else {
        spec_first_empty(lines, i + 1)
    }
}

/// The first line at or after `i` that begins with `prefix`.
pub open spec fn spec_find_prefixed(lines: Seq<Seq<u8>>, prefix: Seq<u8>, i: int, end: int)
    -> Option<Seq<u8>>
    decreases end - i,
{
    if i < 0 || i >= end || i >= lines.len() {
        None
    } else if spec_starts_with(lines[i], prefix) {
        Some(lines[i].skip(prefix.len() as int))
    } else {
        spec_find_prefixed(lines, prefix, i + 1, end)
    }
}

/// The last line before `end` that begins with `prefix`.
pub open spec fn spec_rfind_prefixed(lines: Seq<Seq<u8>>, prefix: Seq<u8>, end: int)
    -> Option<Seq<u8>>
    decreases end,
{
    if end <= 0 || end > lines.len() {
        None
    } else if spec_starts_with(lines[end - 1], prefix) {
        Some(lines[end - 1].skip(prefix.len() as int))
    } else {
        spec_rfind_prefixed(lines, prefix, end - 1)
    }
}

/// The position just after the last occurrence of `b` in `s`, or `None`.
pub open spec fn spec_rfind_byte(s: Seq<u8>, b: u8, j: int) -> Option<int>
    decreases j,
{
    if j <= 0 || j > s.len() {
        None
    } else if s[j - 1] == b {
        Some(j - 1)
    } else {
        spec_rfind_byte(s, b, j - 1)
    }
}

pub fn rfind_byte_pub(s: &[u8], b: u8) -> (r: Option<usize>)
    ensures
        match spec_rfind_byte(s@, b, s@.len() as int) {
            None => r is None,
            Some(p) => r == Some(p as usize) && 0 <= p < s@.len() && s@[p] == b,
        },
{
    let mut j = s.len();
    while j > 0
        invariant
            j <= s@.len(),
            spec_rfind_byte(s@, b, s@.len() as int) == spec_rfind_byte(s@, b, j as int),
        decreases j,
    {
        if s[j - 1] == b {
            return Some(j - 1);
        }
        j = j - 1;
    }
    None
}

/// True when every byte is a decimal digit.
pub open spec fn all_dec_digits(s: Seq<u8>) -> bool {
    forall|i: int| 0 <= i < s.len() ==> 48 <= #[trigger] s[i] <= 57
}

/// The digit part of a signed decimal: what follows an optional sign.
pub open spec fn spec_dec_digits(s: Seq<u8>) -> Seq<u8> {
    if s.len() > 0 && (s[0] == 43 || s[0] == 45) {
        s.skip(1)
    } else {
        s
    }
}

/// A signed decimal integer in the i64 range, as `str::parse` accepts it:
/// an optional sign, then only digits.
pub open spec fn spec_parse_i64(s: Seq<u8>) -> Option<int> {
    let digits = spec_dec_digits(s);
    let negative = s.len() > 0 && s[0] == 45;
    if digits.len() == 0 || !all_dec_digits(digits) {
        None
    } else {
        let v = spec_dec_value(digits);
        let signed: int = if negative {
            -(v as int)
        } else {
            v as int
        };
        if i64::MIN <= signed <= i64::MAX {
            Some(signed)
        } else {
            None
        }
    }
}

/// The value of a digit string.
pub open spec fn spec_dec_value(digits: Seq<u8>) -> nat
    decreases digits.len(),
{
    if digits.len() == 0 {
        0
    } else {
        spec_dec_value(digits.take(digits.len() - 1)) * 10 + (digits[digits.len() - 1] - 48) as nat
    }
}

/// Parses a signed decimal integer, as `str::parse::<i64>` does.
pub fn parse_i64(s: &[u8]) -> (r: Option<i64>)
    ensures
        match spec_parse_i64(s@) {
            None => r is None,
            Some(v) => r == Some(v as i64),
        },
{
    let n = s.len();
    let negative = n > 0 && s[0] == 45;
    let start: usize = if n > 0 && (s[0] == 43 || s[0] == 45) {
        1
    } else {
        0
    };
    let ghost digits = s@.skip(start as int);
    proof {
        assert(s@.skip(0) =~= s@);
    }
    if n == start {
        assert(digits.len() == 0);
        return None;
    }
    let mut acc: u64 = 0;
    let mut i: usize = start;
    while i < n
        invariant
            start <= i <= n,
            n == s@.len(),
            start < n,
            digits == s@.skip(start as int),
            digits == spec_dec_digits(s@),
            negative == (s@.len() > 0 && s@[0] == 45),
            forall|k: int| 0 <= k < i - start ==> 48 <= #[trigger] digits[k] <= 57,
            acc as nat == spec_dec_value(digits.take(i - start)),
        decreases n - i,
    {
        let b = s[i];
        assert(digits[i - start] == b);
        if b < 48 || b > 57 {
            assert(!(48 <= digits[i - start] && digits[i - start] <= 57));
            return None;
        }
        let d = (b - 48) as u64;
        proof {
            assert(digits.take(i - start + 1) =~= digits.take(i - start).push(b));
            assert(digits.take(i - start + 1).take(i - start as int) =~= digits.take(
                i - start as int,
            ));
            assert(digits.take(i - start + 1)[i - start] == b);
            assert(spec_dec_value(digits.take(i - start + 1)) == acc * 10 + d);
        }
        if acc > (u64::MAX - d) / 10 {
            // The digits already exceed any value in the i64 range.
            proof {
                if forall|k: int| 0 <= k < digits.len() ==> 48 <= #[trigger] digits[k] <= 57 {
                    lemma_dec_value_grows(digits, i - start + 1, digits.len() as int);
                    assert(digits.take(digits.len() as int) =~= digits);
                    assert(spec_dec_value(digits) >= acc * 10 + d);
                    assert(acc * 10 + d > u64::MAX);
                }
            }
            return None;
        }
        acc = acc * 10 + d;
        i = i + 1;
    }
    proof {
        assert(digits.take(digits.len() as int) =~= digits);
    }
    if negative {
        if acc > 0x8000000000000000u64 {
            None
        } else if acc == 0x8000000000000000u64 {
            Some(i64::MIN)
        } else {
            Some(0i64 - (acc as i64))
        }
    } else {
        if acc > i64::MAX as u64 {
            None
        } else {
            Some(acc as i64)
        }
    }
}

/// A longer digit string has at least the value of its prefix scaled up.
proof fn lemma_dec_value_grows(digits: Seq<u8>, i: int, j: int)
    requires
        0 <= i <= j <= digits.len(),
        forall|k: int| 0 <= k < digits.len() ==> 48 <= #[trigger] digits[k] <= 57,
    ensures
        spec_dec_value(digits.take(j)) >= spec_dec_value(digits.take(i)),
    decreases j - i,
{
    if i < j {
        lemma_dec_value_grows(digits, i, j - 1);
        assert(digits.take(j).take(j - 1) =~= digits.take(j - 1));
        assert(spec_dec_value(digits.take(j)) == spec_dec_value(digits.take(j - 1)) * 10 + (
        digits[j - 1] - 48) as nat);
    }
}

/// The bytes of `"tree "`.
pub open spec fn spec_tree_prefix() -> Seq<u8> {
    seq![116u8, 114u8, 101u8, 101u8, 32u8]
}

/// The bytes of `"parent "`.
pub open spec fn spec_parent_prefix() -> Seq<u8> {
    seq![112u8, 97u8, 114u8, 101u8, 110u8, 116u8, 32u8]
}

/// The bytes of `"author "`.
pub open spec fn spec_author_prefix() -> Seq<u8> {
    seq![97u8, 117u8, 116u8, 104u8, 111u8, 114u8, 32u8]
}

pub fn tree_prefix() -> (r: Vec<u8>)
    ensures
        r@ == spec_tree_prefix(),
{
    let mut v: Vec<u8> = Vec::new();
    v.push(116);
    v.push(114);
    v.push(101);
    v.push(101);
    v.push(32);
    proof {
        assert(v@ =~= spec_tree_prefix());
    }
    v
}

pub fn parent_prefix() -> (r: Vec<u8>)
    ensures
        r@ == spec_parent_prefix(),
{
    let mut v: Vec<u8> = Vec::new();
    v.push(112);
    v.push(97);
    v.push(114);
    v.push(101);
    v.push(110);
    v.push(116);
    v.push(32);
    proof {
        assert(v@ =~= spec_parent_prefix());
    }
    v
}

fn author_prefix() -> (r: Vec<u8>)
    ensures
        r@ == spec_author_prefix(),
{
    let mut v: Vec<u8> = Vec::new();
    v.push(97);
    v.push(117);
    v.push(116);
    v.push(104);
    v.push(111);
    v.push(114);
    v.push(32);
    proof {
        assert(v@ =~= spec_author_prefix());
    }
    v
}

/// The model of a vector of byte lines.
pub open spec fn lines_model(lines: Seq<Vec<u8>>) -> Seq<Seq<u8>> {
    lines.map(|i: int, l: Vec<u8>| l@)
}

/// Finds the first line before `end` that begins with `prefix` and
/// returns what follows the prefix.
pub fn find_prefixed(lines: &Vec<Vec<u8>>, prefix: &[u8], end: usize) -> (r: Option<Vec<u8>>)
    requires
        end <= lines@.len(),
    ensures
        match spec_find_prefixed(lines_model(lines@), prefix@, 0, end as int) {
            None => r is None,
            Some(rest) => r matches Some(v) && v@ == rest,
        },
{
    let ghost model = lines_model(lines@);
    let mut i: usize = 0;
    while i < end
        invariant
            i <= end <= lines@.len(),
            model == lines_model(lines@),
            spec_find_prefixed(model, prefix@, 0, end as int) == spec_find_prefixed(
                model,
                prefix@,
                i as int,
                end as int,
            ),
        decreases end - i,
    {
        let line = &lines[i];
        if starts_with(line.as_slice(), prefix) {
            let rest = copy_range(line.as_slice(), prefix.len(), line.len());
            proof {
                assert(rest@ =~= model[i as int].skip(prefix@.len() as int));
            }
            return Some(rest);
        }
        i = i + 1;
    }
    None
}

/// Finds the last line before `end` that begins with `prefix` and returns
/// what follows the prefix.
fn rfind_prefixed(lines: &Vec<Vec<u8>>, prefix: &[u8], end: usize) -> (r: Option<Vec<u8>>)
    requires
        end <= lines@.len(),
    ensures
        match spec_rfind_prefixed(lines_model(lines@), prefix@, end as int) {
            None => r is None,
            Some(rest) => r matches Some(v) && v@ == rest,
        },
{
    let ghost model = lines_model(lines@);
    let mut j: usize = end;
    while j > 0
        invariant
            j <= end <= lines@.len(),
            model == lines_model(lines@),
            spec_rfind_prefixed(model, prefix@, end as int) == spec_rfind_prefixed(
                model,
                prefix@,
                j as int,
            ),
        decreases j,
    {
        let line = &lines[j - 1];
        if starts_with(line.as_slice(), prefix) {
            let rest = copy_range(line.as_slice(), prefix.len(), line.len());
            proof {
                assert(rest@ =~= model[j - 1].skip(prefix@.len() as int));
            }
            return Some(rest);
        }
        j = j - 1;
    }
    None
}

/// The index of the first empty line.
pub fn first_empty_pub(lines: &Vec<Vec<u8>>) -> (r: usize)
    ensures
        r as int == spec_first_empty(lines_model(lines@), 0),
        r <= lines@.len(),
{
    let ghost model = lines_model(lines@);
    let mut i: usize = 0;
    while i < lines.len()
        invariant
            i <= lines@.len(),
            model == lines_model(lines@),
            spec_first_empty(model, 0) == spec_first_empty(model, i as int),
        decreases lines.len() - i,
    {
        if lines[i].len() == 0 {
            return i;
        }
        i = i + 1;
    }
    i
}

/// The payload of an object after its envelope: inflated bytes past the
/// first NUL.
pub open spec fn spec_object_payload(raw: Seq<u8>) -> Option<Seq<u8>> {
    match crate::zlib::inflate_of(raw) {
        None => None,
        Some(d) => match spec_find_byte(d, 0, 0) {
            None => None,
            Some(nul) => Some(d.skip(nul + 1)),
        },
    }
}

/// Inflates an object and returns the payload after the envelope.
pub fn object_payload(data: &[u8]) -> (r: Option<Vec<u8>>)
    ensures
        r is Some <==> spec_object_payload(data@) is Some,
        r matches Some(v) ==> spec_object_payload(data@) == Some(v@),
{
    let d = match decompress_zlib(data) {
        Some(d) => d,
        None => {
            return None;
        },
    };
    let n = d.len();
    let nul = match find_byte(d.as_slice(), 0, 0) {
        Some(p) => p,
        None => {
            return None;
        },
    };
    let payload = copy_range(d.as_slice(), nul + 1, n);
    proof {
        assert(payload@ =~= d@.skip(nul + 1));
    }
    Some(payload)
}

/// The `tree` header of a commit payload, where the payload is UTF-8 and
/// carries one.
pub open spec fn spec_tree_of_commit(content: Seq<u8>) -> Option<Seq<char>> {
    if !vstd::utf8::valid_utf8(content) {
        None
    } else {
        let lines = spec_lines(content);
        match spec_find_prefixed(lines, spec_tree_prefix(), 0, lines.len() as int) {
            None => None,
            Some(rest) => if vstd::utf8::valid_utf8(rest) {
                Some(vstd::utf8::decode_utf8(rest))
            } else {
                None
            },
        }
    }
}

/// Extracts the `tree` header of a commit payload.
pub fn extract_tree_from_commit(content: &[u8]) -> (r: Option<String>)
    ensures
        r is Some <==> spec_tree_of_commit(content@) is Some,
        r matches Some(s) ==> spec_tree_of_commit(content@) == Some(s@),
{
    if string_of_bytes(content).is_none() {
        return None;
    }
    let lines = split_lines(content);
    let pfx = tree_prefix();
    let n = lines.len();
    match find_prefixed(&lines, pfx.as_slice(), n) {
        None => None,
        Some(rest) => string_of_bytes(rest.as_slice()),
    }
}

/// Extracts the `tree` header of a stored commit object.
pub fn extract_tree_oid(data: &[u8]) -> (r: Option<String>)
    ensures
        r is Some <==> (spec_object_payload(data@) matches Some(c) && spec_tree_of_commit(c)
            is Some),
        r matches Some(s) ==> spec_object_payload(data@) matches Some(c) && spec_tree_of_commit(c)
            == Some(s@),
{
    match object_payload(data) {
        None => None,
        Some(content) => extract_tree_from_commit(content.as_slice()),
    }
}

/// The `parent` headers of a commit payload, in order; lines whose rest
/// is not UTF-8 are skipped.
pub open spec fn spec_parents_of_commit(content: Seq<u8>) -> Seq<Seq<char>> {
    if !vstd::utf8::valid_utf8(content) {
        Seq::empty()
    } else {
        spec_collect_parents(spec_lines(content), 0)
    }
}

/// The `parent` rests of the lines from `i` on.
pub open spec fn spec_collect_parents(lines: Seq<Seq<u8>>, i: int) -> Seq<Seq<char>>
    decreases lines.len() - i,
{
    if i < 0 || i >= lines.len() {
        Seq::empty()
    } else {
        let rest = spec_collect_parents(lines, i + 1);
        if spec_starts_with(lines[i], spec_parent_prefix()) {
            let rb = lines[i].skip(spec_parent_prefix().len() as int);
            if vstd::utf8::valid_utf8(rb) {
                seq![vstd::utf8::decode_utf8(rb)] + rest
            } else {
                rest
            }
        } else {
            rest
        }
    }
}

/// Extracts every `parent` header of a commit payload.
pub fn extract_parents_from_commit(content: &[u8]) -> (r: Vec<String>)
    ensures
        r@.map(|i: int, s: String| s@) == spec_parents_of_commit(content@),
{
    let mut out: Vec<String> = Vec::new();
    if string_of_bytes(content).is_none() {
        proof {
            assert(out@.map(|i: int, s: String| s@) =~= Seq::<Seq<char>>::empty());
        }
        return out;
    }
    let lines = split_lines(content);
    let ghost model = lines_model(lines@);
    let pfx = parent_prefix();
    let mut i: usize = 0;
    while i < lines.len()
        invariant
            i <= lines@.len(),
            model == lines_model(lines@),
            pfx@ == spec_parent_prefix(),
            spec_parents_of_commit(content@) == out@.map(|k: int, s: String| s@)
                + spec_collect_parents(model, i as int),
        decreases lines.len() - i,
    {
        let ghost before = out@.map(|k: int, s: String| s@);
        let line = &lines[i];
        if starts_with(line.as_slice(), pfx.as_slice()) {
            let rest = copy_range(line.as_slice(), pfx.len(), line.len());
            proof {
                assert(rest@ =~= model[i as int].skip(spec_parent_prefix().len() as int));
            }
            match string_of_bytes(rest.as_slice()) {
                Some(sv) => {
                    out.push(sv);
                    proof {
                        assert(out@.map(|k: int, s: String| s@) =~= before + seq![
                            vstd::utf8::decode_utf8(rest@),
                        ]);
                        assert(before + (seq![vstd::utf8::decode_utf8(rest@)]
                            + spec_collect_parents(model, i + 1)) =~= out@.map(
                            |k: int, s: String| s@,
                        ) + spec_collect_parents(model, i + 1));
                    }
                },
                None => {
                },
            }
        }
        i = i + 1;
    }
    proof {
        assert(spec_collect_parents(model, lines@.len() as int) =~= Seq::<Seq<char>>::empty());
        assert(out@.map(|k: int, s: String| s@) + Seq::<Seq<char>>::empty() =~= out@.map(
            |k: int, s: String| s@,
        ));
    }
    out
}

/// A commit author as the browsing API reports it.
#[allow(non_snake_case)]
pub struct CommitAuthor {
    pub name: String,
    pub email: String,
    pub username: Option<String>,
    pub userId: Option<String>,
    pub avatarUrl: Option<String>,
}

/// A commit as the browsing API reports it: timestamps are milliseconds.
pub struct CommitInfo {
    pub oid: String,
    pub message: String,
    pub author: CommitAuthor,
    pub timestamp: i64,
}

/// `s` with every trailing `>` removed.
pub open spec fn spec_trim_end_gt(s: Seq<u8>) -> Seq<u8>
    decreases s.len(),
{
    if s.len() > 0 && s[s.len() - 1] == 62 {
        spec_trim_end_gt(s.take(s.len() - 1))
    } else {
        s
    }
}

fn trim_end_gt(s: &[u8]) -> (r: Vec<u8>)
    ensures
        r@ == spec_trim_end_gt(s@),
{
    let mut b = s.len();
    proof {
        assert(s@.take(s@.len() as int) =~= s@);
    }
    while b > 0 && s[b - 1] == 62
        invariant
            b <= s@.len(),
            spec_trim_end_gt(s@) == spec_trim_end_gt(s@.take(b as int)),
        decreases b,
    {
        proof {
            assert(s@.take(b as int).take(b - 1) =~= s@.take(b - 1));
        }
        b = b - 1;
    }
    proof {
        if b > 0 {
            assert(s@.take(b as int)[b - 1] == s@[b - 1]);
        }
        assert(spec_trim_end_gt(s@.take(b as int)) == s@.take(b as int));
    }
    copy_range(s, 0, b)
}

/// The first ASCII-whitespace-delimited token of `s` after trimming.
pub open spec fn spec_first_token(s: Seq<u8>) -> Seq<u8> {
    let t = spec_trim(s);
    match spec_find_ws(t, 0) {
        None => t,
        Some(p) => t.take(p),
    }
}

/// The first ASCII whitespace position at or after `i`.
pub open spec fn spec_find_ws(s: Seq<u8>, i: int) -> Option<int>
    decreases s.len() - i,
{
    if i < 0 || i >= s.len() {
        None
    } else if is_ascii_ws(s[i]) {
        Some(i)
    } else {
        spec_find_ws(s, i + 1)
    }
}

fn first_token(s: &[u8]) -> (r: Vec<u8>)
    ensures
        r@ == spec_first_token(s@),
{
    let t = trim_bytes(s);
    let n = t.len();
    let mut i: usize = 0;
    while i < n
        invariant
            i <= n,
            n == t@.len(),
            t@ == spec_trim(s@),
            spec_find_ws(t@, 0) == spec_find_ws(t@, i as int),
        decreases n - i,
    {
        if is_ascii_ws_at(t[i]) {
            proof {
                assert(spec_find_ws(t@, i as int) == Some(i as int));
                assert(t@.subrange(0, i as int) =~= t@.take(i as int));
            }
            return copy_range(t.as_slice(), 0, i);
        }
        i = i + 1;
    }
    t
}

/// The fields of an `author` header rest: name, email, and the raw
/// timestamp value in seconds.
pub open spec fn spec_author_fields(la: Seq<u8>) -> (Seq<u8>, Seq<u8>, int) {
    match spec_rfind_byte(la, 62, la.len() as int) {
        None => (Seq::empty(), Seq::empty(), 0),
        Some(gt) => {
            let name_email = la.take(gt + 1);
            let time_tz = la.skip(gt + 1);
            let secs = match spec_parse_i64(spec_first_token(time_tz)) {
                None => 0int,
                Some(v) => v,
            };
            match spec_find_byte(name_email, 60, 0) {
                None => (Seq::empty(), Seq::empty(), secs),
                Some(lt) => (
                    spec_trim(name_email.take(lt)),
                    spec_trim_end_gt(name_email.skip(lt + 1)),
                    secs,
                ),
            }
        },
    }
}

/// The millisecond timestamp of an author header: the seconds value times
/// a thousand, or zero where it cannot be parsed or leaves the range.
pub open spec fn spec_author_millis(la: Seq<u8>) -> int {
    let secs = spec_author_fields(la).2;
    if i64::MIN <= secs * 1000 <= i64::MAX {
        secs * 1000
    } else {
        0
    }
}

fn author_fields(la: &[u8]) -> (r: (Vec<u8>, Vec<u8>, i64))
    ensures
        r.0@ == spec_author_fields(la@).0,
        r.1@ == spec_author_fields(la@).1,
        r.2 as int == spec_author_millis(la@),
{
    let n = la.len();
    let gt = match rfind_byte_pub(la, 62) {
        None => {
            return (Vec::new(), Vec::new(), 0);
        },
        Some(p) => p,
    };
    let name_email = copy_range(la, 0, gt + 1);
    let time_tz = copy_range(la, gt + 1, n);
    proof {
        assert(name_email@ =~= la@.take(gt + 1));
        assert(time_tz@ =~= la@.skip(gt + 1));
    }
    let tok = first_token(time_tz.as_slice());
    let secs: i64 = match parse_i64(tok.as_slice()) {
        None => 0,
        Some(v) => v,
    };
    let millis: i64 = if secs > i64::MAX / 1000 || secs < i64::MIN / 1000 {
        0
    } else {
        secs * 1000
    };
    let ne = name_email.as_slice();
    match find_byte(ne, 60, 0) {
        None => (Vec::new(), Vec::new(), millis),
        Some(lt) => {
            let name_part = copy_range(ne, 0, lt);
            let email_part = copy_range(ne, lt + 1, name_email.len());
            proof {
                assert(name_part@ =~= name_email@.take(lt as int));
                assert(email_part@ =~= name_email@.skip(lt + 1));
            }
            let name = trim_bytes(name_part.as_slice());
            let email = trim_end_gt(email_part.as_slice());
            (name, email, millis)
        },
    }
}

/// The message of a commit: its lines after the first empty line, joined
/// with newlines.
pub open spec fn spec_join_lines(lines: Seq<Seq<u8>>, i: int) -> Seq<u8>
    decreases lines.len() - i,
{
    if i < 0 || i >= lines.len() {
        Seq::empty()
    } else if i == lines.len() - 1 {
        lines[i]
    } else {
        lines[i] + seq![10u8] + spec_join_lines(lines, i + 1)
    }
}

fn join_lines(lines: &Vec<Vec<u8>>, from: usize) -> (r: Vec<u8>)
    ensures
        r@ == spec_join_lines(lines_model(lines@), from as int),
{
    let ghost model = lines_model(lines@);
    let n = lines.len();
    let mut out: Vec<u8> = Vec::new();
    if from >= n {
        proof {
            assert(out@ =~= spec_join_lines(model, from as int));
        }
        return out;
    }
    let mut i: usize = from;
    while i < n
        invariant
            from <= i <= n,
            n == lines@.len(),
            model == lines_model(lines@),
            i < n ==> spec_join_lines(model, from as int) == out@ + spec_join_lines(
                model,
                i as int,
            ),
            i == n ==> spec_join_lines(model, from as int) == out@,
        decreases n - i,
    {
        let ghost before = out@;
        let mut piece = copy_range(lines[i].as_slice(), 0, lines[i].len());
        proof {
            assert(piece@ =~= model[i as int]);
        }
        out.append(&mut piece);
        if i + 1 < n {
            out.push(10);
            proof {
                assert(out@ =~= before + (model[i as int] + seq![10u8]));
                assert(before + (model[i as int] + seq![10u8] + spec_join_lines(model, i + 1))
                    =~= out@ + spec_join_lines(model, i + 1));
            }
        } else {
            proof {
                assert(out@ =~= before + model[i as int]);
            }
        }
        i = i + 1;
    }
    out
}

/// Parses a stored commit object into the fields the browsing API
/// reports, and its first parent.
pub fn parse_commit(data: &[u8], oid: &str) -> (r: Option<(CommitInfo, Option<String>)>)
    ensures
        r is Some <==> (spec_object_payload(data@) matches Some(c) && vstd::utf8::valid_utf8(c)),
        r matches Some((info, parent)) ==> spec_object_payload(data@) matches Some(c) && {
            let lines = spec_lines(c);
            let fe = spec_first_empty(lines, 0);
            &&& info.oid@ == oid@
            &&& info.message@ == chars_of_bytes(spec_join_lines(lines, fe + 1))
            &&& info.author.name@ == chars_of_bytes(
                spec_author_fields(
                    match spec_rfind_prefixed(lines, spec_author_prefix(), fe) {
                        None => Seq::empty(),
                        Some(la) => la,
                    },
                ).0,
            )
            &&& info.author.email@ == chars_of_bytes(
                spec_author_fields(
                    match spec_rfind_prefixed(lines, spec_author_prefix(), fe) {
                        None => Seq::empty(),
                        Some(la) => la,
                    },
                ).1,
            )
            &&& info.timestamp as int == spec_author_millis(
                match spec_rfind_prefixed(lines, spec_author_prefix(), fe) {
                    None => Seq::empty(),
                    Some(la) => la,
                },
            )
            &&& info.author.username is None && info.author.userId is None
                && info.author.avatarUrl is None
            &&& (match spec_find_prefixed(lines, spec_parent_prefix(), 0, fe) {
                None => parent is None,
                Some(pb) => parent matches Some(p) && p@ == chars_of_bytes(pb),
            })
        },
{
    let content = match object_payload(data) {
        None => {
            return None;
        },
        Some(c) => c,
    };
    if string_of_bytes(content.as_slice()).is_none() {
        return None;
    }
    let lines = split_lines(content.as_slice());
    let fe = first_empty_pub(&lines);
    let ppfx = parent_prefix();
    let parent = match find_prefixed(&lines, ppfx.as_slice(), fe) {
        None => None,
        Some(pb) => Some(crate::text::string_of_bytes_or_empty(pb.as_slice())),
    };
    let apfx = author_prefix();
    let (name_b, email_b, millis) = match rfind_prefixed(&lines, apfx.as_slice(), fe) {
        None => {
            let e: Vec<u8> = Vec::new();
            let r = author_fields(e.as_slice());
            proof {
                assert(e@ =~= Seq::<u8>::empty());
            }
            r
        },
        Some(la) => author_fields(la.as_slice()),
    };
    let from = if fe >= lines.len() {
        lines.len()
    } else {
        fe + 1
    };
    let msg_b = join_lines(&lines, from);
    proof {
        if fe >= lines@.len() {
            assert(spec_join_lines(lines_model(lines@), fe + 1) =~= Seq::<u8>::empty());
            assert(spec_join_lines(lines_model(lines@), lines@.len() as int)
                =~= Seq::<u8>::empty());
        }
    }
    let info = CommitInfo {
        oid: oid.to_owned(),
        message: crate::text::string_of_bytes_or_empty(msg_b.as_slice()),
        author: CommitAuthor {
            name: crate::text::string_of_bytes_or_empty(name_b.as_slice()),
            email: crate::text::string_of_bytes_or_empty(email_b.as_slice()),
            username: None,
            userId: None,
            avatarUrl: None,
        },
        timestamp: millis,
    };
    Some((info, parent))
}

/// The first line of a message.
pub open spec fn spec_title_of(chars: Seq<char>) -> Seq<char> {
    let upto = spec_find_char(chars, '\n', 0);
    let line = chars.take(upto);
    if line.len() > 0 && line[line.len() - 1] == '\r' {
        line.take(line.len() - 1)
    } else {
        line
    }
}

/// The position of the first `c` at or after `i`, or the length.
pub open spec fn spec_find_char(chars: Seq<char>, c: char, i: int) -> int
    decreases chars.len() - i,
{
    if i < 0 || i >= chars.len() {
        chars.len() as int
    } else if chars[i] == c {
        i
    } else {
        spec_find_char(chars, c, i + 1)
    }
}

/// The first line of a commit message: what a listing shows as the title.
pub fn get_commit_title(message: &str) -> (r: String)
    ensures
        r@ == spec_title_of(message@),
{
    let n = message.unicode_len();
    let mut i: usize = 0;
    loop
        invariant_except_break
            i <= n,
            n == message@.len(),
            spec_find_char(message@, '\n', 0) == spec_find_char(message@, '\n', i as int),
        ensures
            i <= n == message@.len(),
            spec_find_char(message@, '\n', 0) == i as int,
        decreases n - i,
    {
        if i >= n {
            break;
        }
        if message.get_char(i) == '\n' {
            proof {
                assert(message@[i as int] == '\n');
            }
            break;
        }
        i = i + 1;
    }
    let line_end: usize = if i > 0 && message.get_char(i - 1) == '\r' {
        i - 1
    } else {
        i
    };
    let t = message.substring_char(0, line_end);
    t.to_owned()
}

} // verus!
