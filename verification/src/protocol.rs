//! The smart-HTTP protocol: the `info/refs` advertisement, push ingestion
//! (receive-pack), and fetch service (upload-pack).

use vstd::prelude::*;
use crate::bytes::{bytes_eq, starts_with, spec_starts_with, copy_range, spec_find_byte, find_byte};
use crate::store::{spec_sget, spec_sput};
use crate::repo::R2GitStore;
use crate::refs::{spec_list_refs, spec_resolve_ref};
use crate::pkt::{spec_pkt_encode, spec_hex4_bytes, pkt_encode, PktPart, pkt_model};
use vstd::string::StringSliceAdditionalSpecFns;
use vstd::slice::slice_subrange;

verus! {

/// The bytes of `"HEAD"`.
pub open spec fn spec_head_name() -> Seq<u8> {
    seq![72u8, 69u8, 65u8, 68u8]
}

/// The bytes of `"refs/heads"`.
pub open spec fn spec_heads_ns() -> Seq<u8> {
    seq![114u8, 101u8, 102u8, 115u8, 47u8, 104u8, 101u8, 97u8, 100u8, 115u8]
}

/// The bytes of `"refs/tags"`.
pub open spec fn spec_tags_ns() -> Seq<u8> {
    seq![114u8, 101u8, 102u8, 115u8, 47u8, 116u8, 97u8, 103u8, 115u8]
}

fn head_name() -> (r: Vec<u8>)
    ensures
        r@ == spec_head_name(),
{
    let mut v: Vec<u8> = Vec::new();
    v.push(72);
    v.push(69);
    v.push(65);
    v.push(68);
    proof {
        assert(v@ =~= spec_head_name());
    }
    v
}

pub fn heads_ns_pub() -> (r: Vec<u8>)
    ensures
        r@ == spec_heads_ns(),
{
    let mut v: Vec<u8> = Vec::new();
    v.push(114);
    v.push(101);
    v.push(102);
    v.push(115);
    v.push(47);
    v.push(104);
    v.push(101);
    v.push(97);
    v.push(100);
    v.push(115);
    proof {
        assert(v@ =~= spec_heads_ns());
    }
    v
}

fn tags_ns() -> (r: Vec<u8>)
    ensures
        r@ == spec_tags_ns(),
{
    let mut v: Vec<u8> = Vec::new();
    v.push(114);
    v.push(101);
    v.push(102);
    v.push(115);
    v.push(47);
    v.push(116);
    v.push(97);
    v.push(103);
    v.push(115);
    proof {
        assert(v@ =~= spec_tags_ns());
    }
    v
}

/// The capability list advertised for each service.
pub open spec fn spec_caps(upload: bool) -> Seq<char> {
    if upload {
        "ofs-delta shallow no-progress include-tag symref=HEAD:refs/heads/main"@
    } else {
        "report-status delete-refs ofs-delta"@
    }
}

fn caps_bytes(upload: bool) -> (r: Vec<u8>)
    ensures
        r@ == vstd::utf8::encode_utf8(spec_caps(upload)),
{
    if upload {
        let s = "ofs-delta shallow no-progress include-tag symref=HEAD:refs/heads/main";
        s.as_bytes_vec()
    } else {
        let s = "report-status delete-refs ofs-delta";
        s.as_bytes_vec()
    }
}

/// Forty zero digits: the null object id.
pub open spec fn spec_zero_oid() -> Seq<u8> {
    Seq::new(40, |i: int| 48u8)
}

/// The forty-zero null id.
pub fn zero_oid() -> (r: Vec<u8>)
    ensures
        r@ == spec_zero_oid(),
{
    let mut v: Vec<u8> = Vec::new();
    let mut i: usize = 0;
    while i < 40
        invariant
            i <= 40,
            v@ == Seq::new(i as nat, |k: int| 48u8),
        decreases 40 - i,
    {
        v.push(48);
        proof {
            assert(v@ =~= Seq::new((i + 1) as nat, |k: int| 48u8));
        }
        i = i + 1;
    }
    v
}

/// The bytes of `" capabilities^{}\0"` with the trailing NUL.
pub open spec fn spec_caps_marker() -> Seq<u8> {
    seq![
        32u8, 99u8, 97u8, 112u8, 97u8, 98u8, 105u8, 108u8, 105u8, 116u8, 105u8, 101u8,
        115u8, 94u8, 123u8, 125u8, 0u8,
    ]
}

fn caps_marker() -> (r: Vec<u8>)
    ensures
        r@ == spec_caps_marker(),
{
    let mut v: Vec<u8> = Vec::new();
    v.push(32);
    v.push(99);
    v.push(97);
    v.push(112);
    v.push(97);
    v.push(98);
    v.push(105);
    v.push(108);
    v.push(105);
    v.push(116);
    v.push(105);
    v.push(101);
    v.push(115);
    v.push(94);
    v.push(123);
    v.push(125);
    v.push(0);
    proof {
        assert(v@ =~= spec_caps_marker());
    }
    v
}

/// The advertised ref lines: the first line carries the capability list
/// after a NUL; with no refs at all, one line advertises the null id
/// under `capabilities^{}`.
pub open spec fn spec_adv_lines(
    refs: Seq<(Seq<u8>, Seq<u8>)>,
    head: Option<Seq<u8>>,
    caps: Seq<u8>,
) -> Seq<Seq<u8>> {
    if refs.len() == 0 {
        seq![spec_zero_oid() + spec_caps_marker() + caps + seq![10u8]]
    } else {
        let first: (Seq<u8>, Seq<u8>) = match head {
            Some(h) => (spec_head_name(), h),
            None => refs[0],
        };
        let line0 = first.1 + seq![32u8] + first.0 + seq![0u8] + caps + seq![10u8];
        seq![line0] + spec_rest_lines(refs, first.0, head is Some, 0)
    }
}

/// The plain ref lines after the first: the ref that served as the first
/// line is skipped only when `HEAD` resolved.
pub open spec fn spec_rest_lines(
    refs: Seq<(Seq<u8>, Seq<u8>)>,
    first_name: Seq<u8>,
    have_head: bool,
    i: int,
) -> Seq<Seq<u8>>
    decreases refs.len() - i,
{
    if i < 0 || i >= refs.len() {
        Seq::empty()
    } else {
        let rest = spec_rest_lines(refs, first_name, have_head, i + 1);
        if refs[i].0 != first_name || !have_head {
            seq![refs[i].1 + seq![32u8] + refs[i].0 + seq![10u8]] + rest
        } else {
            rest
        }
    }
}

/// Frames kept within the pkt-line length bound.
pub open spec fn spec_frames_of_lines(lines: Seq<Seq<u8>>) -> Seq<Option<Seq<u8>>>
    decreases lines.len(),
{
    if lines.len() == 0 {
        Seq::empty()
    } else {
        let rest = spec_frames_of_lines(lines.drop_last());
        if lines.last().len() <= 0xfffb {
            rest.push(Some(lines.last()))
        } else {
            rest
        }
    }
}

/// A first line within the length bound is kept as the first frame.
proof fn lemma_frames_first(lines: Seq<Seq<u8>>)
    requires
        lines.len() > 0,
        lines[0].len() <= 0xfffb,
    ensures
        spec_frames_of_lines(lines).len() > 0,
        spec_frames_of_lines(lines)[0] == Some(lines[0]),
    decreases lines.len(),
{
    if lines.len() == 1 {
        assert(lines.drop_last() =~= Seq::<Seq<u8>>::empty());
        assert(lines.last() == lines[0]);
        assert(spec_frames_of_lines(lines) =~= seq![Some(lines[0])]);
    } else {
        lemma_frames_first(lines.drop_last());
        assert(lines.drop_last()[0] == lines[0]);
        let fdl = spec_frames_of_lines(lines.drop_last());
        if lines.last().len() <= 0xfffb {
            assert(spec_frames_of_lines(lines) == fdl.push(Some(lines.last())));
            assert(spec_frames_of_lines(lines)[0] == fdl[0]);
        } else {
            assert(spec_frames_of_lines(lines) == fdl);
        }
    }
}

/// The refs advertisement body: each line pkt-framed, then a flush.
pub open spec fn spec_refs_advertisement(
    s: Seq<(Seq<u8>, Seq<u8>)>,
    prefix: Seq<u8>,
    upload: bool,
) -> Seq<u8> {
    let refs = spec_list_refs(s, prefix, spec_heads_ns()) + spec_list_refs(
        s,
        prefix,
        spec_tags_ns(),
    );
    let head = spec_resolve_ref(s, prefix, spec_head_name(), 11);
    let caps = vstd::utf8::encode_utf8(spec_caps(upload));
    let lines = spec_adv_lines(refs, head, caps);
    spec_pkt_encode(spec_frames_of_lines(lines) + seq![Option::<Seq<u8>>::None])
}

/// The first advertised line for a resolved head: the head id, a space,
/// `HEAD`, a NUL, the capability list, a newline.
pub open spec fn spec_head_line(h: Seq<u8>, upload: bool) -> Seq<u8> {
    h + seq![32u8] + spec_head_name() + seq![0u8] + vstd::utf8::encode_utf8(spec_caps(upload))
        + seq![10u8]
}

/// An advertisement for a repository whose `HEAD` resolves to a
/// forty-byte id and that lists at least one ref begins with the
/// pkt-framed head line, capability list included, and ends with a
/// flush.
pub proof fn lemma_advertisement_shape(s: Seq<(Seq<u8>, Seq<u8>)>, prefix: Seq<u8>, upload: bool)
    requires
        spec_resolve_ref(s, prefix, spec_head_name(), 11) matches Some(h) && h.len() == 40,
        spec_list_refs(s, prefix, spec_heads_ns()).len() + spec_list_refs(
            s,
            prefix,
            spec_tags_ns(),
        ).len() > 0,
    ensures
        ({
            let h = spec_resolve_ref(s, prefix, spec_head_name(), 11)->0;
            let line0 = spec_head_line(h, upload);
            let adv = spec_refs_advertisement(s, prefix, upload);
            &&& adv.len() >= 4 + line0.len() + 4
            &&& adv.take(4 + line0.len() as int) == spec_hex4_bytes((line0.len() + 4) as nat)
                + line0
            &&& adv.skip(adv.len() - 4) == spec_hex4_bytes(0)
        }),
{
    let h = spec_resolve_ref(s, prefix, spec_head_name(), 11)->0;
    let caps = vstd::utf8::encode_utf8(spec_caps(upload));
    reveal_strlit("ofs-delta shallow no-progress include-tag symref=HEAD:refs/heads/main");
    reveal_strlit("report-status delete-refs ofs-delta");
    assert(vstd::utf8::is_ascii_chars(spec_caps(upload)));
    vstd::utf8::is_ascii_chars_encode_utf8(spec_caps(upload));
    assert(caps.len() == spec_caps(upload).len());
    let refs = spec_list_refs(s, prefix, spec_heads_ns()) + spec_list_refs(
        s,
        prefix,
        spec_tags_ns(),
    );
    let head = spec_resolve_ref(s, prefix, spec_head_name(), 11);
    let lines = spec_adv_lines(refs, head, caps);
    let line0 = spec_head_line(h, upload);
    assert(refs.len() > 0);
    assert(lines[0] == line0);
    assert(line0.len() == 40 + 1 + 4 + 1 + caps.len() + 1);
    assert(line0.len() <= 0xfffb);
    lemma_frames_first(lines);
    let frames = spec_frames_of_lines(lines);
    crate::pkt::lemma_pkt_encode_first(frames, line0);
    crate::pkt::lemma_pkt_encode_flush(frames);
    let adv = spec_refs_advertisement(s, prefix, upload);
    assert(frames + seq![Option::<Seq<u8>>::None] =~= frames.push(Option::<Seq<u8>>::None));
    assert(adv == spec_pkt_encode(frames) + spec_hex4_bytes(0));
    assert(spec_pkt_encode(frames) == spec_hex4_bytes((line0.len() + 4) as nat) + line0
        + spec_pkt_encode(frames.drop_first()));
    assert(spec_hex4_bytes((line0.len() + 4) as nat).len() == 4);
    assert(spec_hex4_bytes(0).len() == 4);
    assert(adv.take(4 + line0.len() as int) =~= spec_hex4_bytes((line0.len() + 4) as nat)
        + line0);
    assert(adv.skip(adv.len() - 4) =~= spec_hex4_bytes(0));
}

impl R2GitStore {
    /// Builds the `info/refs` advertisement body for a service: branch
    /// and tag refs, `HEAD` first when it resolves, capabilities on the
    /// first line, a flush at the end.
    pub fn get_refs_advertisement(&self, upload: bool) -> (r: Vec<u8>)
        ensures
            r@ == spec_refs_advertisement(self.store@, self.prefix@, upload),
    {
        let hns = heads_ns_pub();
        let tns = tags_ns();
        let mut refs = self.list_refs(hns.as_slice());
        let mut tags = self.list_refs(tns.as_slice());
        let ghost grefs = spec_list_refs(self.store@, self.prefix@, spec_heads_ns())
            + spec_list_refs(self.store@, self.prefix@, spec_tags_ns());
        refs.append(&mut tags);
        proof {
            assert(refs@.map(|i: int, e: (Vec<u8>, Vec<u8>)| (e.0@, e.1@)) =~= grefs);
        }
        let hd = head_name();
        let head = self.resolve_ref(hd.as_slice());
        let caps = caps_bytes(upload);
        let ghost ghead = spec_resolve_ref(self.store@, self.prefix@, spec_head_name(), 11);
        let ghost glines = spec_adv_lines(grefs, ghead, caps@);
        let mut lines: Vec<Vec<u8>> = Vec::new();
        if refs.len() == 0 {
            let mut l = zero_oid();
            let mut m = caps_marker();
            l.append(&mut m);
            let mut c = copy_range(caps.as_slice(), 0, caps.len());
            l.append(&mut c);
            l.push(10);
            proof {
                assert(caps@.subrange(0, caps@.len() as int) =~= caps@);
                assert(l@ =~= spec_zero_oid() + spec_caps_marker() + caps@ + seq![10u8]);
            }
            lines.push(l);
            proof {
                assert(lines@.map(|i: int, v: Vec<u8>| v@) =~= glines);
            }
        } else {
            let (first_name, first_oid) = match &head {
                Some(h) => (head_name(), copy_range(h.as_slice(), 0, h.len())),
                None => (
                    copy_range(refs[0].0.as_slice(), 0, refs[0].0.len()),
                    copy_range(refs[0].1.as_slice(), 0, refs[0].1.len()),
                ),
            };
            let ghost gfirst: (Seq<u8>, Seq<u8>) = match ghead {
                Some(h) => (spec_head_name(), h),
                None => grefs[0],
            };
            proof {
                assert(first_name@ =~= gfirst.0);
                assert(first_oid@ =~= gfirst.1);
            }
            let mut l0 = copy_range(first_oid.as_slice(), 0, first_oid.len());
            l0.push(32);
            let mut fnm = copy_range(first_name.as_slice(), 0, first_name.len());
            l0.append(&mut fnm);
            l0.push(0);
            let mut c = copy_range(caps.as_slice(), 0, caps.len());
            l0.append(&mut c);
            l0.push(10);
            proof {
                assert(l0@ =~= gfirst.1 + seq![32u8] + gfirst.0 + seq![0u8] + caps@ + seq![10u8]);
            }
            lines.push(l0);
            let have_head = head.is_some();
            let mut i: usize = 0;
            proof {
                assert(glines == seq![
                    gfirst.1 + seq![32u8] + gfirst.0 + seq![0u8] + caps@ + seq![10u8],
                ] + spec_rest_lines(grefs, gfirst.0, ghead is Some, 0));
                assert(lines@.map(|k: int, v: Vec<u8>| v@) =~= glines.take(1));
            }
            while i < refs.len()
                invariant
                    i <= refs@.len(),
                    grefs == refs@.map(|k: int, e: (Vec<u8>, Vec<u8>)| (e.0@, e.1@)),
                    have_head == (ghead is Some),
                    first_name@ == gfirst.0,
                    glines == seq![
                        gfirst.1 + seq![32u8] + gfirst.0 + seq![0u8] + caps@ + seq![10u8],
                    ] + spec_rest_lines(grefs, gfirst.0, ghead is Some, 0),
                    lines@.map(|k: int, v: Vec<u8>| v@) == glines.take(1) + spec_rest_lines(
                        grefs,
                        gfirst.0,
                        ghead is Some,
                        0,
                    ).take(
                        lines@.len() - 1,
                    ),
                    lines@.len() >= 1,
                    lines@.len() - 1 <= spec_rest_lines(grefs, gfirst.0, ghead is Some, 0).len(),
                    spec_rest_lines(grefs, gfirst.0, ghead is Some, 0) == spec_rest_lines(
                        grefs,
                        gfirst.0,
                        ghead is Some,
                        0,
                    ).take(lines@.len() - 1) + spec_rest_lines(
                        grefs,
                        gfirst.0,
                        ghead is Some,
                        i as int,
                    ),
                decreases refs.len() - i,
            {
                let ghost rl = spec_rest_lines(grefs, gfirst.0, ghead is Some, 0);
                let ghost tail = spec_rest_lines(grefs, gfirst.0, ghead is Some, i as int);
                let ghost done = lines@.len() - 1;
                let ghost before_map = lines@.map(|k: int, v: Vec<u8>| v@);
                let skip_this = have_head && bytes_eq(refs[i].0.as_slice(), first_name.as_slice());
                if !skip_this {
                    let mut l = copy_range(refs[i].1.as_slice(), 0, refs[i].1.len());
                    l.push(32);
                    let mut nm = copy_range(refs[i].0.as_slice(), 0, refs[i].0.len());
                    l.append(&mut nm);
                    l.push(10);
                    proof {
                        assert(l@ =~= grefs[i as int].1 + seq![32u8] + grefs[i as int].0 + seq![
                            10u8,
                        ]);
                    }
                    let ghost lv = l@;
                    lines.push(l);
                    proof {
                        assert(tail == seq![lv] + spec_rest_lines(grefs, gfirst.0, ghead is Some,
                            i + 1));
                        lemma_take_concat_index(rl, done, tail);
                        assert(tail[0] == lv);
                        assert(rl.take(done + 1) =~= rl.take(done).push(rl[done]));
                        assert(lines@.map(|k: int, v: Vec<u8>| v@) =~= before_map.push(lv));
                        assert(lines@.map(|k: int, v: Vec<u8>| v@) =~= glines.take(1) + rl.take(
                            lines@.len() - 1,
                        ));
                        assert(rl =~= rl.take(lines@.len() - 1) + spec_rest_lines(grefs, gfirst.0,
                            ghead is Some, i + 1));
                    }
                } else {
                    proof {
                        assert(tail =~= spec_rest_lines(grefs, gfirst.0, ghead is Some, i + 1));
                    }
                }
                i = i + 1;
            }
            proof {
                assert(spec_rest_lines(grefs, gfirst.0, ghead is Some, grefs.len() as int) =~= Seq::<
                    Seq<u8>,
                >::empty());
                assert(spec_rest_lines(grefs, gfirst.0, ghead is Some, 0) =~= spec_rest_lines(
                    grefs,
                    gfirst.0,
                    ghead is Some,
                    0,
                ).take(lines@.len() - 1));
                assert(lines@.map(|k: int, v: Vec<u8>| v@) =~= glines);
            }
        }
        // Frame the lines and close with a flush.
        let mut parts: Vec<PktPart> = Vec::new();
        let mut i: usize = 0;
        let ghost lm = lines@.map(|k: int, v: Vec<u8>| v@);
        proof {
            assert(pkt_model(parts@) =~= spec_frames_of_lines(lm.take(0)));
        }
        while i < lines.len()
            invariant
                i <= lines@.len(),
                lm == lines@.map(|k: int, v: Vec<u8>| v@),
                pkt_model(parts@) == spec_frames_of_lines(lm.take(i as int)),
                forall|k: int| 0 <= k < parts@.len() ==> match #[trigger] parts@[k]@ {
                    Some(payload) => payload.len() <= 0xfffb,
                    None => true,
                },
            decreases lines.len() - i,
        {
            let ghost before = pkt_model(parts@);
            proof {
                assert(lm.take(i + 1) =~= lm.take(i as int).push(lm[i as int]));
                lemma_frames_push(lm.take(i as int), lm[i as int]);
            }
            if lines[i].len() <= 0xfffb {
                let l = copy_range(lines[i].as_slice(), 0, lines[i].len());
                proof {
                    assert(l@ =~= lm[i as int]);
                }
                parts.push(PktPart::Line(l));
                proof {
                    assert(pkt_model(parts@) =~= before.push(Some(lm[i as int])));
                }
            }
            i = i + 1;
        }
        proof {
            assert(lm.take(lm.len() as int) =~= lm);
        }
        parts.push(PktPart::Flush);
        proof {
            assert(pkt_model(parts@) =~= spec_frames_of_lines(lm) + seq![
                Option::<Seq<u8>>::None,
            ]);
        }
        pkt_encode(&parts)
    }
}

proof fn lemma_frames_push(lines: Seq<Seq<u8>>, l: Seq<u8>)
    ensures
        spec_frames_of_lines(lines.push(l)) == if l.len() <= 0xfffb {
            spec_frames_of_lines(lines).push(Some(l))
        } else {
            spec_frames_of_lines(lines)
        },
{
    assert(lines.push(l).drop_last() =~= lines);
    assert(lines.push(l).last() == l);
}

proof fn lemma_take_concat_index(rl: Seq<Seq<u8>>, done: int, tail: Seq<Seq<u8>>)
    requires
        0 <= done,
        rl == rl.take(done) + tail,
        tail.len() > 0,
        done <= rl.len(),
    ensures
        rl[done] == tail[0],
        done < rl.len(),
{
    assert(rl.len() == rl.take(done).len() + tail.len());
}

/// The bytes of `"PACK"`.
pub open spec fn spec_pack_sig() -> Seq<u8> {
    seq![80u8, 65u8, 67u8, 75u8]
}

/// The first position where the pack signature begins.
pub open spec fn spec_find_pack_sig(body: Seq<u8>, i: int) -> Option<int>
    decreases body.len() - i,
{
    if i < 0 || i + 4 > body.len() {
        None
    } else if body.subrange(i, i + 4) == spec_pack_sig() {
        Some(i)
    } else {
        spec_find_pack_sig(body, i + 1)
    }
}

fn find_pack_sig(body: &[u8]) -> (r: Option<usize>)
    ensures
        match spec_find_pack_sig(body@, 0) {
            None => r is None,
            Some(p) => r == Some(p as usize) && 0 <= p && p + 4 <= body@.len(),
        },
{
    let n = body.len();
    let mut i: usize = 0;
    loop
        invariant_except_break
            i <= n,
            n == body@.len(),
            spec_find_pack_sig(body@, 0) == spec_find_pack_sig(body@, i as int),
        ensures
            spec_find_pack_sig(body@, 0) is None,
        decreases n - i,
    {
        if n - i < 4 {
            break;
        }
        let w = slice_subrange(body, i, i + 4);
        proof {
            assert(w@ =~= body@.subrange(i as int, i + 4));
        }
        if w[0] == 80 && w[1] == 65 && w[2] == 67 && w[3] == 75 {
            proof {
                assert(w@ =~= spec_pack_sig());
            }
            return Some(i);
        }
        i = i + 1;
    }
    None
}

/// The ASCII-whitespace-separated tokens of a byte string.
pub open spec fn spec_tokens(s: Seq<u8>) -> Seq<Seq<u8>>
    decreases s.len(),
{
    let a = crate::pkt::spec_skip_ws(s, 0);
    if a < 0 || a >= s.len() {
        Seq::empty()
    } else {
        let b = match crate::commit::spec_find_ws(s, a) {
            None => s.len() as int,
            Some(p) => p,
        };
        if a < b <= s.len() {
            seq![s.subrange(a, b)] + spec_tokens(s.skip(b))
        } else {
            Seq::empty()
        }
    }
}

/// Splits a byte string into its ASCII-whitespace-separated tokens.
pub fn tokens(s: &[u8]) -> (r: Vec<Vec<u8>>)
    ensures
        r@.map(|i: int, t: Vec<u8>| t@) == spec_tokens(s@),
    decreases s@.len(),
{
    let n = s.len();
    let mut out: Vec<Vec<u8>> = Vec::new();
    let mut pos: usize = 0;
    let ghost whole = s@;
    proof {
        assert(whole.skip(0) =~= whole);
        assert(out@.map(|i: int, t: Vec<u8>| t@) =~= Seq::<Seq<u8>>::empty());
    }
    loop
        invariant_except_break
            pos <= n,
            n == s@.len(),
            whole == s@,
            spec_tokens(whole) == out@.map(|i: int, t: Vec<u8>| t@) + spec_tokens(
                s@.skip(pos as int),
            ),
        ensures
            spec_tokens(whole) == out@.map(|i: int, t: Vec<u8>| t@),
        decreases n - pos,
    {
        let ghost before = out@.map(|i: int, t: Vec<u8>| t@);
        let ghost tail = s@.skip(pos as int);
        let mut a = pos;
        while a < n && crate::pkt::is_ascii_ws_at(s[a])
            invariant
                pos <= a <= n,
                n == s@.len(),
                crate::pkt::spec_skip_ws(s@, pos as int) == crate::pkt::spec_skip_ws(
                    s@,
                    a as int,
                ),
            decreases n - a,
        {
            a = a + 1;
        }
        proof {
            assert(crate::pkt::spec_skip_ws(s@, pos as int) == a as int);
            lemma_skip_ws_shift(s@, pos as int, a as int);
        }
        if a >= n {
            proof {
                assert(spec_tokens(tail) =~= Seq::<Seq<u8>>::empty());
                assert(before + Seq::<Seq<u8>>::empty() =~= before);
            }
            break;
        }
        let mut b = a;
        while b < n && !crate::pkt::is_ascii_ws_at(s[b])
            invariant
                a <= b <= n,
                n == s@.len(),
                crate::commit::spec_find_ws(s@, a as int) == crate::commit::spec_find_ws(
                    s@,
                    b as int,
                ),
            decreases n - b,
        {
            b = b + 1;
        }
        proof {
            if b < n {
                assert(crate::commit::spec_find_ws(s@, b as int) == Some(b as int));
            }
            lemma_find_ws_shift(s@, pos as int, a as int, b as int);
        }
        let tok = copy_range(s, a, b);
        let ghost tv = tok@;
        out.push(tok);
        proof {
            assert(tv =~= tail.subrange(a - pos, b - pos));
            assert(spec_tokens(tail) == seq![tail.subrange(a - pos, b - pos)] + spec_tokens(
                tail.skip(b - pos),
            ));
            assert(tail.skip(b - pos) =~= s@.skip(b as int));
            assert(out@.map(|i: int, t: Vec<u8>| t@) =~= before.push(tv));
            assert(before + (seq![tv] + spec_tokens(s@.skip(b as int))) =~= out@.map(
                |i: int, t: Vec<u8>| t@,
            ) + spec_tokens(s@.skip(b as int)));
        }
        proof {
            assert(b > pos);
        }
        pos = b;
    }
    out
}

/// Skipping whitespace in the suffix mirrors skipping it in the whole.
proof fn lemma_skip_ws_shift(s: Seq<u8>, pos: int, a: int)
    requires
        0 <= pos <= s.len(),
        crate::pkt::spec_skip_ws(s, pos) == a,
    ensures
        crate::pkt::spec_skip_ws(s.skip(pos), 0) == a - pos,
    decreases s.len() - pos,
{
    lemma_skip_ws_shift_gen(s, pos, pos);
}

proof fn lemma_skip_ws_shift_gen(s: Seq<u8>, pos: int, j: int)
    requires
        0 <= pos <= j <= s.len(),
    ensures
        crate::pkt::spec_skip_ws(s.skip(pos), j - pos) == crate::pkt::spec_skip_ws(s, j) - pos,
    decreases s.len() - j,
{
    if j < s.len() {
        assert(s.skip(pos)[j - pos] == s[j]);
        if crate::pkt::is_ascii_ws(s[j]) {
            lemma_skip_ws_shift_gen(s, pos, j + 1);
        }
    }
}

/// Finding whitespace in the suffix mirrors finding it in the whole.
proof fn lemma_find_ws_shift(s: Seq<u8>, pos: int, a: int, b: int)
    requires
        0 <= pos <= a <= b <= s.len(),
        crate::commit::spec_find_ws(s, a) == (if b < s.len() {
            Some(b)
        } else {
            Option::<int>::None
        }),
    ensures
        crate::commit::spec_find_ws(s.skip(pos), a - pos) == (if b < s.len() {
            Some(b - pos)
        } else {
            Option::<int>::None
        }),
{
    lemma_find_ws_shift_gen(s, pos, a);
}

proof fn lemma_find_ws_shift_gen(s: Seq<u8>, pos: int, j: int)
    requires
        0 <= pos <= j <= s.len(),
    ensures
        crate::commit::spec_find_ws(s.skip(pos), j - pos) == (match crate::commit::spec_find_ws(
            s,
            j,
        ) {
            None => Option::<int>::None,
            Some(p) => Some(p - pos),
        }),
    decreases s.len() - j,
{
    if j < s.len() {
        assert(s.skip(pos)[j - pos] == s[j]);
        if !crate::pkt::is_ascii_ws(s[j]) {
            lemma_find_ws_shift_gen(s, pos, j + 1);
        }
    }
}

/// The bytes of `"refs/"`.
pub open spec fn spec_refs_prefix() -> Seq<u8> {
    seq![114u8, 101u8, 102u8, 115u8, 47u8]
}

fn refs_prefix() -> (r: Vec<u8>)
    ensures
        r@ == spec_refs_prefix(),
{
    let mut v: Vec<u8> = Vec::new();
    v.push(114);
    v.push(101);
    v.push(102);
    v.push(115);
    v.push(47);
    proof {
        assert(v@ =~= spec_refs_prefix());
    }
    v
}

/// The bytes of `"refs/heads/"`.
pub open spec fn spec_heads_prefix() -> Seq<u8> {
    spec_heads_ns() + seq![47u8]
}

/// The command a trimmed pkt line carries: two forty-byte ids and a ref
/// name, the name cut at the first NUL where capabilities follow.
pub open spec fn spec_command_of(t: Seq<u8>) -> Option<(Seq<u8>, Seq<u8>, Seq<u8>)> {
    let toks = spec_tokens(t);
    if toks.len() >= 3 && toks[0].len() == 40 && toks[1].len() == 40 {
        let name = match spec_find_byte(toks[2], 0, 0) {
            None => toks[2],
            Some(z) => toks[2].take(z),
        };
        Some((toks[0], toks[1], name))
    } else {
        None
    }
}

/// The commands of the frames from `i` on: flushes, frames that are not
/// UTF-8 after trimming, and lines without a command shape are skipped.
pub open spec fn spec_commands(frames: Seq<Option<Seq<u8>>>, i: int) -> Seq<
    (Seq<u8>, Seq<u8>, Seq<u8>),
>
    decreases frames.len() - i,
{
    if i < 0 || i >= frames.len() {
        Seq::empty()
    } else {
        let rest = spec_commands(frames, i + 1);
        match frames[i] {
            None => rest,
            Some(p) => {
                let t = crate::pkt::spec_trim(p);
                if !vstd::utf8::valid_utf8(t) {
                    rest
                } else {
                    match spec_command_of(t) {
                        None => rest,
                        Some(c) => seq![c] + rest,
                    }
                }
            },
        }
    }
}

/// Parses the ref-update commands of a receive-pack command section.
pub fn parse_commands(section: &[u8]) -> (r: Vec<(Vec<u8>, Vec<u8>, Vec<u8>)>)
    ensures
        r@.map(|i: int, c: (Vec<u8>, Vec<u8>, Vec<u8>)| (c.0@, c.1@, c.2@)) == spec_commands(
            crate::pkt::spec_pkt_parse(section@, 0),
            0,
        ),
{
    let frames = crate::pkt::pkt_parse(section);
    let ghost fm = crate::pkt::pkt_model(frames@);
    let mut out: Vec<(Vec<u8>, Vec<u8>, Vec<u8>)> = Vec::new();
    let mut i: usize = 0;
    proof {
        assert(out@.map(|k: int, c: (Vec<u8>, Vec<u8>, Vec<u8>)| (c.0@, c.1@, c.2@)) =~= Seq::<
            (Seq<u8>, Seq<u8>, Seq<u8>),
        >::empty());
    }
    while i < frames.len()
        invariant
            i <= frames@.len(),
            fm == crate::pkt::pkt_model(frames@),
            spec_commands(fm, 0) == out@.map(
                |k: int, c: (Vec<u8>, Vec<u8>, Vec<u8>)| (c.0@, c.1@, c.2@),
            ) + spec_commands(fm, i as int),
        decreases frames.len() - i,
    {
        let ghost before = out@.map(|k: int, c: (Vec<u8>, Vec<u8>, Vec<u8>)| (c.0@, c.1@, c.2@));
        proof {
            assert(fm[i as int] == frames@[i as int]@);
        }
        match &frames[i] {
            crate::pkt::PktPart::Flush => {
            },
            crate::pkt::PktPart::Line(p) => {
                let t = crate::pkt::trim_bytes(p.as_slice());
                if crate::text::string_of_bytes(t.as_slice()).is_some() {
                    let toks = tokens(t.as_slice());
                    if toks.len() >= 3 && toks[0].len() == 40 && toks[1].len() == 40 {
                        let name = match find_byte(toks[2].as_slice(), 0, 0) {
                            None => copy_range(toks[2].as_slice(), 0, toks[2].len()),
                            Some(z) => copy_range(toks[2].as_slice(), 0, z),
                        };
                        let old_oid = copy_range(toks[0].as_slice(), 0, toks[0].len());
                        let new_oid = copy_range(toks[1].as_slice(), 0, toks[1].len());
                        let ghost gt = crate::pkt::spec_trim(p@);
                        let ghost gtoks = spec_tokens(gt);
                        proof {
                            assert(toks@.map(|k: int, v: Vec<u8>| v@) == gtoks);
                            assert(old_oid@ =~= gtoks[0]);
                            assert(new_oid@ =~= gtoks[1]);
                            assert(name@ =~= (match spec_find_byte(gtoks[2], 0, 0) {
                                None => gtoks[2],
                                Some(z) => gtoks[2].take(z),
                            }));
                        }
                        let ghost gc = spec_command_of(gt)->0;
                        out.push((old_oid, new_oid, name));
                        proof {
                            assert(out@.map(
                                |k: int, c: (Vec<u8>, Vec<u8>, Vec<u8>)| (c.0@, c.1@, c.2@),
                            ) =~= before.push(gc));
                            assert(before + (seq![gc] + spec_commands(fm, i + 1)) =~= out@.map(
                                |k: int, c: (Vec<u8>, Vec<u8>, Vec<u8>)| (c.0@, c.1@, c.2@),
                            ) + spec_commands(fm, i + 1));
                        }
                    }
                }
            },
        }
        i = i + 1;
    }
    proof {
        assert(spec_commands(fm, fm.len() as int) =~= Seq::<(Seq<u8>, Seq<u8>, Seq<u8>)>::empty());
        assert(out@.map(|k: int, c: (Vec<u8>, Vec<u8>, Vec<u8>)| (c.0@, c.1@, c.2@)) + Seq::<
            (Seq<u8>, Seq<u8>, Seq<u8>),
        >::empty() =~= out@.map(|k: int, c: (Vec<u8>, Vec<u8>, Vec<u8>)| (c.0@, c.1@, c.2@)));
    }
    out
}

/// The bytes of `"/objects/pack/pack-"`.
pub open spec fn spec_pack_name_prefix() -> Seq<u8> {
    seq![
        47u8, 111u8, 98u8, 106u8, 101u8, 99u8, 116u8, 115u8, 47u8, 112u8, 97u8, 99u8,
        107u8, 47u8, 112u8, 97u8, 99u8, 107u8, 45u8,
    ]
}

fn pack_name_prefix() -> (r: Vec<u8>)
    ensures
        r@ == spec_pack_name_prefix(),
{
    let mut v: Vec<u8> = Vec::new();
    v.push(47);
    v.push(111);
    v.push(98);
    v.push(106);
    v.push(101);
    v.push(99);
    v.push(116);
    v.push(115);
    v.push(47);
    v.push(112);
    v.push(97);
    v.push(99);
    v.push(107);
    v.push(47);
    v.push(112);
    v.push(97);
    v.push(99);
    v.push(107);
    v.push(45);
    proof {
        assert(v@ =~= spec_pack_name_prefix());
    }
    v
}

/// The stored pack and index keys for a pack with the given hex hash.
pub open spec fn spec_pack_blob_key(prefix: Seq<u8>, hash: Seq<u8>) -> Seq<u8> {
    prefix + spec_pack_name_prefix() + hash + crate::repo::spec_pack_suffix()
}

pub open spec fn spec_idx_blob_key(prefix: Seq<u8>, hash: Seq<u8>) -> Seq<u8> {
    prefix + spec_pack_name_prefix() + hash + crate::repo::spec_idx_suffix()
}

/// The normalized ref path of a pushed name: names outside `refs/` go
/// under `refs/heads/`.
pub open spec fn spec_norm_ref(name: Seq<u8>) -> Seq<u8> {
    if spec_starts_with(name, spec_refs_prefix()) {
        name
    } else {
        spec_heads_prefix() + name
    }
}

/// The store after applying the ref updates from `i` on: the null id
/// deletes, anything else writes.
pub open spec fn spec_apply_updates(
    s: Seq<(Seq<u8>, Seq<u8>)>,
    prefix: Seq<u8>,
    updates: Seq<(Seq<u8>, Seq<u8>, Seq<u8>)>,
    i: int,
) -> Seq<(Seq<u8>, Seq<u8>)>
    decreases updates.len() - i,
{
    if i < 0 || i >= updates.len() {
        s
    } else {
        let name = spec_norm_ref(updates[i].2);
        let s2 = if updates[i].1 == spec_zero_oid() {
            crate::store::spec_sdel(s, crate::repo::spec_ref_key(prefix, name))
        } else {
            crate::store::spec_sput(s, crate::repo::spec_ref_key(prefix, name), updates[i].1
                + seq![10u8])
        };
        spec_apply_updates(s2, prefix, updates, i + 1)
    }
}

/// The status report: `unpack ok`, one `ok <ref>` per command, a flush.
pub open spec fn spec_receive_report(updates: Seq<(Seq<u8>, Seq<u8>, Seq<u8>)>) -> Seq<u8> {
    let lines = seq![vstd::utf8::encode_utf8("unpack ok\n"@)] + updates.map(
        |i: int, u: (Seq<u8>, Seq<u8>, Seq<u8>)| vstd::utf8::encode_utf8("ok "@) + u.2 + seq![
            10u8,
        ],
    );
    spec_pkt_encode(spec_frames_of_lines(lines) + seq![Option::<Seq<u8>>::None])
}

/// The store a successful receive-pack leaves: the pack blob, its
/// skeletal index when the pack is at least the header long, and the ref
/// updates applied in order.
pub open spec fn spec_receive_store(
    s: Seq<(Seq<u8>, Seq<u8>)>,
    prefix: Seq<u8>,
    pack: Seq<u8>,
    updates: Seq<(Seq<u8>, Seq<u8>, Seq<u8>)>,
) -> Seq<(Seq<u8>, Seq<u8>)> {
    let hash = crate::hex::hex_of(crate::sha::sha1_of(pack));
    let s1 = crate::store::spec_sput(s, spec_pack_blob_key(prefix, hash), pack);
    let s2 = if pack.len() >= 12 {
        crate::store::spec_sput(s1, spec_idx_blob_key(prefix, hash),
            crate::idx::spec_pack_index_bytes(pack))
    } else {
        s1
    };
    let s3 = if pack.len() >= 12 {
        spec_expand_pack(s2, prefix, pack, crate::idx::spec_pack_index_bytes(pack), 12)
    } else {
        s2
    };
    spec_apply_updates(s3, prefix, updates, 0)
}


/// The store after expanding the REF_DELTA entries of a freshly stored
/// pack into loose objects: each entry whose base resolves through the
/// store is rewritten in canonical form under its own id, so the object
/// is reachable by hash even though the pack's index claims nothing.
pub open spec fn spec_expand_pack(
    s: Seq<(Seq<u8>, Seq<u8>)>,
    prefix: Seq<u8>,
    pack: Seq<u8>,
    idx: Seq<u8>,
    pos: int,
) -> Seq<(Seq<u8>, Seq<u8>)>
    decreases pack.len() - pos,
{
    if pos < 0 || pos + 20 >= pack.len() {
        s
    } else {
        match crate::pack::spec_pack_header(pack, pos) {
            None => s,
            Some((t, size, next)) => if next <= pos || next > pack.len() {
                s
            } else {
                match crate::pack::spec_entry_extra(pack, t, next) {
                    None => s,
                    Some(extra) => if extra < 0 {
                        s
                    } else {
                        let zstart = next + extra;
                        match crate::zlib::inflate_of(pack.skip(zstart)) {
                            None => s,
                            Some(_c) => {
                                let used = crate::zlib::inflate_len_of(pack.skip(zstart)) as int;
                                if used < 1 || zstart + used > pack.len() {
                                    s
                                } else {
                                    let s2 = if t == 7 {
                                        spec_expand_entry(s, prefix, pack, idx, pos)
                                    } else {
                                        s
                                    };
                                    spec_expand_pack(s2, prefix, pack, idx, zstart + used)
                                }
                            },
                        }
                    },
                }
            },
        }
    }
}

/// One REF_DELTA entry's expansion: where it resolves to a known type,
/// the canonical deflated object is written under its id.
pub open spec fn spec_expand_entry(
    s: Seq<(Seq<u8>, Seq<u8>)>,
    prefix: Seq<u8>,
    pack: Seq<u8>,
    idx: Seq<u8>,
    pos: int,
) -> Seq<(Seq<u8>, Seq<u8>)> {
    match crate::repo::spec_resolve_at(s, prefix, pack, idx, pos, 100) {
        None => s,
        Some((tb, content)) => if crate::repo::spec_known_tname(tb) {
            let framed = crate::object::spec_object_frame(tb, content);
            let oid = crate::hex::hex_of(crate::sha::sha1_of(framed));
            crate::store::spec_sput(
                s,
                crate::repo::spec_object_key(prefix, oid),
                crate::zlib::deflate_of(framed),
            )
        } else {
            s
        },
    }
}

impl R2GitStore {
    /// Expands the REF_DELTA entries of a stored pack into loose objects.
    fn expand_pack_deltas(&mut self, pack: &[u8], idx: &[u8])
        ensures
            final(self).store@ == spec_expand_pack(old(self).store@, old(self).prefix@, pack@,
                idx@, 12),
            final(self).prefix@ == old(self).prefix@,
            final(self).cache@ == old(self).cache@,
    {
        let n = pack.len();
        let mut pos: usize = 12;
        loop
            invariant_except_break
                pack@.len() == n,
                self.prefix@ == old(self).prefix@,
                self.cache@ == old(self).cache@,
                spec_expand_pack(old(self).store@, old(self).prefix@, pack@, idx@, 12)
                    == spec_expand_pack(self.store@, self.prefix@, pack@, idx@, pos as int),
            ensures
                spec_expand_pack(old(self).store@, old(self).prefix@, pack@, idx@, 12)
                    == self.store@,
                self.prefix@ == old(self).prefix@,
                self.cache@ == old(self).cache@,
            decreases n - pos,
        {
            if pos >= n || 20 >= n - pos {
                break;
            }
            let (t, next) = match crate::pack::pack_header_pos(pack, pos as u64) {
                Some(h) => h,
                None => {
                    break;
                },
            };
            let extra: usize = if 1 <= t && t <= 4 {
                0
            } else if t == 6 {
                let region = slice_subrange(pack, next, n);
                proof {
                    assert(region@ =~= pack@.skip(next as int));
                }
                match crate::pack::ofs_end_pub(region) {
                    Some(np) => np,
                    None => {
                        break;
                    },
                }
            } else if t == 7 {
                if 20 > n - next {
                    break;
                }
                20
            } else {
                break;
            };
            let zstart = next + extra;
            let region = slice_subrange(pack, zstart, n);
            proof {
                assert(region@ =~= pack@.skip(zstart as int));
            }
            let used = match crate::zlib::decompress_zlib_prefix(region) {
                Some((_content, used)) => used,
                None => {
                    break;
                },
            };
            if t == 7 {
                let ghost sbefore = self.store@;
                match self.resolve_at(pack, idx, pos as u64, 100) {
                    None => {
                        proof {
                            assert(self.store@ == spec_expand_entry(sbefore, self.prefix@, pack@,
                                idx@, pos as int));
                        }
                    },
                    Some((tb, content)) => {
                        if crate::repo::known_tname_pub(tb.as_slice()) {
                            let framed = crate::object::make_object_frame(
                                tb.as_slice(),
                                content.as_slice(),
                            );
                            let digest = crate::sha::sha1_digest(framed.as_slice());
                            let oid = crate::hex::hex_encode(digest.as_slice());
                            let key = self.object_path(oid.as_slice());
                            let wrapped = crate::zlib::compress_zlib(framed.as_slice());
                            self.store.put(key, wrapped);
                            proof {
                                assert(self.store@ == spec_expand_entry(sbefore, self.prefix@,
                                    pack@, idx@, pos as int));
                            }
                        } else {
                            proof {
                                assert(self.store@ == spec_expand_entry(sbefore, self.prefix@,
                                    pack@, idx@, pos as int));
                            }
                        }
                    },
                }
            }
            pos = zstart + used;
        }
    }
}

impl R2GitStore {
    /// Ingests a push: splits commands from the pack at the `PACK`
    /// signature, stores the pack and its skeletal index under the pack's
    /// SHA-1 name, applies each ref update (the null id deletes), and
    /// reports `unpack ok` with one `ok` line per command.  A body with
    /// no pack signature changes nothing and reports only `unpack ok`.
    pub fn handle_receive_pack(&mut self, body: &[u8]) -> (r: (
        Vec<u8>,
        Vec<(Vec<u8>, Vec<u8>, Vec<u8>)>,
    ))
        ensures
            ({
                let updates = r.1@.map(|i: int, c: (Vec<u8>, Vec<u8>, Vec<u8>)| (c.0@, c.1@, c.2@));
                match spec_find_pack_sig(body@, 0) {
                    None => {
                        &&& updates == Seq::<(Seq<u8>, Seq<u8>, Seq<u8>)>::empty()
                        &&& r.0@ == spec_receive_report(updates)
                        &&& final(self).store@ == old(self).store@
                    },
                    Some(ps) => {
                        &&& updates == spec_commands(
                            crate::pkt::spec_pkt_parse(body@.take(ps), 0),
                            0,
                        )
                        &&& r.0@ == spec_receive_report(updates)
                        &&& final(self).store@ == spec_receive_store(old(self).store@,
                            old(self).prefix@, body@.skip(ps), updates)
                    },
                }
            }),
            final(self).prefix@ == old(self).prefix@,
            final(self).cache@ == old(self).cache@,
    {
        let n = body.len();
        let pack_start = match find_pack_sig(body) {
            Some(p) => p,
            None => {
                let empty: Vec<(Vec<u8>, Vec<u8>, Vec<u8>)> = Vec::new();
                let resp = receive_report(&empty);
                proof {
                    assert(empty@.map(|i: int, c: (Vec<u8>, Vec<u8>, Vec<u8>)| (c.0@, c.1@, c.2@))
                        =~= Seq::<(Seq<u8>, Seq<u8>, Seq<u8>)>::empty());
                }
                return (resp, empty);
            },
        };
        let section = slice_subrange(body, 0, pack_start);
        let pack_data = copy_range(body, pack_start, n);
        proof {
            assert(section@ =~= body@.take(pack_start as int));
            assert(pack_data@ =~= body@.skip(pack_start as int));
        }
        let updates = parse_commands(section);
        let ghost gupd = updates@.map(|i: int, c: (Vec<u8>, Vec<u8>, Vec<u8>)| (c.0@, c.1@, c.2@));
        // Store the pack and its skeletal index under the pack's hash.
        let digest = crate::sha::sha1_digest(pack_data.as_slice());
        let hash = crate::hex::hex_encode(digest.as_slice());
        let mut pk = copy_range(self.prefix.as_slice(), 0, self.prefix.len());
        let mut pnp = pack_name_prefix();
        pk.append(&mut pnp);
        let mut h1 = copy_range(hash.as_slice(), 0, hash.len());
        pk.append(&mut h1);
        let mut ik = copy_range(pk.as_slice(), 0, pk.len());
        let mut psfx = pack_suffix_local();
        pk.append(&mut psfx);
        let mut isfx = idx_suffix_local();
        ik.append(&mut isfx);
        proof {
            assert(self.prefix@.subrange(0, self.prefix@.len() as int) =~= self.prefix@);
            assert(hash@.subrange(0, hash@.len() as int) =~= hash@);
            assert(pk@ =~= spec_pack_blob_key(self.prefix@, hash@));
            assert(ik@ =~= spec_idx_blob_key(self.prefix@, hash@));
        }
        let pv = copy_range(pack_data.as_slice(), 0, pack_data.len());
        proof {
            assert(pv@ =~= pack_data@);
        }
        self.store.put(pk, pv);
        match crate::idx::create_pack_index(pack_data.as_slice()) {
            Some(idx_data) => {
                let ic = copy_range(idx_data.as_slice(), 0, idx_data.len());
                proof {
                    assert(ic@ =~= idx_data@);
                }
                self.store.put(ik, idx_data);
                self.expand_pack_deltas(pack_data.as_slice(), ic.as_slice());
            },
            None => {
            },
        }
        proof {
            let gh = crate::hex::hex_of(crate::sha::sha1_of(pack_data@));
            assert(hash@ == gh);
            let s1 = crate::store::spec_sput(old(self).store@, spec_pack_blob_key(
                old(self).prefix@, gh), pack_data@);
            if pack_data@.len() >= 12 {
                let s2 = crate::store::spec_sput(s1, spec_idx_blob_key(old(self).prefix@, gh),
                    crate::idx::spec_pack_index_bytes(pack_data@));
                assert(self.store@ == spec_expand_pack(s2, old(self).prefix@, pack_data@,
                    crate::idx::spec_pack_index_bytes(pack_data@), 12));
            } else {
                assert(self.store@ == s1);
            }
        }
        // Apply the ref updates in order.
        let zero = zero_oid();
        let rp = refs_prefix();
        let mut i: usize = 0;
        let ghost s2 = self.store@;
        proof {
            assert(spec_apply_updates(s2, self.prefix@, gupd, gupd.len() as int) == s2);
        }
        while i < updates.len()
            invariant
                i <= updates@.len(),
                gupd == updates@.map(|k: int, c: (Vec<u8>, Vec<u8>, Vec<u8>)| (c.0@, c.1@, c.2@)),
                zero@ == spec_zero_oid(),
                rp@ == spec_refs_prefix(),
                self.prefix@ == old(self).prefix@,
                self.cache@ == old(self).cache@,
                spec_apply_updates(s2, self.prefix@, gupd, 0) == spec_apply_updates(
                    self.store@,
                    self.prefix@,
                    gupd,
                    i as int,
                ),
            decreases updates.len() - i,
        {
            let (new_oid, name) = (&updates[i].1, &updates[i].2);
            let norm: Vec<u8> = if starts_with(name.as_slice(), rp.as_slice()) {
                copy_range(name.as_slice(), 0, name.len())
            } else {
                let mut v = heads_ns_pub();
                v.push(47);
                let mut nm = copy_range(name.as_slice(), 0, name.len());
                v.append(&mut nm);
                v
            };
            proof {
                assert(norm@ =~= spec_norm_ref(gupd[i as int].2));
            }
            if bytes_eq(new_oid.as_slice(), zero.as_slice()) {
                self.delete_ref(norm.as_slice());
            } else {
                self.write_ref(norm.as_slice(), new_oid.as_slice());
            }
            i = i + 1;
        }
        proof {
            assert(self.store@ == spec_apply_updates(s2, self.prefix@, gupd, 0));
            assert(self.store@ == spec_receive_store(old(self).store@, old(self).prefix@,
                body@.skip(pack_start as int), gupd));
        }
        let resp = receive_report(&updates);
        (resp, updates)
    }
}

/// Builds the pkt-framed status report for a set of updates.
fn receive_report(updates: &Vec<(Vec<u8>, Vec<u8>, Vec<u8>)>) -> (r: Vec<u8>)
    ensures
        r@ == spec_receive_report(
            updates@.map(|i: int, c: (Vec<u8>, Vec<u8>, Vec<u8>)| (c.0@, c.1@, c.2@)),
        ),
{
    let ghost gupd = updates@.map(|i: int, c: (Vec<u8>, Vec<u8>, Vec<u8>)| (c.0@, c.1@, c.2@));
    let ghost glines = seq![vstd::utf8::encode_utf8("unpack ok\n"@)] + gupd.map(
        |i: int, u: (Seq<u8>, Seq<u8>, Seq<u8>)| vstd::utf8::encode_utf8("ok "@) + u.2 + seq![
            10u8,
        ],
    );
    let mut lines: Vec<Vec<u8>> = Vec::new();
    let unpack = "unpack ok\n";
    lines.push(unpack.as_bytes_vec());
    let okp = "ok ";
    let mut i: usize = 0;
    proof {
        assert(lines@.map(|k: int, v: Vec<u8>| v@) =~= glines.take(1));
    }
    while i < updates.len()
        invariant
            i <= updates@.len(),
            gupd == updates@.map(|k: int, c: (Vec<u8>, Vec<u8>, Vec<u8>)| (c.0@, c.1@, c.2@)),
            glines == seq![vstd::utf8::encode_utf8("unpack ok\n"@)] + gupd.map(
                |k: int, u: (Seq<u8>, Seq<u8>, Seq<u8>)| vstd::utf8::encode_utf8("ok "@) + u.2
                    + seq![10u8],
            ),
            okp@ == "ok "@,
            lines@.map(|k: int, v: Vec<u8>| v@) == glines.take(i + 1),
        decreases updates.len() - i,
    {
        let ghost before = lines@.map(|k: int, v: Vec<u8>| v@);
        let mut l = okp.as_bytes_vec();
        let mut nm = copy_range(updates[i].2.as_slice(), 0, updates[i].2.len());
        l.append(&mut nm);
        l.push(10);
        proof {
            assert(l@ =~= vstd::utf8::encode_utf8("ok "@) + gupd[i as int].2 + seq![10u8]);
            assert(l@ =~= glines[i + 1]);
        }
        let ghost lv = l@;
        lines.push(l);
        proof {
            assert(lines@.map(|k: int, v: Vec<u8>| v@) =~= before.push(lv));
            assert(glines.take(i + 2) =~= glines.take(i + 1).push(glines[i + 1]));
        }
        i = i + 1;
    }
    proof {
        assert(glines.take(glines.len() as int) =~= glines);
    }
    let lm = lines;
    let mut parts: Vec<PktPart> = Vec::new();
    let ghost lmm = lm@.map(|k: int, v: Vec<u8>| v@);
    let mut j: usize = 0;
    proof {
        assert(pkt_model(parts@) =~= spec_frames_of_lines(lmm.take(0)));
    }
    while j < lm.len()
        invariant
            j <= lm@.len(),
            lmm == lm@.map(|k: int, v: Vec<u8>| v@),
            pkt_model(parts@) == spec_frames_of_lines(lmm.take(j as int)),
            forall|k: int| 0 <= k < parts@.len() ==> match #[trigger] parts@[k]@ {
                Some(payload) => payload.len() <= 0xfffb,
                None => true,
            },
        decreases lm.len() - j,
    {
        let ghost before = pkt_model(parts@);
        proof {
            assert(lmm.take(j + 1) =~= lmm.take(j as int).push(lmm[j as int]));
            lemma_frames_push(lmm.take(j as int), lmm[j as int]);
        }
        if lm[j].len() <= 0xfffb {
            let l = copy_range(lm[j].as_slice(), 0, lm[j].len());
            proof {
                assert(l@ =~= lmm[j as int]);
            }
            parts.push(PktPart::Line(l));
            proof {
                assert(pkt_model(parts@) =~= before.push(Some(lmm[j as int])));
            }
        }
        j = j + 1;
    }
    proof {
        assert(lmm.take(lmm.len() as int) =~= lmm);
    }
    parts.push(PktPart::Flush);
    proof {
        assert(pkt_model(parts@) =~= spec_frames_of_lines(lmm) + seq![Option::<Seq<u8>>::None]);
        assert(lmm =~= glines);
    }
    pkt_encode(&parts)
}

fn pack_suffix_local() -> (r: Vec<u8>)
    ensures
        r@ == crate::repo::spec_pack_suffix(),
{
    let mut v: Vec<u8> = Vec::new();
    v.push(46);
    v.push(112);
    v.push(97);
    v.push(99);
    v.push(107);
    proof {
        assert(v@ =~= crate::repo::spec_pack_suffix());
    }
    v
}

fn idx_suffix_local() -> (r: Vec<u8>)
    ensures
        r@ == crate::repo::spec_idx_suffix(),
{
    let mut v: Vec<u8> = Vec::new();
    v.push(46);
    v.push(105);
    v.push(100);
    v.push(120);
    proof {
        assert(v@ =~= crate::repo::spec_idx_suffix());
    }
    v
}

/// The ids an object's payload points at, in the order the traversal
/// pushes them: a commit's tree then its parents, a tree's entry ids in
/// hex, nothing for blobs and tags.
pub open spec fn spec_children(tb: Seq<u8>, payload: Seq<u8>) -> Seq<Seq<u8>> {
    if tb == crate::object::spec_tname(1)->0 {
        let lines = crate::commit::spec_lines(payload);
        let tree: Seq<Seq<u8>> = match crate::commit::spec_find_prefixed(
            lines,
            crate::commit::spec_tree_prefix(),
            0,
            lines.len() as int,
        ) {
            None => Seq::empty(),
            Some(t) => seq![t],
        };
        tree + spec_parent_oids(lines, 0)
    } else if tb == crate::object::spec_tname(2)->0 {
        spec_entry_oids(crate::tree::spec_tree_entries(payload, 0))
    } else {
        Seq::empty()
    }
}

/// Every `parent` header rest among the lines from `i` on.
pub open spec fn spec_parent_oids(lines: Seq<Seq<u8>>, i: int) -> Seq<Seq<u8>>
    decreases lines.len() - i,
{
    if i < 0 || i >= lines.len() {
        Seq::empty()
    } else {
        let rest = spec_parent_oids(lines, i + 1);
        if spec_starts_with(lines[i], crate::commit::spec_parent_prefix()) {
            seq![lines[i].skip(crate::commit::spec_parent_prefix().len() as int)] + rest
        } else {
            rest
        }
    }
}

/// The hex ids of tree entries.
pub open spec fn spec_entry_oids(models: Seq<crate::tree::TreeEntryRaw>) -> Seq<Seq<u8>>
    decreases models.len(),
{
    if models.len() == 0 {
        Seq::empty()
    } else {
        seq![crate::hex::hex_of(models[0].oid20)] + spec_entry_oids(models.drop_first())
    }
}

/// Lists the ids an object points at.
fn children(tb: &[u8], payload: &[u8]) -> (r: Vec<Vec<u8>>)
    ensures
        r@.map(|i: int, v: Vec<u8>| v@) == spec_children(tb@, payload@),
{
    let c1 = crate::object::tname_bytes(1).unwrap();
    let c2 = crate::object::tname_bytes(2).unwrap();
    if bytes_eq(tb, c1.as_slice()) {
        let lines = crate::commit::split_lines(payload);
        let ghost lm = crate::commit::lines_model(lines@);
        let tp = crate::commit::tree_prefix();
        let nl = lines.len();
        let mut out: Vec<Vec<u8>> = Vec::new();
        match crate::commit::find_prefixed(&lines, tp.as_slice(), nl) {
            Some(t) => {
                out.push(t);
            },
            None => {
            },
        }
        let ghost head = out@.map(|i: int, v: Vec<u8>| v@);
        proof {
            assert(spec_children(tb@, payload@) =~= head + spec_parent_oids(lm, 0));
            assert(head + spec_parent_oids(lm, 0) =~= out@.map(|i: int, v: Vec<u8>| v@)
                + spec_parent_oids(lm, 0));
        }
        let pp = crate::commit::parent_prefix();
        let mut i: usize = 0;
        while i < lines.len()
            invariant
                i <= lines@.len(),
                lm == crate::commit::lines_model(lines@),
                pp@ == crate::commit::spec_parent_prefix(),
                spec_children(tb@, payload@) == out@.map(|k: int, v: Vec<u8>| v@)
                    + spec_parent_oids(lm, i as int),
            decreases lines.len() - i,
        {
            let ghost before = out@.map(|k: int, v: Vec<u8>| v@);
            if starts_with(lines[i].as_slice(), pp.as_slice()) {
                let rest = copy_range(lines[i].as_slice(), pp.len(), lines[i].len());
                proof {
                    assert(rest@ =~= lm[i as int].skip(
                        crate::commit::spec_parent_prefix().len() as int,
                    ));
                }
                let ghost rv = rest@;
                out.push(rest);
                proof {
                    assert(out@.map(|k: int, v: Vec<u8>| v@) =~= before.push(rv));
                    assert(before + (seq![rv] + spec_parent_oids(lm, i + 1)) =~= out@.map(
                        |k: int, v: Vec<u8>| v@,
                    ) + spec_parent_oids(lm, i + 1));
                }
            }
            i = i + 1;
        }
        proof {
            assert(spec_parent_oids(lm, lm.len() as int) =~= Seq::<Seq<u8>>::empty());
            assert(out@.map(|k: int, v: Vec<u8>| v@) + Seq::<Seq<u8>>::empty() =~= out@.map(
                |k: int, v: Vec<u8>| v@,
            ));
        }
        out
    } else if bytes_eq(tb, c2.as_slice()) {
        let raw = crate::tree::parse_tree_entries(payload);
        let ghost models = crate::tree::spec_tree_entries(payload@, 0);
        let mut out: Vec<Vec<u8>> = Vec::new();
        let mut i: usize = 0;
        proof {
            assert(out@.map(|k: int, v: Vec<u8>| v@) =~= Seq::<Seq<u8>>::empty());
            assert(models.skip(0) =~= models);
        }
        while i < raw.len()
            invariant
                i <= raw@.len(),
                raw@.len() == models.len(),
                models == crate::tree::spec_tree_entries(payload@, 0),
                forall|k: int| 0 <= k < models.len() ==> (#[trigger] raw@[k]).1@
                    == crate::text::chars_of_bytes(crate::hex::hex_of(models[k].oid20)),
                spec_entry_oids(models) == out@.map(|k: int, v: Vec<u8>| v@) + spec_entry_oids(
                    models.skip(i as int),
                ),
            decreases raw.len() - i,
        {
            let ghost before = out@.map(|k: int, v: Vec<u8>| v@);
            let ghost tail = models.skip(i as int);
            proof {
                assert(tail[0] == models[i as int]);
                assert(tail.drop_first() =~= models.skip(i + 1));
            }
            let hexoid = raw[i].1.as_str().as_bytes_vec();
            proof {
                crate::tree::lemma_hex_chars_pub(models[i as int].oid20);
                vstd::utf8::decode_utf8_encode_utf8(crate::hex::hex_of(models[i as int].oid20));
                assert(hexoid@ == crate::hex::hex_of(models[i as int].oid20));
            }
            let ghost hv = hexoid@;
            out.push(hexoid);
            proof {
                assert(out@.map(|k: int, v: Vec<u8>| v@) =~= before.push(hv));
                assert(before + (seq![hv] + spec_entry_oids(models.skip(i + 1))) =~= out@.map(
                    |k: int, v: Vec<u8>| v@,
                ) + spec_entry_oids(models.skip(i + 1)));
            }
            i = i + 1;
        }
        proof {
            assert(spec_entry_oids(models.skip(models.len() as int)) =~= Seq::<Seq<u8>>::empty());
            assert(out@.map(|k: int, v: Vec<u8>| v@) + Seq::<Seq<u8>>::empty() =~= out@.map(
                |k: int, v: Vec<u8>| v@,
            ));
        }
        out
    } else {
        let out: Vec<Vec<u8>> = Vec::new();
        proof {
            assert(out@.map(|k: int, v: Vec<u8>| v@) =~= Seq::<Seq<u8>>::empty());
        }
        out
    }
}

/// Whether an id occurs in a list.
pub open spec fn spec_has_oid(list: Seq<Seq<u8>>, oid: Seq<u8>) -> bool
    decreases list.len(),
{
    if list.len() == 0 {
        false
    } else {
        list[0] == oid || spec_has_oid(list.drop_first(), oid)
    }
}

fn has_oid(list: &Vec<Vec<u8>>, oid: &[u8]) -> (r: bool)
    ensures
        r == spec_has_oid(list@.map(|i: int, v: Vec<u8>| v@), oid@),
{
    let ghost model = list@.map(|i: int, v: Vec<u8>| v@);
    let mut i: usize = 0;
    proof {
        assert(model.skip(0) =~= model);
    }
    while i < list.len()
        invariant
            i <= list@.len(),
            model == list@.map(|k: int, v: Vec<u8>| v@),
            spec_has_oid(model, oid@) == spec_has_oid(model.skip(i as int), oid@),
        decreases list.len() - i,
    {
        let ghost tail = model.skip(i as int);
        proof {
            assert(tail[0] == model[i as int]);
            assert(tail.drop_first() =~= model.skip(i + 1));
        }
        if bytes_eq(list[i].as_slice(), oid) {
            return true;
        }
        i = i + 1;
    }
    proof {
        assert(model.skip(model.len() as int) =~= Seq::<Seq<u8>>::empty());
    }
    false
}

/// The visited ids of the reachability walk: the stack's top is popped
/// each step, a newly seen id that parses pushes its children, and the
/// walk stops when the stack or the step budget runs out.
pub open spec fn spec_collect(
    s: Seq<(Seq<u8>, Seq<u8>)>,
    prefix: Seq<u8>,
    visited: Seq<Seq<u8>>,
    stack: Seq<Seq<u8>>,
    fuel: nat,
) -> Seq<Seq<u8>>
    decreases fuel,
{
    if fuel == 0 || stack.len() == 0 {
        visited
    } else {
        let oid = stack.last();
        let stack2 = stack.drop_last();
        if spec_has_oid(visited, oid) {
            spec_collect(s, prefix, visited, stack2, (fuel - 1) as nat)
        } else {
            let visited2 = visited.push(oid);
            match crate::repo::spec_get_object_plain(s, prefix, oid) {
                None => spec_collect(s, prefix, visited2, stack2, (fuel - 1) as nat),
                Some(raw) => match crate::object::spec_parse_git_object(raw) {
                    None => spec_collect(s, prefix, visited2, stack2, (fuel - 1) as nat),
                    Some((tb, payload)) => spec_collect(
                        s,
                        prefix,
                        visited2,
                        stack2 + spec_children(tb, payload),
                        (fuel - 1) as nat,
                    ),
                },
            }
        }
    }
}

impl R2GitStore {
    /// Walks the object graph from the given ids, collecting every
    /// reachable id, within a step budget.
    pub fn collect_reachable_objects(&self, oids: &Vec<Vec<u8>>, fuel: usize) -> (r: Vec<Vec<u8>>)
        ensures
            r@.map(|i: int, v: Vec<u8>| v@) == spec_collect(
                self.store@,
                self.prefix@,
                Seq::empty(),
                oids@.map(|i: int, v: Vec<u8>| v@),
                fuel as nat,
            ),
    {
        let mut visited: Vec<Vec<u8>> = Vec::new();
        let mut stack: Vec<Vec<u8>> = Vec::new();
        let mut i: usize = 0;
        while i < oids.len()
            invariant
                i <= oids@.len(),
                stack@.map(|k: int, v: Vec<u8>| v@) == oids@.map(|k: int, v: Vec<u8>| v@).take(
                    i as int,
                ),
            decreases oids.len() - i,
        {
            let ghost before = stack@.map(|k: int, v: Vec<u8>| v@);
            let o = copy_range(oids[i].as_slice(), 0, oids[i].len());
            proof {
                assert(o@ =~= oids@.map(|k: int, v: Vec<u8>| v@)[i as int]);
            }
            stack.push(o);
            proof {
                assert(stack@.map(|k: int, v: Vec<u8>| v@) =~= before.push(
                    oids@.map(|k: int, v: Vec<u8>| v@)[i as int],
                ));
                assert(oids@.map(|k: int, v: Vec<u8>| v@).take(i + 1) =~= oids@.map(
                    |k: int, v: Vec<u8>| v@,
                ).take(i as int).push(oids@.map(|k: int, v: Vec<u8>| v@)[i as int]));
            }
            i = i + 1;
        }
        proof {
            assert(oids@.map(|k: int, v: Vec<u8>| v@).take(oids@.len() as int) =~= oids@.map(
                |k: int, v: Vec<u8>| v@,
            ));
            assert(visited@.map(|k: int, v: Vec<u8>| v@) =~= Seq::<Seq<u8>>::empty());
        }
        let mut fuel_left = fuel;
        loop
            invariant_except_break
                spec_collect(
                    self.store@,
                    self.prefix@,
                    Seq::empty(),
                    oids@.map(|k: int, v: Vec<u8>| v@),
                    fuel as nat,
                ) == spec_collect(
                    self.store@,
                    self.prefix@,
                    visited@.map(|k: int, v: Vec<u8>| v@),
                    stack@.map(|k: int, v: Vec<u8>| v@),
                    fuel_left as nat,
                ),
            ensures
                visited@.map(|k: int, v: Vec<u8>| v@) == spec_collect(
                    self.store@,
                    self.prefix@,
                    Seq::empty(),
                    oids@.map(|k: int, v: Vec<u8>| v@),
                    fuel as nat,
                ),
            decreases fuel_left,
        {
            let ghost gvis = visited@.map(|k: int, v: Vec<u8>| v@);
            let ghost gstack = stack@.map(|k: int, v: Vec<u8>| v@);
            if fuel_left == 0 || stack.len() == 0 {
                break;
            }
            let oid = stack.pop().unwrap();
            proof {
                assert(oid@ == gstack.last());
                assert(stack@.map(|k: int, v: Vec<u8>| v@) =~= gstack.drop_last());
            }
            if !has_oid(&visited, oid.as_slice()) {
                let ghost vbefore = visited@.map(|k: int, v: Vec<u8>| v@);
                match self.get_object_plain(oid.as_slice()) {
                    None => {
                        visited.push(oid);
                        proof {
                            assert(visited@.map(|k: int, v: Vec<u8>| v@) =~= vbefore.push(
                                gstack.last(),
                            ));
                        }
                    },
                    Some(raw) => {
                        match crate::object::parse_git_object(raw.as_slice()) {
                            None => {
                                visited.push(oid);
                                proof {
                                    assert(visited@.map(|k: int, v: Vec<u8>| v@) =~= vbefore.push(
                                        gstack.last(),
                                    ));
                                }
                            },
                            Some((t, payload)) => {
                                let tb = t.as_str().as_bytes_vec();
                                proof {
                                    match crate::object::spec_parse_git_object(raw@) {
                                        Some((stb, sp)) => {
                                            vstd::utf8::decode_utf8_encode_utf8(stb);
                                            assert(tb@ == stb);
                                        },
                                        None => {},
                                    }
                                }
                                visited.push(oid);
                                let mut kids = children(tb.as_slice(), payload.as_slice());
                                let ghost sbefore = stack@.map(|k: int, v: Vec<u8>| v@);
                                let ghost kv = kids@.map(|k: int, v: Vec<u8>| v@);
                                stack.append(&mut kids);
                                proof {
                                    assert(visited@.map(|k: int, v: Vec<u8>| v@) =~= vbefore.push(
                                        gstack.last(),
                                    ));
                                    assert(stack@.map(|k: int, v: Vec<u8>| v@) =~= sbefore + kv);
                                }
                            },
                        }
                    },
                }
            }
            fuel_left = fuel_left - 1;
        }
        visited
    }
}

/// The forty-byte ids after `want ` or `have ` on each usable line.
pub open spec fn spec_oid_lines(
    frames: Seq<Option<Seq<u8>>>,
    word: Seq<u8>,
    i: int,
) -> Seq<Seq<u8>>
    decreases frames.len() - i,
{
    if i < 0 || i >= frames.len() {
        Seq::empty()
    } else {
        let rest = spec_oid_lines(frames, word, i + 1);
        match frames[i] {
            None => rest,
            Some(p) => {
                let t = crate::pkt::spec_trim(p);
                if vstd::utf8::valid_utf8(t) && spec_starts_with(t, word) && t.len() >= 45 {
                    seq![t.subrange(5, 45)] + rest
                } else {
                    rest
                }
            },
        }
    }
}

/// Extracts the ids after `word` (five bytes, `want ` or `have `).
fn oid_lines(section: &[u8], word: &[u8]) -> (r: Vec<Vec<u8>>)
    requires
        word@.len() == 5,
    ensures
        r@.map(|i: int, v: Vec<u8>| v@) == spec_oid_lines(
            crate::pkt::spec_pkt_parse(section@, 0),
            word@,
            0,
        ),
{
    let frames = crate::pkt::pkt_parse(section);
    let ghost fm = crate::pkt::pkt_model(frames@);
    let mut out: Vec<Vec<u8>> = Vec::new();
    let mut i: usize = 0;
    proof {
        assert(out@.map(|k: int, v: Vec<u8>| v@) =~= Seq::<Seq<u8>>::empty());
    }
    while i < frames.len()
        invariant
            i <= frames@.len(),
            fm == crate::pkt::pkt_model(frames@),
            word@.len() == 5,
            spec_oid_lines(fm, word@, 0) == out@.map(|k: int, v: Vec<u8>| v@) + spec_oid_lines(
                fm,
                word@,
                i as int,
            ),
        decreases frames.len() - i,
    {
        let ghost before = out@.map(|k: int, v: Vec<u8>| v@);
        proof {
            assert(fm[i as int] == frames@[i as int]@);
        }
        match &frames[i] {
            crate::pkt::PktPart::Flush => {
            },
            crate::pkt::PktPart::Line(p) => {
                let t = crate::pkt::trim_bytes(p.as_slice());
                if crate::text::string_of_bytes(t.as_slice()).is_some() && starts_with(
                    t.as_slice(),
                    word,
                ) && t.len() >= 45 {
                    let o = copy_range(t.as_slice(), 5, 45);
                    proof {
                        assert(o@ =~= crate::pkt::spec_trim(p@).subrange(5, 45));
                    }
                    let ghost ov = o@;
                    out.push(o);
                    proof {
                        assert(out@.map(|k: int, v: Vec<u8>| v@) =~= before.push(ov));
                        assert(before + (seq![ov] + spec_oid_lines(fm, word@, i + 1)) =~= out@.map(
                            |k: int, v: Vec<u8>| v@,
                        ) + spec_oid_lines(fm, word@, i + 1));
                    }
                }
            },
        }
        i = i + 1;
    }
    proof {
        assert(spec_oid_lines(fm, word@, fm.len() as int) =~= Seq::<Seq<u8>>::empty());
        assert(out@.map(|k: int, v: Vec<u8>| v@) + Seq::<Seq<u8>>::empty() =~= out@.map(
            |k: int, v: Vec<u8>| v@,
        ));
    }
    out
}

/// The ids among `all` that do not occur in `haves`, in order.
pub open spec fn spec_needed(all: Seq<Seq<u8>>, haves: Seq<Seq<u8>>) -> Seq<Seq<u8>>
    decreases all.len(),
{
    if all.len() == 0 {
        Seq::empty()
    } else {
        let rest = spec_needed(all.drop_last(), haves);
        if spec_has_oid(haves, all.last()) {
            rest
        } else {
            rest.push(all.last())
        }
    }
}

/// The `(type, payload)` objects behind the ids that resolve and carry a
/// known type.
pub open spec fn spec_pack_objects_for(
    s: Seq<(Seq<u8>, Seq<u8>)>,
    prefix: Seq<u8>,
    oids: Seq<Seq<u8>>,
) -> Seq<(u8, Seq<u8>)>
    decreases oids.len(),
{
    if oids.len() == 0 {
        Seq::empty()
    } else {
        let rest = spec_pack_objects_for(s, prefix, oids.drop_last());
        match crate::repo::spec_get_object_plain(s, prefix, oids.last()) {
            None => rest,
            Some(raw) => match crate::object::spec_parse_git_object(raw) {
                None => rest,
                Some((tb, payload)) => match spec_tnum(tb) {
                    None => rest,
                    Some(t) => rest.push((t, payload)),
                },
            },
        }
    }
}

/// The type number of a type name.
pub open spec fn spec_tnum(tb: Seq<u8>) -> Option<u8> {
    if tb == crate::object::spec_tname(1)->0 {
        Some(1u8)
    } else if tb == crate::object::spec_tname(2)->0 {
        Some(2u8)
    } else if tb == crate::object::spec_tname(3)->0 {
        Some(3u8)
    } else if tb == crate::object::spec_tname(4)->0 {
        Some(4u8)
    } else {
        None
    }
}

fn tnum(tb: &[u8]) -> (r: Option<u8>)
    ensures
        r == spec_tnum(tb@),
{
    let c1 = crate::object::tname_bytes(1).unwrap();
    let c2 = crate::object::tname_bytes(2).unwrap();
    let c3 = crate::object::tname_bytes(3).unwrap();
    let c4 = crate::object::tname_bytes(4).unwrap();
    if bytes_eq(tb, c1.as_slice()) {
        Some(1)
    } else if bytes_eq(tb, c2.as_slice()) {
        Some(2)
    } else if bytes_eq(tb, c3.as_slice()) {
        Some(3)
    } else if bytes_eq(tb, c4.as_slice()) {
        Some(4)
    } else {
        None
    }
}

/// The fetch response: nothing but a flush without wants, a bare NAK
/// when the peer already has everything, else a NAK and a fresh pack of
/// every needed object.
pub open spec fn spec_upload_response(
    s: Seq<(Seq<u8>, Seq<u8>)>,
    prefix: Seq<u8>,
    body: Seq<u8>,
) -> Seq<u8> {
    let frames = crate::pkt::spec_pkt_parse(body, 0);
    let wants = spec_oid_lines(frames, vstd::utf8::encode_utf8("want "@), 0);
    let haves = spec_oid_lines(frames, vstd::utf8::encode_utf8("have "@), 0);
    if wants.len() == 0 {
        spec_pkt_encode(seq![Option::<Seq<u8>>::None])
    } else {
        let all = spec_collect(s, prefix, Seq::empty(), wants, 1000000);
        let needed = spec_needed(all, haves);
        let nak = spec_pkt_encode(seq![Some(vstd::utf8::encode_utf8("NAK\n"@))]);
        let objs = spec_pack_objects_for(s, prefix, needed);
        if needed.len() == 0 {
            spec_pkt_encode(
                seq![Some(vstd::utf8::encode_utf8("NAK\n"@)), Option::<Seq<u8>>::None],
            )
        } else if objs.len() == 0 || objs.len() > 0xffffffff {
            nak
        } else {
            nak + crate::pack::spec_pack_bytes(objs)
        }
    }
}

impl R2GitStore {
    /// Serves a fetch: parses `want` and `have` lines, walks the object
    /// graph from the wants, and answers with a NAK and a freshly built
    /// pack of everything the peer lacks.
    pub fn handle_upload_pack(&self, body: &[u8]) -> (r: Vec<u8>)
        ensures
            r@ == spec_upload_response(self.store@, self.prefix@, body@),
    {
        let want_w = "want ";
        let have_w = "have ";
        proof {
            reveal_strlit("want ");
            reveal_strlit("have ");
            broadcast use vstd::string::is_ascii_spec_bytes;
            assert(vstd::string::is_ascii(want_w));
            assert(vstd::string::is_ascii(have_w));
            assert(want_w.spec_bytes().len() == 5);
            assert(have_w.spec_bytes().len() == 5);
        }
        let wants = oid_lines(body, want_w.as_bytes());
        let haves = oid_lines(body, have_w.as_bytes());
        if wants.len() == 0 {
            let mut parts: Vec<PktPart> = Vec::new();
            parts.push(PktPart::Flush);
            proof {
                assert(pkt_model(parts@) =~= seq![Option::<Seq<u8>>::None]);
            }
            return pkt_encode(&parts);
        }
        let all = self.collect_reachable_objects(&wants, 1000000);
        let ghost ghaves = haves@.map(|i: int, v: Vec<u8>| v@);
        let ghost gall = all@.map(|i: int, v: Vec<u8>| v@);
        let mut needed: Vec<Vec<u8>> = Vec::new();
        let mut i: usize = 0;
        proof {
            assert(needed@.map(|k: int, v: Vec<u8>| v@) =~= spec_needed(gall.take(0), ghaves));
        }
        while i < all.len()
            invariant
                i <= all@.len(),
                gall == all@.map(|k: int, v: Vec<u8>| v@),
                ghaves == haves@.map(|k: int, v: Vec<u8>| v@),
                needed@.map(|k: int, v: Vec<u8>| v@) == spec_needed(gall.take(i as int), ghaves),
            decreases all.len() - i,
        {
            let ghost before = needed@.map(|k: int, v: Vec<u8>| v@);
            proof {
                assert(gall.take(i + 1) =~= gall.take(i as int).push(gall[i as int]));
                assert(gall.take(i + 1).drop_last() =~= gall.take(i as int));
                assert(gall.take(i + 1).last() == gall[i as int]);
            }
            if !has_oid(&haves, all[i].as_slice()) {
                let o = copy_range(all[i].as_slice(), 0, all[i].len());
                proof {
                    assert(o@ =~= gall[i as int]);
                }
                needed.push(o);
                proof {
                    assert(needed@.map(|k: int, v: Vec<u8>| v@) =~= before.push(gall[i as int]));
                }
            }
            i = i + 1;
        }
        proof {
            assert(gall.take(gall.len() as int) =~= gall);
        }
        let nak_w = "NAK\n";
        proof {
            reveal_strlit("NAK\n");
            broadcast use vstd::string::is_ascii_spec_bytes;
            assert(vstd::string::is_ascii(nak_w));
            assert(nak_w.spec_bytes().len() == 4);
        }
        if needed.len() == 0 {
            let mut parts: Vec<PktPart> = Vec::new();
            parts.push(PktPart::Line(nak_w.as_bytes_vec()));
            parts.push(PktPart::Flush);
            proof {
                assert(pkt_model(parts@) =~= seq![
                    Some(vstd::utf8::encode_utf8("NAK\n"@)),
                    Option::<Seq<u8>>::None,
                ]);
            }
            return pkt_encode(&parts);
        }
        // Gather the objects behind the needed ids.
        let ghost gneeded = needed@.map(|k: int, v: Vec<u8>| v@);
        let mut objects: Vec<(u8, Vec<u8>)> = Vec::new();
        let mut j: usize = 0;
        proof {
            assert(crate::pack::objects_model(objects@) =~= spec_pack_objects_for(self.store@,
                self.prefix@, gneeded.take(0)));
        }
        while j < needed.len()
            invariant
                j <= needed@.len(),
                gneeded == needed@.map(|k: int, v: Vec<u8>| v@),
                crate::pack::objects_model(objects@) == spec_pack_objects_for(
                    self.store@,
                    self.prefix@,
                    gneeded.take(j as int),
                ),
                forall|k: int| 0 <= k < objects@.len() ==> 1 <= (#[trigger] objects@[k]).0 <= 4,
            decreases needed.len() - j,
        {
            let ghost before = crate::pack::objects_model(objects@);
            proof {
                assert(gneeded.take(j + 1) =~= gneeded.take(j as int).push(gneeded[j as int]));
                assert(gneeded.take(j + 1).drop_last() =~= gneeded.take(j as int));
                assert(gneeded.take(j + 1).last() == gneeded[j as int]);
            }
            match self.get_object_plain(needed[j].as_slice()) {
                None => {
                },
                Some(raw) => {
                    match crate::object::parse_git_object(raw.as_slice()) {
                        None => {
                        },
                        Some((t, payload)) => {
                            let tb = t.as_str().as_bytes_vec();
                            proof {
                                match crate::object::spec_parse_git_object(raw@) {
                                    Some((stb, sp)) => {
                                        vstd::utf8::decode_utf8_encode_utf8(stb);
                                        assert(tb@ == stb);
                                    },
                                    None => {},
                                }
                            }
                            match tnum(tb.as_slice()) {
                                None => {
                                },
                                Some(t) => {
                                    let ghost pv = payload@;
                                    objects.push((t, payload));
                                    proof {
                                        assert(crate::pack::objects_model(objects@) =~= before.push(
                                            (t, pv),
                                        ));
                                    }
                                },
                            }
                        },
                    }
                },
            }
            j = j + 1;
        }
        proof {
            assert(gneeded.take(gneeded.len() as int) =~= gneeded);
        }
        let mut parts: Vec<PktPart> = Vec::new();
        parts.push(PktPart::Line(nak_w.as_bytes_vec()));
        proof {
            assert(pkt_model(parts@) =~= seq![Some(vstd::utf8::encode_utf8("NAK\n"@))]);
        }
        let mut resp = pkt_encode(&parts);
        if objects.len() == 0 {
            return resp;
        }
        if objects.len() > 0xffffffff {
            return resp;
        }
        match crate::pack::build_packfile(&objects) {
            Some(mut pack) => {
                resp.append(&mut pack);
                resp
            },
            None => resp,
        }
    }
}

} // verus!
