//! The browsing layer: branch listing, commit walks, tree and file
//! lookup by path, and readme discovery.

use vstd::prelude::*;
use crate::bytes::{bytes_eq, starts_with, spec_starts_with, copy_range, spec_find_byte, find_byte};
use crate::repo::{R2GitStore, spec_get_object_plain};
use crate::refs::{spec_list_refs, spec_resolve_ref};
use crate::commit::{
    CommitInfo, CommitAuthor, parse_commit, spec_object_payload, spec_lines, spec_first_empty,
    spec_find_prefixed, spec_tree_prefix, spec_parent_prefix,
};
use crate::tree::{
    TreeEntry, parse_tree, spec_tree_models, spec_find_entry, find_entry_in_tree, entries_view,
    spec_listing, spec_entries_sorted, clone_string,
};
use crate::object::{parse_blob, spec_parse_blob};
use crate::text::{chars_of_bytes, string_of_bytes_or_empty, str_eq};
use vstd::string::StringSliceAdditionalSpecFns;
use vstd::slice::slice_subrange;

verus! {

/// A tree request: branch and path, both optional.
pub struct TreeQuery {
    pub branch: Option<String>,
    pub path: Option<String>,
}

/// A file request: its path on a branch.
pub struct FileQuery {
    pub branch: Option<String>,
    pub path: String,
}

/// A commit listing request: branch, page size and offset.
pub struct CommitsQuery {
    pub branch: Option<String>,
    pub limit: Option<i64>,
    pub skip: Option<i64>,
}

/// A readme request by object id.
pub struct ReadmeQuery {
    pub oid: String,
}

/// The smart-HTTP service selector.
pub struct ServiceQuery {
    pub service: Option<String>,
}

/// The bytes of `"refs/heads/"`.
pub open spec fn spec_heads_slash() -> Seq<u8> {
    crate::protocol::spec_heads_ns() + seq![47u8]
}

fn heads_slash() -> (r: Vec<u8>)
    ensures
        r@ == spec_heads_slash(),
{
    let mut v: Vec<u8> = Vec::new();
    v.push(114);
    v.push(101);
    v.push(102);
    v.push(115);
    v.push(47);
    v.push(104);
    v.push(101);
    v.push(97);
    v.push(100);
    v.push(115);
    v.push(47);
    proof {
        assert(v@ =~= spec_heads_slash());
    }
    v
}

/// The branch names of the listed head refs: each name with the
/// `refs/heads/` prefix removed where it carries one.
pub open spec fn spec_branch_names(refs: Seq<(Seq<u8>, Seq<u8>)>) -> Seq<Seq<char>>
    decreases refs.len(),
{
    if refs.len() == 0 {
        Seq::empty()
    } else {
        let nm = refs[0].0;
        let stripped: Seq<u8> = if spec_starts_with(nm, spec_heads_slash()) {
            nm.skip(11)
        } else {
            nm
        };
        seq![chars_of_bytes(stripped)] + spec_branch_names(refs.drop_first())
    }
}

/// The first parent and readability of the commit at an id, where it
/// parses: `None` when the object is missing or not a readable commit.
pub open spec fn spec_commit_parent_of(
    s: Seq<(Seq<u8>, Seq<u8>)>,
    prefix: Seq<u8>,
    oid: Seq<u8>,
) -> Option<Option<Seq<u8>>> {
    match spec_get_object_plain(s, prefix, oid) {
        None => None,
        Some(raw) => match spec_object_payload(raw) {
            None => None,
            Some(c) => if !vstd::utf8::valid_utf8(c) {
                None
            } else {
                let lines = spec_lines(c);
                let fe = spec_first_empty(lines, 0);
                Some(
                    match spec_find_prefixed(lines, spec_parent_prefix(), 0, fe) {
                        None => None,
                        Some(pb) => Some(vstd::utf8::encode_utf8(chars_of_bytes(pb))),
                    },
                )
            },
        },
    }
}

/// The chain of readable commits from `cur`: each id followed by its
/// first parent, at most `fuel` long.
pub open spec fn spec_commit_chain(
    s: Seq<(Seq<u8>, Seq<u8>)>,
    prefix: Seq<u8>,
    cur: Seq<u8>,
    fuel: nat,
) -> Seq<Seq<u8>>
    decreases fuel,
{
    if fuel == 0 {
        Seq::empty()
    } else {
        match spec_commit_parent_of(s, prefix, cur) {
            None => Seq::empty(),
            Some(po) => seq![cur] + (match po {
                None => Seq::empty(),
                Some(p) => spec_commit_chain(s, prefix, p, (fuel - 1) as nat),
            }),
        }
    }
}

impl R2GitStore {
    /// Lists the branch names: the head refs with their namespace
    /// stripped.
    pub fn list_branches(&self) -> (r: Vec<String>)
        ensures
            r@.map(|i: int, s: String| s@) == spec_branch_names(
                spec_list_refs(self.store@, self.prefix@, crate::protocol::spec_heads_ns()),
            ),
    {
        let ns = crate::protocol::heads_ns_pub();
        let refs = self.list_refs(ns.as_slice());
        let ghost model = spec_list_refs(self.store@, self.prefix@, crate::protocol::spec_heads_ns(
        ));
        let hs = heads_slash();
        let mut out: Vec<String> = Vec::new();
        let mut i: usize = 0;
        proof {
            assert(model.skip(0) =~= model);
            assert(out@.map(|k: int, s2: String| s2@) =~= Seq::<Seq<char>>::empty());
        }
        while i < refs.len()
            invariant
                i <= refs@.len(),
                model == refs@.map(|k: int, e: (Vec<u8>, Vec<u8>)| (e.0@, e.1@)),
                hs@ == spec_heads_slash(),
                spec_branch_names(model) == out@.map(|k: int, s2: String| s2@)
                    + spec_branch_names(model.skip(i as int)),
            decreases refs.len() - i,
        {
            let ghost before = out@.map(|k: int, s2: String| s2@);
            let ghost tail = model.skip(i as int);
            proof {
                assert(tail[0] == model[i as int]);
                assert(tail.drop_first() =~= model.skip(i + 1));
            }
            let nm = &refs[i].0;
            let stripped: Vec<u8> = if starts_with(nm.as_slice(), hs.as_slice()) {
                copy_range(nm.as_slice(), 11, nm.len())
            } else {
                copy_range(nm.as_slice(), 0, nm.len())
            };
            proof {
                if spec_starts_with(model[i as int].0, spec_heads_slash()) {
                    assert(stripped@ =~= model[i as int].0.skip(11));
                } else {
                    assert(stripped@ =~= model[i as int].0);
                }
            }
            let name = string_of_bytes_or_empty(stripped.as_slice());
            let ghost nv = name@;
            out.push(name);
            proof {
                assert(out@.map(|k: int, s2: String| s2@) =~= before.push(nv));
                assert(before + (seq![nv] + spec_branch_names(model.skip(i + 1))) =~= out@.map(
                    |k: int, s2: String| s2@,
                ) + spec_branch_names(model.skip(i + 1)));
            }
            i = i + 1;
        }
        proof {
            assert(spec_branch_names(model.skip(model.len() as int)) =~= Seq::<Seq<char>>::empty());
            assert(out@.map(|k: int, s2: String| s2@) + Seq::<Seq<char>>::empty() =~= out@.map(
                |k: int, s2: String| s2@,
            ));
        }
        out
    }

    /// Reads and parses the commit at an id.
    pub fn get_commit_by_oid(&self, oid: &[u8]) -> (r: Option<(CommitInfo, Option<String>)>)
        ensures
            r is Some <==> spec_commit_parent_of(self.store@, self.prefix@, oid@) is Some,
            r matches Some((info, parent)) ==> info.oid@ == chars_of_bytes(oid@) && (
            match spec_commit_parent_of(self.store@, self.prefix@, oid@) {
                Some(Some(pb)) => parent matches Some(p) && vstd::utf8::encode_utf8(p@) == pb,
                Some(None) => parent is None,
                None => false,
            }),
            r matches Some((info, parent)) ==> spec_info_matches(self.store@, self.prefix@, oid@,
                info),
    {
        let raw = match self.get_object_plain(oid) {
            Some(v) => v,
            None => {
                return None;
            },
        };
        let os = string_of_bytes_or_empty(oid);
        parse_commit(raw.as_slice(), os.as_str())
    }

    /// Counts commits from `start` down the first-parent chain: stopping
    /// when `stop` is met (excluded), failing after `max_steps`, at an
    /// unreadable commit, or at the root when a stop was wanted.
    pub fn count_commits_until(
        &self,
        start: &[u8],
        stop: Option<&Vec<u8>>,
        max_steps: usize,
    ) -> (r: Option<usize>)
        ensures
            ({
                let gstop = match stop {
                    Some(v) => Some(v@),
                    None => None,
                };
                match spec_count_until(self.store@, self.prefix@, start@, gstop, 0, max_steps as nat) {
                    None => r is None,
                    Some(c) => r == Some(c as usize) && c <= max_steps,
                }
            }),
    {
        let ghost gstop: Option<Seq<u8>> = match stop {
            Some(v) => Some(v@),
            None => None,
        };
        let mut count: usize = 0;
        let mut current = copy_range(start, 0, start.len());
        proof {
            assert(current@ =~= start@);
        }
        loop
            invariant_except_break
                count <= max_steps,
                gstop == (match stop {
                    Some(v) => Some(v@),
                    None => Option::<Seq<u8>>::None,
                }),
                spec_count_until(self.store@, self.prefix@, start@, gstop, 0, max_steps as nat)
                    == spec_count_until(
                    self.store@,
                    self.prefix@,
                    current@,
                    gstop,
                    count as nat,
                    max_steps as nat,
                ),
            ensures
                spec_count_until(self.store@, self.prefix@, start@, gstop, 0, max_steps as nat)
                    is None,
            decreases max_steps - count,
        {
            match stop {
                Some(st) => {
                    if bytes_eq(current.as_slice(), st.as_slice()) {
                        proof {
                            assert(spec_count_until(self.store@, self.prefix@, current@, gstop,
                                count as nat, max_steps as nat) == Some(count as nat));
                        }
                        return Some(count);
                    }
                },
                None => {
                },
            }
            if count >= max_steps {
                proof {
                    assert(spec_count_until(self.store@, self.prefix@, current@, gstop,
                        count as nat, max_steps as nat) is None);
                }
                break;
            }
            let parent = match self.commit_parent(current.as_slice()) {
                None => {
                    proof {
                        assert(spec_count_until(self.store@, self.prefix@, current@, gstop,
                            count as nat, max_steps as nat) is None);
                    }
                    return None;
                },
                Some(po) => po,
            };
            count = count + 1;
            match parent {
                None => {
                    match stop {
                        Some(_) => {
                            return None;
                        },
                        None => {
                            return Some(count);
                        },
                    }
                },
                Some(p) => {
                    current = p;
                },
            }
        }
        None
    }

    /// The first parent of the commit at an id, as hex bytes.
    fn commit_parent(&self, oid: &[u8]) -> (r: Option<Option<Vec<u8>>>)
        ensures
            match spec_commit_parent_of(self.store@, self.prefix@, oid@) {
                None => r is None,
                Some(None) => r == Some(Option::<Vec<u8>>::None),
                Some(Some(pb)) => r matches Some(po) && po matches Some(p) && p@ == pb,
            },
    {
        let raw = match self.get_object_plain(oid) {
            Some(v) => v,
            None => {
                return None;
            },
        };
        let content = match crate::commit::object_payload(raw.as_slice()) {
            Some(c) => c,
            None => {
                return None;
            },
        };
        if crate::text::string_of_bytes(content.as_slice()).is_none() {
            return None;
        }
        let lines = crate::commit::split_lines(content.as_slice());
        let fe = crate::commit::first_empty_pub(&lines);
        let pp = crate::commit::parent_prefix();
        match crate::commit::find_prefixed(&lines, pp.as_slice(), fe) {
            None => Some(None),
            Some(pb) => {
                let ps = string_of_bytes_or_empty(pb.as_slice());
                let out = ps.as_str().as_bytes_vec();
                proof {
                    let gpb = spec_find_prefixed(
                        spec_lines(
                            spec_object_payload(raw@)->0,
                        ),
                        spec_parent_prefix(),
                        0,
                        spec_first_empty(spec_lines(spec_object_payload(raw@)->0), 0),
                    )->0;
                    assert(ps@ == chars_of_bytes(gpb));
                    assert(out@ == vstd::utf8::encode_utf8(chars_of_bytes(gpb)));
                }
                Some(Some(out))
            },
        }
    }
}

/// What a bounded first-parent count yields: `count` steps already taken,
/// the stop id ends the walk successfully, the budget or an unreadable
/// commit ends it with nothing, and the root counts once more.
pub open spec fn spec_count_until(
    s: Seq<(Seq<u8>, Seq<u8>)>,
    prefix: Seq<u8>,
    cur: Seq<u8>,
    stop: Option<Seq<u8>>,
    count: nat,
    max: nat,
) -> Option<nat>
    decreases max - count,
{
    if stop matches Some(st) && st == cur {
        Some(count)
    } else if count >= max {
        None
    } else {
        match spec_commit_parent_of(s, prefix, cur) {
            None => None,
            Some(None) => if stop is None {
                Some((count + 1) as nat)
            } else {
                None
            },
            Some(Some(p)) => spec_count_until(s, prefix, p, stop, (count + 1) as nat, max),
        }
    }
}

/// Commit counts split at an ancestor: when the walk from `new` reaches
/// `old` in `d` steps, and the full count from `old` starting at `d` is
/// `t`, then the full count from `new` is exactly `t`.  Incremental
/// branch metadata therefore agrees with a full recount.
pub proof fn lemma_count_incremental(
    s: Seq<(Seq<u8>, Seq<u8>)>,
    prefix: Seq<u8>,
    new: Seq<u8>,
    old: Seq<u8>,
    c0: nat,
    max: nat,
    t: nat,
)
    requires
        spec_count_until(s, prefix, new, Some(old), c0, max) matches Some(d) && spec_count_until(
            s,
            prefix,
            old,
            None,
            d,
            max,
        ) == Some(t),
    ensures
        spec_count_until(s, prefix, new, None, c0, max) == Some(t),
    decreases max - c0,
{
    let d = spec_count_until(s, prefix, new, Some(old), c0, max)->0;
    if new == old {
        assert(d == c0);
    } else {
        assert(c0 < max);
        match spec_commit_parent_of(s, prefix, new) {
            None => {
                assert(false);
            },
            Some(None) => {
                assert(false);
            },
            Some(Some(p)) => {
                lemma_count_incremental(s, prefix, p, old, (c0 + 1) as nat, max, t);
            },
        }
    }
}

/// The payload of the commit stored at an id, empty where unreadable.
pub open spec fn spec_commit_payload_of(
    s: Seq<(Seq<u8>, Seq<u8>)>,
    prefix: Seq<u8>,
    oid: Seq<u8>,
) -> Seq<u8> {
    match spec_get_object_plain(s, prefix, oid) {
        None => Seq::empty(),
        Some(raw) => match spec_object_payload(raw) {
            None => Seq::empty(),
            Some(c) => c,
        },
    }
}

/// The rest of the last `author` header among a commit's header lines,
/// empty where there is none.
pub open spec fn spec_commit_author_line_of(
    s: Seq<(Seq<u8>, Seq<u8>)>,
    prefix: Seq<u8>,
    oid: Seq<u8>,
) -> Seq<u8> {
    let c = spec_commit_payload_of(s, prefix, oid);
    let lines = spec_lines(c);
    let fe = spec_first_empty(lines, 0);
    match crate::commit::spec_rfind_prefixed(lines, crate::commit::spec_author_prefix(), fe) {
        None => Seq::empty(),
        Some(a) => a,
    }
}

/// The message of the commit stored at an id: its lines after the first
/// empty line.
pub open spec fn spec_commit_msg_of(
    s: Seq<(Seq<u8>, Seq<u8>)>,
    prefix: Seq<u8>,
    oid: Seq<u8>,
) -> Seq<char> {
    let c = spec_commit_payload_of(s, prefix, oid);
    let lines = spec_lines(c);
    let fe = spec_first_empty(lines, 0);
    chars_of_bytes(crate::commit::spec_join_lines(lines, fe + 1))
}

/// The author name of the commit stored at an id.
pub open spec fn spec_commit_author_name_of(
    s: Seq<(Seq<u8>, Seq<u8>)>,
    prefix: Seq<u8>,
    oid: Seq<u8>,
) -> Seq<char> {
    chars_of_bytes(crate::commit::spec_author_fields(spec_commit_author_line_of(s, prefix, oid)).0)
}

/// The author email of the commit stored at an id.
pub open spec fn spec_commit_author_email_of(
    s: Seq<(Seq<u8>, Seq<u8>)>,
    prefix: Seq<u8>,
    oid: Seq<u8>,
) -> Seq<char> {
    chars_of_bytes(crate::commit::spec_author_fields(spec_commit_author_line_of(s, prefix, oid)).1)
}

/// The millisecond timestamp of the commit stored at an id.
pub open spec fn spec_commit_ts_of(
    s: Seq<(Seq<u8>, Seq<u8>)>,
    prefix: Seq<u8>,
    oid: Seq<u8>,
) -> int {
    crate::commit::spec_author_millis(spec_commit_author_line_of(s, prefix, oid))
}

/// Whether a commit record carries exactly the parsed fields of the
/// stored commit at `oid`.
pub open spec fn spec_info_matches(
    s: Seq<(Seq<u8>, Seq<u8>)>,
    prefix: Seq<u8>,
    oid: Seq<u8>,
    info: CommitInfo,
) -> bool {
    match spec_get_object_plain(s, prefix, oid) {
        None => false,
        Some(raw) => match spec_object_payload(raw) {
            None => false,
            Some(c) => {
                &&& vstd::utf8::valid_utf8(c)
                &&& info.oid@ == chars_of_bytes(oid)
                &&& info.message@ == spec_commit_msg_of(s, prefix, oid)
                &&& info.author.name@ == spec_commit_author_name_of(s, prefix, oid)
                &&& info.author.email@ == spec_commit_author_email_of(s, prefix, oid)
                &&& info.timestamp as int == spec_commit_ts_of(s, prefix, oid)
            },
        },
    }
}

/// The segments of a slash-separated path, empty ones dropped.
pub open spec fn spec_segments(path: Seq<u8>) -> Seq<Seq<u8>>
    decreases path.len(),
{
    if path.len() == 0 {
        Seq::empty()
    } else {
        match spec_find_byte(path, 47, 0) {
            None => seq![path],
            Some(p) => if 0 <= p < path.len() {
                let head: Seq<Seq<u8>> = if p == 0 {
                    Seq::empty()
                } else {
                    seq![path.take(p)]
                };
                head + spec_segments(path.skip(p + 1))
            } else {
                Seq::empty()
            },
        }
    }
}

/// Splits a path into its nonempty segments.
pub fn segments(path: &[u8]) -> (r: Vec<Vec<u8>>)
    ensures
        r@.map(|i: int, v: Vec<u8>| v@) == spec_segments(path@),
{
    let n = path.len();
    let mut out: Vec<Vec<u8>> = Vec::new();
    let mut pos: usize = 0;
    proof {
        assert(path@.skip(0) =~= path@);
        assert(out@.map(|k: int, v: Vec<u8>| v@) =~= Seq::<Seq<u8>>::empty());
    }
    loop
        invariant_except_break
            pos <= n,
            n == path@.len(),
            spec_segments(path@) == out@.map(|k: int, v: Vec<u8>| v@) + spec_segments(
                path@.skip(pos as int),
            ),
        ensures
            spec_segments(path@) == out@.map(|k: int, v: Vec<u8>| v@),
        decreases n - pos,
    {
        let ghost before = out@.map(|k: int, v: Vec<u8>| v@);
        let ghost tail = path@.skip(pos as int);
        if pos >= n {
            proof {
                assert(tail.len() == 0);
                assert(before + Seq::<Seq<u8>>::empty() =~= before);
            }
            break;
        }
        match find_byte(path, 47, pos) {
            None => {
                let seg = copy_range(path, pos, n);
                let ghost sv = seg@;
                out.push(seg);
                proof {
                    crate::commit::lemma_find_byte_shift_pub(path@, 47, pos as int, 0);
                    assert(sv =~= tail);
                    assert(spec_segments(tail) == seq![tail]);
                    assert(out@.map(|k: int, v: Vec<u8>| v@) =~= before.push(sv));
                    assert(before + seq![tail] =~= out@.map(|k: int, v: Vec<u8>| v@));
                    assert(spec_segments(path@.skip(n as int)) =~= Seq::<Seq<u8>>::empty());
                    assert(spec_segments(path@) =~= out@.map(|k: int, v: Vec<u8>| v@));
                }
                break;
            },
            Some(p) => {
                proof {
                    crate::commit::lemma_find_byte_shift_pub(path@, 47, pos as int, 0);
                    assert(spec_find_byte(tail, 47, 0) == Some(p - pos));
                }
                if p > pos {
                    let seg = copy_range(path, pos, p);
                    let ghost sv = seg@;
                    out.push(seg);
                    proof {
                        assert(sv =~= tail.take(p - pos));
                        assert(tail.skip(p - pos + 1) =~= path@.skip(p + 1));
                        assert(spec_segments(tail) == seq![tail.take(p - pos)] + spec_segments(
                            path@.skip(p + 1),
                        ));
                        assert(out@.map(|k: int, v: Vec<u8>| v@) =~= before.push(sv));
                        assert(before + (seq![tail.take(p - pos)] + spec_segments(
                            path@.skip(p + 1),
                        )) =~= out@.map(|k: int, v: Vec<u8>| v@) + spec_segments(
                            path@.skip(p + 1),
                        ));
                    }
                } else {
                    proof {
                        assert(tail.skip(1) =~= path@.skip(p + 1));
                        assert(spec_segments(tail) =~= spec_segments(path@.skip(p + 1)));
                    }
                }
                pos = p + 1;
            },
        }
    }
    out
}

/// The id reached by walking tree entries along path segments from a
/// root tree id; ids are hex bytes throughout.
pub open spec fn spec_navigate(
    s: Seq<(Seq<u8>, Seq<u8>)>,
    prefix: Seq<u8>,
    cur: Seq<u8>,
    segs: Seq<Seq<u8>>,
    i: int,
) -> Option<Seq<u8>>
    decreases segs.len() - i,
{
    if i < 0 || i >= segs.len() {
        Some(cur)
    } else {
        match spec_get_object_plain(s, prefix, cur) {
            None => None,
            Some(raw) => match spec_find_entry(spec_tree_models(raw), segs[i]) {
                None => None,
                Some(oid20) => spec_navigate(
                    s,
                    prefix,
                    crate::hex::hex_of(oid20),
                    segs,
                    i + 1,
                ),
            },
        }
    }
}

impl R2GitStore {
    /// Walks tree entries along a path, returning the id at its end.
    pub fn navigate_to_path(&self, tree_oid: &[u8], path: &[u8]) -> (r: Option<Vec<u8>>)
        ensures
            match spec_navigate(self.store@, self.prefix@, tree_oid@, spec_segments(path@), 0) {
                None => r is None,
                Some(o) => r matches Some(v) && v@ == o,
            },
    {
        let segs = segments(path);
        let ghost gsegs = spec_segments(path@);
        let mut cur = copy_range(tree_oid, 0, tree_oid.len());
        proof {
            assert(cur@ =~= tree_oid@);
        }
        let mut i: usize = 0;
        while i < segs.len()
            invariant
                i <= segs@.len(),
                gsegs == segs@.map(|k: int, v: Vec<u8>| v@),
                gsegs == spec_segments(path@),
                spec_navigate(self.store@, self.prefix@, tree_oid@, gsegs, 0) == spec_navigate(
                    self.store@,
                    self.prefix@,
                    cur@,
                    gsegs,
                    i as int,
                ),
            decreases segs.len() - i,
        {
            let raw = match self.get_object_plain(cur.as_slice()) {
                Some(v) => v,
                None => {
                    return None;
                },
            };
            let oid = match crate::tree::find_entry_in_tree_bytes(
                raw.as_slice(),
                segs[i].as_slice(),
            ) {
                Some(o) => o,
                None => {
                    return None;
                },
            };
            cur = oid;
            i = i + 1;
        }
        Some(cur)
    }

    /// The root tree id of the head commit of a branch.
    pub fn branch_tree(&self, branch: &[u8]) -> (r: Option<Vec<u8>>)
        ensures
            match spec_branch_tree(self.store@, self.prefix@, branch@) {
                None => r is None,
                Some(t) => r matches Some(v) && v@ == t,
            },
    {
        let mut name = heads_slash();
        let mut b = copy_range(branch, 0, branch.len());
        name.append(&mut b);
        proof {
            assert(branch@.subrange(0, branch@.len() as int) =~= branch@);
            assert(name@ =~= spec_heads_slash() + branch@);
        }
        let head = match self.resolve_ref(name.as_slice()) {
            Some(h) => h,
            None => {
                return None;
            },
        };
        let commit_data = match self.get_object_plain(head.as_slice()) {
            Some(d) => d,
            None => {
                return None;
            },
        };
        match crate::commit::extract_tree_oid(commit_data.as_slice()) {
            None => None,
            Some(t) => {
                let tb = t.as_str().as_bytes_vec();
                proof {
                    match spec_object_payload(commit_data@) {
                        Some(c) => {
                            match crate::commit::spec_tree_of_commit(c) {
                                Some(tc) => {
                                    assert(tb@ == vstd::utf8::encode_utf8(tc));
                                },
                                None => {},
                            }
                        },
                        None => {},
                    }
                }
                Some(tb)
            },
        }
    }

    /// Lists a tree by branch and path: the listing of the tree the path
    /// reaches from the branch's root, subtrees first.
    pub fn get_tree(&self, branch: &[u8], path: &str) -> (r: Option<Vec<TreeEntry>>)
        ensures
            ({
                let data = spec_tree_data(self.store@, self.prefix@, branch@,
                    vstd::string::StringSliceAdditionalSpecFns::spec_bytes(path));
                match data {
                    None => r is None,
                    Some(d) => r matches Some(v) && entries_view(v@).to_multiset()
                        == spec_listing(spec_tree_models(d), path@).to_multiset()
                        && spec_entries_sorted(entries_view(v@)),
                }
            }),
    {
        let tree_oid = match self.branch_tree(branch) {
            Some(t) => t,
            None => {
                return None;
            },
        };
        let target = match self.navigate_to_path(tree_oid.as_slice(), path.as_bytes()) {
            Some(t) => t,
            None => {
                return None;
            },
        };
        let data = match self.get_object_plain(target.as_slice()) {
            Some(d) => d,
            None => {
                return None;
            },
        };
        Some(parse_tree(data.as_slice(), path))
    }

    /// Reads a blob as text by id.
    pub fn get_blob_by_oid(&self, oid: &[u8]) -> (r: Option<String>)
        ensures
            ({
                match spec_get_object_plain(self.store@, self.prefix@, oid@) {
                    None => r is None,
                    Some(raw) => match spec_parse_blob(raw) {
                        None => r is None,
                        Some(t) => r matches Some(v) && v@ == t,
                    },
                }
            }),
    {
        match self.get_object_plain(oid) {
            None => None,
            Some(raw) => parse_blob(raw.as_slice()),
        }
    }

    /// Reads a file by branch and path: the blob behind the last path
    /// segment inside the directory the other segments reach.
    pub fn get_file(&self, branch: &[u8], path: &str) -> (r: Option<(String, String)>)
        ensures
            ({
                match spec_file_oid(self.store@, self.prefix@, branch@,
                    vstd::string::StringSliceAdditionalSpecFns::spec_bytes(path)) {
                    None => r is None,
                    Some(oid) => match spec_get_object_plain(self.store@, self.prefix@, oid) {
                        None => r is None,
                        Some(raw) => match spec_parse_blob(raw) {
                            None => r is None,
                            Some(t) => r matches Some(v) && v.0@ == t && v.1@ == chars_of_bytes(
                                oid,
                            ),
                        },
                    },
                }
            }),
    {
        let tree_oid = match self.branch_tree(branch) {
            Some(t) => t,
            None => {
                return None;
            },
        };
        let segs = segments(path.as_bytes());
        if segs.len() == 0 {
            return None;
        }
        let ghost gsegs = spec_segments(
            vstd::string::StringSliceAdditionalSpecFns::spec_bytes(path),
        );
        let nseg = segs.len();
        let dir = match self.navigate_prefix(tree_oid.as_slice(), &segs, nseg - 1) {
            Some(d) => d,
            None => {
                return None;
            },
        };
        let dir_data = match self.get_object_plain(dir.as_slice()) {
            Some(d) => d,
            None => {
                return None;
            },
        };
        let file_oid = match crate::tree::find_entry_in_tree_bytes(
            dir_data.as_slice(),
            segs[nseg - 1].as_slice(),
        ) {
            Some(o) => o,
            None => {
                return None;
            },
        };
        let content = match self.get_object_plain(file_oid.as_slice()) {
            None => {
                return None;
            },
            Some(raw) => match parse_blob(raw.as_slice()) {
                None => {
                    return None;
                },
                Some(t) => t,
            },
        };
        proof {
            match spec_file_oid(self.store@, self.prefix@, branch@,
                vstd::string::StringSliceAdditionalSpecFns::spec_bytes(path)) {
                Some(oid) => {
                    assert(file_oid@ == oid);
                    assert(exists|bb: Seq<u8>| oid == crate::hex::hex_of(bb)) by {
                        let m = spec_tree_models(
                            spec_get_object_plain(
                                self.store@,
                                self.prefix@,
                                spec_navigate(
                                    self.store@,
                                    self.prefix@,
                                    spec_branch_tree(self.store@, self.prefix@, branch@)->0,
                                    gsegs.take(gsegs.len() - 1),
                                    0,
                                )->0,
                            )->0,
                        );
                        let w = spec_find_entry(m, gsegs[gsegs.len() - 1])->0;
                        assert(oid == crate::hex::hex_of(w));
                    }
                    lemma_hex_is_ascii(oid);
                },
                None => {},
            }
        }
        let oid_str = string_of_bytes_or_empty(file_oid.as_slice());
        Some((content, oid_str))
    }

    /// Walks the first `upto` path segments.
    fn navigate_prefix(&self, tree_oid: &[u8], segs: &Vec<Vec<u8>>, upto: usize) -> (r: Option<
        Vec<u8>,
    >)
        requires
            upto <= segs@.len(),
        ensures
            match spec_navigate(
                self.store@,
                self.prefix@,
                tree_oid@,
                segs@.map(|k: int, v: Vec<u8>| v@).take(upto as int),
                0,
            ) {
                None => r is None,
                Some(o) => r matches Some(v) && v@ == o,
            },
    {
        let ghost gsegs = segs@.map(|k: int, v: Vec<u8>| v@).take(upto as int);
        let mut cur = copy_range(tree_oid, 0, tree_oid.len());
        proof {
            assert(cur@ =~= tree_oid@);
        }
        let mut i: usize = 0;
        while i < upto
            invariant
                i <= upto <= segs@.len(),
                gsegs == segs@.map(|k: int, v: Vec<u8>| v@).take(upto as int),
                spec_navigate(self.store@, self.prefix@, tree_oid@, gsegs, 0) == spec_navigate(
                    self.store@,
                    self.prefix@,
                    cur@,
                    gsegs,
                    i as int,
                ),
            decreases upto - i,
        {
            let raw = match self.get_object_plain(cur.as_slice()) {
                Some(v) => v,
                None => {
                    return None;
                },
            };
            proof {
                assert(gsegs[i as int] == segs@.map(|k: int, v: Vec<u8>| v@)[i as int]);
            }
            let oid = match crate::tree::find_entry_in_tree_bytes(
                raw.as_slice(),
                segs[i].as_slice(),
            ) {
                Some(o) => o,
                None => {
                    return None;
                },
            };
            cur = oid;
            i = i + 1;
        }
        Some(cur)
    }
}

/// The root tree id of a branch's head commit, as hex bytes.
pub open spec fn spec_branch_tree(
    s: Seq<(Seq<u8>, Seq<u8>)>,
    prefix: Seq<u8>,
    branch: Seq<u8>,
) -> Option<Seq<u8>> {
    match spec_resolve_ref(s, prefix, spec_heads_slash() + branch, 11) {
        None => None,
        Some(head) => match spec_get_object_plain(s, prefix, head) {
            None => None,
            Some(raw) => match spec_object_payload(raw) {
                None => None,
                Some(c) => match crate::commit::spec_tree_of_commit(c) {
                    None => None,
                    Some(t) => Some(vstd::utf8::encode_utf8(t)),
                },
            },
        },
    }
}

/// The stored bytes of the tree a branch and path reach.
pub open spec fn spec_tree_data(
    s: Seq<(Seq<u8>, Seq<u8>)>,
    prefix: Seq<u8>,
    branch: Seq<u8>,
    path: Seq<u8>,
) -> Option<Seq<u8>> {
    match spec_branch_tree(s, prefix, branch) {
        None => None,
        Some(root) => match spec_navigate(s, prefix, root, spec_segments(path), 0) {
            None => None,
            Some(target) => spec_get_object_plain(s, prefix, target),
        },
    }
}

/// The id of the file a branch and path name: the entry for the last
/// segment inside the directory the other segments reach, as hex bytes.
pub open spec fn spec_file_oid(
    s: Seq<(Seq<u8>, Seq<u8>)>,
    prefix: Seq<u8>,
    branch: Seq<u8>,
    path: Seq<u8>,
) -> Option<Seq<u8>> {
    let segs = spec_segments(path);
    if segs.len() == 0 {
        None
    } else {
        match spec_branch_tree(s, prefix, branch) {
            None => None,
            Some(root) => match spec_navigate(s, prefix, root, segs.take(segs.len() - 1), 0) {
                None => None,
                Some(dir) => match spec_get_object_plain(s, prefix, dir) {
                    None => None,
                    Some(raw) => match spec_find_entry(
                        spec_tree_models(raw),
                        segs[segs.len() - 1],
                    ) {
                        None => None,
                        Some(oid20) => Some(crate::hex::hex_of(oid20)),
                    },
                },
            },
        }
    }
}

/// A file id is hex bytes, hence ASCII and valid UTF-8.
proof fn lemma_hex_is_ascii(oid: Seq<u8>)
    requires
        exists|b: Seq<u8>| oid == crate::hex::hex_of(b),
    ensures
        vstd::utf8::valid_utf8(oid),
        chars_of_bytes(oid) == vstd::utf8::decode_utf8(oid),
{
    let b = choose|b: Seq<u8>| oid == crate::hex::hex_of(b);
    crate::tree::lemma_hex_chars_pub(b);
}

/// Lowercases ASCII letters, leaving anything else alone.
pub open spec fn spec_ascii_lower(c: char) -> char {
    if 'A' <= c && c <= 'Z' {
        (((c as u32) + 32) as u8) as char
    } else {
        c
    }
}

/// Whether a name is `readme.md` up to ASCII case.
pub open spec fn spec_is_readme(name: Seq<char>) -> bool {
    name.map(|i: int, c: char| spec_ascii_lower(c)) == "readme.md"@
}

fn is_readme_name(name: &str) -> (r: bool)
    ensures
        r == spec_is_readme(name@),
{
    let n = name.unicode_len();
    proof {
        reveal_strlit("readme.md");
    }
    if n != 9 {
        proof {
            assert(name@.map(|i: int, c: char| spec_ascii_lower(c)).len() == n);
        }
        return false;
    }
    let mut i: usize = 0;
    let pat = "readme.md";
    while i < 9
        invariant
            i <= 9,
            n == name@.len() == 9,
            pat@ == "readme.md"@,
            forall|k: int| 0 <= k < i ==> spec_ascii_lower(#[trigger] name@[k]) == "readme.md"@[k],
        decreases 9 - i,
    {
        proof {
            reveal_strlit("readme.md");
        }
        let c = name.get_char(i);
        let lc: char = if 'A' <= c && c <= 'Z' {
            (((c as u32) + 32) as u8) as char
        } else {
            c
        };
        let p = pat.get_char(i);
        if lc != p {
            proof {
                assert(spec_ascii_lower(name@[i as int]) != "readme.md"@[i as int]);
                assert(name@.map(|k: int, c2: char| spec_ascii_lower(c2))[i as int]
                    != "readme.md"@[i as int]);
            }
            return false;
        }
        i = i + 1;
    }
    proof {
        assert(name@.map(|k: int, c2: char| spec_ascii_lower(c2)) =~= "readme.md"@);
    }
    true
}

/// The id of the first blob entry named `readme.md` up to ASCII case.
pub open spec fn spec_readme_oid(
    es: Seq<(Seq<char>, Seq<char>, Seq<char>, Seq<char>)>,
) -> Option<Seq<char>>
    decreases es.len(),
{
    if es.len() == 0 {
        None
    } else if spec_is_readme(es[0].0) && es[0].1 == "blob"@ {
        Some(es[0].2)
    } else {
        spec_readme_oid(es.drop_first())
    }
}

/// Finds the readme blob in a listing.
pub fn find_readme_oid(entries: &Vec<TreeEntry>) -> (r: Option<String>)
    ensures
        match spec_readme_oid(entries_view(entries@)) {
            None => r is None,
            Some(o) => r matches Some(s) && s@ == o,
        },
{
    let ghost model = entries_view(entries@);
    let mut i: usize = 0;
    proof {
        assert(model.skip(0) =~= model);
    }
    while i < entries.len()
        invariant
            i <= entries@.len(),
            model == entries_view(entries@),
            spec_readme_oid(model) == spec_readme_oid(model.skip(i as int)),
        decreases entries.len() - i,
    {
        let ghost tail = model.skip(i as int);
        proof {
            assert(tail[0] == model[i as int]);
            assert(tail.drop_first() =~= model.skip(i + 1));
        }
        let e = &entries[i];
        if is_readme_name(e.name.as_str()) && str_eq(e.entry_type.as_str(), "blob") {
            return Some(clone_string(&e.oid));
        }
        i = i + 1;
    }
    proof {
        assert(model.skip(model.len() as int) =~= Seq::<
            (Seq<char>, Seq<char>, Seq<char>, Seq<char>),
        >::empty());
    }
    None
}

impl R2GitStore {
    /// Lists commits on a branch: a page of `limit` records after `skip`
    /// steps down the first-parent chain, and whether more follow.
    pub fn get_commits(&self, branch: &[u8], limit: usize, skip: usize) -> (r: (
        Vec<CommitInfo>,
        bool,
    ))
        requires
            skip + limit + 1 <= usize::MAX,
        ensures
            ({
                match spec_resolve_ref(self.store@, self.prefix@, spec_heads_slash() + branch@,
                    11) {
                    None => r.0@.len() == 0 && r.1 == false,
                    Some(head) => {
                        let chain = spec_commit_chain(self.store@, self.prefix@, head,
                            (skip + limit + 1) as nat);
                        &&& r.1 == (chain.len() == skip + limit + 1)
                        &&& r.0@.len() == (if chain.len() <= skip {
                            0int
                        } else if chain.len() - skip <= limit {
                            chain.len() - skip
                        } else {
                            limit as int
                        })
                        &&& forall|i: int| 0 <= i < r.0@.len() ==> spec_info_matches(self.store@,
                            self.prefix@, chain[skip + i], #[trigger] r.0@[i])
                    },
                }
            }),
    {
        let mut name = heads_slash();
        let mut b = copy_range(branch, 0, branch.len());
        name.append(&mut b);
        proof {
            assert(branch@.subrange(0, branch@.len() as int) =~= branch@);
            assert(name@ =~= spec_heads_slash() + branch@);
        }
        let head = match self.resolve_ref(name.as_slice()) {
            Some(h) => h,
            None => {
                let empty: Vec<CommitInfo> = Vec::new();
                return (empty, false);
            },
        };
        let ghost ghead = spec_resolve_ref(self.store@, self.prefix@, spec_heads_slash()
            + branch@, 11)->0;
        let bound = skip + limit + 1;
        let ghost chain = spec_commit_chain(self.store@, self.prefix@, ghead, bound as nat);
        let mut commits: Vec<CommitInfo> = Vec::new();
        let mut count: usize = 0;
        let mut current = head;
        proof {
            assert(chain.take(0) =~= Seq::<Seq<u8>>::empty());
            assert(chain.take(0) + chain =~= chain);
        }
        loop
            invariant_except_break
                count <= bound,
                bound == skip + limit + 1,
                current@ == (if count == 0 {
                    ghead
                } else {
                    current@
                }),
                chain == spec_commit_chain(self.store@, self.prefix@, ghead, bound as nat),
                chain == chain.take(count as int) + spec_commit_chain(
                    self.store@,
                    self.prefix@,
                    current@,
                    (bound - count) as nat,
                ),
                chain.len() >= count,
                commits@.len() == (if count <= skip {
                    0int
                } else if count - skip <= limit {
                    count - skip
                } else {
                    limit as int
                }),
                forall|i: int| 0 <= i < commits@.len() ==> spec_info_matches(self.store@,
                    self.prefix@, chain[skip + i], #[trigger] commits@[i]),
            ensures
                count <= bound,
                bound == skip + limit + 1,
                chain == spec_commit_chain(self.store@, self.prefix@, ghead, bound as nat),
                count == bound ==> chain.len() == bound,
                count < bound ==> chain.len() == count,
                commits@.len() == (if count <= skip {
                    0int
                } else if count - skip <= limit {
                    count - skip
                } else {
                    limit as int
                }),
                forall|i: int| 0 <= i < commits@.len() ==> spec_info_matches(self.store@,
                    self.prefix@, chain[skip + i], #[trigger] commits@[i]),
            decreases bound - count,
        {
            if count >= bound {
                proof {
                    assert(spec_commit_chain(self.store@, self.prefix@, current@, 0) =~= Seq::<
                        Seq<u8>,
                    >::empty());
                    assert(chain =~= chain.take(count as int));
                    assert(chain.len() <= count);
                }
                break;
            }
            let ghost tailchain = spec_commit_chain(self.store@, self.prefix@, current@,
                (bound - count) as nat);
            let info_opt = self.get_commit_by_oid(current.as_slice());
            match info_opt {
                None => {
                    proof {
                        assert(tailchain =~= Seq::<Seq<u8>>::empty());
                        assert(chain =~= chain.take(count as int));
                        assert(chain.len() <= count);
                    }
                    break;
                },
                Some((info, parent)) => {
                    proof {
                        assert(tailchain[0] == current@);
                        assert(chain[count as int] == current@) by {
                            assert(chain.take(count as int).len() == count);
                        }
                        assert(chain.len() > count);
                    }
                    if count >= skip && count < skip + limit {
                        proof {
                            assert(spec_info_matches(self.store@, self.prefix@, current@, info));
                        }
                        commits.push(info);
                    }
                    count = count + 1;
                    proof {
                        assert(chain.take(count as int) =~= chain.take((count - 1) as int).push(
                            current@,
                        ));
                    }
                    match parent {
                        None => {
                            proof {
                                assert(tailchain =~= seq![current@]);
                                assert(chain =~= chain.take(count as int));
                                assert(chain.len() <= count);
                                if count < bound {
                                    assert(chain.len() == count);
                                }
                            }
                            break;
                        },
                        Some(p) => {
                            let pb = p.as_str().as_bytes_vec();
                            proof {
                                match spec_commit_parent_of(self.store@, self.prefix@, current@) {
                                    Some(Some(gp)) => {
                                        assert(pb@ == gp);
                                        assert(tailchain =~= seq![current@] + spec_commit_chain(
                                            self.store@, self.prefix@, gp,
                                            (bound - count) as nat));
                                        assert(chain =~= chain.take(count as int)
                                            + spec_commit_chain(self.store@, self.prefix@, gp,
                                            (bound - count) as nat));
                                    },
                                    _ => {
                                        assert(false);
                                    },
                                }
                            }
                            current = pb;
                        },
                    }
                },
            }
        }
        let has_more = count >= bound;
        (commits, has_more)
    }
}

} // verus!
