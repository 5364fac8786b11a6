//! Commit diffs: line diffing of blob pairs through the `similar` crate,
//! unified-hunk assembly, and the recursive comparison of two trees.

use vstd::prelude::*;
use crate::bytes::{bytes_eq, copy_range};
use crate::repo::{R2GitStore, spec_get_object_plain};
use crate::tree::{TreeEntryRaw, spec_tree_entries, spec_tree_models, parse_tree_entries};
use crate::object::{parse_blob, spec_parse_blob};
use crate::text::{chars_of_bytes, string_of_bytes_or_empty, str_eq, spec_chars_le};
use crate::commit::CommitInfo;
use vstd::string::StringExecFns;

verus! {

/// One line of a hunk: its kind (`context`, `addition` or `deletion`),
/// its text, and its line numbers on each side.
pub struct DiffHunkLine {
    pub line_type: String,
    pub content: String,
    pub old_line_number: Option<usize>,
    pub new_line_number: Option<usize>,
}

/// One hunk: where it starts and how many lines it spans on each side.
pub struct DiffHunk {
    pub old_start: usize,
    pub old_lines: usize,
    pub new_start: usize,
    pub new_lines: usize,
    pub lines: Vec<DiffHunkLine>,
}

/// One file's diff.
pub struct FileDiff {
    pub path: String,
    pub status: String,
    pub additions: usize,
    pub deletions: usize,
    pub hunks: Vec<DiffHunk>,
    pub old_path: Option<String>,
}

/// Whole-commit totals.
pub struct DiffStats {
    pub additions: usize,
    pub deletions: usize,
    pub files_changed: usize,
}

/// A commit with its file diffs and totals.
pub struct CommitDiffResponse {
    pub commit: CommitInfo,
    pub parent: Option<String>,
    pub files: Vec<FileDiff>,
    pub stats: DiffStats,
}

/// The most recent commit that touched a path.
pub struct FileLastCommit {
    pub path: String,
    pub commit_oid: String,
    pub message: String,
    pub author_name: String,
    pub timestamp: i64,
}

/// One raw change: 0 keeps a line, 1 deletes, 2 adds; the indices are the
/// line's position on each side, and the text has its newline removed.
pub struct RawChange {
    pub tag: u8,
    pub old_index: Option<usize>,
    pub new_index: Option<usize>,
    pub text: String,
}

/// One change group: the first change's line indices on each side, and
/// the changes with three context lines around each run.
pub struct RawGroup {
    pub old_start: usize,
    pub new_start: usize,
    pub changes: Vec<RawChange>,
}

pub uninterp spec fn diff_groups_of(old: Seq<char>, new: Seq<char>) -> Seq<
    Seq<(u8, Option<int>, Option<int>, Seq<char>)>,
>;

pub uninterp spec fn diff_group_starts_of(old: Seq<char>, new: Seq<char>) -> Seq<(int, int)>;

/// The model of raw groups.
pub open spec fn groups_model(groups: Seq<RawGroup>) -> Seq<
    Seq<(u8, Option<int>, Option<int>, Seq<char>)>,
> {
    groups.map(
        |i: int, g: RawGroup|
            g.changes@.map(
                |j: int, c: RawChange|
                    (
                        c.tag,
                        match c.old_index {
                            Some(v) => Some(v as int),
                            None => None,
                        },
                        match c.new_index {
                            Some(v) => Some(v as int),
                            None => None,
                        },
                        c.text@,
                    ),
            ),
    )
}

/// Relies on similar's `TextDiff::from_lines`, `grouped_ops` with three
/// context lines, and `iter_changes`: the change stream is a function of
/// the two texts alone, so its groups and their start indices are given
/// names; each change's tag, per-side indices and text come through
/// unchanged, with each text's trailing newline removed.
#[verifier::external_body]
fn raw_diff(old: &str, new: &str) -> (r: Vec<RawGroup>)
    ensures
        groups_model(r@) == diff_groups_of(old@, new@),
        r@.map(|i: int, g: RawGroup| (g.old_start as int, g.new_start as int))
            == diff_group_starts_of(old@, new@),
        r@.len() == diff_groups_of(old@, new@).len(),
{
    let d = similar::TextDiff::from_lines(old, new);
    d.grouped_ops(3).iter().map(|g| RawGroup {
        old_start: g.first().map(|op| op.old_range().start).unwrap_or(0),
        new_start: g.first().map(|op| op.new_range().start).unwrap_or(0),
        changes: g.iter().flat_map(|op| d.iter_changes(op)).map(|c| RawChange {
            tag: match c.tag() { similar::ChangeTag::Equal => 0, similar::ChangeTag::Delete => 1, similar::ChangeTag::Insert => 2 },
            old_index: c.old_index(),
            new_index: c.new_index(),
            text: c.value().trim_end_matches('\n').to_string(),
        }).collect(),
    }).collect()
}

/// The `context` / `deletion` / `addition` kind name of a tag.
pub open spec fn spec_tag_name(tag: u8) -> Seq<char> {
    if tag == 1 {
        "deletion"@
    } else if tag == 2 {
        "addition"@
    } else {
        "context"@
    }
}

fn tag_name(tag: u8) -> (r: String)
    ensures
        r@ == spec_tag_name(tag),
{
    if tag == 1 {
        String::from_str("deletion")
    } else if tag == 2 {
        String::from_str("addition")
    } else {
        String::from_str("context")
    }
}

/// The model of an optional line number.
pub open spec fn opt_int(o: Option<usize>) -> Option<int> {
    match o {
        Some(v) => Some(v as int),
        None => None,
    }
}

/// A zero-based index turned one-based, staying absent past the machine
/// bound.
pub open spec fn spec_bump(o: Option<int>) -> Option<int> {
    match o {
        Some(v) => if v < usize::MAX {
            Some(v + 1)
        } else {
            None
        },
        None => None,
    }
}

/// The model of one hunk line: kind, text, and one-based numbers.
pub open spec fn line_view(l: DiffHunkLine) -> (Seq<char>, Seq<char>, Option<int>, Option<int>) {
    (l.line_type@, l.content@, opt_int(l.old_line_number), opt_int(l.new_line_number))
}

/// The model of one hunk: starts, side line counts, and its lines.
pub open spec fn hunk_view(h: DiffHunk) -> (
    int,
    int,
    int,
    int,
    Seq<(Seq<char>, Seq<char>, Option<int>, Option<int>)>,
) {
    (
        h.old_start as int,
        h.old_lines as int,
        h.new_start as int,
        h.new_lines as int,
        h.lines@.map(|i: int, l: DiffHunkLine| line_view(l)),
    )
}

/// The model of a hunk list.
pub open spec fn hunks_view(hs: Seq<DiffHunk>) -> Seq<
    (int, int, int, int, Seq<(Seq<char>, Seq<char>, Option<int>, Option<int>)>),
> {
    hs.map(|i: int, h: DiffHunk| hunk_view(h))
}

/// The line one raw change becomes.
pub open spec fn spec_line_of_change(c: (u8, Option<int>, Option<int>, Seq<char>)) -> (
    Seq<char>,
    Seq<char>,
    Option<int>,
    Option<int>,
) {
    (spec_tag_name(c.0), c.3, spec_bump(c.1), spec_bump(c.2))
}

/// How many changes of a group carry the tag.
pub open spec fn spec_count_chg(g: Seq<(u8, Option<int>, Option<int>, Seq<char>)>, tag: u8) -> int
    decreases g.len(),
{
    if g.len() == 0 {
        0
    } else {
        (if g.last().0 == tag {
            1int
        } else {
            0int
        }) + spec_count_chg(g.drop_last(), tag)
    }
}

/// Whether a group deletes or adds anything.
pub open spec fn spec_has_changes(g: Seq<(u8, Option<int>, Option<int>, Seq<char>)>) -> bool {
    exists|i: int| 0 <= i < g.len() && ((#[trigger] g[i]).0 == 1 || g[i].0 == 2)
}

proof fn lemma_has_changes_push(
    g: Seq<(u8, Option<int>, Option<int>, Seq<char>)>,
    c: (u8, Option<int>, Option<int>, Seq<char>),
)
    ensures
        spec_has_changes(g.push(c)) == (spec_has_changes(g) || c.0 == 1 || c.0 == 2),
{
    let t = g.push(c);
    if spec_has_changes(t) {
        let i = choose|i: int| 0 <= i < t.len() && ((#[trigger] t[i]).0 == 1 || t[i].0 == 2);
        if i < g.len() {
            assert(g[i] == t[i]);
        } else {
            assert(t[i] == c);
        }
    }
    if spec_has_changes(g) {
        let i = choose|i: int| 0 <= i < g.len() && ((#[trigger] g[i]).0 == 1 || g[i].0 == 2);
        assert(t[i] == g[i]);
    }
    if c.0 == 1 || c.0 == 2 {
        assert(t[g.len() as int] == c);
    }
}

/// The hunk a group becomes, or nothing for a group without changes: the
/// starts are one-based (zero for an absent side), each side's line count
/// excludes the other side's own lines, and each change becomes a line.
pub open spec fn spec_hunk_of_group(
    g: Seq<(u8, Option<int>, Option<int>, Seq<char>)>,
    st: (int, int),
    old_empty: bool,
    new_empty: bool,
) -> Option<(int, int, int, int, Seq<(Seq<char>, Seq<char>, Option<int>, Option<int>)>)> {
    if g.len() == 0 || !spec_has_changes(g) {
        None
    } else {
        let os: int = if old_empty {
            0
        } else if st.0 < usize::MAX {
            st.0 + 1
        } else {
            st.0
        };
        let ns: int = if new_empty {
            0
        } else if st.1 < usize::MAX {
            st.1 + 1
        } else {
            st.1
        };
        Some(
            (
                os,
                g.len() - spec_count_chg(g, 2),
                ns,
                g.len() - spec_count_chg(g, 1),
                g.map(|i: int, c: (u8, Option<int>, Option<int>, Seq<char>)| spec_line_of_change(c)),
            ),
        )
    }
}

/// The hunks of a grouped change stream, in group order.
pub open spec fn spec_hunks_of(
    groups: Seq<Seq<(u8, Option<int>, Option<int>, Seq<char>)>>,
    starts: Seq<(int, int)>,
    old_empty: bool,
    new_empty: bool,
) -> Seq<(int, int, int, int, Seq<(Seq<char>, Seq<char>, Option<int>, Option<int>)>)>
    decreases groups.len(),
{
    if groups.len() == 0 || starts.len() != groups.len() {
        Seq::empty()
    } else {
        let rest = spec_hunks_of(groups.drop_last(), starts.drop_last(), old_empty, new_empty);
        match spec_hunk_of_group(groups.last(), starts.last(), old_empty, new_empty) {
            None => rest,
            Some(h) => rest.push(h),
        }
    }
}

proof fn lemma_hunks_push(
    groups: Seq<Seq<(u8, Option<int>, Option<int>, Seq<char>)>>,
    starts: Seq<(int, int)>,
    g: Seq<(u8, Option<int>, Option<int>, Seq<char>)>,
    st: (int, int),
    old_empty: bool,
    new_empty: bool,
)
    requires
        groups.len() == starts.len(),
    ensures
        spec_hunks_of(groups.push(g), starts.push(st), old_empty, new_empty) == (
        match spec_hunk_of_group(g, st, old_empty, new_empty) {
            None => spec_hunks_of(groups, starts, old_empty, new_empty),
            Some(h) => spec_hunks_of(groups, starts, old_empty, new_empty).push(h),
        }),
{
    assert(groups.push(g).drop_last() =~= groups);
    assert(starts.push(st).drop_last() =~= starts);
    assert(groups.push(g).last() == g);
    assert(starts.push(st).last() == st);
}

/// The start pair of each group.
pub open spec fn starts_model(groups: Seq<RawGroup>) -> Seq<(int, int)> {
    groups.map(|i: int, g: RawGroup| (g.old_start as int, g.new_start as int))
}

/// Builds the unified hunks from the raw change groups: exactly the
/// hunks of the grouped stream, a group without changes dropped.
pub fn build_hunks(groups: &Vec<RawGroup>, old_empty: bool, new_empty: bool) -> (r: Vec<DiffHunk>)
    ensures
        hunks_view(r@) == spec_hunks_of(
            groups_model(groups@),
            starts_model(groups@),
            old_empty,
            new_empty,
        ),
{
    let ghost gm = groups_model(groups@);
    let ghost sm = starts_model(groups@);
    let mut out: Vec<DiffHunk> = Vec::new();
    let mut gi: usize = 0;
    proof {
        assert(hunks_view(out@) =~= spec_hunks_of(gm.take(0), sm.take(0), old_empty, new_empty));
    }
    while gi < groups.len()
        invariant
            gi <= groups@.len(),
            gm == groups_model(groups@),
            sm == starts_model(groups@),
            hunks_view(out@) == spec_hunks_of(gm.take(gi as int), sm.take(gi as int), old_empty,
                new_empty),
        decreases groups.len() - gi,
    {
        let ghost before = hunks_view(out@);
        let g = &groups[gi];
        let ghost gc = gm[gi as int];
        proof {
            assert(gc == g.changes@.map(
                |j: int, c: RawChange|
                    (
                        c.tag,
                        match c.old_index {
                            Some(v) => Some(v as int),
                            None => None,
                        },
                        match c.new_index {
                            Some(v) => Some(v as int),
                            None => None,
                        },
                        c.text@,
                    ),
            ));
        }
        let mut lines: Vec<DiffHunkLine> = Vec::new();
        let mut has_changes = false;
        let mut ci: usize = 0;
        let mut additions: usize = 0;
        let mut deletions: usize = 0;
        proof {
            assert(lines@.map(|k: int, l: DiffHunkLine| line_view(l)) =~= gc.take(0).map(
                |k: int, c: (u8, Option<int>, Option<int>, Seq<char>)| spec_line_of_change(c),
            ));
            assert(!spec_has_changes(gc.take(0)));
        }
        while ci < g.changes.len()
            invariant
                ci <= g.changes@.len(),
                gc.len() == g.changes@.len(),
                gc == g.changes@.map(
                    |j: int, c: RawChange|
                        (
                            c.tag,
                            match c.old_index {
                                Some(v) => Some(v as int),
                                None => None,
                            },
                            match c.new_index {
                                Some(v) => Some(v as int),
                                None => None,
                            },
                            c.text@,
                        ),
                ),
                lines@.len() == ci,
                lines@.map(|k: int, l: DiffHunkLine| line_view(l)) == gc.take(ci as int).map(
                    |k: int, c: (u8, Option<int>, Option<int>, Seq<char>)| spec_line_of_change(c),
                ),
                additions as int == spec_count_chg(gc.take(ci as int), 2),
                deletions as int == spec_count_chg(gc.take(ci as int), 1),
                additions <= ci,
                deletions <= ci,
                has_changes == spec_has_changes(gc.take(ci as int)),
            decreases g.changes.len() - ci,
        {
            let ghost lbefore = lines@.map(|k: int, l: DiffHunkLine| line_view(l));
            let c = &g.changes[ci];
            proof {
                assert(gc[ci as int] == (
                    c.tag,
                    match c.old_index {
                        Some(v) => Some(v as int),
                        None => None,
                    },
                    match c.new_index {
                        Some(v) => Some(v as int),
                        None => None,
                    },
                    c.text@,
                ));
                assert(gc.take(ci + 1) =~= gc.take(ci as int).push(gc[ci as int]));
                assert(gc.take(ci + 1).drop_last() =~= gc.take(ci as int));
                lemma_has_changes_push(gc.take(ci as int), gc[ci as int]);
            }
            if c.tag == 1 || c.tag == 2 {
                has_changes = true;
            }
            let ol: Option<usize> = match c.old_index {
                Some(v) => {
                    if v < usize::MAX {
                        Some(v + 1)
                    } else {
                        None
                    }
                },
                None => None,
            };
            let nl: Option<usize> = match c.new_index {
                Some(v) => {
                    if v < usize::MAX {
                        Some(v + 1)
                    } else {
                        None
                    }
                },
                None => None,
            };
            let lt = tag_name(c.tag);
            lines.push(
                DiffHunkLine {
                    line_type: lt,
                    content: clone_str(&c.text),
                    old_line_number: ol,
                    new_line_number: nl,
                },
            );
            if c.tag == 2 {
                additions = additions + 1;
            } else if c.tag == 1 {
                deletions = deletions + 1;
            }
            proof {
                assert(lines@.map(|k: int, l: DiffHunkLine| line_view(l)) =~= lbefore.push(
                    spec_line_of_change(gc[ci as int]),
                ));
                assert(gc.take(ci + 1).map(
                    |k: int, c2: (u8, Option<int>, Option<int>, Seq<char>)| spec_line_of_change(
                        c2,
                    ),
                ) =~= gc.take(ci as int).map(
                    |k: int, c2: (u8, Option<int>, Option<int>, Seq<char>)| spec_line_of_change(
                        c2,
                    ),
                ).push(spec_line_of_change(gc[ci as int])));
            }
            ci = ci + 1;
        }
        proof {
            assert(gc.take(gc.len() as int) =~= gc);
            assert(gm.take(gi + 1) =~= gm.take(gi as int).push(gc));
            assert(sm.take(gi + 1) =~= sm.take(gi as int).push(sm[gi as int]));
            lemma_hunks_push(gm.take(gi as int), sm.take(gi as int), gc, sm[gi as int], old_empty,
                new_empty);
        }
        if lines.len() > 0 && has_changes {
            let old_start: usize = if old_empty {
                0
            } else if g.old_start < usize::MAX {
                g.old_start + 1
            } else {
                g.old_start
            };
            let new_start: usize = if new_empty {
                0
            } else if g.new_start < usize::MAX {
                g.new_start + 1
            } else {
                g.new_start
            };
            let nl = lines.len();
            let h = DiffHunk {
                old_start,
                old_lines: nl - additions,
                new_start,
                new_lines: nl - deletions,
                lines,
            };
            proof {
                assert(sm[gi as int] == (g.old_start as int, g.new_start as int));
                assert(hunk_view(h) == spec_hunk_of_group(gc, sm[gi as int], old_empty,
                    new_empty)->0);
            }
            out.push(h);
            proof {
                assert(hunks_view(out@) =~= before.push(hunk_view(out@.last())));
            }
        }
        gi = gi + 1;
    }
    proof {
        assert(gm.take(gm.len() as int) =~= gm);
        assert(sm.take(sm.len() as int) =~= sm);
    }
    out
}

/// Copies a string.
fn clone_str(s: &String) -> (r: String)
    ensures
        r@ == s@,
{
    s.clone()
}

/// Computes the unified hunks of two texts: the named change stream of
/// the `similar` crate, assembled into hunks exactly.
pub fn compute_unified_diff(old_content: &str, new_content: &str) -> (r: Vec<DiffHunk>)
    ensures
        hunks_view(r@) == spec_hunks_of(
            diff_groups_of(old_content@, new_content@),
            diff_group_starts_of(old_content@, new_content@),
            old_content@.len() == 0,
            new_content@.len() == 0,
        ),
{
    let groups = raw_diff(old_content, new_content);
    let old_empty = old_content.unicode_len() == 0;
    let new_empty = new_content.unicode_len() == 0;
    build_hunks(&groups, old_empty, new_empty)
}

/// The model of a file diff: path, status, counters, hunks, old path.
pub open spec fn file_diff_view(d: FileDiff) -> (
    Seq<char>,
    Seq<char>,
    int,
    int,
    Seq<(int, int, int, int, Seq<(Seq<char>, Seq<char>, Option<int>, Option<int>)>)>,
    Option<Seq<char>>,
) {
    (
        d.path@,
        d.status@,
        d.additions as int,
        d.deletions as int,
        hunks_view(d.hunks@),
        match d.old_path {
            Some(p) => Some(p@),
            None => None,
        },
    )
}

/// The model of a file-diff list.
pub open spec fn diffs_view(ds: Seq<FileDiff>) -> Seq<
    (
        Seq<char>,
        Seq<char>,
        int,
        int,
        Seq<(int, int, int, int, Seq<(Seq<char>, Seq<char>, Option<int>, Option<int>)>)>,
        Option<Seq<char>>,
    ),
> {
    ds.map(|i: int, d: FileDiff| file_diff_view(d))
}

/// A hunk's added lines: its length less the old side's count.
pub open spec fn spec_hunk_adds(
    h: (int, int, int, int, Seq<(Seq<char>, Seq<char>, Option<int>, Option<int>)>),
) -> int {
    h.4.len() - h.1
}

/// A hunk's deleted lines: its length less the new side's count.
pub open spec fn spec_hunk_dels(
    h: (int, int, int, int, Seq<(Seq<char>, Seq<char>, Option<int>, Option<int>)>),
) -> int {
    h.4.len() - h.3
}

/// The added lines across hunks, saturating at the machine bound.
pub open spec fn spec_adds_total(
    hs: Seq<(int, int, int, int, Seq<(Seq<char>, Seq<char>, Option<int>, Option<int>)>)>,
) -> int
    decreases hs.len(),
{
    if hs.len() == 0 {
        0
    } else {
        let prev = spec_adds_total(hs.drop_last());
        let c = spec_hunk_adds(hs.last());
        if c > usize::MAX - prev {
            usize::MAX as int
        } else {
            prev + c
        }
    }
}

/// The deleted lines across hunks, saturating at the machine bound.
pub open spec fn spec_dels_total(
    hs: Seq<(int, int, int, int, Seq<(Seq<char>, Seq<char>, Option<int>, Option<int>)>)>,
) -> int
    decreases hs.len(),
{
    if hs.len() == 0 {
        0
    } else {
        let prev = spec_dels_total(hs.drop_last());
        let c = spec_hunk_dels(hs.last());
        if c > usize::MAX - prev {
            usize::MAX as int
        } else {
            prev + c
        }
    }
}

/// The text of a blob for diffing: empty for an empty id, a missing
/// object, or a payload that is not text.
pub open spec fn spec_blob_text(
    s: Seq<(Seq<u8>, Seq<u8>)>,
    prefix: Seq<u8>,
    oid: Seq<u8>,
) -> Seq<char> {
    if oid.len() == 0 {
        Seq::empty()
    } else {
        match spec_get_object_plain(s, prefix, oid) {
            None => Seq::empty(),
            Some(raw) => match spec_parse_blob(raw) {
                None => Seq::empty(),
                Some(t) => t,
            },
        }
    }
}

/// The text of an optional blob side.
pub open spec fn spec_blob_text_opt(
    s: Seq<(Seq<u8>, Seq<u8>)>,
    prefix: Seq<u8>,
    oid: Option<Seq<u8>>,
) -> Seq<char> {
    match oid {
        None => Seq::empty(),
        Some(o) => spec_blob_text(s, prefix, o),
    }
}

/// The file diff of two blob sides: the unified hunks of their texts,
/// with counters totalling the hunks' added and deleted lines.
pub open spec fn spec_file_diff(
    s: Seq<(Seq<u8>, Seq<u8>)>,
    prefix: Seq<u8>,
    old_oid: Option<Seq<u8>>,
    new_oid: Seq<u8>,
    path: Seq<char>,
    status: Seq<char>,
) -> (
    Seq<char>,
    Seq<char>,
    int,
    int,
    Seq<(int, int, int, int, Seq<(Seq<char>, Seq<char>, Option<int>, Option<int>)>)>,
    Option<Seq<char>>,
) {
    let old_text = spec_blob_text_opt(s, prefix, old_oid);
    let new_text = spec_blob_text(s, prefix, new_oid);
    let hunks = spec_hunks_of(
        diff_groups_of(old_text, new_text),
        diff_group_starts_of(old_text, new_text),
        old_text.len() == 0,
        new_text.len() == 0,
    );
    (path, status, spec_adds_total(hunks), spec_dels_total(hunks), hunks, None)
}

/// A change count lies between zero and the group length.
proof fn lemma_count_chg_bounds(g: Seq<(u8, Option<int>, Option<int>, Seq<char>)>, tag: u8)
    ensures
        0 <= spec_count_chg(g, tag) <= g.len(),
    decreases g.len(),
{
    if g.len() > 0 {
        lemma_count_chg_bounds(g.drop_last(), tag);
    }
}

/// Every hunk of a grouped stream has side counts within its line count.
proof fn lemma_hunks_of_bounds(
    groups: Seq<Seq<(u8, Option<int>, Option<int>, Seq<char>)>>,
    starts: Seq<(int, int)>,
    old_empty: bool,
    new_empty: bool,
)
    ensures
        forall|i: int|
            0 <= i < spec_hunks_of(groups, starts, old_empty, new_empty).len() ==> {
                let h = #[trigger] spec_hunks_of(groups, starts, old_empty, new_empty)[i];
                0 <= h.1 <= h.4.len() && 0 <= h.3 <= h.4.len()
            },
    decreases groups.len(),
{
    if groups.len() > 0 && starts.len() == groups.len() {
        lemma_hunks_of_bounds(groups.drop_last(), starts.drop_last(), old_empty, new_empty);
        let g = groups.last();
        lemma_count_chg_bounds(g, 1);
        lemma_count_chg_bounds(g, 2);
        let hs = spec_hunks_of(groups, starts, old_empty, new_empty);
        let rest = spec_hunks_of(groups.drop_last(), starts.drop_last(), old_empty, new_empty);
        match spec_hunk_of_group(g, starts.last(), old_empty, new_empty) {
            None => {
                assert(hs == rest);
            },
            Some(h) => {
                assert(h.4.len() == g.len());
                assert(hs == rest.push(h));
                assert(forall|i: int| 0 <= i < rest.len() ==> hs[i] == #[trigger] rest[i]);
            },
        }
    }
}

impl R2GitStore {
    /// Diffs two blobs into a file diff: a missing side reads as empty
    /// text, the hunks are exactly the unified diff of the two texts, and
    /// the counters total the hunks' added and deleted lines.
    pub fn diff_blobs(
        &self,
        old_oid: Option<&Vec<u8>>,
        new_oid: &[u8],
        path: &str,
        status: &str,
    ) -> (r: FileDiff)
        ensures
            file_diff_view(r) == spec_file_diff(
                self.store@,
                self.prefix@,
                match old_oid {
                    Some(o) => Some(o@),
                    None => None,
                },
                new_oid@,
                path@,
                status@,
            ),
    {
        let old_content: String = match old_oid {
            Some(o) => {
                if o.len() == 0 {
                    String::new()
                } else {
                    match self.get_blob_by_oid(o.as_slice()) {
                        Some(t) => t,
                        None => String::new(),
                    }
                }
            },
            None => String::new(),
        };
        let new_content: String = if new_oid.len() == 0 {
            String::new()
        } else {
            match self.get_blob_by_oid(new_oid) {
                Some(t) => t,
                None => String::new(),
            }
        };
        proof {
            assert(old_content@ == spec_blob_text_opt(self.store@, self.prefix@, match old_oid {
                Some(o) => Some(o@),
                None => None,
            }));
            assert(new_content@ == spec_blob_text(self.store@, self.prefix@, new_oid@));
        }
        let hunks = compute_unified_diff(old_content.as_str(), new_content.as_str());
        let ghost hm = hunks_view(hunks@);
        proof {
            lemma_hunks_of_bounds(
                diff_groups_of(old_content@, new_content@),
                diff_group_starts_of(old_content@, new_content@),
                old_content@.len() == 0,
                new_content@.len() == 0,
            );
        }
        let mut additions: usize = 0;
        let mut deletions: usize = 0;
        let mut i: usize = 0;
        proof {
            assert(spec_adds_total(hm.take(0)) == 0);
            assert(spec_dels_total(hm.take(0)) == 0);
        }
        while i < hunks.len()
            invariant
                i <= hunks@.len(),
                hm == hunks_view(hunks@),
                forall|k: int| 0 <= k < hm.len() ==> {
                    let h = #[trigger] hm[k];
                    0 <= h.1 <= h.4.len() && 0 <= h.3 <= h.4.len()
                },
                additions as int == spec_adds_total(hm.take(i as int)),
                deletions as int == spec_dels_total(hm.take(i as int)),
            decreases hunks.len() - i,
        {
            let h = &hunks[i];
            proof {
                assert(hm[i as int] == hunk_view(hunks@[i as int]));
                assert(hm.take(i + 1) =~= hm.take(i as int).push(hm[i as int]));
                assert(hm.take(i + 1).drop_last() =~= hm.take(i as int));
                assert(hm.take(i + 1).last() == hm[i as int]);
                assert(h.lines@.len() == hm[i as int].4.len());
            }
            let ha = h.lines.len() - h.old_lines;
            let hd = h.lines.len() - h.new_lines;
            if ha > usize::MAX - additions {
                additions = usize::MAX;
            } else {
                additions = additions + ha;
            }
            if hd > usize::MAX - deletions {
                deletions = usize::MAX;
            } else {
                deletions = deletions + hd;
            }
            i = i + 1;
        }
        proof {
            assert(hm.take(hm.len() as int) =~= hm);
        }
        FileDiff {
            path: path.to_owned(),
            status: status.to_owned(),
            additions,
            deletions,
            hunks,
            old_path: None,
        }
    }
}

/// Adjacent path order of a diff list.
pub open spec fn spec_diffs_sorted(ds: Seq<FileDiff>) -> bool {
    forall|i: int| 0 <= i < ds.len() - 1 ==> spec_chars_le(
        (#[trigger] ds[i]).path@,
        ds[i + 1].path@,
    )
}

/// Sorts file diffs by path, keeping exactly the given diffs.
fn sort_diffs(ds: Vec<FileDiff>) -> (r: Vec<FileDiff>)
    ensures
        r@.len() == ds@.len(),
        spec_diffs_sorted(r@),
        diffs_view(r@).to_multiset() == diffs_view(ds@).to_multiset(),
{
    let mut out: Vec<FileDiff> = Vec::new();
    let mut src = ds;
    let ghost orig = diffs_view(src@);
    proof {
        orig.to_multiset_ensures();
        diffs_view(out@).to_multiset_ensures();
        assert(diffs_view(out@) =~= Seq::<
            (
                Seq<char>,
                Seq<char>,
                int,
                int,
                Seq<(int, int, int, int, Seq<(Seq<char>, Seq<char>, Option<int>, Option<int>)>)>,
                Option<Seq<char>>,
            ),
        >::empty());
        assert(diffs_view(out@).to_multiset().add(diffs_view(src@).to_multiset())
            =~= orig.to_multiset());
    }
    while src.len() > 0
        invariant
            out@.len() + src@.len() == orig.len(),
            spec_diffs_sorted(out@),
            diffs_view(out@).to_multiset().add(diffs_view(src@).to_multiset())
                == orig.to_multiset(),
        decreases src.len(),
    {
        let ghost before = out@;
        let ghost sbefore = diffs_view(src@);
        let x = src.remove(0);
        let ghost xv = file_diff_view(x);
        proof {
            assert(diffs_view(src@) =~= sbefore.drop_first());
            assert(sbefore =~= seq![xv] + sbefore.drop_first());
            vstd::seq_lib::lemma_multiset_commutative(seq![xv], sbefore.drop_first());
            assert(seq![xv] =~= Seq::<
                (
                    Seq<char>,
                    Seq<char>,
                    int,
                    int,
                    Seq<
                        (int, int, int, int, Seq<(Seq<char>, Seq<char>, Option<int>, Option<int>)>),
                    >,
                    Option<Seq<char>>,
                ),
            >::empty().push(xv));
            Seq::<
                (
                    Seq<char>,
                    Seq<char>,
                    int,
                    int,
                    Seq<
                        (int, int, int, int, Seq<(Seq<char>, Seq<char>, Option<int>, Option<int>)>),
                    >,
                    Option<Seq<char>>,
                ),
            >::empty().to_multiset_ensures();
        }
        let mut j: usize = 0;
        while j < out.len() && crate::text::chars_le(out[j].path.as_str(), x.path.as_str())
            invariant
                j <= out@.len(),
                before == out@,
                forall|k: int| 0 <= k < j ==> spec_chars_le((#[trigger] before[k]).path@, x.path@),
            decreases out.len() - j,
        {
            j = j + 1;
        }
        proof {
            if j < out@.len() {
                crate::text::lemma_chars_le_total(before[j as int].path@, x.path@);
            }
        }
        let ghost xp = x.path@;
        out.insert(j, x);
        proof {
            assert(out@ =~= before.insert(j as int, out@[j as int]));
            assert(file_diff_view(out@[j as int]) == xv);
            let t = out@;
            assert forall|k: int| 0 <= k < t.len() - 1 implies spec_chars_le(
                (#[trigger] t[k]).path@,
                t[k + 1].path@,
            ) by {
                if k < j - 1 {
                    assert(t[k] == before[k] && t[k + 1] == before[k + 1]);
                } else if k == j - 1 {
                    assert(t[k] == before[k]);
                    assert(t[k + 1].path@ == xp);
                } else if k == j {
                    assert(t[k].path@ == xp && t[k + 1] == before[k]);
                } else {
                    assert(t[k] == before[k - 1] && t[k + 1] == before[k]);
                }
            }
            assert(diffs_view(out@) =~= diffs_view(before).insert(j as int, xv));
            lemma_insert_multiset_view(diffs_view(before), xv, j as int);
            diffs_view(before).to_multiset_ensures();
        }
    }
    proof {
        diffs_view(src@).to_multiset_ensures();
        assert(diffs_view(src@) =~= Seq::<
            (
                Seq<char>,
                Seq<char>,
                int,
                int,
                Seq<(int, int, int, int, Seq<(Seq<char>, Seq<char>, Option<int>, Option<int>)>)>,
                Option<Seq<char>>,
            ),
        >::empty());
    }
    out
}

/// Inserting adds one element to a view multiset.
proof fn lemma_insert_multiset_view(
    es: Seq<
        (
            Seq<char>,
            Seq<char>,
            int,
            int,
            Seq<(int, int, int, int, Seq<(Seq<char>, Seq<char>, Option<int>, Option<int>)>)>,
            Option<Seq<char>>,
        ),
    >,
    x: (
        Seq<char>,
        Seq<char>,
        int,
        int,
        Seq<(int, int, int, int, Seq<(Seq<char>, Seq<char>, Option<int>, Option<int>)>)>,
        Option<Seq<char>>,
    ),
    j: int,
)
    requires
        0 <= j <= es.len(),
    ensures
        es.insert(j, x).to_multiset() == es.push(x).to_multiset(),
{
    assert(es.insert(j, x) =~= es.take(j) + seq![x] + es.skip(j));
    assert(es.push(x) =~= es.take(j) + es.skip(j) + seq![x]);
    vstd::seq_lib::lemma_multiset_commutative(es.take(j) + seq![x], es.skip(j));
    vstd::seq_lib::lemma_multiset_commutative(es.take(j), seq![x]);
    vstd::seq_lib::lemma_multiset_commutative(es.take(j) + es.skip(j), seq![x]);
    vstd::seq_lib::lemma_multiset_commutative(es.take(j), es.skip(j));
}

/// The `(name, hex id, is subtree)` model of a stored tree object.
pub open spec fn spec_entry_list(raw: Seq<u8>) -> Seq<(Seq<char>, Seq<char>, bool)> {
    spec_tree_models(raw).map(
        |i: int, m: TreeEntryRaw|
            (
                crate::text::chars_of_bytes(m.name),
                crate::text::chars_of_bytes(crate::hex::hex_of(m.oid20)),
                crate::tree::spec_is_tree_mode(crate::text::chars_of_bytes(m.mode)),
            ),
    )
}

/// The model of an entry-list vector.
pub open spec fn entries_model(es: Seq<(String, String, bool)>) -> Seq<(Seq<char>, Seq<char>, bool)> {
    es.map(|i: int, e: (String, String, bool)| (e.0@, e.1@, e.2))
}

/// Lists the `(name, hex id, is subtree)` entries of a stored tree.
fn tree_entry_list(data: &[u8]) -> (r: Vec<(String, String, bool)>)
    ensures
        entries_model(r@) == spec_entry_list(data@),
{
    let ghost models = spec_tree_models(data@);
    let content = match crate::commit::object_payload(data) {
        Some(c) => c,
        None => {
            let empty: Vec<(String, String, bool)> = Vec::new();
            proof {
                assert(models =~= Seq::<TreeEntryRaw>::empty());
                assert(entries_model(empty@) =~= spec_entry_list(data@));
            }
            return empty;
        },
    };
    let entries = parse_tree_entries(content.as_slice());
    proof {
        assert(models == spec_tree_entries(content@, 0));
    }
    let mut out: Vec<(String, String, bool)> = Vec::new();
    let mut i: usize = 0;
    proof {
        assert(entries_model(out@) =~= spec_entry_list(data@).take(0));
    }
    while i < entries.len()
        invariant
            i <= entries@.len(),
            entries@.len() == models.len(),
            models == spec_tree_models(data@),
            forall|k: int| 0 <= k < models.len() ==> {
                &&& (#[trigger] entries@[k]).0@ == crate::text::chars_of_bytes(models[k].mode)
                &&& entries@[k].1@ == crate::text::chars_of_bytes(
                    crate::hex::hex_of(models[k].oid20),
                )
                &&& entries@[k].2@ == crate::text::chars_of_bytes(models[k].name)
            },
            entries_model(out@) == spec_entry_list(data@).take(i as int),
        decreases entries.len() - i,
    {
        let ghost before = entries_model(out@);
        let is_tree = str_eq(entries[i].0.as_str(), "40000") || str_eq(
            entries[i].0.as_str(),
            "040000",
        );
        proof {
            assert(is_tree == crate::tree::spec_is_tree_mode(
                crate::text::chars_of_bytes(models[i as int].mode),
            ));
            assert(spec_entry_list(data@).take(i + 1) =~= spec_entry_list(data@).take(
                i as int,
            ).push(spec_entry_list(data@)[i as int]));
        }
        out.push((clone_str(&entries[i].2), clone_str(&entries[i].1), is_tree));
        proof {
            assert(entries_model(out@) =~= before.push(spec_entry_list(data@)[i as int]));
        }
        i = i + 1;
    }
    proof {
        assert(spec_entry_list(data@).take(spec_entry_list(data@).len() as int) =~= spec_entry_list(
            data@,
        ));
    }
    out
}

/// The id and kind of the first entry with the given name.
pub open spec fn spec_lookup_entry(
    es: Seq<(Seq<char>, Seq<char>, bool)>,
    name: Seq<char>,
) -> Option<(Seq<char>, bool)>
    decreases es.len(),
{
    if es.len() == 0 {
        None
    } else if es[0].0 == name {
        Some((es[0].1, es[0].2))
    } else {
        spec_lookup_entry(es.drop_first(), name)
    }
}

/// Finds an entry by name.
fn lookup_entry(entries: &Vec<(String, String, bool)>, name: &str) -> (r: Option<(String, bool)>)
    ensures
        match spec_lookup_entry(entries_model(entries@), name@) {
            None => r is None,
            Some((oid, t)) => r matches Some(p) && p.0@ == oid && p.1 == t,
        },
{
    let ghost model = entries_model(entries@);
    let mut i: usize = 0;
    proof {
        assert(model.skip(0) =~= model);
    }
    while i < entries.len()
        invariant
            i <= entries@.len(),
            model == entries_model(entries@),
            spec_lookup_entry(model, name@) == spec_lookup_entry(model.skip(i as int), name@),
        decreases entries.len() - i,
    {
        let ghost tail = model.skip(i as int);
        proof {
            assert(tail[0] == model[i as int]);
            assert(tail.drop_first() =~= model.skip(i + 1));
        }
        if str_eq(entries[i].0.as_str(), name) {
            return Some((clone_str(&entries[i].1), entries[i].2));
        }
        i = i + 1;
    }
    proof {
        assert(model.skip(model.len() as int) =~= Seq::<(Seq<char>, Seq<char>, bool)>::empty());
    }
    None
}

/// A base path and a name joined with a slash; an empty base vanishes.
pub open spec fn spec_join_path(base: Seq<char>, name: Seq<char>) -> Seq<char> {
    if base.len() == 0 {
        name
    } else {
        base + "/"@ + name
    }
}

/// Joins a base path and a name with a slash.
fn join_path(base: &str, name: &str) -> (r: String)
    ensures
        r@ == spec_join_path(base@, name@),
{
    if base.unicode_len() == 0 {
        return name.to_owned();
    }
    let mut p = base.to_owned();
    p.append("/");
    p.append(name);
    p
}

/// The last slash-separated segment of a path: what follows the last
/// slash byte, or the whole path without one.
pub open spec fn spec_last_segment(path: Seq<char>) -> Seq<char> {
    let b = vstd::utf8::encode_utf8(path);
    match crate::commit::spec_rfind_byte(b, 47, b.len() as int) {
        None => path,
        Some(p) => crate::text::chars_of_bytes(b.skip(p + 1)),
    }
}

/// The last slash-separated segment of a path.
fn last_segment(path: &str) -> (r: String)
    ensures
        r@ == spec_last_segment(path@),
{
    let b = path.as_bytes();
    match crate::commit::rfind_byte_pub(b, 47) {
        Some(p) => {
            let n = b.len();
            let seg = crate::bytes::copy_range(b, p + 1, n);
            proof {
                assert(seg@ =~= vstd::utf8::encode_utf8(path@).skip(p + 1));
            }
            string_of_bytes_or_empty(seg.as_slice())
        },
        None => path.to_owned(),
    }
}

/// What one pass over the new side of a tree pair produces, from entry
/// `ei` on: file diffs for added and modified blobs, and the subtree
/// pairs pushed for later walking, both in entry order.
pub open spec fn spec_phase_new(
    s: Seq<(Seq<u8>, Seq<u8>)>,
    prefix: Seq<u8>,
    ne: Seq<(Seq<char>, Seq<char>, bool)>,
    oe: Seq<(Seq<char>, Seq<char>, bool)>,
    path: Seq<char>,
    ei: int,
) -> (
    Seq<
        (
            Seq<char>,
            Seq<char>,
            int,
            int,
            Seq<(int, int, int, int, Seq<(Seq<char>, Seq<char>, Option<int>, Option<int>)>)>,
            Option<Seq<char>>,
        ),
    >,
    Seq<(Option<Seq<u8>>, Seq<u8>, Seq<char>)>,
)
    decreases ne.len() - ei,
{
    if ei < 0 || ei >= ne.len() {
        (Seq::empty(), Seq::empty())
    } else {
        let e = ne[ei];
        let rest = spec_phase_new(s, prefix, ne, oe, path, ei + 1);
        let p2 = spec_join_path(path, e.0);
        match spec_lookup_entry(oe, e.0) {
            Some((ooid, otree)) => if e.1 == ooid {
                rest
            } else if e.2 && otree {
                (
                    rest.0,
                    seq![
                        (
                            Some(vstd::utf8::encode_utf8(ooid)),
                            vstd::utf8::encode_utf8(e.1),
                            p2,
                        ),
                    ] + rest.1,
                )
            } else if !e.2 && !otree {
                (
                    seq![
                        spec_file_diff(
                            s,
                            prefix,
                            Some(vstd::utf8::encode_utf8(ooid)),
                            vstd::utf8::encode_utf8(e.1),
                            p2,
                            "modified"@,
                        ),
                    ] + rest.0,
                    rest.1,
                )
            } else if !e.2 && otree {
                (
                    seq![
                        spec_file_diff(
                            s,
                            prefix,
                            None,
                            vstd::utf8::encode_utf8(e.1),
                            p2,
                            "added"@,
                        ),
                    ] + rest.0,
                    rest.1,
                )
            } else {
                (rest.0, seq![(None, vstd::utf8::encode_utf8(e.1), p2)] + rest.1)
            },
            None => if e.2 {
                (rest.0, seq![(None, vstd::utf8::encode_utf8(e.1), p2)] + rest.1)
            } else {
                (
                    seq![
                        spec_file_diff(
                            s,
                            prefix,
                            None,
                            vstd::utf8::encode_utf8(e.1),
                            p2,
                            "added"@,
                        ),
                    ] + rest.0,
                    rest.1,
                )
            },
        }
    }
}

/// The blob leaves under a stack of trees, each with its path, within a
/// step budget: subtrees are walked last-pushed first.
pub open spec fn spec_collect_blobs(
    s: Seq<(Seq<u8>, Seq<u8>)>,
    prefix: Seq<u8>,
    stack: Seq<(Seq<u8>, Seq<char>)>,
    fuel: nat,
) -> Seq<(Seq<char>, Seq<char>)>
    decreases fuel,
{
    if fuel == 0 || stack.len() == 0 {
        Seq::empty()
    } else {
        let (cur, path) = stack.last();
        let rest = stack.drop_last();
        match spec_get_object_plain(s, prefix, cur) {
            None => spec_collect_blobs(s, prefix, rest, (fuel - 1) as nat),
            Some(raw) => {
                let fold = spec_blob_fold(spec_entry_list(raw), path, 0);
                fold.0 + spec_collect_blobs(s, prefix, rest + fold.1, (fuel - 1) as nat)
            },
        }
    }
}

/// One tree's contribution to the blob walk: its blob entries in order,
/// and its subtree entries as further stack items.
pub open spec fn spec_blob_fold(
    es: Seq<(Seq<char>, Seq<char>, bool)>,
    path: Seq<char>,
    i: int,
) -> (Seq<(Seq<char>, Seq<char>)>, Seq<(Seq<u8>, Seq<char>)>)
    decreases es.len() - i,
{
    if i < 0 || i >= es.len() {
        (Seq::empty(), Seq::empty())
    } else {
        let e = es[i];
        let rest = spec_blob_fold(es, path, i + 1);
        let p2 = spec_join_path(path, e.0);
        if e.2 {
            (rest.0, seq![(vstd::utf8::encode_utf8(e.1), p2)] + rest.1)
        } else {
            (seq![(p2, e.1)] + rest.0, rest.1)
        }
    }
}

/// The deleted-file diffs of a blob list.
pub open spec fn spec_deleted_diffs(
    s: Seq<(Seq<u8>, Seq<u8>)>,
    prefix: Seq<u8>,
    blobs: Seq<(Seq<char>, Seq<char>)>,
    i: int,
) -> Seq<
    (
        Seq<char>,
        Seq<char>,
        int,
        int,
        Seq<(int, int, int, int, Seq<(Seq<char>, Seq<char>, Option<int>, Option<int>)>)>,
        Option<Seq<char>>,
    ),
>
    decreases blobs.len() - i,
{
    if i < 0 || i >= blobs.len() {
        Seq::empty()
    } else {
        seq![
            spec_file_diff(
                s,
                prefix,
                Some(vstd::utf8::encode_utf8(blobs[i].1)),
                Seq::empty(),
                blobs[i].0,
                "deleted"@,
            ),
        ] + spec_deleted_diffs(s, prefix, blobs, i + 1)
    }
}

/// What one pass over the old side produces, from entry `oi` on: deleted
/// diffs for entries absent from the new side, a removed subtree giving
/// one per blob under it.
pub open spec fn spec_phase_old(
    s: Seq<(Seq<u8>, Seq<u8>)>,
    prefix: Seq<u8>,
    ne: Seq<(Seq<char>, Seq<char>, bool)>,
    oe: Seq<(Seq<char>, Seq<char>, bool)>,
    path: Seq<char>,
    oi: int,
    fuel: nat,
) -> Seq<
    (
        Seq<char>,
        Seq<char>,
        int,
        int,
        Seq<(int, int, int, int, Seq<(Seq<char>, Seq<char>, Option<int>, Option<int>)>)>,
        Option<Seq<char>>,
    ),
>
    decreases oe.len() - oi,
{
    if oi < 0 || oi >= oe.len() {
        Seq::empty()
    } else {
        let e = oe[oi];
        let rest = spec_phase_old(s, prefix, ne, oe, path, oi + 1, fuel);
        if spec_lookup_entry(ne, e.0) is Some {
            rest
        } else {
            let p2 = spec_join_path(path, e.0);
            if e.2 {
                let blobs = spec_collect_blobs(
                    s,
                    prefix,
                    seq![(vstd::utf8::encode_utf8(e.1), p2)],
                    fuel,
                );
                spec_deleted_diffs(s, prefix, blobs, 0) + rest
            } else {
                seq![
                    spec_file_diff(
                        s,
                        prefix,
                        Some(vstd::utf8::encode_utf8(e.1)),
                        Seq::empty(),
                        p2,
                        "deleted"@,
                    ),
                ] + rest
            }
        }
    }
}

/// The diffs of the tree pairs on the stack, newest pair first, within a
/// step budget: each pair contributes its new-side additions and
/// modifications, then its old-side deletions, then its subtree pairs.
pub open spec fn spec_compare(
    s: Seq<(Seq<u8>, Seq<u8>)>,
    prefix: Seq<u8>,
    stack: Seq<(Option<Seq<u8>>, Seq<u8>, Seq<char>)>,
    fuel: nat,
) -> Seq<
    (
        Seq<char>,
        Seq<char>,
        int,
        int,
        Seq<(int, int, int, int, Seq<(Seq<char>, Seq<char>, Option<int>, Option<int>)>)>,
        Option<Seq<char>>,
    ),
>
    decreases fuel,
{
    if fuel == 0 || stack.len() == 0 {
        Seq::empty()
    } else {
        let (old_opt, new_oid, path) = stack.last();
        let rest = stack.drop_last();
        match spec_get_object_plain(s, prefix, new_oid) {
            None => spec_compare(s, prefix, rest, (fuel - 1) as nat),
            Some(raw) => {
                let ne = spec_entry_list(raw);
                let oe: Seq<(Seq<char>, Seq<char>, bool)> = match old_opt {
                    Some(oo) => match spec_get_object_plain(s, prefix, oo) {
                        Some(r2) => spec_entry_list(r2),
                        None => Seq::empty(),
                    },
                    None => Seq::empty(),
                };
                let p1 = spec_phase_new(s, prefix, ne, oe, path, 0);
                let d2 = spec_phase_old(s, prefix, ne, oe, path, 0, fuel);
                p1.0 + d2 + spec_compare(s, prefix, rest + p1.1, (fuel - 1) as nat)
            },
        }
    }
}

/// The model of the walk stack.
pub open spec fn stack_model(st: Seq<(Option<Vec<u8>>, Vec<u8>, String)>) -> Seq<
    (Option<Seq<u8>>, Seq<u8>, Seq<char>),
> {
    st.map(
        |i: int, e: (Option<Vec<u8>>, Vec<u8>, String)|
            (
                match e.0 {
                    Some(v) => Some(v@),
                    None => None,
                },
                e.1@,
                e.2@,
            ),
    )
}

/// The model of the blob-walk stack.
pub open spec fn bstack_model(st: Seq<(Vec<u8>, String)>) -> Seq<(Seq<u8>, Seq<char>)> {
    st.map(|i: int, e: (Vec<u8>, String)| (e.0@, e.1@))
}

/// The model of a blob list.
pub open spec fn blobs_model(bs: Seq<(String, String)>) -> Seq<(Seq<char>, Seq<char>)> {
    bs.map(|i: int, b: (String, String)| (b.0@, b.1@))
}

/// An empty diff list.
pub open spec fn no_diffs() -> Seq<
    (
        Seq<char>,
        Seq<char>,
        int,
        int,
        Seq<(int, int, int, int, Seq<(Seq<char>, Seq<char>, Option<int>, Option<int>)>)>,
        Option<Seq<char>>,
    ),
> {
    Seq::empty()
}

/// An empty walk stack.
pub open spec fn no_stack() -> Seq<(Option<Seq<u8>>, Seq<u8>, Seq<char>)> {
    Seq::empty()
}

/// An empty blob-walk stack.
pub open spec fn no_bstack() -> Seq<(Seq<u8>, Seq<char>)> {
    Seq::empty()
}

/// An empty blob list.
pub open spec fn no_blobs() -> Seq<(Seq<char>, Seq<char>)> {
    Seq::empty()
}

/// One step of emitting a known suffix: pushing its head onto the
/// output keeps the base prefix and shortens the suffix.
proof fn lemma_suffix_step<A>(full: Seq<A>, base: Seq<A>, cur: Seq<A>, h: A, rest: Seq<A>)
    requires
        base.len() <= cur.len(),
        cur.take(base.len() as int) == base,
        full == cur.skip(base.len() as int) + (seq![h] + rest),
    ensures
        cur.push(h).take(base.len() as int) == base,
        full == cur.push(h).skip(base.len() as int) + rest,
        base.len() <= cur.push(h).len(),
{
    assert(cur.push(h).take(base.len() as int) =~= base);
    assert(cur.push(h).skip(base.len() as int) =~= cur.skip(base.len() as int).push(h));
    assert(cur.skip(base.len() as int) + (seq![h] + rest) =~= cur.skip(
        base.len() as int,
    ).push(h) + rest);
}

impl R2GitStore {
    /// Compares two trees recursively: entries present only on the new
    /// side are added, differing blobs are modified, entries only on the
    /// old side are deleted (a removed subtree deletes every blob under
    /// it); the result holds exactly those diffs, ordered by path.  The
    /// walk visits at most `fuel` trees.
    #[verifier::rlimit(100)]
    #[verifier::spinoff_prover]
    pub fn compare_trees(
        &self,
        old_tree_oid: Option<&Vec<u8>>,
        new_tree_oid: &[u8],
        base_path: &str,
        fuel: usize,
    ) -> (r: Vec<FileDiff>)
        ensures
            spec_diffs_sorted(r@),
            diffs_view(r@).to_multiset() == spec_compare(
                self.store@,
                self.prefix@,
                seq![
                    (
                        match old_tree_oid {
                            Some(o) => Some(o@),
                            None => None,
                        },
                        new_tree_oid@,
                        base_path@,
                    ),
                ],
                fuel as nat,
            ).to_multiset(),
    {
        let mut diffs: Vec<FileDiff> = Vec::new();
        let mut stack: Vec<(Option<Vec<u8>>, Vec<u8>, String)> = Vec::new();
        let o0: Option<Vec<u8>> = match old_tree_oid {
            Some(v) => Some(copy_range(v.as_slice(), 0, v.len())),
            None => None,
        };
        stack.push((o0, copy_range(new_tree_oid, 0, new_tree_oid.len()), base_path.to_owned()));
        let ghost stack0 = stack_model(stack@);
        proof {
            assert(new_tree_oid@.subrange(0, new_tree_oid@.len() as int) =~= new_tree_oid@);
            match old_tree_oid {
                Some(v) => {
                    assert(v@.subrange(0, v@.len() as int) =~= v@);
                },
                None => {},
            }
            assert(stack0 =~= seq![
                (
                    match old_tree_oid {
                        Some(o) => Some(o@),
                        None => Option::<Seq<u8>>::None,
                    },
                    new_tree_oid@,
                    base_path@,
                ),
            ]);
            assert(diffs_view(diffs@) =~= no_diffs());
            assert(no_diffs() + spec_compare(self.store@, self.prefix@, stack0, fuel as nat)
                =~= spec_compare(self.store@, self.prefix@, stack0, fuel as nat));
        }
        let mut steps: usize = 0;
        while stack.len() > 0 && steps < fuel
            invariant
                steps <= fuel,
                spec_compare(self.store@, self.prefix@, stack0, fuel as nat) == diffs_view(diffs@)
                    + spec_compare(
                    self.store@,
                    self.prefix@,
                    stack_model(stack@),
                    (fuel - steps) as nat,
                ),
            decreases fuel - steps,
        {
            let ghost dv0 = diffs_view(diffs@);
            let ghost sm0 = stack_model(stack@);
            let ghost frem: nat = (fuel - steps) as nat;
            let fuel_left = fuel - steps;
            steps = steps + 1;
            let (old_opt, new_oid, cur_path) = stack.pop().unwrap();
            let ghost top = sm0.last();
            proof {
                assert(stack_model(stack@) =~= sm0.drop_last());
                assert(top.1 == new_oid@ && top.2 == cur_path@);
                assert(top.0 == (match old_opt {
                    Some(ref v) => Some(v@),
                    None => Option::<Seq<u8>>::None,
                }));
            }
            let new_entries = match self.get_object_plain(new_oid.as_slice()) {
                Some(data) => tree_entry_list(data.as_slice()),
                None => {
                    proof {
                        assert(spec_compare(self.store@, self.prefix@, sm0, frem) == spec_compare(
                            self.store@, self.prefix@, sm0.drop_last(), (frem - 1) as nat));
                    }
                    continue ;
                },
            };
            let old_entries: Vec<(String, String, bool)> = match &old_opt {
                Some(oo) => match self.get_object_plain(oo.as_slice()) {
                    Some(data) => tree_entry_list(data.as_slice()),
                    None => Vec::new(),
                },
                None => Vec::new(),
            };
            let ghost ne = entries_model(new_entries@);
            let ghost oe = entries_model(old_entries@);
            proof {
                assert(oe =~= (match top.0 {
                    Some(oo) => match spec_get_object_plain(self.store@, self.prefix@, oo) {
                        Some(r2) => spec_entry_list(r2),
                        None => Seq::<(Seq<char>, Seq<char>, bool)>::empty(),
                    },
                    None => Seq::<(Seq<char>, Seq<char>, bool)>::empty(),
                }));
            }
            let ghost p1 = spec_phase_new(self.store@, self.prefix@, ne, oe, top.2, 0);
            let ghost d2 = spec_phase_old(self.store@, self.prefix@, ne, oe, top.2, 0, frem);
            let ghost dbase = diffs_view(diffs@);
            let ghost sbase = stack_model(stack@);
            proof {
                assert(dbase.take(dbase.len() as int) =~= dbase);
                assert(sbase.take(sbase.len() as int) =~= sbase);
                assert(dbase.skip(dbase.len() as int) =~= no_diffs());
                assert(sbase.skip(sbase.len() as int) =~= no_stack());
                assert(p1.0 =~= dbase.skip(dbase.len() as int) + p1.0);
                assert(p1.1 =~= sbase.skip(sbase.len() as int) + p1.1);
            }
            let mut ei: usize = 0;
            while ei < new_entries.len()
                invariant
                    ei <= new_entries@.len(),
                    ne == entries_model(new_entries@),
                    oe == entries_model(old_entries@),
                    cur_path@ == top.2,
                    p1 == spec_phase_new(self.store@, self.prefix@, ne, oe, top.2, 0),
                    dbase.len() <= diffs_view(diffs@).len(),
                    sbase.len() <= stack_model(stack@).len(),
                    diffs_view(diffs@).take(dbase.len() as int) == dbase,
                    stack_model(stack@).take(sbase.len() as int) == sbase,
                    p1.0 == diffs_view(diffs@).skip(dbase.len() as int) + spec_phase_new(
                        self.store@,
                        self.prefix@,
                        ne,
                        oe,
                        top.2,
                        ei as int,
                    ).0,
                    p1.1 == stack_model(stack@).skip(sbase.len() as int) + spec_phase_new(
                        self.store@,
                        self.prefix@,
                        ne,
                        oe,
                        top.2,
                        ei as int,
                    ).1,
                decreases new_entries.len() - ei,
            {
                let ghost dmid = diffs_view(diffs@);
                let ghost smid = stack_model(stack@);
                let ghost tailp = spec_phase_new(self.store@, self.prefix@, ne, oe, top.2,
                    ei as int);
                let ghost nextp = spec_phase_new(self.store@, self.prefix@, ne, oe, top.2,
                    ei + 1);
                let (name, oid, is_tree) = (
                    &new_entries[ei].0,
                    &new_entries[ei].1,
                    new_entries[ei].2,
                );
                proof {
                    assert(ne[ei as int] == (name@, oid@, is_tree));
                }
                let path = join_path(cur_path.as_str(), name.as_str());
                match lookup_entry(&old_entries, name.as_str()) {
                    Some((old_oid, old_is_tree)) => {
                        if !str_eq(oid.as_str(), old_oid.as_str()) {
                            if is_tree && old_is_tree {
                                let ob = old_oid.as_str().as_bytes_vec();
                                let nb = oid.as_str().as_bytes_vec();
                                let ghost item: (Option<Seq<u8>>, Seq<u8>, Seq<char>) = (
                                    Some(ob@),
                                    nb@,
                                    path@,
                                );
                                stack.push((Some(ob), nb, path));
                                proof {
                                    assert(tailp.1 == seq![item] + nextp.1);
                                    assert(stack_model(stack@) =~= smid.push(item));
                                    lemma_suffix_step(p1.1, sbase, smid, item, nextp.1);
                                    assert(tailp.0 == nextp.0);
                                }
                            } else if !is_tree && !old_is_tree {
                                let ob = old_oid.as_str().as_bytes_vec();
                                let d = self.diff_blobs(
                                    Some(&ob),
                                    oid.as_str().as_bytes(),
                                    path.as_str(),
                                    "modified",
                                );
                                let ghost dv = file_diff_view(d);
                                diffs.push(d);
                                proof {
                                    assert(tailp.0 == seq![dv] + nextp.0);
                                    assert(diffs_view(diffs@) =~= dmid.push(dv));
                                    lemma_suffix_step(p1.0, dbase, dmid, dv, nextp.0);
                                    assert(tailp.1 == nextp.1);
                                }
                            } else if !is_tree && old_is_tree {
                                let d = self.diff_blobs(
                                    None,
                                    oid.as_str().as_bytes(),
                                    path.as_str(),
                                    "added",
                                );
                                let ghost dv = file_diff_view(d);
                                diffs.push(d);
                                proof {
                                    assert(tailp.0 == seq![dv] + nextp.0);
                                    assert(diffs_view(diffs@) =~= dmid.push(dv));
                                    lemma_suffix_step(p1.0, dbase, dmid, dv, nextp.0);
                                    assert(tailp.1 == nextp.1);
                                }
                            } else {
                                let nb = oid.as_str().as_bytes_vec();
                                let ghost item: (Option<Seq<u8>>, Seq<u8>, Seq<char>) = (
                                    None,
                                    nb@,
                                    path@,
                                );
                                stack.push((None, nb, path));
                                proof {
                                    assert(tailp.1 == seq![item] + nextp.1);
                                    assert(stack_model(stack@) =~= smid.push(item));
                                    lemma_suffix_step(p1.1, sbase, smid, item, nextp.1);
                                    assert(tailp.0 == nextp.0);
                                }
                            }
                        } else {
                            proof {
                                assert(tailp == nextp);
                            }
                        }
                    },
                    None => {
                        if is_tree {
                            let nb = oid.as_str().as_bytes_vec();
                            let ghost item: (Option<Seq<u8>>, Seq<u8>, Seq<char>) = (
                                None,
                                nb@,
                                path@,
                            );
                            stack.push((None, nb, path));
                            proof {
                                assert(tailp.1 == seq![item] + nextp.1);
                                assert(stack_model(stack@) =~= smid.push(item));
                                lemma_suffix_step(p1.1, sbase, smid, item, nextp.1);
                                assert(tailp.0 == nextp.0);
                            }
                        } else {
                            let d = self.diff_blobs(
                                None,
                                oid.as_str().as_bytes(),
                                path.as_str(),
                                "added",
                            );
                            let ghost dv = file_diff_view(d);
                            diffs.push(d);
                            proof {
                                assert(tailp.0 == seq![dv] + nextp.0);
                                assert(diffs_view(diffs@) =~= dmid.push(dv));
                                lemma_suffix_step(p1.0, dbase, dmid, dv, nextp.0);
                                assert(tailp.1 == nextp.1);
                            }
                        }
                    },
                }
                ei = ei + 1;
            }
            proof {
                assert(spec_phase_new(self.store@, self.prefix@, ne, oe, top.2,
                    ne.len() as int).0 =~= no_diffs());
                assert(spec_phase_new(self.store@, self.prefix@, ne, oe, top.2,
                    ne.len() as int).1 =~= no_stack());
                assert(p1.0 + no_diffs() =~= p1.0);
                assert(p1.0 =~= diffs_view(diffs@).skip(dbase.len() as int));
                assert(p1.1 =~= stack_model(stack@).skip(sbase.len() as int));
                assert(diffs_view(diffs@) =~= dbase + p1.0);
                assert(stack_model(stack@) =~= sbase + p1.1);
            }
            // Old-side pass: deletions.
            let ghost dmark = diffs_view(diffs@);
            proof {
                assert(dmark.take(dmark.len() as int) =~= dmark);
                assert(dmark.skip(dmark.len() as int) =~= no_diffs());
                assert(d2 =~= dmark.skip(dmark.len() as int) + d2);
            }
            let mut oi: usize = 0;
            while oi < old_entries.len()
                invariant
                    oi <= old_entries@.len(),
                    ne == entries_model(new_entries@),
                    oe == entries_model(old_entries@),
                    cur_path@ == top.2,
                    steps <= fuel,
                    fuel_left == fuel - steps + 1,
                    frem == fuel_left as nat,
                    frem >= 1,
                    d2 == spec_phase_old(self.store@, self.prefix@, ne, oe, top.2, 0, frem),
                    dmark.len() <= diffs_view(diffs@).len(),
                    diffs_view(diffs@).take(dmark.len() as int) == dmark,
                    d2 == diffs_view(diffs@).skip(dmark.len() as int) + spec_phase_old(
                        self.store@,
                        self.prefix@,
                        ne,
                        oe,
                        top.2,
                        oi as int,
                        frem,
                    ),
                decreases old_entries.len() - oi,
            {
                let ghost dmid = diffs_view(diffs@);
                let ghost tailo = spec_phase_old(self.store@, self.prefix@, ne, oe, top.2,
                    oi as int, frem);
                let ghost nexto = spec_phase_old(self.store@, self.prefix@, ne, oe, top.2, oi + 1,
                    frem);
                let (name, old_oid, old_is_tree) = (
                    &old_entries[oi].0,
                    &old_entries[oi].1,
                    old_entries[oi].2,
                );
                proof {
                    assert(oe[oi as int] == (name@, old_oid@, old_is_tree));
                }
                if lookup_entry(&new_entries, name.as_str()).is_none() {
                    let path = join_path(cur_path.as_str(), name.as_str());
                    if old_is_tree {
                        let blobs = self.collect_all_blobs_in_tree(
                            old_oid.as_str().as_bytes(),
                            path.as_str(),
                            fuel_left,
                        );
                        let ghost gblobs = blobs_model(blobs@);
                        proof {
                            assert(gblobs == spec_collect_blobs(self.store@, self.prefix@, seq![
                                (vstd::utf8::encode_utf8(old_oid@), path@),
                            ], frem));
                            assert(tailo == spec_deleted_diffs(self.store@, self.prefix@, gblobs,
                                0) + nexto);
                        }
                        let mut bi: usize = 0;
                        proof {
                            assert(spec_deleted_diffs(self.store@, self.prefix@, gblobs, 0)
                                + nexto =~= spec_deleted_diffs(self.store@, self.prefix@, gblobs,
                                0) + nexto);
                        }
                        while bi < blobs.len()
                            invariant
                                bi <= blobs@.len(),
                                gblobs == blobs_model(blobs@),
                                dmark.len() <= diffs_view(diffs@).len(),
                                diffs_view(diffs@).take(dmark.len() as int) == dmark,
                                d2 == diffs_view(diffs@).skip(dmark.len() as int)
                                    + (spec_deleted_diffs(self.store@, self.prefix@, gblobs,
                                    bi as int) + nexto),
                            decreases blobs.len() - bi,
                        {
                            let ghost dmid2 = diffs_view(diffs@);
                            let ghost taild = spec_deleted_diffs(self.store@, self.prefix@,
                                gblobs, bi as int);
                            let ghost nextd = spec_deleted_diffs(self.store@, self.prefix@,
                                gblobs, bi + 1);
                            proof {
                                assert(gblobs[bi as int] == (blobs@[bi as int].0@,
                                    blobs@[bi as int].1@));
                            }
                            let ob = blobs[bi].1.as_str().as_bytes_vec();
                            let e: Vec<u8> = Vec::new();
                            let d = self.diff_blobs(
                                Some(&ob),
                                e.as_slice(),
                                blobs[bi].0.as_str(),
                                "deleted",
                            );
                            let ghost dv = file_diff_view(d);
                            diffs.push(d);
                            proof {
                                assert(e@ =~= Seq::<u8>::empty());
                                assert(taild == seq![dv] + nextd);
                                assert(diffs_view(diffs@) =~= dmid2.push(dv));
                                assert(taild + nexto =~= seq![dv] + (nextd + nexto));
                                lemma_suffix_step(d2, dmark, dmid2, dv, nextd + nexto);
                            }
                            bi = bi + 1;
                        }
                        proof {
                            assert(spec_deleted_diffs(self.store@, self.prefix@, gblobs,
                                gblobs.len() as int) =~= no_diffs());
                            assert(no_diffs() + nexto =~= nexto);
                        }
                    } else {
                        let ob = old_oid.as_str().as_bytes_vec();
                        let e: Vec<u8> = Vec::new();
                        let d = self.diff_blobs(Some(&ob), e.as_slice(), path.as_str(), "deleted");
                        let ghost dv = file_diff_view(d);
                        diffs.push(d);
                        proof {
                            assert(e@ =~= Seq::<u8>::empty());
                            assert(tailo == seq![dv] + nexto);
                            assert(diffs_view(diffs@) =~= dmid.push(dv));
                            lemma_suffix_step(d2, dmark, dmid, dv, nexto);
                        }
                    }
                } else {
                    proof {
                        assert(tailo == nexto);
                    }
                }
                oi = oi + 1;
            }
            proof {
                assert(spec_phase_old(self.store@, self.prefix@, ne, oe, top.2, oe.len() as int,
                    frem) =~= no_diffs());
                assert(d2 + no_diffs() =~= d2);
                assert(d2 =~= diffs_view(diffs@).skip(dmark.len() as int));
                assert(diffs_view(diffs@) =~= dmark + d2);
                assert(spec_compare(self.store@, self.prefix@, sm0, frem) == p1.0 + d2
                    + spec_compare(self.store@, self.prefix@, sm0.drop_last() + p1.1,
                    (frem - 1) as nat));
                assert(stack_model(stack@) =~= sm0.drop_last() + p1.1);
                assert(dv0 + (p1.0 + d2 + spec_compare(self.store@, self.prefix@,
                    stack_model(stack@), (frem - 1) as nat)) =~= (dv0 + p1.0 + d2)
                    + spec_compare(self.store@, self.prefix@, stack_model(stack@),
                    (frem - 1) as nat));
                assert(diffs_view(diffs@) =~= (dv0 + p1.0) + d2);
                assert(dv0 + p1.0 =~= dmark);
            }
        }
        proof {
            assert(spec_compare(self.store@, self.prefix@, stack_model(stack@),
                (fuel - steps) as nat) =~= no_diffs());
            assert(diffs_view(diffs@) + no_diffs() =~= diffs_view(diffs@));
        }
        sort_diffs(diffs)
    }

    /// Lists every blob under a tree with its path: exactly the leaves of
    /// the walk, visiting at most `fuel` trees.
    #[verifier::rlimit(100)]
    #[verifier::spinoff_prover]
    pub fn collect_all_blobs_in_tree(&self, tree_oid: &[u8], base_path: &str, fuel: usize) -> (r:
        Vec<(String, String)>)
        ensures
            blobs_model(r@) == spec_collect_blobs(
                self.store@,
                self.prefix@,
                seq![(tree_oid@, base_path@)],
                fuel as nat,
            ),
    {
        let mut blobs: Vec<(String, String)> = Vec::new();
        let mut stack: Vec<(Vec<u8>, String)> = Vec::new();
        stack.push((copy_range(tree_oid, 0, tree_oid.len()), base_path.to_owned()));
        let ghost stack0 = bstack_model(stack@);
        proof {
            assert(tree_oid@.subrange(0, tree_oid@.len() as int) =~= tree_oid@);
            assert(stack0 =~= seq![(tree_oid@, base_path@)]);
            assert(blobs_model(blobs@) =~= no_blobs());
            assert(no_blobs() + spec_collect_blobs(self.store@, self.prefix@, stack0, fuel as nat)
                =~= spec_collect_blobs(self.store@, self.prefix@, stack0, fuel as nat));
        }
        let mut steps: usize = 0;
        while stack.len() > 0 && steps < fuel
            invariant
                steps <= fuel,
                spec_collect_blobs(self.store@, self.prefix@, stack0, fuel as nat) == blobs_model(
                    blobs@,
                ) + spec_collect_blobs(
                    self.store@,
                    self.prefix@,
                    bstack_model(stack@),
                    (fuel - steps) as nat,
                ),
            decreases fuel - steps,
        {
            let ghost bv0 = blobs_model(blobs@);
            let ghost sm0 = bstack_model(stack@);
            let ghost frem: nat = (fuel - steps) as nat;
            steps = steps + 1;
            let (cur, cur_path) = stack.pop().unwrap();
            let ghost top = sm0.last();
            proof {
                assert(bstack_model(stack@) =~= sm0.drop_last());
                assert(top == (cur@, cur_path@));
            }
            let entries = match self.get_object_plain(cur.as_slice()) {
                Some(data) => tree_entry_list(data.as_slice()),
                None => {
                    proof {
                        assert(spec_collect_blobs(self.store@, self.prefix@, sm0, frem)
                            == spec_collect_blobs(self.store@, self.prefix@, sm0.drop_last(),
                            (frem - 1) as nat));
                    }
                    continue ;
                },
            };
            let ghost es = entries_model(entries@);
            let ghost fold = spec_blob_fold(es, top.1, 0);
            let ghost bbase = blobs_model(blobs@);
            let ghost sbase = bstack_model(stack@);
            proof {
                assert(bbase.take(bbase.len() as int) =~= bbase);
                assert(sbase.take(sbase.len() as int) =~= sbase);
                assert(bbase.skip(bbase.len() as int) =~= no_blobs());
                assert(sbase.skip(sbase.len() as int) =~= no_bstack());
                assert(fold.0 =~= bbase.skip(bbase.len() as int) + fold.0);
                assert(fold.1 =~= sbase.skip(sbase.len() as int) + fold.1);
            }
            let mut i: usize = 0;
            while i < entries.len()
                invariant
                    i <= entries@.len(),
                    es == entries_model(entries@),
                    cur_path@ == top.1,
                    fold == spec_blob_fold(es, top.1, 0),
                    bbase.len() <= blobs_model(blobs@).len(),
                    sbase.len() <= bstack_model(stack@).len(),
                    blobs_model(blobs@).take(bbase.len() as int) == bbase,
                    bstack_model(stack@).take(sbase.len() as int) == sbase,
                    fold.0 == blobs_model(blobs@).skip(bbase.len() as int) + spec_blob_fold(
                        es,
                        top.1,
                        i as int,
                    ).0,
                    fold.1 == bstack_model(stack@).skip(sbase.len() as int) + spec_blob_fold(
                        es,
                        top.1,
                        i as int,
                    ).1,
                decreases entries.len() - i,
            {
                let ghost bmid = blobs_model(blobs@);
                let ghost smid = bstack_model(stack@);
                let ghost tailf = spec_blob_fold(es, top.1, i as int);
                let ghost nextf = spec_blob_fold(es, top.1, i + 1);
                proof {
                    assert(es[i as int] == (entries@[i as int].0@, entries@[i as int].1@,
                        entries@[i as int].2));
                }
                let path = join_path(cur_path.as_str(), entries[i].0.as_str());
                if entries[i].2 {
                    let nb = entries[i].1.as_str().as_bytes_vec();
                    let ghost item: (Seq<u8>, Seq<char>) = (nb@, path@);
                    stack.push((nb, path));
                    proof {
                        assert(tailf.1 == seq![item] + nextf.1);
                        assert(bstack_model(stack@) =~= smid.push(item));
                        lemma_suffix_step(fold.1, sbase, smid, item, nextf.1);
                        assert(tailf.0 == nextf.0);
                    }
                } else {
                    let ghost item: (Seq<char>, Seq<char>) = (path@, entries@[i as int].1@);
                    blobs.push((path, clone_str(&entries[i].1)));
                    proof {
                        assert(tailf.0 == seq![item] + nextf.0);
                        assert(blobs_model(blobs@) =~= bmid.push(item));
                        lemma_suffix_step(fold.0, bbase, bmid, item, nextf.0);
                        assert(tailf.1 == nextf.1);
                    }
                }
                i = i + 1;
            }
            proof {
                assert(spec_blob_fold(es, top.1, es.len() as int).0 =~= no_blobs());
                assert(spec_blob_fold(es, top.1, es.len() as int).1 =~= no_bstack());
                assert(fold.0 + no_blobs() =~= fold.0);
                assert(fold.0 =~= blobs_model(blobs@).skip(bbase.len() as int));
                assert(fold.1 =~= bstack_model(stack@).skip(sbase.len() as int));
                assert(blobs_model(blobs@) =~= bbase + fold.0);
                assert(bstack_model(stack@) =~= sbase + fold.1);
                assert(spec_collect_blobs(self.store@, self.prefix@, sm0, frem) == fold.0
                    + spec_collect_blobs(self.store@, self.prefix@, sm0.drop_last() + fold.1,
                    (frem - 1) as nat));
                assert(bv0 + (fold.0 + spec_collect_blobs(self.store@, self.prefix@,
                    bstack_model(stack@), (frem - 1) as nat)) =~= (bv0 + fold.0)
                    + spec_collect_blobs(self.store@, self.prefix@, bstack_model(stack@),
                    (frem - 1) as nat));
                assert(blobs_model(blobs@) =~= bv0 + fold.0);
            }
        }
        proof {
            assert(spec_collect_blobs(self.store@, self.prefix@, bstack_model(stack@),
                (fuel - steps) as nat) =~= no_blobs());
            assert(blobs_model(blobs@) + no_blobs() =~= blobs_model(blobs@));
        }
        blobs
    }
}

/// The saturating sum of per-file additions.
pub open spec fn spec_stats_adds(
    ds: Seq<
        (
            Seq<char>,
            Seq<char>,
            int,
            int,
            Seq<(int, int, int, int, Seq<(Seq<char>, Seq<char>, Option<int>, Option<int>)>)>,
            Option<Seq<char>>,
        ),
    >,
) -> int
    decreases ds.len(),
{
    if ds.len() == 0 {
        0
    } else {
        let prev = spec_stats_adds(ds.drop_last());
        let c = ds.last().2;
        if c > usize::MAX - prev {
            usize::MAX as int
        } else {
            prev + c
        }
    }
}

/// The saturating sum of per-file deletions.
pub open spec fn spec_stats_dels(
    ds: Seq<
        (
            Seq<char>,
            Seq<char>,
            int,
            int,
            Seq<(int, int, int, int, Seq<(Seq<char>, Seq<char>, Option<int>, Option<int>)>)>,
            Option<Seq<char>>,
        ),
    >,
) -> int
    decreases ds.len(),
{
    if ds.len() == 0 {
        0
    } else {
        let prev = spec_stats_dels(ds.drop_last());
        let c = ds.last().3;
        if c > usize::MAX - prev {
            usize::MAX as int
        } else {
            prev + c
        }
    }
}

/// The root tree of the commit at an id, as hex characters.
pub open spec fn spec_commit_tree_of(
    s: Seq<(Seq<u8>, Seq<u8>)>,
    prefix: Seq<u8>,
    oid: Seq<u8>,
) -> Option<Seq<char>> {
    match spec_get_object_plain(s, prefix, oid) {
        None => None,
        Some(raw) => match crate::commit::spec_object_payload(raw) {
            None => None,
            Some(c) => crate::commit::spec_tree_of_commit(c),
        },
    }
}

/// The old-side tree of a commit diff: the parent's root tree, where the
/// commit has a parent whose tree extracts.
pub open spec fn spec_parent_tree_opt(
    s: Seq<(Seq<u8>, Seq<u8>)>,
    prefix: Seq<u8>,
    oid: Seq<u8>,
) -> Option<Seq<u8>> {
    match crate::browse::spec_commit_parent_of(s, prefix, oid) {
        Some(Some(pb)) => match spec_commit_tree_of(s, prefix, pb) {
            None => None,
            Some(t) => Some(vstd::utf8::encode_utf8(t)),
        },
        _ => None,
    }
}

/// When a commit diff succeeds: the commit parses, its tree extracts,
/// and its parent's object, if any, is present.
pub open spec fn spec_commit_diff_ready(
    s: Seq<(Seq<u8>, Seq<u8>)>,
    prefix: Seq<u8>,
    oid: Seq<u8>,
) -> bool {
    &&& crate::browse::spec_commit_parent_of(s, prefix, oid) is Some
    &&& spec_commit_tree_of(s, prefix, oid) is Some
    &&& (match crate::browse::spec_commit_parent_of(s, prefix, oid) {
        Some(Some(pb)) => spec_get_object_plain(s, prefix, pb) is Some,
        _ => true,
    })
}

impl R2GitStore {
    /// Diffs a commit against its first parent: exactly the changed
    /// files in path order, with totals summed over them.  Succeeds iff
    /// the commit parses, its tree extracts, and its parent's object, if
    /// any, is present.
    pub fn get_commit_diff(&self, oid: &[u8], fuel: usize) -> (r: Option<CommitDiffResponse>)
        ensures
            r is Some <==> spec_commit_diff_ready(self.store@, self.prefix@, oid@),
            r matches Some(resp) ==> {
                &&& crate::browse::spec_info_matches(self.store@, self.prefix@, oid@, resp.commit)
                &&& (match crate::browse::spec_commit_parent_of(self.store@, self.prefix@, oid@) {
                    Some(Some(pb)) => resp.parent matches Some(p) && vstd::utf8::encode_utf8(p@)
                        == pb,
                    Some(None) => resp.parent is None,
                    None => false,
                })
                &&& spec_diffs_sorted(resp.files@)
                &&& diffs_view(resp.files@).to_multiset() == spec_compare(
                    self.store@,
                    self.prefix@,
                    seq![
                        (
                            spec_parent_tree_opt(self.store@, self.prefix@, oid@),
                            vstd::utf8::encode_utf8(
                                spec_commit_tree_of(self.store@, self.prefix@, oid@)->0,
                            ),
                            Seq::empty(),
                        ),
                    ],
                    fuel as nat,
                ).to_multiset()
                &&& resp.stats.files_changed == resp.files@.len()
                &&& resp.stats.additions as int == spec_stats_adds(diffs_view(resp.files@))
                &&& resp.stats.deletions as int == spec_stats_dels(diffs_view(resp.files@))
            },
    {
        let (commit, parent_oid) = match self.get_commit_by_oid(oid) {
            Some(x) => x,
            None => {
                return None;
            },
        };
        let commit_data = match self.get_object_plain(oid) {
            Some(d) => d,
            None => {
                return None;
            },
        };
        let commit_tree = match crate::commit::extract_tree_oid(commit_data.as_slice()) {
            Some(t) => t,
            None => {
                return None;
            },
        };
        let parent_tree: Option<Vec<u8>> = match &parent_oid {
            Some(p) => {
                match self.get_object_plain(p.as_str().as_bytes()) {
                    Some(pd) => match crate::commit::extract_tree_oid(pd.as_slice()) {
                        Some(t) => Some(t.as_str().as_bytes_vec()),
                        None => None,
                    },
                    None => {
                        return None;
                    },
                }
            },
            None => None,
        };
        proof {
            assert((match &parent_tree {
                Some(v) => Some(v@),
                None => Option::<Seq<u8>>::None,
            }) == spec_parent_tree_opt(self.store@, self.prefix@, oid@));
            reveal_strlit("");
            assert((""@).len() == 0);
            assert((""@) =~= Seq::<char>::empty());
        }
        let files = self.compare_trees(
            parent_tree.as_ref(),
            commit_tree.as_str().as_bytes(),
            "",
            fuel,
        );
        let ghost fv = diffs_view(files@);
        let mut additions: usize = 0;
        let mut deletions: usize = 0;
        let mut i: usize = 0;
        proof {
            assert(spec_stats_adds(fv.take(0)) == 0);
            assert(spec_stats_dels(fv.take(0)) == 0);
        }
        while i < files.len()
            invariant
                i <= files@.len(),
                fv == diffs_view(files@),
                additions as int == spec_stats_adds(fv.take(i as int)),
                deletions as int == spec_stats_dels(fv.take(i as int)),
            decreases files.len() - i,
        {
            let f = &files[i];
            proof {
                assert(fv[i as int] == file_diff_view(files@[i as int]));
                assert(fv.take(i + 1) =~= fv.take(i as int).push(fv[i as int]));
                assert(fv.take(i + 1).drop_last() =~= fv.take(i as int));
                assert(fv.take(i + 1).last() == fv[i as int]);
            }
            if f.additions > usize::MAX - additions {
                additions = usize::MAX;
            } else {
                additions = additions + f.additions;
            }
            if f.deletions > usize::MAX - deletions {
                deletions = usize::MAX;
            } else {
                deletions = deletions + f.deletions;
            }
            i = i + 1;
        }
        proof {
            assert(fv.take(fv.len() as int) =~= fv);
        }
        let fc = files.len();
        Some(
            CommitDiffResponse {
                commit,
                parent: parent_oid,
                files,
                stats: DiffStats { additions, deletions, files_changed: fc },
            },
        )
    }
}

/// The model of a last-commit list.
pub open spec fn flc_model(rs: Seq<FileLastCommit>) -> Seq<
    (Seq<char>, Seq<char>, Seq<char>, Seq<char>, int),
> {
    rs.map(
        |i: int, r: FileLastCommit|
            (r.path@, r.commit_oid@, r.message@, r.author_name@, r.timestamp as int),
    )
}

/// The entries of a navigated directory, empty where the walk or the
/// tree is missing.
pub open spec fn spec_dir_entries(
    s: Seq<(Seq<u8>, Seq<u8>)>,
    prefix: Seq<u8>,
    d: Option<Seq<u8>>,
) -> Seq<(Seq<char>, Seq<char>, bool)> {
    match d {
        Some(t) => match spec_get_object_plain(s, prefix, t) {
            Some(raw) => spec_entry_list(raw),
            None => Seq::empty(),
        },
        None => Seq::empty(),
    }
}

/// One commit's pass over the waiting paths, from `k` on: a path whose
/// directory entry differs between the commit and its parent is answered
/// with this commit's fields, the rest stay waiting.
pub open spec fn spec_scan_paths(
    ce: Seq<(Seq<char>, Seq<char>, bool)>,
    pe: Seq<(Seq<char>, Seq<char>, bool)>,
    remaining: Seq<Seq<char>>,
    k: int,
    fields: (Seq<char>, Seq<char>, Seq<char>, int),
) -> (Seq<(Seq<char>, Seq<char>, Seq<char>, Seq<char>, int)>, Seq<Seq<char>>)
    decreases remaining.len() - k,
{
    if k < 0 || k >= remaining.len() {
        (Seq::empty(), Seq::empty())
    } else {
        let path = remaining[k];
        let rest = spec_scan_paths(ce, pe, remaining, k + 1, fields);
        let fname = spec_last_segment(path);
        let co = spec_lookup_entry(ce, fname);
        let po = spec_lookup_entry(pe, fname);
        let changed: bool = match (co, po) {
            (Some(c), Some(p)) => c.0 != p.0,
            (Some(_), None) => true,
            (None, Some(_)) => true,
            (None, None) => false,
        };
        if changed {
            (seq![(path, fields.0, fields.1, fields.2, fields.3)] + rest.0, rest.1)
        } else {
            (rest.0, seq![path] + rest.1)
        }
    }
}

/// The answers of the last-commit walk: from the current commit down the
/// first-parent chain, each step answers the paths whose directory entry
/// changed in that step, within a budget of `fuel` commits; an
/// unreadable commit or a missing tree ends the walk.
pub open spec fn spec_flc(
    s: Seq<(Seq<u8>, Seq<u8>)>,
    prefix: Seq<u8>,
    dir_b: Seq<u8>,
    remaining: Seq<Seq<char>>,
    cur: Seq<u8>,
    fuel: nat,
) -> Seq<(Seq<char>, Seq<char>, Seq<char>, Seq<char>, int)>
    decreases fuel,
{
    if remaining.len() == 0 || fuel == 0 {
        Seq::empty()
    } else {
        match crate::browse::spec_commit_parent_of(s, prefix, cur) {
            None => Seq::empty(),
            Some(po) => {
                let payload = crate::browse::spec_commit_payload_of(s, prefix, cur);
                match crate::commit::spec_tree_of_commit(payload) {
                    None => Seq::empty(),
                    Some(tc) => {
                        let segs = crate::browse::spec_segments(dir_b);
                        let cur_dir = crate::browse::spec_navigate(
                            s,
                            prefix,
                            vstd::utf8::encode_utf8(tc),
                            segs,
                            0,
                        );
                        let par_dir: Option<Seq<u8>> = match po {
                            None => None,
                            Some(p) => match spec_commit_tree_of(s, prefix, p) {
                                None => None,
                                Some(pt) => crate::browse::spec_navigate(
                                    s,
                                    prefix,
                                    vstd::utf8::encode_utf8(pt),
                                    segs,
                                    0,
                                ),
                            },
                        };
                        let ce = spec_dir_entries(s, prefix, cur_dir);
                        let pe = spec_dir_entries(s, prefix, par_dir);
                        let fields = (
                            crate::text::chars_of_bytes(cur),
                            crate::commit::spec_title_of(
                                crate::browse::spec_commit_msg_of(s, prefix, cur),
                            ),
                            crate::browse::spec_commit_author_name_of(s, prefix, cur),
                            crate::browse::spec_commit_ts_of(s, prefix, cur),
                        );
                        let scan = spec_scan_paths(ce, pe, remaining, 0, fields);
                        scan.0 + (match po {
                            Some(p) => spec_flc(s, prefix, dir_b, scan.1, p, (fuel - 1) as nat),
                            None => Seq::empty(),
                        })
                    },
                }
            },
        }
    }
}

/// An empty answer list.
pub open spec fn no_flc() -> Seq<(Seq<char>, Seq<char>, Seq<char>, Seq<char>, int)> {
    Seq::empty()
}

/// An empty path list.
pub open spec fn no_paths() -> Seq<Seq<char>> {
    Seq::empty()
}

impl R2GitStore {
    /// Finds, for each listed path, the most recent commit on the branch
    /// that changed its entry in the given directory, walking at most
    /// `fuel` commits down the first-parent chain.
    #[verifier::rlimit(100)]
    #[verifier::spinoff_prover]
    pub fn get_file_last_commits(
        &self,
        branch: &[u8],
        dir_path: &str,
        file_paths: &Vec<String>,
        fuel: usize,
    ) -> (r: Vec<FileLastCommit>)
        ensures
            ({
                let dir_b = vstd::string::StringSliceAdditionalSpecFns::spec_bytes(dir_path);
                match crate::refs::spec_resolve_ref(self.store@, self.prefix@,
                    crate::browse::spec_heads_slash() + branch@, 11) {
                    None => r@.len() == 0,
                    Some(head) => flc_model(r@) == spec_flc(
                        self.store@,
                        self.prefix@,
                        dir_b,
                        file_paths@.map(|i: int, p: String| p@),
                        head,
                        fuel as nat,
                    ),
                }
            }),
    {
        let ghost dir_b = vstd::string::StringSliceAdditionalSpecFns::spec_bytes(dir_path);
        let ghost paths0 = file_paths@.map(|i: int, p: String| p@);
        let mut results: Vec<FileLastCommit> = Vec::new();
        let mut remaining: Vec<String> = Vec::new();
        let mut i: usize = 0;
        while i < file_paths.len()
            invariant
                i <= file_paths@.len(),
                paths0 == file_paths@.map(|k: int, p: String| p@),
                remaining@.map(|k: int, p: String| p@) == paths0.take(i as int),
            decreases file_paths.len() - i,
        {
            let ghost before = remaining@.map(|k: int, p: String| p@);
            remaining.push(clone_str(&file_paths[i]));
            proof {
                assert(remaining@.map(|k: int, p: String| p@) =~= before.push(paths0[i as int]));
                assert(paths0.take(i + 1) =~= paths0.take(i as int).push(paths0[i as int]));
            }
            i = i + 1;
        }
        proof {
            assert(paths0.take(paths0.len() as int) =~= paths0);
        }
        let mut name = crate::protocol::heads_ns_pub();
        name.push(47);
        let mut b = copy_range(branch, 0, branch.len());
        name.append(&mut b);
        proof {
            assert(branch@.subrange(0, branch@.len() as int) =~= branch@);
            assert(name@ =~= crate::browse::spec_heads_slash() + branch@);
        }
        let head = match self.resolve_ref(name.as_slice()) {
            Some(h) => h,
            None => {
                return results;
            },
        };
        let ghost ghead = crate::refs::spec_resolve_ref(self.store@, self.prefix@,
            crate::browse::spec_heads_slash() + branch@, 11)->0;
        let ghost full = spec_flc(self.store@, self.prefix@, dir_b, paths0, ghead, fuel as nat);
        let mut current = head;
        let mut walked: usize = 0;
        proof {
            assert(flc_model(results@) =~= no_flc());
            assert(no_flc() + full =~= full);
        }
        loop
            invariant_except_break
                walked <= fuel,
                dir_b == vstd::string::StringSliceAdditionalSpecFns::spec_bytes(dir_path),
                full == spec_flc(self.store@, self.prefix@, dir_b, paths0, ghead, fuel as nat),
                full == flc_model(results@) + spec_flc(
                    self.store@,
                    self.prefix@,
                    dir_b,
                    remaining@.map(|k: int, p: String| p@),
                    current@,
                    (fuel - walked) as nat,
                ),
            ensures
                full == flc_model(results@),
            decreases fuel - walked,
        {
            let ghost rv0 = flc_model(results@);
            let ghost rem0 = remaining@.map(|k: int, p: String| p@);
            let ghost frem: nat = (fuel - walked) as nat;
            if remaining.len() == 0 || walked >= fuel {
                proof {
                    assert(spec_flc(self.store@, self.prefix@, dir_b, rem0, current@, frem)
                        =~= no_flc());
                    assert(rv0 + no_flc() =~= rv0);
                }
                break;
            }
            walked = walked + 1;
            let (info, parent_oid) = match self.get_commit_by_oid(current.as_slice()) {
                Some(x) => x,
                None => {
                    proof {
                        assert(spec_flc(self.store@, self.prefix@, dir_b, rem0, current@, frem)
                            =~= no_flc());
                        assert(rv0 + no_flc() =~= rv0);
                    }
                    break ;
                },
            };
            let commit_data = match self.get_object_plain(current.as_slice()) {
                Some(d) => d,
                None => {
                    proof {
                        assert(false);
                    }
                    break ;
                },
            };
            let commit_tree = match crate::commit::extract_tree_oid(commit_data.as_slice()) {
                Some(t) => t,
                None => {
                    proof {
                        assert(spec_flc(self.store@, self.prefix@, dir_b, rem0, current@, frem)
                            =~= no_flc());
                        assert(rv0 + no_flc() =~= rv0);
                    }
                    break ;
                },
            };
            let cur_dir = self.navigate_to_path(
                commit_tree.as_str().as_bytes(),
                dir_path.as_bytes(),
            );
            let parent_dir: Option<Vec<u8>> = match &parent_oid {
                Some(p) => {
                    match self.get_object_plain(p.as_str().as_bytes()) {
                        Some(pd) => match crate::commit::extract_tree_oid(pd.as_slice()) {
                            Some(t) => self.navigate_to_path(
                                t.as_str().as_bytes(),
                                dir_path.as_bytes(),
                            ),
                            None => None,
                        },
                        None => None,
                    }
                },
                None => None,
            };
            let cur_entries: Vec<(String, String, bool)> = match &cur_dir {
                Some(t) => match self.get_object_plain(t.as_slice()) {
                    Some(d) => tree_entry_list(d.as_slice()),
                    None => Vec::new(),
                },
                None => Vec::new(),
            };
            let par_entries: Vec<(String, String, bool)> = match &parent_dir {
                Some(t) => match self.get_object_plain(t.as_slice()) {
                    Some(d) => tree_entry_list(d.as_slice()),
                    None => Vec::new(),
                },
                None => Vec::new(),
            };
            let ghost po = crate::browse::spec_commit_parent_of(self.store@, self.prefix@,
                current@)->0;
            let ghost ce = entries_model(cur_entries@);
            let ghost pe = entries_model(par_entries@);
            let ghost fields = (
                crate::text::chars_of_bytes(current@),
                crate::commit::spec_title_of(
                    crate::browse::spec_commit_msg_of(self.store@, self.prefix@, current@),
                ),
                crate::browse::spec_commit_author_name_of(self.store@, self.prefix@, current@),
                crate::browse::spec_commit_ts_of(self.store@, self.prefix@, current@),
            );
            let ghost scan = spec_scan_paths(ce, pe, rem0, 0, fields);
            proof {
                let segs = crate::browse::spec_segments(dir_b);
                assert(ce =~= spec_dir_entries(self.store@, self.prefix@, (match &cur_dir {
                    Some(t) => Some(t@),
                    None => Option::<Seq<u8>>::None,
                })));
                assert(pe =~= spec_dir_entries(self.store@, self.prefix@, (match &parent_dir {
                    Some(t) => Some(t@),
                    None => Option::<Seq<u8>>::None,
                })));
                assert(spec_flc(self.store@, self.prefix@, dir_b, rem0, current@, frem) == scan.0
                    + (match po {
                    Some(p) => spec_flc(self.store@, self.prefix@, dir_b, scan.1, p,
                        (frem - 1) as nat),
                    None => no_flc(),
                }));
            }
            let mut k: usize = 0;
            let mut keep: Vec<String> = Vec::new();
            proof {
                assert(flc_model(results@) =~= rv0);
                assert(scan.0 =~= no_flc() + scan.0);
                assert(scan.1 =~= no_paths() + scan.1);
                assert(keep@.map(|j: int, p: String| p@) =~= no_paths());
            }
            while k < remaining.len()
                invariant
                    k <= remaining@.len(),
                    rem0 == remaining@.map(|j: int, p: String| p@),
                    ce == entries_model(cur_entries@),
                    pe == entries_model(par_entries@),
                    info.oid@ == fields.0,
                    info.author.name@ == fields.2,
                    info.timestamp as int == fields.3,
                    crate::commit::spec_title_of(info.message@) == fields.1,
                    scan == spec_scan_paths(ce, pe, rem0, 0, fields),
                    rv0.len() <= flc_model(results@).len(),
                    flc_model(results@).take(rv0.len() as int) == rv0,
                    scan.0 == flc_model(results@).skip(rv0.len() as int) + spec_scan_paths(
                        ce,
                        pe,
                        rem0,
                        k as int,
                        fields,
                    ).0,
                    scan.1 == keep@.map(|j: int, p: String| p@) + spec_scan_paths(
                        ce,
                        pe,
                        rem0,
                        k as int,
                        fields,
                    ).1,
                decreases remaining.len() - k,
            {
                let ghost rmid = flc_model(results@);
                let ghost kmid = keep@.map(|j: int, p: String| p@);
                let ghost tails = spec_scan_paths(ce, pe, rem0, k as int, fields);
                let ghost nexts = spec_scan_paths(ce, pe, rem0, k + 1, fields);
                let path = &remaining[k];
                proof {
                    assert(rem0[k as int] == path@);
                }
                let fname = last_segment(path.as_str());
                let cur_oid = lookup_entry(&cur_entries, fname.as_str());
                let par_oid = lookup_entry(&par_entries, fname.as_str());
                let changed: bool = match (&cur_oid, &par_oid) {
                    (Some((c, _)), Some((p, _))) => !str_eq(c.as_str(), p.as_str()),
                    (Some(_), None) => true,
                    (None, Some(_)) => true,
                    (None, None) => false,
                };
                if changed {
                    let entry = FileLastCommit {
                        path: clone_str(path),
                        commit_oid: clone_str(&info.oid),
                        message: crate::commit::get_commit_title(info.message.as_str()),
                        author_name: clone_str(&info.author.name),
                        timestamp: info.timestamp,
                    };
                    let ghost ev = (path@, fields.0, fields.1, fields.2, fields.3);
                    results.push(entry);
                    proof {
                        assert(tails.0 == seq![ev] + nexts.0);
                        assert(flc_model(results@) =~= rmid.push(ev));
                        lemma_suffix_step(scan.0, rv0, rmid, ev, nexts.0);
                        assert(tails.1 == nexts.1);
                    }
                } else {
                    keep.push(clone_str(path));
                    proof {
                        assert(tails.1 == seq![path@] + nexts.1);
                        assert(keep@.map(|j: int, p2: String| p2@) =~= kmid.push(path@));
                        assert(kmid + (seq![path@] + nexts.1) =~= kmid.push(path@) + nexts.1);
                        assert(tails.0 == nexts.0);
                    }
                }
                k = k + 1;
            }
            proof {
                assert(spec_scan_paths(ce, pe, rem0, rem0.len() as int, fields).0 =~= no_flc());
                assert(spec_scan_paths(ce, pe, rem0, rem0.len() as int, fields).1 =~= no_paths());
                assert(scan.0 + no_flc() =~= scan.0);
                assert(scan.1 + no_paths() =~= scan.1);
                assert(scan.0 =~= flc_model(results@).skip(rv0.len() as int));
                assert(scan.1 =~= keep@.map(|j: int, p: String| p@));
                assert(flc_model(results@) =~= rv0 + scan.0);
            }
            remaining = keep;
            match parent_oid {
                Some(p) => {
                    let pb = p.as_str().as_bytes_vec();
                    proof {
                        match po {
                            Some(gp) => {
                                assert(pb@ == gp);
                                assert(rv0 + (scan.0 + spec_flc(self.store@, self.prefix@, dir_b,
                                    scan.1, gp, (frem - 1) as nat)) =~= (rv0 + scan.0) + spec_flc(
                                    self.store@, self.prefix@, dir_b, scan.1, gp,
                                    (frem - 1) as nat));
                            },
                            None => {
                                assert(false);
                            },
                        }
                    }
                    current = pb;
                },
                None => {
                    proof {
                        assert(po is None);
                        assert(scan.0 + no_flc() =~= scan.0);
                        assert(rv0 + scan.0 =~= flc_model(results@));
                    }
                    break ;
                },
            }
        }
        results
    }
}

} // verus!
