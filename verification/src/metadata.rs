//! The branch metadata projection: after an accepted push, the head, an
//! incrementally maintained commit count, the last commit's fields, the
//! root listing and the readme id are recomputed for each branch.

use vstd::prelude::*;
use crate::bytes::{bytes_eq, starts_with, copy_range};
use crate::repo::R2GitStore;
use crate::browse::{
    spec_count_until, spec_info_matches, spec_tree_data, spec_readme_oid, spec_heads_slash,
};
use crate::tree::{TreeEntry, entries_view, spec_listing, spec_tree_models, spec_entries_sorted};
use crate::commit::CommitInfo;
use crate::text::{chars_of_bytes, string_of_bytes_or_empty, str_eq};
use vstd::string::StringSliceAdditionalSpecFns;

verus! {

/// One branch's projected row.
pub struct BranchMetadata {
    pub head_oid: String,
    pub commit_count: i64,
    pub last_commit_oid: String,
    pub last_commit_message: String,
    pub last_commit_author_name: String,
    pub last_commit_author_email: String,
    pub last_commit_timestamp: i64,
    pub readme_oid: Option<String>,
    pub root_tree: Vec<TreeEntry>,
}

/// The walk budget of the commit count.
pub open spec fn spec_count_budget() -> nat {
    200000
}

impl R2GitStore {
    /// Projects a branch's metadata after a push from `old_oid` to
    /// `new_oid`: the count grows incrementally when the existing row's
    /// head is the old id, the last commit's fields are parsed from the
    /// new head, and the root listing carries the readme id.  `None` when
    /// the new head cannot be read as a commit.
    pub fn build_branch_metadata(
        &self,
        branch: &[u8],
        old_oid: &[u8],
        new_oid: &[u8],
        existing_head: Option<&Vec<u8>>,
        existing_count: i64,
        skip_root_tree: bool,
    ) -> (r: Option<BranchMetadata>)
        ensures
            r is Some <==> crate::browse::spec_commit_parent_of(self.store@, self.prefix@,
                new_oid@) is Some,
            r matches Some(m) ==> m.head_oid@ == chars_of_bytes(new_oid@),
            r matches Some(m) ==> spec_info_matches_record(self.store@, self.prefix@, new_oid@,
                m),
            r matches Some(m) ==> m.commit_count as int == spec_branch_count(self.store@,
                self.prefix@, old_oid@, new_oid@, match existing_head {
                    Some(h) => Some(h@),
                    None => None,
                }, existing_count as int),
            r matches Some(m) ==> (skip_root_tree ==> m.root_tree@.len() == 0 && m.readme_oid
                is None),
            r matches Some(m) ==> (!skip_root_tree ==> spec_root_listing_matches(self.store@,
                self.prefix@, branch@, m)),
    {
        let incremental: Option<usize> = match existing_head {
            Some(h) => {
                let zero = crate::protocol::zero_oid();
                if bytes_eq(h.as_slice(), old_oid) && !bytes_eq(old_oid, zero.as_slice()) {
                    let ov = copy_range(old_oid, 0, old_oid.len());
                    proof {
                        assert(ov@ =~= old_oid@);
                    }
                    self.count_commits_until(new_oid, Some(&ov), 200000)
                } else {
                    None
                }
            },
            None => None,
        };
        let commit_count: i64 = match incremental {
            Some(inc) => {
                if existing_count >= 0 && inc as u64 <= (i64::MAX - existing_count) as u64 {
                    existing_count + inc as i64
                } else {
                    self.full_count(new_oid)
                }
            },
            None => self.full_count(new_oid),
        };
        let (info, _parent) = match self.get_commit_by_oid(new_oid) {
            Some(x) => x,
            None => {
                return None;
            },
        };
        let (root_tree, readme_oid): (Vec<TreeEntry>, Option<String>) = if skip_root_tree {
            (Vec::new(), None)
        } else {
            match self.get_tree(branch, "") {
                None => (Vec::new(), None),
                Some(entries) => {
                    let ro = crate::browse::find_readme_oid(&entries);
                    (entries, ro)
                },
            }
        };
        proof {
            assert(spec_info_matches(self.store@, self.prefix@, new_oid@, info));
            reveal_strlit("");
            assert((""@).len() == 0);
            assert(vstd::string::StringSliceAdditionalSpecFns::spec_bytes("") =~= Seq::<
                u8,
            >::empty());
            assert((""@) =~= Seq::<char>::empty());
        }
        Some(
            BranchMetadata {
                head_oid: string_of_bytes_or_empty(new_oid),
                commit_count,
                last_commit_oid: info.oid,
                last_commit_message: info.message,
                last_commit_author_name: info.author.name,
                last_commit_author_email: info.author.email,
                last_commit_timestamp: info.timestamp,
                readme_oid,
                root_tree,
            },
        )
    }

    /// The full count from the new head, zero where the walk fails.
    fn full_count(&self, new_oid: &[u8]) -> (r: i64)
        ensures
            r as int == (match spec_count_until(self.store@, self.prefix@, new_oid@, None, 0,
                spec_count_budget()) {
                None => 0int,
                Some(c) => c as int,
            }),
    {
        match self.count_commits_until(new_oid, None, 200000) {
            Some(c) => c as i64,
            None => 0,
        }
    }
}

/// The projected count: the existing count plus the walked distance when
/// the old head matches and an increment was found within budget, else a
/// full recount, else zero.
pub open spec fn spec_branch_count(
    s: Seq<(Seq<u8>, Seq<u8>)>,
    prefix: Seq<u8>,
    old_oid: Seq<u8>,
    new_oid: Seq<u8>,
    existing_head: Option<Seq<u8>>,
    existing_count: int,
) -> int {
    let incremental: Option<nat> = match existing_head {
        Some(h) => if h == old_oid && old_oid != crate::protocol::spec_zero_oid() {
            match spec_count_until(s, prefix, new_oid, Some(old_oid), 0, spec_count_budget()) {
                None => None,
                Some(d) => Some(d),
            }
        } else {
            None
        },
        None => None,
    };
    let full: int = match spec_count_until(s, prefix, new_oid, None, 0, spec_count_budget()) {
        None => 0int,
        Some(c) => c as int,
    };
    match incremental {
        Some(d) => if existing_count >= 0 && existing_count + d <= i64::MAX {
            existing_count + d
        } else {
            full
        },
        None => full,
    }
}

/// The last-commit fields of a metadata row agree with the parsed commit
/// at the head.
pub open spec fn spec_info_matches_record(
    s: Seq<(Seq<u8>, Seq<u8>)>,
    prefix: Seq<u8>,
    oid: Seq<u8>,
    m: BranchMetadata,
) -> bool {
    exists|info: CommitInfo|
        {
            &&& #[trigger] spec_info_matches(s, prefix, oid, info)
            &&& m.last_commit_oid@ == info.oid@
            &&& m.last_commit_message@ == info.message@
            &&& m.last_commit_author_name@ == info.author.name@
            &&& m.last_commit_author_email@ == info.author.email@
            &&& m.last_commit_timestamp == info.timestamp
        }
}

/// The root listing and readme of a metadata row agree with the branch's
/// root tree.
pub open spec fn spec_root_listing_matches(
    s: Seq<(Seq<u8>, Seq<u8>)>,
    prefix: Seq<u8>,
    branch: Seq<u8>,
    m: BranchMetadata,
) -> bool {
    match spec_tree_data(s, prefix, branch, Seq::empty()) {
        None => m.root_tree@.len() == 0 && m.readme_oid is None,
        Some(d) => {
            &&& entries_view(m.root_tree@).to_multiset() == spec_listing(
                spec_tree_models(d),
                Seq::empty(),
            ).to_multiset()
            &&& spec_entries_sorted(entries_view(m.root_tree@))
            &&& (match spec_readme_oid(entries_view(m.root_tree@)) {
                None => m.readme_oid is None,
                Some(o) => m.readme_oid matches Some(ro) && ro@ == o,
            })
        },
    }
}

/// What a set of accepted ref updates means for the metadata rows: a
/// branch name for each update under `refs/heads/` or outside `refs/`,
/// deleted when the new id is the null id, refreshed otherwise.
pub struct MetadataAction {
    pub branch: String,
    pub delete: bool,
    pub old_oid: String,
    pub new_oid: String,
}

/// The planned actions for the updates from `i` on: refs outside
/// `refs/heads/` but inside `refs/` touch no row; the null id deletes.
pub open spec fn spec_metadata_plan(
    updates: Seq<(Seq<u8>, Seq<u8>, Seq<u8>)>,
    i: int,
) -> Seq<(Seq<char>, bool, Seq<char>, Seq<char>)>
    decreases updates.len() - i,
{
    if i < 0 || i >= updates.len() {
        Seq::empty()
    } else {
        let rest = spec_metadata_plan(updates, i + 1);
        let name = updates[i].2;
        let branch: Option<Seq<u8>> = if crate::bytes::spec_starts_with(
            name,
            spec_heads_slash(),
        ) {
            Some(name.skip(11))
        } else if crate::bytes::spec_starts_with(name, crate::protocol::spec_refs_prefix()) {
            None
        } else {
            Some(name)
        };
        match branch {
            None => rest,
            Some(bb) => seq![
                (
                    chars_of_bytes(bb),
                    updates[i].1 == crate::protocol::spec_zero_oid(),
                    chars_of_bytes(updates[i].0),
                    chars_of_bytes(updates[i].1),
                ),
            ] + rest,
        }
    }
}

/// Plans the metadata maintenance for accepted updates.
pub fn metadata_update_plan(updates: &Vec<(Vec<u8>, Vec<u8>, Vec<u8>)>) -> (r: Vec<MetadataAction>)
    ensures
        r@.map(|i: int, a: MetadataAction| (a.branch@, a.delete, a.old_oid@, a.new_oid@))
            == spec_metadata_plan(
            updates@.map(|i: int, u: (Vec<u8>, Vec<u8>, Vec<u8>)| (u.0@, u.1@, u.2@)),
            0,
        ),
{
    let ghost gupd = updates@.map(|i: int, u: (Vec<u8>, Vec<u8>, Vec<u8>)| (u.0@, u.1@, u.2@));
    let zero = crate::protocol::zero_oid();
    let rp = refs_prefix_local();
    let mut hs_slash = crate::protocol::heads_ns_pub();
    hs_slash.push(47);
    proof {
        assert(hs_slash@ =~= spec_heads_slash());
    }
    let mut out: Vec<MetadataAction> = Vec::new();
    let mut i: usize = 0;
    proof {
        assert(out@.map(|k: int, a: MetadataAction| (a.branch@, a.delete, a.old_oid@, a.new_oid@))
            =~= Seq::<(Seq<char>, bool, Seq<char>, Seq<char>)>::empty());
    }
    while i < updates.len()
        invariant
            i <= updates@.len(),
            gupd == updates@.map(|k: int, u: (Vec<u8>, Vec<u8>, Vec<u8>)| (u.0@, u.1@, u.2@)),
            zero@ == crate::protocol::spec_zero_oid(),
            rp@ == crate::protocol::spec_refs_prefix(),
            hs_slash@ == spec_heads_slash(),
            spec_metadata_plan(gupd, 0) == out@.map(
                |k: int, a: MetadataAction| (a.branch@, a.delete, a.old_oid@, a.new_oid@),
            ) + spec_metadata_plan(gupd, i as int),
        decreases updates.len() - i,
    {
        let ghost before = out@.map(
            |k: int, a: MetadataAction| (a.branch@, a.delete, a.old_oid@, a.new_oid@),
        );
        let (old_oid, new_oid, name) = (&updates[i].0, &updates[i].1, &updates[i].2);
        let branch_b: Option<Vec<u8>> = if starts_with(name.as_slice(), hs_slash.as_slice()) {
            Some(copy_range(name.as_slice(), 11, name.len()))
        } else if starts_with(name.as_slice(), rp.as_slice()) {
            None
        } else {
            Some(copy_range(name.as_slice(), 0, name.len()))
        };
        match branch_b {
            None => {
            },
            Some(bb) => {
                proof {
                    if crate::bytes::spec_starts_with(gupd[i as int].2, spec_heads_slash()) {
                        assert(bb@ =~= gupd[i as int].2.skip(11));
                    } else {
                        assert(bb@ =~= gupd[i as int].2);
                    }
                }
                let is_delete = bytes_eq(new_oid.as_slice(), zero.as_slice());
                let ghost entry = (
                    chars_of_bytes(bb@),
                    is_delete,
                    chars_of_bytes(gupd[i as int].0),
                    chars_of_bytes(gupd[i as int].1),
                );
                out.push(
                    MetadataAction {
                        branch: string_of_bytes_or_empty(bb.as_slice()),
                        delete: is_delete,
                        old_oid: string_of_bytes_or_empty(old_oid.as_slice()),
                        new_oid: string_of_bytes_or_empty(new_oid.as_slice()),
                    },
                );
                proof {
                    assert(out@.map(
                        |k: int, a: MetadataAction| (a.branch@, a.delete, a.old_oid@, a.new_oid@),
                    ) =~= before.push(entry));
                    assert(before + (seq![entry] + spec_metadata_plan(gupd, i + 1)) =~= out@.map(
                        |k: int, a: MetadataAction| (a.branch@, a.delete, a.old_oid@, a.new_oid@),
                    ) + spec_metadata_plan(gupd, i + 1));
                }
            },
        }
        i = i + 1;
    }
    proof {
        assert(spec_metadata_plan(gupd, gupd.len() as int) =~= Seq::<
            (Seq<char>, bool, Seq<char>, Seq<char>),
        >::empty());
        assert(out@.map(|k: int, a: MetadataAction| (a.branch@, a.delete, a.old_oid@, a.new_oid@))
            + Seq::<(Seq<char>, bool, Seq<char>, Seq<char>)>::empty() =~= out@.map(
            |k: int, a: MetadataAction| (a.branch@, a.delete, a.old_oid@, a.new_oid@),
        ));
    }
    out
}

fn refs_prefix_local() -> (r: Vec<u8>)
    ensures
        r@ == crate::protocol::spec_refs_prefix(),
{
    let mut v: Vec<u8> = Vec::new();
    v.push(114);
    v.push(101);
    v.push(102);
    v.push(115);
    v.push(47);
    proof {
        assert(v@ =~= crate::protocol::spec_refs_prefix());
    }
    v
}

} // verus!
