//! Tree payloads: concatenated `"<mode> <name>\0<20-byte-oid>"` entries,
//! their parsing, serialization, ordering, and lookup by name.

use vstd::prelude::*;
use crate::bytes::{copy_range, spec_find_byte, find_byte, bytes_eq};
use crate::text::{chars_of_bytes, string_of_bytes_or_empty};
use crate::hex::{hex_of, unhex_of, hex_encode, hex_decode, all_hex_digits};
use crate::commit::{spec_object_payload, object_payload};
use vstd::slice::slice_subrange;

verus! {

/// A raw tree entry: the mode and name bytes and the 20-byte object id.
pub struct TreeEntryRaw {
    pub mode: Seq<u8>,
    pub name: Seq<u8>,
    pub oid20: Seq<u8>,
}

/// The raw entries of a tree payload from `pos`: parsing stops at a
/// missing NUL, a header that is not UTF-8 or has no space, or a
/// truncated object id.
pub open spec fn spec_tree_entries(content: Seq<u8>, pos: int) -> Seq<TreeEntryRaw>
    decreases content.len() - pos,
{
    if pos < 0 || pos >= content.len() {
        Seq::empty()
    } else {
        match spec_find_byte(content, 0, pos) {
            None => Seq::empty(),
            Some(nul) => if nul < pos || nul >= content.len() {
                Seq::empty()
            } else {
                let header = content.subrange(pos, nul);
                if !vstd::utf8::valid_utf8(header) {
                    Seq::empty()
                } else {
                    match spec_find_byte(header, 32, 0) {
                        None => Seq::empty(),
                        Some(sp) => if nul + 21 > content.len() {
                            Seq::empty()
                        } else {
                            seq![
                                TreeEntryRaw {
                                    mode: header.take(sp),
                                    name: header.skip(sp + 1),
                                    oid20: content.subrange(nul + 1, nul + 21),
                                },
                            ] + spec_tree_entries(content, nul + 21)
                        },
                    }
                }
            },
        }
    }
}

/// Parses the raw entries of a tree payload as `(mode, oid, name)`
/// strings, the id in lowercase hex.
pub fn parse_tree_entries(content: &[u8]) -> (r: Vec<(String, String, String)>)
    ensures
        ({
            let models = spec_tree_entries(content@, 0);
            &&& r@.len() == models.len()
            &&& forall|i: int| 0 <= i < models.len() ==> {
                &&& (#[trigger] r@[i]).0@ == chars_of_bytes(models[i].mode)
                &&& r@[i].1@ == chars_of_bytes(hex_of(models[i].oid20))
                &&& r@[i].2@ == chars_of_bytes(models[i].name)
            }
        }),
{
    let ghost models = spec_tree_entries(content@, 0);
    let n = content.len();
    let mut out: Vec<(String, String, String)> = Vec::new();
    let mut pos: usize = 0;
    loop
        invariant_except_break
            content@.len() == n,
            pos <= n,
            models == spec_tree_entries(content@, 0),
            models == models.take(out@.len() as int) + spec_tree_entries(content@, pos as int),
            out@.len() <= models.len(),
            forall|i: int| 0 <= i < out@.len() ==> {
                &&& (#[trigger] out@[i]).0@ == chars_of_bytes(models[i].mode)
                &&& out@[i].1@ == chars_of_bytes(hex_of(models[i].oid20))
                &&& out@[i].2@ == chars_of_bytes(models[i].name)
            },
        ensures
            out@.len() == models.len(),
            forall|i: int| 0 <= i < models.len() ==> {
                &&& (#[trigger] out@[i]).0@ == chars_of_bytes(models[i].mode)
                &&& out@[i].1@ == chars_of_bytes(hex_of(models[i].oid20))
                &&& out@[i].2@ == chars_of_bytes(models[i].name)
            },
        decreases n - pos,
    {
        let ghost tail = spec_tree_entries(content@, pos as int);
        let ghost done = out@.len() as int;
        if pos >= n {
            proof {
                lemma_prefix_count(models, done, tail);
            }
            break;
        }
        let nul = match find_byte(content, 0, pos) {
            Some(p) => p,
            None => {
                proof {
                    lemma_prefix_count(models, done, tail);
                }
                break;
            },
        };
        let header = slice_subrange(content, pos, nul);
        proof {
            assert(header@ =~= content@.subrange(pos as int, nul as int));
        }
        let header_str = crate::text::string_of_bytes(header);
        if header_str.is_none() {
            proof {
                lemma_prefix_count(models, done, tail);
            }
            break;
        }
        let sp = match find_byte(header, 32, 0) {
            Some(p) => p,
            None => {
                proof {
                    lemma_prefix_count(models, done, tail);
                }
                break;
            },
        };
        if 21 > n - nul {
            proof {
                lemma_prefix_count(models, done, tail);
            }
            break;
        }
        let mode_b = slice_subrange(header, 0, sp);
        let name_b = slice_subrange(header, sp + 1, header.len());
        let oid_b = slice_subrange(content, nul + 1, nul + 21);
        proof {
            assert(mode_b@ =~= header@.take(sp as int));
            assert(name_b@ =~= header@.skip(sp + 1));
            assert(oid_b@ =~= content@.subrange(nul + 1, nul + 21));
        }
        let mode = string_of_bytes_or_empty(mode_b);
        let name = string_of_bytes_or_empty(name_b);
        let oid_hex = hex_encode(oid_b);
        let oid = string_of_bytes_or_empty(oid_hex.as_slice());
        proof {
            lemma_hex_chars_pub(oid_b@);
        }
        out.push((mode, oid, name));
        proof {
            assert(tail[0] == TreeEntryRaw {
                mode: header@.take(sp as int),
                name: header@.skip(sp + 1),
                oid20: content@.subrange(nul + 1, nul + 21),
            });
            assert(tail.drop_first() =~= spec_tree_entries(content@, nul + 21));
            lemma_step_count(models, done, tail, spec_tree_entries(content@, nul + 21));
        }
        pos = nul + 21;
    }
    out
}

/// When the collected prefix plus the remaining suffix is the whole and
/// the suffix is empty, the prefix count is the whole count.
proof fn lemma_prefix_count(models: Seq<TreeEntryRaw>, done: int, tail: Seq<TreeEntryRaw>)
    requires
        0 <= done <= models.len(),
        models == models.take(done) + tail,
        tail.len() == 0,
    ensures
        models.len() == done,
{
    assert(models.len() == models.take(done).len());
}

/// Pushing the head of the suffix onto the prefix keeps the
/// decomposition.
proof fn lemma_step_count(
    models: Seq<TreeEntryRaw>,
    done: int,
    tail: Seq<TreeEntryRaw>,
    rest: Seq<TreeEntryRaw>,
)
    requires
        0 <= done <= models.len(),
        models == models.take(done) + tail,
        tail.len() > 0,
        rest == tail.drop_first(),
    ensures
        models == models.take(done + 1) + rest,
        models.len() > done,
        models[done] == tail[0],
{
    assert(models.take(done + 1) =~= models.take(done) + seq![tail[0]]);
    assert(models =~= models.take(done + 1) + rest);
}

/// A hex encoding is ASCII, so its characters are its bytes.
pub proof fn lemma_hex_chars_pub(b: Seq<u8>)
    ensures
        vstd::utf8::valid_utf8(hex_of(b)),
        chars_of_bytes(hex_of(b)) == vstd::utf8::decode_utf8(hex_of(b)),
{
    crate::hex::lemma_unhex_of_hex(b);
    lemma_ascii_valid(hex_of(b));
}

/// A byte string below 0x80 everywhere is valid UTF-8.
pub proof fn lemma_ascii_valid(s: Seq<u8>)
    requires
        forall|i: int| 0 <= i < s.len() ==> #[trigger] s[i] < 0x80,
    ensures
        vstd::utf8::valid_utf8(s),
    decreases s.len(),
{
    if s.len() > 0 {
        assert(vstd::utf8::pop_first_scalar(s) =~= s.drop_first());
        lemma_ascii_valid(s.drop_first());
    }
}

/// A listed tree entry as the browsing API reports it.
pub struct TreeEntry {
    pub name: String,
    pub entry_type: String,
    pub oid: String,
    pub path: String,
}

impl View for TreeEntry {
    type V = (Seq<char>, Seq<char>, Seq<char>, Seq<char>);

    open spec fn view(&self) -> (Seq<char>, Seq<char>, Seq<char>, Seq<char>) {
        (self.name@, self.entry_type@, self.oid@, self.path@)
    }
}

/// Whether an entry lists a subtree.
pub open spec fn spec_is_tree(e: (Seq<char>, Seq<char>, Seq<char>, Seq<char>)) -> bool {
    e.1 == "tree"@
}

/// The listing order: subtrees first, then names ascending.
pub open spec fn spec_entry_le(
    a: (Seq<char>, Seq<char>, Seq<char>, Seq<char>),
    b: (Seq<char>, Seq<char>, Seq<char>, Seq<char>),
) -> bool {
    if spec_is_tree(a) != spec_is_tree(b) {
        spec_is_tree(a)
    } else {
        crate::text::spec_chars_le(a.0, b.0)
    }
}

/// The order is total.
pub proof fn lemma_entry_le_total(
    a: (Seq<char>, Seq<char>, Seq<char>, Seq<char>),
    b: (Seq<char>, Seq<char>, Seq<char>, Seq<char>),
)
    ensures
        spec_entry_le(a, b) || spec_entry_le(b, a),
{
    crate::text::lemma_chars_le_total(a.0, b.0);
}

/// Adjacent-pair sortedness of a listing.
pub open spec fn spec_entries_sorted(es: Seq<(Seq<char>, Seq<char>, Seq<char>, Seq<char>)>)
    -> bool {
    forall|i: int| 0 <= i < es.len() - 1 ==> spec_entry_le(#[trigger] es[i], es[i + 1])
}

fn entry_le(a: &TreeEntry, b: &TreeEntry) -> (r: bool)
    ensures
        r == spec_entry_le(a@, b@),
{
    let at = crate::text::str_eq(a.entry_type.as_str(), "tree");
    let bt = crate::text::str_eq(b.entry_type.as_str(), "tree");
    if at != bt {
        at
    } else {
        crate::text::chars_le(a.name.as_str(), b.name.as_str())
    }
}

/// The view sequence of a listing.
pub open spec fn entries_view(es: Seq<TreeEntry>) -> Seq<
    (Seq<char>, Seq<char>, Seq<char>, Seq<char>),
> {
    es.map(|i: int, e: TreeEntry| e@)
}

/// Sorts a listing subtrees-first then by name; a listing that is already
/// in order comes back unchanged.
pub fn sort_entries(entries: Vec<TreeEntry>) -> (r: Vec<TreeEntry>)
    ensures
        entries_view(r@).to_multiset() == entries_view(entries@).to_multiset(),
        spec_entries_sorted(entries_view(r@)),
        spec_entries_sorted(entries_view(entries@)) ==> r@ == entries@,
{
    let n = entries.len();
    let mut sorted = true;
    let mut i: usize = 0;
    while n - i > 1
        invariant
            i <= n,
            n == 0 || i < n,
            n == entries@.len(),
            sorted == (forall|k: int| 0 <= k < i ==> spec_entry_le(
                #[trigger] entries_view(entries@)[k],
                entries_view(entries@)[k + 1],
            )),
        decreases n - i,
    {
        if !entry_le(&entries[i], &entries[i + 1]) {
            sorted = false;
            proof {
                assert(!spec_entry_le(entries_view(entries@)[i as int], entries_view(
                    entries@,
                )[i + 1]));
            }
        }
        i = i + 1;
    }
    if sorted {
        proof {
            assert(spec_entries_sorted(entries_view(entries@)));
        }
        return entries;
    }
    proof {
        assert(!spec_entries_sorted(entries_view(entries@)));
    }
    let mut out: Vec<TreeEntry> = Vec::new();
    let mut src = entries;
    let ghost whole = entries_view(src@);
    let mut i: usize = 0;
    proof {
        assert(entries_view(src@).take(0) =~= Seq::<
            (Seq<char>, Seq<char>, Seq<char>, Seq<char>),
        >::empty());
        assert(entries_view(out@) =~= Seq::<
            (Seq<char>, Seq<char>, Seq<char>, Seq<char>),
        >::empty());
        whole.take(0).to_multiset_ensures();
        entries_view(out@).to_multiset_ensures();
        assert(whole.take(0).to_multiset() =~= entries_view(out@).to_multiset());
    }
    while i < src.len()
        invariant
            i <= src@.len(),
            whole == entries_view(src@),
            entries_view(out@).to_multiset() == whole.take(i as int).to_multiset(),
            spec_entries_sorted(entries_view(out@)),
        decreases src.len() - i,
    {
        let ghost before = entries_view(out@);
        let x = clone_entry(&src[i]);
        let ghost xv = x@;
        proof {
            assert(xv == whole[i as int]);
        }
        let mut j: usize = 0;
        while j < out.len() && entry_le(&out[j], &x)
            invariant
                j <= out@.len(),
                before == entries_view(out@),
                xv == x@,
                forall|k: int| 0 <= k < j ==> spec_entry_le(#[trigger] before[k], xv),
            decreases out.len() - j,
        {
            j = j + 1;
        }
        proof {
            if j < out@.len() {
                lemma_entry_le_total(before[j as int], xv);
            }
        }
        out.insert(j, x);
        proof {
            assert(entries_view(out@) =~= before.insert(j as int, xv));
            lemma_sorted_insert(before, xv, j as int);
            lemma_insert_multiset(before, xv, j as int);
            assert(whole.take(i + 1) =~= whole.take(i as int).push(xv));
            whole.take(i as int).to_multiset_ensures();
            before.to_multiset_ensures();
        }
        i = i + 1;
    }
    proof {
        assert(whole.take(whole.len() as int) =~= whole);
    }
    out
}

/// Inserting at the found position keeps a listing sorted.
proof fn lemma_sorted_insert(
    es: Seq<(Seq<char>, Seq<char>, Seq<char>, Seq<char>)>,
    x: (Seq<char>, Seq<char>, Seq<char>, Seq<char>),
    j: int,
)
    requires
        0 <= j <= es.len(),
        spec_entries_sorted(es),
        forall|k: int| 0 <= k < j ==> spec_entry_le(#[trigger] es[k], x),
        j < es.len() ==> spec_entry_le(x, es[j]),
    ensures
        spec_entries_sorted(es.insert(j, x)),
{
    let t = es.insert(j, x);
    assert forall|i: int| 0 <= i < t.len() - 1 implies spec_entry_le(#[trigger] t[i], t[i + 1]) by {
        if i < j - 1 {
            assert(t[i] == es[i] && t[i + 1] == es[i + 1]);
        } else if i == j - 1 {
            assert(t[i] == es[i] && t[i + 1] == x);
        } else if i == j {
            assert(t[i] == x && t[i + 1] == es[i]);
        } else {
            assert(t[i] == es[i - 1] && t[i + 1] == es[i]);
        }
    }
}

/// Inserting adds one element to the multiset.
proof fn lemma_insert_multiset(
    es: Seq<(Seq<char>, Seq<char>, Seq<char>, Seq<char>)>,
    x: (Seq<char>, Seq<char>, Seq<char>, Seq<char>),
    j: int,
)
    requires
        0 <= j <= es.len(),
    ensures
        es.insert(j, x).to_multiset() == es.push(x).to_multiset(),
{
    assert(es.insert(j, x) =~= es.take(j) + seq![x] + es.skip(j));
    assert(es.push(x) =~= es.take(j) + es.skip(j) + seq![x]);
    lemma_three_way_multiset(es.take(j), seq![x], es.skip(j));
}

/// Concatenation order does not change a multiset.
proof fn lemma_three_way_multiset(
    a: Seq<(Seq<char>, Seq<char>, Seq<char>, Seq<char>)>,
    b: Seq<(Seq<char>, Seq<char>, Seq<char>, Seq<char>)>,
    c: Seq<(Seq<char>, Seq<char>, Seq<char>, Seq<char>)>,
)
    ensures
        (a + b + c).to_multiset() == (a + c + b).to_multiset(),
{
    vstd::seq_lib::lemma_multiset_commutative(a + b, c);
    vstd::seq_lib::lemma_multiset_commutative(a, b);
    vstd::seq_lib::lemma_multiset_commutative(a + c, b);
    vstd::seq_lib::lemma_multiset_commutative(a, c);
}

fn clone_entry(e: &TreeEntry) -> (r: TreeEntry)
    ensures
        r@ == e@,
{
    TreeEntry {
        name: clone_string(&e.name),
        entry_type: clone_string(&e.entry_type),
        oid: clone_string(&e.oid),
        path: clone_string(&e.path),
    }
}

/// Copies a string.
pub fn clone_string(s: &String) -> (r: String)
    ensures
        r@ == s@,
{
    s.clone()
}

/// The bytes of the subtree mode `"40000"`.
pub open spec fn spec_tree_mode() -> Seq<u8> {
    seq![52u8, 48u8, 48u8, 48u8, 48u8]
}

/// The bytes of the regular-file mode `"100644"`.
pub open spec fn spec_blob_mode() -> Seq<u8> {
    seq![49u8, 48u8, 48u8, 54u8, 52u8, 52u8]
}

/// Whether a mode string denotes a subtree.
pub open spec fn spec_is_tree_mode(mode: Seq<char>) -> bool {
    mode == "40000"@ || mode == "040000"@
}

/// The listing view of one raw entry under a base path.
pub open spec fn spec_listing_entry(m: TreeEntryRaw, base: Seq<char>) -> (
    Seq<char>,
    Seq<char>,
    Seq<char>,
    Seq<char>,
) {
    let name = chars_of_bytes(m.name);
    let t: Seq<char> = if spec_is_tree_mode(chars_of_bytes(m.mode)) {
        "tree"@
    } else {
        "blob"@
    };
    let oid = chars_of_bytes(hex_of(m.oid20));
    let path: Seq<char> = if base.len() == 0 {
        name
    } else {
        base + "/"@ + name
    };
    (name, t, oid, path)
}

/// The listing view of a parsed tree payload under a base path.
pub open spec fn spec_listing(models: Seq<TreeEntryRaw>, base: Seq<char>) -> Seq<
    (Seq<char>, Seq<char>, Seq<char>, Seq<char>),
> {
    models.map(|i: int, m: TreeEntryRaw| spec_listing_entry(m, base))
}

/// The raw entries of a stored tree object, or none at all where the
/// envelope cannot be opened.
pub open spec fn spec_tree_models(raw: Seq<u8>) -> Seq<TreeEntryRaw> {
    match spec_object_payload(raw) {
        None => Seq::empty(),
        Some(c) => spec_tree_entries(c, 0),
    }
}

/// Parses a stored tree object into its listing: names, types, ids and
/// paths, ordered subtrees-first then by name.  A listing that was stored
/// in order is returned exactly as stored.
pub fn parse_tree(data: &[u8], base_path: &str) -> (r: Vec<TreeEntry>)
    ensures
        entries_view(r@).to_multiset() == spec_listing(
            spec_tree_models(data@),
            base_path@,
        ).to_multiset(),
        spec_entries_sorted(entries_view(r@)),
        spec_entries_sorted(spec_listing(spec_tree_models(data@), base_path@)) ==> entries_view(
            r@,
        ) == spec_listing(spec_tree_models(data@), base_path@),
{
    let ghost listing = spec_listing(spec_tree_models(data@), base_path@);
    let content = match object_payload(data) {
        None => {
            let empty: Vec<TreeEntry> = Vec::new();
            proof {
                assert(listing =~= Seq::<(Seq<char>, Seq<char>, Seq<char>, Seq<char>)>::empty());
                assert(entries_view(empty@) =~= listing);
                entries_view(empty@).to_multiset_ensures();
            }
            return empty;
        },
        Some(c) => c,
    };
    let raw = parse_tree_entries(content.as_slice());
    let ghost models = spec_tree_entries(content@, 0);
    proof {
        assert(spec_tree_models(data@) == models);
    }
    let base_empty = base_path.unicode_len() == 0;
    let mut entries: Vec<TreeEntry> = Vec::new();
    let mut i: usize = 0;
    proof {
        assert(entries_view(entries@) =~= listing.take(0));
    }
    while i < raw.len()
        invariant
            i <= raw@.len(),
            raw@.len() == models.len(),
            models == spec_tree_entries(content@, 0),
            listing == spec_listing(models, base_path@),
            base_empty == (base_path@.len() == 0),
            forall|k: int| 0 <= k < models.len() ==> {
                &&& (#[trigger] raw@[k]).0@ == chars_of_bytes(models[k].mode)
                &&& raw@[k].1@ == chars_of_bytes(hex_of(models[k].oid20))
                &&& raw@[k].2@ == chars_of_bytes(models[k].name)
            },
            entries_view(entries@) == listing.take(i as int),
        decreases raw.len() - i,
    {
        let ghost before = entries_view(entries@);
        let (mode, oid, name) = (&raw[i].0, &raw[i].1, &raw[i].2);
        let is_tree = crate::text::str_eq(mode.as_str(), "40000") || crate::text::str_eq(
            mode.as_str(),
            "040000",
        );
        let entry_type: String = if is_tree {
            String::from_str("tree")
        } else {
            String::from_str("blob")
        };
        let path: String = if base_empty {
            clone_string(name)
        } else {
            let mut p = base_path.to_owned();
            p.append("/");
            p.append(name.as_str());
            p
        };
        let e = TreeEntry {
            name: clone_string(name),
            entry_type,
            oid: clone_string(oid),
            path,
        };
        proof {
            assert(e@ == spec_listing_entry(models[i as int], base_path@));
        }
        entries.push(e);
        proof {
            assert(entries_view(entries@) =~= before.push(spec_listing_entry(
                models[i as int],
                base_path@,
            )));
            assert(listing.take(i + 1) =~= listing.take(i as int).push(listing[i as int]));
        }
        i = i + 1;
    }
    proof {
        assert(listing.take(listing.len() as int) =~= listing);
    }
    sort_entries(entries)
}

/// The serialized payload of a sequence of raw entries.
pub open spec fn spec_serialize_tree(models: Seq<TreeEntryRaw>) -> Seq<u8>
    decreases models.len(),
{
    if models.len() == 0 {
        Seq::empty()
    } else {
        let m = models[0];
        m.mode + seq![32u8] + m.name + seq![0u8] + m.oid20 + spec_serialize_tree(
            models.drop_first(),
        )
    }
}

/// The raw entry a listed entry stands for: subtree or regular-file mode,
/// the name's bytes, and the decoded id.
pub open spec fn spec_entry_raw(e: (Seq<char>, Seq<char>, Seq<char>, Seq<char>)) -> TreeEntryRaw {
    TreeEntryRaw {
        mode: if e.1 == "tree"@ {
            spec_tree_mode()
        } else {
            spec_blob_mode()
        },
        name: vstd::utf8::encode_utf8(e.0),
        oid20: unhex_of(vstd::utf8::encode_utf8(e.2)),
    }
}

/// Whether a listed entry's id is forty lowercase hex digits.
pub open spec fn spec_entry_oid_ok(e: (Seq<char>, Seq<char>, Seq<char>, Seq<char>)) -> bool {
    &&& vstd::utf8::encode_utf8(e.2).len() == 40
    &&& all_hex_digits(vstd::utf8::encode_utf8(e.2))
}

/// Serializes a listing back into a tree payload: subtrees as mode
/// `40000`, files as `100644`; `None` where an id is not forty lowercase
/// hex digits.
pub fn serialize_tree(entries: &Vec<TreeEntry>) -> (r: Option<Vec<u8>>)
    ensures
        r is Some <==> (forall|i: int| 0 <= i < entries@.len() ==> spec_entry_oid_ok(
            #[trigger] entries_view(entries@)[i],
        )),
        r matches Some(v) ==> v@ == spec_serialize_tree(
            entries_view(entries@).map(
                |i: int, e: (Seq<char>, Seq<char>, Seq<char>, Seq<char>)| spec_entry_raw(e),
            ),
        ),
{
    let ghost raws = entries_view(entries@).map(
        |i: int, e: (Seq<char>, Seq<char>, Seq<char>, Seq<char>)| spec_entry_raw(e),
    );
    let mut out: Vec<u8> = Vec::new();
    let mut i: usize = 0;
    proof {
        assert(raws.skip(0) =~= raws);
    }
    while i < entries.len()
        invariant
            i <= entries@.len(),
            raws == entries_view(entries@).map(
                |k: int, e: (Seq<char>, Seq<char>, Seq<char>, Seq<char>)| spec_entry_raw(e),
            ),
            forall|k: int| 0 <= k < i ==> spec_entry_oid_ok(#[trigger] entries_view(entries@)[k]),
            spec_serialize_tree(raws) == out@ + spec_serialize_tree(raws.skip(i as int)),
        decreases entries.len() - i,
    {
        let ghost before = out@;
        let ghost tail = raws.skip(i as int);
        proof {
            assert(tail[0] == raws[i as int]);
            assert(tail.drop_first() =~= raws.skip(i + 1));
        }
        let e = &entries[i];
        let is_tree = crate::text::str_eq(e.entry_type.as_str(), "tree");
        if is_tree {
            out.push(52);
            out.push(48);
            out.push(48);
            out.push(48);
            out.push(48);
        } else {
            out.push(49);
            out.push(48);
            out.push(48);
            out.push(54);
            out.push(52);
            out.push(52);
        }
        out.push(32);
        let mut name_b = e.name.as_str().as_bytes_vec();
        out.append(&mut name_b);
        out.push(0);
        let oid_b = e.oid.as_str().as_bytes();
        let oid20 = match hex_decode(oid_b) {
            Some(v) => v,
            None => {
                proof {
                    assert(!spec_entry_oid_ok(entries_view(entries@)[i as int]));
                }
                return None;
            },
        };
        if oid20.len() != 20 {
            proof {
                assert(!spec_entry_oid_ok(entries_view(entries@)[i as int]));
            }
            return None;
        }
        let mut ob = oid20;
        out.append(&mut ob);
        proof {
            let m = raws[i as int];
            assert(out@ =~= before + (m.mode + seq![32u8] + m.name + seq![0u8] + m.oid20));
            assert(before + (m.mode + seq![32u8] + m.name + seq![0u8] + m.oid20
                + spec_serialize_tree(raws.skip(i + 1))) =~= out@ + spec_serialize_tree(
                raws.skip(i + 1),
            ));
        }
        i = i + 1;
    }
    proof {
        assert(raws.skip(entries@.len() as int) =~= Seq::<TreeEntryRaw>::empty());
        assert(out@ + Seq::<u8>::empty() =~= out@);
    }
    Some(out)
}

/// Searching from `from` finds `b` exactly at `p` when nothing before it
/// matches.
proof fn lemma_find_byte_exact(s: Seq<u8>, b: u8, from: int, p: int)
    requires
        0 <= from <= p < s.len(),
        s[p] == b,
        forall|k: int| from <= k < p ==> s[k] != b,
    ensures
        spec_find_byte(s, b, from) == Some(p),
    decreases p - from,
{
    if from < p {
        lemma_find_byte_exact(s, b, from + 1, p);
    }
}

/// A well-formed raw entry: a 20-byte id, a mode without NUL or space,
/// a name without NUL, and a UTF-8 header.
pub open spec fn spec_entry_wf(m: TreeEntryRaw) -> bool {
    &&& m.oid20.len() == 20
    &&& m.mode.len() > 0
    &&& (forall|k: int| 0 <= k < m.mode.len() ==> #[trigger] m.mode[k] != 0 && m.mode[k] != 32)
    &&& (forall|k: int| 0 <= k < m.name.len() ==> #[trigger] m.name[k] != 0)
    &&& vstd::utf8::valid_utf8(m.mode + seq![32u8] + m.name)
}

/// Serializing a tree and parsing the payload back gives exactly the same
/// entries: the round trip of tree listings.
pub proof fn lemma_tree_round_trip(models: Seq<TreeEntryRaw>)
    requires
        forall|i: int| 0 <= i < models.len() ==> spec_entry_wf(#[trigger] models[i]),
    ensures
        spec_tree_entries(spec_serialize_tree(models), 0) == models,
{
    assert(spec_serialize_tree(models).skip(0) =~= spec_serialize_tree(models));
    lemma_tree_parse_at(models, spec_serialize_tree(models), 0);
}

proof fn lemma_tree_parse_at(models: Seq<TreeEntryRaw>, s: Seq<u8>, pos: int)
    requires
        forall|i: int| 0 <= i < models.len() ==> spec_entry_wf(#[trigger] models[i]),
        0 <= pos <= s.len(),
        s.skip(pos) == spec_serialize_tree(models),
    ensures
        spec_tree_entries(s, pos) == models,
    decreases models.len(),
{
    let enc = spec_serialize_tree(models);
    if models.len() == 0 {
        assert(s.skip(pos).len() == 0);
        assert(spec_tree_entries(s, pos) =~= models);
    } else {
        let m = models[0];
        let head = m.mode + seq![32u8] + m.name + seq![0u8] + m.oid20;
        let rest = spec_serialize_tree(models.drop_first());
        assert(enc == head + rest);
        assert(s.skip(pos).len() == enc.len());
        let hl = m.mode.len() as int;
        let nul = pos + hl + 1 + m.name.len();
        assert(forall|k: int| 0 <= k < enc.len() ==> s.skip(pos)[k] == #[trigger] s[pos + k]);
        assert forall|k: int| pos <= k < nul implies s[k] != 0 by {
            assert(s[k] == enc[k - pos]);
            if k - pos < hl {
                assert(enc[k - pos] == m.mode[k - pos]);
            } else if k - pos == hl {
                assert(enc[k - pos] == 32u8);
            } else {
                assert(enc[k - pos] == m.name[k - pos - hl - 1]);
            }
        }
        assert(s[nul] == enc[nul - pos]);
        assert(enc[nul - pos] == 0u8);
        lemma_find_byte_exact(s, 0, pos, nul);
        let header = s.subrange(pos, nul);
        assert(header =~= m.mode + seq![32u8] + m.name);
        assert forall|k: int| 0 <= k < hl implies header[k] != 32 by {
            assert(header[k] == m.mode[k]);
        }
        assert(header[hl] == 32u8);
        lemma_find_byte_exact(header, 32, 0, hl);
        assert(nul + 21 <= s.len()) by {
            assert(enc.len() >= head.len());
        }
        assert(header.take(hl) =~= m.mode);
        assert(header.skip(hl + 1) =~= m.name);
        let pre = m.mode + seq![32u8] + m.name + seq![0u8];
        assert(head =~= pre + m.oid20);
        assert forall|k: int| 0 <= k < 20 implies s.subrange(nul + 1, nul + 21)[k] == m.oid20[k] by {
            let j = (nul + 1 - pos) + k;
            assert(s.subrange(nul + 1, nul + 21)[k] == s[nul + 1 + k]);
            assert(s[nul + 1 + k] == s.skip(pos)[j]);
            assert(s.skip(pos)[j] == enc[j]);
            assert(enc[j] == head[j]);
            assert(head[j] == (pre + m.oid20)[j]);
            assert((pre + m.oid20)[j] == m.oid20[k]);
        }
        assert(s.subrange(nul + 1, nul + 21) =~= m.oid20);
        assert(s.skip(nul + 21) =~= rest) by {
            assert(forall|k: int| 0 <= k < rest.len() ==> s.skip(pos)[head.len() + k]
                == #[trigger] rest[k]);
        }
        lemma_tree_parse_at(models.drop_first(), s, nul + 21);
        assert(spec_tree_entries(s, pos) =~= models);
    }
}

/// The id of the first raw entry named `name`.
pub open spec fn spec_find_entry(models: Seq<TreeEntryRaw>, name: Seq<u8>) -> Option<Seq<u8>>
    decreases models.len(),
{
    if models.len() == 0 {
        None
    } else if models[0].name == name {
        Some(models[0].oid20)
    } else {
        spec_find_entry(models.drop_first(), name)
    }
}

/// Looks a name up in a stored tree object, returning the entry's id in
/// lowercase hex.
pub fn find_entry_in_tree(data: &[u8], name: &str) -> (r: Option<String>)
    ensures
        ({
            let found = spec_find_entry(spec_tree_models(data@), vstd::utf8::encode_utf8(name@));
            match found {
                None => r is None,
                Some(oid20) => r matches Some(s) && s@ == chars_of_bytes(hex_of(oid20)),
            }
        }),
{
    match find_entry_in_tree_bytes(data, name.as_bytes()) {
        None => None,
        Some(hx) => {
            proof {
                match spec_find_entry(spec_tree_models(data@), vstd::utf8::encode_utf8(name@)) {
                    Some(oid20) => {
                        lemma_hex_chars_pub(oid20);
                    },
                    None => {},
                }
            }
            Some(string_of_bytes_or_empty(hx.as_slice()))
        },
    }
}

/// Looks a byte name up in a stored tree object, returning the entry's
/// id as hex bytes.
pub fn find_entry_in_tree_bytes(data: &[u8], name: &[u8]) -> (r: Option<Vec<u8>>)
    ensures
        ({
            let found = spec_find_entry(spec_tree_models(data@), name@);
            match found {
                None => r is None,
                Some(oid20) => r matches Some(v) && v@ == hex_of(oid20),
            }
        }),
{
    let ghost name_b = name@;
    let content = match object_payload(data) {
        None => {
            proof {
                assert(spec_tree_models(data@) =~= Seq::<TreeEntryRaw>::empty());
            }
            return None;
        },
        Some(c) => c,
    };
    let nb = name;
    let ghost models = spec_tree_entries(content@, 0);
    proof {
        assert(spec_tree_models(data@) == models);
    }
    let n = content.len();
    let mut pos: usize = 0;
    loop
        invariant_except_break
            content@.len() == n,
            pos <= n,
            nb@ == name_b,
            models == spec_tree_entries(content@, 0),
            spec_tree_models(data@) == models,
            name_b == name@,
            spec_find_entry(models, name_b) == spec_find_entry(
                spec_tree_entries(content@, pos as int),
                name_b,
            ),
        ensures
            spec_find_entry(models, name_b) is None,
        decreases n - pos,
    {
        let ghost tail = spec_tree_entries(content@, pos as int);
        if pos >= n {
            break;
        }
        let c = content.as_slice();
        let nul = match find_byte(c, 0, pos) {
            Some(p) => p,
            None => {
                break;
            },
        };
        let header = slice_subrange(c, pos, nul);
        proof {
            assert(header@ =~= content@.subrange(pos as int, nul as int));
        }
        if crate::text::string_of_bytes(header).is_none() {
            break;
        }
        let sp = match find_byte(header, 32, 0) {
            Some(p) => p,
            None => {
                break;
            },
        };
        if 21 > n - nul {
            break;
        }
        let entry_name = slice_subrange(header, sp + 1, header.len());
        let oid_b = slice_subrange(c, nul + 1, nul + 21);
        proof {
            assert(entry_name@ =~= header@.skip(sp + 1));
            assert(oid_b@ =~= content@.subrange(nul + 1, nul + 21));
            assert(tail[0] == TreeEntryRaw {
                mode: header@.take(sp as int),
                name: header@.skip(sp + 1),
                oid20: content@.subrange(nul + 1, nul + 21),
            });
            assert(tail.drop_first() =~= spec_tree_entries(content@, nul + 21));
        }
        if bytes_eq(entry_name, nb) {
            let oid_hex = hex_encode(oid_b);
            proof {
                assert(tail[0].name == name_b);
                assert(spec_find_entry(tail, name_b) == Some(tail[0].oid20));
            }
            return Some(oid_hex);
        }
        pos = nul + 21;
    }
    None
}

/// A listed entry fit for the round trip: a root listing whose path is
/// its name, a tree or blob type, a name whose bytes hold no NUL, and a
/// forty-lowercase-hex id.
pub open spec fn spec_listing_entry_wf(e: (Seq<char>, Seq<char>, Seq<char>, Seq<char>)) -> bool {
    &&& (e.1 == "tree"@ || e.1 == "blob"@)
    &&& e.3 == e.0
    &&& (forall|k: int| 0 <= k < vstd::utf8::encode_utf8(e.0).len()
        ==> #[trigger] vstd::utf8::encode_utf8(e.0)[k] != 0)
    &&& spec_entry_oid_ok(e)
}

/// The characters of the subtree mode are `40000`.
proof fn lemma_tree_mode_chars()
    ensures
        chars_of_bytes(spec_tree_mode()) == "40000"@,
        spec_is_tree_mode(chars_of_bytes(spec_tree_mode())),
{
    reveal_strlit("40000");
    assert(vstd::utf8::is_ascii_chars("40000"@));
    vstd::utf8::is_ascii_chars_encode_utf8("40000"@);
    assert(vstd::utf8::encode_utf8("40000"@) =~= spec_tree_mode());
    vstd::utf8::encode_utf8_valid_utf8("40000"@);
    vstd::utf8::encode_utf8_decode_utf8("40000"@);
}

/// The characters of the file mode are `100644`, which is no subtree
/// mode.
proof fn lemma_blob_mode_chars()
    ensures
        chars_of_bytes(spec_blob_mode()) == "100644"@,
        !spec_is_tree_mode(chars_of_bytes(spec_blob_mode())),
{
    reveal_strlit("100644");
    reveal_strlit("40000");
    reveal_strlit("040000");
    assert(vstd::utf8::is_ascii_chars("100644"@));
    vstd::utf8::is_ascii_chars_encode_utf8("100644"@);
    assert(vstd::utf8::encode_utf8("100644"@) =~= spec_blob_mode());
    vstd::utf8::encode_utf8_valid_utf8("100644"@);
    vstd::utf8::encode_utf8_decode_utf8("100644"@);
    assert("100644"@.len() == 6 && "40000"@.len() == 5 && "040000"@.len() == 6);
    assert("100644"@[0] == '1' && "040000"@[0] == '0');
}

/// Listings round-trip end to end: serializing a fit listing and parsing
/// the payload back yields exactly the same listed entries, names, types,
/// hex ids and root paths alike.
pub proof fn lemma_listing_round_trip(es: Seq<(Seq<char>, Seq<char>, Seq<char>, Seq<char>)>)
    requires
        forall|i: int| 0 <= i < es.len() ==> spec_listing_entry_wf(#[trigger] es[i]),
    ensures
        spec_listing(
            spec_tree_entries(
                spec_serialize_tree(
                    es.map(
                        |i: int, e: (Seq<char>, Seq<char>, Seq<char>, Seq<char>)| spec_entry_raw(
                            e,
                        ),
                    ),
                ),
                0,
            ),
            Seq::empty(),
        ) == es,
{
    let models = es.map(
        |i: int, e: (Seq<char>, Seq<char>, Seq<char>, Seq<char>)| spec_entry_raw(e),
    );
    reveal_strlit("tree");
    reveal_strlit("blob");
    assert("tree"@.len() == 4 && "blob"@.len() == 4);
    assert("tree"@[0] == 't' && "blob"@[0] == 'b');
    assert forall|i: int| 0 <= i < models.len() implies spec_entry_wf(#[trigger] models[i]) by {
        let e = es[i];
        let m = models[i];
        assert(m == spec_entry_raw(e));
        crate::hex::lemma_unhex_len(vstd::utf8::encode_utf8(e.2));
        assert(m.oid20.len() == 20);
        assert(forall|k: int| 0 <= k < m.mode.len() ==> #[trigger] m.mode[k] != 0 && m.mode[k]
            != 32);
        assert(m.mode.len() > 0);
        vstd::utf8::encode_utf8_valid_utf8(e.0);
        lemma_ascii_valid(m.mode + seq![32u8]);
        vstd::utf8::valid_utf8_concat(m.mode + seq![32u8], m.name);
        assert(m.mode + seq![32u8] + m.name =~= (m.mode + seq![32u8]) + m.name);
        assert(vstd::utf8::valid_utf8(m.mode + seq![32u8] + m.name));
        assert(forall|k: int| 0 <= k < m.name.len() ==> #[trigger] m.name[k] != 0);
    }
    lemma_tree_round_trip(models);
    let parsed = spec_tree_entries(spec_serialize_tree(models), 0);
    assert(parsed == models);
    assert forall|i: int| 0 <= i < es.len() implies spec_listing(models, Seq::empty())[i]
        == #[trigger] es[i] by {
        let e = es[i];
        let m = models[i];
        assert(spec_listing(models, Seq::empty())[i] == spec_listing_entry(m, Seq::empty()));
        vstd::utf8::encode_utf8_valid_utf8(e.0);
        vstd::utf8::encode_utf8_decode_utf8(e.0);
        assert(chars_of_bytes(m.name) == e.0);
        crate::hex::lemma_hex_of_unhex(vstd::utf8::encode_utf8(e.2));
        assert(hex_of(m.oid20) == vstd::utf8::encode_utf8(e.2));
        vstd::utf8::encode_utf8_valid_utf8(e.2);
        vstd::utf8::encode_utf8_decode_utf8(e.2);
        assert(chars_of_bytes(hex_of(m.oid20)) == e.2);
        if e.1 == "tree"@ {
            assert(m.mode == spec_tree_mode());
            lemma_tree_mode_chars();
            assert(spec_listing_entry(m, Seq::empty()).1 == "tree"@);
        } else {
            assert(m.mode == spec_blob_mode());
            lemma_blob_mode_chars();
            assert(spec_listing_entry(m, Seq::empty()).1 == "blob"@);
        }
        assert(spec_listing_entry(m, Seq::empty()) == e);
    }
    assert(spec_listing(models, Seq::empty()) =~= es);
}

} // verus!
