//! Object envelopes, commit parsing, and tree round trips.

use gitbruv::object::{wrap_object, parse_git_object, parse_blob, make_object_frame};
use gitbruv::commit::{
    parse_commit, extract_tree_from_commit, extract_parents_from_commit, get_commit_title,
};
use gitbruv::tree::{parse_tree, serialize_tree, find_entry_in_tree, TreeEntry};
use gitbruv::hex::hex_encode;

fn sha1_digest(data: &[u8]) -> Vec<u8> {
    <sha1::Sha1 as sha1::Digest>::digest(data).to_vec()
}

fn oid_of(kind: &[u8], payload: &[u8]) -> String {
    let framed = make_object_frame(kind, payload);
    String::from_utf8(hex_encode(&sha1_digest(&framed))).unwrap()
}

#[test]
fn wrap_and_parse_object() {
    let raw = wrap_object(b"blob", b"# Hi\n");
    let (t, payload) = parse_git_object(&raw).unwrap();
    assert_eq!(t, "blob".to_string());
    assert_eq!(payload, b"# Hi\n".to_vec());
}

#[test]
fn parse_blob_text() {
    let raw = wrap_object(b"blob", b"content here");
    assert_eq!(parse_blob(&raw).unwrap(), "content here".to_string());
}

#[test]
fn parse_object_rejects_garbage() {
    assert!(parse_git_object(b"not zlib at all").is_none());
}

#[test]
fn commit_fields() {
    let payload = b"tree 1111111111111111111111111111111111111111\n\
parent 2222222222222222222222222222222222222222\n\
author Ada Lovelace <ada@example.org> 1700000000 +0000\n\
committer Ada Lovelace <ada@example.org> 1700000000 +0000\n\
\n\
Add the engine\n\
\n\
Body text.";
    let raw = wrap_object(b"commit", payload);
    let (info, parent) = parse_commit(&raw, "abcd").unwrap();
    assert_eq!(info.oid, "abcd".to_string());
    assert_eq!(
        parent,
        Some("2222222222222222222222222222222222222222".to_string())
    );
    assert_eq!(info.author.name, "Ada Lovelace".to_string());
    assert_eq!(info.author.email, "ada@example.org".to_string());
    assert_eq!(info.timestamp, 1700000000000);
    assert_eq!(info.message, "Add the engine\n\nBody text.".to_string());
    assert_eq!(get_commit_title(&info.message), "Add the engine".to_string());
}

#[test]
fn commit_without_parent() {
    let payload = b"tree 1111111111111111111111111111111111111111\n\
author A <a@b> 5 +0000\n\n\
msg";
    let raw = wrap_object(b"commit", payload);
    let (info, parent) = parse_commit(&raw, "x").unwrap();
    assert_eq!(parent, None);
    assert_eq!(info.timestamp, 5000);
    assert_eq!(
        extract_tree_from_commit(payload).unwrap(),
        "1111111111111111111111111111111111111111".to_string()
    );
}

#[test]
fn commit_parents_all_listed() {
    let payload = b"tree 1111111111111111111111111111111111111111\n\
parent aaaaaaaaaaaaaaaaaaaaaaaaaaaaaaaaaaaaaaaa\n\
parent bbbbbbbbbbbbbbbbbbbbbbbbbbbbbbbbbbbbbbbb\n\n\
merge";
    let parents = extract_parents_from_commit(payload);
    assert_eq!(
        parents,
        vec![
            "aaaaaaaaaaaaaaaaaaaaaaaaaaaaaaaaaaaaaaaa".to_string(),
            "bbbbbbbbbbbbbbbbbbbbbbbbbbbbbbbbbbbbbbbb".to_string()
        ]
    );
}

fn entry(name: &str, t: &str, oid: &str, path: &str) -> TreeEntry {
    TreeEntry {
        name: name.to_string(),
        entry_type: t.to_string(),
        oid: oid.to_string(),
        path: path.to_string(),
    }
}

#[test]
fn tree_round_trip_sorted() {
    // Subtrees first, then names ascending: already in listing order.
    let a = "aaaaaaaaaaaaaaaaaaaaaaaaaaaaaaaaaaaaaaaa";
    let b = "bbbbbbbbbbbbbbbbbbbbbbbbbbbbbbbbbbbbbbbb";
    let c = "cccccccccccccccccccccccccccccccccccccccc";
    let entries = vec![
        entry("src", "tree", a, "src"),
        entry("a.txt", "blob", b, "a.txt"),
        entry("readme.md", "blob", c, "readme.md"),
    ];
    let payload = serialize_tree(&entries).unwrap();
    let raw = wrap_object(b"tree", &payload);
    let parsed = parse_tree(&raw, "");
    assert_eq!(parsed.len(), 3);
    for (p, e) in parsed.iter().zip(entries.iter()) {
        assert_eq!(p.name, e.name);
        assert_eq!(p.entry_type, e.entry_type);
        assert_eq!(p.oid, e.oid);
        assert_eq!(p.path, e.path);
    }
}

#[test]
fn tree_parse_sorts_subtrees_first() {
    let a = "aaaaaaaaaaaaaaaaaaaaaaaaaaaaaaaaaaaaaaaa";
    let b = "bbbbbbbbbbbbbbbbbbbbbbbbbbbbbbbbbbbbbbbb";
    let entries = vec![
        entry("zz.txt", "blob", a, "zz.txt"),
        entry("dir", "tree", b, "dir"),
    ];
    let payload = serialize_tree(&entries).unwrap();
    let raw = wrap_object(b"tree", &payload);
    let parsed = parse_tree(&raw, "");
    assert_eq!(parsed[0].name, "dir".to_string());
    assert_eq!(parsed[0].entry_type, "tree".to_string());
    assert_eq!(parsed[1].name, "zz.txt".to_string());
}

#[test]
fn tree_paths_join_base() {
    let a = "aaaaaaaaaaaaaaaaaaaaaaaaaaaaaaaaaaaaaaaa";
    let entries = vec![entry("f.txt", "blob", a, "f.txt")];
    let payload = serialize_tree(&entries).unwrap();
    let raw = wrap_object(b"tree", &payload);
    let parsed = parse_tree(&raw, "sub/dir");
    assert_eq!(parsed[0].path, "sub/dir/f.txt".to_string());
}

#[test]
fn serialize_tree_rejects_bad_oid() {
    let entries = vec![entry("x", "blob", "nothex", "x")];
    assert!(serialize_tree(&entries).is_none());
}

#[test]
fn find_entry_by_name() {
    let a = "aaaaaaaaaaaaaaaaaaaaaaaaaaaaaaaaaaaaaaaa";
    let b = "bbbbbbbbbbbbbbbbbbbbbbbbbbbbbbbbbbbbbbbb";
    let entries = vec![
        entry("one", "blob", a, "one"),
        entry("two", "blob", b, "two"),
    ];
    let payload = serialize_tree(&entries).unwrap();
    let raw = wrap_object(b"tree", &payload);
    assert_eq!(find_entry_in_tree(&raw, "two").unwrap(), b.to_string());
    assert!(find_entry_in_tree(&raw, "three").is_none());
}

#[test]
fn oid_is_stable() {
    // The loose-object id is the SHA-1 of the canonical envelope.
    let oid = oid_of(b"blob", b"# Hi\n");
    assert_eq!(oid.len(), 40);
    let again = oid_of(b"blob", b"# Hi\n");
    assert_eq!(oid, again);
}
