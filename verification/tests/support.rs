//! Support helpers: diffs, URL normalization, gate helpers.

use gitbruv::diff::compute_unified_diff;
use gitbruv::config::normalize_url;
use gitbruv::auth::{mask_email, is_git_http_path, basic_auth_cache_key};
use gitbruv::store::BlobStore;
use gitbruv::repo::R2GitStore;
use gitbruv::object::{wrap_object, make_object_frame};
use gitbruv::tree::{serialize_tree, TreeEntry};
use gitbruv::hex::hex_encode;

fn sha1_digest(data: &[u8]) -> Vec<u8> {
    <sha1::Sha1 as sha1::Digest>::digest(data).to_vec()
}

fn oid_of(kind: &[u8], payload: &[u8]) -> String {
    let framed = make_object_frame(kind, payload);
    String::from_utf8(hex_encode(&sha1_digest(&framed))).unwrap()
}

fn entry(name: &str, t: &str, oid: &str, path: &str) -> TreeEntry {
    TreeEntry {
        name: name.to_string(),
        entry_type: t.to_string(),
        oid: oid.to_string(),
        path: path.to_string(),
    }
}

#[test]
fn unified_diff_counts() {
    let hunks = compute_unified_diff("a\nb\nc\n", "a\nx\nc\n");
    assert_eq!(hunks.len(), 1);
    let h = &hunks[0];
    assert_eq!(h.old_start, 1);
    assert_eq!(h.new_start, 1);
    let dels: usize = h
        .lines
        .iter()
        .filter(|l| l.line_type == "deletion")
        .count();
    let adds: usize = h
        .lines
        .iter()
        .filter(|l| l.line_type == "addition")
        .count();
    assert_eq!(dels, 1);
    assert_eq!(adds, 1);
    assert_eq!(h.old_lines, h.lines.len() - adds);
    assert_eq!(h.new_lines, h.lines.len() - dels);
}

#[test]
fn unified_diff_equal_texts() {
    assert!(compute_unified_diff("same\n", "same\n").is_empty());
}

#[test]
fn commit_diff_statuses() {
    let mut store = BlobStore::new();
    store.put(
        b"repos/u/r.git/HEAD".to_vec(),
        b"ref: refs/heads/main\n".to_vec(),
    );
    let mut repo = R2GitStore::new(store, b"repos/u/r.git".to_vec());
    let old_blob = b"one\n".to_vec();
    let new_blob = b"two\n".to_vec();
    let ob = oid_of(b"blob", &old_blob);
    let nb = oid_of(b"blob", &new_blob);
    let old_tree = serialize_tree(&vec![
        entry("f.txt", "blob", &ob, "f.txt"),
        entry("gone.txt", "blob", &ob, "gone.txt"),
    ])
    .unwrap();
    let new_tree = serialize_tree(&vec![
        entry("f.txt", "blob", &nb, "f.txt"),
        entry("new.txt", "blob", &nb, "new.txt"),
    ])
    .unwrap();
    let ot = oid_of(b"tree", &old_tree);
    let nt = oid_of(b"tree", &new_tree);
    for (oid, kind, payload) in [
        (&ob, b"blob" as &[u8], &old_blob),
        (&nb, b"blob", &new_blob),
        (&ot, b"tree", &old_tree),
        (&nt, b"tree", &new_tree),
    ] {
        assert!(repo.put_object_checked(oid.as_bytes(), wrap_object(kind, payload)));
    }
    let old_oid_vec = ot.as_bytes().to_vec();
    let diffs = repo.compare_trees(Some(&old_oid_vec), nt.as_bytes(), "", 100);
    let statuses: Vec<(String, String)> = diffs
        .iter()
        .map(|d| (d.path.clone(), d.status.clone()))
        .collect();
    assert_eq!(
        statuses,
        vec![
            ("f.txt".to_string(), "modified".to_string()),
            ("gone.txt".to_string(), "deleted".to_string()),
            ("new.txt".to_string(), "added".to_string()),
        ]
    );
}

#[test]
fn url_normalization() {
    assert_eq!(
        normalize_url("http://x.test"),
        "http://x.test".to_string()
    );
    assert_eq!(
        normalize_url("https://x.test"),
        "https://x.test".to_string()
    );
    assert_eq!(
        normalize_url("localhost:8080"),
        "http://localhost:8080".to_string()
    );
    assert_eq!(
        normalize_url("127.0.0.1:9"),
        "http://127.0.0.1:9".to_string()
    );
    assert_eq!(normalize_url("::1"), "http://::1".to_string());
    assert_eq!(
        normalize_url("auth.example.org"),
        "https://auth.example.org".to_string()
    );
}

#[test]
fn email_masking() {
    assert_eq!(mask_email("ada@example.org"), "a***@example.org".to_string());
    assert_eq!(mask_email("no-at-sign"), "n***".to_string());
    assert_eq!(mask_email(""), "****".to_string());
}

#[test]
fn git_http_paths() {
    assert!(is_git_http_path("/u/r/info/refs"));
    assert!(is_git_http_path("/u/r/git-upload-pack"));
    assert!(is_git_http_path("/u/r/git-receive-pack"));
    assert!(!is_git_http_path("/u/r/tree"));
}

#[test]
fn basic_auth_key_is_sha1_hex() {
    let k = basic_auth_cache_key("a@b", "pw");
    assert_eq!(k.len(), 40);
    let again = basic_auth_cache_key("a@b", "pw");
    assert_eq!(k, again);
    let other = basic_auth_cache_key("a@b", "pw2");
    assert_ne!(k, other);
    // The key is the SHA-1 of "email:password" in hex.
    let expected = String::from_utf8(hex_encode(&sha1_digest(b"a@b:pw"))).unwrap();
    assert_eq!(k, expected);
}

#[test]
fn skeletal_index_bytes() {
    let pack = b"PACK............".to_vec();
    let idx = gitbruv::idx::create_pack_index(&pack).unwrap();
    assert_eq!(&idx[0..4], &[0xff, 0x74, 0x4f, 0x63]);
    assert_eq!(&idx[4..8], &2u32.to_be_bytes());
    assert!(idx[8..8 + 1024].iter().all(|&b| b == 0));
    assert_eq!(idx.len(), 8 + 1024 + 40);
    // The lookup finds nothing in an all-zero fanout.
    let any = [0u8; 20];
    assert_eq!(gitbruv::idx::find_object_in_index_pub(&idx, &any), None);
}

#[test]
fn index_lookup_finds_entries() {
    // A handmade index with one object whose id starts with 0xab.
    let mut idx = vec![0xff, 0x74, 0x4f, 0x63];
    idx.extend_from_slice(&2u32.to_be_bytes());
    let mut fanout = [0u32; 256];
    for i in 0xab..256 {
        fanout[i] = 1;
    }
    for f in fanout {
        idx.extend_from_slice(&f.to_be_bytes());
    }
    let mut oid = [0u8; 20];
    oid[0] = 0xab;
    oid[19] = 0x01;
    idx.extend_from_slice(&oid);
    idx.extend_from_slice(&0u32.to_be_bytes()); // crc
    idx.extend_from_slice(&42u32.to_be_bytes()); // offset
    assert_eq!(gitbruv::idx::find_object_in_index_pub(&idx, &oid), Some(42));
    let mut other = oid;
    other[19] = 0x02;
    assert_eq!(gitbruv::idx::find_object_in_index_pub(&idx, &other), None);
}

#[test]
fn deleted_subtree_lists_every_blob() {
    let mut store = BlobStore::new();
    store.put(
        b"repos/u/r.git/HEAD".to_vec(),
        b"ref: refs/heads/main\n".to_vec(),
    );
    let mut repo = R2GitStore::new(store, b"repos/u/r.git".to_vec());
    let blob = b"data\n".to_vec();
    let bo = oid_of(b"blob", &blob);
    // Old side: a subtree "dir" holding two blobs; new side: empty tree.
    let inner = serialize_tree(&vec![
        entry("a.txt", "blob", &bo, "a.txt"),
        entry("b.txt", "blob", &bo, "b.txt"),
    ])
    .unwrap();
    let io = oid_of(b"tree", &inner);
    let old_tree = serialize_tree(&vec![entry("dir", "tree", &io, "dir")]).unwrap();
    let new_tree = serialize_tree(&vec![]).unwrap();
    let ot = oid_of(b"tree", &old_tree);
    let nt = oid_of(b"tree", &new_tree);
    for (oid, kind, payload) in [
        (&bo, b"blob" as &[u8], &blob),
        (&io, b"tree", &inner),
        (&ot, b"tree", &old_tree),
        (&nt, b"tree", &new_tree),
    ] {
        assert!(repo.put_object_checked(oid.as_bytes(), wrap_object(kind, payload)));
    }
    let old_vec = ot.as_bytes().to_vec();
    let diffs = repo.compare_trees(Some(&old_vec), nt.as_bytes(), "", 100);
    let got: Vec<(String, String)> = diffs
        .iter()
        .map(|d| (d.path.clone(), d.status.clone()))
        .collect();
    assert_eq!(
        got,
        vec![
            ("dir/a.txt".to_string(), "deleted".to_string()),
            ("dir/b.txt".to_string(), "deleted".to_string()),
        ]
    );
    // The walk itself lists both leaves with their paths.
    let blobs = repo.collect_all_blobs_in_tree(io.as_bytes(), "dir", 100);
    assert_eq!(blobs.len(), 2);
    assert!(blobs.contains(&("dir/a.txt".to_string(), bo.clone())));
    assert!(blobs.contains(&("dir/b.txt".to_string(), bo.clone())));
    // Each deletion's counters come from its hunks.
    for d in &diffs {
        assert_eq!(d.additions, 0);
        assert_eq!(d.deletions, 1);
    }
}

#[test]
fn advertisement_cache_insert_replaces() {
    let mut cache = gitbruv::cache::InfoRefsCache::new(2000);
    cache.insert(b"k".to_vec(), b"v1".to_vec(), 1000);
    assert_eq!(cache.lookup(b"k", 1500), Some(b"v1".to_vec()));
    // A later insert under the same key replaces the body and the clock.
    cache.insert(b"k".to_vec(), b"v2".to_vec(), 4000);
    assert_eq!(cache.lookup(b"k", 4500), Some(b"v2".to_vec()));
    assert_eq!(cache.lookup(b"k", 7000), None);
}
