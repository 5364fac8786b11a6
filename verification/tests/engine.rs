//! End-to-end engine scenarios over a snapshot store: pushes, fetches,
//! ref precedence, delta resolution and branch metadata.

use gitbruv::store::BlobStore;
use gitbruv::repo::R2GitStore;
use gitbruv::object::{wrap_object, make_object_frame, parse_git_object};
use gitbruv::tree::{serialize_tree, TreeEntry};
use gitbruv::hex::hex_encode;
use gitbruv::pkt::{pkt_encode, pkt_parse, PktPart};
use gitbruv::pack::build_packfile;
use gitbruv::cache::{invalidate_branch_cache, InfoRefsCache, RedisClient};

fn sha1_digest(data: &[u8]) -> Vec<u8> {
    <sha1::Sha1 as sha1::Digest>::digest(data).to_vec()
}

fn compress_zlib(data: &[u8]) -> Vec<u8> {
    let mut encoder = flate2::write::ZlibEncoder::new(Vec::new(), flate2::Compression::default());
    std::io::Write::write_all(&mut encoder, data).unwrap();
    encoder.finish().unwrap()
}

fn oid_of(kind: &[u8], payload: &[u8]) -> String {
    let framed = make_object_frame(kind, payload);
    String::from_utf8(hex_encode(&sha1_digest(&framed))).unwrap()
}

fn entry(name: &str, t: &str, oid: &str, path: &str) -> TreeEntry {
    TreeEntry {
        name: name.to_string(),
        entry_type: t.to_string(),
        oid: oid.to_string(),
        path: path.to_string(),
    }
}

fn new_repo() -> R2GitStore {
    let mut store = BlobStore::new();
    store.put(
        b"repos/u1/r1.git/HEAD".to_vec(),
        b"ref: refs/heads/main\n".to_vec(),
    );
    R2GitStore::new(store, b"repos/u1/r1.git".to_vec())
}

fn commit_payload(tree_oid: &str, parent: Option<&str>, msg: &str) -> Vec<u8> {
    let mut p = Vec::new();
    p.extend_from_slice(b"tree ");
    p.extend_from_slice(tree_oid.as_bytes());
    p.push(b'\n');
    if let Some(par) = parent {
        p.extend_from_slice(b"parent ");
        p.extend_from_slice(par.as_bytes());
        p.push(b'\n');
    }
    p.extend_from_slice(b"author A <a@b> 1700000000 +0000\n");
    p.extend_from_slice(b"committer A <a@b> 1700000000 +0000\n\n");
    p.extend_from_slice(msg.as_bytes());
    p
}

#[test]
fn empty_repo_advertisement() {
    let repo = new_repo();
    let body = repo.get_refs_advertisement(true);
    let frames = pkt_parse(&body);
    assert_eq!(frames.len(), 2);
    match &frames[0] {
        PktPart::Line(p) => {
            let text = String::from_utf8(p.clone()).unwrap();
            let zero = "0".repeat(40);
            assert!(text.starts_with(&format!("{} capabilities^{{}}\0", zero)));
            assert!(text.contains("symref=HEAD:refs/heads/main"));
            assert!(text.ends_with('\n'));
        }
        PktPart::Flush => panic!("expected the capabilities line"),
    }
    assert!(matches!(frames[1], PktPart::Flush));
}

#[test]
fn advertisement_head_first() {
    let mut repo = new_repo();
    let blob = b"# Hi\n".to_vec();
    let b_oid = oid_of(b"blob", &blob);
    let tree = serialize_tree(&vec![entry("readme.md", "blob", &b_oid, "readme.md")]).unwrap();
    let t_oid = oid_of(b"tree", &tree);
    let c0 = commit_payload(&t_oid, None, "init\n");
    let c_oid = oid_of(b"commit", &c0);
    assert!(repo.put_object_checked(b_oid.as_bytes(), wrap_object(b"blob", &blob)));
    assert!(repo.put_object_checked(t_oid.as_bytes(), wrap_object(b"tree", &tree)));
    assert!(repo.put_object_checked(c_oid.as_bytes(), wrap_object(b"commit", &c0)));
    repo.write_ref(b"refs/heads/main", c_oid.as_bytes());

    let body = repo.get_refs_advertisement(true);
    let frames = pkt_parse(&body);
    match &frames[0] {
        PktPart::Line(p) => {
            let text = String::from_utf8(p.clone()).unwrap();
            assert!(text.starts_with(&format!("{} HEAD\0", c_oid)));
            assert!(text.contains("symref=HEAD:refs/heads/main"));
        }
        PktPart::Flush => panic!("expected the HEAD line"),
    }
    // The branch itself is listed as a plain line.
    let all = String::from_utf8_lossy(&body).to_string();
    assert!(all.contains("refs/heads/main"));
}

fn push_body(old: &str, new: &str, refname: &str, pack: &[u8]) -> Vec<u8> {
    let line = format!("{} {} {}\0 report-status", old, new, refname);
    let mut body = pkt_encode(&vec![
        PktPart::Line(line.into_bytes()),
        PktPart::Flush,
    ]);
    body.extend_from_slice(pack);
    body
}

#[test]
fn loose_commit_push() {
    let mut repo = new_repo();
    let blob = b"# Hi\n".to_vec();
    let b_oid = oid_of(b"blob", &blob);
    let tree = serialize_tree(&vec![entry("readme.md", "blob", &b_oid, "readme.md")]).unwrap();
    let t_oid = oid_of(b"tree", &tree);
    let c0 = commit_payload(&t_oid, None, "init\n");
    let c_oid = oid_of(b"commit", &c0);

    let pack = build_packfile(&vec![
        (1u8, c0.clone()),
        (2u8, tree.clone()),
        (3u8, blob.clone()),
    ])
    .unwrap();
    let zero = "0".repeat(40);
    let body = push_body(&zero, &c_oid, "refs/heads/main", &pack);

    let (resp, updates) = repo.handle_receive_pack(&body);
    let text = String::from_utf8(resp).unwrap();
    assert!(text.starts_with("000eunpack ok\n"));
    assert!(text.contains("ok refs/heads/main\n"));
    assert!(text.ends_with("0000"));
    assert_eq!(updates.len(), 1);
    assert_eq!(updates[0].1, c_oid.as_bytes().to_vec());

    // The ref now resolves to the pushed commit.
    let head = repo.resolve_ref(b"refs/heads/main").unwrap();
    assert_eq!(head, c_oid.as_bytes().to_vec());

    // The root tree lists the readme, served out of the received pack.
    let entries = repo.get_tree(b"main", "").unwrap();
    assert_eq!(entries.len(), 1);
    assert_eq!(entries[0].name, "readme.md".to_string());
    assert_eq!(entries[0].entry_type, "blob".to_string());
    assert_eq!(entries[0].oid, b_oid);
    assert_eq!(entries[0].path, "readme.md".to_string());
    assert_eq!(
        gitbruv::browse::find_readme_oid(&entries).unwrap(),
        b_oid
    );

    // One commit on the branch.
    assert_eq!(
        repo.count_commits_until(c_oid.as_bytes(), None, 10000),
        Some(1)
    );

    // Every pushed object resolves to bytes that reopen as a canonical
    // object of the declared type.
    let mut r2 = repo;
    for (oid, kind) in [(&c_oid, "commit"), (&t_oid, "tree"), (&b_oid, "blob")] {
        let raw = r2.get_object(oid.as_bytes()).unwrap();
        let (t, _payload) = parse_git_object(&raw).unwrap();
        assert_eq!(&t, kind);
    }
}

#[test]
fn ofs_delta_resolution() {
    // A pack holding a blob and an OFS_DELTA that rewrites it.
    let base_payload = b"hello world\n".to_vec();
    let mut delta = vec![12u8, 12u8];
    delta.push(0x91);
    delta.push(0);
    delta.push(6);
    delta.push(6);
    delta.extend_from_slice(b"there!");

    let mut pack = Vec::new();
    pack.extend_from_slice(b"PACK");
    pack.extend_from_slice(&2u32.to_be_bytes());
    pack.extend_from_slice(&2u32.to_be_bytes());
    let o1 = pack.len() as u64;
    pack.push(0x30 | base_payload.len() as u8); // type 3, size 12
    pack.extend_from_slice(&compress_zlib(&base_payload));
    let o2 = pack.len() as u64;
    pack.push(0x60 | delta.len() as u8); // type 6, small size
    pack.push((o2 - o1) as u8); // one-byte back-offset
    pack.extend_from_slice(&compress_zlib(&delta));
    let digest = sha1_digest(&pack);
    pack.extend_from_slice(&digest);

    let mut repo = new_repo();
    let body = push_body(
        &"0".repeat(40),
        &"0".repeat(40),
        "refs/heads/none",
        &pack,
    );
    // Push only stores the pack; the delete command touches no object.
    let (_resp, _updates) = repo.handle_receive_pack(&body);

    let target_oid = oid_of(b"blob", b"hello there!");
    let raw = repo.get_object(target_oid.as_bytes()).unwrap();
    let (t, payload) = parse_git_object(&raw).unwrap();
    assert_eq!(t, "blob".to_string());
    assert_eq!(payload, b"hello there!".to_vec());
}

#[test]
fn ref_delta_across_packs() {
    let mut repo = new_repo();
    // Pack A: a plain commit.
    let tree_oid = "1111111111111111111111111111111111111111";
    let base = commit_payload(tree_oid, None, "first\n");
    let base_oid = oid_of(b"commit", &base);
    let pack_a = build_packfile(&vec![(1u8, base.clone())]).unwrap();
    let zero = "0".repeat(40);
    let (_r, _u) = repo.handle_receive_pack(&push_body(&zero, &zero, "refs/heads/a", &pack_a));

    // Pack B: a REF_DELTA against the commit in pack A, rewriting it
    // wholesale into a commit with another message.
    let target = commit_payload(tree_oid, None, "second\n");
    let delta = gitbruv::delta::make_delta(&base, &target);
    let mut pack_b = Vec::new();
    pack_b.extend_from_slice(b"PACK");
    pack_b.extend_from_slice(&2u32.to_be_bytes());
    pack_b.extend_from_slice(&1u32.to_be_bytes());
    // Header: type 7, delta length in the low bits plus a varint tail.
    let dlen = delta.len();
    if dlen < 16 {
        pack_b.push(0x70 | dlen as u8);
    } else {
        pack_b.push(0x80 | 0x70 | (dlen & 0x0f) as u8);
        let mut rest = dlen >> 4;
        loop {
            let mut byte = (rest & 0x7f) as u8;
            rest >>= 7;
            if rest > 0 {
                byte |= 0x80;
            }
            pack_b.push(byte);
            if rest == 0 {
                break;
            }
        }
    }
    pack_b.extend_from_slice(&gitbruv::hex::hex_decode(base_oid.as_bytes()).unwrap());
    pack_b.extend_from_slice(&compress_zlib(&delta));
    let digest = sha1_digest(&pack_b);
    pack_b.extend_from_slice(&digest);
    let (_r, _u) = repo.handle_receive_pack(&push_body(&zero, &zero, "refs/heads/b", &pack_b));

    let target_oid = oid_of(b"commit", &target);
    let raw = repo.get_object(target_oid.as_bytes()).unwrap();
    let (t, payload) = parse_git_object(&raw).unwrap();
    assert_eq!(t, "commit".to_string());
    assert_eq!(payload, target);
}

#[test]
fn packed_refs_precedence() {
    let mut repo = new_repo();
    let aaaa = "a".repeat(40);
    let bbbb = "b".repeat(40);
    repo.store.put(
        b"repos/u1/r1.git/packed-refs".to_vec(),
        format!("# pack-refs with: peeled\n{} refs/heads/feature\n", aaaa).into_bytes(),
    );
    let listed = repo.list_refs(b"refs/heads");
    assert_eq!(listed.len(), 1);
    assert_eq!(listed[0].0, b"refs/heads/feature".to_vec());
    assert_eq!(listed[0].1, aaaa.as_bytes().to_vec());
    assert_eq!(
        repo.resolve_ref(b"refs/heads/feature").unwrap(),
        aaaa.as_bytes().to_vec()
    );

    // A loose ref of the same name shadows the packed entry.
    repo.write_ref(b"refs/heads/feature", bbbb.as_bytes());
    let listed = repo.list_refs(b"refs/heads");
    assert_eq!(listed.len(), 1);
    assert_eq!(listed[0].1, bbbb.as_bytes().to_vec());
    assert_eq!(
        repo.resolve_ref(b"refs/heads/feature").unwrap(),
        bbbb.as_bytes().to_vec()
    );
}

#[test]
fn resolve_ref_bounded_depth() {
    let mut repo = new_repo();
    // A two-step symbolic chain resolves.
    let oid = "c".repeat(40);
    repo.write_ref(b"refs/heads/main", oid.as_bytes());
    assert_eq!(
        repo.resolve_ref(b"HEAD").unwrap(),
        oid.as_bytes().to_vec()
    );
    // A symbolic cycle ends in nothing instead of spinning.
    repo.store.put(
        b"repos/u1/r1.git/refs/x".to_vec(),
        b"ref: refs/y\n".to_vec(),
    );
    repo.store.put(
        b"repos/u1/r1.git/refs/y".to_vec(),
        b"ref: refs/x\n".to_vec(),
    );
    assert_eq!(repo.resolve_ref(b"refs/x"), None);
}

#[test]
fn checked_loose_write_guards_the_key() {
    let mut repo = new_repo();
    let blob = wrap_object(b"blob", b"data");
    let right = oid_of(b"blob", b"data");
    let wrong = "d".repeat(40);
    assert!(!repo.put_object_checked(wrong.as_bytes(), blob.clone()));
    assert!(repo.put_object_checked(right.as_bytes(), blob.clone()));
    let mut r2 = repo;
    assert_eq!(r2.get_object(right.as_bytes()).unwrap(), blob);
}

#[test]
fn upload_pack_flows() {
    let mut repo = new_repo();
    let blob = b"# Hi\n".to_vec();
    let b_oid = oid_of(b"blob", &blob);
    let tree = serialize_tree(&vec![entry("readme.md", "blob", &b_oid, "readme.md")]).unwrap();
    let t_oid = oid_of(b"tree", &tree);
    let c0 = commit_payload(&t_oid, None, "init\n");
    let c_oid = oid_of(b"commit", &c0);
    for (oid, kind, payload) in [
        (&b_oid, b"blob" as &[u8], &blob),
        (&t_oid, b"tree", &tree),
        (&c_oid, b"commit", &c0),
    ] {
        assert!(repo.put_object_checked(oid.as_bytes(), wrap_object(kind, payload)));
    }

    // No wants: a bare flush.
    let empty = repo.handle_upload_pack(&pkt_encode(&vec![PktPart::Flush]));
    assert_eq!(empty, b"0000".to_vec());

    // A want the peer already has: a bare NAK.
    let body = pkt_encode(&vec![
        PktPart::Line(format!("want {}\n", c_oid).into_bytes()),
        PktPart::Line(format!("have {}\n", c_oid).into_bytes()),
        PktPart::Line(format!("have {}\n", t_oid).into_bytes()),
        PktPart::Line(format!("have {}\n", b_oid).into_bytes()),
        PktPart::Flush,
    ]);
    assert_eq!(repo.handle_upload_pack(&body), b"0008NAK\n0000".to_vec());

    // A fresh clone gets a NAK and a pack with all three objects.
    let body = pkt_encode(&vec![
        PktPart::Line(format!("want {}\n", c_oid).into_bytes()),
        PktPart::Flush,
    ]);
    let resp = repo.handle_upload_pack(&body);
    assert!(resp.starts_with(b"0008NAK\n"));
    let pack = &resp[8..];
    assert_eq!(&pack[0..4], b"PACK");
    let count = u32::from_be_bytes([pack[8], pack[9], pack[10], pack[11]]);
    assert_eq!(count, 3);
}

#[test]
fn fast_forward_metadata() {
    let mut repo = new_repo();
    let blob = b"# Hi\n".to_vec();
    let b_oid = oid_of(b"blob", &blob);
    let tree = serialize_tree(&vec![entry("readme.md", "blob", &b_oid, "readme.md")]).unwrap();
    let t_oid = oid_of(b"tree", &tree);
    let c1 = commit_payload(&t_oid, None, "one\n");
    let c1_oid = oid_of(b"commit", &c1);
    let c2 = commit_payload(&t_oid, Some(&c1_oid), "two\n");
    let c2_oid = oid_of(b"commit", &c2);
    let c3 = commit_payload(&t_oid, Some(&c2_oid), "three\n");
    let c3_oid = oid_of(b"commit", &c3);
    for (oid, kind, payload) in [
        (&b_oid, b"blob" as &[u8], &blob),
        (&t_oid, b"tree", &tree),
        (&c1_oid, b"commit", &c1),
        (&c2_oid, b"commit", &c2),
        (&c3_oid, b"commit", &c3),
    ] {
        assert!(repo.put_object_checked(oid.as_bytes(), wrap_object(kind, payload)));
    }
    repo.write_ref(b"refs/heads/main", c3_oid.as_bytes());

    // The incremental count adds the walked distance to the stored row.
    let existing = c1_oid.as_bytes().to_vec();
    let meta = repo
        .build_branch_metadata(
            b"main",
            c1_oid.as_bytes(),
            c3_oid.as_bytes(),
            Some(&existing),
            5,
            false,
        )
        .unwrap();
    assert_eq!(meta.commit_count, 7);
    assert_eq!(meta.head_oid, c3_oid);
    assert_eq!(meta.last_commit_oid, c3_oid);
    assert_eq!(meta.last_commit_message, "three".to_string());
    assert_eq!(meta.readme_oid, Some(b_oid.clone()));
    assert_eq!(meta.root_tree.len(), 1);

    // A full recount agrees: the incremental path is exact.
    let full = repo
        .build_branch_metadata(
            b"main",
            "0".repeat(40).as_bytes(),
            c3_oid.as_bytes(),
            None,
            0,
            false,
        )
        .unwrap();
    assert_eq!(full.commit_count, 3);
    assert_eq!(
        repo.count_commits_until(c3_oid.as_bytes(), Some(&existing), 1000),
        Some(2)
    );

    // The invalidation plan clears the branch-scoped keys.
    let updates = vec![(
        c1_oid.clone(),
        c3_oid.clone(),
        "refs/heads/main".to_string(),
    )];
    let plan = invalidate_branch_cache("repos/u1/r1.git", &updates);
    assert_eq!(
        plan.keys[0],
        "git:ref:repos/u1/r1.git:refs/heads/main".to_string()
    );
    assert_eq!(
        plan.patterns[0],
        "git:tree:repos/u1/r1.git:main:*".to_string()
    );
    assert_eq!(
        plan.patterns[1],
        "git:file:repos/u1/r1.git:main:*".to_string()
    );
    assert_eq!(
        plan.patterns[2],
        "tree_commits:repos/u1/r1.git:main:*".to_string()
    );
}

#[test]
fn ref_delete_removes_the_ref() {
    let mut repo = new_repo();
    let oid = "e".repeat(40);
    repo.write_ref(b"refs/heads/gone", oid.as_bytes());
    assert!(repo.resolve_ref(b"refs/heads/gone").is_some());
    let zero = "0".repeat(40);
    let pack = build_packfile(&vec![(3u8, b"x".to_vec())]).unwrap();
    let body = push_body(&oid, &zero, "refs/heads/gone", &pack);
    let (_resp, updates) = repo.handle_receive_pack(&body);
    assert_eq!(updates.len(), 1);
    assert_eq!(repo.resolve_ref(b"refs/heads/gone"), None);
}

#[test]
fn receive_pack_without_signature_changes_nothing() {
    let mut repo = new_repo();
    let before = repo.store.len();
    let (resp, updates) = repo.handle_receive_pack(b"just bytes, no signature");
    assert_eq!(resp, b"000eunpack ok\n0000".to_vec());
    assert!(updates.is_empty());
    assert_eq!(repo.store.len(), before);
}

#[test]
fn advertisement_cache_ttl() {
    let mut cache = InfoRefsCache::new(2000);
    cache.insert(b"k".to_vec(), b"v".to_vec(), 1000);
    assert_eq!(cache.lookup(b"k", 1500), Some(b"v".to_vec()));
    assert_eq!(cache.lookup(b"k", 3500), None);
    let disabled = InfoRefsCache::new(0);
    assert_eq!(disabled.lookup(b"k", 0), None);
}

#[test]
fn redis_key_schema() {
    assert_eq!(
        RedisClient::object_key("p", "o"),
        "git:obj:p:o".to_string()
    );
    assert_eq!(
        RedisClient::file_key("p", "b", "f"),
        "git:file:p:b:f".to_string()
    );
    assert_eq!(
        RedisClient::tree_key("p", "b", "t"),
        "git:tree:p:b:t".to_string()
    );
    assert_eq!(RedisClient::ref_key("p", "r"), "git:ref:p:r".to_string());
    assert_eq!(
        RedisClient::branch_pattern("p", "b"),
        "git:*:p:b:*".to_string()
    );
}

#[test]
fn nested_tree_and_file_lookup() {
    let mut repo = new_repo();
    let blob = b"fn main() {}\n".to_vec();
    let b_oid = oid_of(b"blob", &blob);
    let inner = serialize_tree(&vec![entry("lib.rs", "blob", &b_oid, "lib.rs")]).unwrap();
    let inner_oid = oid_of(b"tree", &inner);
    let root = serialize_tree(&vec![entry("src", "tree", &inner_oid, "src")]).unwrap();
    let root_oid = oid_of(b"tree", &root);
    let c0 = commit_payload(&root_oid, None, "init\n");
    let c_oid = oid_of(b"commit", &c0);
    for (oid, kind, payload) in [
        (&b_oid, b"blob" as &[u8], &blob),
        (&inner_oid, b"tree", &inner),
        (&root_oid, b"tree", &root),
        (&c_oid, b"commit", &c0),
    ] {
        assert!(repo.put_object_checked(oid.as_bytes(), wrap_object(kind, payload)));
    }
    repo.write_ref(b"refs/heads/main", c_oid.as_bytes());

    let entries = repo.get_tree(b"main", "src").unwrap();
    assert_eq!(entries.len(), 1);
    assert_eq!(entries[0].name, "lib.rs".to_string());
    assert_eq!(entries[0].path, "src/lib.rs".to_string());

    let (content, oid) = repo.get_file(b"main", "src/lib.rs").unwrap();
    assert_eq!(content, "fn main() {}\n".to_string());
    assert_eq!(oid, b_oid);
    assert!(repo.get_file(b"main", "src/absent.rs").is_none());
    assert_eq!(
        repo.get_blob_by_oid(b_oid.as_bytes()).unwrap(),
        "fn main() {}\n".to_string()
    );
}

#[test]
fn commit_paging() {
    let mut repo = new_repo();
    let blob = b"x\n".to_vec();
    let b_oid = oid_of(b"blob", &blob);
    let tree = serialize_tree(&vec![entry("f", "blob", &b_oid, "f")]).unwrap();
    let t_oid = oid_of(b"tree", &tree);
    assert!(repo.put_object_checked(b_oid.as_bytes(), wrap_object(b"blob", &blob)));
    assert!(repo.put_object_checked(t_oid.as_bytes(), wrap_object(b"tree", &tree)));
    let mut parent: Option<String> = None;
    let mut oids = Vec::new();
    for i in 0..5 {
        let c = commit_payload(&t_oid, parent.as_deref(), &format!("c{}\n", i));
        let c_oid = oid_of(b"commit", &c);
        assert!(repo.put_object_checked(c_oid.as_bytes(), wrap_object(b"commit", &c)));
        parent = Some(c_oid.clone());
        oids.push(c_oid);
    }
    repo.write_ref(b"refs/heads/main", oids[4].as_bytes());

    let (page, more) = repo.get_commits(b"main", 2, 0);
    assert_eq!(page.len(), 2);
    assert!(more);
    assert_eq!(page[0].oid, oids[4]);
    assert_eq!(page[1].oid, oids[3]);
    assert_eq!(page[0].message, "c4".to_string());
    assert_eq!(page[0].author.name, "A".to_string());
    assert_eq!(page[0].timestamp, 1700000000000);

    let (rest, more) = repo.get_commits(b"main", 10, 4);
    assert_eq!(rest.len(), 1);
    assert!(!more);
    assert_eq!(rest[0].oid, oids[0]);

    let (none, more) = repo.get_commits(b"absent", 10, 0);
    assert!(none.is_empty());
    assert!(!more);
}

#[test]
fn last_commit_per_file() {
    let mut repo = new_repo();
    let one = b"one\n".to_vec();
    let two = b"two\n".to_vec();
    let o1 = oid_of(b"blob", &one);
    let o2 = oid_of(b"blob", &two);
    let t1 = serialize_tree(&vec![
        entry("a.txt", "blob", &o1, "a.txt"),
        entry("b.txt", "blob", &o1, "b.txt"),
    ])
    .unwrap();
    let t2 = serialize_tree(&vec![
        entry("a.txt", "blob", &o2, "a.txt"),
        entry("b.txt", "blob", &o1, "b.txt"),
    ])
    .unwrap();
    let t1o = oid_of(b"tree", &t1);
    let t2o = oid_of(b"tree", &t2);
    let c1 = commit_payload(&t1o, None, "first\n");
    let c1o = oid_of(b"commit", &c1);
    let c2 = commit_payload(&t2o, Some(&c1o), "second\n");
    let c2o = oid_of(b"commit", &c2);
    for (oid, kind, payload) in [
        (&o1, b"blob" as &[u8], &one),
        (&o2, b"blob", &two),
        (&t1o, b"tree", &t1),
        (&t2o, b"tree", &t2),
        (&c1o, b"commit", &c1),
        (&c2o, b"commit", &c2),
    ] {
        assert!(repo.put_object_checked(oid.as_bytes(), wrap_object(kind, payload)));
    }
    repo.write_ref(b"refs/heads/main", c2o.as_bytes());

    let paths = vec!["a.txt".to_string(), "b.txt".to_string()];
    let results = repo.get_file_last_commits(b"main", "", &paths, 5000);
    assert_eq!(results.len(), 2);
    let a = results.iter().find(|r| r.path == "a.txt").unwrap();
    let b = results.iter().find(|r| r.path == "b.txt").unwrap();
    assert_eq!(a.commit_oid, c2o);
    assert_eq!(a.message, "second".to_string());
    assert_eq!(b.commit_oid, c1o);

    // The same history through the commit diff: the second commit
    // modified exactly one file.
    let mut r2 = repo;
    let diff = r2.get_commit_diff(c2o.as_bytes(), 100).unwrap();
    assert_eq!(diff.stats.files_changed, 1);
    assert_eq!(diff.files[0].path, "a.txt".to_string());
    assert_eq!(diff.files[0].status, "modified".to_string());
    assert_eq!(diff.files[0].additions, 1);
    assert_eq!(diff.files[0].deletions, 1);
    assert_eq!(diff.parent, Some(c1o.clone()));
}
