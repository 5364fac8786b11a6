//! The repository store over a blob-store snapshot: loose and packed
//! object lookup with full delta resolution, the per-store object cache,
//! and the ref layer.

use vstd::prelude::*;
use crate::bytes::{
    bytes_eq, starts_with, spec_starts_with, ends_with, spec_ends_with, copy_range,
};
use crate::store::{
    BlobStore, spec_sget, spec_sput, spec_keys_with_prefix, store_wf,
};
use crate::hex::{hex_of, unhex_of, hex_encode, hex_decode, all_hex_digits};
use crate::zlib::{inflate_of, deflate_of, compress_zlib, decompress_zlib};
use crate::object::{
    spec_object_frame, make_object_frame, spec_parse_git_object, parse_git_object, spec_tname,
    tname_bytes,
};
use crate::idx::{spec_find_object_in_index, find_object_in_index};
use crate::pack::{
    spec_pack_header, spec_read_pack_object, read_pack_object, spec_extract_object,
    extract_object_with_deltas, spec_scan_pack, scan_pack_for_object,
};
use crate::delta::{spec_apply_delta, apply_delta};
use crate::sha::{sha1_of, sha1_digest};
use vstd::slice::slice_subrange;

verus! {

/// The bytes of `"/objects/"`.
pub open spec fn spec_objects_sep() -> Seq<u8> {
    seq![47u8, 111u8, 98u8, 106u8, 101u8, 99u8, 116u8, 115u8, 47u8]
}

/// The bytes of `"/objects/pack"`.
pub open spec fn spec_pack_dir_suffix() -> Seq<u8> {
    seq![
        47u8, 111u8, 98u8, 106u8, 101u8, 99u8, 116u8, 115u8, 47u8, 112u8, 97u8, 99u8, 107u8,
    ]
}

/// The bytes of `".idx"`.
pub open spec fn spec_idx_suffix() -> Seq<u8> {
    seq![46u8, 105u8, 100u8, 120u8]
}

/// The bytes of `".pack"`.
pub open spec fn spec_pack_suffix() -> Seq<u8> {
    seq![46u8, 112u8, 97u8, 99u8, 107u8]
}

/// The bytes of `"/packed-refs"`.
pub open spec fn spec_packed_refs_suffix() -> Seq<u8> {
    seq![
        47u8, 112u8, 97u8, 99u8, 107u8, 101u8, 100u8, 45u8, 114u8, 101u8, 102u8, 115u8,
    ]
}

/// The bytes of `"ref: "`.
pub open spec fn spec_symref_prefix() -> Seq<u8> {
    seq![114u8, 101u8, 102u8, 58u8, 32u8]
}

fn objects_sep() -> (r: Vec<u8>)
    ensures
        r@ == spec_objects_sep(),
{
    let mut v: Vec<u8> = Vec::new();
    v.push(47);
    v.push(111);
    v.push(98);
    v.push(106);
    v.push(101);
    v.push(99);
    v.push(116);
    v.push(115);
    v.push(47);
    proof {
        assert(v@ =~= spec_objects_sep());
    }
    v
}

fn pack_dir_suffix() -> (r: Vec<u8>)
    ensures
        r@ == spec_pack_dir_suffix(),
{
    let mut v = objects_sep();
    v.push(112);
    v.push(97);
    v.push(99);
    v.push(107);
    proof {
        assert(v@ =~= spec_pack_dir_suffix());
    }
    v
}

fn idx_suffix() -> (r: Vec<u8>)
    ensures
        r@ == spec_idx_suffix(),
{
    let mut v: Vec<u8> = Vec::new();
    v.push(46);
    v.push(105);
    v.push(100);
    v.push(120);
    proof {
        assert(v@ =~= spec_idx_suffix());
    }
    v
}

fn pack_suffix() -> (r: Vec<u8>)
    ensures
        r@ == spec_pack_suffix(),
{
    let mut v: Vec<u8> = Vec::new();
    v.push(46);
    v.push(112);
    v.push(97);
    v.push(99);
    v.push(107);
    proof {
        assert(v@ =~= spec_pack_suffix());
    }
    v
}

fn packed_refs_suffix() -> (r: Vec<u8>)
    ensures
        r@ == spec_packed_refs_suffix(),
{
    let mut v: Vec<u8> = Vec::new();
    v.push(47);
    v.push(112);
    v.push(97);
    v.push(99);
    v.push(107);
    v.push(101);
    v.push(100);
    v.push(45);
    v.push(114);
    v.push(101);
    v.push(102);
    v.push(115);
    proof {
        assert(v@ =~= spec_packed_refs_suffix());
    }
    v
}

fn symref_prefix() -> (r: Vec<u8>)
    ensures
        r@ == spec_symref_prefix(),
{
    let mut v: Vec<u8> = Vec::new();
    v.push(114);
    v.push(101);
    v.push(102);
    v.push(58);
    v.push(32);
    proof {
        assert(v@ =~= spec_symref_prefix());
    }
    v
}

/// The loose-object key for an id: `<prefix>/objects/<first two>/<rest>`.
pub open spec fn spec_object_key(prefix: Seq<u8>, oid: Seq<u8>) -> Seq<u8>
    recommends
        oid.len() >= 2,
{
    prefix + spec_objects_sep() + oid.take(2) + seq![47u8] + oid.skip(2)
}

/// The blob key of a ref name: `<prefix>/<name>`.
pub open spec fn spec_ref_key(prefix: Seq<u8>, name: Seq<u8>) -> Seq<u8> {
    prefix + seq![47u8] + name
}

/// The pack key beside an index key: the `.idx` suffix swapped for
/// `.pack`.
pub open spec fn spec_pack_key_of(idxkey: Seq<u8>) -> Seq<u8>
    recommends
        idxkey.len() >= 4,
{
    idxkey.take(idxkey.len() - 4) + spec_pack_suffix()
}

/// The index keys of a store under a repository prefix, in store order.
pub open spec fn spec_idx_keys(s: Seq<(Seq<u8>, Seq<u8>)>, prefix: Seq<u8>) -> Seq<Seq<u8>> {
    spec_filter_idx(spec_keys_with_prefix(s, prefix + spec_pack_dir_suffix()))
}

/// The keys among `keys` that end in `.idx`.
pub open spec fn spec_filter_idx(keys: Seq<Seq<u8>>) -> Seq<Seq<u8>>
    decreases keys.len(),
{
    if keys.len() == 0 {
        Seq::empty()
    } else {
        let rest = spec_filter_idx(keys.drop_last());
        if spec_ends_with(keys.last(), spec_idx_suffix()) {
            rest.push(keys.last())
        } else {
            rest
        }
    }
}

proof fn lemma_filter_idx_push(keys: Seq<Seq<u8>>, k: Seq<u8>)
    ensures
        spec_filter_idx(keys.push(k)) == if spec_ends_with(k, spec_idx_suffix()) {
            spec_filter_idx(keys).push(k)
        } else {
            spec_filter_idx(keys)
        },
{
    assert(keys.push(k).drop_last() =~= keys);
    assert(keys.push(k).last() == k);
}

/// One step of the pack walk, written out.
proof fn lemma_resolve_in_packs_step(
    s: Seq<(Seq<u8>, Seq<u8>)>,
    prefix: Seq<u8>,
    keys: Seq<Seq<u8>>,
    ki: int,
    oid: Seq<u8>,
    fuel: nat,
)
    requires
        fuel >= 1,
        0 <= ki < keys.len(),
    ensures
        spec_resolve_in_packs(s, prefix, keys, ki, oid, fuel) == (match spec_resolve_one_pack(
            s,
            prefix,
            keys[ki],
            oid,
            fuel,
        ) {
            Some(r) => Some(r),
            None => spec_resolve_in_packs(s, prefix, keys, ki + 1, oid, fuel),
        }),
{
}

/// The one-pack contribution, written out.
proof fn lemma_one_pack_unfold(
    s: Seq<(Seq<u8>, Seq<u8>)>,
    prefix: Seq<u8>,
    idxkey: Seq<u8>,
    oid: Seq<u8>,
    fuel: nat,
)
    ensures
        spec_resolve_one_pack(s, prefix, idxkey, oid, fuel) == (match spec_pack_pair(s, idxkey) {
            None => None,
            Some((idx, pack)) => match spec_locate_in_pack(pack, idx, oid) {
                None => None,
                Some(offset) => spec_resolve_at(s, prefix, pack, idx, offset, fuel),
            },
        }),
{
}

/// A repository bound to a key prefix of the blob store, with its
/// per-store object cache.
pub struct R2GitStore {
    pub store: BlobStore,
    pub prefix: Vec<u8>,
    pub cache: BlobStore,
}

/// What resolving an object id to `(type name, payload)` yields, walking
/// packs first and loose objects last, following REF_DELTA bases across
/// packs to a chain depth of at most `fuel`.
pub open spec fn spec_resolve_object(
    s: Seq<(Seq<u8>, Seq<u8>)>,
    prefix: Seq<u8>,
    oid: Seq<u8>,
    fuel: nat,
) -> Option<(Seq<u8>, Seq<u8>)>
    decreases fuel, 2int, 0int,
{
    if fuel == 0 {
        None
    } else {
        let keys = spec_idx_keys(s, prefix);
        match spec_resolve_in_packs(s, prefix, keys, 0, oid, fuel) {
            Some(r) => Some(r),
            None => if oid.len() >= 2 {
                match spec_sget(s, spec_object_key(prefix, oid)) {
                    None => None,
                    Some(raw) => spec_parse_git_object(raw),
                }
            } else {
                None
            },
        }
    }
}

/// The pack walk of object resolution: the first pack whose index or
/// scan locates the id decides the outcome.
pub open spec fn spec_resolve_in_packs(
    s: Seq<(Seq<u8>, Seq<u8>)>,
    prefix: Seq<u8>,
    keys: Seq<Seq<u8>>,
    ki: int,
    oid: Seq<u8>,
    fuel: nat,
) -> Option<(Seq<u8>, Seq<u8>)>
    decreases fuel, 1int, keys.len() - ki,
{
    if fuel == 0 || ki < 0 || ki >= keys.len() {
        None
    } else {
        match spec_resolve_one_pack(s, prefix, keys[ki], oid, fuel) {
            Some(r) => Some(r),
            None => spec_resolve_in_packs(s, prefix, keys, ki + 1, oid, fuel),
        }
    }
}

/// What one pack contributes to resolution: nothing unless both blobs
/// exist and the id is located in the pack, else the resolved entry.
pub open spec fn spec_resolve_one_pack(
    s: Seq<(Seq<u8>, Seq<u8>)>,
    prefix: Seq<u8>,
    idxkey: Seq<u8>,
    oid: Seq<u8>,
    fuel: nat,
) -> Option<(Seq<u8>, Seq<u8>)>
    decreases fuel, 0int, 1int,
{
    match spec_pack_pair(s, idxkey) {
        None => None,
        Some((idx, pack)) => match spec_locate_in_pack(pack, idx, oid) {
            None => None,
            Some(offset) => spec_resolve_at(s, prefix, pack, idx, offset, fuel),
        },
    }
}

/// The index and pack bytes behind an index key, where both blobs exist.
pub open spec fn spec_pack_pair(s: Seq<(Seq<u8>, Seq<u8>)>, idxkey: Seq<u8>) -> Option<
    (Seq<u8>, Seq<u8>),
> {
    if idxkey.len() < 4 {
        None
    } else {
        match spec_sget(s, idxkey) {
            None => None,
            Some(idx) => match spec_sget(s, spec_pack_key_of(idxkey)) {
                None => None,
                Some(pack) => Some((idx, pack)),
            },
        }
    }
}

/// Where a pack holds an id: its index first, then the sequential scan.
#[verifier::opaque]
pub open spec fn spec_locate_in_pack(pack: Seq<u8>, idx: Seq<u8>, oid: Seq<u8>) -> Option<int> {
    if !(oid.len() == 40 && all_hex_digits(oid)) {
        None
    } else {
        let oid20 = unhex_of(oid);
        match spec_find_object_in_index(idx, oid20) {
            Some(o) => Some(o as int),
            None => spec_scan_pack(pack, idx, 12, oid20),
        }
    }
}

/// Resolving the entry at `offset`: a REF_DELTA recurses through the
/// store by its base id; anything else resolves within the pack.
pub open spec fn spec_resolve_at(
    s: Seq<(Seq<u8>, Seq<u8>)>,
    prefix: Seq<u8>,
    pack: Seq<u8>,
    idx: Seq<u8>,
    offset: int,
    fuel: nat,
) -> Option<(Seq<u8>, Seq<u8>)>
    decreases fuel, 0int, 0int,
{
    if fuel == 0 {
        None
    } else {
        match spec_pack_header(pack, offset) {
            None => None,
            Some((t, size, next)) => if t == 7 {
                if next + 20 > pack.len() {
                    None
                } else {
                    let base20 = pack.subrange(next, next + 20);
                    match inflate_of(pack.skip(next + 20)) {
                        None => None,
                        Some(d) => match spec_resolve_object(
                            s,
                            prefix,
                            hex_of(base20),
                            (fuel - 1) as nat,
                        ) {
                            None => None,
                            Some((bt, base)) => match spec_apply_delta(base, d) {
                                None => None,
                                Some(result) => Some((bt, result)),
                            },
                        },
                    }
                }
            } else {
                match spec_read_pack_object(pack, idx, offset, 100) {
                    None => None,
                    Some((tn, content)) => match spec_tname(tn) {
                        None => None,
                        Some(tb) => Some((tb, content)),
                    },
                }
            },
        }
    }
}

impl R2GitStore {
    /// Binds a repository prefix over a snapshot.
    pub fn new(store: BlobStore, prefix: Vec<u8>) -> (r: R2GitStore)
        ensures
            r.store@ == store@,
            r.prefix@ == prefix@,
            r.cache@ == Seq::<(Seq<u8>, Seq<u8>)>::empty(),
    {
        R2GitStore { store, prefix, cache: BlobStore::new() }
    }

    /// The loose-object key for an id.
    pub fn object_path(&self, oid: &[u8]) -> (r: Vec<u8>)
        requires
            oid@.len() >= 2,
        ensures
            r@ == spec_object_key(self.prefix@, oid@),
    {
        let mut k = copy_range(self.prefix.as_slice(), 0, self.prefix.len());
        let mut sep = objects_sep();
        k.append(&mut sep);
        let mut first = copy_range(oid, 0, 2);
        k.append(&mut first);
        k.push(47);
        let mut rest = copy_range(oid, 2, oid.len());
        k.append(&mut rest);
        proof {
            assert(self.prefix@.subrange(0, self.prefix@.len() as int) =~= self.prefix@);
            assert(oid@.subrange(0, 2) =~= oid@.take(2));
            assert(oid@.subrange(2, oid@.len() as int) =~= oid@.skip(2));
            assert(k@ =~= spec_object_key(self.prefix@, oid@));
        }
        k
    }

    /// The blob key of a ref name.
    pub fn ref_path(&self, name: &[u8]) -> (r: Vec<u8>)
        ensures
            r@ == spec_ref_key(self.prefix@, name@),
    {
        let mut k = copy_range(self.prefix.as_slice(), 0, self.prefix.len());
        k.push(47);
        let mut n = copy_range(name, 0, name.len());
        k.append(&mut n);
        proof {
            assert(self.prefix@.subrange(0, self.prefix@.len() as int) =~= self.prefix@);
            assert(name@.subrange(0, name@.len() as int) =~= name@);
            assert(k@ =~= spec_ref_key(self.prefix@, name@));
        }
        k
    }

    /// The index keys of this repository's packs, in store order.
    pub fn get_pack_idx_files(&self) -> (r: Vec<Vec<u8>>)
        ensures
            r@.map(|i: int, k: Vec<u8>| k@) == spec_idx_keys(self.store@, self.prefix@),
    {
        let mut dir = copy_range(self.prefix.as_slice(), 0, self.prefix.len());
        let mut sfx = pack_dir_suffix();
        dir.append(&mut sfx);
        proof {
            assert(self.prefix@.subrange(0, self.prefix@.len() as int) =~= self.prefix@);
            assert(dir@ =~= self.prefix@ + spec_pack_dir_suffix());
        }
        let keys = self.store.list_prefix(dir.as_slice());
        let ghost all = keys@.map(|i: int, k: Vec<u8>| k@);
        let isfx = idx_suffix();
        let mut out: Vec<Vec<u8>> = Vec::new();
        let mut i: usize = 0;
        proof {
            assert(out@.map(|k: int, v: Vec<u8>| v@) =~= spec_filter_idx(all.take(0)));
        }
        while i < keys.len()
            invariant
                i <= keys@.len(),
                all == keys@.map(|k: int, v: Vec<u8>| v@),
                isfx@ == spec_idx_suffix(),
                out@.map(|k: int, v: Vec<u8>| v@) == spec_filter_idx(all.take(i as int)),
            decreases keys.len() - i,
        {
            let ghost before = out@.map(|k: int, v: Vec<u8>| v@);
            proof {
                assert(all.take(i + 1) =~= all.take(i as int).push(all[i as int]));
                lemma_filter_idx_push(all.take(i as int), all[i as int]);
            }
            if ends_with(keys[i].as_slice(), isfx.as_slice()) {
                let k = copy_range(keys[i].as_slice(), 0, keys[i].len());
                proof {
                    assert(k@ =~= all[i as int]);
                }
                out.push(k);
                proof {
                    assert(out@.map(|k2: int, v: Vec<u8>| v@) =~= before.push(all[i as int]));
                }
            }
            i = i + 1;
        }
        proof {
            assert(all.take(all.len() as int) =~= all);
        }
        out
    }

    /// Resolves an object id to its type name and payload, walking packs
    /// first and loose objects last; REF_DELTA chains cross packs to a
    /// depth of at most `fuel`.
    #[verifier::rlimit(100)]
    #[verifier::spinoff_prover]
    pub fn resolve_object_iterative(&self, oid: &[u8], fuel: usize) -> (r: Option<
        (Vec<u8>, Vec<u8>),
    >)
        ensures
            match spec_resolve_object(self.store@, self.prefix@, oid@, fuel as nat) {
                None => r is None,
                Some((tb, payload)) => r matches Some(p) && p.0@ == tb && p.1@ == payload,
            },
        decreases fuel, 2int,
    {
        if fuel == 0 {
            return None;
        }
        let keys = self.get_pack_idx_files();
        let ghost gkeys = spec_idx_keys(self.store@, self.prefix@);
        let mut ki: usize = 0;
        loop
            invariant_except_break
                ki <= keys@.len(),
                gkeys == keys@.map(|i: int, k: Vec<u8>| k@),
                gkeys == spec_idx_keys(self.store@, self.prefix@),
                fuel >= 1,
                spec_resolve_in_packs(self.store@, self.prefix@, gkeys, 0, oid@, fuel as nat)
                    == spec_resolve_in_packs(
                    self.store@,
                    self.prefix@,
                    gkeys,
                    ki as int,
                    oid@,
                    fuel as nat,
                ),
            ensures
                spec_resolve_in_packs(self.store@, self.prefix@, gkeys, 0, oid@, fuel as nat)
                    is None,
            decreases keys@.len() - ki,
        {
            if ki >= keys.len() {
                break;
            }
            proof {
                lemma_resolve_in_packs_step(
                    self.store@,
                    self.prefix@,
                    gkeys,
                    ki as int,
                    oid@,
                    fuel as nat,
                );
            }
            let idxkey = &keys[ki];
            match self.resolve_one_pack(idxkey.as_slice(), oid, fuel) {
                Some(res) => {
                    return Some(res);
                },
                None => {
                },
            }
            ki = ki + 1;
        }
        if oid.len() < 2 {
            return None;
        }
        let key = self.object_path(oid);
        let raw = match self.store.get(key.as_slice()) {
            Some(v) => v,
            None => {
                return None;
            },
        };
        match parse_git_object(raw.as_slice()) {
            None => None,
            Some((t, payload)) => {
                let tb = t.as_str().as_bytes_vec();
                proof {
                    match spec_parse_git_object(raw@) {
                        Some((stb, sp)) => {
                            vstd::utf8::decode_utf8_encode_utf8(stb);
                            assert(tb@ == stb);
                        },
                        None => {},
                    }
                }
                Some((tb, payload))
            },
        }
    }

    /// What one pack contributes to resolving an id.
    #[verifier::rlimit(100)]
    #[verifier::spinoff_prover]
    fn resolve_one_pack(&self, idxkey: &[u8], oid: &[u8], fuel: usize) -> (r: Option<
        (Vec<u8>, Vec<u8>),
    >)
        requires
            fuel >= 1,
        ensures
            match spec_resolve_one_pack(self.store@, self.prefix@, idxkey@, oid@, fuel as nat) {
                None => r is None,
                Some((tb, payload)) => r matches Some(p) && p.0@ == tb && p.1@ == payload,
            },
        decreases fuel, 1int,
    {
        let (idx, pack) = match self.pack_pair(idxkey) {
            Some(p) => p,
            None => {
                return None;
            },
        };
        let offset = match locate_in_pack(pack.as_slice(), idx.as_slice(), oid) {
            Some(o) => o,
            None => {
                return None;
            },
        };
        let r = self.resolve_at(pack.as_slice(), idx.as_slice(), offset, fuel);
        proof {
            lemma_one_pack_unfold(self.store@, self.prefix@, idxkey@, oid@, fuel as nat);
        }
        r
    }

    /// The index and pack blobs behind an index key.
    fn pack_pair(&self, idxkey: &[u8]) -> (r: Option<(Vec<u8>, Vec<u8>)>)
        ensures
            match spec_pack_pair(self.store@, idxkey@) {
                None => r is None,
                Some((idx, pack)) => r matches Some(p) && p.0@ == idx && p.1@ == pack,
            },
    {
        if idxkey.len() < 4 {
            return None;
        }
        let idx = match self.store.get(idxkey) {
            Some(v) => copy_range(v.as_slice(), 0, v.len()),
            None => {
                return None;
            },
        };
        let mut pk = copy_range(idxkey, 0, idxkey.len() - 4);
        let mut sfx = pack_suffix();
        pk.append(&mut sfx);
        proof {
            assert(idxkey@.subrange(0, idxkey@.len() - 4) =~= idxkey@.take(idxkey@.len() - 4));
            assert(pk@ =~= spec_pack_key_of(idxkey@));
        }
        let pack = match self.store.get(pk.as_slice()) {
            Some(v) => copy_range(v.as_slice(), 0, v.len()),
            None => {
                return None;
            },
        };
        proof {
            match spec_pack_pair(self.store@, idxkey@) {
                Some(p) => {
                    assert(idx@ =~= p.0);
                    assert(pack@ =~= p.1);
                },
                None => {},
            }
        }
        Some((idx, pack))
    }

    /// Resolves the entry at `offset` of a pack, recursing through the
    /// store for a REF_DELTA base.
    pub fn resolve_at(&self, pack: &[u8], idx: &[u8], offset: u64, fuel: usize) -> (r: Option<
        (Vec<u8>, Vec<u8>),
    >)
        requires
            fuel >= 1,
        ensures
            match spec_resolve_at(self.store@, self.prefix@, pack@, idx@, offset as int,
                fuel as nat) {
                None => r is None,
                Some((tb, payload)) => r matches Some(p) && p.0@ == tb && p.1@ == payload,
            },
        decreases fuel, 0int,
    {
        let n = pack.len();
        let (t, next) = match crate::pack::pack_header_pos(pack, offset) {
            Some(h) => h,
            None => {
                return None;
            },
        };
        if t == 7 {
            if 20 > n - next {
                return None;
            }
            let base20 = slice_subrange(pack, next, next + 20);
            proof {
                assert(base20@ =~= pack@.subrange(next as int, next + 20));
            }
            let dregion = slice_subrange(pack, next + 20, n);
            proof {
                assert(dregion@ =~= pack@.skip(next + 20));
            }
            let d = match decompress_zlib(dregion) {
                Some(d) => d,
                None => {
                    return None;
                },
            };
            let base_hex = hex_encode(base20);
            let (btb, base) = match self.resolve_object_iterative(base_hex.as_slice(), fuel - 1) {
                Some(b) => b,
                None => {
                    return None;
                },
            };
            match apply_delta(base.as_slice(), d.as_slice()) {
                None => None,
                Some(result) => Some((btb, result)),
            }
        } else {
            let (tn, content) = match read_pack_object(pack, idx, offset, 100) {
                Some(x) => x,
                None => {
                    return None;
                },
            };
            match tname_bytes(tn) {
                None => None,
                Some(tb) => Some((tb, content)),
            }
        }
    }
}

/// Where a pack holds an id: its index first, then the sequential scan.
fn locate_in_pack(pack: &[u8], idx: &[u8], oid: &[u8]) -> (r: Option<u64>)
    ensures
        match spec_locate_in_pack(pack@, idx@, oid@) {
            None => r is None,
            Some(o) => 0 <= o <= u64::MAX && r == Some(o as u64),
        },
{
    let pn = pack.len();
    proof {
        reveal(spec_locate_in_pack);
        if oid@.len() == 40 && all_hex_digits(oid@) {
            crate::pack::lemma_scan_pack_range(pack@, idx@, 12, unhex_of(oid@));
        }
    }
    let oid20 = match hex_decode(oid) {
        Some(v) => v,
        None => {
            return None;
        },
    };
    if oid.len() != 40 {
        return None;
    }
    match find_object_in_index(idx, oid20.as_slice()) {
        Some(o) => Some(o),
        None => scan_pack_for_object(pack, idx, oid20.as_slice()),
    }
}


/// Whether a type name is one of the four object types.
pub open spec fn spec_known_tname(tb: Seq<u8>) -> bool {
    tb == spec_tname(1)->0 || tb == spec_tname(2)->0 || tb == spec_tname(3)->0 || tb == spec_tname(
        4,
    )->0
}

pub fn known_tname_pub(tb: &[u8]) -> (r: bool)
    ensures
        r == spec_known_tname(tb@),
{
    let c1 = tname_bytes(1).unwrap();
    let c2 = tname_bytes(2).unwrap();
    let c3 = tname_bytes(3).unwrap();
    let c4 = tname_bytes(4).unwrap();
    bytes_eq(tb, c1.as_slice()) || bytes_eq(tb, c2.as_slice()) || bytes_eq(tb, c3.as_slice())
        || bytes_eq(tb, c4.as_slice())
}

/// The canonical zlib-wrapped bytes one pack contributes for an id.
#[verifier::opaque]
pub open spec fn spec_pack_fetch_one(
    s: Seq<(Seq<u8>, Seq<u8>)>,
    prefix: Seq<u8>,
    idxkey: Seq<u8>,
    oid: Seq<u8>,
) -> Option<Seq<u8>> {
    match spec_pack_pair(s, idxkey) {
        None => None,
        Some((idx, pack)) => match spec_locate_in_pack(pack, idx, oid) {
            None => None,
            Some(offset) => match spec_resolve_at(s, prefix, pack, idx, offset, 100) {
                None => None,
                Some((tb, content)) => if spec_known_tname(tb) {
                    Some(deflate_of(spec_object_frame(tb, content)))
                } else {
                    None
                },
            },
        },
    }
}

/// The one-pack fetch, written out.
proof fn lemma_pack_fetch_one_unfold(
    s: Seq<(Seq<u8>, Seq<u8>)>,
    prefix: Seq<u8>,
    idxkey: Seq<u8>,
    oid: Seq<u8>,
)
    ensures
        spec_pack_fetch_one(s, prefix, idxkey, oid) == (match spec_pack_pair(s, idxkey) {
            None => None,
            Some((idx, pack)) => match spec_locate_in_pack(pack, idx, oid) {
                None => None,
                Some(offset) => match spec_resolve_at(s, prefix, pack, idx, offset, 100) {
                    None => None,
                    Some((tb, content)) => if spec_known_tname(tb) {
                        Some(deflate_of(spec_object_frame(tb, content)))
                    } else {
                        None
                    },
                },
            },
        }),
{
    reveal(spec_pack_fetch_one);
}

/// The canonical zlib-wrapped bytes the packs hold for an id: the first
/// pack that locates it decides.
pub open spec fn spec_get_from_pack(
    s: Seq<(Seq<u8>, Seq<u8>)>,
    prefix: Seq<u8>,
    keys: Seq<Seq<u8>>,
    ki: int,
    oid: Seq<u8>,
) -> Option<Seq<u8>>
    decreases keys.len() - ki,
{
    if ki < 0 || ki >= keys.len() {
        None
    } else {
        match spec_pack_fetch_one(s, prefix, keys[ki], oid) {
            Some(v) => Some(v),
            None => spec_get_from_pack(s, prefix, keys, ki + 1, oid),
        }
    }
}

/// What `get_object` returns: the cache, then the loose key, then the
/// packs.
pub open spec fn spec_get_object(
    s: Seq<(Seq<u8>, Seq<u8>)>,
    cm: Seq<(Seq<u8>, Seq<u8>)>,
    prefix: Seq<u8>,
    oid: Seq<u8>,
) -> Option<Seq<u8>> {
    match spec_sget(cm, oid) {
        Some(v) => Some(v),
        None => match (if oid.len() >= 2 {
            spec_sget(s, spec_object_key(prefix, oid))
        } else {
            None
        }) {
            Some(v) => Some(v),
            None => spec_get_from_pack(s, prefix, spec_idx_keys(s, prefix), 0, oid),
        },
    }
}

impl R2GitStore {
    /// What one pack contributes as stored-object bytes.
    #[verifier::rlimit(100)]
    #[verifier::spinoff_prover]
    fn pack_fetch_one(&self, idxkey: &[u8], oid: &[u8]) -> (r: Option<Vec<u8>>)
        ensures
            match spec_pack_fetch_one(self.store@, self.prefix@, idxkey@, oid@) {
                None => r is None,
                Some(v) => r matches Some(o) && o@ == v,
            },
    {
        let (idx, pack) = match self.pack_pair(idxkey) {
            Some(p) => p,
            None => {
                proof {
                    lemma_pack_fetch_one_unfold(self.store@, self.prefix@, idxkey@, oid@);
                }
                return None;
            },
        };
        let offset = match locate_in_pack(pack.as_slice(), idx.as_slice(), oid) {
            Some(o) => o,
            None => {
                proof {
                    lemma_pack_fetch_one_unfold(self.store@, self.prefix@, idxkey@, oid@);
                }
                return None;
            },
        };
        let (tb, content) = match self.resolve_at(pack.as_slice(), idx.as_slice(), offset, 100) {
            Some(x) => x,
            None => {
                proof {
                    lemma_pack_fetch_one_unfold(self.store@, self.prefix@, idxkey@, oid@);
                }
                return None;
            },
        };
        proof {
            lemma_pack_fetch_one_unfold(self.store@, self.prefix@, idxkey@, oid@);
        }
        if !known_tname_pub(tb.as_slice()) {
            return None;
        }
        let framed = make_object_frame(tb.as_slice(), content.as_slice());
        Some(compress_zlib(framed.as_slice()))
    }

    /// Fetches the stored bytes of an id from the packs.
    pub fn get_from_pack(&self, oid: &[u8]) -> (r: Option<Vec<u8>>)
        ensures
            match spec_get_from_pack(
                self.store@,
                self.prefix@,
                spec_idx_keys(self.store@, self.prefix@),
                0,
                oid@,
            ) {
                None => r is None,
                Some(v) => r matches Some(o) && o@ == v,
            },
    {
        let keys = self.get_pack_idx_files();
        let ghost gkeys = spec_idx_keys(self.store@, self.prefix@);
        let mut ki: usize = 0;
        loop
            invariant_except_break
                ki <= keys@.len(),
                gkeys == keys@.map(|i: int, k: Vec<u8>| k@),
                gkeys == spec_idx_keys(self.store@, self.prefix@),
                spec_get_from_pack(self.store@, self.prefix@, gkeys, 0, oid@)
                    == spec_get_from_pack(self.store@, self.prefix@, gkeys, ki as int, oid@),
            ensures
                spec_get_from_pack(self.store@, self.prefix@, gkeys, 0, oid@) is None,
            decreases keys@.len() - ki,
        {
            if ki >= keys.len() {
                break;
            }
            match self.pack_fetch_one(keys[ki].as_slice(), oid) {
                Some(v) => {
                    return Some(v);
                },
                None => {
                },
            }
            ki = ki + 1;
        }
        None
    }

    /// Reads the stored bytes of an object: the cache first, then the
    /// loose key, then the packs; a find fills the cache.
    pub fn get_object(&mut self, oid: &[u8]) -> (r: Option<Vec<u8>>)
        ensures
            ({
                let res = spec_get_object(old(self).store@, old(self).cache@, old(self).prefix@,
                    oid@);
                &&& (match res {
                    None => r is None,
                    Some(v) => r matches Some(o) && o@ == v,
                })
                &&& final(self).store@ == old(self).store@
                &&& final(self).prefix@ == old(self).prefix@
                &&& final(self).cache@ == (match res {
                    None => old(self).cache@,
                    Some(v) => if spec_sget(old(self).cache@, oid@) is Some {
                        old(self).cache@
                    } else {
                        spec_sput(old(self).cache@, oid@, v)
                    },
                })
            }),
    {
        match self.cache.get(oid) {
            Some(v) => {
                let out = copy_range(v.as_slice(), 0, v.len());
                proof {
                    assert(out@ =~= spec_sget(self.cache@, oid@)->0);
                }
                return Some(out);
            },
            None => {
            },
        }
        if oid.len() >= 2 {
            let key = self.object_path(oid);
            match self.store.get(key.as_slice()) {
                Some(v) => {
                    let data = copy_range(v.as_slice(), 0, v.len());
                    proof {
                        assert(data@ =~= spec_sget(self.store@, spec_object_key(self.prefix@,
                            oid@))->0);
                    }
                    let ko = copy_range(oid, 0, oid.len());
                    let cv = copy_range(data.as_slice(), 0, data.len());
                    proof {
                        assert(ko@ =~= oid@);
                        assert(cv@ =~= data@);
                    }
                    self.cache.put(ko, cv);
                    return Some(data);
                },
                None => {
                },
            }
        }
        match self.get_from_pack(oid) {
            Some(v) => {
                let ko = copy_range(oid, 0, oid.len());
                let cv = copy_range(v.as_slice(), 0, v.len());
                proof {
                    assert(ko@ =~= oid@);
                    assert(cv@ =~= v@);
                }
                self.cache.put(ko, cv);
                Some(v)
            },
            None => None,
        }
    }

    /// Writes an object's stored bytes under its loose key and fills the
    /// cache.
    pub fn put_object(&mut self, oid: &[u8], data: Vec<u8>)
        requires
            oid@.len() >= 2,
        ensures
            final(self).store@ == spec_sput(old(self).store@, spec_object_key(old(self).prefix@,
                oid@), data@),
            final(self).cache@ == spec_sput(old(self).cache@, oid@, data@),
            final(self).prefix@ == old(self).prefix@,
    {
        let key = self.object_path(oid);
        let sv = copy_range(data.as_slice(), 0, data.len());
        let ko = copy_range(oid, 0, oid.len());
        proof {
            assert(sv@ =~= data@);
            assert(ko@ =~= oid@);
        }
        self.store.put(key, sv);
        self.cache.put(ko, data);
    }

    /// Writes a loose object only when its bytes inflate to a canonical
    /// form whose SHA-1 is the key id: every accepted loose object hashes
    /// to its name.
    pub fn put_object_checked(&mut self, oid: &[u8], data: Vec<u8>) -> (r: bool)
        ensures
            r == (oid@.len() == 40 && (match inflate_of(data@) {
                None => false,
                Some(d) => hex_of(sha1_of(d)) == oid@,
            })),
            r ==> final(self).store@ == spec_sput(old(self).store@, spec_object_key(
                old(self).prefix@, oid@), data@) && final(self).cache@ == spec_sput(
                old(self).cache@, oid@, data@) && final(self).prefix@ == old(self).prefix@,
            !r ==> final(self).store@ == old(self).store@ && final(self).cache@ == old(
                self,
            ).cache@ && final(self).prefix@ == old(self).prefix@,
    {
        if oid.len() != 40 {
            return false;
        }
        let d = match decompress_zlib(data.as_slice()) {
            Some(d) => d,
            None => {
                return false;
            },
        };
        let digest = sha1_digest(d.as_slice());
        let hx = hex_encode(digest.as_slice());
        if !bytes_eq(hx.as_slice(), oid) {
            return false;
        }
        self.put_object(oid, data);
        true
    }
}

/// What a cache-free object read yields: the loose key, then the packs.
pub open spec fn spec_get_object_plain(
    s: Seq<(Seq<u8>, Seq<u8>)>,
    prefix: Seq<u8>,
    oid: Seq<u8>,
) -> Option<Seq<u8>> {
    match (if oid.len() >= 2 {
        spec_sget(s, spec_object_key(prefix, oid))
    } else {
        None
    }) {
        Some(v) => Some(v),
        None => spec_get_from_pack(s, prefix, spec_idx_keys(s, prefix), 0, oid),
    }
}

impl R2GitStore {
    /// Reads an object's stored bytes without touching the cache: the
    /// loose key first, then the packs.
    pub fn get_object_plain(&self, oid: &[u8]) -> (r: Option<Vec<u8>>)
        ensures
            match spec_get_object_plain(self.store@, self.prefix@, oid@) {
                None => r is None,
                Some(v) => r matches Some(o) && o@ == v,
            },
    {
        if oid.len() >= 2 {
            let key = self.object_path(oid);
            match self.store.get(key.as_slice()) {
                Some(v) => {
                    return Some(copy_range(v.as_slice(), 0, v.len()));
                },
                None => {
                },
            }
        }
        self.get_from_pack(oid)
    }
}

} // verus!
