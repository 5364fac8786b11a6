//! Cache keys and in-process caches: the namespaced key schema of the
//! shared key/value cache, the advertisement cache with its TTL, and the
//! invalidation plan a push triggers.

use vstd::prelude::*;
use crate::bytes::{bytes_eq, copy_range};
use vstd::string::StringExecFns;

verus! {

/// The shared cache's key namespace builder.
pub struct RedisClient {
    pub url: String,
}

impl RedisClient {
    /// The key of a cached object: `git:obj:<prefix>:<oid>`.
    pub fn object_key(repo_prefix: &str, oid: &str) -> (r: String)
        ensures
            r@ == "git:obj:"@ + repo_prefix@ + ":"@ + oid@,
    {
        let mut s = String::from_str("git:obj:");
        s.append(repo_prefix);
        s.append(":");
        s.append(oid);
        s
    }

    /// The key of a cached file body: `git:file:<prefix>:<branch>:<path>`.
    pub fn file_key(repo_prefix: &str, branch: &str, path: &str) -> (r: String)
        ensures
            r@ == "git:file:"@ + repo_prefix@ + ":"@ + branch@ + ":"@ + path@,
    {
        let mut s = String::from_str("git:file:");
        s.append(repo_prefix);
        s.append(":");
        s.append(branch);
        s.append(":");
        s.append(path);
        s
    }

    /// The key of a cached listing: `git:tree:<prefix>:<branch>:<path>`.
    pub fn tree_key(repo_prefix: &str, branch: &str, path: &str) -> (r: String)
        ensures
            r@ == "git:tree:"@ + repo_prefix@ + ":"@ + branch@ + ":"@ + path@,
    {
        let mut s = String::from_str("git:tree:");
        s.append(repo_prefix);
        s.append(":");
        s.append(branch);
        s.append(":");
        s.append(path);
        s
    }

    /// The key of a cached ref value: `git:ref:<prefix>:<refname>`.
    pub fn ref_key(repo_prefix: &str, ref_name: &str) -> (r: String)
        ensures
            r@ == "git:ref:"@ + repo_prefix@ + ":"@ + ref_name@,
    {
        let mut s = String::from_str("git:ref:");
        s.append(repo_prefix);
        s.append(":");
        s.append(ref_name);
        s
    }

    /// The pattern matching every branch-scoped key:
    /// `git:*:<prefix>:<branch>:*`.
    pub fn branch_pattern(repo_prefix: &str, branch: &str) -> (r: String)
        ensures
            r@ == "git:*:"@ + repo_prefix@ + ":"@ + branch@ + ":*"@,
    {
        let mut s = String::from_str("git:*:");
        s.append(repo_prefix);
        s.append(":");
        s.append(branch);
        s.append(":*");
        s
    }
}

/// The cache lifetimes, in seconds.
pub struct CacheTtl {
    pub git_object: u64,
    pub file_content: u64,
    pub tree_listing: u64,
    pub ref_resolution: u64,
}

impl CacheTtl {
    /// The lifetimes the engine uses: an hour for objects, five minutes
    /// for files and listings, thirty seconds for refs.
    pub fn standard() -> (r: CacheTtl)
        ensures
            r.git_object == 3600 && r.file_content == 300 && r.tree_listing == 300
                && r.ref_resolution == 30,
    {
        CacheTtl { git_object: 3600, file_content: 300, tree_listing: 300, ref_resolution: 30 }
    }
}

/// An in-process advertisement cache: entries live for a TTL measured
/// against a caller-supplied clock, and the whole cache flushes when it
/// grows past its bound.
pub struct InfoRefsCache {
    pub entries: Vec<(Vec<u8>, Vec<u8>, u64)>,
    pub ttl_ms: u64,
}

/// The index of the entry under a key.
pub open spec fn spec_adv_find(entries: Seq<(Seq<u8>, Seq<u8>, u64)>, key: Seq<u8>) -> Option<int>
    decreases entries.len(),
{
    if entries.len() == 0 {
        None
    } else if entries[0].0 == key {
        Some(0int)
    } else {
        match spec_adv_find(entries.drop_first(), key) {
            None => None,
            Some(i) => Some(i + 1),
        }
    }
}

/// The model of the cache's entries.
pub open spec fn adv_model(entries: Seq<(Vec<u8>, Vec<u8>, u64)>) -> Seq<(Seq<u8>, Seq<u8>, u64)> {
    entries.map(|i: int, e: (Vec<u8>, Vec<u8>, u64)| (e.0@, e.1@, e.2))
}

/// The entries after storing `(key, value, now)`: an existing entry for
/// the key is replaced in place, a new one goes to the end.
pub open spec fn spec_adv_put(
    entries: Seq<(Seq<u8>, Seq<u8>, u64)>,
    key: Seq<u8>,
    value: Seq<u8>,
    now: u64,
) -> Seq<(Seq<u8>, Seq<u8>, u64)> {
    match spec_adv_find(entries, key) {
        Some(i) => entries.update(i, (key, value, now)),
        None => entries.push((key, value, now)),
    }
}

/// A found index names an entry with the key, and nothing before it.
proof fn lemma_adv_find(entries: Seq<(Seq<u8>, Seq<u8>, u64)>, key: Seq<u8>)
    ensures
        match spec_adv_find(entries, key) {
            None => forall|i: int| 0 <= i < entries.len() ==> (#[trigger] entries[i]).0 != key,
            Some(i) => 0 <= i < entries.len() && entries[i].0 == key && forall|j: int|
                0 <= j < i ==> (#[trigger] entries[j]).0 != key,
        },
    decreases entries.len(),
{
    if entries.len() > 0 && entries[0].0 != key {
        lemma_adv_find(entries.drop_first(), key);
        assert(forall|j: int| 1 <= j < entries.len() ==> entries.drop_first()[j - 1]
            == #[trigger] entries[j]);
    }
}

proof fn lemma_adv_find_exact(entries: Seq<(Seq<u8>, Seq<u8>, u64)>, key: Seq<u8>, i: int)
    requires
        0 <= i < entries.len(),
        entries[i].0 == key,
        forall|j: int| 0 <= j < i ==> (#[trigger] entries[j]).0 != key,
    ensures
        spec_adv_find(entries, key) == Some(i),
    decreases i,
{
    if i > 0 {
        lemma_adv_find_exact(entries.drop_first(), key, i - 1);
        assert(forall|j: int| 1 <= j < entries.len() ==> entries.drop_first()[j - 1]
            == #[trigger] entries[j]);
    }
}

impl InfoRefsCache {
    /// An empty cache with the given TTL.
    pub fn new(ttl_ms: u64) -> (r: InfoRefsCache)
        ensures
            r.entries@ =~= Seq::<(Vec<u8>, Vec<u8>, u64)>::empty(),
            r.ttl_ms == ttl_ms,
    {
        InfoRefsCache { entries: Vec::new(), ttl_ms }
    }

    /// Reads a cached body: the entry under the key is served only while
    /// it is younger than the TTL, and a zero TTL serves nothing.
    pub fn lookup(&self, key: &[u8], now_ms: u64) -> (r: Option<Vec<u8>>)
        ensures
            ({
                let m = adv_model(self.entries@);
                match spec_adv_find(m, key@) {
                    None => r is None,
                    Some(i) => if self.ttl_ms > 0 && now_ms >= m[i].2 && now_ms - m[i].2
                        < self.ttl_ms {
                        r matches Some(v) && v@ == m[i].1
                    } else {
                        r is None
                    },
                }
            }),
    {
        let ghost m = adv_model(self.entries@);
        proof {
            lemma_adv_find(m, key@);
        }
        if self.ttl_ms == 0 {
            return None;
        }
        let mut i: usize = 0;
        while i < self.entries.len()
            invariant
                i <= self.entries@.len(),
                m == adv_model(self.entries@),
                forall|j: int| 0 <= j < i ==> (#[trigger] m[j]).0 != key@,
            decreases self.entries.len() - i,
        {
            if bytes_eq(self.entries[i].0.as_slice(), key) {
                proof {
                    lemma_adv_find_exact(m, key@, i as int);
                }
                let e = &self.entries[i];
                if now_ms >= e.2 && now_ms - e.2 < self.ttl_ms {
                    let v = copy_range(e.1.as_slice(), 0, e.1.len());
                    proof {
                        assert(v@ =~= m[i as int].1);
                    }
                    return Some(v);
                }
                return None;
            }
            i = i + 1;
        }
        proof {
            lemma_adv_find(m, key@);
        }
        None
    }

    /// Stores a body under a key at `now_ms`: an existing entry for the
    /// key is replaced, a cache grown past 1024 entries is flushed first,
    /// and a zero TTL stores nothing.  A lookup under the key within the
    /// TTL then returns exactly this body.
    pub fn insert(&mut self, key: Vec<u8>, value: Vec<u8>, now_ms: u64)
        ensures
            final(self).ttl_ms == old(self).ttl_ms,
            old(self).ttl_ms == 0 ==> final(self).entries@ == old(self).entries@,
            old(self).ttl_ms > 0 ==> adv_model(final(self).entries@) == spec_adv_put(
                (if old(self).entries@.len() > 1024 {
                    Seq::empty()
                } else {
                    adv_model(old(self).entries@)
                }),
                key@,
                value@,
                now_ms,
            ),
    {
        if self.ttl_ms == 0 {
            return ;
        }
        if self.entries.len() > 1024 {
            self.entries = Vec::new();
        }
        let ghost m = adv_model(self.entries@);
        let ghost kv = key@;
        let ghost vv = value@;
        proof {
            assert(old(self).entries@.len() > 1024 ==> m =~= Seq::<(Seq<u8>, Seq<u8>, u64)>::empty());
            lemma_adv_find(m, kv);
        }
        let mut i: usize = 0;
        let n = self.entries.len();
        while i < n
            invariant
                i <= n,
                n == self.entries@.len(),
                self.ttl_ms == old(self).ttl_ms,
                old(self).ttl_ms > 0,
                m == adv_model(self.entries@),
                kv == key@,
                vv == value@,
                m == (if old(self).entries@.len() > 1024 {
                    Seq::<(Seq<u8>, Seq<u8>, u64)>::empty()
                } else {
                    adv_model(old(self).entries@)
                }),
                forall|j: int| 0 <= j < i ==> (#[trigger] m[j]).0 != kv,
            decreases n - i,
        {
            if bytes_eq(self.entries[i].0.as_slice(), key.as_slice()) {
                proof {
                    lemma_adv_find_exact(m, kv, i as int);
                }
                self.entries.remove(i);
                self.entries.insert(i, (key, value, now_ms));
                proof {
                    assert(adv_model(self.entries@) =~= m.update(i as int, (kv, vv, now_ms)));
                }
                return ;
            }
            i = i + 1;
        }
        proof {
            lemma_adv_find(m, kv);
            assert(spec_adv_find(m, kv) is None);
        }
        self.entries.push((key, value, now_ms));
        proof {
            assert(adv_model(self.entries@) =~= m.push((kv, vv, now_ms)));
        }
    }
}

/// What a push invalidates for one updated ref: the ref's own cache key,
/// and the tree, file and tree-commits patterns of its branch.
pub struct InvalidationPlan {
    pub keys: Vec<String>,
    pub patterns: Vec<String>,
}

/// The branch a ref name denotes for cache purposes: the part after
/// `refs/heads/`, or the name itself outside `refs/heads/`.
pub open spec fn spec_branch_of(name: Seq<char>) -> Seq<char> {
    if name.len() >= 11 && name.take(11) == "refs/heads/"@ {
        name.skip(11)
    } else {
        name
    }
}

/// Builds the cache invalidation plan for a set of accepted ref updates:
/// for every update the plan drops the ref key and every branch-scoped
/// key of the branch, so reads after the push see the new head.
pub fn invalidate_branch_cache(repo_prefix: &str, updates: &Vec<(String, String, String)>) -> (r:
    InvalidationPlan)
    ensures
        r.keys@.len() == updates@.len(),
        r.patterns@.len() == 3 * updates@.len(),
        forall|i: int| 0 <= i < updates@.len() ==> (#[trigger] r.keys@[i])@ == "git:ref:"@
            + repo_prefix@ + ":"@ + (#[trigger] updates@[i]).2@,
        forall|i: int| 0 <= i < updates@.len() ==> (#[trigger] r.patterns@[3 * i])@ == "git:tree:"@
            + repo_prefix@ + ":"@ + spec_branch_of((#[trigger] updates@[i]).2@) + ":*"@,
        forall|i: int| 0 <= i < updates@.len() ==> (#[trigger] r.patterns@[3 * i + 1])@
            == "git:file:"@ + repo_prefix@ + ":"@ + spec_branch_of((#[trigger] updates@[i]).2@)
            + ":*"@,
        forall|i: int| 0 <= i < updates@.len() ==> (#[trigger] r.patterns@[3 * i + 2])@
            == "tree_commits:"@ + repo_prefix@ + ":"@ + spec_branch_of(
            (#[trigger] updates@[i]).2@) + ":*"@,
{
    let mut keys: Vec<String> = Vec::new();
    let mut patterns: Vec<String> = Vec::new();
    let mut i: usize = 0;
    while i < updates.len()
        invariant
            i <= updates@.len(),
            keys@.len() == i,
            patterns@.len() == 3 * i,
            forall|k: int| 0 <= k < i ==> (#[trigger] keys@[k])@ == "git:ref:"@ + repo_prefix@
                + ":"@ + (#[trigger] updates@[k]).2@,
            forall|k: int| 0 <= k < i ==> (#[trigger] patterns@[3 * k])@ == "git:tree:"@
                + repo_prefix@ + ":"@ + spec_branch_of((#[trigger] updates@[k]).2@) + ":*"@,
            forall|k: int| 0 <= k < i ==> (#[trigger] patterns@[3 * k + 1])@ == "git:file:"@
                + repo_prefix@ + ":"@ + spec_branch_of((#[trigger] updates@[k]).2@) + ":*"@,
            forall|k: int| 0 <= k < i ==> (#[trigger] patterns@[3 * k + 2])@ == "tree_commits:"@
                + repo_prefix@ + ":"@ + spec_branch_of((#[trigger] updates@[k]).2@) + ":*"@,
        decreases updates.len() - i,
    {
        let name = &updates[i].2;
        let branch: String = branch_of(name.as_str());
        keys.push(RedisClient::ref_key(repo_prefix, name.as_str()));
        patterns.push(RedisClient::tree_key(repo_prefix, branch.as_str(), "*"));
        patterns.push(RedisClient::file_key(repo_prefix, branch.as_str(), "*"));
        let mut tc = String::from_str("tree_commits:");
        tc.append(repo_prefix);
        tc.append(":");
        tc.append(branch.as_str());
        tc.append(":*");
        patterns.push(tc);
        proof {
            assert(("git:tree:"@ + repo_prefix@ + ":"@ + spec_branch_of(updates@[i as int].2@)
                + ":"@ + "*"@) =~= ("git:tree:"@ + repo_prefix@ + ":"@ + spec_branch_of(
                updates@[i as int].2@,
            ) + ":*"@)) by {
                reveal_strlit(":*");
                reveal_strlit(":");
                reveal_strlit("*");
            }
            assert(("git:file:"@ + repo_prefix@ + ":"@ + spec_branch_of(updates@[i as int].2@)
                + ":"@ + "*"@) =~= ("git:file:"@ + repo_prefix@ + ":"@ + spec_branch_of(
                updates@[i as int].2@,
            ) + ":*"@)) by {
                reveal_strlit(":*");
                reveal_strlit(":");
                reveal_strlit("*");
            }
        }
        i = i + 1;
    }
    InvalidationPlan { keys, patterns }
}

/// The branch of a ref name.
pub fn branch_of(name: &str) -> (r: String)
    ensures
        r@ == spec_branch_of(name@),
{
    let pfx = "refs/heads/";
    proof {
        reveal_strlit("refs/heads/");
    }
    let n = name.unicode_len();
    if n >= 11 {
        let head = name.substring_char(0, 11);
        if crate::text::str_eq(head, pfx) {
            let rest = name.substring_char(11, n);
            proof {
                assert(rest@ =~= name@.skip(11));
            }
            return rest.to_owned();
        }
        proof {
            assert(name@.take(11) != "refs/heads/"@);
        }
        return name.to_owned();
    }
    name.to_owned()
}

} // verus!
