//! The blob-store snapshot: a keyed byte store with unique keys, stable
//! order, and prefix listing.  Every engine function reads and writes a
//! repository through this model; the process edge loads and stores the
//! same keys against the real bucket.

use vstd::prelude::*;
use crate::bytes::{bytes_eq, starts_with, spec_starts_with, copy_range};

verus! {

/// A keyed byte store.
pub struct BlobStore {
    pub entries: Vec<(Vec<u8>, Vec<u8>)>,
}

/// The model of a store: its key/value pairs in insertion order.
pub open spec fn store_model(entries: Seq<(Vec<u8>, Vec<u8>)>) -> Seq<(Seq<u8>, Seq<u8>)> {
    entries.map(|i: int, e: (Vec<u8>, Vec<u8>)| (e.0@, e.1@))
}

impl View for BlobStore {
    type V = Seq<(Seq<u8>, Seq<u8>)>;

    open spec fn view(&self) -> Seq<(Seq<u8>, Seq<u8>)> {
        store_model(self.entries@)
    }
}

/// The index of the entry holding `key`.
pub open spec fn spec_find_key(s: Seq<(Seq<u8>, Seq<u8>)>, key: Seq<u8>) -> Option<int>
    decreases s.len(),
{
    if s.len() == 0 {
        None
    } else if s[0].0 == key {
        Some(0int)
    } else {
        match spec_find_key(s.drop_first(), key) {
            None => None,
            Some(i) => Some(i + 1),
        }
    }
}

/// The value stored under `key`.
pub open spec fn spec_sget(s: Seq<(Seq<u8>, Seq<u8>)>, key: Seq<u8>) -> Option<Seq<u8>> {
    match spec_find_key(s, key) {
        None => None,
        Some(i) => Some(s[i].1),
    }
}

/// Keys are unique.
pub open spec fn store_wf(s: Seq<(Seq<u8>, Seq<u8>)>) -> bool {
    forall|i: int, j: int| 0 <= i < j < s.len() ==> (#[trigger] s[i]).0 != (#[trigger] s[j]).0
}

/// A found index names an entry with the key; none exists elsewhere
/// before it.
proof fn lemma_find_key(s: Seq<(Seq<u8>, Seq<u8>)>, key: Seq<u8>)
    ensures
        match spec_find_key(s, key) {
            None => forall|i: int| 0 <= i < s.len() ==> (#[trigger] s[i]).0 != key,
            Some(i) => 0 <= i < s.len() && s[i].0 == key && forall|j: int|
                0 <= j < i ==> (#[trigger] s[j]).0 != key,
        },
    decreases s.len(),
{
    if s.len() > 0 && s[0].0 != key {
        lemma_find_key(s.drop_first(), key);
        assert(forall|j: int| 1 <= j < s.len() ==> s.drop_first()[j - 1] == #[trigger] s[j]);
    }
}

impl BlobStore {
    /// An empty store.
    pub fn new() -> (r: BlobStore)
        ensures
            r@ == Seq::<(Seq<u8>, Seq<u8>)>::empty(),
            store_wf(r@),
    {
        let r = BlobStore { entries: Vec::new() };
        proof {
            assert(r@ =~= Seq::<(Seq<u8>, Seq<u8>)>::empty());
        }
        r
    }

    /// How many keys the store holds.
    pub fn len(&self) -> (r: usize)
        ensures
            r == self@.len(),
    {
        self.entries.len()
    }

    /// Reads the value under `key`.
    pub fn get(&self, key: &[u8]) -> (r: Option<&Vec<u8>>)
        ensures
            match spec_sget(self@, key@) {
                None => r is None,
                Some(v) => r matches Some(rv) && rv@ == v,
            },
    {
        let ghost model = self@;
        proof {
            lemma_find_key(model, key@);
        }
        let mut i: usize = 0;
        while i < self.entries.len()
            invariant
                i <= self.entries@.len(),
                model == self@,
                spec_find_key(model, key@) matches Some(k) ==> i <= k,
                forall|j: int| 0 <= j < i ==> (#[trigger] model[j]).0 != key@,
            decreases self.entries.len() - i,
        {
            proof {
                lemma_find_key(model, key@);
            }
            if bytes_eq(self.entries[i].0.as_slice(), key) {
                proof {
                    lemma_find_key_exact(model, key@, i as int);
                }
                return Some(&self.entries[i].1);
            }
            i = i + 1;
        }
        proof {
            lemma_find_key(model, key@);
        }
        None
    }

    /// Writes `value` under `key`, replacing any existing entry in place.
    pub fn put(&mut self, key: Vec<u8>, value: Vec<u8>)
        ensures
            final(self)@ == spec_sput(old(self)@, key@, value@),
            store_wf(old(self)@) ==> store_wf(final(self)@),
    {
        let ghost model = self@;
        let ghost kv = key@;
        let ghost vv = value@;
        proof {
            lemma_find_key(model, kv);
        }
        let mut i: usize = 0;
        while i < self.entries.len()
            invariant
                i <= self.entries@.len(),
                model == self@,
                model == old(self)@,
                kv == key@,
                vv == value@,
                forall|j: int| 0 <= j < i ==> (#[trigger] model[j]).0 != kv,
            decreases self.entries.len() - i,
        {
            if bytes_eq(self.entries[i].0.as_slice(), key.as_slice()) {
                proof {
                    lemma_find_key_exact(model, kv, i as int);
                }
                self.entries.remove(i);
                self.entries.insert(i, (key, value));
                proof {
                    assert(self@ =~= model.update(i as int, (kv, vv)));
                    lemma_update_preserves_wf(model, i as int, kv, vv);
                }
                return ;
            }
            i = i + 1;
        }
        proof {
            lemma_find_key(model, kv);
            assert(spec_find_key(model, kv) is None);
        }
        self.entries.push((key, value));
        proof {
            assert(self@ =~= model.push((kv, vv)));
            if store_wf(model) {
                assert(forall|j: int| 0 <= j < model.len() ==> (#[trigger] model[j]).0 != kv);
                assert(store_wf(model.push((kv, vv))));
            }
        }
    }

    /// Deletes the entry under `key`, if any.
    pub fn delete(&mut self, key: &[u8])
        ensures
            final(self)@ == spec_sdel(old(self)@, key@),
            store_wf(old(self)@) ==> store_wf(final(self)@),
    {
        let ghost model = self@;
        proof {
            lemma_find_key(model, key@);
        }
        let mut i: usize = 0;
        while i < self.entries.len()
            invariant
                i <= self.entries@.len(),
                model == self@,
                model == old(self)@,
                forall|j: int| 0 <= j < i ==> (#[trigger] model[j]).0 != key@,
            decreases self.entries.len() - i,
        {
            if bytes_eq(self.entries[i].0.as_slice(), key) {
                proof {
                    lemma_find_key_exact(model, key@, i as int);
                }
                self.entries.remove(i);
                proof {
                    assert(self@ =~= model.remove(i as int));
                    lemma_remove_preserves_wf(model, i as int);
                }
                return ;
            }
            i = i + 1;
        }
        proof {
            lemma_find_key(model, key@);
        }
    }

    /// The keys that begin with `prefix`, in store order.
    pub fn list_prefix(&self, prefix: &[u8]) -> (r: Vec<Vec<u8>>)
        ensures
            r@.map(|i: int, k: Vec<u8>| k@) == spec_keys_with_prefix(self@, prefix@),
    {
        let ghost model = self@;
        let mut out: Vec<Vec<u8>> = Vec::new();
        let mut i: usize = 0;
        proof {
            assert(out@.map(|k: int, v: Vec<u8>| v@) =~= Seq::<Seq<u8>>::empty());
            assert(spec_keys_with_prefix(model.take(0), prefix@) =~= Seq::<Seq<u8>>::empty());
        }
        while i < self.entries.len()
            invariant
                i <= self.entries@.len(),
                model == self@,
                out@.map(|k: int, v: Vec<u8>| v@) == spec_keys_with_prefix(
                    model.take(i as int),
                    prefix@,
                ),
            decreases self.entries.len() - i,
        {
            let ghost before = out@.map(|k: int, v: Vec<u8>| v@);
            let e = &self.entries[i];
            proof {
                assert(model.take(i + 1) =~= model.take(i as int).push(model[i as int]));
                lemma_keys_prefix_push(model.take(i as int), model[i as int], prefix@);
            }
            if starts_with(e.0.as_slice(), prefix) {
                let k = copy_range(e.0.as_slice(), 0, e.0.len());
                proof {
                    assert(k@ =~= model[i as int].0);
                }
                out.push(k);
                proof {
                    assert(out@.map(|k2: int, v: Vec<u8>| v@) =~= before.push(model[i as int].0));
                }
            }
            i = i + 1;
        }
        proof {
            assert(model.take(model.len() as int) =~= model);
        }
        out
    }
}

/// The store after writing `key`: the entry replaced in place, or a new
/// entry at the end.
pub open spec fn spec_sput(s: Seq<(Seq<u8>, Seq<u8>)>, key: Seq<u8>, value: Seq<u8>) -> Seq<
    (Seq<u8>, Seq<u8>),
> {
    match spec_find_key(s, key) {
        Some(i) => s.update(i, (key, value)),
        None => s.push((key, value)),
    }
}

/// The store after deleting `key`.
pub open spec fn spec_sdel(s: Seq<(Seq<u8>, Seq<u8>)>, key: Seq<u8>) -> Seq<(Seq<u8>, Seq<u8>)> {
    match spec_find_key(s, key) {
        Some(i) => s.remove(i),
        None => s,
    }
}

/// The keys of `s` that begin with `prefix`, in order.
pub open spec fn spec_keys_with_prefix(s: Seq<(Seq<u8>, Seq<u8>)>, prefix: Seq<u8>) -> Seq<Seq<u8>>
    decreases s.len(),
{
    if s.len() == 0 {
        Seq::empty()
    } else {
        let rest = spec_keys_with_prefix(s.drop_last(), prefix);
        if spec_starts_with(s.last().0, prefix) {
            rest.push(s.last().0)
        } else {
            rest
        }
    }
}

proof fn lemma_keys_prefix_push(s: Seq<(Seq<u8>, Seq<u8>)>, e: (Seq<u8>, Seq<u8>), prefix: Seq<u8>)
    ensures
        spec_keys_with_prefix(s.push(e), prefix) == if spec_starts_with(e.0, prefix) {
            spec_keys_with_prefix(s, prefix).push(e.0)
        } else {
            spec_keys_with_prefix(s, prefix)
        },
{
    assert(s.push(e).drop_last() =~= s);
    assert(s.push(e).last() == e);
}

/// A scan that reached `i` without a match, where `s[i]` matches, found
/// the key at `i`.
proof fn lemma_find_key_exact(s: Seq<(Seq<u8>, Seq<u8>)>, key: Seq<u8>, i: int)
    requires
        0 <= i < s.len(),
        s[i].0 == key,
        forall|j: int| 0 <= j < i ==> (#[trigger] s[j]).0 != key,
    ensures
        spec_find_key(s, key) == Some(i),
    decreases i,
{
    if i > 0 {
        lemma_find_key_exact(s.drop_first(), key, i - 1);
        assert(forall|j: int| 1 <= j < s.len() ==> s.drop_first()[j - 1] == #[trigger] s[j]);
    } else {
    }
}

proof fn lemma_update_preserves_wf(s: Seq<(Seq<u8>, Seq<u8>)>, i: int, key: Seq<u8>, value: Seq<u8>)
    requires
        0 <= i < s.len(),
        s[i].0 == key,
    ensures
        store_wf(s) ==> store_wf(s.update(i, (key, value))),
{
}

proof fn lemma_remove_preserves_wf(s: Seq<(Seq<u8>, Seq<u8>)>, i: int)
    requires
        0 <= i < s.len(),
    ensures
        store_wf(s) ==> store_wf(s.remove(i)),
{
    if store_wf(s) {
        let t = s.remove(i);
        assert forall|a: int, b: int| 0 <= a < b < t.len() implies (#[trigger] t[a]).0 != (
        #[trigger] t[b]).0 by {
            let a2 = if a < i { a } else { a + 1 };
            let b2 = if b < i { b } else { b + 1 };
            assert(t[a] == s[a2] && t[b] == s[b2]);
        }
    }
}

} // verus!
