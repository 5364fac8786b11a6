//! The ref layer: loose refs, `packed-refs`, symbolic resolution with a
//! bounded depth, and listing with loose entries shadowing packed ones.

use vstd::prelude::*;
use crate::bytes::{bytes_eq, starts_with, spec_starts_with, copy_range, spec_find_byte, find_byte};
use crate::store::{spec_sget, spec_sput, spec_sdel, spec_keys_with_prefix};
use crate::repo::{
    R2GitStore, spec_ref_key, spec_packed_refs_suffix, spec_symref_prefix,
};
use crate::pkt::{spec_trim, trim_bytes};
use crate::commit::{spec_lines, split_lines, lines_model};
use vstd::slice::slice_subrange;

verus! {

/// The trimmed content of a loose ref blob.
pub open spec fn spec_read_ref(
    s: Seq<(Seq<u8>, Seq<u8>)>,
    prefix: Seq<u8>,
    name: Seq<u8>,
) -> Option<Seq<u8>> {
    match spec_sget(s, spec_ref_key(prefix, name)) {
        None => None,
        Some(v) => Some(spec_trim(v)),
    }
}

/// The entries of `packed-refs`: each non-comment, non-peeled line gives
/// `(name, id)`.
pub open spec fn spec_packed_refs(s: Seq<(Seq<u8>, Seq<u8>)>, prefix: Seq<u8>) -> Seq<
    (Seq<u8>, Seq<u8>),
> {
    match spec_sget(s, prefix + spec_packed_refs_suffix()) {
        None => Seq::empty(),
        Some(content) => spec_packed_entries(spec_lines(content), 0),
    }
}

/// The entries among the lines from `i` on: a trimmed line is skipped
/// when empty, a `#` comment, a `^` peeled id, or without a space;
/// otherwise the id stands before the first space and the name after it.
pub open spec fn spec_packed_entries(lines: Seq<Seq<u8>>, i: int) -> Seq<(Seq<u8>, Seq<u8>)>
    decreases lines.len() - i,
{
    if i < 0 || i >= lines.len() {
        Seq::empty()
    } else {
        let rest = spec_packed_entries(lines, i + 1);
        let t = spec_trim(lines[i]);
        if t.len() == 0 || t[0] == 35 || t[0] == 94 {
            rest
        } else {
            match spec_find_byte(t, 32, 0) {
                None => rest,
                Some(sp) => seq![(t.skip(sp + 1), t.take(sp))] + rest,
            }
        }
    }
}

/// What `resolve_ref` yields with `fuel` reads left: symbolic refs
/// recurse, a forty-hex-digit value is the answer, anything else falls
/// back to `packed-refs`.
pub open spec fn spec_resolve_ref(
    s: Seq<(Seq<u8>, Seq<u8>)>,
    prefix: Seq<u8>,
    name: Seq<u8>,
    fuel: nat,
) -> Option<Seq<u8>>
    decreases fuel,
{
    if fuel == 0 {
        None
    } else {
        match spec_read_ref(s, prefix, name) {
            Some(content) => if spec_starts_with(content, spec_symref_prefix()) {
                spec_resolve_ref(s, prefix, content.skip(5), (fuel - 1) as nat)
            } else if content.len() == 40 && all_hex_ci(content) {
                Some(content)
            } else {
                spec_packed_lookup(spec_packed_refs(s, prefix), name)
            },
            None => spec_packed_lookup(spec_packed_refs(s, prefix), name),
        }
    }
}

/// The id of the first packed entry with the given name.
pub open spec fn spec_packed_lookup(entries: Seq<(Seq<u8>, Seq<u8>)>, name: Seq<u8>) -> Option<
    Seq<u8>,
>
    decreases entries.len(),
{
    if entries.len() == 0 {
        None
    } else if entries[0].0 == name {
        Some(entries[0].1)
    } else {
        spec_packed_lookup(entries.drop_first(), name)
    }
}

/// A hex digit in either case.
pub open spec fn all_hex_ci(s: Seq<u8>) -> bool {
    forall|i: int| 0 <= i < s.len() ==> crate::pkt::is_hex_digit_ci(#[trigger] s[i])
}

fn all_hex_ci_at(s: &[u8]) -> (r: bool)
    ensures
        r == all_hex_ci(s@),
{
    let mut i: usize = 0;
    while i < s.len()
        invariant
            i <= s@.len(),
            forall|j: int| 0 <= j < i ==> crate::pkt::is_hex_digit_ci(#[trigger] s@[j]),
        decreases s.len() - i,
    {
        let b = s[i];
        if !((48 <= b && b <= 57) || (97 <= b && b <= 102) || (65 <= b && b <= 70)) {
            assert(!crate::pkt::is_hex_digit_ci(s@[i as int]));
            return false;
        }
        i = i + 1;
    }
    true
}

/// Every id a well-formed repository's refs record is in `ids`: loose
/// forty-hex values and packed entries alike.
pub open spec fn spec_refs_closed(
    s: Seq<(Seq<u8>, Seq<u8>)>,
    prefix: Seq<u8>,
    ids: Set<Seq<u8>>,
) -> bool {
    &&& (forall|name: Seq<u8>| match #[trigger] spec_read_ref(s, prefix, name) {
        Some(c) => c.len() == 40 && all_hex_ci(c) ==> ids.contains(c),
        None => true,
    })
    &&& (forall|j: int| 0 <= j < spec_packed_refs(s, prefix).len() ==> ids.contains(
        (#[trigger] spec_packed_refs(s, prefix)[j]).1,
    ))
}

/// Bounded resolution lands in the recorded ids: whatever `resolve_ref`
/// returns, a repository whose ref values all name known objects hands
/// back one of those objects.
pub proof fn lemma_resolve_ref_closed(
    s: Seq<(Seq<u8>, Seq<u8>)>,
    prefix: Seq<u8>,
    name: Seq<u8>,
    fuel: nat,
    ids: Set<Seq<u8>>,
)
    requires
        spec_refs_closed(s, prefix, ids),
    ensures
        spec_resolve_ref(s, prefix, name, fuel) matches Some(oid) ==> ids.contains(oid),
    decreases fuel,
{
    if fuel > 0 {
        match spec_read_ref(s, prefix, name) {
            Some(content) => {
                if spec_starts_with(content, spec_symref_prefix()) {
                    lemma_resolve_ref_closed(s, prefix, content.skip(5), (fuel - 1) as nat, ids);
                } else if content.len() == 40 && all_hex_ci(content) {
                } else {
                    lemma_packed_lookup_closed(spec_packed_refs(s, prefix), name, ids);
                }
            },
            None => {
                lemma_packed_lookup_closed(spec_packed_refs(s, prefix), name, ids);
            },
        }
    }
}

proof fn lemma_packed_lookup_closed(
    entries: Seq<(Seq<u8>, Seq<u8>)>,
    name: Seq<u8>,
    ids: Set<Seq<u8>>,
)
    requires
        forall|j: int| 0 <= j < entries.len() ==> ids.contains((#[trigger] entries[j]).1),
    ensures
        spec_packed_lookup(entries, name) matches Some(oid) ==> ids.contains(oid),
    decreases entries.len(),
{
    if entries.len() > 0 && entries[0].0 != name {
        assert(forall|j: int| 0 <= j < entries.drop_first().len() ==> entries.drop_first()[j]
            == #[trigger] entries[j + 1]);
        lemma_packed_lookup_closed(entries.drop_first(), name, ids);
    }
}

impl R2GitStore {
    /// Reads and trims a loose ref blob.
    pub fn read_ref(&self, name: &[u8]) -> (r: Option<Vec<u8>>)
        ensures
            match spec_read_ref(self.store@, self.prefix@, name@) {
                None => r is None,
                Some(v) => r matches Some(o) && o@ == v,
            },
    {
        let key = self.ref_path(name);
        match self.store.get(key.as_slice()) {
            None => None,
            Some(v) => Some(trim_bytes(v.as_slice())),
        }
    }

    /// Writes a ref as its id and a newline.
    pub fn write_ref(&mut self, name: &[u8], oid: &[u8])
        ensures
            final(self).store@ == spec_sput(old(self).store@, spec_ref_key(old(self).prefix@,
                name@), oid@ + seq![10u8]),
            final(self).prefix@ == old(self).prefix@,
            final(self).cache@ == old(self).cache@,
    {
        let key = self.ref_path(name);
        let mut v = copy_range(oid, 0, oid.len());
        v.push(10);
        proof {
            assert(v@ =~= oid@ + seq![10u8]);
        }
        self.store.put(key, v);
    }

    /// Deletes a loose ref blob.
    pub fn delete_ref(&mut self, name: &[u8])
        ensures
            final(self).store@ == spec_sdel(old(self).store@, spec_ref_key(old(self).prefix@,
                name@)),
            final(self).prefix@ == old(self).prefix@,
            final(self).cache@ == old(self).cache@,
    {
        let key = self.ref_path(name);
        self.store.delete(key.as_slice());
    }

    /// Parses `packed-refs` into `(name, id)` entries.
    pub fn read_packed_refs(&self) -> (r: Vec<(Vec<u8>, Vec<u8>)>)
        ensures
            r@.map(|i: int, e: (Vec<u8>, Vec<u8>)| (e.0@, e.1@)) == spec_packed_refs(
                self.store@,
                self.prefix@,
            ),
    {
        let ghost target = spec_packed_refs(self.store@, self.prefix@);
        let mut key = copy_range(self.prefix.as_slice(), 0, self.prefix.len());
        let mut sfx = packed_refs_suffix_local();
        key.append(&mut sfx);
        proof {
            assert(self.prefix@.subrange(0, self.prefix@.len() as int) =~= self.prefix@);
            assert(key@ =~= self.prefix@ + spec_packed_refs_suffix());
        }
        let content = match self.store.get(key.as_slice()) {
            None => {
                let empty: Vec<(Vec<u8>, Vec<u8>)> = Vec::new();
                proof {
                    assert(empty@.map(|i: int, e: (Vec<u8>, Vec<u8>)| (e.0@, e.1@)) =~= target);
                }
                return empty;
            },
            Some(v) => v,
        };
        let lines = split_lines(content.as_slice());
        let ghost lm = lines_model(lines@);
        let mut out: Vec<(Vec<u8>, Vec<u8>)> = Vec::new();
        let mut i: usize = 0;
        proof {
            assert(out@.map(|k: int, e: (Vec<u8>, Vec<u8>)| (e.0@, e.1@)) =~= Seq::<
                (Seq<u8>, Seq<u8>),
            >::empty());
        }
        while i < lines.len()
            invariant
                i <= lines@.len(),
                lm == lines_model(lines@),
                target == spec_packed_entries(lm, 0),
                spec_packed_entries(lm, 0) == out@.map(|k: int, e: (Vec<u8>, Vec<u8>)| (e.0@, e.1@))
                    + spec_packed_entries(lm, i as int),
            decreases lines.len() - i,
        {
            let ghost before = out@.map(|k: int, e: (Vec<u8>, Vec<u8>)| (e.0@, e.1@));
            let t = trim_bytes(lines[i].as_slice());
            let tn = t.len();
            if tn == 0 || t[0] == 35 || t[0] == 94 {
            } else {
                match find_byte(t.as_slice(), 32, 0) {
                    None => {
                    },
                    Some(sp) => {
                        let oid = copy_range(t.as_slice(), 0, sp);
                        let nm = copy_range(t.as_slice(), sp + 1, tn);
                        proof {
                            assert(oid@ =~= spec_trim(lm[i as int]).take(sp as int));
                            assert(nm@ =~= spec_trim(lm[i as int]).skip(sp + 1));
                        }
                        out.push((nm, oid));
                        proof {
                            assert(out@.map(|k: int, e: (Vec<u8>, Vec<u8>)| (e.0@, e.1@)) =~= before
                                + seq![
                                (spec_trim(lm[i as int]).skip(sp + 1), spec_trim(
                                    lm[i as int],
                                ).take(sp as int)),
                            ]);
                            assert(before + (seq![
                                (spec_trim(lm[i as int]).skip(sp + 1), spec_trim(
                                    lm[i as int],
                                ).take(sp as int)),
                            ] + spec_packed_entries(lm, i + 1)) =~= out@.map(
                                |k: int, e: (Vec<u8>, Vec<u8>)| (e.0@, e.1@),
                            ) + spec_packed_entries(lm, i + 1));
                        }
                    },
                }
            }
            i = i + 1;
        }
        proof {
            assert(spec_packed_entries(lm, lm.len() as int) =~= Seq::<(Seq<u8>, Seq<u8>)>::empty());
            assert(out@.map(|k: int, e: (Vec<u8>, Vec<u8>)| (e.0@, e.1@)) + Seq::<
                (Seq<u8>, Seq<u8>),
            >::empty() =~= out@.map(|k: int, e: (Vec<u8>, Vec<u8>)| (e.0@, e.1@)));
        }
        out
    }

    /// Resolves a ref through at most ten symbolic indirections.
    pub fn resolve_ref(&self, name: &[u8]) -> (r: Option<Vec<u8>>)
        ensures
            match spec_resolve_ref(self.store@, self.prefix@, name@, 11) {
                None => r is None,
                Some(v) => r matches Some(o) && o@ == v,
            },
    {
        self.resolve_ref_inner(name, 11)
    }

    /// One resolution step with `fuel` reads left.
    pub fn resolve_ref_inner(&self, name: &[u8], fuel: usize) -> (r: Option<Vec<u8>>)
        ensures
            match spec_resolve_ref(self.store@, self.prefix@, name@, fuel as nat) {
                None => r is None,
                Some(v) => r matches Some(o) && o@ == v,
            },
        decreases fuel,
    {
        if fuel == 0 {
            return None;
        }
        match self.read_ref(name) {
            Some(content) => {
                let sym = symref_prefix_local();
                if starts_with(content.as_slice(), sym.as_slice()) {
                    let target = copy_range(content.as_slice(), 5, content.len());
                    proof {
                        assert(target@ =~= spec_read_ref(self.store@, self.prefix@, name@)->0.skip(
                            5,
                        ));
                    }
                    return self.resolve_ref_inner(target.as_slice(), fuel - 1);
                }
                if content.len() == 40 && all_hex_ci_at(content.as_slice()) {
                    return Some(content);
                }
                self.packed_lookup(name)
            },
            None => self.packed_lookup(name),
        }
    }

    /// Looks a name up among the packed refs.
    fn packed_lookup(&self, name: &[u8]) -> (r: Option<Vec<u8>>)
        ensures
            match spec_packed_lookup(spec_packed_refs(self.store@, self.prefix@), name@) {
                None => r is None,
                Some(v) => r matches Some(o) && o@ == v,
            },
    {
        let entries = self.read_packed_refs();
        let ghost model = spec_packed_refs(self.store@, self.prefix@);
        proof {
            assert(model.skip(0) =~= model);
        }
        let mut i: usize = 0;
        while i < entries.len()
            invariant
                i <= entries@.len(),
                model == entries@.map(|k: int, e: (Vec<u8>, Vec<u8>)| (e.0@, e.1@)),
                model == spec_packed_refs(self.store@, self.prefix@),
                spec_packed_lookup(model, name@) == spec_packed_lookup(
                    model.skip(i as int),
                    name@,
                ),
            decreases entries.len() - i,
        {
            let ghost tail = model.skip(i as int);
            proof {
                assert(tail[0] == model[i as int]);
                assert(tail.drop_first() =~= model.skip(i + 1));
            }
            if bytes_eq(entries[i].0.as_slice(), name) {
                let v = copy_range(entries[i].1.as_slice(), 0, entries[i].1.len());
                proof {
                    assert(v@ =~= model[i as int].1);
                }
                return Some(v);
            }
            i = i + 1;
        }
        proof {
            assert(model.skip(model.len() as int) =~= Seq::<(Seq<u8>, Seq<u8>)>::empty());
        }
        None
    }

    /// Lists the refs under a namespace: loose refs in store order, then
    /// the packed entries they do not shadow.
    pub fn list_refs(&self, ns: &[u8]) -> (r: Vec<(Vec<u8>, Vec<u8>)>)
        ensures
            r@.map(|i: int, e: (Vec<u8>, Vec<u8>)| (e.0@, e.1@)) == spec_list_refs(
                self.store@,
                self.prefix@,
                ns@,
            ),
    {
        let ghost lmodel = spec_loose_refs(self.store@, self.prefix@, ns@);
        let keyp = self.ref_path(ns);
        let keys = self.store.list_prefix(keyp.as_slice());
        let ghost gkeys = keys@.map(|i: int, k: Vec<u8>| k@);
        let mut out: Vec<(Vec<u8>, Vec<u8>)> = Vec::new();
        let plen = self.prefix.len();
        let mut i: usize = 0;
        proof {
            assert(out@.map(|k: int, e: (Vec<u8>, Vec<u8>)| (e.0@, e.1@)) =~= spec_loose_entries(
                self.store@,
                self.prefix@,
                gkeys.take(0),
            ));
        }
        while i < keys.len()
            invariant
                i <= keys@.len(),
                gkeys == keys@.map(|k: int, v: Vec<u8>| v@),
                plen == self.prefix@.len(),
                out@.map(|k: int, e: (Vec<u8>, Vec<u8>)| (e.0@, e.1@)) == spec_loose_entries(
                    self.store@,
                    self.prefix@,
                    gkeys.take(i as int),
                ),
            decreases keys.len() - i,
        {
            let ghost before = out@.map(|k: int, e: (Vec<u8>, Vec<u8>)| (e.0@, e.1@));
            proof {
                assert(gkeys.take(i + 1) =~= gkeys.take(i as int).push(gkeys[i as int]));
                lemma_loose_entries_push(self.store@, self.prefix@, gkeys.take(i as int),
                    gkeys[i as int]);
            }
            let key = &keys[i];
            if key.len() > plen && key.len() - plen > 1 {
                match self.store.get(key.as_slice()) {
                    Some(v) => {
                        let nm = copy_range(key.as_slice(), plen + 1, key.len());
                        let ov = trim_bytes(v.as_slice());
                        proof {
                            assert(nm@ =~= gkeys[i as int].skip(plen + 1));
                        }
                        out.push((nm, ov));
                        proof {
                            assert(out@.map(|k: int, e: (Vec<u8>, Vec<u8>)| (e.0@, e.1@)) =~= before
                                .push(
                                (gkeys[i as int].skip(plen + 1), spec_trim(
                                    spec_sget(self.store@, gkeys[i as int])->0,
                                )),
                            ));
                        }
                    },
                    None => {
                    },
                }
            }
            i = i + 1;
        }
        proof {
            assert(gkeys.take(gkeys.len() as int) =~= gkeys);
        }
        let packed = self.read_packed_refs();
        let ghost pmodel = spec_packed_refs(self.store@, self.prefix@);
        let loose_n = out.len();
        proof {
            assert(lmodel == out@.map(|k: int, e: (Vec<u8>, Vec<u8>)| (e.0@, e.1@)));
        }
        let mut j: usize = 0;
        proof {
            assert(spec_filter_packed(pmodel.take(0), lmodel, ns@) =~= Seq::<
                (Seq<u8>, Seq<u8>),
            >::empty());
            assert(out@.map(|k: int, e: (Vec<u8>, Vec<u8>)| (e.0@, e.1@)) =~= lmodel
                + spec_filter_packed(pmodel.take(0), lmodel, ns@));
        }
        while j < packed.len()
            invariant
                j <= packed@.len(),
                pmodel == packed@.map(|k: int, e: (Vec<u8>, Vec<u8>)| (e.0@, e.1@)),
                lmodel == spec_loose_refs(self.store@, self.prefix@, ns@),
                loose_n as nat == lmodel.len(),
                loose_n <= out@.len(),
                out@.map(|k: int, e: (Vec<u8>, Vec<u8>)| (e.0@, e.1@)) == lmodel
                    + spec_filter_packed(pmodel.take(j as int), lmodel, ns@),
            decreases packed.len() - j,
        {
            let ghost before = out@.map(|k: int, e: (Vec<u8>, Vec<u8>)| (e.0@, e.1@));
            proof {
                assert(pmodel.take(j + 1) =~= pmodel.take(j as int).push(pmodel[j as int]));
                lemma_filter_packed_push(pmodel.take(j as int), pmodel[j as int], lmodel, ns@);
            }
            let e = &packed[j];
            proof {
                assert(out@.map(|k: int, e2: (Vec<u8>, Vec<u8>)| (e2.0@, e2.1@)).take(
                    loose_n as int,
                ) =~= lmodel);
            }
            if starts_with(e.0.as_slice(), ns) && !has_name(&out, e.0.as_slice(), loose_n) {
                let nm = copy_range(e.0.as_slice(), 0, e.0.len());
                let ov = copy_range(e.1.as_slice(), 0, e.1.len());
                proof {
                    assert(nm@ =~= pmodel[j as int].0);
                    assert(ov@ =~= pmodel[j as int].1);
                }
                out.push((nm, ov));
                proof {
                    assert(out@.map(|k: int, e2: (Vec<u8>, Vec<u8>)| (e2.0@, e2.1@)) =~= before
                        .push(pmodel[j as int]));
                }
            }
            j = j + 1;
        }
        proof {
            assert(pmodel.take(pmodel.len() as int) =~= pmodel);
        }
        out
    }
}

/// Whether any of the first `n` entries carries the name.
fn has_name(entries: &Vec<(Vec<u8>, Vec<u8>)>, name: &[u8], n: usize) -> (r: bool)
    requires
        n <= entries@.len(),
    ensures
        r == spec_has_name(
            entries@.map(|k: int, e: (Vec<u8>, Vec<u8>)| (e.0@, e.1@)).take(n as int),
            name@,
        ),
{
    let mut i: usize = 0;
    let ghost model = entries@.map(|k: int, e: (Vec<u8>, Vec<u8>)| (e.0@, e.1@));
    while i < n
        invariant
            i <= n <= entries@.len(),
            model == entries@.map(|k: int, e: (Vec<u8>, Vec<u8>)| (e.0@, e.1@)),
            forall|k: int| 0 <= k < i ==> (#[trigger] model[k]).0 != name@,
        decreases n - i,
    {
        if bytes_eq(entries[i].0.as_slice(), name) {
            proof {
                lemma_has_name_exists(model.take(n as int), name@);
                assert(model.take(n as int)[i as int].0 == name@);
            }
            return true;
        }
        i = i + 1;
    }
    proof {
        lemma_has_name_none(model.take(n as int), name@);
        assert(forall|k: int| 0 <= k < n ==> model.take(n as int)[k] == #[trigger] model[k]);
    }
    false
}

/// Whether a name occurs among entries.
pub open spec fn spec_has_name(entries: Seq<(Seq<u8>, Seq<u8>)>, name: Seq<u8>) -> bool
    decreases entries.len(),
{
    if entries.len() == 0 {
        false
    } else {
        entries[0].0 == name || spec_has_name(entries.drop_first(), name)
    }
}

proof fn lemma_has_name_none(entries: Seq<(Seq<u8>, Seq<u8>)>, name: Seq<u8>)
    requires
        forall|k: int| 0 <= k < entries.len() ==> (#[trigger] entries[k]).0 != name,
    ensures
        !spec_has_name(entries, name),
    decreases entries.len(),
{
    if entries.len() > 0 {
        assert(forall|k: int| 0 <= k < entries.drop_first().len() ==> entries.drop_first()[k]
            == #[trigger] entries[k + 1]);
        lemma_has_name_none(entries.drop_first(), name);
    }
}

/// A name occurs exactly when some entry carries it.
pub proof fn lemma_has_name_exists(entries: Seq<(Seq<u8>, Seq<u8>)>, name: Seq<u8>)
    ensures
        spec_has_name(entries, name) <==> exists|k: int|
            0 <= k < entries.len() && (#[trigger] entries[k]).0 == name,
    decreases entries.len(),
{
    if entries.len() > 0 {
        assert(forall|k: int| 0 <= k < entries.drop_first().len() ==> entries.drop_first()[k]
            == #[trigger] entries[k + 1]);
        lemma_has_name_exists(entries.drop_first(), name);
        if entries[0].0 == name {
            assert(0 <= 0 < entries.len() && entries[0].0 == name);
        }
        if exists|k: int| 0 <= k < entries.len() && (#[trigger] entries[k]).0 == name {
            let k = choose|k: int| 0 <= k < entries.len() && (#[trigger] entries[k]).0 == name;
            if k > 0 {
                assert(entries.drop_first()[k - 1].0 == name);
            }
        }
    }
}

/// The loose ref entries under a namespace: each key under
/// `<prefix>/<ns>` gives its name past the prefix and its trimmed value.
pub open spec fn spec_loose_refs(
    s: Seq<(Seq<u8>, Seq<u8>)>,
    prefix: Seq<u8>,
    ns: Seq<u8>,
) -> Seq<(Seq<u8>, Seq<u8>)> {
    spec_loose_entries(s, prefix, spec_keys_with_prefix(s, spec_ref_key(prefix, ns)))
}

/// The entries the listed keys stand for.
pub open spec fn spec_loose_entries(
    s: Seq<(Seq<u8>, Seq<u8>)>,
    prefix: Seq<u8>,
    keys: Seq<Seq<u8>>,
) -> Seq<(Seq<u8>, Seq<u8>)>
    decreases keys.len(),
{
    if keys.len() == 0 {
        Seq::empty()
    } else {
        let rest = spec_loose_entries(s, prefix, keys.drop_last());
        let key = keys.last();
        if key.len() > prefix.len() + 1 {
            match spec_sget(s, key) {
                Some(v) => rest.push((key.skip(prefix.len() + 1 as int), spec_trim(v))),
                None => rest,
            }
        } else {
            rest
        }
    }
}

proof fn lemma_loose_entries_push(
    s: Seq<(Seq<u8>, Seq<u8>)>,
    prefix: Seq<u8>,
    keys: Seq<Seq<u8>>,
    key: Seq<u8>,
)
    ensures
        spec_loose_entries(s, prefix, keys.push(key)) == (if key.len() > prefix.len() + 1 {
            match spec_sget(s, key) {
                Some(v) => spec_loose_entries(s, prefix, keys).push(
                    (key.skip(prefix.len() + 1 as int), spec_trim(v)),
                ),
                None => spec_loose_entries(s, prefix, keys),
            }
        } else {
            spec_loose_entries(s, prefix, keys)
        }),
{
    assert(keys.push(key).drop_last() =~= keys);
    assert(keys.push(key).last() == key);
}

/// The packed entries that survive listing: inside the namespace and not
/// shadowed by a loose ref.
pub open spec fn spec_filter_packed(
    packed: Seq<(Seq<u8>, Seq<u8>)>,
    loose: Seq<(Seq<u8>, Seq<u8>)>,
    ns: Seq<u8>,
) -> Seq<(Seq<u8>, Seq<u8>)>
    decreases packed.len(),
{
    if packed.len() == 0 {
        Seq::empty()
    } else {
        let rest = spec_filter_packed(packed.drop_last(), loose, ns);
        let e = packed.last();
        if spec_starts_with(e.0, ns) && !spec_has_name(loose, e.0) {
            rest.push(e)
        } else {
            rest
        }
    }
}

proof fn lemma_filter_packed_push(
    packed: Seq<(Seq<u8>, Seq<u8>)>,
    e: (Seq<u8>, Seq<u8>),
    loose: Seq<(Seq<u8>, Seq<u8>)>,
    ns: Seq<u8>,
)
    ensures
        spec_filter_packed(packed.push(e), loose, ns) == (if spec_starts_with(e.0, ns)
            && !spec_has_name(loose, e.0) {
            spec_filter_packed(packed, loose, ns).push(e)
        } else {
            spec_filter_packed(packed, loose, ns)
        }),
{
    assert(packed.push(e).drop_last() =~= packed);
    assert(packed.push(e).last() == e);
}

/// The listed refs under a namespace: loose first, then unshadowed
/// packed entries; a loose ref always wins over a packed one of the same
/// name.
pub open spec fn spec_list_refs(
    s: Seq<(Seq<u8>, Seq<u8>)>,
    prefix: Seq<u8>,
    ns: Seq<u8>,
) -> Seq<(Seq<u8>, Seq<u8>)> {
    let loose = spec_loose_refs(s, prefix, ns);
    loose + spec_filter_packed(spec_packed_refs(s, prefix), loose, ns)
}

fn packed_refs_suffix_local() -> (r: Vec<u8>)
    ensures
        r@ == spec_packed_refs_suffix(),
{
    let mut v: Vec<u8> = Vec::new();
    v.push(47);
    v.push(112);
    v.push(97);
    v.push(99);
    v.push(107);
    v.push(101);
    v.push(100);
    v.push(45);
    v.push(114);
    v.push(101);
    v.push(102);
    v.push(115);
    proof {
        assert(v@ =~= spec_packed_refs_suffix());
    }
    v
}

fn symref_prefix_local() -> (r: Vec<u8>)
    ensures
        r@ == spec_symref_prefix(),
{
    let mut v: Vec<u8> = Vec::new();
    v.push(114);
    v.push(101);
    v.push(102);
    v.push(58);
    v.push(32);
    proof {
        assert(v@ =~= spec_symref_prefix());
    }
    v
}

/// Every packed entry's value is forty hex digits.
pub open spec fn spec_packed_wf(s: Seq<(Seq<u8>, Seq<u8>)>, prefix: Seq<u8>) -> bool {
    forall|j: int| 0 <= j < spec_packed_refs(s, prefix).len() ==> {
        let v = (#[trigger] spec_packed_refs(s, prefix)[j]).1;
        v.len() == 40 && all_hex_ci(v)
    }
}

/// A resolved ref is a forty-hex-digit id: a loose value is answered
/// only after passing the digit test, and a packed value is one by the
/// well-formedness of `packed-refs`.
pub proof fn lemma_resolve_ref_hex(
    s: Seq<(Seq<u8>, Seq<u8>)>,
    prefix: Seq<u8>,
    name: Seq<u8>,
    fuel: nat,
)
    requires
        spec_packed_wf(s, prefix),
    ensures
        spec_resolve_ref(s, prefix, name, fuel) matches Some(oid) ==> oid.len() == 40
            && all_hex_ci(oid),
    decreases fuel,
{
    if fuel > 0 {
        match spec_read_ref(s, prefix, name) {
            Some(content) => {
                if spec_starts_with(content, spec_symref_prefix()) {
                    lemma_resolve_ref_hex(s, prefix, content.skip(5), (fuel - 1) as nat);
                } else if content.len() == 40 && all_hex_ci(content) {
                } else {
                    lemma_packed_lookup_hex(spec_packed_refs(s, prefix), name);
                }
            },
            None => {
                lemma_packed_lookup_hex(spec_packed_refs(s, prefix), name);
            },
        }
    }
}

proof fn lemma_packed_lookup_hex(entries: Seq<(Seq<u8>, Seq<u8>)>, name: Seq<u8>)
    requires
        forall|j: int| 0 <= j < entries.len() ==> {
            let v = (#[trigger] entries[j]).1;
            v.len() == 40 && all_hex_ci(v)
        },
    ensures
        spec_packed_lookup(entries, name) matches Some(oid) ==> oid.len() == 40 && all_hex_ci(
            oid,
        ),
    decreases entries.len(),
{
    if entries.len() > 0 && entries[0].0 != name {
        assert(forall|j: int| 0 <= j < entries.drop_first().len() ==> entries.drop_first()[j]
            == #[trigger] entries[j + 1]);
        lemma_packed_lookup_hex(entries.drop_first(), name);
    }
}

} // verus!
