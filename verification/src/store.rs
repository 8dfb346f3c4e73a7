//! The raw-asset store: an owned association from normalized logical path to
//! raw byte buffer, with exact lookup, a tolerant substring fallback, removal
//! and bulk merge. Entries keep their insertion order, and the fallback scan
//! returns the first key in that order that contains the query, so resolution
//! is deterministic.

use crate::paths::{
    bytes_eq, contains_sub, copy_bytes, ends_with, find_sub, is_normalized, jpeg_suffix,
    jpg_suffix, lemma_normalize_normalized, normalize, normalize_path, query_of,
    strip_alias_bytes, BACKSLASH,
};
use crate::Error;
use vstd::prelude::*;

verus! {

/// Whether some key of `keys` is `k`.
pub open spec fn has_key(keys: Seq<Seq<u8>>, k: Seq<u8>) -> bool {
    exists|i: int| 0 <= i < keys.len() && keys[i] == k
}

/// The index at which `keys` holds `k`; meaningful when `has_key(keys, k)`
/// and the keys are distinct.
pub open spec fn index_of_key(keys: Seq<Seq<u8>>, k: Seq<u8>) -> int {
    choose|i: int| 0 <= i < keys.len() && keys[i] == k
}

/// The buffer stored under key `k`.
pub open spec fn val_of(keys: Seq<Seq<u8>>, vals: Seq<Seq<u8>>, k: Seq<u8>) -> Seq<u8> {
    vals[index_of_key(keys, k)]
}

/// Well-formed store contents: one buffer per key, every key normalized, and
/// no key repeated.
pub open spec fn wf_seqs(keys: Seq<Seq<u8>>, vals: Seq<Seq<u8>>) -> bool {
    &&& keys.len() == vals.len()
    &&& forall|i: int| 0 <= i < keys.len() ==> is_normalized(#[trigger] keys[i])
    &&& forall|i: int, j: int| 0 <= i < j < keys.len() ==> keys[i] != keys[j]
}

/// Whether some key of `keys` contains `q`.
pub open spec fn any_match(keys: Seq<Seq<u8>>, q: Seq<u8>) -> bool {
    exists|i: int| 0 <= i < keys.len() && contains_sub(#[trigger] keys[i], q)
}

/// Whether position `i` holds the first key that contains `q`.
pub open spec fn first_match_at(keys: Seq<Seq<u8>>, q: Seq<u8>, i: int) -> bool {
    &&& 0 <= i < keys.len()
    &&& contains_sub(keys[i], q)
    &&& forall|j: int| 0 <= j < i ==> !contains_sub(#[trigger] keys[j], q)
}

/// Whether the query path `p` resolves to some key: either `p` is itself a
/// key, or some key contains the normalized, alias-stripped form of `p`.
pub open spec fn resolvable_in(keys: Seq<Seq<u8>>, p: Seq<u8>) -> bool {
    has_key(keys, p) || any_match(keys, query_of(p))
}

/// Whether the query path `p` resolves to the key `k`: an exact hit wins, and
/// otherwise `k` must be the first key containing the normalized,
/// alias-stripped form of `p`.
pub open spec fn resolves_to_in(keys: Seq<Seq<u8>>, p: Seq<u8>, k: Seq<u8>) -> bool {
    if has_key(keys, p) {
        k == p
    } else {
        exists|i: int| first_match_at(keys, query_of(p), i) && keys[i] == k
    }
}

/// One insertion at the level of the store's model: an existing key keeps its
/// position and takes the new buffer, a new key goes to the end.
pub open spec fn insert_step(
    keys: Seq<Seq<u8>>,
    vals: Seq<Seq<u8>>,
    p: Seq<u8>,
    b: Seq<u8>,
) -> (Seq<Seq<u8>>, Seq<Seq<u8>>) {
    let k = normalize(p);
    if has_key(keys, k) {
        (keys, vals.update(index_of_key(keys, k), b))
    } else {
        (keys.push(k), vals.push(b))
    }
}

/// Repeated insertion of a sequence of entries, first to last.
pub open spec fn insert_all(
    keys: Seq<Seq<u8>>,
    vals: Seq<Seq<u8>>,
    es: Seq<(Seq<u8>, Seq<u8>)>,
) -> (Seq<Seq<u8>>, Seq<Seq<u8>>)
    decreases es.len(),
{
    if es.len() == 0 {
        (keys, vals)
    } else {
        let stepped = insert_step(keys, vals, es[0].0, es[0].1);
        insert_all(stepped.0, stepped.1, es.drop_first())
    }
}

/// The views of a sequence of owned entries.
pub open spec fn entry_views(es: Seq<(Vec<u8>, Vec<u8>)>) -> Seq<(Seq<u8>, Seq<u8>)> {
    es.map_values(|e: (Vec<u8>, Vec<u8>)| (e.0@, e.1@))
}

/// The element views of a pushed sequence of buffers.
proof fn lemma_view_push(s: Seq<Vec<u8>>, v: Vec<u8>)
    ensures
        s.push(v).map_values(|x: Vec<u8>| x@) == s.map_values(|x: Vec<u8>| x@).push(v@),
{
    assert(s.push(v).map_values(|x: Vec<u8>| x@) =~= s.map_values(|x: Vec<u8>| x@).push(v@));
}

/// The element views of an updated sequence of buffers.
proof fn lemma_view_update(s: Seq<Vec<u8>>, i: int, v: Vec<u8>)
    requires
        0 <= i < s.len(),
    ensures
        s.update(i, v).map_values(|x: Vec<u8>| x@) == s.map_values(|x: Vec<u8>| x@).update(i, v@),
{
    assert(s.update(i, v).map_values(|x: Vec<u8>| x@) =~= s.map_values(|x: Vec<u8>| x@).update(
        i,
        v@,
    ));
}

/// The element views of a sequence of buffers with one member removed.
proof fn lemma_view_remove(s: Seq<Vec<u8>>, i: int)
    requires
        0 <= i < s.len(),
    ensures
        s.remove(i).map_values(|x: Vec<u8>| x@) == s.map_values(|x: Vec<u8>| x@).remove(i),
{
    s.remove_ensures(i);
    s.map_values(|x: Vec<u8>| x@).remove_ensures(i);
    assert(s.remove(i).map_values(|x: Vec<u8>| x@) =~= s.map_values(|x: Vec<u8>| x@).remove(i));
}

/// In a store with distinct keys, the key at position `i` is found at
/// position `i` and nowhere else.
pub proof fn lemma_key_at_index(keys: Seq<Seq<u8>>, i: int)
    requires
        0 <= i < keys.len(),
        forall|a: int, b: int| 0 <= a < b < keys.len() ==> keys[a] != keys[b],
    ensures
        has_key(keys, keys[i]),
        index_of_key(keys, keys[i]) == i,
{
    assert(has_key(keys, keys[i]));
    let j = index_of_key(keys, keys[i]);
    if j < i {
        assert(keys[j] != keys[i]);
    } else {
        if i < j {
            assert(keys[i] != keys[j]);
        }
    }
}

/// Removing the entry at position `i` keeps the store well formed, drops its
/// key, and leaves every other key bound to the buffer it had.
pub proof fn lemma_wf_remove(keys: Seq<Seq<u8>>, vals: Seq<Seq<u8>>, i: int)
    requires
        wf_seqs(keys, vals),
        0 <= i < keys.len(),
    ensures
        wf_seqs(keys.remove(i), vals.remove(i)),
        !has_key(keys.remove(i), keys[i]),
        val_of(keys, vals, keys[i]) == vals[i],
        forall|k: Seq<u8>| k != keys[i] ==> (has_key(keys.remove(i), k) <==> has_key(keys, k)),
        forall|k: Seq<u8>|
            k != keys[i] && has_key(keys, k) ==> val_of(keys.remove(i), vals.remove(i), k)
                == val_of(keys, vals, k),
{
    keys.remove_ensures(i);
    vals.remove_ensures(i);
    let rkeys = keys.remove(i);
    let rvals = vals.remove(i);
    lemma_key_at_index(keys, i);
    assert forall|a: int, b: int| 0 <= a < b < rkeys.len() implies rkeys[a] != rkeys[b] by {
        let a2: int = if a < i {
            a
        } else {
            a + 1
        };
        let b2: int = if b < i {
            b
        } else {
            b + 1
        };
        assert(rkeys[a] == keys[a2] && rkeys[b] == keys[b2]);
        assert(keys[a2] != keys[b2]);
    }
    assert forall|a: int| 0 <= a < rkeys.len() implies is_normalized(#[trigger] rkeys[a]) by {
        let a2: int = if a < i {
            a
        } else {
            a + 1
        };
        assert(rkeys[a] == keys[a2]);
    }
    assert forall|a: int| 0 <= a < rkeys.len() implies rkeys[a] != keys[i] by {
        let a2: int = if a < i {
            a
        } else {
            a + 1
        };
        assert(rkeys[a] == keys[a2]);
        if a2 < i {
            assert(keys[a2] != keys[i]);
        } else {
            assert(keys[i] != keys[a2]);
        }
    }
    assert forall|k: Seq<u8>| k != keys[i] implies (has_key(rkeys, k) <==> has_key(keys, k)) by {
        if has_key(rkeys, k) {
            let a = index_of_key(rkeys, k);
            let a2: int = if a < i {
                a
            } else {
                a + 1
            };
            assert(rkeys[a] == keys[a2]);
            assert(has_key(keys, k));
        }
        if has_key(keys, k) {
            let a = index_of_key(keys, k);
            assert(keys[a] == k);
            if a < i {
                assert(rkeys[a] == k);
                assert(has_key(rkeys, k));
            } else {
                assert(a != i);
                assert(rkeys[a - 1] == keys[a]);
                assert(has_key(rkeys, k));
            }
        }
    }
    assert forall|k: Seq<u8>| k != keys[i] && has_key(keys, k) implies val_of(rkeys, rvals, k)
        == val_of(keys, vals, k) by {
        let a = index_of_key(keys, k);
        assert(keys[a] == k);
        lemma_key_at_index(keys, a);
        let b = index_of_key(rkeys, k);
        assert(has_key(rkeys, k));
        assert(rkeys[b] == k);
        let b2: int = if b < i {
            b
        } else {
            b + 1
        };
        assert(rkeys[b] == keys[b2]);
        lemma_key_at_index(keys, b2);
        assert(b2 == a);
        assert(rvals[b] == vals[b2]);
    }
}

/// An owned mapping from normalized logical path to raw byte buffer.
#[derive(Debug)]
pub struct RawAssets {
    paths: Vec<Vec<u8>>,
    blobs: Vec<Vec<u8>>,
}

impl RawAssets {
    /// The stored keys, in insertion order.
    pub closed spec fn keys(self) -> Seq<Seq<u8>> {
        self.paths@.map_values(|v: Vec<u8>| v@)
    }

    /// The stored buffers, in the same order as `keys`.
    pub closed spec fn vals(self) -> Seq<Seq<u8>> {
        self.blobs@.map_values(|v: Vec<u8>| v@)
    }

    /// The number of stored entries.
    pub open spec fn size(self) -> nat {
        self.keys().len()
    }

    /// Well-formedness: one buffer per key, every key normalized, no key
    /// repeated. Established by `new` and preserved by every method.
    pub open spec fn wf(self) -> bool {
        wf_seqs(self.keys(), self.vals())
    }

    /// Whether `k` is a stored key.
    pub open spec fn contains_key(self, k: Seq<u8>) -> bool {
        has_key(self.keys(), k)
    }

    /// The buffer stored under key `k`.
    pub open spec fn at_key(self, k: Seq<u8>) -> Seq<u8> {
        val_of(self.keys(), self.vals(), k)
    }

    /// Whether the query path `p` resolves to some key.
    pub open spec fn resolvable(self, p: Seq<u8>) -> bool {
        resolvable_in(self.keys(), p)
    }

    /// Whether the query path `p` resolves to the key `k`.
    pub open spec fn resolves_to(self, p: Seq<u8>, k: Seq<u8>) -> bool {
        resolves_to_in(self.keys(), p, k)
    }

    /// Constructs a new empty set of raw assets.
    pub fn new() -> (r: RawAssets)
        ensures
            r.wf(),
            r.size() == 0,
    {
        RawAssets { paths: Vec::new(), blobs: Vec::new() }
    }

    /// The number of stored entries.
    pub fn len(&self) -> (n: usize)
        ensures
            n == self.size(),
    {
        self.paths.len()
    }

    /// The key of the entry at position `i`.
    pub fn key_at(&self, i: usize) -> (r: &Vec<u8>)
        requires
            i < self.size(),
        ensures
            r@ == self.keys()[i as int],
    {
        &self.paths[i]
    }

    /// The buffer of the entry at position `i`.
    pub fn bytes_at(&self, i: usize) -> (r: &Vec<u8>)
        requires
            self.wf(),
            i < self.size(),
        ensures
            r@ == self.vals()[i as int],
    {
        &self.blobs[i]
    }

    /// The position of the entry whose key is exactly `k`, if any.
    fn find_exact(&self, k: &Vec<u8>) -> (r: Option<usize>)
        ensures
            r matches Some(i) ==> i < self.size() && self.keys()[i as int] == k@,
            r is Some <==> self.contains_key(k@),
    {
        let mut i: usize = 0;
        while i < self.paths.len()
            invariant
                i <= self.paths@.len(),
                forall|j: int| 0 <= j < i ==> #[trigger] self.keys()[j] != k@,
            decreases self.paths@.len() - i,
        {
            if bytes_eq(&self.paths[i], k) {
                proof {
                    assert(self.keys()[i as int] == self.paths@[i as int]@);
                }
                return Some(i);
            }
            proof {
                assert(self.keys()[i as int] == self.paths@[i as int]@);
            }
            i = i + 1;
        }
        None
    }

    /// The position of the entry that the query path resolves to: an exact
    /// key match first, then the first key that contains the normalized,
    /// alias-stripped query.
    fn resolve_index(&self, path: &Vec<u8>) -> (r: Option<usize>)
        ensures
            r matches Some(i) ==> i < self.size() && self.resolves_to(
                path@,
                self.keys()[i as int],
            ),
            r is Some <==> self.resolvable(path@),
    {
        match self.find_exact(path) {
            Some(i) => {
                proof {
                    assert(self.resolves_to(path@, self.keys()[i as int]));
                }
                Some(i)
            },
            None => {
                let norm = normalize_path(path);
                let q = strip_alias_bytes(&norm);
                let mut i: usize = 0;
                while i < self.paths.len()
                    invariant
                        i <= self.paths@.len(),
                        q@ == query_of(path@),
                        !self.contains_key(path@),
                        forall|j: int|
                            0 <= j < i ==> !contains_sub(#[trigger] self.keys()[j], q@),
                    decreases self.paths@.len() - i,
                {
                    if find_sub(&self.paths[i], &q) {
                        proof {
                            assert(self.keys()[i as int] == self.paths@[i as int]@);
                            assert(first_match_at(self.keys(), q@, i as int));
                        }
                        return Some(i);
                    }
                    proof {
                        assert(self.keys()[i as int] == self.paths@[i as int]@);
                    }
                    i = i + 1;
                }
                proof {
                    assert(!any_match(self.keys(), q@));
                }
                None
            },
        }
    }

    /// Resolves a query path to the concrete stored key, tolerantly: an exact
    /// key wins; otherwise the query is normalized and alias-stripped and the
    /// first stored key containing it is returned; with no such key the query
    /// fails as not found.
    pub fn match_path(&self, path: &Vec<u8>) -> (r: Result<Vec<u8>, Error>)
        ensures
            r is Ok <==> self.resolvable(path@),
            r matches Ok(k) ==> self.resolves_to(path@, k@) && self.contains_key(k@),
            r matches Err(e) ==> e matches Error::NotFound(q) && q@ == path@ && !self.resolvable(
                path@,
            ),
    {
        match self.resolve_index(path) {
            Some(i) => {
                proof {
                    assert(self.contains_key(self.keys()[i as int]));
                }
                Ok(copy_bytes(&self.paths[i]))
            },
            None => Err(Error::NotFound(copy_bytes(path))),
        }
    }

    /// Resolves the query path and lends out the bytes stored under the
    /// resolved key, without removing them.
    pub fn get(&self, path: &Vec<u8>) -> (r: Result<&Vec<u8>, Error>)
        requires
            self.wf(),
        ensures
            r is Ok <==> self.resolvable(path@),
            r matches Ok(b) ==> exists|k: Seq<u8>|
                self.resolves_to(path@, k) && self.contains_key(k) && b@ == self.at_key(k),
            r matches Err(e) ==> e matches Error::NotFound(q) && q@ == path@ && !self.resolvable(
                path@,
            ),
    {
        match self.resolve_index(path) {
            Some(i) => {
                proof {
                    lemma_key_at_index(self.keys(), i as int);
                    let k = self.keys()[i as int];
                    assert(self.at_key(k) == self.vals()[i as int]);
                    assert(self.blobs@[i as int]@ == self.vals()[i as int]);
                }
                Ok(&self.blobs[i])
            },
            None => Err(Error::NotFound(copy_bytes(path))),
        }
    }

    /// Resolves the query path, removes the resolved entry, and hands its
    /// bytes over to the caller.
    pub fn remove(&mut self, path: &Vec<u8>) -> (r: Result<Vec<u8>, Error>)
        requires
            old(self).wf(),
        ensures
            final(self).wf(),
            r is Ok <==> old(self).resolvable(path@),
            r matches Ok(b) ==> (exists|i: int|
                0 <= i < old(self).size() && old(self).resolves_to(path@, old(self).keys()[i])
                    && b@ == old(self).vals()[i] && final(self).keys() == old(self).keys().remove(
                    i,
                ) && final(self).vals() == old(self).vals().remove(i)),
            r is Err ==> final(self).keys() == old(self).keys() && final(self).vals() == old(
                self,
            ).vals(),
            r matches Err(e) ==> e matches Error::NotFound(q) && q@ == path@ && !old(
                self,
            ).resolvable(path@),
    {
        match self.resolve_index(path) {
            Some(i) => {
                let b = self.blobs.remove(i);
                self.paths.remove(i);
                proof {
                    lemma_view_remove(old(self).paths@, i as int);
                    lemma_view_remove(old(self).blobs@, i as int);
                    lemma_wf_remove(old(self).keys(), old(self).vals(), i as int);
                    assert(old(self).blobs@[i as int]@ == old(self).vals()[i as int]);
                }
                Ok(b)
            },
            None => Err(Error::NotFound(copy_bytes(path))),
        }
    }

    /// Normalizes the path and stores the bytes under it, overwriting any
    /// entry already stored under the same normalized key.
    pub fn insert(&mut self, path: &Vec<u8>, bytes: Vec<u8>)
        requires
            old(self).wf(),
        ensures
            final(self).wf(),
            (final(self).keys(), final(self).vals()) == insert_step(
                old(self).keys(),
                old(self).vals(),
                path@,
                bytes@,
            ),
            final(self).contains_key(normalize(path@)),
            final(self).at_key(normalize(path@)) == bytes@,
    {
        let k = normalize_path(path);
        match self.find_exact(&k) {
            Some(i) => {
                self.blobs[i] = bytes;
                proof {
                    lemma_view_update(old(self).blobs@, i as int, final(self).blobs@[i as int]);
                    lemma_key_at_index(old(self).keys(), i as int);
                    lemma_key_at_index(final(self).keys(), i as int);
                }
            },
            None => {
                self.paths.push(k);
                self.blobs.push(bytes);
                proof {
                    lemma_view_push(old(self).paths@, final(self).paths@.last());
                    lemma_view_push(old(self).blobs@, final(self).blobs@.last());
                    lemma_normalize_normalized(path@);
                    let n = old(self).keys().len() as int;
                    assert forall|a: int, b: int|
                        0 <= a < b < final(self).keys().len() implies final(self).keys()[a]
                        != final(self).keys()[b] by {
                        if b < n {
                            assert(old(self).keys()[a] != old(self).keys()[b]);
                        } else {
                            assert(final(self).keys()[b] == normalize(path@));
                            assert(old(self).keys()[a] != normalize(path@));
                        }
                    }
                    assert(final(self).wf());
                    lemma_key_at_index(final(self).keys(), n);
                }
            },
        }
    }

    /// Dissolves the store into its `(path, bytes)` entries, in insertion
    /// order.
    pub fn into_entries(self) -> (r: Vec<(Vec<u8>, Vec<u8>)>)
        requires
            self.wf(),
        ensures
            r@.len() == self.size(),
            forall|i: int|
                0 <= i < r@.len() ==> (#[trigger] r@[i]).0@ == self.keys()[i] && r@[i].1@
                    == self.vals()[i],
    {
        let RawAssets { mut paths, mut blobs } = self;
        let mut r: Vec<(Vec<u8>, Vec<u8>)> = Vec::new();
        while paths.len() > 0
            invariant
                paths@.len() == blobs@.len(),
                r@.len() + paths@.len() == self.keys().len(),
                forall|j: int|
                    0 <= j < r@.len() ==> (#[trigger] r@[j]).0@ == self.keys()[j] && r@[j].1@
                        == self.vals()[j],
                forall|j: int|
                    0 <= j < paths@.len() ==> (#[trigger] paths@[j])@ == self.keys()[r@.len() + j]
                        && blobs@[j]@ == self.vals()[r@.len() + j],
            decreases paths@.len(),
        {
            let ghost pre_paths = paths@;
            let ghost pre_blobs = blobs@;
            let k = paths.remove(0);
            let b = blobs.remove(0);
            r.push((k, b));
            proof {
                pre_paths.remove_ensures(0);
                pre_blobs.remove_ensures(0);
            }
        }
        r
    }

    /// Merges a sequence of `(path, bytes)` entries into the store, first to
    /// last, with the same normalization and overwrite rule as `insert`.
    pub fn extend(&mut self, entries: Vec<(Vec<u8>, Vec<u8>)>)
        requires
            old(self).wf(),
        ensures
            final(self).wf(),
            (final(self).keys(), final(self).vals()) == insert_all(
                old(self).keys(),
                old(self).vals(),
                entry_views(entries@),
            ),
    {
        let mut i: usize = 0;
        while i < entries.len()
            invariant
                i <= entries@.len(),
                self.wf(),
                (self.keys(), self.vals()) == insert_all(
                    old(self).keys(),
                    old(self).vals(),
                    entry_views(entries@).take(i as int),
                ),
            decreases entries@.len() - i,
        {
            let e = &entries[i];
            let b = copy_bytes(&e.1);
            let ghost pre_keys = self.keys();
            let ghost pre_vals = self.vals();
            self.insert(&e.0, b);
            proof {
                lemma_insert_all_snoc(
                    old(self).keys(),
                    old(self).vals(),
                    entry_views(entries@).take(i as int),
                    entry_views(entries@)[i as int],
                );
                assert(entry_views(entries@)[i as int] == (entries@[i as int].0@, entries@[i as int].1@));
                assert(entry_views(entries@).take(i + 1 as int) =~= entry_views(entries@).take(
                    i as int,
                ).push(entry_views(entries@)[i as int]));
            }
            i = i + 1;
        }
        proof {
            assert(entry_views(entries@).take(entries@.len() as int) =~= entry_views(entries@));
        }
    }
}

/// A needle that is a prefix of the haystack occurs inside it.
proof fn lemma_prefix_contains(hay: Seq<u8>, needle: Seq<u8>)
    requires
        needle.len() <= hay.len(),
        hay.take(needle.len() as int) == needle,
    ensures
        contains_sub(hay, needle),
{
    assert(hay.subrange(0, 0 + needle.len() as int) == needle);
    assert(exists|i: int|
        0 <= i && i + needle.len() <= hay.len() && #[trigger] hay.subrange(i, i + needle.len())
            == needle);
}

/// Some key contains the query, so a first such key exists.
proof fn lemma_first_match_from(keys: Seq<Seq<u8>>, q: Seq<u8>, i0: int)
    requires
        0 <= i0 < keys.len(),
        contains_sub(keys[i0], q),
    ensures
        exists|i: int| first_match_at(keys, q, i),
    decreases i0,
{
    if forall|j: int| 0 <= j < i0 ==> !contains_sub(#[trigger] keys[j], q) {
        assert(first_match_at(keys, q, i0));
    } else {
        let j = choose|j: int| 0 <= j < i0 && contains_sub(#[trigger] keys[j], q);
        lemma_first_match_from(keys, q, j);
    }
}

/// Whenever any key matches the query, a unique first match exists.
pub proof fn lemma_first_match_exists(keys: Seq<Seq<u8>>, q: Seq<u8>)
    requires
        any_match(keys, q),
    ensures
        exists|i: int| first_match_at(keys, q, i),
{
    let i0 = choose|i: int| 0 <= i < keys.len() && contains_sub(#[trigger] keys[i], q);
    lemma_first_match_from(keys, q, i0);
}

/// Exact-key lookup: a query path that is itself a stored key resolves to
/// that key and to nothing else.
pub proof fn lemma_exact_lookup(keys: Seq<Seq<u8>>, p: Seq<u8>)
    requires
        has_key(keys, p),
    ensures
        resolvable_in(keys, p),
        resolves_to_in(keys, p, p),
        forall|k: Seq<u8>| resolves_to_in(keys, p, k) ==> k == p,
{
}

/// Resolution is deterministic: a query path resolves to at most one key.
pub proof fn lemma_resolution_deterministic(
    keys: Seq<Seq<u8>>,
    p: Seq<u8>,
    k1: Seq<u8>,
    k2: Seq<u8>,
)
    requires
        resolves_to_in(keys, p, k1),
        resolves_to_in(keys, p, k2),
    ensures
        k1 == k2,
{
    if !has_key(keys, p) {
        let q = query_of(p);
        let i1 = choose|i: int| first_match_at(keys, q, i) && keys[i] == k1;
        let i2 = choose|i: int| first_match_at(keys, q, i) && keys[i] == k2;
        if i1 < i2 {
            assert(!contains_sub(keys[i1], q));
        } else {
            if i2 < i1 {
                assert(!contains_sub(keys[i2], q));
            }
        }
    }
}

/// A query that resolves to some key resolves at all.
pub proof fn lemma_resolves_to_resolvable(keys: Seq<Seq<u8>>, p: Seq<u8>, k: Seq<u8>)
    requires
        resolves_to_in(keys, p, k),
    ensures
        resolvable_in(keys, p),
{
    if !has_key(keys, p) {
        let q = query_of(p);
        let i = choose|i: int| first_match_at(keys, q, i) && keys[i] == k;
        assert(contains_sub(keys[i], q));
    }
}

/// Insertion stores the bytes under the normalized path, keeps the store
/// well formed, and leaves every other entry with the key and buffer it had.
pub proof fn lemma_insert_stores(keys: Seq<Seq<u8>>, vals: Seq<Seq<u8>>, p: Seq<u8>, b: Seq<u8>)
    requires
        wf_seqs(keys, vals),
    ensures
        ({
            let stepped = insert_step(keys, vals, p, b);
            &&& wf_seqs(stepped.0, stepped.1)
            &&& has_key(stepped.0, normalize(p))
            &&& val_of(stepped.0, stepped.1, normalize(p)) == b
            &&& forall|k: Seq<u8>|
                k != normalize(p) ==> (has_key(stepped.0, k) <==> has_key(keys, k))
            &&& forall|k: Seq<u8>|
                k != normalize(p) && has_key(keys, k) ==> val_of(stepped.0, stepped.1, k)
                    == val_of(keys, vals, k)
        }),
{
    let kk = normalize(p);
    lemma_normalize_normalized(p);
    let stepped = insert_step(keys, vals, p, b);
    if has_key(keys, kk) {
        let i = index_of_key(keys, kk);
        assert(keys[i] == kk);
        assert(stepped.0 == keys && stepped.1 == vals.update(i, b));
        assert(val_of(stepped.0, stepped.1, kk) == b);
        assert forall|k: Seq<u8>| k != kk && has_key(keys, k) implies val_of(
            stepped.0,
            stepped.1,
            k,
        ) == val_of(keys, vals, k) by {
            let j = index_of_key(keys, k);
            assert(keys[j] == k);
            assert(j != i);
            assert(vals.update(i, b)[j] == vals[j]);
        }
    } else {
        let n = keys.len() as int;
        assert(stepped.0 == keys.push(kk) && stepped.1 == vals.push(b));
        assert forall|a: int, c: int| 0 <= a < c < stepped.0.len() implies stepped.0[a]
            != stepped.0[c] by {
            if c < n {
                assert(keys[a] != keys[c]);
            } else {
                assert(stepped.0[c] == kk);
                assert(stepped.0[a] == keys[a]);
            }
        }
        assert forall|a: int| 0 <= a < stepped.0.len() implies is_normalized(
            #[trigger] stepped.0[a],
        ) by {
            if a < n {
                assert(stepped.0[a] == keys[a]);
            } else {
                assert(stepped.0[a] == kk);
            }
        }
        assert(wf_seqs(stepped.0, stepped.1));
        lemma_key_at_index(stepped.0, n);
        assert(val_of(stepped.0, stepped.1, kk) == vals.push(b)[n]);
        assert forall|k: Seq<u8>| k != kk implies (has_key(stepped.0, k) <==> has_key(
            keys,
            k,
        )) by {
            if has_key(stepped.0, k) {
                let a = index_of_key(stepped.0, k);
                assert(stepped.0[a] == k);
                assert(a != n);
                assert(stepped.0[a] == keys[a]);
            }
            if has_key(keys, k) {
                let a = index_of_key(keys, k);
                assert(keys[a] == k);
                assert(stepped.0[a] == k);
            }
        }
        assert forall|k: Seq<u8>| k != kk && has_key(keys, k) implies val_of(
            stepped.0,
            stepped.1,
            k,
        ) == val_of(keys, vals, k) by {
            let a = index_of_key(keys, k);
            assert(keys[a] == k);
            lemma_key_at_index(keys, a);
            assert(stepped.0[a] == k);
            lemma_key_at_index(stepped.0, a);
            assert(stepped.1[a] == vals[a]);
        }
    }
}

/// Exact round trip: after storing bytes under a normalized path, the path
/// resolves to itself and holds those bytes; removing the resolved entry
/// hands the same bytes back; and once no remaining key contains the
/// stripped query, the path no longer resolves at all.
pub proof fn lemma_store_then_consume(keys: Seq<Seq<u8>>, vals: Seq<Seq<u8>>, p: Seq<u8>, b: Seq<u8>)
    requires
        wf_seqs(keys, vals),
        is_normalized(p),
    ensures
        ({
            let s = insert_step(keys, vals, p, b);
            let i = index_of_key(s.0, p);
            &&& resolvable_in(s.0, p)
            &&& resolves_to_in(s.0, p, p)
            &&& val_of(s.0, s.1, p) == b
            &&& 0 <= i < s.0.len() && s.0[i] == p && s.1[i] == b
            &&& !has_key(s.0.remove(i), p)
            &&& wf_seqs(s.0.remove(i), s.1.remove(i))
            &&& !any_match(s.0.remove(i), query_of(p)) ==> !resolvable_in(s.0.remove(i), p)
        }),
{
    lemma_normalize_normalized(p);
    lemma_insert_stores(keys, vals, p, b);
    let s = insert_step(keys, vals, p, b);
    lemma_exact_lookup(s.0, p);
    let i = index_of_key(s.0, p);
    assert(s.0[i] == p);
    lemma_key_at_index(s.0, i);
    lemma_wf_remove(s.0, s.1, i);
}

/// Overwrite: storing a path twice keeps only the second buffer.
pub proof fn lemma_overwrite(
    keys: Seq<Seq<u8>>,
    vals: Seq<Seq<u8>>,
    p: Seq<u8>,
    b1: Seq<u8>,
    b2: Seq<u8>,
)
    requires
        wf_seqs(keys, vals),
    ensures
        ({
            let s1 = insert_step(keys, vals, p, b1);
            let s2 = insert_step(s1.0, s1.1, p, b2);
            &&& wf_seqs(s2.0, s2.1)
            &&& has_key(s2.0, normalize(p))
            &&& resolves_to_in(s2.0, normalize(p), normalize(p))
            &&& val_of(s2.0, s2.1, normalize(p)) == b2
        }),
{
    lemma_insert_stores(keys, vals, p, b1);
    let s1 = insert_step(keys, vals, p, b1);
    lemma_insert_stores(s1.0, s1.1, p, b2);
    let s2 = insert_step(s1.0, s1.1, p, b2);
    lemma_exact_lookup(s2.0, normalize(p));
}

/// Slash normalization: a path stored under any spelling is found again
/// under the normalized spelling, which resolves exactly to the stored key.
pub proof fn lemma_normalized_lookup(
    keys: Seq<Seq<u8>>,
    vals: Seq<Seq<u8>>,
    p: Seq<u8>,
    b: Seq<u8>,
)
    requires
        wf_seqs(keys, vals),
    ensures
        ({
            let s = insert_step(keys, vals, p, b);
            &&& resolvable_in(s.0, normalize(p))
            &&& resolves_to_in(s.0, normalize(p), normalize(p))
            &&& val_of(s.0, s.1, normalize(p)) == b
        }),
{
    lemma_insert_stores(keys, vals, p, b);
    let s = insert_step(keys, vals, p, b);
    lemma_exact_lookup(s.0, normalize(p));
}

/// Substring fallback: when some stored key contains the normalized,
/// alias-stripped form of the query, the query resolves, to a stored key;
/// and with no exact hit, every key it can resolve to contains that form.
pub proof fn lemma_substring_fallback(keys: Seq<Seq<u8>>, p: Seq<u8>)
    requires
        any_match(keys, query_of(p)),
    ensures
        resolvable_in(keys, p),
        exists|k: Seq<u8>| resolves_to_in(keys, p, k) && has_key(keys, k),
        !has_key(keys, p) ==> (forall|k: Seq<u8>|
            resolves_to_in(keys, p, k) ==> contains_sub(k, query_of(p))),
{
    let q = query_of(p);
    if has_key(keys, p) {
        assert(resolves_to_in(keys, p, p) && has_key(keys, p));
    } else {
        lemma_first_match_exists(keys, q);
        let i = choose|i: int| first_match_at(keys, q, i);
        assert(resolves_to_in(keys, p, keys[i]));
        assert(has_key(keys, keys[i]));
        assert forall|k: Seq<u8>| resolves_to_in(keys, p, k) implies contains_sub(k, q) by {
            let j = choose|j: int| first_match_at(keys, q, j) && keys[j] == k;
            assert(contains_sub(keys[j], q));
        }
    }
}
/// Image alias, one direction: a key stored as `stem.jpg` answers a query
/// for `stem.jpeg`, because the stripped query is a prefix of the key.
pub proof fn lemma_jpg_key_answers_jpeg_query(keys: Seq<Seq<u8>>, stem: Seq<u8>)
    requires
        is_normalized(stem),
        has_key(keys, stem + jpg_suffix()),
    ensures
        resolvable_in(keys, stem + jpeg_suffix()),
        exists|k: Seq<u8>| resolves_to_in(keys, stem + jpeg_suffix(), k) && has_key(keys, k),
{
    let qp = stem + jpeg_suffix();
    let key = stem + jpg_suffix();
    assert forall|i: int| 0 <= i < qp.len() implies qp[i] != BACKSLASH by {
        if i < stem.len() {
            assert(qp[i] == stem[i]);
        } else {
            assert(qp[i] == jpeg_suffix()[i - stem.len()]);
        }
    }
    lemma_normalize_normalized(qp);
    assert(qp.subrange(qp.len() - 5, qp.len() as int) =~= jpeg_suffix());
    assert(ends_with(qp, jpeg_suffix()));
    let q = qp.take(qp.len() - 2);
    assert(query_of(qp) == q);
    assert(key.take(q.len() as int) =~= q);
    lemma_prefix_contains(key, q);
    let ik = index_of_key(keys, key);
    assert(keys[ik] == key);
    assert(any_match(keys, q));
    lemma_substring_fallback(keys, qp);
}

/// Image alias, the other direction: a key stored as `stem.jpeg` answers a
/// query for `stem.jpg`, by the same containment rule.
pub proof fn lemma_jpeg_key_answers_jpg_query(keys: Seq<Seq<u8>>, stem: Seq<u8>)
    requires
        is_normalized(stem),
        has_key(keys, stem + jpeg_suffix()),
    ensures
        resolvable_in(keys, stem + jpg_suffix()),
        exists|k: Seq<u8>| resolves_to_in(keys, stem + jpg_suffix(), k) && has_key(keys, k),
{
    let qp = stem + jpg_suffix();
    let key = stem + jpeg_suffix();
    assert forall|i: int| 0 <= i < qp.len() implies qp[i] != BACKSLASH by {
        if i < stem.len() {
            assert(qp[i] == stem[i]);
        } else {
            assert(qp[i] == jpg_suffix()[i - stem.len()]);
        }
    }
    lemma_normalize_normalized(qp);
    assert(!ends_with(qp, jpeg_suffix())) by {
        if ends_with(qp, jpeg_suffix()) {
            let s = qp.subrange(qp.len() - 5, qp.len() as int);
            assert(s[3] == qp[qp.len() - 2]);
            assert(qp[qp.len() - 2] == jpg_suffix()[2]);
        }
    }
    assert(qp.subrange(qp.len() - 4, qp.len() as int) =~= jpg_suffix());
    assert(ends_with(qp, jpg_suffix()));
    let q = qp.take(qp.len() - 1);
    assert(query_of(qp) == q);
    assert(key.take(q.len() as int) =~= q);
    lemma_prefix_contains(key, q);
    let ik = index_of_key(keys, key);
    assert(keys[ik] == key);
    assert(any_match(keys, q));
    lemma_substring_fallback(keys, qp);
}

/// Nested consumption: two distinct stored keys, removed one after the other
/// as a decoder consumes a primary file and then a referenced sub-resource,
/// each hand back their own buffer and leave a store holding neither.
pub proof fn lemma_nested_consumption(
    keys: Seq<Seq<u8>>,
    vals: Seq<Seq<u8>>,
    k1: Seq<u8>,
    k2: Seq<u8>,
)
    requires
        wf_seqs(keys, vals),
        has_key(keys, k1),
        has_key(keys, k2),
        k1 != k2,
    ensures
        ({
            let i1 = index_of_key(keys, k1);
            let keys1 = keys.remove(i1);
            let vals1 = vals.remove(i1);
            let i2 = index_of_key(keys1, k2);
            &&& 0 <= i1 < keys.len() && keys[i1] == k1
            &&& val_of(keys, vals, k1) == vals[i1]
            &&& has_key(keys1, k2) && !has_key(keys1, k1)
            &&& val_of(keys1, vals1, k2) == val_of(keys, vals, k2)
            &&& wf_seqs(keys1.remove(i2), vals1.remove(i2))
            &&& !has_key(keys1.remove(i2), k1)
            &&& !has_key(keys1.remove(i2), k2)
        }),
{
    let i1 = index_of_key(keys, k1);
    assert(keys[i1] == k1);
    lemma_wf_remove(keys, vals, i1);
    let keys1 = keys.remove(i1);
    let vals1 = vals.remove(i1);
    let i2 = index_of_key(keys1, k2);
    assert(keys1[i2] == k2);
    lemma_wf_remove(keys1, vals1, i2);
}

/// Folding one more entry onto a bulk insertion inserts it after the rest.
pub proof fn lemma_insert_all_snoc(
    keys: Seq<Seq<u8>>,
    vals: Seq<Seq<u8>>,
    es: Seq<(Seq<u8>, Seq<u8>)>,
    e: (Seq<u8>, Seq<u8>),
)
    ensures
        insert_all(keys, vals, es.push(e)) == ({
            let mid = insert_all(keys, vals, es);
            insert_step(mid.0, mid.1, e.0, e.1)
        }),
    decreases es.len(),
{
    if es.len() == 0 {
        assert(es.push(e)[0] == e);
        assert(es.push(e).drop_first() =~= Seq::<(Seq<u8>, Seq<u8>)>::empty());
        let stepped = insert_step(keys, vals, e.0, e.1);
        assert(insert_all(keys, vals, es.push(e)) == insert_all(
            stepped.0,
            stepped.1,
            es.push(e).drop_first(),
        ));
        assert(insert_all(stepped.0, stepped.1, es.push(e).drop_first()) =~= stepped);
        assert(insert_all(keys, vals, es) == (keys, vals));
    } else {
        let stepped = insert_step(keys, vals, es[0].0, es[0].1);
        assert(es.push(e)[0] == es[0]);
        assert(es.push(e).drop_first() =~= es.drop_first().push(e));
        lemma_insert_all_snoc(stepped.0, stepped.1, es.drop_first(), e);
        assert(insert_all(keys, vals, es.push(e)) == insert_all(
            stepped.0,
            stepped.1,
            es.drop_first().push(e),
        ));
        assert(insert_all(keys, vals, es) == insert_all(stepped.0, stepped.1, es.drop_first()));
    }
}

} // verus!
