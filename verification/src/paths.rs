//! Byte-level rules for logical paths: slash normalization, the jpg/jpeg
//! query alias, substring containment, and file-extension extraction.

use vstd::prelude::*;

verus! {

/// `/`
pub const SLASH: u8 = 47;

/// `\`
pub const BACKSLASH: u8 = 92;

/// `.`
pub const DOT: u8 = 46;

/// How one byte of a path is normalized: backslashes become forward slashes.
pub open spec fn norm_byte(b: u8) -> u8 {
    if b == BACKSLASH {
        SLASH
    } else {
        b
    }
}

/// The normalized form of a path: every backslash rewritten to a forward slash.
pub open spec fn normalize(p: Seq<u8>) -> Seq<u8> {
    p.map_values(|b: u8| norm_byte(b))
}

/// A path is normalized when it holds no backslash.
pub open spec fn is_normalized(p: Seq<u8>) -> bool {
    forall|i: int| 0 <= i < p.len() ==> p[i] != BACKSLASH
}

/// Whether `p` ends with the suffix `suf`.
pub open spec fn ends_with(p: Seq<u8>, suf: Seq<u8>) -> bool {
    p.len() >= suf.len() && p.subrange(p.len() - suf.len(), p.len() as int) == suf
}

/// The bytes of `.jpeg`.
pub open spec fn jpeg_suffix() -> Seq<u8> {
    seq![DOT, 106u8, 112u8, 101u8, 103u8]
}

/// The bytes of `.jpg`.
pub open spec fn jpg_suffix() -> Seq<u8> {
    seq![DOT, 106u8, 112u8, 103u8]
}

/// The image-alias rule applied to a query before the substring scan: a query
/// ending in `.jpeg` loses its last two bytes, one ending in `.jpg` loses its
/// last byte, so that either spelling of the extension matches a key stored
/// under the other.
pub open spec fn strip_alias(p: Seq<u8>) -> Seq<u8> {
    if ends_with(p, jpeg_suffix()) {
        p.take(p.len() - 2)
    } else {
        if ends_with(p, jpg_suffix()) {
            p.take(p.len() - 1)
        } else {
            p
        }
    }
}

/// The form of a query path that the substring scan uses: normalized, then
/// with the image alias applied.
pub open spec fn query_of(p: Seq<u8>) -> Seq<u8> {
    strip_alias(normalize(p))
}

/// Whether `needle` occurs somewhere inside `hay`.
pub open spec fn contains_sub(hay: Seq<u8>, needle: Seq<u8>) -> bool {
    exists|i: int|
        0 <= i && i + needle.len() <= hay.len() && #[trigger] hay.subrange(i, i + needle.len())
            == needle
}

/// Whether the byte at position `d` is the dot that starts the extension of
/// `p`: a dot in the final path component, with no later dot, that is not the
/// first byte of that component.
pub open spec fn is_ext_start(p: Seq<u8>, d: int) -> bool {
    &&& 0 < d < p.len()
    &&& p[d] == DOT
    &&& p[d - 1] != SLASH
    &&& forall|j: int| d < j < p.len() ==> p[j] != DOT && p[j] != SLASH
}

/// Whether `p` has a file extension.
pub open spec fn has_ext(p: Seq<u8>) -> bool {
    exists|d: int| is_ext_start(p, d)
}

/// The file extension of `p`: the bytes after the last dot of the final path
/// component, or empty when there is none.
pub open spec fn ext_of(p: Seq<u8>) -> Seq<u8> {
    if has_ext(p) {
        let d = choose|d: int| is_ext_start(p, d);
        p.subrange(d + 1, p.len() as int)
    } else {
        Seq::empty()
    }
}

/// At most one position starts the extension.
pub proof fn lemma_ext_start_unique(p: Seq<u8>, d1: int, d2: int)
    requires
        is_ext_start(p, d1),
        is_ext_start(p, d2),
    ensures
        d1 == d2,
{
    if d1 < d2 {
        assert(p[d2] == DOT);
    } else {
        if d2 < d1 {
            assert(p[d1] == DOT);
        }
    }
}

/// Normalizing cannot introduce a backslash, and leaves a normalized path as
/// it stands.
pub proof fn lemma_normalize_normalized(p: Seq<u8>)
    ensures
        is_normalized(normalize(p)),
        is_normalized(p) ==> normalize(p) == p,
{
    assert forall|i: int| 0 <= i < normalize(p).len() implies normalize(p)[i] != BACKSLASH by {
        assert(normalize(p)[i] == norm_byte(p[i]));
    }
    if is_normalized(p) {
        assert(normalize(p) =~= p);
    }
}

/// Normalization works bytewise, so it distributes over concatenation.
pub proof fn lemma_normalize_add(a: Seq<u8>, b: Seq<u8>)
    ensures
        normalize(a + b) == normalize(a) + normalize(b),
{
    assert(normalize(a + b) =~= normalize(a) + normalize(b)) by {
        assert forall|i: int| 0 <= i < (a + b).len() implies normalize(a + b)[i] == (normalize(a)
            + normalize(b))[i] by {
            assert(normalize(a + b)[i] == norm_byte((a + b)[i]));
            if i < a.len() {
                assert((a + b)[i] == a[i]);
                assert((normalize(a) + normalize(b))[i] == norm_byte(a[i]));
            } else {
                assert((a + b)[i] == b[i - a.len()]);
                assert((normalize(a) + normalize(b))[i] == norm_byte(b[i - a.len()]));
            }
        }
    }
}

/// A copy of the first `m` bytes of `p`.
pub fn prefix_bytes(p: &Vec<u8>, m: usize) -> (r: Vec<u8>)
    requires
        m <= p@.len(),
    ensures
        r@ == p@.take(m as int),
{
    let mut r: Vec<u8> = Vec::new();
    let mut i: usize = 0;
    while i < m
        invariant
            i <= m,
            m <= p@.len(),
            r@ == p@.take(i as int),
        decreases m - i,
    {
        r.push(p[i]);
        proof {
            assert(p@.take(i + 1 as int) =~= p@.take(i as int).push(p@[i as int]));
        }
        i = i + 1;
    }
    r
}

/// A copy of all of `p`.
pub fn copy_bytes(p: &Vec<u8>) -> (r: Vec<u8>)
    ensures
        r@ == p@,
{
    let r = prefix_bytes(p, p.len());
    proof {
        assert(p@.take(p@.len() as int) =~= p@);
    }
    r
}

/// The normalized form of `p`, with every backslash rewritten to a slash.
pub fn normalize_path(p: &Vec<u8>) -> (r: Vec<u8>)
    ensures
        r@ == normalize(p@),
{
    let mut r: Vec<u8> = Vec::new();
    let mut i: usize = 0;
    while i < p.len()
        invariant
            i <= p@.len(),
            r@ == normalize(p@.take(i as int)),
        decreases p@.len() - i,
    {
        let b = p[i];
        if b == BACKSLASH {
            r.push(SLASH);
        } else {
            r.push(b);
        }
        proof {
            assert(normalize(p@.take(i + 1 as int)) =~= normalize(p@.take(i as int)).push(
                norm_byte(p@[i as int]),
            ));
        }
        i = i + 1;
    }
    proof {
        assert(p@.take(p@.len() as int) =~= p@);
    }
    r
}

/// Whether `p` matches `needle` exactly at offset `i`.
pub fn match_at(hay: &Vec<u8>, needle: &Vec<u8>, i: usize) -> (r: bool)
    requires
        i + needle@.len() <= hay@.len(),
    ensures
        r == (hay@.subrange(i as int, i as int + needle@.len() as int) == needle@),
{
    let hlen = hay.len();
    let mut j: usize = 0;
    while j < needle.len()
        invariant
            i + needle@.len() <= hay@.len(),
            hay@.len() == hlen,
            j <= needle@.len(),
            forall|t: int| 0 <= t < j ==> hay@[i + t] == needle@[t],
        decreases needle@.len() - j,
    {
        if hay[i + j] != needle[j] {
            proof {
                assert(hay@.subrange(i as int, i as int + needle@.len() as int)[j as int] == hay@[i
                    + j]);
            }
            return false;
        }
        j = j + 1;
    }
    proof {
        assert(hay@.subrange(i as int, i as int + needle@.len() as int) =~= needle@);
    }
    true
}

/// Whether `needle` occurs somewhere inside `hay`.
pub fn find_sub(hay: &Vec<u8>, needle: &Vec<u8>) -> (r: bool)
    ensures
        r == contains_sub(hay@, needle@),
{
    if needle.len() > hay.len() {
        return false;
    }
    let bound = hay.len() - needle.len();
    let mut i: usize = 0;
    while i < bound
        invariant
            needle@.len() <= hay@.len(),
            bound == hay@.len() - needle@.len(),
            i <= bound,
            forall|k: int|
                0 <= k < i ==> #[trigger] hay@.subrange(k, k + needle@.len() as int) != needle@,
        decreases bound - i,
    {
        if match_at(hay, needle, i) {
            return true;
        }
        i = i + 1;
    }
    if match_at(hay, needle, bound) {
        return true;
    }
    false
}

/// The file extension of `p`, or empty when `p` has none.
pub fn path_ext(p: &Vec<u8>) -> (r: Vec<u8>)
    ensures
        r@ == ext_of(p@),
{
    let n = p.len();
    let mut i: usize = n;
    while i > 0
        invariant
            i <= n,
            n == p@.len(),
            forall|j: int| i <= j < n ==> p@[j] != DOT && p@[j] != SLASH,
        decreases i,
    {
        let c = p[i - 1];
        if c == SLASH {
            proof {
                assert forall|d: int| !is_ext_start(p@, d) by {
                    if is_ext_start(p@, d) {
                        if d < i - 1 {
                            assert(p@[i - 1] != SLASH);
                        } else {
                            assert(p@[d] != DOT);
                        }
                    }
                }
            }
            return Vec::new();
        }
        if c == DOT {
            let d = i - 1;
            if d == 0 || p[d - 1] == SLASH {
                proof {
                    assert forall|d2: int| !is_ext_start(p@, d2) by {
                        if is_ext_start(p@, d2) {
                            if d2 < d {
                                assert(p@[d as int] != DOT);
                            } else {
                                if d2 > d {
                                    assert(p@[d2] != DOT);
                                }
                            }
                        }
                    }
                }
                return Vec::new();
            }
            proof {
                assert(is_ext_start(p@, d as int));
                let dc = choose|dc: int| is_ext_start(p@, dc);
                lemma_ext_start_unique(p@, dc, d as int);
            }
            let mut r: Vec<u8> = Vec::new();
            let mut k: usize = d + 1;
            while k < n
                invariant
                    d + 1 <= k <= n,
                    n == p@.len(),
                    r@ == p@.subrange(d + 1 as int, k as int),
                decreases n - k,
            {
                r.push(p[k]);
                proof {
                    assert(p@.subrange(d + 1 as int, k + 1 as int) =~= p@.subrange(
                        d + 1 as int,
                        k as int,
                    ).push(p@[k as int]));
                }
                k = k + 1;
            }
            return r;
        }
        i = i - 1;
    }
    proof {
        assert forall|d: int| !is_ext_start(p@, d) by {
            if is_ext_start(p@, d) {
                assert(p@[d] != DOT);
            }
        }
    }
    Vec::new()
}

/// The image-alias rule applied to a query path.
pub fn strip_alias_bytes(p: &Vec<u8>) -> (r: Vec<u8>)
    ensures
        r@ == strip_alias(p@),
{
    let n = p.len();
    if n >= 5 && p[n - 5] == DOT && p[n - 4] == 106 && p[n - 3] == 112 && p[n - 2] == 101 && p[n
        - 1] == 103 {
        proof {
            assert(p@.subrange(n - 5 as int, n as int) =~= jpeg_suffix());
        }
        return prefix_bytes(p, n - 2);
    }
    proof {
        if ends_with(p@, jpeg_suffix()) {
            let s = p@.subrange(n - 5 as int, n as int);
            assert(p@[n - 5] == s[0] && p@[n - 4] == s[1] && p@[n - 3] == s[2] && p@[n - 2] == s[3]
                && p@[n - 1] == s[4]);
        }
    }
    if n >= 4 && p[n - 4] == DOT && p[n - 3] == 106 && p[n - 2] == 112 && p[n - 1] == 103 {
        proof {
            assert(p@.subrange(n - 4 as int, n as int) =~= jpg_suffix());
        }
        return prefix_bytes(p, n - 1);
    }
    proof {
        if ends_with(p@, jpg_suffix()) {
            let s = p@.subrange(n - 4 as int, n as int);
            assert(p@[n - 4] == s[0] && p@[n - 3] == s[1] && p@[n - 2] == s[2] && p@[n - 1] == s[3]);
        }
        assert(p@.take(n as int) =~= p@);
    }
    prefix_bytes(p, n)
}

/// Whether two byte strings are equal.
pub fn bytes_eq(a: &Vec<u8>, b: &Vec<u8>) -> (r: bool)
    ensures
        r == (a@ == b@),
{
    if a.len() != b.len() {
        return false;
    }
    let mut i: usize = 0;
    while i < a.len()
        invariant
            a@.len() == b@.len(),
            i <= a@.len(),
            forall|t: int| 0 <= t < i ==> a@[t] == b@[t],
        decreases a@.len() - i,
    {
        if a[i] != b[i] {
            return false;
        }
        i = i + 1;
    }
    proof {
        assert(a@ =~= b@);
    }
    true
}

} // verus!
