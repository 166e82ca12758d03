//! Byte-lexicographic ordering of station names, and sorted distinct
//! enumerations of them.

use vstd::prelude::*;
use vstd::slice::slice_subrange;

verus! {

/// `a` is lexicographically at or before `b`, comparing raw bytes.
pub open spec fn lex_leq(a: Seq<u8>, b: Seq<u8>) -> bool
    decreases a.len(),
{
    if a.len() == 0 {
        true
    } else if b.len() == 0 {
        false
    } else if a[0] < b[0] {
        true
    } else if a[0] > b[0] {
        false
    } else {
        lex_leq(a.drop_first(), b.drop_first())
    }
}

/// Strictly before.
pub open spec fn lex_lt(a: Seq<u8>, b: Seq<u8>) -> bool {
    lex_leq(a, b) && a != b
}

/// Every byte string is at or before itself.
pub proof fn lemma_lex_refl(a: Seq<u8>)
    ensures
        lex_leq(a, a),
    decreases a.len(),
{
    if a.len() > 0 {
        lemma_lex_refl(a.drop_first());
    }
}

/// Any two byte strings are ordered.
pub proof fn lemma_lex_total(a: Seq<u8>, b: Seq<u8>)
    ensures
        lex_leq(a, b) || lex_leq(b, a),
    decreases a.len(),
{
    if a.len() > 0 && b.len() > 0 && a[0] == b[0] {
        lemma_lex_total(a.drop_first(), b.drop_first());
    }
}

/// Two byte strings each at or before the other are equal.
pub proof fn lemma_lex_antisym(a: Seq<u8>, b: Seq<u8>)
    ensures
        lex_leq(a, b) && lex_leq(b, a) ==> a == b,
    decreases a.len(),
{
    if a.len() > 0 && b.len() > 0 && a[0] == b[0] {
        lemma_lex_antisym(a.drop_first(), b.drop_first());
        if lex_leq(a, b) && lex_leq(b, a) {
            assert forall|i: int| 0 <= i < a.len() implies a[i] == b[i] by {
                if i > 0 {
                    assert(a.drop_first()[i - 1] == a[i]);
                    assert(b.drop_first()[i - 1] == b[i]);
                }
            }
            assert(a =~= b);
        }
    }
}

/// The order is transitive.
pub proof fn lemma_lex_trans(a: Seq<u8>, b: Seq<u8>, c: Seq<u8>)
    ensures
        lex_leq(a, b) && lex_leq(b, c) ==> lex_leq(a, c),
    decreases a.len(),
{
    if a.len() > 0 && b.len() > 0 && c.len() > 0 && a[0] == b[0] && b[0] == c[0] {
        lemma_lex_trans(a.drop_first(), b.drop_first(), c.drop_first());
    }
}

/// Decide `lex_leq` on byte slices.
pub fn lex_leq_bytes(a: &[u8], b: &[u8]) -> (r: bool)
    ensures
        r == lex_leq(a@, b@),
    decreases a@.len(),
{
    if a.len() == 0 {
        true
    } else if b.len() == 0 {
        false
    } else if a[0] < b[0] {
        true
    } else if a[0] > b[0] {
        false
    } else {
        let r = lex_leq_bytes(
            slice_subrange(a, 1, a.len()),
            slice_subrange(b, 1, b.len()),
        );
        proof {
            assert(a@.subrange(1, a@.len() as int) =~= a@.drop_first());
            assert(b@.subrange(1, b@.len() as int) =~= b@.drop_first());
        }
        r
    }
}

/// The name sequences held by a vector of owned byte strings.
pub open spec fn nview(names: Seq<Vec<u8>>) -> Seq<Seq<u8>> {
    names.map_values(|v: Vec<u8>| v@)
}

/// Strictly increasing in the byte-lexicographic order (so also duplicate
/// free).
pub open spec fn strict_sorted(s: Seq<Seq<u8>>) -> bool {
    forall|i: int, j: int| 0 <= i < j < s.len() ==> lex_lt(#[trigger] s[i], #[trigger] s[j])
}

/// Two strictly sorted sequences holding the same names are equal.
pub proof fn lemma_strict_sorted_unique(x: Seq<Seq<u8>>, y: Seq<Seq<u8>>)
    requires
        strict_sorted(x),
        strict_sorted(y),
        forall|k: Seq<u8>| x.contains(k) <==> y.contains(k),
    ensures
        x == y,
    decreases x.len(),
{
    if x.len() == 0 {
        if y.len() > 0 {
            assert(y.contains(y[0]));
            assert(false);
        }
        assert(x =~= y);
    } else {
        assert(x.contains(x[0]));
        let jy = choose|j: int| 0 <= j < y.len() && y[j] == x[0];
        assert(y.contains(y[0]));
        let jx = choose|j: int| 0 <= j < x.len() && x[j] == y[0];
        if jy > 0 {
            assert(lex_lt(y[0], y[jy]));
        }
        if jx > 0 {
            assert(lex_lt(x[0], x[jx]));
            lemma_lex_trans(x[0], y[0], x[0]);
            lemma_lex_antisym(x[0], y[0]);
            assert(false);
        }
        assert(x[0] == y[0]);
        let xt = x.drop_first();
        let yt = y.drop_first();
        assert forall|k: Seq<u8>| xt.contains(k) implies yt.contains(k) by {
            let i = choose|i: int| 0 <= i < xt.len() && xt[i] == k;
            assert(x[i + 1] == k);
            assert(lex_lt(x[0], k));
            assert(x.contains(k));
            let j = choose|j: int| 0 <= j < y.len() && y[j] == k;
            assert(j != 0);
            assert(yt[j - 1] == k);
        }
        assert forall|k: Seq<u8>| yt.contains(k) implies xt.contains(k) by {
            let i = choose|i: int| 0 <= i < yt.len() && yt[i] == k;
            assert(y[i + 1] == k);
            assert(lex_lt(y[0], k));
            assert(y.contains(k));
            let j = choose|j: int| 0 <= j < x.len() && x[j] == k;
            assert(j != 0);
            assert(xt[j - 1] == k);
        }
        lemma_strict_sorted_unique(xt, yt);
        assert forall|i: int| 0 <= i < x.len() implies x[i] == y[i] by {
            if i > 0 {
                assert(xt[i - 1] == x[i]);
                assert(yt[i - 1] == y[i]);
            }
        }
        assert(x.len() == y.len());
        assert(x =~= y);
    }
}

/// Membership after a sequence insertion.
pub proof fn lemma_insert_contains(s: Seq<Seq<u8>>, i: int, x: Seq<u8>, y: Seq<u8>)
    requires
        0 <= i <= s.len(),
    ensures
        s.insert(i, x).contains(y) <==> (s.contains(y) || y == x),
{
    s.insert_ensures(i, x);
    let t = s.insert(i, x);
    if s.contains(y) {
        let w = choose|w: int| 0 <= w < s.len() && s[w] == y;
        if w < i {
            assert(t[w] == y);
        } else {
            assert(t[w + 1] == y);
        }
        assert(t.contains(y));
    }
    assert(t[i] == x);
    assert(t.contains(x));
    if t.contains(y) && y != x {
        let w = choose|w: int| 0 <= w < t.len() && t[w] == y;
        if w < i {
            assert(s[w] == y);
            assert(s.contains(y));
        } else {
            assert(w != i);
            assert(t[(w - 1) + 1] == s[w - 1]);
            assert(s.contains(y));
        }
    }
}

/// First position whose name is at or after `key`, in a strictly sorted
/// vector of names.
fn lower_bound(names: &Vec<Vec<u8>>, key: &[u8]) -> (i: usize)
    ensures
        i <= names@.len(),
        forall|m: int| 0 <= m < i ==> !lex_leq(key@, #[trigger] nview(names@)[m]),
        i < names@.len() ==> lex_leq(key@, nview(names@)[i as int]),
{
    let n = names.len();
    let mut i: usize = 0;
    while i < n
        invariant
            n == names@.len(),
            i <= n,
            forall|m: int| 0 <= m < i ==> !lex_leq(key@, #[trigger] nview(names@)[m]),
        decreases n - i,
    {
        if lex_leq_bytes(key, names[i].as_slice()) {
            proof {
                assert(nview(names@)[i as int] == names@[i as int]@);
            }
            return i;
        }
        proof {
            assert(nview(names@)[i as int] == names@[i as int]@);
        }
        i += 1;
    }
    i
}

/// Insert `key` into a strictly sorted vector of names, keeping it strictly
/// sorted; a key already present is left alone.
pub fn insert_sorted(names: &mut Vec<Vec<u8>>, key: &[u8])
    requires
        strict_sorted(nview(old(names)@)),
    ensures
        strict_sorted(nview(final(names)@)),
        forall|k: Seq<u8>|
            nview(final(names)@).contains(k) <==> (nview(old(names)@).contains(k) || k == key@),
{
    let ghost ov = nview(names@);
    let n = names.len();
    let i = lower_bound(names, key);
    if i < n {
        if crate::table::bytes_eq(names[i].as_slice(), key) {
            proof {
                assert(ov[i as int] == key@);
                assert(ov.contains(key@)) by {
                    assert(0 <= i < ov.len() && ov[i as int] == key@);
                }
            }
            return;
        }
    }
    let kv = crate::table::slice_to_vec_u8(key);
    names.insert(i, kv);
    proof {
        let nv = nview(names@);
        assert(nv =~= ov.insert(i as int, key@));
        ov.insert_ensures(i as int, key@);
        assert forall|k: Seq<u8>| nv.contains(k) <==> (ov.contains(k) || k == key@) by {
            lemma_insert_contains(ov, i as int, key@, k);
        }
        assert forall|p: int, q: int| 0 <= p < q < nv.len() implies lex_lt(
            #[trigger] nv[p],
            #[trigger] nv[q],
        ) by {
            let ii = i as int;
            // every earlier name is strictly below key, every later one
            // strictly above
            if q == ii {
                assert(nv[p] == ov[p] && nv[q] == key@);
                lemma_lex_total(key@, ov[p]);
                if ov[p] == key@ {
                    lemma_lex_refl(key@);
                    assert(false);
                }
            } else if p == ii {
                assert(nv[q] == ov[q - 1]);
                assert(ii < q < nv.len() && nv.len() == n + 1);
                assert(lex_leq(key@, ov[ii]) && key@ != ov[ii]);
                if q - 1 > ii {
                    assert(lex_lt(ov[ii], ov[q - 1]));
                    lemma_lex_trans(key@, ov[ii], ov[q - 1]);
                    if key@ == ov[q - 1] {
                        lemma_lex_antisym(key@, ov[ii]);
                        assert(false);
                    }
                }
            } else if p < ii && q > ii {
                assert(nv[p] == ov[p] && nv[q] == ov[q - 1]);
                assert(p < q - 1);
                assert(lex_lt(ov[p], ov[q - 1]));
            } else if q < ii {
                assert(nv[p] == ov[p] && nv[q] == ov[q]);
            } else {
                assert(nv[p] == ov[p - 1] && nv[q] == ov[q - 1]);
                assert(lex_lt(ov[p - 1], ov[q - 1]));
            }
        }
    }
}

} // verus!
