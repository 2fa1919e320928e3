//! Properties that relate the sort's contracts to one another: a sorted
//! permutation is unique once keys pin elements down, so the sort agrees
//! with any trusted comparison sort and is idempotent, and a very short
//! input comes back unchanged.

use vstd::prelude::*;
use vstd::relations::sorted_by;
use vstd::seq_lib::group_to_multiset_ensures;

use crate::order::elem_le;
use crate::order::key_le;
use crate::order::lemma_key_le_antisymmetric;
use crate::order::lemma_key_le_exhausted;
use crate::order::lemma_key_le_reflexive;

verus! {

/// A key that is a strict prefix of another sorts before it: `"ab"` comes
/// before `"aba"`, and never the other way round.
pub proof fn lemma_strict_prefix_sorts_first(a: Seq<u8>, b: Seq<u8>)
    requires
        a.len() < b.len(),
        a == b.take(a.len() as int),
    ensures
        key_le(a, b),
        !key_le(b, a),
{
    assert(a.take(a.len() as int) =~= a);
    lemma_key_le_exhausted(a, b, a.len() as int);
}

/// Two sequences that are sorted by key and hold the same multiset of
/// elements are the same sequence, provided elements of equal key are equal.
/// This is what makes the sort's contract exact: any two results it allows
/// for one input coincide, and coincide with what a trusted comparison sort
/// returns.
pub proof fn lemma_sorted_permutation_unique<T>(x: Seq<T>, y: Seq<T>, k: spec_fn(T) -> Seq<u8>)
    requires
        sorted_by(x, elem_le(k)),
        sorted_by(y, elem_le(k)),
        x.to_multiset() == y.to_multiset(),
        forall|a: T, b: T|
            x.contains(a) && x.contains(b) && k(a) == k(b) ==> a == b,
    ensures
        x == y,
    decreases x.len(),
{
    broadcast use group_to_multiset_ensures;

    if x.len() == 0 {
        assert(x.len() == x.to_multiset().len());
        assert(y.len() == y.to_multiset().len());
        assert(x =~= y);
    } else {
        assert(y.len() == y.to_multiset().len());
        assert(x.len() == x.to_multiset().len());
        assert(y.contains(y[0]));
        assert(x.to_multiset().count(y[0]) > 0);
        assert(x.contains(y[0]));
        let i = choose|i: int| 0 <= i < x.len() && x[i] == y[0];
        assert(x.contains(x[0]));
        assert(y.to_multiset().count(x[0]) > 0);
        assert(y.contains(x[0]));
        let j = choose|j: int| 0 <= j < y.len() && y[j] == x[0];
        lemma_key_le_reflexive(k(x[0]));
        if i > 0 {
            assert(elem_le(k)(x[0], x[i]));
        }
        if j > 0 {
            assert(elem_le(k)(y[0], y[j]));
        }
        lemma_key_le_antisymmetric(k(x[0]), k(y[0]));
        assert(x[0] == y[0]);
        let xr = x.drop_first();
        let yr = y.drop_first();
        assert(xr =~= x.remove(0));
        assert(yr =~= y.remove(0));
        assert(xr.to_multiset() == x.to_multiset().remove(x[0]));
        assert(yr.to_multiset() == y.to_multiset().remove(y[0]));
        assert(sorted_by(xr, elem_le(k))) by {
            assert(forall|p: int, q: int|
                0 <= p < q < xr.len() ==> elem_le(k)(#[trigger] xr[p], #[trigger] xr[q]));
        }
        assert(sorted_by(yr, elem_le(k))) by {
            assert(forall|p: int, q: int|
                0 <= p < q < yr.len() ==> elem_le(k)(#[trigger] yr[p], #[trigger] yr[q]));
        }
        assert forall|a: T, b: T| xr.contains(a) && xr.contains(b) && k(a) == k(b) implies a
            == b by {
            let pa = choose|p: int| 0 <= p < xr.len() && xr[p] == a;
            let pb = choose|p: int| 0 <= p < xr.len() && xr[p] == b;
            assert(x[pa + 1] == a);
            assert(x[pb + 1] == b);
            assert(x.contains(a) && x.contains(b));
        }
        lemma_sorted_permutation_unique(xr, yr, k);
        assert(x =~= y) by {
            assert(x.len() == y.len());
            assert(forall|p: int|
                0 < p < x.len() ==> x[p] == xr[p - 1] && y[p] == yr[p - 1]);
        }
    }
}

/// Sorting agrees with a trusted comparison sort whenever all keys are
/// pairwise distinct: the sorted permutation of the input is then unique.
pub proof fn lemma_matches_comparison_sort<T>(x: Seq<T>, y: Seq<T>, k: spec_fn(T) -> Seq<u8>)
    requires
        sorted_by(x, elem_le(k)),
        sorted_by(y, elem_le(k)),
        x.to_multiset() == y.to_multiset(),
        forall|i: int, j: int| 0 <= i < j < x.len() ==> k(#[trigger] x[i]) != k(#[trigger] x[j]),
    ensures
        x == y,
{
    assert forall|a: T, b: T| x.contains(a) && x.contains(b) && k(a) == k(b) implies a == b by {
        let pa = choose|p: int| 0 <= p < x.len() && x[p] == a;
        let pb = choose|p: int| 0 <= p < x.len() && x[p] == b;
        if pa < pb {
            assert(k(x[pa]) != k(x[pb]));
        }
        if pb < pa {
            assert(k(x[pb]) != k(x[pa]));
        }
    }
    lemma_sorted_permutation_unique(x, y, k);
}

/// Idempotence: a result that the sort's contract allows for an already-
/// sorted input is that input itself, provided elements of equal key are
/// equal (as they are for keys that determine the element, or when
/// duplicates are identical values). Without that proviso the sort is
/// unstable: distinct elements of equal key may trade places.
pub proof fn lemma_sort_of_sorted_is_identity<T>(s: Seq<T>, r: Seq<T>, k: spec_fn(T) -> Seq<u8>)
    requires
        sorted_by(s, elem_le(k)),
        r.to_multiset() == s.to_multiset(),
        sorted_by(r, elem_le(k)),
        forall|a: T, b: T|
            s.contains(a) && s.contains(b) && k(a) == k(b) ==> a == b,
    ensures
        r == s,
{
    broadcast use group_to_multiset_ensures;

    assert forall|a: T, b: T| r.contains(a) && r.contains(b) && k(a) == k(b) implies a == b by {
        assert(s.to_multiset().count(a) > 0);
        assert(s.to_multiset().count(b) > 0);
        assert(s.contains(a) && s.contains(b));
    }
    lemma_sorted_permutation_unique(r, s, k);
}

/// A sequence of length 0 or 1 is returned unchanged: any permutation of it
/// is itself.
pub proof fn lemma_short_input_unchanged<T>(s: Seq<T>, r: Seq<T>)
    requires
        s.len() <= 1,
        r.to_multiset() == s.to_multiset(),
    ensures
        r == s,
{
    broadcast use group_to_multiset_ensures;

    assert(s.len() == s.to_multiset().len());
    assert(r.len() == r.to_multiset().len());
    if s.len() == 0 {
        assert(r =~= s);
    } else {
        assert(r.contains(s[0])) by {
            assert(s.contains(s[0]));
            assert(r.to_multiset().count(s[0]) > 0);
        }
        let i = choose|i: int| 0 <= i < r.len() && r[i] == s[0];
        assert(r =~= s);
    }
}

} // verus!
