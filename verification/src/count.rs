//! Counting elements of a sequence that satisfy a predicate, and how such
//! counts behave under taking prefixes, splitting, and permutation. The
//! bucket planner's counts and offsets are stated with these.

use vstd::prelude::*;
use vstd::seq_lib::group_to_multiset_ensures;
use vstd::seq_lib::lemma_multiset_commutative;

verus! {

/// How many elements of `s` satisfy `p`.
pub open spec fn cnt<T>(s: Seq<T>, p: spec_fn(T) -> bool) -> nat
    decreases s.len(),
{
    if s.len() == 0 {
        0
    } else {
        cnt(s.drop_last(), p) + (if p(s.last()) {
            1nat
        } else {
            0nat
        })
    }
}

pub proof fn lemma_cnt_le_len<T>(s: Seq<T>, p: spec_fn(T) -> bool)
    ensures
        cnt(s, p) <= s.len(),
    decreases s.len(),
{
    if s.len() > 0 {
        lemma_cnt_le_len(s.drop_last(), p);
    }
}

pub proof fn lemma_cnt_take_succ<T>(s: Seq<T>, p: spec_fn(T) -> bool, i: int)
    requires
        0 <= i < s.len(),
    ensures
        cnt(s.take(i + 1), p) == cnt(s.take(i), p) + (if p(s[i]) {
            1nat
        } else {
            0nat
        }),
{
    assert(s.take(i + 1).drop_last() =~= s.take(i));
    assert(s.take(i + 1).last() == s[i]);
}

pub proof fn lemma_cnt_append<T>(s1: Seq<T>, s2: Seq<T>, p: spec_fn(T) -> bool)
    ensures
        cnt(s1 + s2, p) == cnt(s1, p) + cnt(s2, p),
    decreases s2.len(),
{
    if s2.len() == 0 {
        assert(s1 + s2 =~= s1);
    } else {
        assert((s1 + s2).drop_last() =~= s1 + s2.drop_last());
        assert((s1 + s2).last() == s2.last());
        lemma_cnt_append(s1, s2.drop_last(), p);
    }
}

pub proof fn lemma_cnt_all<T>(s: Seq<T>, p: spec_fn(T) -> bool)
    requires
        forall|i: int| 0 <= i < s.len() ==> p(#[trigger] s[i]),
    ensures
        cnt(s, p) == s.len(),
    decreases s.len(),
{
    if s.len() > 0 {
        lemma_cnt_all(s.drop_last(), p);
    }
}

pub proof fn lemma_cnt_none<T>(s: Seq<T>, p: spec_fn(T) -> bool)
    requires
        forall|i: int| 0 <= i < s.len() ==> !p(#[trigger] s[i]),
    ensures
        cnt(s, p) == 0,
    decreases s.len(),
{
    if s.len() > 0 {
        lemma_cnt_none(s.drop_last(), p);
    }
}

/// Splitting a count at one position: the elements before it, the element
/// there, and the elements after it.
pub proof fn lemma_cnt_split3<T>(s: Seq<T>, p: spec_fn(T) -> bool, i: int)
    requires
        0 <= i < s.len(),
    ensures
        cnt(s, p) == cnt(s.take(i), p) + (if p(s[i]) {
            1nat
        } else {
            0nat
        }) + cnt(s.skip(i + 1), p),
{
    assert(s =~= s.take(i + 1) + s.skip(i + 1));
    lemma_cnt_append(s.take(i + 1), s.skip(i + 1), p);
    lemma_cnt_take_succ(s, p, i);
}

/// Counts only see the multiset of a sequence: a permutation leaves every
/// count unchanged.
pub proof fn lemma_cnt_multiset<T>(x: Seq<T>, y: Seq<T>, p: spec_fn(T) -> bool)
    requires
        x.to_multiset() == y.to_multiset(),
    ensures
        cnt(x, p) == cnt(y, p),
    decreases x.len(),
{
    broadcast use group_to_multiset_ensures;

    if x.len() == 0 {
        assert(x.len() == x.to_multiset().len());
        assert(y.len() == y.to_multiset().len());
    } else {
        let e = x.last();
        assert(x.contains(e));
        assert(y.to_multiset().count(e) > 0);
        assert(y.contains(e));
        let i = choose|i: int| 0 <= i < y.len() && y[i] == e;
        lemma_cnt_split3(y, p, i);
        let y2 = y.take(i) + y.skip(i + 1);
        lemma_cnt_append(y.take(i), y.skip(i + 1), p);
        assert(y2 =~= y.remove(i));
        assert(x.drop_last() =~= x.remove(x.len() - 1));
        assert(x.drop_last().to_multiset() == x.to_multiset().remove(e));
        assert(y2.to_multiset() == y.to_multiset().remove(e));
        lemma_cnt_multiset(x.drop_last(), y2, p);
    }
}

/// A weaker predicate is satisfied at least as often.
pub proof fn lemma_cnt_mono<T>(s: Seq<T>, p: spec_fn(T) -> bool, q: spec_fn(T) -> bool)
    requires
        forall|t: T| #[trigger] p(t) ==> q(t),
    ensures
        cnt(s, p) <= cnt(s, q),
    decreases s.len(),
{
    if s.len() > 0 {
        lemma_cnt_mono(s.drop_last(), p, q);
    }
}

/// Counting elements that satisfy one of two predicates that no element
/// satisfies both of: the counts add up.
pub proof fn lemma_cnt_disjoint_union<T>(
    s: Seq<T>,
    p: spec_fn(T) -> bool,
    q: spec_fn(T) -> bool,
    pq: spec_fn(T) -> bool,
)
    requires
        forall|t: T| #[trigger] pq(t) <==> (p(t) || q(t)),
        forall|t: T| #[trigger] p(t) ==> !q(t),
    ensures
        cnt(s, pq) == cnt(s, p) + cnt(s, q),
    decreases s.len(),
{
    if s.len() > 0 {
        lemma_cnt_disjoint_union(s.drop_last(), p, q, pq);
    }
}

/// Exchanging the elements at two positions leaves the multiset unchanged.
pub proof fn lemma_swap_multiset<T>(s: Seq<T>, i: int, j: int)
    requires
        0 <= i < s.len(),
        0 <= j < s.len(),
    ensures
        s.update(i, s[j]).update(j, s[i]).to_multiset() == s.to_multiset(),
{
    broadcast use group_to_multiset_ensures;
    broadcast use vstd::multiset::group_multiset_axioms;

    if i == j {
        assert(s.update(i, s[j]).update(j, s[i]) =~= s);
    } else {
        let s1 = s.update(i, s[j]);
        let s2 = s1.update(j, s[i]);
        assert(s1[j] == s[j]);
        assert(s1.to_multiset() == s.to_multiset().insert(s[j]).remove(s[i]));
        assert(s2.to_multiset() == s1.to_multiset().insert(s[i]).remove(s1[j]));
        assert(s.to_multiset().count(s[i]) > 0) by {
            assert(s.contains(s[i]));
        }
        assert(s2.to_multiset() =~= s.to_multiset());
    }
}

/// Replacing a segment of a sequence by a permutation of that segment
/// leaves the multiset of the whole sequence unchanged.
pub proof fn lemma_segment_permutation<T>(s1: Seq<T>, s2: Seq<T>, a: int, b: int)
    requires
        0 <= a <= b <= s1.len(),
        s1.len() == s2.len(),
        s1.take(a) == s2.take(a),
        s1.skip(b) == s2.skip(b),
        s1.subrange(a, b).to_multiset() == s2.subrange(a, b).to_multiset(),
    ensures
        s1.to_multiset() == s2.to_multiset(),
{
    assert(s1 =~= s1.take(a) + s1.subrange(a, b) + s1.skip(b));
    assert(s2 =~= s2.take(a) + s2.subrange(a, b) + s2.skip(b));
    lemma_multiset_commutative(s1.take(a), s1.subrange(a, b));
    lemma_multiset_commutative(s1.take(a) + s1.subrange(a, b), s1.skip(b));
    lemma_multiset_commutative(s2.take(a), s2.subrange(a, b));
    lemma_multiset_commutative(s2.take(a) + s2.subrange(a, b), s2.skip(b));
}

/// A property that holds of every element of a sequence holds of every
/// element of any permutation of it.
pub proof fn lemma_pointwise_from_multiset<T>(x: Seq<T>, y: Seq<T>, p: spec_fn(T) -> bool)
    requires
        x.to_multiset() == y.to_multiset(),
        forall|i: int| 0 <= i < x.len() ==> p(#[trigger] x[i]),
    ensures
        forall|j: int| 0 <= j < y.len() ==> p(#[trigger] y[j]),
{
    broadcast use group_to_multiset_ensures;

    assert forall|j: int| 0 <= j < y.len() implies p(y[j]) by {
        assert(y.contains(y[j]));
        assert(x.to_multiset().count(y[j]) > 0);
        assert(x.contains(y[j]));
        let i = choose|i: int| 0 <= i < x.len() && x[i] == y[j];
        assert(p(x[i]));
    }
}

} // verus!
