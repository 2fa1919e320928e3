//! The sorting engine: the counting-sort-style bucket planner, the in-place
//! permuter, the recursion over buckets, and the comparison-sort fallback
//! for small working sets.

use vstd::prelude::*;
use vstd::relations::sorted_by;

use crate::count::cnt;
use crate::digit::DigitAt;
use crate::order::digit_of;
use crate::order::elem_le;
use crate::order::key_le;
use crate::order::lemma_key_le_byte_lt;
use crate::order::lemma_key_le_exhausted;
use crate::order::lemma_key_le_reflexive;
use crate::order::lemma_key_le_skip;
use crate::order::lemma_key_le_total;

verus! {

/// Working sets of at most this many elements are handed to the comparison
/// sort instead of being partitioned further.
pub const FALLBACK_THRESHOLD: usize = 32;

/// Relies on `<[T]>::swap` from std: it exchanges the elements at the two
/// given positions and panics when either index is out of bounds (the
/// `requires` rules that out).
pub assume_specification<El>[ <[El]>::swap ](s: &mut [El], a: usize, b: usize)
    requires
        a < old(s)@.len(),
        b < old(s)@.len(),
    ensures
        final(s)@ == old(s)@.update(a as int, old(s)@[b as int]).update(
            b as int,
            old(s)@[a as int],
        ),
;

/// Exchange the elements of `v` at positions `i` and `j`.
fn vec_swap<T>(v: &mut Vec<T>, i: usize, j: usize)
    requires
        i < old(v).len(),
        j < old(v).len(),
    ensures
        final(v)@ == old(v)@.update(i as int, old(v)@[j as int]).update(
            j as int,
            old(v)@[i as int],
        ),
{
    let s = v.as_mut_slice();
    s.swap(i, j);
}

/// The digit function `f` behaves as reading the key that `k` assigns to
/// each element: it can be called on any element and depth, and whatever it
/// returns is the byte of that element's key at that depth (or `None` past
/// the end of the key).
pub open spec fn digit_fn_ok<T, S: Fn(&T, usize) -> Option<u8>>(
    f: S,
    k: spec_fn(T) -> Seq<u8>,
) -> bool {
    &&& forall|t: &T, d: usize| #[trigger] call_requires(f, (t, d))
    &&& forall|t: &T, d: usize, r: Option<u8>|
        #[trigger] call_ensures(f, (t, d), r) ==> r == digit_of(k(*t), d as int)
}

/// The key of an element fits the machine: a digit position is a `usize`.
pub open spec fn key_fits<T>(k: spec_fn(T) -> Seq<u8>, t: T) -> bool {
    k(t).len() <= usize::MAX
}

/// Decide `key_le` between the keys of two elements by probing digits at
/// increasing depth until the first difference, or until both keys are
/// exhausted.
fn key_le_exec<T, S: Fn(&T, usize) -> Option<u8>>(
    a: &T,
    b: &T,
    by_digit: &S,
    Ghost(k): Ghost<spec_fn(T) -> Seq<u8>>,
) -> (r: bool)
    requires
        digit_fn_ok(*by_digit, k),
        key_fits(k, *a),
        key_fits(k, *b),
    ensures
        r == key_le(k(*a), k(*b)),
{
    let ghost ka = k(*a);
    let ghost kb = k(*b);
    let mut d: usize = 0;
    loop
        invariant
            digit_fn_ok(*by_digit, k),
            ka == k(*a),
            kb == k(*b),
            ka.len() <= usize::MAX,
            kb.len() <= usize::MAX,
            d <= ka.len(),
            d <= kb.len(),
            ka.take(d as int) == kb.take(d as int),
        decreases ka.len() - d,
    {
        let da = (*by_digit)(a, d);
        let db = (*by_digit)(b, d);
        proof {
            lemma_key_le_skip(ka, kb, d as int);
            lemma_key_le_skip(kb, ka, d as int);
        }
        match (da, db) {
            (None, None) => {
                proof {
                    lemma_key_le_exhausted(ka, kb, d as int);
                }
                return true;
            },
            (None, Some(_)) => {
                proof {
                    lemma_key_le_exhausted(ka, kb, d as int);
                }
                return true;
            },
            (Some(_), None) => {
                proof {
                    lemma_key_le_exhausted(kb, ka, d as int);
                }
                return false;
            },
            (Some(x), Some(y)) => {
                if x < y {
                    proof {
                        lemma_key_le_byte_lt(ka, kb, d as int);
                    }
                    return true;
                } else if x > y {
                    proof {
                        lemma_key_le_byte_lt(kb, ka, d as int);
                    }
                    return false;
                } else {
                    proof {
                        assert(ka.take(d + 1) =~= ka.take(d as int).push(ka[d as int]));
                        assert(kb.take(d + 1) =~= kb.take(d as int).push(kb[d as int]));
                    }
                    d += 1;
                }
            },
        }
    }
}

/// The bucket that a key falls into when partitioning at `depth` with
/// smallest present digit `min`: bucket 0 holds the keys exhausted at this
/// depth, and a present digit `r` goes to bucket `r - min + 1`.
pub open spec fn bkt_of(key: Seq<u8>, depth: int, min: int) -> int {
    match digit_of(key, depth) {
        None => 0,
        Some(r) => r - min + 1,
    }
}

/// The elements whose key falls into bucket `b`.
pub open spec fn is_bkt<T>(k: spec_fn(T) -> Seq<u8>, depth: int, min: int, b: int) -> spec_fn(
    T,
) -> bool {
    |t: T| bkt_of(k(t), depth, min) == b
}

/// The elements whose key falls into a bucket before `b`.
pub open spec fn below_bkt<T>(k: spec_fn(T) -> Seq<u8>, depth: int, min: int, b: int) -> spec_fn(
    T,
) -> bool {
    |t: T| bkt_of(k(t), depth, min) < b
}

/// Scan the working set `lo..hi` for the smallest and largest digit present
/// at `depth`. Returns `(false, _, _)` when no element has a digit there.
fn scan_min_max<T, S: Fn(&T, usize) -> Option<u8>>(
    v: &Vec<T>,
    lo: usize,
    hi: usize,
    depth: usize,
    by_digit: &S,
    Ghost(k): Ghost<spec_fn(T) -> Seq<u8>>,
) -> (res: (bool, u8, u8))
    requires
        lo <= hi <= v.len(),
        digit_fn_ok(*by_digit, k),
    ensures
        !res.0 ==> forall|i: int| lo <= i < hi ==> (#[trigger] k(v@[i])).len() <= depth,
        res.0 ==> res.1 <= res.2,
        res.0 ==> exists|i: int| lo <= i < hi && (#[trigger] k(v@[i])).len() > depth,
        res.0 ==> forall|i: int|
            lo <= i < hi && (#[trigger] k(v@[i])).len() > depth ==> res.1 <= k(v@[i])[depth as int]
                <= res.2,
{
    let mut found = false;
    let mut min: u8 = 0;
    let mut max: u8 = 0;
    let mut idx = lo;
    while idx < hi
        invariant
            lo <= idx <= hi <= v.len(),
            digit_fn_ok(*by_digit, k),
            !found ==> forall|i: int| lo <= i < idx ==> (#[trigger] k(v@[i])).len() <= depth,
            found ==> min <= max,
            found ==> exists|i: int| lo <= i < idx && (#[trigger] k(v@[i])).len() > depth,
            found ==> forall|i: int|
                lo <= i < idx && (#[trigger] k(v@[i])).len() > depth ==> min <= k(
                    v@[i],
                )[depth as int] <= max,
        decreases hi - idx,
    {
        match (*by_digit)(&v[idx], depth) {
            Some(d) => {
                if !found {
                    found = true;
                    min = d;
                    max = d;
                } else {
                    if d < min {
                        min = d;
                    }
                    if d > max {
                        max = d;
                    }
                }
            },
            None => {},
        }
        idx += 1;
    }
    (found, min, max)
}

/// Count, for each bucket, how many elements of the working set `lo..hi`
/// fall into it when partitioning at `depth` with smallest digit `min`.
fn count_buckets<T, S: Fn(&T, usize) -> Option<u8>>(
    v: &Vec<T>,
    lo: usize,
    hi: usize,
    depth: usize,
    min: u8,
    nb: usize,
    by_digit: &S,
    Ghost(k): Ghost<spec_fn(T) -> Seq<u8>>,
) -> (counts: Vec<usize>)
    requires
        lo <= hi <= v.len(),
        digit_fn_ok(*by_digit, k),
        nb >= 1,
        forall|i: int|
            lo <= i < hi && (#[trigger] k(v@[i])).len() > depth ==> min as int <= k(
                v@[i],
            )[depth as int],
        forall|i: int|
            lo <= i < hi ==> 0 <= bkt_of(k(#[trigger] v@[i]), depth as int, min as int) < nb,
    ensures
        counts@.len() == nb,
        forall|b: int|
            0 <= b < nb ==> counts@[b] == cnt(
                v@.subrange(lo as int, hi as int),
                is_bkt(k, depth as int, min as int, b),
            ),
{
    let ghost r = v@.subrange(lo as int, hi as int);
    let mut counts: Vec<usize> = vec![0usize; nb];
    let mut idx = lo;
    proof {
        assert forall|b: int| 0 <= b < nb implies counts@[b] == cnt(
            r.take(0),
            is_bkt(k, depth as int, min as int, b),
        ) by {
            assert(r.take(0) =~= Seq::<T>::empty());
        }
    }
    while idx < hi
        invariant
            lo <= idx <= hi <= v.len(),
            digit_fn_ok(*by_digit, k),
            r == v@.subrange(lo as int, hi as int),
            forall|i: int|
                lo <= i < hi && (#[trigger] k(v@[i])).len() > depth ==> min as int <= k(
                    v@[i],
                )[depth as int],
            forall|i: int|
                lo <= i < hi ==> 0 <= bkt_of(k(#[trigger] v@[i]), depth as int, min as int) < nb,
            counts@.len() == nb,
            forall|b: int|
                0 <= b < nb ==> counts@[b] == cnt(
                    r.take(idx - lo),
                    is_bkt(k, depth as int, min as int, b),
                ),
        decreases hi - idx,
    {
        let d = (*by_digit)(&v[idx], depth);
        proof {
            assert(r[idx - lo] == v@[idx as int]);
        }
        let radix: usize = match d {
            None => 0,
            Some(rv) => {
                proof {
                    assert(digit_of(k(v@[idx as int]), depth as int) == Some(rv));
                    assert(k(v@[idx as int]).len() > depth);
                    assert(min as int <= k(v@[idx as int])[depth as int]);
                    assert(min <= rv);
                    assert(bkt_of(k(v@[idx as int]), depth as int, min as int) == rv - min + 1);
                }
                (rv - min) as usize + 1
            },
        };
        assert(radix == bkt_of(k(v@[idx as int]), depth as int, min as int));
        assert(radix < nb);
        proof {
            crate::count::lemma_cnt_le_len(
                r.take(idx - lo),
                is_bkt(k, depth as int, min as int, radix as int),
            );
        }
        let c = counts[radix];
        counts[radix] = c + 1;
        idx += 1;
        proof {
            assert forall|b: int| 0 <= b < nb implies counts@[b] == cnt(
                r.take(idx - lo),
                is_bkt(k, depth as int, min as int, b),
            ) by {
                crate::count::lemma_cnt_take_succ(
                    r,
                    is_bkt(k, depth as int, min as int, b),
                    idx - 1 - lo,
                );
            }
        }
    }
    proof {
        assert(r.take(hi - lo) =~= r);
    }
    counts
}

/// Turn per-bucket counts into per-bucket starting offsets within the
/// working set: bucket `b` starts where the counts of the buckets before it
/// add up to.
fn prefix_sums<T>(
    counts: &Vec<usize>,
    Ghost(r0): Ghost<Seq<T>>,
    Ghost(k): Ghost<spec_fn(T) -> Seq<u8>>,
    Ghost(depth): Ghost<int>,
    Ghost(min): Ghost<int>,
) -> (off: Vec<usize>)
    requires
        counts@.len() >= 1,
        r0.len() <= usize::MAX,
        forall|b: int|
            0 <= b < counts@.len() ==> counts@[b] == cnt(r0, is_bkt(k, depth, min, b)),
        forall|i: int| 0 <= i < r0.len() ==> 0 <= bkt_of(k(#[trigger] r0[i]), depth, min)
            < counts@.len(),
    ensures
        off@.len() == counts@.len(),
        off@[0] == 0,
        forall|b: int| 0 <= b < off@.len() ==> off@[b] == cnt(r0, below_bkt(k, depth, min, b)),
        forall|b: int|
            0 <= b < off@.len() ==> off@[b] + counts@[b] == if b + 1 < off@.len() {
                off@[b + 1] as int
            } else {
                r0.len() as int
            },
{
    let nb = counts.len();
    let mut off: Vec<usize> = vec![0usize; nb];
    let mut sum: usize = 0;
    let mut i: usize = 0;
    proof {
        crate::count::lemma_cnt_none(r0, below_bkt(k, depth, min, 0));
    }
    while i < nb
        invariant
            i <= nb,
            nb == counts@.len(),
            off@.len() == nb,
            r0.len() <= usize::MAX,
            forall|b: int| 0 <= b < counts@.len() ==> counts@[b] == cnt(r0, is_bkt(k, depth, min, b)),
            forall|idx: int| 0 <= idx < r0.len() ==> 0 <= bkt_of(k(#[trigger] r0[idx]), depth, min)
                < counts@.len(),
            sum == cnt(r0, below_bkt(k, depth, min, i as int)),
            forall|b: int| 0 <= b < i ==> off@[b] == cnt(r0, below_bkt(k, depth, min, b)),
            forall|b: int| i <= b < nb ==> off@[b] == 0,
        decreases nb - i,
    {
        off[i] = sum;
        proof {
            crate::count::lemma_cnt_disjoint_union(
                r0,
                below_bkt(k, depth, min, i as int),
                is_bkt(k, depth, min, i as int),
                below_bkt(k, depth, min, i + 1),
            );
            crate::count::lemma_cnt_le_len(r0, below_bkt(k, depth, min, i + 1));
        }
        sum = sum + counts[i];
        i += 1;
    }
    proof {
        crate::count::lemma_cnt_none(r0, below_bkt(k, depth, min, 0));
        assert forall|b: int| 0 <= b < off@.len() implies off@[b] + counts@[b] == if b + 1
            < off@.len() {
            off@[b + 1] as int
        } else {
            r0.len() as int
        } by {
            crate::count::lemma_cnt_disjoint_union(
                r0,
                below_bkt(k, depth, min, b),
                is_bkt(k, depth, min, b),
                below_bkt(k, depth, min, b + 1),
            );
            if b + 1 == off@.len() {
                crate::count::lemma_cnt_all(r0, below_bkt(k, depth, min, b + 1));
            }
        }
    }
    off
}

/// Where bucket `b` ends within a working set of `n` elements: at the next
/// bucket's offset, or at the end of the set for the last bucket.
pub open spec fn bend(off: Seq<usize>, n: int, b: int) -> int {
    if b + 1 < off.len() {
        off[b + 1] as int
    } else {
        n
    }
}

/// Every element of `s` at a position in `a..e` falls into bucket `b`.
pub open spec fn class_in<T>(
    s: Seq<T>,
    k: spec_fn(T) -> Seq<u8>,
    depth: int,
    min: int,
    a: int,
    e: int,
    b: int,
) -> bool {
    forall|p: int| a <= p < e ==> bkt_of(k(#[trigger] s[p]), depth, min) == b
}

/// How much room is still free in the buckets before `j`: the sum over
/// those buckets of the distance from the next free slot to the bucket end.
spec fn slack(off: Seq<usize>, nf: Seq<usize>, n: int, j: int) -> int
    decreases j,
{
    if j <= 0 {
        0
    } else {
        slack(off, nf, n, j - 1) + (bend(off, n, j - 1) - nf[j - 1])
    }
}

proof fn lemma_slack_nonneg(off: Seq<usize>, nf: Seq<usize>, n: int, j: int)
    requires
        j <= nf.len(),
        forall|b: int| 0 <= b < j ==> nf[b] <= bend(off, n, b),
    ensures
        slack(off, nf, n, j) >= 0,
    decreases j,
{
    if j > 0 {
        lemma_slack_nonneg(off, nf, n, j - 1);
    }
}

proof fn lemma_slack_update(off: Seq<usize>, nf: Seq<usize>, n: int, j: int, b: int, x: usize)
    requires
        0 <= b < j <= nf.len(),
    ensures
        slack(off, nf.update(b, x), n, j) == slack(off, nf, n, j) + nf[b] - x,
    decreases j,
{
    if b == j - 1 {
        lemma_slack_same(off, nf.update(b, x), nf, n, j - 1);
    } else {
        lemma_slack_update(off, nf, n, j - 1, b, x);
    }
}

proof fn lemma_slack_same(off: Seq<usize>, nf1: Seq<usize>, nf2: Seq<usize>, n: int, j: int)
    requires
        j <= nf1.len(),
        j <= nf2.len(),
        forall|b: int| 0 <= b < j ==> nf1[b] == nf2[b],
    ensures
        slack(off, nf1, n, j) == slack(off, nf2, n, j),
    decreases j,
{
    if j > 0 {
        lemma_slack_same(off, nf1, nf2, n, j - 1);
    }
}

/// A bucket whose range is already full of its own elements has no further
/// element elsewhere: the range alone accounts for the bucket's whole
/// count, so an element outside the range falls into another bucket.
proof fn lemma_no_stray<T>(
    cur: Seq<T>,
    r0: Seq<T>,
    k: spec_fn(T) -> Seq<u8>,
    depth: int,
    min: int,
    a: int,
    e: int,
    q: int,
    b: int,
)
    requires
        cur.to_multiset() == r0.to_multiset(),
        cnt(r0, is_bkt(k, depth, min, b)) == e - a,
        0 <= a <= e <= cur.len(),
        class_in(cur, k, depth, min, a, e, b),
        0 <= q < cur.len(),
        q < a || q >= e,
    ensures
        bkt_of(k(cur[q]), depth, min) != b,
{
    if bkt_of(k(cur[q]), depth, min) == b {
        let p = is_bkt(k, depth, min, b);
        crate::count::lemma_cnt_multiset(cur, r0, p);
        assert(cur =~= cur.take(a) + cur.subrange(a, e) + cur.skip(e));
        crate::count::lemma_cnt_append(cur.take(a) + cur.subrange(a, e), cur.skip(e), p);
        crate::count::lemma_cnt_append(cur.take(a), cur.subrange(a, e), p);
        crate::count::lemma_cnt_all(cur.subrange(a, e), p);
        if q < a {
            crate::count::lemma_cnt_split3(cur.take(a), p, q);
            assert(p(cur.take(a)[q]));
        } else {
            crate::count::lemma_cnt_split3(cur.skip(e), p, q - e);
            assert(p(cur.skip(e)[q - e]));
        }
    }
}

/// The in-place permuter: walk the working set `lo..hi` once, swapping each
/// element into its bucket's next free slot, so that afterwards every
/// bucket's range holds exactly the elements that belong to it.
#[verifier::rlimit(100)]
fn permute<T, S: Fn(&T, usize) -> Option<u8>>(
    v: &mut Vec<T>,
    lo: usize,
    hi: usize,
    depth: usize,
    min: u8,
    off: &Vec<usize>,
    counts: &Vec<usize>,
    by_digit: &S,
    Ghost(k): Ghost<spec_fn(T) -> Seq<u8>>,
)
    requires
        lo <= hi <= old(v).len(),
        digit_fn_ok(*by_digit, k),
        off@.len() == counts@.len(),
        off@.len() >= 2,
        off@[0] == 0,
        forall|b: int|
            0 <= b < counts@.len() ==> counts@[b] == cnt(
                old(v)@.subrange(lo as int, hi as int),
                is_bkt(k, depth as int, min as int, b),
            ),
        forall|b: int|
            0 <= b < off@.len() ==> off@[b] == cnt(
                old(v)@.subrange(lo as int, hi as int),
                below_bkt(k, depth as int, min as int, b),
            ),
        forall|b: int|
            0 <= b < off@.len() ==> off@[b] + counts@[b] == bend(off@, hi - lo, b),
        forall|p: int|
            lo <= p < hi && (#[trigger] k(old(v)@[p])).len() > depth ==> min as int <= k(
                old(v)@[p],
            )[depth as int],
        forall|p: int|
            lo <= p < hi ==> 0 <= bkt_of(k(#[trigger] old(v)@[p]), depth as int, min as int)
                < off@.len(),
    ensures
        final(v)@.len() == old(v)@.len(),
        final(v)@.take(lo as int) == old(v)@.take(lo as int),
        final(v)@.skip(hi as int) == old(v)@.skip(hi as int),
        final(v)@.subrange(lo as int, hi as int).to_multiset() == old(v)@.subrange(
            lo as int,
            hi as int,
        ).to_multiset(),
        forall|b: int|
            0 <= b < off@.len() ==> class_in(
                final(v)@.subrange(lo as int, hi as int),
                k,
                depth as int,
                min as int,
                off@[b] as int,
                bend(off@, hi - lo, b),
                b,
            ),
{
    let n = hi - lo;
    let nb = off.len();
    let ghost r0 = old(v)@.subrange(lo as int, hi as int);
    let ghost dd = depth as int;
    let ghost mm = min as int;

    // The next free slot of each bucket starts at the bucket's offset.
    let mut next_free: Vec<usize> = Vec::new();
    let mut bi: usize = 0;
    while bi < nb
        invariant
            bi <= nb,
            nb == off@.len(),
            next_free@ == off@.take(bi as int),
        decreases nb - bi,
    {
        next_free.push(off[bi]);
        proof {
            assert(next_free@ =~= off@.take(bi + 1));
        }
        bi += 1;
    }
    proof {
        assert(next_free@ =~= off@);
    }

    proof {
        assert forall|b: int| 0 <= b < nb implies #[trigger] off@[b] <= n by {
            crate::count::lemma_cnt_le_len(r0, below_bkt(k, dd, mm, b));
        }
    }
    let mut block: usize = 0;
    let mut i: usize = 0;
    while block < nb - 1
        invariant
            lo <= hi <= v@.len(),
            n == hi - lo,
            v@.len() == old(v)@.len(),
            v@.take(lo as int) == old(v)@.take(lo as int),
            v@.skip(hi as int) == old(v)@.skip(hi as int),
            digit_fn_ok(*by_digit, k),
            dd == depth as int,
            mm == min as int,
            r0 == old(v)@.subrange(lo as int, hi as int),
            nb == off@.len(),
            nb == counts@.len(),
            nb >= 2,
            off@[0] == 0,
            forall|b: int| 0 <= b < nb ==> counts@[b] == cnt(r0, is_bkt(k, dd, mm, b)),
            forall|b: int| 0 <= b < nb ==> off@[b] == cnt(r0, below_bkt(k, dd, mm, b)),
            forall|b: int| 0 <= b < nb ==> #[trigger] off@[b] <= n,
            forall|b: int| 0 <= b < nb ==> off@[b] + counts@[b] == bend(off@, n as int, b),
            v@.subrange(lo as int, hi as int).to_multiset() == r0.to_multiset(),
            forall|p: int|
                0 <= p < n ==> 0 <= bkt_of(
                    k(#[trigger] v@.subrange(lo as int, hi as int)[p]),
                    dd,
                    mm,
                ) < nb,
            forall|p: int|
                0 <= p < n && (#[trigger] k(v@.subrange(lo as int, hi as int)[p])).len() > depth
                    ==> mm <= k(v@.subrange(lo as int, hi as int)[p])[dd],
            block <= nb - 1,
            next_free@.len() == nb,
            forall|b: int|
                0 <= b < nb ==> off@[b] <= #[trigger] next_free@[b] <= bend(off@, n as int, b),
            off@[block as int] <= i <= bend(off@, n as int, block as int),
            i <= n,
            forall|b: int|
                0 <= b < nb ==> #[trigger] class_in(
                    v@.subrange(lo as int, hi as int),
                    k,
                    dd,
                    mm,
                    off@[b] as int,
                    next_free@[b] as int,
                    b,
                ),
            class_in(
                v@.subrange(lo as int, hi as int),
                k,
                dd,
                mm,
                off@[block as int] as int,
                i as int,
                block as int,
            ),
            forall|b: int|
                0 <= b < block ==> #[trigger] class_in(
                    v@.subrange(lo as int, hi as int),
                    k,
                    dd,
                    mm,
                    off@[b] as int,
                    bend(off@, n as int, b),
                    b,
                ),
        decreases (n - i) + (nb - 1 - block) + slack(off@, next_free@, n as int, nb as int),
    {
        proof {
            lemma_slack_nonneg(off@, next_free@, n as int, nb as int);
        }
        let ghost cur = v@.subrange(lo as int, hi as int);
        if i >= off[block + 1] {
            proof {
                assert(i == off@[block + 1]);
                assert(bend(off@, n as int, block as int) == off@[block + 1]);
                assert(class_in(cur, k, dd, mm, off@[block as int] as int, i as int, block as int));
                // bucket `block` is now complete
                assert(off@[block + 1] <= bend(off@, n as int, block + 1));
            }
            block += 1;
        } else {
            let d = (*by_digit)(&v[lo + i], depth);
            proof {
                assert(cur[i as int] == v@[lo + i]);
            }
            let radix: usize = match d {
                None => 0,
                Some(rv) => {
                    proof {
                        assert(digit_of(k(cur[i as int]), dd) == Some(rv));
                        assert(k(cur[i as int]).len() > depth);
                        assert(mm <= k(cur[i as int])[dd]);
                    }
                    (rv - min) as usize + 1
                },
            };
            assert(radix == bkt_of(k(cur[i as int]), dd, mm));
            assert(radix < nb);
            if radix == block {
                i += 1;
            } else {
                proof {
                    // Buckets before the current block are complete, so the
                    // element at the cursor belongs to a later bucket.
                    if radix < block {
                        crate::count::lemma_cnt_mono(
                            r0,
                            below_bkt(k, dd, mm, radix + 1),
                            below_bkt(k, dd, mm, block as int),
                        );
                        assert(off@[radix + 1] <= off@[block as int]);
                        lemma_no_stray(
                            cur,
                            r0,
                            k,
                            dd,
                            mm,
                            off@[radix as int] as int,
                            bend(off@, n as int, radix as int),
                            i as int,
                            radix as int,
                        );
                    }
                    assert(radix > block);
                    crate::count::lemma_cnt_mono(
                        r0,
                        below_bkt(k, dd, mm, block + 1),
                        below_bkt(k, dd, mm, radix as int),
                    );
                    assert(off@[block + 1] <= off@[radix as int]);
                    // The target bucket still has a free slot: were it full,
                    // the element at the cursor would be a stray.
                    if next_free@[radix as int] == bend(off@, n as int, radix as int) {
                        lemma_no_stray(
                            cur,
                            r0,
                            k,
                            dd,
                            mm,
                            off@[radix as int] as int,
                            bend(off@, n as int, radix as int),
                            i as int,
                            radix as int,
                        );
                    }
                    assert(next_free@[radix as int] < bend(off@, n as int, radix as int));
                }
                let fr = next_free[radix];
                proof {
                    assert(i < fr) by {
                        assert(i < off@[block + 1]);
                        assert(off@[radix as int] <= fr);
                    }
                    assert(fr < n);
                }
                vec_swap(v, lo + i, lo + fr);
                let ghost nxt = v@.subrange(lo as int, hi as int);
                proof {
                    assert(nxt =~= cur.update(i as int, cur[fr as int]).update(
                        fr as int,
                        cur[i as int],
                    ));
                    assert(v@.take(lo as int) =~= old(v)@.take(lo as int));
                    assert(v@.skip(hi as int) =~= old(v)@.skip(hi as int));
                    crate::count::lemma_swap_multiset(cur, i as int, fr as int);
                }
                let ghost nf_before = next_free@;
                next_free[radix] = fr + 1;
                proof {
                    assert(next_free@ == nf_before.update(radix as int, (fr + 1) as usize));
                    lemma_slack_update(
                        off@,
                        nf_before,
                        n as int,
                        nb as int,
                        radix as int,
                        (fr + 1) as usize,
                    );
                    // the placed regions still hold elements of their bucket
                    assert forall|b: int| 0 <= b < nb implies #[trigger] class_in(
                        nxt,
                        k,
                        dd,
                        mm,
                        off@[b] as int,
                        next_free@[b] as int,
                        b,
                    ) by {
                        assert(class_in(
                            cur,
                            k,
                            dd,
                            mm,
                            off@[b] as int,
                            nf_before[b] as int,
                            b,
                        ));
                        if b < radix {
                            crate::count::lemma_cnt_mono(
                                r0,
                                below_bkt(k, dd, mm, b + 1),
                                below_bkt(k, dd, mm, radix as int),
                            );
                            assert(off@[b + 1] <= off@[radix as int]);
                        }
                        if b > radix {
                            crate::count::lemma_cnt_mono(
                                r0,
                                below_bkt(k, dd, mm, radix + 1),
                                below_bkt(k, dd, mm, b),
                            );
                            assert(off@[radix + 1] <= off@[b]);
                        }
                        if b == block {
                            // the cursor element was not of this bucket, so it
                            // sat at or past the block's next free slot
                        }
                    }
                    // the cursor-classified region of the current block
                    assert(class_in(nxt, k, dd, mm, off@[block as int] as int, i as int, block as int))
                        by {
                        assert(off@[block + 1] <= off@[radix as int]);
                    }
                    // completed buckets stay complete
                    assert forall|b: int| 0 <= b < block implies #[trigger] class_in(
                        nxt,
                        k,
                        dd,
                        mm,
                        off@[b] as int,
                        bend(off@, n as int, b),
                        b,
                    ) by {
                        assert(class_in(cur, k, dd, mm, off@[b] as int, bend(off@, n as int, b), b));
                        crate::count::lemma_cnt_mono(
                            r0,
                            below_bkt(k, dd, mm, b + 1),
                            below_bkt(k, dd, mm, block as int),
                        );
                        assert(off@[b + 1] <= off@[block as int]);
                    }
                }
            }
        }
    }
    proof {
        let cur = v@.subrange(lo as int, hi as int);
        assert(block == nb - 1);
        assert forall|b: int| 0 <= b < nb implies class_in(
            cur,
            k,
            dd,
            mm,
            off@[b] as int,
            bend(off@, n as int, b),
            b,
        ) by {
            if b == nb - 1 {
                assert forall|p: int| off@[b] <= p < bend(off@, n as int, b) implies bkt_of(
                    k(#[trigger] cur[p]),
                    dd,
                    mm,
                ) == b by {
                    if p >= i {
                        let bp = bkt_of(k(cur[p]), dd, mm);
                        assert(0 <= bp < nb);
                        if bp < nb - 1 {
                            crate::count::lemma_cnt_mono(
                                r0,
                                below_bkt(k, dd, mm, bp + 1),
                                below_bkt(k, dd, mm, block as int),
                            );
                            assert(off@[bp + 1] <= off@[block as int]);
                            assert(class_in(
                                cur,
                                k,
                                dd,
                                mm,
                                off@[bp] as int,
                                bend(off@, n as int, bp),
                                bp,
                            ));
                            lemma_no_stray(
                                cur,
                                r0,
                                k,
                                dd,
                                mm,
                                off@[bp] as int,
                                bend(off@, n as int, bp),
                                p,
                                bp,
                            );
                        }
                    }
                }
            }
        }
    }
}

/// An element whose key fits the machine, reaches at least `depth` bytes,
/// and starts with the common prefix `pre` of the working set.
pub open spec fn elem_pre_ok<T>(k: spec_fn(T) -> Seq<u8>, depth: int, pre: Seq<u8>) -> spec_fn(
    T,
) -> bool {
    |t: T| k(t).len() >= depth && k(t).len() <= usize::MAX && k(t).take(depth) == pre
}

/// The elements of `s` at positions `a..e` are sorted by key.
pub open spec fn sorted_range<T>(s: Seq<T>, k: spec_fn(T) -> Seq<u8>, a: int, e: int) -> bool {
    forall|p: int, q: int| a <= p < q < e ==> key_le(k(#[trigger] s[p]), k(#[trigger] s[q]))
}

/// The length of the longest key in `s`.
spec fn max_key_len<T>(s: Seq<T>, k: spec_fn(T) -> Seq<u8>) -> nat
    decreases s.len(),
{
    if s.len() == 0 {
        0
    } else if k(s.last()).len() > max_key_len(s.drop_last(), k) {
        k(s.last()).len()
    } else {
        max_key_len(s.drop_last(), k)
    }
}

proof fn lemma_max_key_len_ge<T>(s: Seq<T>, k: spec_fn(T) -> Seq<u8>, i: int)
    requires
        0 <= i < s.len(),
    ensures
        k(s[i]).len() <= max_key_len(s, k),
    decreases s.len(),
{
    if i < s.len() - 1 {
        lemma_max_key_len_ge(s.drop_last(), k, i);
    }
}

proof fn lemma_max_key_len_attained<T>(s: Seq<T>, k: spec_fn(T) -> Seq<u8>)
    requires
        s.len() > 0,
    ensures
        exists|i: int| 0 <= i < s.len() && k(#[trigger] s[i]).len() == max_key_len(s, k),
    decreases s.len(),
{
    if k(s.last()).len() > max_key_len(s.drop_last(), k) {
        assert(k(s[s.len() - 1]).len() == max_key_len(s, k));
    } else if s.len() == 1 {
        assert(k(s[0]).len() == max_key_len(s, k));
    } else {
        lemma_max_key_len_attained(s.drop_last(), k);
        let i = choose|i: int|
            0 <= i < s.drop_last().len() && k(#[trigger] s.drop_last()[i]).len() == max_key_len(
                s.drop_last(),
                k,
            );
        assert(k(s[i]).len() == max_key_len(s, k));
    }
}

proof fn lemma_max_key_len_multiset<T>(x: Seq<T>, y: Seq<T>, k: spec_fn(T) -> Seq<u8>)
    requires
        x.to_multiset() == y.to_multiset(),
    ensures
        max_key_len(x, k) == max_key_len(y, k),
{
    broadcast use vstd::seq_lib::group_to_multiset_ensures;

    if x.len() == 0 {
        assert(x.len() == x.to_multiset().len());
        assert(y.len() == y.to_multiset().len());
    } else {
        assert(y.len() == y.to_multiset().len());
        assert(x.len() == x.to_multiset().len());
        lemma_max_key_len_attained(x, k);
        lemma_max_key_len_attained(y, k);
        let i = choose|i: int|
            0 <= i < x.len() && k(#[trigger] x[i]).len() == max_key_len(x, k);
        assert(x.contains(x[i]));
        assert(y.to_multiset().count(x[i]) > 0);
        assert(y.contains(x[i]));
        let i2 = choose|i2: int| 0 <= i2 < y.len() && y[i2] == x[i];
        lemma_max_key_len_ge(y, k, i2);
        let j = choose|j: int|
            0 <= j < y.len() && k(#[trigger] y[j]).len() == max_key_len(y, k);
        assert(y.contains(y[j]));
        assert(x.to_multiset().count(y[j]) > 0);
        assert(x.contains(y[j]));
        let j2 = choose|j2: int| 0 <= j2 < x.len() && x[j2] == y[j];
        lemma_max_key_len_ge(x, k, j2);
    }
}

proof fn lemma_max_key_len_subrange<T>(s: Seq<T>, k: spec_fn(T) -> Seq<u8>, a: int, e: int)
    requires
        0 <= a <= e <= s.len(),
    ensures
        max_key_len(s.subrange(a, e), k) <= max_key_len(s, k),
{
    if e > a {
        lemma_max_key_len_attained(s.subrange(a, e), k);
        let i = choose|i: int|
            0 <= i < e - a && k(#[trigger] s.subrange(a, e)[i]).len() == max_key_len(
                s.subrange(a, e),
                k,
            );
        lemma_max_key_len_ge(s, k, a + i);
    }
}

/// The measure that shrinks on every recursive descent: how much key is
/// left to examine past the current depth.
spec fn sort_measure<T>(s: Seq<T>, k: spec_fn(T) -> Seq<u8>, depth: int) -> int {
    if s.len() == 0 {
        0
    } else {
        max_key_len(s, k) + 1 - depth
    }
}

/// The comparison-sort fallback: sort the working set `lo..hi` of `v` by
/// full keys, with an insertion sort whose comparisons probe digits.
fn insertion_sort<T, S: Fn(&T, usize) -> Option<u8>>(
    v: &mut Vec<T>,
    lo: usize,
    hi: usize,
    by_digit: &S,
    Ghost(k): Ghost<spec_fn(T) -> Seq<u8>>,
)
    requires
        lo <= hi <= old(v).len(),
        digit_fn_ok(*by_digit, k),
        forall|i: int| lo <= i < hi ==> key_fits(k, #[trigger] old(v)@[i]),
    ensures
        final(v)@.len() == old(v)@.len(),
        final(v)@.take(lo as int) == old(v)@.take(lo as int),
        final(v)@.skip(hi as int) == old(v)@.skip(hi as int),
        final(v)@.subrange(lo as int, hi as int).to_multiset() == old(v)@.subrange(
            lo as int,
            hi as int,
        ).to_multiset(),
        sorted_by(final(v)@.subrange(lo as int, hi as int), elem_le(k)),
{
    let ghost v0 = old(v)@;
    if lo == hi {
        proof {
            assert(v@.take(lo as int) =~= v0.take(lo as int));
            assert(v@.skip(hi as int) =~= v0.skip(hi as int));
            assert(v@.subrange(lo as int, hi as int) =~= v0.subrange(lo as int, hi as int));
        }
        return ;
    }
    let mut j: usize = lo + 1;
    while j < hi
        invariant
            lo < hi <= v@.len(),
            lo < j <= hi,
            v@.len() == v0.len(),
            digit_fn_ok(*by_digit, k),
            v@.take(lo as int) == v0.take(lo as int),
            v@.skip(hi as int) == v0.skip(hi as int),
            v@.subrange(lo as int, hi as int).to_multiset() == v0.subrange(
                lo as int,
                hi as int,
            ).to_multiset(),
            forall|i: int| lo <= i < hi ==> key_fits(k, #[trigger] v@[i]),
            forall|p: int, q: int|
                lo <= p < q < j ==> key_le(k(#[trigger] v@[p]), k(#[trigger] v@[q])),
        decreases hi - j,
    {
        let mut m: usize = j;
        while m > lo
            invariant
                lo <= m <= j < hi <= v@.len(),
                v@.len() == v0.len(),
                digit_fn_ok(*by_digit, k),
                v@.take(lo as int) == v0.take(lo as int),
                v@.skip(hi as int) == v0.skip(hi as int),
                v@.subrange(lo as int, hi as int).to_multiset() == v0.subrange(
                    lo as int,
                    hi as int,
                ).to_multiset(),
                forall|i: int| lo <= i < hi ==> key_fits(k, #[trigger] v@[i]),
                forall|p: int, q: int|
                    m <= p < q <= j ==> key_le(k(#[trigger] v@[p]), k(#[trigger] v@[q])),
                forall|p: int, q: int|
                    lo <= p < q < m ==> key_le(k(#[trigger] v@[p]), k(#[trigger] v@[q])),
                forall|p: int, q: int|
                    lo <= p < m && m < q <= j ==> key_le(k(#[trigger] v@[p]), k(#[trigger] v@[q])),
            ensures
                lo < hi <= v@.len(),
                v@.len() == v0.len(),
                v@.take(lo as int) == v0.take(lo as int),
                v@.skip(hi as int) == v0.skip(hi as int),
                v@.subrange(lo as int, hi as int).to_multiset() == v0.subrange(
                    lo as int,
                    hi as int,
                ).to_multiset(),
                forall|i: int| lo <= i < hi ==> key_fits(k, #[trigger] v@[i]),
                forall|p: int, q: int|
                    lo <= p < q <= j ==> key_le(k(#[trigger] v@[p]), k(#[trigger] v@[q])),
            decreases m,
        {
            if key_le_exec(&v[m - 1], &v[m], by_digit, Ghost(k)) {
                proof {
                    assert forall|p: int, q: int| lo <= p < q <= j implies key_le(
                        k(#[trigger] v@[p]),
                        k(#[trigger] v@[q]),
                    ) by {
                        if q == m && p < m - 1 {
                            crate::order::lemma_key_le_transitive(
                                k(v@[p]),
                                k(v@[m - 1]),
                                k(v@[m as int]),
                            );
                        }
                    }
                }
                break ;
            }
            proof {
                lemma_key_le_total(k(v@[m - 1]), k(v@[m as int]));
            }
            let ghost before = v@;
            vec_swap(v, m - 1, m);
            proof {
                crate::count::lemma_swap_multiset(
                    before.subrange(lo as int, hi as int),
                    m - 1 - lo,
                    m - lo,
                );
                assert(v@.subrange(lo as int, hi as int) =~= before.subrange(
                    lo as int,
                    hi as int,
                ).update(m - 1 - lo, before[m as int]).update(m - lo, before[m - 1]));
                assert(v@.take(lo as int) =~= before.take(lo as int));
                assert(v@.skip(hi as int) =~= before.skip(hi as int));
            }
            m -= 1;
        }
        j += 1;
    }
    proof {
        assert(sorted_by(v@.subrange(lo as int, hi as int), elem_le(k))) by {
            assert(forall|p: int, q: int|
                lo <= p < q < hi ==> key_le(k(#[trigger] v@[p]), k(#[trigger] v@[q])));
            assert(forall|p: int, q: int|
                0 <= p < q < hi - lo ==> elem_le(k)(
                    #[trigger] v@.subrange(lo as int, hi as int)[p],
                    #[trigger] v@.subrange(lo as int, hi as int)[q],
                ));
        }
    }
}


/// A usable fallback sorter: callable on any working set whose keys fit the
/// machine, and whatever it does to `x` between `a` and `b` leaves a
/// permutation of that range sorted by key, touching nothing outside it.
/// What a run of the fallback sorter on positions `a..b` must leave behind:
/// everything outside the range as it was, and a sorted permutation inside.
pub open spec fn fallback_post<T>(
    pre_v: Seq<T>,
    post_v: Seq<T>,
    a: int,
    b: int,
    k: spec_fn(T) -> Seq<u8>,
) -> bool {
    &&& post_v.len() == pre_v.len()
    &&& post_v.take(a) == pre_v.take(a)
    &&& post_v.skip(b) == pre_v.skip(b)
    &&& post_v.subrange(a, b).to_multiset() == pre_v.subrange(a, b).to_multiset()
    &&& sorted_by(post_v.subrange(a, b), elem_le(k))
}

/// A usable fallback sorter: callable on any working set whose keys fit the
/// machine, and whatever vector it hands back differs from the one it took
/// only in that the range `a..b` is now a sorted permutation of what stood
/// there.
pub open spec fn fallback_ok<T, C: Fn(Vec<T>, usize, usize) -> Vec<T>>(
    c: C,
    k: spec_fn(T) -> Seq<u8>,
) -> bool {
    &&& forall|x: Vec<T>, a: usize, b: usize|
        a <= b <= x@.len() && (forall|i: int| a <= i < b ==> key_fits(k, #[trigger] x@[i]))
            ==> #[trigger] call_requires(c, (x, a, b))
    &&& forall|x: Vec<T>, a: usize, b: usize, y: Vec<T>|
        #[trigger] call_ensures(c, (x, a, b), y) && a <= b <= x@.len() && (forall|i: int|
            a <= i < b ==> key_fits(k, #[trigger] x@[i])) ==> fallback_post(
            x@,
            y@,
            a as int,
            b as int,
            k,
        )
}

/// The partitioning/recursion engine. Sort the working set `lo..hi` of `v`
/// at `depth`, all of whose elements agree on the first `depth` key bytes
/// (`pre`). A small set goes to the fallback sorter. A set with no digit
/// left at this depth holds only equal keys and is left as it is. Otherwise
/// the set is partitioned in place into buckets by the digit at `depth`,
/// and each bucket of a present digit is sorted recursively at `depth + 1`;
/// the bucket of exhausted keys needs no further work.
#[verifier::rlimit(100)]
fn sort_req<T, S: Fn(&T, usize) -> Option<u8>, C: Fn(Vec<T>, usize, usize) -> Vec<T>>(
    v: &mut Vec<T>,
    lo: usize,
    hi: usize,
    by_digit: &S,
    sort_remaining: &C,
    depth: usize,
    Ghost(k): Ghost<spec_fn(T) -> Seq<u8>>,
    Ghost(pre): Ghost<Seq<u8>>,
)
    requires
        lo <= hi <= old(v).len(),
        digit_fn_ok(*by_digit, k),
        fallback_ok(*sort_remaining, k),
        pre.len() == depth,
        forall|i: int| lo <= i < hi ==> elem_pre_ok(k, depth as int, pre)(#[trigger] old(v)@[i]),
    ensures
        final(v)@.len() == old(v)@.len(),
        final(v)@.take(lo as int) == old(v)@.take(lo as int),
        final(v)@.skip(hi as int) == old(v)@.skip(hi as int),
        final(v)@.subrange(lo as int, hi as int).to_multiset() == old(v)@.subrange(
            lo as int,
            hi as int,
        ).to_multiset(),
        sorted_by(final(v)@.subrange(lo as int, hi as int), elem_le(k)),
    decreases sort_measure(v@.subrange(lo as int, hi as int), k, depth as int),
{
    let n = hi - lo;
    let ghost dd = depth as int;
    let ghost r0 = v@.subrange(lo as int, hi as int);
    if n <= FALLBACK_THRESHOLD {
        proof {
            assert forall|i: int| lo <= i < hi implies key_fits(k, #[trigger] v@[i]) by {
                assert(elem_pre_ok(k, dd, pre)(v@[i]));
            }
        }
        let mut work: Vec<T> = Vec::new();
        core::mem::swap(v, &mut work);
        let mut sorted = (*sort_remaining)(work, lo, hi);
        core::mem::swap(v, &mut sorted);
        proof {
            assert(sorted_by(v@.subrange(lo as int, hi as int), elem_le(k)));
        }
        return ;
    }
    let (found, min, max) = scan_min_max(v, lo, hi, depth, by_digit, Ghost(k));
    let ghost mm = min as int;
    if !found {
        // No element has a digit at this depth: every key in the set is
        // exactly the common prefix, so the set is already sorted.
        proof {
            assert(v@.take(lo as int) =~= old(v)@.take(lo as int));
            assert(v@.skip(hi as int) =~= old(v)@.skip(hi as int));
            assert(v@.subrange(lo as int, hi as int) =~= r0);
            lemma_key_le_reflexive(pre);
            assert forall|p: int, q: int| 0 <= p < q < n implies elem_le(k)(
                #[trigger] r0[p],
                #[trigger] r0[q],
            ) by {
                assert(elem_pre_ok(k, dd, pre)(v@[lo + p]));
                assert(elem_pre_ok(k, dd, pre)(v@[lo + q]));
                assert(k(r0[p]).len() <= depth);
                assert(k(r0[q]).len() <= depth);
                assert(k(r0[p]) =~= k(r0[p]).take(dd));
                assert(k(r0[q]) =~= k(r0[q]).take(dd));
            }
        }
        return ;
    }
    let nb = (max - min) as usize + 2;
    proof {
        assert forall|i: int| lo <= i < hi implies 0 <= bkt_of(
            k(#[trigger] v@[i]),
            dd,
            mm,
        ) < nb by {
            assert(elem_pre_ok(k, dd, pre)(v@[i]));
            if k(v@[i]).len() > depth {
                assert(min <= k(v@[i])[dd] <= max);
            }
        }
        assert forall|i: int| 0 <= i < r0.len() implies 0 <= bkt_of(
            k(#[trigger] r0[i]),
            dd,
            mm,
        ) < nb by {
            assert(r0[i] == v@[lo + i]);
            assert(0 <= bkt_of(k(v@[lo + i]), dd, mm) < nb);
        }
    }
    let counts = count_buckets(v, lo, hi, depth, min, nb, by_digit, Ghost(k));
    let off = prefix_sums::<T>(&counts, Ghost(r0), Ghost(k), Ghost(dd), Ghost(mm));
    proof {
        assert(r0.len() == n);
        assert forall|b2: int| 0 <= b2 < nb implies off@[b2] + counts@[b2] == bend(
            off@,
            n as int,
            b2,
        ) by {}
    }
    permute(v, lo, hi, depth, min, &off, &counts, by_digit, Ghost(k));
    proof {
        crate::count::lemma_pointwise_from_multiset(
            r0,
            v@.subrange(lo as int, hi as int),
            elem_pre_ok(k, dd, pre),
        );
        assert forall|b2: int| 0 <= b2 < nb implies #[trigger] off@[b2] <= n by {
            crate::count::lemma_cnt_le_len(r0, below_bkt(k, dd, mm, b2));
        }
        // some element has a digit here, so the recursion depth fits
        assert(depth < usize::MAX) by {
            let w = choose|i: int| lo <= i < hi && (#[trigger] k(old(v)@[i])).len() > depth;
            assert(elem_pre_ok(k, dd, pre)(old(v)@[w]));
        }
    }
    let mut b: usize = 1;
    while b < nb
        invariant
            lo <= hi <= v@.len(),
            n == hi - lo,
            n > 0,
            nb == off@.len(),
            nb == counts@.len(),
            nb >= 2,
            1 <= b <= nb,
            depth < usize::MAX,
            digit_fn_ok(*by_digit, k),
            fallback_ok(*sort_remaining, k),
            dd == depth as int,
            mm == min as int,
            pre.len() == depth,
            fallback_ok(*sort_remaining, k),
            v@.len() == old(v)@.len(),
            v@.take(lo as int) == old(v)@.take(lo as int),
            v@.skip(hi as int) == old(v)@.skip(hi as int),
            r0 == old(v)@.subrange(lo as int, hi as int),
            r0.len() == n,
            v@.subrange(lo as int, hi as int).to_multiset() == r0.to_multiset(),
            off@[0] == 0,
            forall|b2: int| 0 <= b2 < nb ==> counts@[b2] == cnt(r0, is_bkt(k, dd, mm, b2)),
            forall|b2: int| 0 <= b2 < nb ==> off@[b2] == cnt(r0, below_bkt(k, dd, mm, b2)),
            forall|b2: int|
                0 <= b2 < nb ==> off@[b2] + counts@[b2] == bend(off@, n as int, b2),
            forall|b2: int| 0 <= b2 < nb ==> #[trigger] off@[b2] <= n,
            forall|p: int|
                0 <= p < n ==> elem_pre_ok(k, dd, pre)(
                    #[trigger] v@.subrange(lo as int, hi as int)[p],
                ),
            forall|b2: int|
                0 <= b2 < nb ==> #[trigger] class_in(
                    v@.subrange(lo as int, hi as int),
                    k,
                    dd,
                    mm,
                    off@[b2] as int,
                    bend(off@, n as int, b2),
                    b2,
                ),
            forall|b2: int|
                1 <= b2 < b ==> #[trigger] sorted_range(
                    v@.subrange(lo as int, hi as int),
                    k,
                    off@[b2] as int,
                    bend(off@, n as int, b2),
                ),
        decreases nb - b,
    {
        let e: usize = if b + 1 < nb {
            off[b + 1]
        } else {
            n
        };
        proof {
            assert(bend(off@, n as int, b as int) == e as int);
            assert(off@[b as int] + counts@[b as int] == bend(off@, n as int, b as int));
            assert(off@[b as int] <= e <= n);
        }
        let ghost pre2 = pre.push((mm + b - 1) as u8);
        let ghost cur = v@.subrange(lo as int, hi as int);
        proof {
            assert(class_in(
                cur,
                k,
                dd,
                mm,
                off@[b as int] as int,
                bend(off@, n as int, b as int),
                b as int,
            ));
            assert(class_in(cur, k, dd, mm, off@[b as int] as int, e as int, b as int));
            assert forall|i: int| lo + off@[b as int] <= i < lo + e implies elem_pre_ok(
                k,
                dd + 1,
                pre2,
            )(#[trigger] v@[i]) by {
                let p = i - lo;
                assert(cur[p] == v@[i]);
                assert(bkt_of(k(cur[p]), dd, mm) == b);
                assert(elem_pre_ok(k, dd, pre)(cur[p]));
                assert(digit_of(k(cur[p]), dd) == Some((mm + b - 1) as u8));
                assert(k(cur[p]).len() >= dd + 1);
                assert(k(cur[p]).take(dd + 1) =~= k(cur[p]).take(dd).push(k(cur[p])[dd]));
            }
            // the measure shrinks: the keys of a bucket reach past `depth`
            let seg = v@.subrange(lo + off@[b as int], lo + e);
            assert(seg =~= cur.subrange(off@[b as int] as int, e as int));
            if seg.len() > 0 {
                assert(bkt_of(k(cur[off@[b as int] as int]), dd, mm) == b);
                assert(k(seg[0]).len() >= dd + 1);
                lemma_max_key_len_ge(seg, k, 0);
                lemma_max_key_len_subrange(cur, k, off@[b as int] as int, e as int);
                lemma_max_key_len_multiset(cur, r0, k);
            }
            lemma_max_key_len_multiset(cur, r0, k);
            lemma_max_key_len_ge(cur, k, 0);
            assert(elem_pre_ok(k, dd, pre)(cur[0]));
            assert(sort_measure(r0, k, dd) >= 1);
        }
        let ghost before = v@;
        sort_req(v, lo + off[b], lo + e, by_digit, sort_remaining, depth + 1, Ghost(k), Ghost(pre2));
        proof {
            let a0 = off@[b as int] as int;
            let cur2 = v@.subrange(lo as int, hi as int);
            // the call left everything outside its own range in place
            assert forall|x: int| 0 <= x < v@.len() && !(lo + a0 <= x < lo + e) implies v@[x]
                == before[x] by {
                if x < lo + a0 {
                    assert(v@.take(lo + a0)[x] == before.take(lo + a0)[x]);
                } else {
                    assert(v@.skip(lo + e)[x - lo - e] == before.skip(lo + e)[x - lo - e]);
                }
            }
            assert(v@.take(lo as int) =~= before.take(lo as int));
            assert(v@.skip(hi as int) =~= before.skip(hi as int));
            assert(cur2.take(a0) =~= cur.take(a0));
            assert(cur2.skip(e as int) =~= cur.skip(e as int));
            assert(cur2.subrange(a0, e as int) =~= v@.subrange(lo + a0, lo + e));
            assert(cur.subrange(a0, e as int) =~= before.subrange(lo + a0, lo + e));
            crate::count::lemma_segment_permutation(cur2, cur, a0, e as int);
            // every element of the re-sorted bucket still belongs to it,
            // and still carries the working set's common prefix
            crate::count::lemma_pointwise_from_multiset(
                cur.subrange(a0, e as int),
                cur2.subrange(a0, e as int),
                is_bkt(k, dd, mm, b as int),
            );
            crate::count::lemma_pointwise_from_multiset(
                cur.subrange(a0, e as int),
                cur2.subrange(a0, e as int),
                elem_pre_ok(k, dd, pre),
            );
            assert forall|p: int| 0 <= p < n implies elem_pre_ok(k, dd, pre)(
                #[trigger] cur2[p],
            ) by {
                if a0 <= p < e {
                    assert(cur2.subrange(a0, e as int)[p - a0] == cur2[p]);
                } else {
                    assert(cur2[p] == cur[p]);
                }
            }
            assert forall|b2: int| 0 <= b2 < nb implies #[trigger] class_in(
                cur2,
                k,
                dd,
                mm,
                off@[b2] as int,
                bend(off@, n as int, b2),
                b2,
            ) by {
                assert(class_in(cur, k, dd, mm, off@[b2] as int, bend(off@, n as int, b2), b2));
                assert forall|p: int|
                    off@[b2] <= p < bend(off@, n as int, b2) implies bkt_of(
                    k(#[trigger] cur2[p]),
                    dd,
                    mm,
                ) == b2 by {
                    if a0 <= p < e {
                        assert(cur2.subrange(a0, e as int)[p - a0] == cur2[p]);
                        assert(bkt_of(k(cur2[p]), dd, mm) == b);
                        if b2 != b {
                            // bucket ranges do not overlap
                            if b2 < b {
                                crate::count::lemma_cnt_mono(
                                    r0,
                                    below_bkt(k, dd, mm, b2 + 1),
                                    below_bkt(k, dd, mm, b as int),
                                );
                                assert(bend(off@, n as int, b2) <= off@[b as int]);
                            } else {
                                crate::count::lemma_cnt_mono(
                                    r0,
                                    below_bkt(k, dd, mm, b + 1),
                                    below_bkt(k, dd, mm, b2),
                                );
                                assert(e <= off@[b2]);
                            }
                            assert(false);
                        }
                    } else {
                        assert(cur2[p] == cur[p]);
                    }
                }
            }
            assert forall|b2: int| 1 <= b2 < b + 1 implies #[trigger] sorted_range(
                cur2,
                k,
                off@[b2] as int,
                bend(off@, n as int, b2),
            ) by {
                if b2 == b {
                    assert(sorted_by(v@.subrange(lo + a0, lo + e), elem_le(k)));
                    assert forall|p: int, q: int|
                        a0 <= p < q < e implies key_le(k(#[trigger] cur2[p]), k(#[trigger] cur2[q]))
                        by {
                        assert(cur2[p] == v@.subrange(lo + a0, lo + e)[p - a0]);
                        assert(cur2[q] == v@.subrange(lo + a0, lo + e)[q - a0]);
                        assert(elem_le(k)(
                            v@.subrange(lo + a0, lo + e)[p - a0],
                            v@.subrange(lo + a0, lo + e)[q - a0],
                        ));
                    }
                } else {
                    assert(sorted_range(cur, k, off@[b2] as int, bend(off@, n as int, b2)));
                    if b2 < b {
                        crate::count::lemma_cnt_mono(
                            r0,
                            below_bkt(k, dd, mm, b2 + 1),
                            below_bkt(k, dd, mm, b as int),
                        );
                        assert(bend(off@, n as int, b2) <= off@[b as int]);
                    }
                    assert forall|p: int, q: int|
                        off@[b2] <= p < q < bend(off@, n as int, b2) implies key_le(
                        k(#[trigger] cur2[p]),
                        k(#[trigger] cur2[q]),
                    ) by {
                        assert(cur2[p] == cur[p]);
                        assert(cur2[q] == cur[q]);
                    }
                }
            }
        }
        b += 1;
    }
    // Assemble: within a bucket the recursion (or key exhaustion) sorted the
    // elements; across buckets the digit at this depth decides the order.
    proof {
        let cur = v@.subrange(lo as int, hi as int);
        // present digits at this depth are at least `min`, so bucket 0 holds
        // exhausted keys only
        assert forall|i: int| 0 <= i < n implies (k(#[trigger] r0[i]).len() > dd ==> mm <= k(
            r0[i],
        )[dd]) by {
            assert(r0[i] == old(v)@[lo + i]);
        }
        crate::count::lemma_pointwise_from_multiset(
            r0,
            cur,
            |t: T| k(t).len() > dd ==> mm <= k(t)[dd],
        );
        assert forall|p: int, q: int| 0 <= p < q < n implies elem_le(k)(
            #[trigger] cur[p],
            #[trigger] cur[q],
        ) by {
            let bp = bkt_of(k(cur[p]), dd, mm);
            let bq = bkt_of(k(cur[q]), dd, mm);
            assert(elem_pre_ok(k, dd, pre)(cur[p]));
            assert(elem_pre_ok(k, dd, pre)(cur[q]));
            assert((|t: T| k(t).len() > dd ==> mm <= k(t)[dd])(cur[p]));
            assert((|t: T| k(t).len() > dd ==> mm <= k(t)[dd])(cur[q]));
            assert(0 <= bp < nb && 0 <= bq < nb) by {
                assert(cur[p] == v@[lo + p] && cur[q] == v@[lo + q]);
                crate::count::lemma_pointwise_from_multiset(
                    r0,
                    cur,
                    |t: T| 0 <= bkt_of(k(t), dd, mm) < nb,
                );
            }
            // each element sits inside its own bucket's range
            assert(class_in(cur, k, dd, mm, off@[bp] as int, bend(off@, n as int, bp), bp));
            assert(class_in(cur, k, dd, mm, off@[bq] as int, bend(off@, n as int, bq), bq));
            if p < off@[bp] || p >= bend(off@, n as int, bp) {
                lemma_no_stray(
                    cur,
                    r0,
                    k,
                    dd,
                    mm,
                    off@[bp] as int,
                    bend(off@, n as int, bp),
                    p,
                    bp,
                );
            }
            if q < off@[bq] || q >= bend(off@, n as int, bq) {
                lemma_no_stray(
                    cur,
                    r0,
                    k,
                    dd,
                    mm,
                    off@[bq] as int,
                    bend(off@, n as int, bq),
                    q,
                    bq,
                );
            }
            assert(off@[bp] <= p < bend(off@, n as int, bp));
            assert(off@[bq] <= q < bend(off@, n as int, bq));
            if bp > bq {
                crate::count::lemma_cnt_mono(
                    r0,
                    below_bkt(k, dd, mm, bq + 1),
                    below_bkt(k, dd, mm, bp),
                );
                assert(bend(off@, n as int, bq) <= off@[bp]);
                assert(false);
            }
            if bp == bq {
                if bp == 0 {
                    assert(k(cur[p]) =~= k(cur[p]).take(dd));
                    assert(k(cur[q]) =~= k(cur[q]).take(dd));
                    lemma_key_le_reflexive(pre);
                } else {
                    assert(sorted_range(cur, k, off@[bp] as int, bend(off@, n as int, bp)));
                }
            } else {
                // bp < bq, so bq holds a present digit
                assert(k(cur[q]).len() > dd);
                assert(k(cur[q])[dd] == mm + bq - 1);
                if bp == 0 {
                    assert(k(cur[p]) =~= k(cur[p]).take(dd));
                    lemma_key_le_exhausted(k(cur[p]), k(cur[q]), dd);
                } else {
                    assert(k(cur[p]).len() > dd);
                    assert(k(cur[p])[dd] == mm + bp - 1);
                    lemma_key_le_byte_lt(k(cur[p]), k(cur[q]), dd);
                }
            }
        }
        assert(sorted_by(cur, elem_le(k)));
    }
}

/// A digit function, a fallback sorter, and an input fit together when one
/// key assignment explains them all: the extraction reads that key one byte
/// at a time, the fallback sorts ranges by that key, and the input's keys
/// fit the machine.
pub open spec fn sorter_setup_ok<
    T,
    S: Fn(&T, usize) -> Option<u8>,
    C: Fn(Vec<T>, usize, usize) -> Vec<T>,
>(f: S, c: C, s: Seq<T>, k: spec_fn(T) -> Seq<u8>) -> bool {
    &&& digit_fn_ok(f, k)
    &&& fallback_ok(c, k)
    &&& forall|i: int| 0 <= i < s.len() ==> key_fits(k, #[trigger] s[i])
}

/// Sort `vec` in place by the keys that the digit function `by_digit` reads,
/// using the byte-wise bucket-partitioning engine; working sets of at most
/// `FALLBACK_THRESHOLD` elements are handed to the caller-supplied
/// `sort_remaining`, and a working set whose keys are all exhausted holds
/// only equal keys and is left as it is.
///
/// `by_digit` must be a pure, depth-consistent extraction: callable on every
/// element and depth, and answering as `digit_of` of one key per element.
/// `sort_remaining` must sort a range of the vector by those same keys.
pub fn sort_unstable_by_digit<
    T,
    S: Fn(&T, usize) -> Option<u8>,
    C: Fn(Vec<T>, usize, usize) -> Vec<T>,
>(vec: &mut Vec<T>, by_digit: S, sort_remaining: C)
    requires
        exists|k: spec_fn(T) -> Seq<u8>|
            #[trigger] sorter_setup_ok(by_digit, sort_remaining, old(vec)@, k),
    ensures
        final(vec)@.to_multiset() == old(vec)@.to_multiset(),
        exists|k: spec_fn(T) -> Seq<u8>|
            #[trigger] sorter_setup_ok(by_digit, sort_remaining, old(vec)@, k) && sorted_by(
                final(vec)@,
                elem_le(k),
            ),
{
    let ghost k = choose|k: spec_fn(T) -> Seq<u8>|
        #[trigger] sorter_setup_ok(by_digit, sort_remaining, old(vec)@, k);
    proof {
        assert(sorter_setup_ok(by_digit, sort_remaining, old(vec)@, k));
        assert forall|i: int| 0 <= i < vec@.len() implies elem_pre_ok(k, 0, Seq::<u8>::empty())(
            #[trigger] vec@[i],
        ) by {
            assert(k(vec@[i]).take(0) =~= Seq::<u8>::empty());
        }
    }
    let hi = vec.len();
    sort_req(vec, 0, hi, &by_digit, &sort_remaining, 0, Ghost(k), Ghost(Seq::empty()));
    proof {
        assert(vec@.subrange(0, vec@.len() as int) =~= vec@);
        assert(old(vec)@.subrange(0, old(vec)@.len() as int) =~= old(vec)@);
    }
}

/// The key that the projection `f` assigns to an element: the key bytes of
/// what `f` returns for it.
pub open spec fn projected_key<T, O: DigitAt + ?Sized, S: Fn(&T) -> &O>(f: S) -> spec_fn(T) -> Seq<
    u8,
> {
    |t: T| (choose|o: &O| call_ensures(f, (&t,), o)).key_bytes()
}

/// Sort `vec` in place by a caller-supplied projection of each element onto
/// a key-carrying value (for instance, a tuple onto its first field).
///
/// The projection must be callable on every element, and every value it can
/// return for an element must carry that element's one key.
pub fn sort_unstable_by<T, O: DigitAt + ?Sized, S: Fn(&T) -> &O>(vec: &mut Vec<T>, sort_by: S)
    requires
        forall|t: &T| #[trigger] call_requires(sort_by, (t,)),
        forall|t: &T, o: &O|
            #[trigger] call_ensures(sort_by, (t,), o) ==> o.key_bytes() == projected_key(sort_by)(
                *t,
            ),
        forall|i: int|
            0 <= i < old(vec).len() ==> key_fits(projected_key(sort_by), #[trigger] old(vec)@[i]),
    ensures
        final(vec)@.to_multiset() == old(vec)@.to_multiset(),
        sorted_by(final(vec)@, elem_le(projected_key(sort_by))),
{
    let ghost k = projected_key(sort_by);
    let sb = &sort_by;
    let by_digit = |t: &T, d: usize| -> (r: Option<u8>)
        ensures
            r == digit_of(k(*t), d as int),
        {
            let o = (*sb)(t);
            o.get_digit_at(d)
        };
    let bd = &by_digit;
    let gk: Ghost<spec_fn(T) -> Seq<u8>> = Ghost(k);
    let fb = |x: Vec<T>, a: usize, b: usize| -> (y: Vec<T>)
        requires
            a <= b <= x@.len(),
            forall|i: int| a <= i < b ==> key_fits(gk@, #[trigger] x@[i]),
        ensures
            fallback_post(x@, y@, a as int, b as int, gk@),
        {
            let mut inner = x;
            insertion_sort(&mut inner, a, b, bd, Ghost(gk@));
            inner
        };
    proof {
        assert(digit_fn_ok(by_digit, k));
        assert(fallback_ok(fb, k));
        assert forall|i: int| 0 <= i < vec@.len() implies elem_pre_ok(k, 0, Seq::<u8>::empty())(
            #[trigger] vec@[i],
        ) by {
            assert(k(vec@[i]).take(0) =~= Seq::<u8>::empty());
        }
    }
    let hi = vec.len();
    sort_req(vec, 0, hi, &by_digit, &fb, 0, Ghost(k), Ghost(Seq::empty()));
    proof {
        assert(vec@.subrange(0, vec@.len() as int) =~= vec@);
        assert(old(vec)@.subrange(0, old(vec)@.len() as int) =~= old(vec)@);
    }
}

/// Enhances collections of `DigitAt` implementors with an in-place,
/// unstable, byte-wise bucket-partitioning sort.
pub trait AFSortable {
    /// The element type being sorted.
    type Elem: DigitAt;

    /// The elements, in their current order.
    spec fn view_elems(&self) -> Seq<Self::Elem>;

    /// Sort the elements in place so that their keys are byte-
    /// lexicographically non-decreasing; the multiset of elements is kept.
    fn af_sort_unstable(&mut self)
        requires
            forall|i: int|
                0 <= i < old(self).view_elems().len() ==> (#[trigger] old(
                    self,
                ).view_elems()[i]).key_bytes().len() <= usize::MAX,
        ensures
            final(self).view_elems().to_multiset() == old(self).view_elems().to_multiset(),
            sorted_by(final(self).view_elems(), elem_le(|e: Self::Elem| e.key_bytes())),
    ;
}

impl<T: DigitAt> AFSortable for Vec<T> {
    type Elem = T;

    open spec fn view_elems(&self) -> Seq<T> {
        self@
    }

    fn af_sort_unstable(&mut self) {
        let ghost k = |t: T| t.key_bytes();
        let by_digit = |t: &T, d: usize| -> (r: Option<u8>)
            ensures
                r == digit_of(t.key_bytes(), d as int),
            { t.get_digit_at(d) };
        let bd = &by_digit;
        let gk: Ghost<spec_fn(T) -> Seq<u8>> = Ghost(k);
        let fb = |x: Vec<T>, a: usize, b: usize| -> (y: Vec<T>)
            requires
                a <= b <= x@.len(),
                forall|i: int| a <= i < b ==> key_fits(gk@, #[trigger] x@[i]),
            ensures
                fallback_post(x@, y@, a as int, b as int, gk@),
            {
                let mut inner = x;
                insertion_sort(&mut inner, a, b, bd, Ghost(gk@));
                inner
            };
        proof {
            assert(digit_fn_ok(by_digit, k));
            assert(fallback_ok(fb, k));
            assert forall|i: int| 0 <= i < self@.len() implies elem_pre_ok(
                k,
                0,
                Seq::<u8>::empty(),
            )(#[trigger] self@[i]) by {
                assert(old(self).view_elems()[i] == self@[i]);
                assert(k(self@[i]).take(0) =~= Seq::<u8>::empty());
            }
        }
        let hi = self.len();
        sort_req(self, 0, hi, &by_digit, &fb, 0, Ghost(k), Ghost(Seq::empty()));
        proof {
            assert(self@.subrange(0, self@.len() as int) =~= self@);
            assert(old(self)@.subrange(0, old(self)@.len() as int) =~= old(self)@);
        }
    }
}

} // verus!
