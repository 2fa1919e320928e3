//! The order that the sort establishes: byte-lexicographic comparison of
//! keys, where a key is a sequence of bytes and a key that is a strict
//! prefix of another sorts before it.

use vstd::prelude::*;

verus! {

/// The digit of key `k` at depth `d`: the byte at position `d`, or `None`
/// when the key is exhausted (shorter than `d + 1`).
pub open spec fn digit_of(k: Seq<u8>, d: int) -> Option<u8> {
    if 0 <= d < k.len() {
        Some(k[d])
    } else {
        None
    }
}

/// Byte-lexicographic "less than or equal" on keys. An exhausted key sorts
/// before any key that still has bytes, so a strict prefix sorts first.
pub open spec fn key_le(a: Seq<u8>, b: Seq<u8>) -> bool
    decreases a.len(),
{
    if a.len() == 0 {
        true
    } else if b.len() == 0 {
        false
    } else if a.first() < b.first() {
        true
    } else if a.first() > b.first() {
        false
    } else {
        key_le(a.drop_first(), b.drop_first())
    }
}

/// The element order induced by a key function: compare the keys.
pub open spec fn elem_le<T>(k: spec_fn(T) -> Seq<u8>) -> spec_fn(T, T) -> bool {
    |a: T, b: T| key_le(k(a), k(b))
}

pub proof fn lemma_key_le_reflexive(a: Seq<u8>)
    ensures
        key_le(a, a),
    decreases a.len(),
{
    if a.len() > 0 {
        lemma_key_le_reflexive(a.drop_first());
    }
}

pub proof fn lemma_key_le_total(a: Seq<u8>, b: Seq<u8>)
    ensures
        key_le(a, b) || key_le(b, a),
    decreases a.len(),
{
    if a.len() > 0 && b.len() > 0 && a.first() == b.first() {
        lemma_key_le_total(a.drop_first(), b.drop_first());
    }
}

pub proof fn lemma_key_le_antisymmetric(a: Seq<u8>, b: Seq<u8>)
    requires
        key_le(a, b),
        key_le(b, a),
    ensures
        a == b,
    decreases a.len(),
{
    if a.len() == 0 {
        assert(b.len() == 0);
        assert(a =~= b);
    } else {
        lemma_key_le_antisymmetric(a.drop_first(), b.drop_first());
        assert(a =~= b) by {
            assert(a.drop_first().len() == b.drop_first().len());
            assert(a.len() == b.len());
            assert(forall|i: int|
                0 < i < a.len() ==> a[i] == a.drop_first()[i - 1] && b[i] == b.drop_first()[i
                    - 1]);
        }
    }
}

pub proof fn lemma_key_le_transitive(a: Seq<u8>, b: Seq<u8>, c: Seq<u8>)
    requires
        key_le(a, b),
        key_le(b, c),
    ensures
        key_le(a, c),
    decreases a.len(),
{
    if a.len() > 0 && b.len() > 0 && c.len() > 0 && a.first() == b.first() && b.first()
        == c.first() {
        lemma_key_le_transitive(a.drop_first(), b.drop_first(), c.drop_first());
    }
}

/// Comparing two keys that agree on their first `d` bytes comes down to
/// comparing what is left of each after those `d` bytes.
pub proof fn lemma_key_le_skip(a: Seq<u8>, b: Seq<u8>, d: int)
    requires
        0 <= d <= a.len(),
        d <= b.len(),
        a.take(d) == b.take(d),
    ensures
        key_le(a, b) <==> key_le(a.skip(d), b.skip(d)),
    decreases d,
{
    if d == 0 {
        assert(a.skip(0) =~= a);
        assert(b.skip(0) =~= b);
    } else {
        assert(a.first() == b.first()) by {
            assert(a.take(d)[0] == a[0]);
            assert(b.take(d)[0] == b[0]);
        }
        assert(a.drop_first().take(d - 1) =~= a.take(d).drop_first());
        assert(b.drop_first().take(d - 1) =~= b.take(d).drop_first());
        lemma_key_le_skip(a.drop_first(), b.drop_first(), d - 1);
        assert(a.drop_first().skip(d - 1) =~= a.skip(d));
        assert(b.drop_first().skip(d - 1) =~= b.skip(d));
    }
}

/// A key exhausted at depth `d` sorts before any key that agrees with it on
/// the first `d` bytes; when the other key is exhausted there too, the two
/// keys are equal.
pub proof fn lemma_key_le_exhausted(a: Seq<u8>, b: Seq<u8>, d: int)
    requires
        0 <= d,
        a.len() == d,
        d <= b.len(),
        a.take(d) == b.take(d),
    ensures
        key_le(a, b),
        b.len() > d ==> !key_le(b, a),
        b.len() == d ==> a == b,
    decreases d,
{
    lemma_key_le_skip(a, b, d);
    lemma_key_le_skip(b, a, d);
    assert(a.skip(d).len() == 0);
    if b.len() == d {
        assert(a =~= b) by {
            assert(forall|i: int| 0 <= i < d ==> a[i] == a.take(d)[i] && b[i] == b.take(d)[i]);
        }
    }
}

/// When two keys agree on their first `d` bytes and both have a byte at
/// depth `d`, the smaller byte there decides the order.
pub proof fn lemma_key_le_byte_lt(a: Seq<u8>, b: Seq<u8>, d: int)
    requires
        0 <= d < a.len(),
        d < b.len(),
        a.take(d) == b.take(d),
        a[d] < b[d],
    ensures
        key_le(a, b),
        !key_le(b, a),
{
    lemma_key_le_skip(a, b, d);
    lemma_key_le_skip(b, a, d);
    assert(a.skip(d).first() == a[d]);
    assert(b.skip(d).first() == b[d]);
}

} // verus!
