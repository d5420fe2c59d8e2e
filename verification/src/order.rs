//! Orders on values and what it means for a sequence to be sorted by one.
use vstd::prelude::*;
use vstd::arithmetic::power2::{lemma2_to64, lemma_pow2_pos, lemma_pow2_unfold, pow2};

verus! {

/// `le` relates any two values one way or the other, and is transitive.
/// Distinct values may tie.
pub open spec fn total_preorder<T>(le: spec_fn(T, T) -> bool) -> bool {
    &&& forall|a: T, b: T| #[trigger] le(a, b) || le(b, a)
    &&& forall|a: T, b: T, c: T| #[trigger] le(a, b) && #[trigger] le(b, c) ==> le(a, c)
}

/// `a` may stand before `b` in a sequence that runs upward (`up`) or
/// downward (`!up`) by `le`.
pub open spec fn in_order<T>(le: spec_fn(T, T) -> bool, up: bool, a: T, b: T) -> bool {
    if up {
        le(a, b)
    } else {
        le(b, a)
    }
}

/// Every element of `s` may stand before every later one.
pub open spec fn sorted<T>(s: Seq<T>, le: spec_fn(T, T) -> bool, up: bool) -> bool {
    forall|i: int, j: int|
        0 <= i < j < s.len() ==> in_order(le, up, #[trigger] s[i], #[trigger] s[j])
}

/// Elements of `s` that tie under `le` are the same value.
pub open spec fn ties_are_equal<T>(s: Seq<T>, le: spec_fn(T, T) -> bool) -> bool {
    forall|i: int, j: int|
        0 <= i < s.len() && 0 <= j < s.len() && le(#[trigger] s[i], #[trigger] s[j]) && le(
            s[j],
            s[i],
        ) ==> s[i] == s[j]
}

/// `n` is `2^k` for some `k >= 0`: one of 1, 2, 4, 8, ...
pub open spec fn power_of_two(n: nat) -> bool {
    exists|k: nat| n == #[trigger] pow2(k)
}

/// The natural order of `u32`.
pub open spec fn u32_le() -> spec_fn(u32, u32) -> bool {
    |a: u32, b: u32| a <= b
}

/// Above one, a power of two is even and its half is a power of two.
pub proof fn lemma_half_of_power(n: nat)
    requires
        power_of_two(n),
        n > 1,
    ensures
        n % 2 == 0,
        power_of_two(n / 2),
{
    let k = choose|k: nat| n == #[trigger] pow2(k);
    assert(pow2(0) == 1) by {
        lemma2_to64();
    }
    let j = (k - 1) as nat;
    lemma_pow2_unfold(k);
    assert(n / 2 == pow2(j));
}

/// Zero is no power of two, and one is.
pub proof fn lemma_small_powers()
    ensures
        !power_of_two(0),
        power_of_two(1),
{
    assert forall|k: nat| 0 != #[trigger] pow2(k) by {
        lemma_pow2_pos(k);
    }
    assert(1 == pow2(0)) by {
        lemma2_to64();
    }
}

/// A sorted sequence is the only sorted arrangement of its elements, provided
/// that those of them that tie are equal.
pub proof fn lemma_sorted_arrangement_unique<T>(
    s: Seq<T>,
    t: Seq<T>,
    le: spec_fn(T, T) -> bool,
    up: bool,
)
    requires
        total_preorder(le),
        sorted(s, le, up),
        sorted(t, le, up),
        ties_are_equal(s, le),
        s.to_multiset() == t.to_multiset(),
    ensures
        s == t,
    decreases s.len(),
{
    broadcast use vstd::seq_lib::group_to_multiset_ensures;

    assert(s.len() == s.to_multiset().len() && t.len() == t.to_multiset().len());
    if s.len() > 0 {
        let n = s.len() - 1;
        // The last element of each occurs in the other, so the two tie.
        assert(s.contains(s[n]));
        assert(t.to_multiset().count(s[n]) > 0);
        assert(t.contains(s[n]));
        assert(t.contains(t[n]));
        assert(s.to_multiset().count(t[n]) > 0);
        assert(s.contains(t[n]));
        let i = choose|i: int| 0 <= i < s.len() && s[i] == t[n];
        let j = choose|j: int| 0 <= j < t.len() && t[j] == s[n];
        assert(le(s[n], s[n]));
        if i < n {
            assert(in_order(le, up, s[i], s[n]));
        }
        if j < n {
            assert(in_order(le, up, t[j], t[n]));
        }
        assert(le(s[i], s[n]) && le(s[n], s[i]));
        assert(s[n] == t[n]);
        let s0 = s.remove(n);
        let t0 = t.remove(n);
        assert(s0.to_multiset() == t0.to_multiset());
        assert forall|a: int, b: int| 0 <= a < b < s0.len() implies in_order(
            le,
            up,
            #[trigger] s0[a],
            #[trigger] s0[b],
        ) by {
            assert(in_order(le, up, s[a], s[b]));
        }
        assert forall|a: int, b: int| 0 <= a < b < t0.len() implies in_order(
            le,
            up,
            #[trigger] t0[a],
            #[trigger] t0[b],
        ) by {
            assert(in_order(le, up, t[a], t[b]));
        }
        assert forall|a: int, b: int|
            0 <= a < s0.len() && 0 <= b < s0.len() && le(#[trigger] s0[a], #[trigger] s0[b]) && le(
                s0[b],
                s0[a],
            ) implies s0[a] == s0[b] by {
            assert(s0[a] == s[a] && s0[b] == s[b]);
        }
        lemma_sorted_arrangement_unique(s0, t0, le, up);
        assert(s =~= s0.push(s[n]));
        assert(t =~= t0.push(t[n]));
    }
}

/// The order that goes by `first` and, where `first` ties, by `second`.
pub open spec fn then_by<T>(first: spec_fn(T, T) -> bool, second: spec_fn(T, T) -> bool) -> spec_fn(
    T,
    T,
) -> bool {
    |a: T, b: T| first(a, b) && (first(b, a) ==> second(a, b))
}

/// Two total preorders, one breaking the ties of the other, make a total
/// preorder.
pub proof fn lemma_then_by_total<T>(first: spec_fn(T, T) -> bool, second: spec_fn(T, T) -> bool)
    requires
        total_preorder(first),
        total_preorder(second),
    ensures
        total_preorder(then_by(first, second)),
{
    let both = then_by(first, second);
    assert forall|a: T, b: T| #[trigger] both(a, b) || both(b, a) by {
        assert(first(a, b) || first(b, a));
        assert(second(a, b) || second(b, a));
    }
    assert forall|a: T, b: T, c: T| #[trigger] both(a, b) && #[trigger] both(b, c) implies both(
        a,
        c,
    ) by {
        assert(first(a, b) && first(b, c));
        if first(c, a) {
            assert(first(c, a) && first(a, b));
            assert(first(b, c) && first(c, a));
            assert(second(a, b) && second(b, c));
        }
    }
}

/// A sequence sorted by a two-level order is sorted by the first level, and
/// by the second among elements that tie on the first.
pub proof fn lemma_sorted_then_by<T>(
    s: Seq<T>,
    first: spec_fn(T, T) -> bool,
    second: spec_fn(T, T) -> bool,
    up: bool,
)
    requires
        sorted(s, then_by(first, second), up),
    ensures
        sorted(s, first, up),
        forall|i: int, j: int|
            0 <= i < j < s.len() && first(#[trigger] s[i], #[trigger] s[j]) && first(s[j], s[i])
                ==> in_order(second, up, s[i], s[j]),
{
    let both = then_by(first, second);
    assert forall|i: int, j: int| 0 <= i < j < s.len() implies in_order(
        first,
        up,
        #[trigger] s[i],
        #[trigger] s[j],
    ) && (first(s[i], s[j]) && first(s[j], s[i]) ==> in_order(second, up, s[i], s[j])) by {
        assert(in_order(both, up, s[i], s[j]));
    }
}

} // verus!
