//! Bitonic sort of any type by its natural order.
use vstd::prelude::*;
use vstd::std_specs::cmp::{OrdSpec, PartialOrdSpec};
use std::cmp::Ordering;
use crate::bitonic::{
    bitonic,
    first_half,
    kept_or_exchanged,
    lemma_join_sorted,
    lemma_pairwise_permutes,
    lemma_pass_splits,
    lemma_rise_then_fall,
    lemma_short,
    pass_of,
    second_half,
};
use crate::comparator::{lemma_natural_order, natural_le};
use crate::order::{
    in_order,
    lemma_half_of_power,
    lemma_sorted_arrangement_unique,
    power_of_two,
    sorted,
    ties_are_equal,
};

verus! {

/// What `a > b` means for `T`.
pub open spec fn exceeds<T: Ord>(a: T, b: T) -> bool {
    a.partial_cmp_spec(&b) == Some(Ordering::Greater)
}

/// Places `i` and `j` of `t` hold what a pass toward `up` makes of those
/// places of `s`: the same two values; and where `>` is answered by its
/// specification, exchanged exactly if the first exceeded the second (`up`) or
/// did not (`!up`).
pub open spec fn pair_natural<T: Ord>(s: Seq<T>, t: Seq<T>, i: int, j: int, up: bool) -> bool {
    &&& kept_or_exchanged(s, t, i, j)
    &&& T::obeys_partial_cmp_spec() ==> if exceeds(s[i], s[j]) == up {
        t[i] == s[j] && t[j] == s[i]
    } else {
        t[i] == s[i] && t[j] == s[j]
    }
}

/// `t` is `s` after one compare-and-swap pass toward `up`. A last element
/// without a partner stays.
pub open spec fn pass_natural<T: Ord>(s: Seq<T>, t: Seq<T>, up: bool) -> bool {
    let m = s.len() / 2;
    &&& t.len() == s.len()
    &&& forall|i: int| 0 <= i < m ==> #[trigger] pair_natural(s, t, i, i + m, up)
    &&& forall|i: int| 2 * m <= i < s.len() ==> #[trigger] t[i] == s[i]
}

/// A pass keeps the elements, whatever `>` answers.
pub proof fn lemma_pass_natural_permutes<T: Ord>(s: Seq<T>, t: Seq<T>, up: bool)
    requires
        pass_natural(s, t, up),
    ensures
        t.to_multiset() == s.to_multiset(),
{
    let m = s.len() / 2;
    assert forall|i: int| 0 <= i < m implies #[trigger] kept_or_exchanged(s, t, i, i + m) by {
        assert(pair_natural(s, t, i, i + m, up));
    }
    lemma_pairwise_permutes(s, t);
}

/// Where `Ord` keeps its laws for `T`, a pass leaves each pair in the natural
/// order.
pub proof fn lemma_pass_natural_orders<T: Ord>(s: Seq<T>, t: Seq<T>, up: bool)
    requires
        pass_natural(s, t, up),
        vstd::laws_cmp::obeys_cmp::<T>(),
    ensures
        pass_of(s, t, natural_le::<T>(), up),
{
    let m = s.len() / 2;
    lemma_natural_order::<T>();
    let le = natural_le::<T>();
    assert forall|i: int| 0 <= i < m implies #[trigger] kept_or_exchanged(s, t, i, i + m)
        && in_order(le, up, t[i], t[i + m]) by {
        assert(pair_natural(s, t, i, i + m, up));
        assert(s[i].partial_cmp_spec(&s[i + m]) == Some(s[i].cmp_spec(&s[i + m])));
        assert(le(s[i], s[i + m]) || le(s[i + m], s[i]));
    }
}

/// Sorts `x` in place by the natural order of `T`, upward if `up` and
/// downward if not.
///
/// The elements are rearranged, none added or lost, whatever the length.
/// Where `Ord` keeps its laws for `T` and the length is a power of two (or
/// zero), the result is sorted, and a sorted slice whose ties are equal values
/// is left as it is.
pub fn sort<T: Ord>(x: &mut [T], up: bool)
    ensures
        final(x)@.to_multiset() == old(x)@.to_multiset(),
        final(x)@.len() == old(x)@.len(),
        vstd::laws_cmp::obeys_cmp::<T>() && (old(x)@.len() == 0 || power_of_two(old(x)@.len()))
            ==> sorted(final(x)@, natural_le::<T>(), up),
        vstd::laws_cmp::obeys_cmp::<T>() && (old(x)@.len() == 0 || power_of_two(old(x)@.len()))
            && sorted(old(x)@, natural_le::<T>(), up) && ties_are_equal(
            old(x)@,
            natural_le::<T>(),
        ) ==> final(x)@ == old(x)@,
    decreases old(x)@.len(),
{
    if x.len() > 1 {
        let mid_point: usize = x.len() / 2;
        let (lo, hi) = x.split_at_mut(mid_point);
        let ghost lo_was = lo@;
        let ghost hi_was = hi@;
        sort(lo, true);
        sort(hi, false);
        proof {
            vstd::seq_lib::lemma_multiset_commutative(lo@, hi@);
            vstd::seq_lib::lemma_multiset_commutative(lo_was, hi_was);
            assert(old(x)@ =~= lo_was + hi_was);
            if vstd::laws_cmp::obeys_cmp::<T>() && power_of_two(old(x)@.len()) {
                lemma_half_of_power(old(x)@.len());
                lemma_rise_then_fall(lo@, hi@, natural_le::<T>());
            }
        }
        sub_sort(x, up);
    }
    proof {
        if x@.len() <= 1 {
            lemma_short(x@, natural_le::<T>(), up);
        }
        if vstd::laws_cmp::obeys_cmp::<T>() && (old(x)@.len() == 0 || power_of_two(
            old(x)@.len(),
        )) && sorted(old(x)@, natural_le::<T>(), up) && ties_are_equal(
            old(x)@,
            natural_le::<T>(),
        ) {
            lemma_natural_order::<T>();
            lemma_sorted_arrangement_unique(old(x)@, x@, natural_le::<T>(), up);
        }
    }
}

/// Merges a bitonic `x` into a sorted one, upward if `up` and downward if
/// not.
///
/// The elements are rearranged, none added or lost. Where `Ord` keeps its
/// laws for `T`, the result is sorted when `x` was bitonic and its length a
/// power of two.
pub fn sub_sort<T: Ord>(x: &mut [T], up: bool)
    ensures
        final(x)@.to_multiset() == old(x)@.to_multiset(),
        final(x)@.len() == old(x)@.len(),
        vstd::laws_cmp::obeys_cmp::<T>() && power_of_two(old(x)@.len()) && bitonic(
            old(x)@,
            natural_le::<T>(),
        ) ==> sorted(final(x)@, natural_le::<T>(), up),
    decreases old(x)@.len(),
{
    if x.len() > 1 {
        compare_and_swap(x, up);
        let ghost passed = x@;
        let mid_point: usize = x.len() / 2;
        let (lo, hi) = x.split_at_mut(mid_point);
        sub_sort(lo, up);
        sub_sort(hi, up);
        proof {
            lemma_pass_natural_permutes(old(x)@, passed, up);
            vstd::seq_lib::lemma_multiset_commutative(lo@, hi@);
            vstd::seq_lib::lemma_multiset_commutative(first_half(passed), second_half(passed));
            assert(passed =~= first_half(passed) + second_half(passed));
            if vstd::laws_cmp::obeys_cmp::<T>() && power_of_two(old(x)@.len()) && bitonic(
                old(x)@,
                natural_le::<T>(),
            ) {
                lemma_natural_order::<T>();
                lemma_pass_natural_orders(old(x)@, passed, up);
                lemma_half_of_power(old(x)@.len());
                lemma_pass_splits(old(x)@, passed, natural_le::<T>(), up);
                lemma_join_sorted(
                    lo@,
                    hi@,
                    first_half(passed),
                    second_half(passed),
                    natural_le::<T>(),
                    up,
                );
            }
        }
    } else {
        proof {
            lemma_short(x@, natural_le::<T>(), up);
        }
    }
}

/// Compares each element of the first half of `x` with its partner in the
/// second and exchanges the two where they stand against `up`.
pub fn compare_and_swap<T: Ord>(x: &mut [T], up: bool)
    ensures
        pass_natural(old(x)@, final(x)@, up),
{
    let mid_point: usize = x.len() / 2;
    let mut i: usize = 0;
    while i < mid_point
        invariant
            i <= mid_point,
            mid_point == old(x)@.len() / 2,
            x@.len() == old(x)@.len(),
            forall|k: int|
                0 <= k < i ==> #[trigger] pair_natural(old(x)@, x@, k, k + mid_point, up),
            forall|k: int|
                0 <= k < x@.len() && !(k < i || mid_point <= k < mid_point + i) ==> #[trigger] x@[k]
                    == old(x)@[k],
        decreases mid_point - i,
    {
        let ghost before = x@;
        if (x[i] > x[mid_point + i]) == up {
            x.swap(i, mid_point + i);
        }
        proof {
            assert forall|k: int| 0 <= k < i + 1 implies #[trigger] pair_natural(
                old(x)@,
                x@,
                k,
                k + mid_point,
                up,
            ) by {
                if k < i {
                    assert(pair_natural(old(x)@, before, k, k + mid_point, up));
                }
            }
        }
        i += 1;
    }
}

} // verus!
