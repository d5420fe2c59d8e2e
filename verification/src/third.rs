//! Bitonic sort by a comparator, with the length checked.
use vstd::prelude::*;
use vstd::std_specs::cmp::OrdSpec;
use std::cmp::Ordering;
use crate::SortOrder;
use crate::bitonic::{
    bitonic,
    first_half,
    kept_or_exchanged,
    lemma_join_sorted,
    lemma_pairwise_permutes,
    lemma_pass_splits,
    lemma_rise_then_fall,
    lemma_short,
    pass_of,
    second_half,
};
use crate::comparator::{
    callable_on,
    lemma_callable_on_rearranged,
    consistent,
    decides,
    lemma_natural_order,
    natural_le,
    never_greater,
    reversed,
};
use crate::message::{length_error, length_error_text};
use crate::order::{
    in_order,
    lemma_half_of_power,
    lemma_sorted_arrangement_unique,
    power_of_two,
    sorted,
    ties_are_equal,
    total_preorder,
};

verus! {

/// The answer of the comparator on which a pass exchanges a pair: `Greater`
/// when sorting forward, `Less` when sorting backward.
pub open spec fn swap_cue(forward: bool) -> Ordering {
    if forward {
        Ordering::Greater
    } else {
        Ordering::Less
    }
}

/// Places `i` and `j` of `t` hold what a pass makes of those places of `s`:
/// exchanged, and `f` gave the cue; or as they were, and `f` gave another
/// answer.
pub open spec fn pair_by<T, F: Fn(&T, &T) -> Ordering>(
    s: Seq<T>,
    t: Seq<T>,
    i: int,
    j: int,
    forward: bool,
    f: &F,
) -> bool {
    ||| (t[i] == s[j] && t[j] == s[i] && call_ensures(f, (&s[i], &s[j]), swap_cue(forward)))
    ||| (t[i] == s[i] && t[j] == s[j] && exists|o: Ordering|
        o != swap_cue(forward) && #[trigger] call_ensures(f, (&s[i], &s[j]), o))
}

/// `t` is `s` after one compare-and-swap pass by `f`. A last element without
/// a partner stays.
pub open spec fn pass_by<T, F: Fn(&T, &T) -> Ordering>(
    s: Seq<T>,
    t: Seq<T>,
    forward: bool,
    f: &F,
) -> bool {
    let m = s.len() / 2;
    &&& t.len() == s.len()
    &&& forall|i: int| 0 <= i < m ==> #[trigger] pair_by(s, t, i, i + m, forward, f)
    &&& forall|i: int| 2 * m <= i < s.len() ==> #[trigger] t[i] == s[i]
}

/// A pass keeps the elements, whatever the comparator answers.
pub proof fn lemma_pass_by_permutes<T, F: Fn(&T, &T) -> Ordering>(
    s: Seq<T>,
    t: Seq<T>,
    forward: bool,
    f: &F,
)
    requires
        pass_by(s, t, forward, f),
    ensures
        t.to_multiset() == s.to_multiset(),
{
    let m = s.len() / 2;
    assert forall|i: int| 0 <= i < m implies #[trigger] kept_or_exchanged(s, t, i, i + m) by {
        assert(pair_by(s, t, i, i + m, forward, f));
    }
    lemma_pairwise_permutes(s, t);
}

/// A pass by a comparator that decides a total preorder leaves each pair in
/// that order.
pub proof fn lemma_pass_by_orders<T, F: Fn(&T, &T) -> Ordering>(
    s: Seq<T>,
    t: Seq<T>,
    forward: bool,
    f: &F,
    le: spec_fn(T, T) -> bool,
)
    requires
        pass_by(s, t, forward, f),
        total_preorder(le),
        decides(f, le),
    ensures
        pass_of(s, t, le, forward),
{
    let m = s.len() / 2;
    assert forall|i: int| 0 <= i < m implies #[trigger] kept_or_exchanged(s, t, i, i + m)
        && in_order(le, forward, t[i], t[i + m]) by {
        assert(pair_by(s, t, i, i + m, forward, f));
        assert(le(s[i], s[i + m]) || le(s[i + m], s[i]));
    }
}

/// Sorts `x` in place by the natural order of `T`, in the direction `order`.
///
/// Slices whose length is not a power of two are refused and left as they
/// are; the error names the length. Otherwise the elements are rearranged,
/// none added or lost. Where `Ord` keeps its laws for `T`, the result is
/// sorted, and a sorted slice whose ties are equal values is left as it is.
pub fn sort<T: Ord>(x: &mut [T], order: &SortOrder) -> (r: Result<(), String>)
    ensures
        r is Ok <==> power_of_two(old(x)@.len()),
        r is Err ==> final(x)@ == old(x)@ && r->Err_0@ == length_error_text(old(x)@.len()),
        final(x)@.to_multiset() == old(x)@.to_multiset(),
        final(x)@.len() == old(x)@.len(),
        r is Ok && vstd::laws_cmp::obeys_cmp::<T>() ==> sorted(
            final(x)@,
            natural_le::<T>(),
            order is Ascending,
        ),
        r is Ok && vstd::laws_cmp::obeys_cmp::<T>() && sorted(
            old(x)@,
            natural_le::<T>(),
            order is Ascending,
        ) && ties_are_equal(old(x)@, natural_le::<T>()) ==> final(x)@ == old(x)@,
{
    let r = match *order {
        SortOrder::Ascending => {
            let ascending = |a: &T, b: &T| -> (o: Ordering)
                ensures
                    T::obeys_cmp_spec() ==> o == a.cmp_spec(b),
                { a.cmp(b) };
            proof {
                if vstd::laws_cmp::obeys_cmp::<T>() {
                    lemma_natural_order::<T>();
                    assert(decides(&ascending, natural_le::<T>()));
                }
            }
            sort_by(x, &ascending)
        },
        SortOrder::Descending => {
            let descending = |a: &T, b: &T| -> (o: Ordering)
                ensures
                    T::obeys_cmp_spec() ==> o == b.cmp_spec(a),
                { b.cmp(a) };
            proof {
                if vstd::laws_cmp::obeys_cmp::<T>() {
                    lemma_natural_order::<T>();
                    assert(decides(&descending, reversed(natural_le::<T>())));
                }
            }
            sort_by(x, &descending)
        },
    };
    proof {
        if r is Ok && vstd::laws_cmp::obeys_cmp::<T>() {
            lemma_natural_order::<T>();
            let up = order is Ascending;
            if !up {
                assert(sorted(x@, reversed(natural_le::<T>()), true));
            }
            assert(sorted(x@, natural_le::<T>(), up));
            if sorted(old(x)@, natural_le::<T>(), up) && ties_are_equal(
                old(x)@,
                natural_le::<T>(),
            ) {
                lemma_sorted_arrangement_unique(old(x)@, x@, natural_le::<T>(), up);
            }
        }
    }
    r
}

/// Sorts `x` in place so that `comparator` finds no element greater than a
/// later one.
///
/// Slices whose length is not a power of two are refused and left as they
/// are; the error names the length. Otherwise the elements are rearranged,
/// none added or lost, and the result is sorted by every total preorder that
/// `comparator` decides. A slice sorted by such an order, whose ties are
/// equal values, is left as it is. Of a comparator that follows no total
/// preorder, nothing more is promised than that the elements are kept.
///
/// `comparator` is called on pairs of elements of `x` only, and a caller has
/// to allow no other.
pub fn sort_by<T, F>(x: &mut [T], comparator: &F) -> (r: Result<(), String>) where
    F: Fn(&T, &T) -> Ordering,

    requires
        callable_on(comparator, old(x)@),
    ensures
        r is Ok <==> power_of_two(old(x)@.len()),
        r is Err ==> final(x)@ == old(x)@ && r->Err_0@ == length_error_text(old(x)@.len()),
        final(x)@.to_multiset() == old(x)@.to_multiset(),
        final(x)@.len() == old(x)@.len(),
        r is Ok ==> forall|le: spec_fn(T, T) -> bool| #[trigger]
            decides(comparator, le) && total_preorder(le) ==> sorted(final(x)@, le, true),
        r is Ok ==> forall|le: spec_fn(T, T) -> bool| #[trigger]
            decides(comparator, le) && total_preorder(le) && sorted(old(x)@, le, true)
                && ties_are_equal(old(x)@, le) ==> final(x)@ == old(x)@,
        r is Ok && consistent(comparator) ==> forall|i: int, j: int|
            0 <= i < j < final(x)@.len() ==> never_greater(
                comparator,
                #[trigger] final(x)@[i],
                #[trigger] final(x)@[j],
            ),
{
    if x.len().is_power_of_two() {
        do_sort(x, true, comparator);
        proof {
            assert forall|le: spec_fn(T, T) -> bool| #[trigger]
                decides(comparator, le) && total_preorder(le) && sorted(old(x)@, le, true)
                    && ties_are_equal(old(x)@, le) implies x@ == old(x)@ by {
                lemma_sorted_arrangement_unique(old(x)@, x@, le, true);
            }
            if consistent(comparator) {
                let le = choose|le: spec_fn(T, T) -> bool| #[trigger]
                    decides(comparator, le) && total_preorder(le);
                assert forall|i: int, j: int| 0 <= i < j < x@.len() implies never_greater(
                    comparator,
                    #[trigger] x@[i],
                    #[trigger] x@[j],
                ) by {
                    assert(in_order(le, true, x@[i], x@[j]));
                }
            }
        }
        Ok(())
    } else {
        Err(length_error(x.len()))
    }
}

/// Sorts `x` in place, forward by `comparator` or backward.
///
/// The elements are rearranged, none added or lost. Where the length is a
/// power of two, the result is sorted by every total preorder that
/// `comparator` decides.
pub fn do_sort<T, F>(x: &mut [T], forward: bool, comparator: &F) where F: Fn(&T, &T) -> Ordering
    requires
        callable_on(comparator, old(x)@),
    ensures
        final(x)@.to_multiset() == old(x)@.to_multiset(),
        final(x)@.len() == old(x)@.len(),
        forall|le: spec_fn(T, T) -> bool| #[trigger]
            decides(comparator, le) && total_preorder(le) && power_of_two(old(x)@.len())
                ==> sorted(final(x)@, le, forward),
    decreases old(x)@.len(),
{
    if x.len() > 1 {
        let mid_point: usize = x.len() / 2;
        proof {
            lemma_callable_on_rearranged(comparator, x@, x@);
        }
        let (lo, hi) = x.split_at_mut(mid_point);
        let ghost lo_was = lo@;
        let ghost hi_was = hi@;
        do_sort(lo, true, comparator);
        do_sort(hi, false, comparator);
        let ghost halves = lo@ + hi@;
        proof {
            vstd::seq_lib::lemma_multiset_commutative(lo@, hi@);
            vstd::seq_lib::lemma_multiset_commutative(lo_was, hi_was);
            assert(old(x)@ =~= lo_was + hi_was);
            lemma_callable_on_rearranged(comparator, old(x)@, halves);
            assert forall|le: spec_fn(T, T) -> bool| #[trigger]
                decides(comparator, le) && total_preorder(le) && power_of_two(
                    old(x)@.len(),
                ) implies bitonic(halves, le) by {
                lemma_half_of_power(old(x)@.len());
                lemma_rise_then_fall(lo@, hi@, le);
            }
        }
        sub_sort(x, forward, comparator);
    } else {
        proof {
            assert forall|le: spec_fn(T, T) -> bool| #[trigger]
                decides(comparator, le) implies sorted(x@, le, forward) by {
                lemma_short(x@, le, forward);
            }
        }
    }
}

/// Merges a bitonic `x` into a sorted one, forward by `comparator` or
/// backward.
///
/// The elements are rearranged, none added or lost. Where the length is a
/// power of two, the result is sorted by every total preorder that
/// `comparator` decides and by which `x` was bitonic.
pub fn sub_sort<T, F>(x: &mut [T], forward: bool, comparator: &F) where F: Fn(&T, &T) -> Ordering
    requires
        callable_on(comparator, old(x)@),
    ensures
        final(x)@.to_multiset() == old(x)@.to_multiset(),
        final(x)@.len() == old(x)@.len(),
        forall|le: spec_fn(T, T) -> bool| #[trigger]
            decides(comparator, le) && total_preorder(le) && power_of_two(old(x)@.len())
                && bitonic(old(x)@, le) ==> sorted(final(x)@, le, forward),
    decreases old(x)@.len(),
{
    if x.len() > 1 {
        compare_and_swap(x, forward, comparator);
        let ghost passed = x@;
        proof {
            lemma_pass_by_permutes(old(x)@, passed, forward, comparator);
            lemma_callable_on_rearranged(comparator, old(x)@, passed);
        }
        let mid_point: usize = x.len() / 2;
        let (lo, hi) = x.split_at_mut(mid_point);
        sub_sort(lo, forward, comparator);
        sub_sort(hi, forward, comparator);
        proof {
            vstd::seq_lib::lemma_multiset_commutative(lo@, hi@);
            vstd::seq_lib::lemma_multiset_commutative(first_half(passed), second_half(passed));
            assert(passed =~= first_half(passed) + second_half(passed));
            assert forall|le: spec_fn(T, T) -> bool| #[trigger]
                decides(comparator, le) && total_preorder(le) && power_of_two(old(x)@.len())
                    && bitonic(old(x)@, le) implies sorted(lo@ + hi@, le, forward) by {
                lemma_pass_by_orders(old(x)@, passed, forward, comparator, le);
                lemma_half_of_power(old(x)@.len());
                lemma_pass_splits(old(x)@, passed, le, forward);
                lemma_join_sorted(lo@, hi@, first_half(passed), second_half(passed), le, forward);
            }
        }
    } else {
        proof {
            assert forall|le: spec_fn(T, T) -> bool| #[trigger]
                decides(comparator, le) implies sorted(x@, le, forward) by {
                lemma_short(x@, le, forward);
            }
        }
    }
}

/// Compares each element of the first half of `x` with its partner in the
/// second and exchanges the two where `comparator` gives the cue.
pub fn compare_and_swap<T, F>(x: &mut [T], forward: bool, comparator: &F) where
    F: Fn(&T, &T) -> Ordering,

    requires
        callable_on(comparator, old(x)@),
    ensures
        pass_by(old(x)@, final(x)@, forward, comparator),
{
    let mid_point: usize = x.len() / 2;
    let mut i: usize = 0;
    while i < mid_point
        invariant
            i <= mid_point,
            mid_point == old(x)@.len() / 2,
            x@.len() == old(x)@.len(),
            callable_on(comparator, old(x)@),
            forall|k: int|
                0 <= k < i ==> #[trigger] pair_by(
                    old(x)@,
                    x@,
                    k,
                    k + mid_point,
                    forward,
                    comparator,
                ),
            forall|k: int|
                0 <= k < x@.len() && !(k < i || mid_point <= k < mid_point + i) ==> #[trigger] x@[k]
                    == old(x)@[k],
        decreases mid_point - i,
    {
        let ghost before = x@;
        let exchange = match comparator(&x[i], &x[mid_point + i]) {
            Ordering::Greater => forward,
            Ordering::Less => !forward,
            Ordering::Equal => false,
        };
        if exchange {
            x.swap(i, mid_point + i);
        }
        proof {
            assert forall|k: int| 0 <= k < i + 1 implies #[trigger] pair_by(
                old(x)@,
                x@,
                k,
                k + mid_point,
                forward,
                comparator,
            ) by {
                if k < i {
                    assert(pair_by(old(x)@, before, k, k + mid_point, forward, comparator));
                }
            }
        }
        i += 1;
    }
}

} // verus!
