//! Bitonic sort of `u32` values.
use vstd::prelude::*;
use crate::bitonic::{
    bitonic,
    first_half,
    kept_or_exchanged,
    lemma_join_sorted,
    lemma_pass_splits,
    lemma_rise_then_fall,
    lemma_short,
    pass_of,
    second_half,
};
use crate::order::{
    lemma_half_of_power,
    lemma_sorted_arrangement_unique,
    power_of_two,
    sorted,
    u32_le,
};

verus! {

/// What one compare-and-swap pass toward `up` leaves of `s`: of each place in
/// the first half and its partner in the second, the smaller value comes
/// first (`up`) or the larger (`!up`). A last element without a partner stays.
pub open spec fn pass(s: Seq<u32>, up: bool) -> Seq<u32> {
    let m = s.len() as int / 2;
    Seq::new(
        s.len(),
        |k: int|
            if k < m {
                if (s[k] > s[k + m]) == up {
                    s[k + m]
                } else {
                    s[k]
                }
            } else if k < 2 * m {
                if (s[k - m] > s[k]) == up {
                    s[k - m]
                } else {
                    s[k]
                }
            } else {
                s[k]
            },
    )
}

/// Sorts `x` in place, upward if `up` and downward if not.
///
/// The elements are rearranged, none added or lost, whatever the length. The
/// result is sorted when the length is a power of two (or zero), and a slice
/// of such a length that is sorted already is left as it is.
pub fn sort(x: &mut [u32], up: bool)
    ensures
        final(x)@.to_multiset() == old(x)@.to_multiset(),
        final(x)@.len() == old(x)@.len(),
        old(x)@.len() == 0 || power_of_two(old(x)@.len()) ==> sorted(final(x)@, u32_le(), up),
        (old(x)@.len() == 0 || power_of_two(old(x)@.len())) && sorted(old(x)@, u32_le(), up)
            ==> final(x)@ == old(x)@,
    decreases old(x)@.len(),
{
    if x.len() > 1 {
        let mid_point: usize = x.len() / 2;
        let (lo, hi) = x.split_at_mut(mid_point);
        let ghost lo_was = lo@;
        let ghost hi_was = hi@;
        sort(lo, true);
        sort(hi, false);
        proof {
            vstd::seq_lib::lemma_multiset_commutative(lo@, hi@);
            vstd::seq_lib::lemma_multiset_commutative(lo_was, hi_was);
            assert(old(x)@ =~= lo_was + hi_was);
            if power_of_two(old(x)@.len()) {
                lemma_half_of_power(old(x)@.len());
                lemma_rise_then_fall(lo@, hi@, u32_le());
            }
        }
        sub_sort(x, up);
    }
    proof {
        if x@.len() <= 1 {
            lemma_short(x@, u32_le(), up);
        }
        if (old(x)@.len() == 0 || power_of_two(old(x)@.len())) && sorted(old(x)@, u32_le(), up) {
            lemma_sorted_arrangement_unique(old(x)@, x@, u32_le(), up);
        }
    }
}

/// Merges a bitonic `x` into a sorted one, upward if `up` and downward if
/// not.
///
/// The elements are rearranged, none added or lost. The result is sorted when
/// `x` was bitonic and its length a power of two.
pub fn sub_sort(x: &mut [u32], up: bool)
    ensures
        final(x)@.to_multiset() == old(x)@.to_multiset(),
        final(x)@.len() == old(x)@.len(),
        power_of_two(old(x)@.len()) && bitonic(old(x)@, u32_le()) ==> sorted(
            final(x)@,
            u32_le(),
            up,
        ),
    decreases old(x)@.len(),
{
    if x.len() > 1 {
        compare_and_swap(x, up);
        let ghost passed = x@;
        let mid_point: usize = x.len() / 2;
        let (lo, hi) = x.split_at_mut(mid_point);
        sub_sort(lo, up);
        sub_sort(hi, up);
        proof {
            lemma_pass_permutes(old(x)@, up);
            lemma_pass_orders(old(x)@, up);
            vstd::seq_lib::lemma_multiset_commutative(lo@, hi@);
            vstd::seq_lib::lemma_multiset_commutative(first_half(passed), second_half(passed));
            assert(passed =~= first_half(passed) + second_half(passed));
            if power_of_two(old(x)@.len()) && bitonic(old(x)@, u32_le()) {
                lemma_half_of_power(old(x)@.len());
                lemma_pass_splits(old(x)@, passed, u32_le(), up);
                lemma_join_sorted(
                    lo@,
                    hi@,
                    first_half(passed),
                    second_half(passed),
                    u32_le(),
                    up,
                );
            }
        }
    } else {
        proof {
            lemma_short(x@, u32_le(), up);
        }
    }
}

/// Compares each element of the first half of `x` with its partner in the
/// second and exchanges the two where they stand against `up`.
pub fn compare_and_swap(x: &mut [u32], up: bool)
    ensures
        final(x)@ == pass(old(x)@, up),
{
    let mid_point: usize = x.len() / 2;
    let mut i: usize = 0;
    while i < mid_point
        invariant
            i <= mid_point,
            mid_point == old(x)@.len() / 2,
            x@.len() == old(x)@.len(),
            forall|k: int|
                0 <= k < x@.len() ==> #[trigger] x@[k] == if k < i || mid_point <= k < mid_point
                    + i {
                    pass(old(x)@, up)[k]
                } else {
                    old(x)@[k]
                },
        decreases mid_point - i,
    {
        if (x[i] > x[mid_point + i]) == up {
            x.swap(i, mid_point + i);
        }
        i += 1;
    }
    assert(x@ =~= pass(old(x)@, up));
}

/// A pass leaves each pair in order.
pub proof fn lemma_pass_orders(s: Seq<u32>, up: bool)
    ensures
        pass_of(s, pass(s, up), u32_le(), up),
{
    let t = pass(s, up);
    let m = s.len() as int / 2;
    assert forall|i: int| 0 <= i < m implies #[trigger] kept_or_exchanged(s, t, i, i + m)
        && crate::order::in_order(u32_le(), up, t[i], t[i + m]) by {}
}

/// A pass rearranges the elements, and neither adds nor loses one.
pub proof fn lemma_pass_permutes(s: Seq<u32>, up: bool)
    ensures
        pass(s, up).to_multiset() == s.to_multiset(),
{
    let t = pass(s, up);
    crate::bitonic::lemma_pairwise_permutes(s, t);
}

} // verus!
