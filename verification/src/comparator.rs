//! Comparators: functions that answer `Less`, `Equal` or `Greater` of two
//! values, and the orders they stand for.
use vstd::prelude::*;
use vstd::std_specs::cmp::{OrdSpec, PartialEqSpec, PartialOrdSpec};
use std::cmp::Ordering;
use crate::bitonic::{first_half, second_half};
use crate::order::{
    in_order,
    lemma_sorted_then_by,
    lemma_then_by_total,
    sorted,
    then_by,
    total_preorder,
};

verus! {

/// `f` may be called on any two elements of `s`.
pub open spec fn callable_on<T, F: Fn(&T, &T) -> Ordering>(f: &F, s: Seq<T>) -> bool {
    forall|i: int, j: int|
        0 <= i < s.len() && 0 <= j < s.len() ==> call_requires(
            f,
            (&#[trigger] s[i], &#[trigger] s[j]),
        )
}

/// A comparator that may be called on the elements of `s` may be called on
/// those of any sequence made of them.
pub proof fn lemma_callable_on_elements<T, F: Fn(&T, &T) -> Ordering>(f: &F, s: Seq<T>, t: Seq<T>)
    requires
        callable_on(f, s),
        forall|k: int| 0 <= k < t.len() ==> s.contains(#[trigger] t[k]),
    ensures
        callable_on(f, t),
{
    assert forall|i: int, j: int| 0 <= i < t.len() && 0 <= j < t.len() implies call_requires(
        f,
        (&#[trigger] t[i], &#[trigger] t[j]),
    ) by {
        assert(s.contains(t[i]) && s.contains(t[j]));
        let a = choose|a: int| 0 <= a < s.len() && s[a] == t[i];
        let b = choose|b: int| 0 <= b < s.len() && s[b] == t[j];
        assert(call_requires(f, (&s[a], &s[b])));
    }
}

/// A comparator that may be called on the elements of `s` may be called on
/// those of every rearrangement of `s`, and of each half of one.
pub proof fn lemma_callable_on_rearranged<T, F: Fn(&T, &T) -> Ordering>(
    f: &F,
    s: Seq<T>,
    t: Seq<T>,
)
    requires
        callable_on(f, s),
        s.to_multiset() == t.to_multiset(),
    ensures
        callable_on(f, t),
        callable_on(f, first_half(t)),
        callable_on(f, second_half(t)),
{
    broadcast use vstd::seq_lib::group_to_multiset_ensures;

    assert forall|k: int| 0 <= k < t.len() implies s.contains(#[trigger] t[k]) by {
        assert(t.contains(t[k]));
        assert(s.to_multiset().count(t[k]) > 0);
    }
    lemma_callable_on_elements(f, s, t);
    assert forall|k: int| 0 <= k < first_half(t).len() implies s.contains(
        #[trigger] first_half(t)[k],
    ) by {
        assert(first_half(t)[k] == t[k]);
    }
    lemma_callable_on_elements(f, s, first_half(t));
    assert forall|k: int| 0 <= k < second_half(t).len() implies s.contains(
        #[trigger] second_half(t)[k],
    ) by {
        assert(second_half(t)[k] == t[k + t.len() / 2]);
    }
    lemma_callable_on_elements(f, s, second_half(t));
}

/// Whatever `f` answers agrees with `le`: `Greater` exactly where `a` is not
/// below or level with `b`, `Less` exactly where `b` is not below or level
/// with `a`.
pub open spec fn decides<T, F: Fn(&T, &T) -> Ordering>(f: &F, le: spec_fn(T, T) -> bool) -> bool {
    forall|a: T, b: T, o: Ordering| #[trigger]
        call_ensures(f, (&a, &b), o) ==> ((o is Greater) <==> !le(a, b)) && ((o is Less) <==> !le(
            b,
            a,
        ))
}

/// `f` is the comparator of some total preorder.
pub open spec fn consistent<T, F: Fn(&T, &T) -> Ordering>(f: &F) -> bool {
    exists|le: spec_fn(T, T) -> bool| #[trigger] decides(f, le) && total_preorder(le)
}

/// `f` never finds `a` greater than `b`.
pub open spec fn never_greater<T, F: Fn(&T, &T) -> Ordering>(f: &F, a: T, b: T) -> bool {
    forall|o: Ordering| #[trigger] call_ensures(f, (&a, &b), o) ==> !(o is Greater)
}

/// The order that `Ord` gives a type: `a` is below or level with `b` unless
/// `a.cmp(b)` is `Greater`.
pub open spec fn natural_le<T: Ord>() -> spec_fn(T, T) -> bool {
    |a: T, b: T| !(a.cmp_spec(&b) is Greater)
}

/// `le` with its sides exchanged.
pub open spec fn reversed<T>(le: spec_fn(T, T) -> bool) -> spec_fn(T, T) -> bool {
    |a: T, b: T| le(b, a)
}

/// Where `Ord` keeps its laws, the natural order is a total preorder, and
/// `cmp` answers `Less` one way exactly where it answers `Greater` the other.
pub proof fn lemma_natural_order<T: Ord>()
    requires
        vstd::laws_cmp::obeys_cmp::<T>(),
    ensures
        T::obeys_cmp_spec(),
        T::obeys_partial_cmp_spec(),
        total_preorder(natural_le::<T>()),
        total_preorder(reversed(natural_le::<T>())),
        forall|a: T, b: T| (#[trigger] a.cmp_spec(&b) is Less) <==> (b.cmp_spec(&a) is Greater),
        forall|a: T, b: T| #[trigger] a.partial_cmp_spec(&b) == Some(a.cmp_spec(&b)),
{
    reveal(vstd::laws_cmp::obeys_cmp_partial_ord);
    reveal(vstd::laws_cmp::obeys_cmp_ord);
    reveal(vstd::laws_cmp::obeys_partial_cmp_spec_properties);
    reveal(vstd::laws_eq::obeys_eq_spec_properties);
    let le = natural_le::<T>();
    assert forall|a: T, b: T| (#[trigger] a.cmp_spec(&b) is Less) <==> (b.cmp_spec(
        &a,
    ) is Greater) by {
        assert(a.partial_cmp_spec(&b) == Some(a.cmp_spec(&b)));
        assert(b.partial_cmp_spec(&a) == Some(b.cmp_spec(&a)));
    }
    assert forall|a: T, b: T| #[trigger] le(a, b) || le(b, a) by {
        assert((b.cmp_spec(&a) is Less) <==> (a.cmp_spec(&b) is Greater));
    }
    assert forall|a: T, b: T, c: T| #[trigger] le(a, b) && #[trigger] le(b, c) implies le(
        a,
        c,
    ) by {
        lemma_not_greater_chains(a, b, c);
    }
    let ge = reversed(le);
    assert forall|a: T, b: T| #[trigger] ge(a, b) || ge(b, a) by {
        assert(le(a, b) || le(b, a));
    }
    assert forall|a: T, b: T, c: T| #[trigger] ge(a, b) && #[trigger] ge(b, c) implies ge(
        a,
        c,
    ) by {
        assert(le(c, b) && le(b, a));
    }
}

/// If `a` is not greater than `b`, nor `b` than `c`, then `a` is not greater
/// than `c`.
proof fn lemma_not_greater_chains<T: Ord>(a: T, b: T, c: T)
    requires
        vstd::laws_cmp::obeys_cmp::<T>(),
        !(a.cmp_spec(&b) is Greater),
        !(b.cmp_spec(&c) is Greater),
    ensures
        !(a.cmp_spec(&c) is Greater),
{
    reveal(vstd::laws_cmp::obeys_cmp_partial_ord);
    reveal(vstd::laws_cmp::obeys_cmp_ord);
    reveal(vstd::laws_cmp::obeys_partial_cmp_spec_properties);
    reveal(vstd::laws_eq::obeys_eq_spec_properties);
    assert(a.partial_cmp_spec(&b) == Some(a.cmp_spec(&b)));
    assert(b.partial_cmp_spec(&a) == Some(b.cmp_spec(&a)));
    assert(b.partial_cmp_spec(&c) == Some(b.cmp_spec(&c)));
    assert(c.partial_cmp_spec(&b) == Some(c.cmp_spec(&b)));
    assert(a.partial_cmp_spec(&c) == Some(a.cmp_spec(&c)));
    assert(c.partial_cmp_spec(&a) == Some(c.cmp_spec(&a)));
    if a.cmp_spec(&c) is Greater {
        // Then c < a. With a <= b and b <= c, each case closes a cycle.
        assert(c.partial_cmp_spec(&a) == Some(Ordering::Less));
        if a.cmp_spec(&b) is Less {
            assert(c.partial_cmp_spec(&b) == Some(Ordering::Less));
            assert(b.partial_cmp_spec(&c) == Some(Ordering::Greater));
        } else {
            assert(a.eq_spec(&b));
            if b.cmp_spec(&c) is Less {
                assert(b.partial_cmp_spec(&a) == Some(Ordering::Less));
                assert(b.eq_spec(&a));
            } else {
                assert(b.eq_spec(&c));
                assert(a.eq_spec(&c));
            }
        }
    }
}

/// What `first.then(second)` is: `first` unless it is `Equal`.
pub open spec fn chained(first: Ordering, second: Ordering) -> Ordering {
    if first is Equal {
        second
    } else {
        first
    }
}

/// The answer that `le` gives of `a` and `b`.
pub open spec fn answer<T>(le: spec_fn(T, T) -> bool, a: T, b: T) -> Ordering {
    if !le(a, b) {
        Ordering::Greater
    } else if !le(b, a) {
        Ordering::Less
    } else {
        Ordering::Equal
    }
}

/// `f` answers by `first` and, where that says `Equal`, by `second`.
pub open spec fn answers_in_two_levels<T, F: Fn(&T, &T) -> Ordering>(
    f: &F,
    first: spec_fn(T, T) -> bool,
    second: spec_fn(T, T) -> bool,
) -> bool {
    forall|a: T, b: T, o: Ordering| #[trigger]
        call_ensures(f, (&a, &b), o) ==> o == chained(answer(first, a, b), answer(second, a, b))
}

/// A comparator that goes by one order and breaks its ties by another decides
/// the two-level order of the two.
pub proof fn lemma_two_levels_decide<T, F: Fn(&T, &T) -> Ordering>(
    f: &F,
    first: spec_fn(T, T) -> bool,
    second: spec_fn(T, T) -> bool,
)
    requires
        answers_in_two_levels(f, first, second),
        total_preorder(first),
        total_preorder(second),
    ensures
        decides(f, then_by(first, second)),
        total_preorder(then_by(first, second)),
{
    lemma_then_by_total(first, second);
    let both = then_by(first, second);
    assert forall|a: T, b: T, o: Ordering| #[trigger]
        call_ensures(f, (&a, &b), o) implies ((o is Greater) <==> !both(a, b)) && ((o is Less)
        <==> !both(b, a)) by {
        assert(o == chained(answer(first, a, b), answer(second, a, b)));
        assert(first(a, b) || first(b, a));
        assert(second(a, b) || second(b, a));
    }
}

/// A sequence that is sorted by every total preorder that a two-level
/// comparator decides is ordered by the first level, and by the second among
/// elements that tie on the first.
pub proof fn lemma_sorted_in_two_levels<T, F: Fn(&T, &T) -> Ordering>(
    s: Seq<T>,
    f: &F,
    first: spec_fn(T, T) -> bool,
    second: spec_fn(T, T) -> bool,
)
    requires
        forall|le: spec_fn(T, T) -> bool| #[trigger]
            decides(f, le) && total_preorder(le) ==> sorted(s, le, true),
        answers_in_two_levels(f, first, second),
        total_preorder(first),
        total_preorder(second),
    ensures
        sorted(s, first, true),
        forall|i: int, j: int|
            0 <= i < j < s.len() && first(#[trigger] s[i], #[trigger] s[j]) && first(s[j], s[i])
                ==> second(s[i], s[j]),
{
    lemma_two_levels_decide(f, first, second);
    lemma_sorted_then_by(s, first, second, true);
}

/// In a sequence sorted by the natural order, `cmp` finds no element greater
/// than a later one (`up`), or none less (`!up`).
pub proof fn lemma_sorted_naturally<T: Ord>(s: Seq<T>, up: bool)
    requires
        vstd::laws_cmp::obeys_cmp::<T>(),
        sorted(s, natural_le::<T>(), up),
    ensures
        forall|i: int, j: int|
            #![trigger s[i], s[j]]
            0 <= i < j < s.len() ==> if up {
                !(s[i].cmp_spec(&s[j]) is Greater)
            } else {
                !(s[i].cmp_spec(&s[j]) is Less)
            },
{
    lemma_natural_order::<T>();
    assert forall|i: int, j: int| #![trigger s[i], s[j]] 0 <= i < j < s.len() implies if up {
        !(s[i].cmp_spec(&s[j]) is Greater)
    } else {
        !(s[i].cmp_spec(&s[j]) is Less)
    } by {
        assert(in_order(natural_le::<T>(), up, s[i], s[j]));
    }
}

} // verus!
