//! Bitonic sequences, and what one compare-and-swap pass does to them.
//!
//! The definitions come first, then the facts that the sorters call on, then
//! the proofs behind them. The merge step is proved through cuts: a sequence
//! is bitonic exactly if, wherever its values are cut in two, those above the
//! cut stand in one run of the ring ([`lemma_bitonic_by_cuts`]), and a pass
//! acts on each cut as `and` and `or` act on bits.
use vstd::prelude::*;
use crate::order::{in_order, sorted, total_preorder};

verus! {

/// The first `len / 2` elements of `s`.
pub open spec fn first_half<T>(s: Seq<T>) -> Seq<T> {
    s.subrange(0, s.len() as int / 2)
}

/// What follows the first `len / 2` elements of `s`.
pub open spec fn second_half<T>(s: Seq<T>) -> Seq<T> {
    s.subrange(s.len() as int / 2, s.len() as int)
}

/// `s` turned so that it begins at place `k`.
pub open spec fn rotated<T>(s: Seq<T>, k: int) -> Seq<T> {
    s.subrange(k, s.len() as int) + s.subrange(0, k)
}

/// `s` rises through its first `p` elements and falls through the rest.
pub open spec fn rises_then_falls<T>(s: Seq<T>, le: spec_fn(T, T) -> bool, p: int) -> bool {
    &&& 0 <= p <= s.len()
    &&& sorted(s.subrange(0, p), le, true)
    &&& sorted(s.subrange(p, s.len() as int), le, false)
}

/// `s` is bitonic by `le`: it rises and then falls, or is a rotation of such a
/// sequence. A sequence that only rises or only falls is bitonic too.
pub open spec fn bitonic<T>(s: Seq<T>, le: spec_fn(T, T) -> bool) -> bool {
    exists|k: int, p: int| 0 <= k <= s.len() && #[trigger] rises_then_falls(rotated(s, k), le, p)
}

/// Places `i` and `j` of `t` hold what they held in `s`, as they were or
/// exchanged.
pub open spec fn kept_or_exchanged<T>(s: Seq<T>, t: Seq<T>, i: int, j: int) -> bool {
    ||| (t[i] == s[i] && t[j] == s[j])
    ||| (t[i] == s[j] && t[j] == s[i])
}

/// `t` is `s` after one compare-and-swap pass toward `up`: each place of the
/// first half and its partner in the second hold the same two values as
/// before, now in order. A last element without a partner stays.
pub open spec fn pass_of<T>(s: Seq<T>, t: Seq<T>, le: spec_fn(T, T) -> bool, up: bool) -> bool {
    let m = s.len() / 2;
    &&& t.len() == s.len()
    &&& forall|i: int|
        0 <= i < m ==> #[trigger] kept_or_exchanged(s, t, i, i + m) && in_order(
            le,
            up,
            t[i],
            t[i + m],
        )
    &&& forall|i: int| 2 * m <= i < s.len() ==> #[trigger] t[i] == s[i]
}

/// The positions of `s` whose value satisfies `p` are exactly those in
/// `[a, b)` (`inside`), or exactly those outside it (`!inside`).
pub open spec fn run_at<T>(s: Seq<T>, p: spec_fn(T) -> bool, a: int, b: int, inside: bool) -> bool {
    &&& 0 <= a <= b <= s.len()
    &&& forall|i: int| 0 <= i < s.len() ==> (p(#[trigger] s[i]) <==> ((a <= i < b) <==> inside))
}

/// The positions of `s` whose value satisfies `p` form one run when the
/// sequence is read as a ring.
pub open spec fn cyclic_run<T>(s: Seq<T>, p: spec_fn(T) -> bool) -> bool {
    exists|a: int, b: int, inside: bool| run_at(s, p, a, b, inside)
}

/// With a value, `p` holds every greater one: `p` cuts the values in two.
pub open spec fn upward_closed<T>(p: spec_fn(T) -> bool, le: spec_fn(T, T) -> bool) -> bool {
    forall|a: T, b: T| p(a) && #[trigger] le(a, b) ==> p(b)
}

/// Wherever the values of `s` are cut in two, those above the cut stand in
/// one run of the ring.
pub open spec fn cut_in_runs<T>(s: Seq<T>, le: spec_fn(T, T) -> bool) -> bool {
    forall|p: spec_fn(T) -> bool| #[trigger] upward_closed(p, le) ==> cyclic_run(s, p)
}

/// A sequence is bitonic exactly if each cut of its values stands in one run
/// of the ring.
pub proof fn lemma_bitonic_by_cuts<T>(s: Seq<T>, le: spec_fn(T, T) -> bool)
    requires
        total_preorder(le),
    ensures
        bitonic(s, le) <==> cut_in_runs(s, le),
{
    if bitonic(s, le) {
        let n = s.len() as int;
        let (k, p) = choose|k: int, p: int|
            0 <= k <= s.len() && #[trigger] rises_then_falls(rotated(s, k), le, p);
        let r = rotated(s, k);
        let rise = r.subrange(0, p);
        let fall = r.subrange(p, n);
        lemma_rise_then_fall_cuts(rise, fall, le);
        assert(r =~= rise + fall);
        lemma_rotation_cuts(r, n - k, le);
        assert(rotated(r, n - k) =~= s);
    }
    if cut_in_runs(s, le) {
        lemma_shape(s, le);
    }
}

/// A rise followed by a fall is bitonic.
pub proof fn lemma_rise_then_fall<T>(rise: Seq<T>, fall: Seq<T>, le: spec_fn(T, T) -> bool)
    requires
        sorted(rise, le, true),
        sorted(fall, le, false),
    ensures
        bitonic(rise + fall, le),
{
    let s = rise + fall;
    assert(rotated(s, 0) =~= s);
    assert(s.subrange(0, rise.len() as int) =~= rise);
    assert(s.subrange(rise.len() as int, s.len() as int) =~= fall);
    assert(rises_then_falls(rotated(s, 0), le, rise.len() as int));
}

/// A sequence of at most one element is bitonic, and sorted either way.
pub proof fn lemma_short<T>(s: Seq<T>, le: spec_fn(T, T) -> bool, up: bool)
    requires
        s.len() <= 1,
    ensures
        sorted(s, le, up),
        bitonic(s, le),
{
    assert(rotated(s, 0) =~= s);
    assert(rises_then_falls(rotated(s, 0), le, 0));
}

/// The bitonic merge step. After a pass over a bitonic sequence of even
/// length, each half is bitonic again, and every element of the first half
/// may stand before every element of the second.
pub proof fn lemma_pass_splits<T>(s: Seq<T>, t: Seq<T>, le: spec_fn(T, T) -> bool, up: bool)
    requires
        total_preorder(le),
        s.len() % 2 == 0,
        bitonic(s, le),
        pass_of(s, t, le, up),
    ensures
        bitonic(first_half(t), le),
        bitonic(second_half(t), le),
        forall|i: int, j: int|
            0 <= i < s.len() / 2 <= j < s.len() ==> in_order(
                le,
                up,
                #[trigger] t[i],
                #[trigger] t[j],
            ),
{
    let m: int = s.len() as int / 2;
    lemma_bitonic_by_cuts(s, le);
    assert forall|p: spec_fn(T) -> bool| #[trigger] upward_closed(p, le) implies cyclic_run(
        first_half(t),
        p,
    ) && cyclic_run(second_half(t), p) by {
        lemma_pass_on_cut(s, t, le, up, p);
    }
    lemma_bitonic_by_cuts(first_half(t), le);
    lemma_bitonic_by_cuts(second_half(t), le);
    assert forall|i: int, j: int| 0 <= i < m <= j < 2 * m implies in_order(
        le,
        up,
        #[trigger] t[i],
        #[trigger] t[j],
    ) by {
        // The values above the later of the two make a cut that the pass
        // cannot have left on both sides.
        if up {
            let above = |x: T| !le(x, t[j]);
            assert(upward_closed(above, le));
            lemma_pass_on_cut(s, t, le, up, above);
            if !le(t[i], t[j]) {
                assert(above(t[i]));
                assert(above(t[j]));
            }
        } else {
            let above = |x: T| !le(x, t[i]);
            assert(upward_closed(above, le));
            lemma_pass_on_cut(s, t, le, up, above);
            if !le(t[j], t[i]) {
                assert(above(t[j]));
                assert(above(t[i]));
            }
        }
    }
}

/// Two sorted sequences, each element of the first allowed before each of the
/// second, are sorted when joined. The allowance may be given of other
/// arrangements of the same elements.
pub proof fn lemma_join_sorted<T>(
    lo: Seq<T>,
    hi: Seq<T>,
    lo_was: Seq<T>,
    hi_was: Seq<T>,
    le: spec_fn(T, T) -> bool,
    up: bool,
)
    requires
        sorted(lo, le, up),
        sorted(hi, le, up),
        lo.to_multiset() == lo_was.to_multiset(),
        hi.to_multiset() == hi_was.to_multiset(),
        forall|i: int, j: int|
            0 <= i < lo_was.len() && 0 <= j < hi_was.len() ==> in_order(
                le,
                up,
                #[trigger] lo_was[i],
                #[trigger] hi_was[j],
            ),
    ensures
        sorted(lo + hi, le, up),
{
    broadcast use vstd::seq_lib::group_to_multiset_ensures;

    let s = lo + hi;
    assert forall|i: int, j: int| 0 <= i < j < s.len() implies in_order(
        le,
        up,
        #[trigger] s[i],
        #[trigger] s[j],
    ) by {
        if j < lo.len() {
            assert(in_order(le, up, lo[i], lo[j]));
        } else if i >= lo.len() {
            assert(in_order(le, up, hi[i - lo.len()], hi[j - lo.len()]));
        } else {
            let a = lo[i];
            let b = hi[j - lo.len()];
            assert(lo.contains(a));
            assert(lo.to_multiset().count(a) > 0);
            assert(lo_was.contains(a));
            assert(hi.contains(b));
            assert(hi.to_multiset().count(b) > 0);
            assert(hi_was.contains(b));
            let k = choose|k: int| 0 <= k < lo_was.len() && lo_was[k] == a;
            let l = choose|l: int| 0 <= l < hi_was.len() && hi_was[l] == b;
            assert(in_order(le, up, lo_was[k], hi_was[l]));
        }
    }
}

/// A sequence that differs from another only by exchanges between a place of
/// the first half and its partner in the second holds the same elements.
pub proof fn lemma_pairwise_permutes<T>(s: Seq<T>, t: Seq<T>)
    requires
        t.len() == s.len(),
        forall|i: int|
            0 <= i < s.len() / 2 ==> #[trigger] kept_or_exchanged(s, t, i, i + s.len() / 2),
        forall|i: int| 2 * (s.len() / 2) <= i < s.len() ==> #[trigger] t[i] == s[i],
    ensures
        t.to_multiset() == s.to_multiset(),
{
    let m = s.len() as int / 2;
    lemma_exchanges_permute(s, t, m);
}

/// `s` with its first `n` pairs as they are in `t`.
spec fn pairs_done<T>(s: Seq<T>, t: Seq<T>, n: int) -> Seq<T> {
    let m = s.len() as int / 2;
    Seq::new(s.len(), |k: int| if k < n || m <= k < m + n { t[k] } else { s[k] })
}

/// Taking over the first `n` pairs of `t` keeps the elements of `s`.
proof fn lemma_exchanges_permute<T>(s: Seq<T>, t: Seq<T>, n: int)
    requires
        t.len() == s.len(),
        0 <= n <= s.len() / 2,
        forall|i: int|
            0 <= i < s.len() / 2 ==> #[trigger] kept_or_exchanged(s, t, i, i + s.len() / 2),
        forall|i: int| 2 * (s.len() / 2) <= i < s.len() ==> #[trigger] t[i] == s[i],
    ensures
        pairs_done(s, t, n).to_multiset() == s.to_multiset(),
        n == s.len() / 2 ==> pairs_done(s, t, n) == t,
    decreases n,
{
    broadcast use vstd::seq_lib::group_to_multiset_ensures;

    let m = s.len() as int / 2;
    if n == 0 {
        assert(pairs_done(s, t, n) =~= s);
    } else {
        lemma_exchanges_permute(s, t, n - 1);
        let before = pairs_done(s, t, n - 1);
        let after = pairs_done(s, t, n);
        let i = n - 1;
        assert(kept_or_exchanged(s, t, i, i + m));
        if t[i] == s[i] && t[i + m] == s[i + m] {
            assert(after =~= before);
        } else {
            assert(after =~= before.update(i, before[i + m]).update(i + m, before[i]));
            lemma_exchange_permutes(before, i, i + m);
        }
    }
    if n == m {
        assert(pairs_done(s, t, n) =~= t);
    }
}

/// Exchanging two elements of a sequence keeps its elements.
proof fn lemma_exchange_permutes<T>(s: Seq<T>, i: int, j: int)
    requires
        0 <= i < s.len(),
        0 <= j < s.len(),
    ensures
        s.update(i, s[j]).update(j, s[i]).to_multiset() == s.to_multiset(),
{
    broadcast use vstd::seq_lib::group_to_multiset_ensures;
    broadcast use vstd::multiset::group_multiset_axioms;

    let mid = s.update(i, s[j]);
    assert(mid.to_multiset() == s.to_multiset().insert(s[j]).remove(s[i]));
    assert(mid.update(j, s[i]).to_multiset() == mid.to_multiset().insert(s[i]).remove(mid[j]));
    assert(s.to_multiset().count(s[i]) > 0) by {
        assert(s.contains(s[i]));
    }
    assert(s.to_multiset().count(s[j]) > 0) by {
        assert(s.contains(s[j]));
    }
    assert(mid.update(j, s[i]).to_multiset() =~= s.to_multiset());
}

/// A pass over `s` of length `2 * m` that leaves at `i` the conjunction and at
/// `m + i` the disjunction of what `p` said of the two places keeps `p` in
/// one run in each half, and either clears the first half or fills the second.
proof fn lemma_run_through_pass<T>(s: Seq<T>, t: Seq<T>, p: spec_fn(T) -> bool, m: int)
    requires
        s.len() == 2 * m,
        t.len() == 2 * m,
        cyclic_run(s, p),
        forall|i: int| 0 <= i < m ==> (p(#[trigger] t[i]) <==> p(s[i]) && p(s[i + m])),
        forall|j: int| m <= j < 2 * m ==> (p(#[trigger] t[j]) <==> p(s[j - m]) || p(s[j])),
    ensures
        cyclic_run(t.subrange(0, m), p),
        cyclic_run(t.subrange(m, 2 * m), p),
        (forall|i: int| 0 <= i < m ==> !p(#[trigger] t[i])) || (forall|j: int|
            m <= j < 2 * m ==> p(#[trigger] t[j])),
{
    let (a, b, inside) = choose|a: int, b: int, inside: bool| run_at(s, p, a, b, inside);
    let lo = t.subrange(0, m);
    let hi = t.subrange(m, 2 * m);
    assert forall|i: int| 0 <= i < m implies lo[i] == t[i] && hi[i] == t[i + m] by {}
    if inside {
        if b <= m {
            assert(run_at(lo, p, 0, 0, true));
            assert(run_at(hi, p, a, b, true));
        } else if a >= m {
            assert(run_at(lo, p, 0, 0, true));
            assert(run_at(hi, p, a - m, b - m, true));
        } else if b - m >= a {
            assert(run_at(lo, p, a, b - m, true));
            assert(run_at(hi, p, 0, m, true));
        } else {
            assert(run_at(lo, p, 0, 0, true));
            assert(run_at(hi, p, b - m, a, false));
        }
    } else {
        if b <= m {
            assert(run_at(lo, p, a, b, false));
            assert(run_at(hi, p, 0, m, true));
        } else if a >= m {
            assert(run_at(lo, p, a - m, b - m, false));
            assert(run_at(hi, p, 0, m, true));
        } else if b - m <= a {
            assert(run_at(lo, p, b - m, a, true));
            assert(run_at(hi, p, 0, m, true));
        } else {
            assert(run_at(lo, p, 0, 0, true));
            assert(run_at(hi, p, a, b - m, false));
        }
    }
}

/// A predicate and its negation are in one run together.
proof fn lemma_run_of_negation<T>(s: Seq<T>, p: spec_fn(T) -> bool, q: spec_fn(T) -> bool)
    requires
        cyclic_run(s, p),
        forall|x: T| #[trigger] q(x) <==> !p(x),
    ensures
        cyclic_run(s, q),
{
    let (a, b, inside) = choose|a: int, b: int, inside: bool| run_at(s, p, a, b, inside);
    assert(run_at(s, q, a, b, !inside));
}

/// What a pass does to one cut `p` of the values of a sequence that is cut in runs.
proof fn lemma_pass_on_cut<T>(
    s: Seq<T>,
    t: Seq<T>,
    le: spec_fn(T, T) -> bool,
    up: bool,
    p: spec_fn(T) -> bool,
)
    requires
        total_preorder(le),
        s.len() % 2 == 0,
        cut_in_runs(s, le),
        pass_of(s, t, le, up),
        upward_closed(p, le),
    ensures
        cyclic_run(first_half(t), p),
        cyclic_run(second_half(t), p),
        up ==> (forall|i: int| 0 <= i < s.len() / 2 ==> !p(#[trigger] t[i])) || (forall|j: int|
            s.len() / 2 <= j < s.len() ==> p(#[trigger] t[j])),
        !up ==> (forall|i: int| 0 <= i < s.len() / 2 ==> p(#[trigger] t[i])) || (forall|j: int|
            s.len() / 2 <= j < s.len() ==> !p(#[trigger] t[j])),
{
    let m: int = s.len() as int / 2;
    assert(cyclic_run(s, p));
    if up {
        assert forall|i: int| 0 <= i < m implies (p(#[trigger] t[i]) <==> p(s[i]) && p(
            s[i + m],
        )) by {
            assert(kept_or_exchanged(s, t, i, i + m));
        }
        assert forall|j: int| m <= j < 2 * m implies (p(#[trigger] t[j]) <==> p(s[j - m]) || p(
            s[j],
        )) by {
            assert(kept_or_exchanged(s, t, j - m, j - m + m));
        }
        lemma_run_through_pass(s, t, p, m);
    } else {
        let q = |x: T| !p(x);
        lemma_run_of_negation(s, p, q);
        assert forall|i: int| 0 <= i < m implies (q(#[trigger] t[i]) <==> q(s[i]) && q(
            s[i + m],
        )) by {
            assert(kept_or_exchanged(s, t, i, i + m));
        }
        assert forall|j: int| m <= j < 2 * m implies (q(#[trigger] t[j]) <==> q(s[j - m]) || q(
            s[j],
        )) by {
            assert(kept_or_exchanged(s, t, j - m, j - m + m));
        }
        lemma_run_through_pass(s, t, q, m);
        lemma_run_of_negation(t.subrange(0, m), q, p);
        lemma_run_of_negation(t.subrange(m, 2 * m), q, p);
    }
}

/// Where an upward-closed `p` begins to hold in a sorted sequence (`up`), or
/// ceases to (`!up`).
proof fn lemma_cut_of_sorted<T>(
    s: Seq<T>,
    le: spec_fn(T, T) -> bool,
    up: bool,
    p: spec_fn(T) -> bool,
) -> (a: int)
    requires
        sorted(s, le, up),
        upward_closed(p, le),
    ensures
        0 <= a <= s.len(),
        forall|i: int| 0 <= i < s.len() ==> (p(#[trigger] s[i]) <==> (a <= i <==> up)),
    decreases s.len(),
{
    if s.len() == 0 {
        0
    } else {
        let n = s.len() - 1;
        let front = s.subrange(0, n);
        assert forall|i: int, j: int| 0 <= i < j < front.len() implies in_order(
            le,
            up,
            #[trigger] front[i],
            #[trigger] front[j],
        ) by {
            assert(in_order(le, up, s[i], s[j]));
        }
        let a = lemma_cut_of_sorted(front, le, up, p);
        assert forall|i: int| 0 <= i < n implies (p(#[trigger] s[i]) <==> (a <= i <==> up)) by {
            assert(s[i] == front[i]);
        }
        assert forall|i: int| 0 <= i < n implies in_order(le, up, #[trigger] s[i], s[n]) by {}
        if up {
            if a < n {
                assert(p(s[a]));
                a
            } else if p(s[n]) {
                n
            } else {
                n + 1
            }
        } else {
            if a < n {
                assert(!p(s[a]));
                a
            } else if p(s[n]) {
                n + 1
            } else {
                n
            }
        }
    }
}

/// Each cut of a rise followed by a fall stands in one run.
proof fn lemma_rise_then_fall_cuts<T>(rise: Seq<T>, fall: Seq<T>, le: spec_fn(T, T) -> bool)
    requires
        sorted(rise, le, true),
        sorted(fall, le, false),
    ensures
        cut_in_runs(rise + fall, le),
{
    let s = rise + fall;
    assert forall|p: spec_fn(T) -> bool| #[trigger] upward_closed(p, le) implies cyclic_run(
        s,
        p,
    ) by {
        let a = lemma_cut_of_sorted(rise, le, true, p);
        let b = lemma_cut_of_sorted(fall, le, false, p);
        assert forall|i: int| 0 <= i < s.len() implies (p(#[trigger] s[i]) <==> a <= i < rise.len()
            + b) by {
            if i < rise.len() {
                assert(s[i] == rise[i]);
            } else {
                assert(s[i] == fall[i - rise.len()]);
            }
        }
        assert(run_at(s, p, a, rise.len() + b, true));
    }
}

/// Turning a sequence keeps each cut in one run.
proof fn lemma_rotation_cuts<T>(s: Seq<T>, k: int, le: spec_fn(T, T) -> bool)
    requires
        0 <= k <= s.len(),
        cut_in_runs(s, le),
    ensures
        cut_in_runs(rotated(s, k), le),
{
    let n = s.len() as int;
    let r = rotated(s, k);
    assert forall|p: spec_fn(T) -> bool| #[trigger] upward_closed(p, le) implies cyclic_run(
        r,
        p,
    ) by {
        assert(cyclic_run(s, p));
        let (a, b, inside) = choose|a: int, b: int, inside: bool| run_at(s, p, a, b, inside);
        assert forall|i: int| 0 <= i < n implies #[trigger] r[i] == (if i < n - k {
            s[i + k]
        } else {
            s[i + k - n]
        }) by {}
        if b <= k {
            assert(run_at(r, p, a + n - k, b + n - k, inside));
        } else if a >= k {
            assert(run_at(r, p, a - k, b - k, inside));
        } else {
            assert(run_at(r, p, b - k, a + n - k, !inside));
        }
    }
}

/// The place of a greatest element of `s` (`greatest`), or of a least.
proof fn lemma_extreme<T>(s: Seq<T>, le: spec_fn(T, T) -> bool, greatest: bool) -> (k: int)
    requires
        total_preorder(le),
        s.len() > 0,
    ensures
        0 <= k < s.len(),
        forall|i: int| 0 <= i < s.len() ==> in_order(le, greatest, #[trigger] s[i], s[k]),
    decreases s.len(),
{
    let n = s.len() - 1;
    assert(le(s[n], s[n]));
    if n == 0 {
        0
    } else {
        let front = s.subrange(0, n);
        let k = lemma_extreme(front, le, greatest);
        assert(le(s[k], s[n]) || le(s[n], s[k]));
        if in_order(le, greatest, s[k], s[n]) {
            assert forall|i: int| 0 <= i < s.len() implies in_order(
                le,
                greatest,
                #[trigger] s[i],
                s[n],
            ) by {
                if i < n {
                    assert(in_order(le, greatest, front[i], front[k]));
                }
            }
            n
        } else {
            assert forall|i: int| 0 <= i < s.len() implies in_order(
                le,
                greatest,
                #[trigger] s[i],
                s[k],
            ) by {
                if i < n {
                    assert(in_order(le, greatest, front[i], front[k]));
                }
            }
            k
        }
    }
}

/// A sequence whose cuts stand in one run each is bitonic: turned to begin
/// at a least element, it rises to a greatest one and falls from there.
proof fn lemma_shape<T>(s: Seq<T>, le: spec_fn(T, T) -> bool)
    requires
        total_preorder(le),
        cut_in_runs(s, le),
    ensures
        bitonic(s, le),
{
    let n = s.len() as int;
    if n == 0 {
        assert(rises_then_falls(rotated(s, 0), le, 0));
    } else {
        let k = lemma_extreme(s, le, false);
        let r = rotated(s, k);
        lemma_rotation_cuts(s, k, le);
        assert(r[0] == s[k]);
        assert forall|i: int| 0 <= i < n implies le(r[0], #[trigger] r[i]) by {
            if i < n - k {
                assert(r[i] == s[i + k]);
            } else {
                assert(r[i] == s[i + k - n]);
            }
        }
        let top = lemma_extreme(r, le, true);
        let rise = r.subrange(0, top + 1);
        let fall = r.subrange(top + 1, n);
        assert forall|i: int, j: int| 0 <= i < j < rise.len() implies le(
            #[trigger] rise[i],
            #[trigger] rise[j],
        ) by {
            lemma_no_dip(r, le, i, j, top);
        }
        assert forall|i: int, j: int| 0 <= i < j < fall.len() implies le(
            #[trigger] fall[j],
            #[trigger] fall[i],
        ) by {
            let x = top + 1 + i;
            let y = top + 1 + j;
            assert(fall[i] == r[x] && fall[j] == r[y]);
            lemma_no_climb(r, le, x, y, top);
        }
        assert(rises_then_falls(r, le, top + 1));
    }
}

/// Between a least element at the front and a greatest one at `top`, no
/// element is followed by a lesser one.
proof fn lemma_no_dip<T>(r: Seq<T>, le: spec_fn(T, T) -> bool, i: int, j: int, top: int)
    requires
        total_preorder(le),
        cut_in_runs(r, le),
        0 <= i < j <= top < r.len(),
        forall|x: int| 0 <= x < r.len() ==> le(r[0], #[trigger] r[x]),
        forall|x: int| 0 <= x < r.len() ==> le(#[trigger] r[x], r[top]),
    ensures
        le(r[i], r[j]),
{
    if !le(r[i], r[j]) {
        // Above r[j] lie r[i] and r[top], but neither r[0] nor r[j]: two runs.
        let above = |x: T| !le(x, r[j]);
        assert(upward_closed(above, le));
        let (a, b, inside) = choose|a: int, b: int, inside: bool| run_at(r, above, a, b, inside);
        assert(le(r[j], r[j]));
        assert(le(r[i], r[top]));
        assert(above(r[i]) && !above(r[j]) && above(r[top]) && !above(r[0]));
    }
}

/// After a greatest element at `top`, with a least one at the front, no
/// element is followed by a greater one.
proof fn lemma_no_climb<T>(r: Seq<T>, le: spec_fn(T, T) -> bool, i: int, j: int, top: int)
    requires
        total_preorder(le),
        cut_in_runs(r, le),
        0 <= top < i < j < r.len(),
        forall|x: int| 0 <= x < r.len() ==> le(r[0], #[trigger] r[x]),
        forall|x: int| 0 <= x < r.len() ==> le(#[trigger] r[x], r[top]),
    ensures
        le(r[j], r[i]),
{
    if !le(r[j], r[i]) {
        // Above r[i] lie r[top] and r[j], but neither r[0] nor r[i]: two runs.
        let above = |x: T| !le(x, r[i]);
        assert(upward_closed(above, le));
        let (a, b, inside) = choose|a: int, b: int, inside: bool| run_at(r, above, a, b, inside);
        assert(le(r[i], r[i]));
        assert(le(r[j], r[top]));
        assert(above(r[j]) && !above(r[i]) && above(r[top]) && !above(r[0]));
    }
}

} // verus!
