//! Integer variables whose domain is an ordered list of disjoint intervals.

use vstd::prelude::*;
use vstd::std_specs::cmp::PartialEqSpec;
use vstd::set_lib::{lemma_int_range, lemma_set_disjoint_lens, set_int_range};

use crate::variables::{VariableError, VariableState};

verus! {

/// An ordered list of inclusive intervals is normalised when no interval is
/// empty and each one ends at least two below the start of every later one,
/// so that neighbours can never be merged.
pub open spec fn intervals_wf(s: Seq<(i32, i32)>) -> bool {
    &&& forall|i: int| 0 <= i < s.len() ==> (#[trigger] s[i]).0 <= s[i].1
    &&& forall|i: int, j: int|
        0 <= i < j < s.len() ==> (#[trigger] s[i]).1 + 1 < (#[trigger] s[j]).0
}

/// Whether `v` lies in one of the intervals of `s`.
pub open spec fn in_intervals(s: Seq<(i32, i32)>, v: int) -> bool {
    exists|i: int| 0 <= i < s.len() && (#[trigger] s[i]).0 <= v <= s[i].1
}

/// The set of integers covered by the intervals of `s`.
pub open spec fn interval_values(s: Seq<(i32, i32)>) -> Set<int> {
    Set::new(|v: int| in_intervals(s, v))
}

/// Every covered value lies between the first start and the last end, and
/// both of those are covered.
pub proof fn lemma_interval_bounds(s: Seq<(i32, i32)>)
    requires
        intervals_wf(s),
        s.len() > 0,
    ensures
        in_intervals(s, s[0].0 as int),
        in_intervals(s, s.last().1 as int),
        forall|v: int| #[trigger] in_intervals(s, v) ==> s[0].0 <= v <= s.last().1,
{
    assert(s[0].0 <= s[0].0 <= s[0].1);
    let n = s.len() - 1;
    assert(s[n].0 <= s[n].1 <= s[n].1);
    assert forall|v: int| in_intervals(s, v) implies s[0].0 <= v <= s.last().1 by {
        let i = choose|i: int| 0 <= i < s.len() && (#[trigger] s[i]).0 <= v <= s[i].1;
        if 0 < i {
            assert(s[0].1 + 1 < s[i].0);
        }
        if i < n {
            assert(s[i].1 + 1 < s[n].0);
        }
    }
}

/// The change class that tells how the bounds went from `old_min..=old_max`
/// to `new_min..=new_max`, when a domain has only lost values.
pub open spec fn bounds_change(old_min: int, old_max: int, new_min: int, new_max: int) -> VariableState {
    if new_min > old_min && new_max < old_max {
        VariableState::BoundsChange
    } else if new_min > old_min {
        VariableState::MinBoundChange
    } else if new_max < old_max {
        VariableState::MaxBoundChange
    } else {
        VariableState::NoChange
    }
}

/// The change class of taking `value` out of a domain with the bounds
/// `min..=max` that holds some other value too; `present` tells whether the
/// value was there.
pub open spec fn removal_change(present: bool, min: int, max: int, value: int) -> VariableState {
    if !present {
        VariableState::NoChange
    } else if value == min {
        VariableState::MinBoundChange
    } else if value == max {
        VariableState::MaxBoundChange
    } else {
        VariableState::ValuesChange
    }
}

/// Dropping an interval that holds a single value takes just that value out.
pub proof fn lemma_drop_interval(s: Seq<(i32, i32)>, i: int)
    requires
        intervals_wf(s),
        0 <= i < s.len(),
        s[i].0 == s[i].1,
    ensures
        intervals_wf(s.remove(i)),
        forall|v: int|
            #[trigger] in_intervals(s.remove(i), v) <==> in_intervals(s, v) && v != s[i].0,
{
    let t = s.remove(i);
    assert forall|a: int, b: int| 0 <= a < b < t.len() implies (#[trigger] t[a]).1 + 1 < (
    #[trigger] t[b]).0 by {
        let a0 = if a < i { a } else { a + 1 };
        let b0 = if b < i { b } else { b + 1 };
        assert(s[a0].1 + 1 < s[b0].0);
    }
    assert forall|a: int| 0 <= a < t.len() implies (#[trigger] t[a]).0 <= t[a].1 by {
        let a0 = if a < i { a } else { a + 1 };
        assert(s[a0].0 <= s[a0].1);
    }
    assert forall|v: int| in_intervals(t, v) <==> in_intervals(s, v) && v != s[i].0 by {
        if in_intervals(t, v) {
            let a = choose|a: int| 0 <= a < t.len() && (#[trigger] t[a]).0 <= v <= t[a].1;
            let a0 = if a < i { a } else { a + 1 };
            assert(s[a0].0 <= v <= s[a0].1);
            if a0 < i {
                assert(s[a0].1 + 1 < s[i].0);
            } else {
                assert(s[i].1 + 1 < s[a0].0);
            }
        }
        if in_intervals(s, v) && v != s[i].0 {
            let a0 = choose|a: int| 0 <= a < s.len() && (#[trigger] s[a]).0 <= v <= s[a].1;
            let a = if a0 < i { a0 } else { a0 - 1 };
            assert(t[a].0 <= v <= t[a].1);
        }
    }
}

/// Narrowing one interval to a non-empty part of itself keeps the list
/// normalised and takes out what that interval no longer covers.
pub proof fn lemma_shrink_interval(s: Seq<(i32, i32)>, i: int, lo: i32, hi: i32)
    requires
        intervals_wf(s),
        0 <= i < s.len(),
        s[i].0 <= lo <= hi <= s[i].1,
    ensures
        intervals_wf(s.update(i, (lo, hi))),
        forall|v: int|
            #[trigger] in_intervals(s.update(i, (lo, hi)), v) <==> in_intervals(s, v) && !(s[i].0
                <= v < lo) && !(hi < v <= s[i].1),
{
    let t = s.update(i, (lo, hi));
    assert forall|a: int, b: int| 0 <= a < b < t.len() implies (#[trigger] t[a]).1 + 1 < (
    #[trigger] t[b]).0 by {
        assert(s[a].1 + 1 < s[b].0);
    }
    assert forall|a: int| 0 <= a < t.len() implies (#[trigger] t[a]).0 <= t[a].1 by {
        assert(s[a].0 <= s[a].1);
    }
    assert forall|v: int|
        in_intervals(t, v) <==> in_intervals(s, v) && !(s[i].0 <= v < lo) && !(hi < v
            <= s[i].1) by {
        if in_intervals(t, v) {
            let a = choose|a: int| 0 <= a < t.len() && (#[trigger] t[a]).0 <= v <= t[a].1;
            assert(s[a].0 <= v <= s[a].1);
            if a < i {
                assert(s[a].1 + 1 < s[i].0);
            } else if a > i {
                assert(s[i].1 + 1 < s[a].0);
            }
        }
        if in_intervals(s, v) && !(s[i].0 <= v < lo) && !(hi < v <= s[i].1) {
            let a = choose|a: int| 0 <= a < s.len() && (#[trigger] s[a]).0 <= v <= s[a].1;
            assert(t[a].0 <= v <= t[a].1);
        }
    }
}

/// The list `s` with its interval `i` cut in two around `value`.
pub open spec fn split_at(s: Seq<(i32, i32)>, i: int, value: int) -> Seq<(i32, i32)> {
    s.update(i, (s[i].0, (value - 1) as i32)).insert(i + 1, ((value + 1) as i32, s[i].1))
}

/// Cutting an interval in two around a value strictly inside it keeps the
/// list normalised and takes just that value out.
pub proof fn lemma_split_interval(s: Seq<(i32, i32)>, i: int, value: int)
    requires
        intervals_wf(s),
        0 <= i < s.len(),
        s[i].0 < value < s[i].1,
    ensures
        intervals_wf(split_at(s, i, value)),
        forall|v: int|
            #[trigger] in_intervals(split_at(s, i, value), v) <==> in_intervals(s, v) && v != value,
        split_at(s, i, value)[0].0 == s[0].0,
        split_at(s, i, value).last().1 == s.last().1,
{
    let t = split_at(s, i, value);
    assert forall|a: int| 0 <= a < t.len() implies (#[trigger] t[a]).0 <= t[a].1 by {
        let a0 = if a > i { a - 1 } else { a };
        assert(s[a0].0 <= s[a0].1);
    }
    assert forall|a: int, b: int| 0 <= a < b < t.len() implies (#[trigger] t[a]).1 + 1 < (
    #[trigger] t[b]).0 by {
        let a0 = if a > i { a - 1 } else { a };
        let b0 = if b > i { b - 1 } else { b };
        if a0 < b0 {
            assert(s[a0].1 + 1 < s[b0].0);
        }
    }
    assert forall|v: int| in_intervals(t, v) <==> in_intervals(s, v) && v != value by {
        if in_intervals(t, v) {
            let a = choose|a: int| 0 <= a < t.len() && (#[trigger] t[a]).0 <= v <= t[a].1;
            let a0 = if a > i { a - 1 } else { a };
            assert(s[a0].0 <= v <= s[a0].1);
            if a0 < i {
                assert(s[a0].1 + 1 < s[i].0);
            } else if a0 > i {
                assert(s[i].1 + 1 < s[a0].0);
            }
        }
        if in_intervals(s, v) && v != value {
            let a0 = choose|a: int| 0 <= a < s.len() && (#[trigger] s[a]).0 <= v <= s[a].1;
            if a0 < i {
                assert(t[a0].0 <= v <= t[a0].1);
            } else if a0 > i {
                assert(t[a0 + 1].0 <= v <= t[a0 + 1].1);
            } else if v > value {
                assert(t[i + 1].0 <= v <= t[i + 1].1);
            } else {
                assert(t[i].0 <= v <= t[i].1);
            }
        }
    }
}

/// Whether `x` is one of the first `k` entries of `s`.
pub open spec fn has_value_before(s: Seq<i32>, k: int, x: int) -> bool {
    exists|i: int| 0 <= i < k && i < s.len() && #[trigger] s[i] == x
}

/// Among the first `k + 1` entries are the first `k` and the entry at `k`.
pub proof fn lemma_one_more_value(s: Seq<i32>, k: int, x: int)
    requires
        0 <= k < s.len(),
    ensures
        has_value_before(s, k + 1, x) <==> has_value_before(s, k, x) || s[k] == x,
{
    if has_value_before(s, k + 1, x) {
        let i = choose|i: int| 0 <= i < k + 1 && i < s.len() && #[trigger] s[i] == x;
        if i < k {
            assert(has_value_before(s, k, x));
        }
    }
    if has_value_before(s, k, x) {
        let i = choose|i: int| 0 <= i < k && i < s.len() && #[trigger] s[i] == x;
        assert(0 <= i < k + 1 && s[i] == x);
    }
    if s[k] == x {
        assert(0 <= k < k + 1 && s[k] == x);
    }
}

/// Whether `x` is an entry of `s`.
pub open spec fn has_value(s: Seq<i32>, x: int) -> bool {
    has_value_before(s, s.len() as int, x)
}

/// Whether the entries of `s` are in ascending order.
pub open spec fn ascending(s: Seq<i32>) -> bool {
    forall|i: int, j: int| 0 <= i <= j < s.len() ==> s[i] <= s[j]
}

/// Appending an interval that starts at least two above the end of every
/// interval of a normalised list keeps the list normalised and adds just the
/// values of that interval.
pub proof fn lemma_push_interval(s: Seq<(i32, i32)>, lo: i32, hi: i32)
    requires
        intervals_wf(s),
        lo <= hi,
        forall|j: int| 0 <= j < s.len() ==> (#[trigger] s[j]).1 + 1 < lo,
    ensures
        intervals_wf(s.push((lo, hi))),
        forall|v: int|
            #[trigger] in_intervals(s.push((lo, hi)), v) <==> in_intervals(s, v) || lo <= v <= hi,
{
    let t = s.push((lo, hi));
    assert forall|a: int, b: int| 0 <= a < b < t.len() implies (#[trigger] t[a]).1 + 1 < (
    #[trigger] t[b]).0 by {
        if b < s.len() {
            assert(s[a].1 + 1 < s[b].0);
        } else {
            assert(s[a].1 + 1 < lo);
        }
    }
    assert forall|a: int| 0 <= a < t.len() implies (#[trigger] t[a]).0 <= t[a].1 by {
        if a < s.len() {
            assert(s[a].0 <= s[a].1);
        }
    }
    assert forall|v: int| in_intervals(t, v) <==> in_intervals(s, v) || lo <= v <= hi by {
        if in_intervals(t, v) {
            let a = choose|a: int| 0 <= a < t.len() && (#[trigger] t[a]).0 <= v <= t[a].1;
            if a < s.len() {
                assert(s[a].0 <= v <= s[a].1);
            }
        }
        if in_intervals(s, v) {
            let a = choose|a: int| 0 <= a < s.len() && (#[trigger] s[a]).0 <= v <= s[a].1;
            assert(t[a].0 <= v <= t[a].1);
        }
        if lo <= v <= hi {
            assert(t[s.len() as int].0 <= v <= t[s.len() as int].1);
        }
    }
}

/// Sorts `values` in place in ascending order with `<[i32]>::sort`: the
/// entries are the same, each as often as before.
#[verifier::external_body]
fn sort_values(values: &mut Vec<i32>)
    ensures
        final(values)@.to_multiset() == old(values)@.to_multiset(),
        ascending(final(values)@),
{
    values.sort();
}

/// Without its last interval a normalised list covers what lay below that
/// interval.
pub proof fn lemma_drop_last_values(s: Seq<(i32, i32)>)
    requires
        intervals_wf(s),
        s.len() > 0,
    ensures
        intervals_wf(s.drop_last()),
        forall|v: int| #[trigger]
            in_intervals(s.drop_last(), v) <==> in_intervals(s, v) && v < s.last().0,
{
    let t = s.drop_last();
    let n = s.len() - 1;
    assert forall|a: int, b: int| 0 <= a < b < t.len() implies (#[trigger] t[a]).1 + 1 < (
    #[trigger] t[b]).0 by {
        assert(s[a].1 + 1 < s[b].0);
    }
    assert forall|a: int| 0 <= a < t.len() implies (#[trigger] t[a]).0 <= t[a].1 by {
        assert(s[a].0 <= s[a].1);
    }
    assert forall|v: int| #[trigger]
        in_intervals(t, v) <==> in_intervals(s, v) && v < s.last().0 by {
        if in_intervals(t, v) {
            let a = choose|a: int| 0 <= a < t.len() && (#[trigger] t[a]).0 <= v <= t[a].1;
            assert(s[a].0 <= v <= s[a].1);
            assert(s[a].1 + 1 < s[n].0);
        }
        if in_intervals(s, v) && v < s.last().0 {
            let a = choose|a: int| 0 <= a < s.len() && (#[trigger] s[a]).0 <= v <= s[a].1;
            assert(t[a].0 <= v <= t[a].1);
        }
    }
}

/// A set of integers has one normalised interval list only.
pub proof fn lemma_same_values_same_intervals(a: Seq<(i32, i32)>, b: Seq<(i32, i32)>)
    requires
        intervals_wf(a),
        intervals_wf(b),
        forall|v: int| in_intervals(a, v) <==> in_intervals(b, v),
    ensures
        a == b,
    decreases a.len(),
{
    if a.len() == 0 {
        if b.len() > 0 {
            lemma_interval_bounds(b);
            assert(in_intervals(a, b[0].0 as int));
        }
        assert(a =~= b);
    } else {
        lemma_interval_bounds(a);
        if b.len() == 0 {
            assert(in_intervals(b, a[0].0 as int));
        }
        lemma_interval_bounds(b);
        let la = a.last();
        let lb = b.last();
        assert(in_intervals(b, la.1 as int));
        assert(in_intervals(a, lb.1 as int));
        assert(la.1 == lb.1);
        if la.0 < lb.0 {
            let v = lb.0 - 1;
            assert(a[a.len() - 1].0 <= v <= a[a.len() - 1].1);
            assert(in_intervals(b, v));
            let j = choose|j: int| 0 <= j < b.len() && (#[trigger] b[j]).0 <= v <= b[j].1;
            assert(j < b.len() - 1);
            assert(b[j].1 + 1 < b[b.len() - 1].0);
        }
        if lb.0 < la.0 {
            let v = la.0 - 1;
            assert(b[b.len() - 1].0 <= v <= b[b.len() - 1].1);
            assert(in_intervals(a, v));
            let j = choose|j: int| 0 <= j < a.len() && (#[trigger] a[j]).0 <= v <= a[j].1;
            assert(j < a.len() - 1);
            assert(a[j].1 + 1 < a[a.len() - 1].0);
        }
        assert(la == lb);
        lemma_drop_last_values(a);
        lemma_drop_last_values(b);
        lemma_same_values_same_intervals(a.drop_last(), b.drop_last());
        assert(a =~= a.drop_last().push(la));
        assert(b =~= b.drop_last().push(lb));
    }
}

/// The number of integers covered by the intervals of `s`, counted interval
/// by interval.
pub open spec fn span(s: Seq<(i32, i32)>) -> nat
    decreases s.len(),
{
    if s.len() == 0 {
        0
    } else {
        span(s.drop_last()) + (s.last().1 - s.last().0 + 1) as nat
    }
}

/// A normalised list covers finitely many integers, as many as its intervals
/// hold together.
pub proof fn lemma_values_len(s: Seq<(i32, i32)>)
    requires
        intervals_wf(s),
    ensures
        interval_values(s).finite(),
        interval_values(s).len() == span(s),
    decreases s.len(),
{
    if s.len() == 0 {
        assert(interval_values(s) =~= Set::<int>::empty());
    } else {
        let t = s.drop_last();
        let l = s.last();
        lemma_drop_last_values(s);
        lemma_values_len(t);
        let r = set_int_range(l.0 as int, l.1 + 1);
        lemma_int_range(l.0 as int, l.1 + 1);
        assert(interval_values(t).disjoint(r));
        assert(interval_values(s) =~= interval_values(t) + r) by {
            assert forall|v: int| interval_values(s).contains(v) <==> (interval_values(t) + r).contains(
                v,
            ) by {
                if in_intervals(s, v) {
                    let a = choose|a: int| 0 <= a < s.len() && (#[trigger] s[a]).0 <= v <= s[a].1;
                    if a < s.len() - 1 {
                        assert(s[a].1 + 1 < s[s.len() - 1].0);
                    }
                }
                if r.contains(v) {
                    assert(s[s.len() - 1].0 <= v <= s[s.len() - 1].1);
                }
            }
        }
        lemma_set_disjoint_lens(interval_values(t), r);
    }
}

/// A prefix of a list holds no more values than the list.
pub proof fn lemma_span_take(s: Seq<(i32, i32)>, k: int)
    requires
        intervals_wf(s),
        0 <= k <= s.len(),
    ensures
        span(s.take(k)) <= span(s),
    decreases s.len() - k,
{
    if k < s.len() {
        lemma_span_take(s, k + 1);
        assert(s.take(k + 1).drop_last() =~= s.take(k));
    } else {
        assert(s.take(k) =~= s);
    }
}

/// A normalised list holds at most as many values as lie between its first
/// start and its last end, and exactly one when those two are the same.
pub proof fn lemma_span_bounds(s: Seq<(i32, i32)>)
    requires
        intervals_wf(s),
        s.len() > 0,
    ensures
        1 <= span(s) <= s.last().1 - s[0].0 + 1,
        span(s) == 1 <==> s[0].0 == s.last().1,
    decreases s.len(),
{
    let t = s.drop_last();
    if t.len() > 0 {
        lemma_drop_last_values(s);
        lemma_span_bounds(t);
        assert(t.last() == s[s.len() - 2]);
        assert(s[s.len() - 2].1 + 1 < s[s.len() - 1].0);
        assert(t[0] == s[0]);
    } else {
        assert(span(t) == 0);
    }
}

/// Without its first interval a normalised list covers what lay above that
/// interval.
pub proof fn lemma_drop_first_values(s: Seq<(i32, i32)>)
    requires
        intervals_wf(s),
        s.len() > 0,
    ensures
        intervals_wf(s.drop_first()),
        forall|v: int| #[trigger]
            in_intervals(s.drop_first(), v) <==> in_intervals(s, v) && v > s[0].1,
{
    let t = s.drop_first();
    assert forall|a: int, b: int| 0 <= a < b < t.len() implies (#[trigger] t[a]).1 + 1 < (
    #[trigger] t[b]).0 by {
        assert(s[a + 1].1 + 1 < s[b + 1].0);
    }
    assert forall|a: int| 0 <= a < t.len() implies (#[trigger] t[a]).0 <= t[a].1 by {
        assert(s[a + 1].0 <= s[a + 1].1);
    }
    assert forall|v: int| #[trigger]
        in_intervals(t, v) <==> in_intervals(s, v) && v > s[0].1 by {
        if in_intervals(t, v) {
            let a = choose|a: int| 0 <= a < t.len() && (#[trigger] t[a]).0 <= v <= t[a].1;
            assert(s[a + 1].0 <= v <= s[a + 1].1);
            assert(s[0].1 + 1 < s[a + 1].0);
        }
        if in_intervals(s, v) && v > s[0].1 {
            let a = choose|a: int| 0 <= a < s.len() && (#[trigger] s[a]).0 <= v <= s[a].1;
            assert(t[a - 1].0 <= v <= t[a - 1].1);
        }
    }
}

/// The integers from `lo` to `hi`, both included, in ascending order.
pub open spec fn range_seq(lo: int, hi: int) -> Seq<int> {
    if lo <= hi {
        Seq::new((hi - lo + 1) as nat, |i: int| lo + i)
    } else {
        Seq::empty()
    }
}

/// The integers covered by the intervals of `s`, interval after interval.
pub open spec fn values_seq(s: Seq<(i32, i32)>) -> Seq<int>
    decreases s.len(),
{
    if s.len() == 0 {
        Seq::empty()
    } else {
        range_seq(s[0].0 as int, s[0].1 as int) + values_seq(s.drop_first())
    }
}

/// The enumeration of a normalised list holds exactly the covered values,
/// each once and in strictly ascending order.
pub proof fn lemma_values_seq(s: Seq<(i32, i32)>)
    requires
        intervals_wf(s),
    ensures
        forall|v: int| #[trigger] values_seq(s).contains(v) <==> in_intervals(s, v),
        forall|i: int, j: int|
            0 <= i < j < values_seq(s).len() ==> #[trigger] values_seq(s)[i] < #[trigger] values_seq(
                s,
            )[j],
        forall|i: int|
            0 <= i < values_seq(s).len() ==> i32::MIN <= #[trigger] values_seq(s)[i] <= i32::MAX,
    decreases s.len(),
{
    let e = values_seq(s);
    if s.len() > 0 {
        let t = s.drop_first();
        let r = range_seq(s[0].0 as int, s[0].1 as int);
        let f = values_seq(t);
        lemma_drop_first_values(s);
        lemma_values_seq(t);
        assert(e == r + f);
        assert forall|v: int| #[trigger] e.contains(v) <==> in_intervals(s, v) by {
            if e.contains(v) {
                let i = choose|i: int| 0 <= i < e.len() && e[i] == v;
                if i < r.len() {
                    assert(s[0].0 <= v <= s[0].1);
                } else {
                    assert(f[i - r.len()] == v);
                    assert(f.contains(v));
                }
            }
            if in_intervals(s, v) {
                if v > s[0].1 {
                    assert(f.contains(v));
                    let i = choose|i: int| 0 <= i < f.len() && f[i] == v;
                    assert(e[i + r.len()] == v);
                } else {
                    let a = choose|a: int| 0 <= a < s.len() && (#[trigger] s[a]).0 <= v <= s[a].1;
                    if a > 0 {
                        assert(s[0].1 + 1 < s[a].0);
                    }
                    assert(e[v - s[0].0] == v);
                }
            }
        }
        assert forall|i: int, j: int| 0 <= i < j < e.len() implies #[trigger] e[i] < #[trigger] e[j] by {
            if j >= r.len() {
                assert(f.contains(f[j - r.len()]));
                assert(in_intervals(t, e[j]));
            }
        }
        assert forall|i: int| 0 <= i < e.len() implies i32::MIN <= #[trigger] e[i] <= i32::MAX by {
            if i >= r.len() {
                assert(e[i] == f[i - r.len()]);
            }
        }
    }
}

/// The change class of a domain that has only lost values: the class of its
/// bounds where one of them moved, and a change of values where the bounds
/// stayed and something between them left.
pub open spec fn narrowing_change(
    old_min: int,
    old_max: int,
    new_min: int,
    new_max: int,
    same_values: bool,
) -> VariableState {
    if bounds_change(old_min, old_max, new_min, new_max) != VariableState::NoChange {
        bounds_change(old_min, old_max, new_min, new_max)
    } else if same_values {
        VariableState::NoChange
    } else {
        VariableState::ValuesChange
    }
}

/// Whether `v` lies in an interval of `a` and in one of `b`, of which the
/// first is among the first `i` of `a` or the second among the first `j` of `b`.
pub open spec fn common_before(
    a: Seq<(i32, i32)>,
    b: Seq<(i32, i32)>,
    i: int,
    j: int,
    v: int,
) -> bool {
    exists|p: int, q: int|
        0 <= p < a.len() && 0 <= q < b.len() && (#[trigger] a[p]).0 <= v <= a[p].1 && (
        #[trigger] b[q]).0 <= v <= b[q].1 && (p < i || q < j)
}

/// One step of the walk that intersects two normalised lists: the interval
/// of `a` at `i` ends no later than the one of `b` at `j`, so what the two
/// share is all that `a[i]` shares with `b` from `j` on.
proof fn lemma_common_step(
    a: Seq<(i32, i32)>,
    b: Seq<(i32, i32)>,
    i: int,
    j: int,
    v: int,
)
    requires
        intervals_wf(a),
        intervals_wf(b),
        0 <= i < a.len(),
        0 <= j < b.len(),
        a[i].1 <= b[j].1,
    ensures
        common_before(a, b, i + 1, j, v) <==> common_before(a, b, i, j, v) || (a[i].0 <= v
            <= a[i].1 && b[j].0 <= v),
{
    if common_before(a, b, i + 1, j, v) {
        let (p, q) = choose|p: int, q: int|
            0 <= p < a.len() && 0 <= q < b.len() && (#[trigger] a[p]).0 <= v <= a[p].1 && (
            #[trigger] b[q]).0 <= v <= b[q].1 && (p < i + 1 || q < j);
        if p < i || q < j {
            assert(common_before(a, b, i, j, v));
        } else {
            assert(p == i);
            if q > j {
                assert(b[j].1 + 1 < b[q].0);
            }
        }
    }
    if common_before(a, b, i, j, v) {
        let (p, q) = choose|p: int, q: int|
            0 <= p < a.len() && 0 <= q < b.len() && (#[trigger] a[p]).0 <= v <= a[p].1 && (
            #[trigger] b[q]).0 <= v <= b[q].1 && (p < i || q < j);
        assert(a[p].0 <= v <= a[p].1 && b[q].0 <= v <= b[q].1 && (p < i + 1 || q < j));
    }
    if a[i].0 <= v <= a[i].1 && b[j].0 <= v {
        assert(a[i].0 <= v <= a[i].1 && b[j].0 <= v <= b[j].1 && (i < i + 1 || j < j));
    }
}

/// Once one of the two lists has been walked through, every shared value has
/// been met.
proof fn lemma_common_done(a: Seq<(i32, i32)>, b: Seq<(i32, i32)>, i: int, j: int, v: int)
    requires
        i == a.len() || j == b.len(),
        0 <= i <= a.len(),
        0 <= j <= b.len(),
    ensures
        common_before(a, b, i, j, v) <==> in_intervals(a, v) && in_intervals(b, v),
{
    if in_intervals(a, v) && in_intervals(b, v) {
        let p = choose|p: int| 0 <= p < a.len() && (#[trigger] a[p]).0 <= v <= a[p].1;
        let q = choose|q: int| 0 <= q < b.len() && (#[trigger] b[q]).0 <= v <= b[q].1;
        assert(a[p].0 <= v <= a[p].1 && b[q].0 <= v <= b[q].1 && (p < i || q < j));
    }
    if common_before(a, b, i, j, v) {
        let (p, q) = choose|p: int, q: int|
            0 <= p < a.len() && 0 <= q < b.len() && (#[trigger] a[p]).0 <= v <= a[p].1 && (
            #[trigger] b[q]).0 <= v <= b[q].1 && (p < i || q < j);
        assert(a[p].0 <= v <= a[p].1);
        assert(b[q].0 <= v <= b[q].1);
    }
}

/// The normalised list of the values that two normalised lists share.
#[verifier::rlimit(50)]
fn intersect(a: &Vec<(i32, i32)>, b: &Vec<(i32, i32)>) -> (out: Vec<(i32, i32)>)
    requires
        intervals_wf(a@),
        intervals_wf(b@),
    ensures
        intervals_wf(out@),
        forall|v: int| #[trigger] in_intervals(out@, v) <==> in_intervals(a@, v) && in_intervals(b@, v),
{
    let mut out: Vec<(i32, i32)> = Vec::new();
    let mut i: usize = 0;
    let mut j: usize = 0;
    while i < a.len() && j < b.len()
        invariant
            intervals_wf(a@),
            intervals_wf(b@),
            intervals_wf(out@),
            i <= a@.len(),
            j <= b@.len(),
            forall|k: int|
                0 <= k < out@.len() && i < a@.len() && j < b@.len() ==> (#[trigger] out@[k]).1 + 1
                    < a@[i as int].0 || out@[k].1 + 1 < b@[j as int].0,
            forall|v: int| #[trigger]
                in_intervals(out@, v) <==> common_before(a@, b@, i as int, j as int, v),
        decreases (a@.len() - i) + (b@.len() - j),
    {
        let (alo, ahi) = a[i];
        let (blo, bhi) = b[j];
        let lo: i32 = if alo < blo { blo } else { alo };
        let hi: i32 = if ahi < bhi { ahi } else { bhi };
        let ghost before = out@;
        if lo <= hi {
            proof {
                lemma_push_interval(before, lo, hi);
            }
            out.push((lo, hi));
        }
        assert forall|v: int| #[trigger]
            in_intervals(out@, v) <==> in_intervals(before, v) || lo <= v <= hi by {}
        if ahi <= bhi {
            proof {
                assert forall|v: int| #[trigger]
                    in_intervals(out@, v) <==> common_before(a@, b@, i + 1, j as int, v) by {
                    lemma_common_step(a@, b@, i as int, j as int, v);
                }
                assert forall|k: int|
                    0 <= k < out@.len() && i + 1 < a@.len() && j < b@.len() implies (
                #[trigger] out@[k]).1 + 1 < a@[i + 1].0 || out@[k].1 + 1 < b@[j as int].0 by {
                    assert(a@[i as int].1 + 1 < a@[i + 1].0);
                }
            }
            i = i + 1;
        } else {
            proof {
                assert forall|v: int| #[trigger]
                    in_intervals(out@, v) <==> common_before(a@, b@, i as int, j + 1, v) by {
                    lemma_common_step(b@, a@, j as int, i as int, v);
                    lemma_common_swap(a@, b@, i as int, j as int, v);
                    lemma_common_swap(a@, b@, i as int, j + 1, v);
                }
                assert forall|k: int|
                    0 <= k < out@.len() && i < a@.len() && j + 1 < b@.len() implies (
                #[trigger] out@[k]).1 + 1 < a@[i as int].0 || out@[k].1 + 1 < b@[j + 1].0 by {
                    assert(b@[j as int].1 + 1 < b@[j + 1].0);
                }
            }
            j = j + 1;
        }
    }
    proof {
        assert forall|v: int| #[trigger]
            in_intervals(out@, v) <==> in_intervals(a@, v) && in_intervals(b@, v) by {
            lemma_common_done(a@, b@, i as int, j as int, v);
        }
    }
    out
}

/// Whether two interval lists are the same.
fn same_intervals(a: &Vec<(i32, i32)>, b: &Vec<(i32, i32)>) -> (r: bool)
    ensures
        r == (a@ == b@),
{
    if a.len() != b.len() {
        assert(a@.len() != b@.len());
        return false;
    }
    let mut k: usize = 0;
    while k < a.len()
        invariant
            k <= a@.len(),
            a@.len() == b@.len(),
            a@.take(k as int) == b@.take(k as int),
        decreases a@.len() - k,
    {
        let x = a[k];
        let y = b[k];
        if x.0 != y.0 || x.1 != y.1 {
            assert(a@[k as int] != b@[k as int]);
            return false;
        }
        assert(a@.take(k + 1) =~= a@.take(k as int).push(x));
        assert(b@.take(k + 1) =~= b@.take(k as int).push(y));
        k = k + 1;
    }
    assert(a@.take(k as int) =~= a@);
    assert(b@.take(k as int) =~= b@);
    true
}

/// The shared values of two lists do not depend on which list is named first.
proof fn lemma_common_swap(a: Seq<(i32, i32)>, b: Seq<(i32, i32)>, i: int, j: int, v: int)
    ensures
        common_before(a, b, i, j, v) <==> common_before(b, a, j, i, v),
{
    if common_before(a, b, i, j, v) {
        let (p, q) = choose|p: int, q: int|
            0 <= p < a.len() && 0 <= q < b.len() && (#[trigger] a[p]).0 <= v <= a[p].1 && (
            #[trigger] b[q]).0 <= v <= b[q].1 && (p < i || q < j);
        assert(b[q].0 <= v <= b[q].1 && a[p].0 <= v <= a[p].1 && (q < j || p < i));
    }
    if common_before(b, a, j, i, v) {
        let (q, p) = choose|q: int, p: int|
            0 <= q < b.len() && 0 <= p < a.len() && (#[trigger] b[q]).0 <= v <= b[q].1 && (
            #[trigger] a[p]).0 <= v <= a[p].1 && (q < j || p < i);
        assert(a[p].0 <= v <= a[p].1 && b[q].0 <= v <= b[q].1 && (p < i || q < j));
    }
}

/// An integer variable: a non-empty finite set of `i32` values, kept as a
/// normalised interval list together with its smallest and largest value.
#[derive(Debug)]
pub struct IntVar {
    min: i32,
    max: i32,
    domain: Vec<(i32, i32)>,
}

impl View for IntVar {
    type V = Set<int>;

    /// The values the variable may still take.
    open spec fn view(&self) -> Set<int> {
        interval_values(self.intervals())
    }
}

impl IntVar {
    /// The interval list, in ascending order.
    pub closed spec fn intervals(&self) -> Seq<(i32, i32)> {
        self.domain@
    }

    /// The cached lower bound.
    pub closed spec fn spec_min(&self) -> int {
        self.min as int
    }

    /// The cached upper bound.
    pub closed spec fn spec_max(&self) -> int {
        self.max as int
    }

    /// The invariant of a variable at rest: a non-empty normalised interval
    /// list whose first start and last end are the cached bounds.
    pub open spec fn wf(&self) -> bool {
        &&& self.intervals().len() > 0
        &&& intervals_wf(self.intervals())
        &&& self.spec_min() == self.intervals()[0].0
        &&& self.spec_max() == self.intervals().last().1
    }

    /// Builds the variable whose domain is the range `min..=max`; there is
    /// none when the range is empty.
    pub fn new(min: i32, max: i32) -> (r: Option<IntVar>)
        ensures
            r is None <==> min > max,
            r matches Some(v) ==> {
                &&& v.wf()
                &&& v.intervals() == seq![(min, max)]
                &&& v.spec_min() == min
                &&& v.spec_max() == max
                &&& forall|x: int| v@.contains(x) <==> min <= x <= max
            },
    {
        if min > max {
            None
        } else {
            let mut domain: Vec<(i32, i32)> = Vec::new();
            domain.push((min, max));
            let v = IntVar { min, max, domain };
            proof {
                assert(v.intervals() =~= seq![(min, max)]);
                assert forall|x: int| v@.contains(x) <==> min <= x <= max by {
                    if min <= x <= max {
                        assert(v.intervals()[0].0 <= x <= v.intervals()[0].1);
                    }
                }
            }
            Some(v)
        }
    }

    /// Keeps the values that are at most `new_bsup`, which must not lie
    /// below the lower bound, and tells whether the upper bound moved.
    fn update_bsup(&mut self, new_bsup: i32) -> (st: VariableState)
        requires
            old(self).wf(),
            old(self).spec_min() <= new_bsup,
        ensures
            final(self).wf(),
            forall|v: int| final(self)@.contains(v) <==> old(self)@.contains(v) && v <= new_bsup,
            final(self).spec_min() == old(self).spec_min(),
            final(self).spec_max() <= old(self).spec_max(),
            final(self).spec_max() <= new_bsup,
            st == if final(self).spec_max() < old(self).spec_max() {
                VariableState::MaxBoundChange
            } else {
                VariableState::NoChange
            },
            st == VariableState::NoChange <==> old(self).spec_max() <= new_bsup,
            st == VariableState::NoChange ==> *final(self) == *old(self),
    {
        proof {
            lemma_interval_bounds(self.intervals());
        }
        if new_bsup >= self.max {
            return VariableState::NoChange;
        }
        let ghost before = self.domain@;
        let mut k: usize = self.domain.len() - 1;
        while self.domain[k].0 > new_bsup
            invariant
                self.domain@ == before,
                k < before.len(),
                before[0].0 <= new_bsup,
                forall|j: int| k < j < before.len() ==> (#[trigger] before[j]).0 > new_bsup,
            decreases k,
        {
            k = k - 1;
        }
        let (lo, hi) = self.domain[k];
        self.domain.truncate(k + 1);
        let top: i32 = if new_bsup < hi { new_bsup } else { hi };
        self.domain.set(k, (lo, top));
        self.max = top;
        proof {
            let after = self.domain@;
            assert(after.len() == k + 1);
            assert forall|i: int| 0 <= i < k implies after[i] == before[i] by {}
            assert(intervals_wf(after)) by {
                assert forall|i: int, j: int| 0 <= i < j < after.len() implies (#[trigger] after[i]).1
                    + 1 < (#[trigger] after[j]).0 by {
                    assert(before[i].1 + 1 < before[j].0);
                }
            }
            assert forall|v: int| self@.contains(v) <==> in_intervals(before, v) && v
                <= new_bsup by {
                if in_intervals(after, v) {
                    let i = choose|i: int| 0 <= i < after.len() && (#[trigger] after[i]).0 <= v <= after[i].1;
                    assert(before[i].0 <= v <= before[i].1);
                    if i < k {
                        assert(before[i].1 + 1 < before[k as int].0);
                    }
                }
                if in_intervals(before, v) && v <= new_bsup {
                    let i = choose|i: int| 0 <= i < before.len() && (#[trigger] before[i]).0 <= v <= before[i].1;
                    assert(i <= k);
                    assert(after[i].0 <= v <= after[i].1);
                }
            }
            if k as int == before.len() - 1 {
                assert(hi == before.last().1);
            } else {
                assert(before[k as int].1 + 1 < before[before.len() - 1].0);
            }
        }
        VariableState::MaxBoundChange
    }

    /// Keeps the values below `bsup`. This fails, and leaves the variable as
    /// it is, exactly when no value is below `bsup`.
    pub fn update_strict_bsup(&mut self, bsup: i32) -> (r: Result<VariableState, VariableError>)
        requires
            old(self).wf(),
        ensures
            final(self).wf(),
            r is Err <==> bsup <= old(self).spec_min(),
            r is Err ==> *final(self) == *old(self),
            r matches Ok(st) ==> {
                &&& forall|v: int| final(self)@.contains(v) <==> old(self)@.contains(v) && v < bsup
                &&& final(self).spec_min() == old(self).spec_min()
                &&& final(self).spec_max() <= old(self).spec_max()
                &&& final(self).spec_max() < bsup
                &&& st == if final(self).spec_max() < old(self).spec_max() {
                    VariableState::MaxBoundChange
                } else {
                    VariableState::NoChange
                }
                &&& st == VariableState::NoChange <==> old(self).spec_max() < bsup
                &&& st == VariableState::NoChange ==> *final(self) == *old(self)
            },
    {
        if bsup <= self.min {
            return Err(VariableError::DomainWipeout);
        }
        Ok(self.update_bsup(bsup - 1))
    }

    /// Keeps the values that are at most `bsup`. This fails, and leaves the
    /// variable as it is, exactly when every value is above `bsup`.
    pub fn update_weak_bsup(&mut self, bsup: i32) -> (r: Result<VariableState, VariableError>)
        requires
            old(self).wf(),
        ensures
            final(self).wf(),
            r is Err <==> bsup < old(self).spec_min(),
            r is Err ==> *final(self) == *old(self),
            r matches Ok(st) ==> {
                &&& forall|v: int| final(self)@.contains(v) <==> old(self)@.contains(v) && v <= bsup
                &&& final(self).spec_min() == old(self).spec_min()
                &&& final(self).spec_max() <= old(self).spec_max()
                &&& final(self).spec_max() <= bsup
                &&& st == if final(self).spec_max() < old(self).spec_max() {
                    VariableState::MaxBoundChange
                } else {
                    VariableState::NoChange
                }
                &&& st == VariableState::NoChange <==> old(self).spec_max() <= bsup
                &&& st == VariableState::NoChange ==> *final(self) == *old(self)
            },
    {
        if bsup < self.min {
            return Err(VariableError::DomainWipeout);
        }
        Ok(self.update_bsup(bsup))
    }

    /// Keeps the values that are at least `new_binf`, which must not lie
    /// above the upper bound, and tells whether the lower bound moved.
    fn update_binf(&mut self, new_binf: i32) -> (st: VariableState)
        requires
            old(self).wf(),
            new_binf <= old(self).spec_max(),
        ensures
            final(self).wf(),
            forall|v: int| final(self)@.contains(v) <==> old(self)@.contains(v) && new_binf <= v,
            final(self).spec_max() == old(self).spec_max(),
            final(self).spec_min() >= old(self).spec_min(),
            final(self).spec_min() >= new_binf,
            st == if final(self).spec_min() > old(self).spec_min() {
                VariableState::MinBoundChange
            } else {
                VariableState::NoChange
            },
            st == VariableState::NoChange <==> new_binf <= old(self).spec_min(),
            st == VariableState::NoChange ==> *final(self) == *old(self),
    {
        proof {
            lemma_interval_bounds(self.intervals());
        }
        if new_binf <= self.min {
            return VariableState::NoChange;
        }
        let ghost before = self.domain@;
        let mut k: usize = 0;
        while self.domain[k].1 < new_binf
            invariant
                self.domain@ == before,
                k < before.len(),
                new_binf <= before.last().1,
                forall|j: int| 0 <= j < k ==> (#[trigger] before[j]).1 < new_binf,
            decreases before.len() - k,
        {
            assert(k as int != before.len() - 1);
            assert(before.len() == self.domain.len());
            k = k + 1;
        }
        let (lo, hi) = self.domain[k];
        let bottom: i32 = if new_binf > lo { new_binf } else { lo };
        let mut tail = self.domain.split_off(k);
        tail.set(0, (bottom, hi));
        self.domain = tail;
        self.min = bottom;
        proof {
            let after = self.domain@;
            assert(after.len() == before.len() - k);
            assert forall|i: int| 0 < i < after.len() implies after[i] == before[i + k] by {}
            assert(intervals_wf(after)) by {
                assert forall|i: int, j: int| 0 <= i < j < after.len() implies (#[trigger] after[i]).1
                    + 1 < (#[trigger] after[j]).0 by {
                    assert(before[i + k].1 + 1 < before[j + k].0);
                }
            }
            assert forall|v: int| self@.contains(v) <==> in_intervals(before, v) && new_binf
                <= v by {
                if in_intervals(after, v) {
                    let i = choose|i: int| 0 <= i < after.len() && (#[trigger] after[i]).0 <= v <= after[i].1;
                    assert(before[i + k].0 <= v <= before[i + k].1);
                    if i > 0 {
                        assert(before[k as int].1 + 1 < before[i + k].0);
                    }
                }
                if in_intervals(before, v) && new_binf <= v {
                    let i = choose|i: int| 0 <= i < before.len() && (#[trigger] before[i]).0 <= v <= before[i].1;
                    assert(i >= k);
                    assert(after[i - k].0 <= v <= after[i - k].1);
                }
            }
            if k > 0 {
                assert(before[0].1 + 1 < before[k as int].0);
            }
        }
        VariableState::MinBoundChange
    }

    /// Keeps the values above `binf`. This fails, and leaves the variable as
    /// it is, exactly when no value is above `binf`.
    pub fn update_strict_binf(&mut self, binf: i32) -> (r: Result<VariableState, VariableError>)
        requires
            old(self).wf(),
        ensures
            final(self).wf(),
            r is Err <==> binf >= old(self).spec_max(),
            r is Err ==> *final(self) == *old(self),
            r matches Ok(st) ==> {
                &&& forall|v: int| final(self)@.contains(v) <==> old(self)@.contains(v) && binf < v
                &&& final(self).spec_max() == old(self).spec_max()
                &&& final(self).spec_min() >= old(self).spec_min()
                &&& final(self).spec_min() > binf
                &&& st == if final(self).spec_min() > old(self).spec_min() {
                    VariableState::MinBoundChange
                } else {
                    VariableState::NoChange
                }
                &&& st == VariableState::NoChange <==> binf < old(self).spec_min()
                &&& st == VariableState::NoChange ==> *final(self) == *old(self)
            },
    {
        if binf >= self.max {
            return Err(VariableError::DomainWipeout);
        }
        Ok(self.update_binf(binf + 1))
    }

    /// Keeps the values that are at least `binf`. This fails, and leaves the
    /// variable as it is, exactly when every value is below `binf`.
    pub fn update_weak_binf(&mut self, binf: i32) -> (r: Result<VariableState, VariableError>)
        requires
            old(self).wf(),
        ensures
            final(self).wf(),
            r is Err <==> binf > old(self).spec_max(),
            r is Err ==> *final(self) == *old(self),
            r matches Ok(st) ==> {
                &&& forall|v: int| final(self)@.contains(v) <==> old(self)@.contains(v) && binf <= v
                &&& final(self).spec_max() == old(self).spec_max()
                &&& final(self).spec_min() >= old(self).spec_min()
                &&& final(self).spec_min() >= binf
                &&& st == if final(self).spec_min() > old(self).spec_min() {
                    VariableState::MinBoundChange
                } else {
                    VariableState::NoChange
                }
                &&& st == VariableState::NoChange <==> binf <= old(self).spec_min()
                &&& st == VariableState::NoChange ==> *final(self) == *old(self)
            },
    {
        if binf > self.max {
            return Err(VariableError::DomainWipeout);
        }
        Ok(self.update_binf(binf))
    }

    /// Narrows `self` and `value` so that `self < value` can hold: `self`
    /// keeps what lies below the largest value of `value`, and `value` what
    /// lies above the smallest value of `self`. This fails, and leaves both as
    /// they are, exactly when no pair of values is in that order.
    pub fn less_than(&mut self, value: &mut IntVar) -> (r: Result<
        (VariableState, VariableState),
        VariableError,
    >)
        requires
            old(self).wf(),
            old(value).wf(),
        ensures
            final(self).wf(),
            final(value).wf(),
            r is Err <==> old(value).spec_max() <= old(self).spec_min(),
            r is Err ==> *final(self) == *old(self) && *final(value) == *old(value),
            r matches Ok(st) ==> {
                &&& forall|v: int|
                    final(self)@.contains(v) <==> old(self)@.contains(v) && v < old(
                        value,
                    ).spec_max()
                &&& forall|v: int|
                    final(value)@.contains(v) <==> old(value)@.contains(v) && old(self).spec_min()
                        < v
                &&& final(self).spec_min() == old(self).spec_min()
                &&& final(value).spec_max() == old(value).spec_max()
                &&& final(self).spec_max() < final(value).spec_max()
                &&& final(self).spec_min() < final(value).spec_min()
                &&& st.0 == if final(self).spec_max() < old(self).spec_max() {
                    VariableState::MaxBoundChange
                } else {
                    VariableState::NoChange
                }
                &&& st.1 == if final(value).spec_min() > old(value).spec_min() {
                    VariableState::MinBoundChange
                } else {
                    VariableState::NoChange
                }
                &&& st.0 == VariableState::NoChange ==> *final(self) == *old(self)
                &&& st.1 == VariableState::NoChange ==> *final(value) == *old(value)
            },
    {
        let state_self = self.update_strict_bsup(value.max)?;
        let state_value = value.update_strict_binf(self.min)?;
        Ok((state_self, state_value))
    }

    /// Narrows `self` and `value` so that `self <= value` can hold. This
    /// fails, and leaves both as they are, exactly when every value of `self`
    /// is above every value of `value`.
    pub fn less_or_equal_than(&mut self, value: &mut IntVar) -> (r: Result<
        (VariableState, VariableState),
        VariableError,
    >)
        requires
            old(self).wf(),
            old(value).wf(),
        ensures
            final(self).wf(),
            final(value).wf(),
            r is Err <==> old(value).spec_max() < old(self).spec_min(),
            r is Err ==> *final(self) == *old(self) && *final(value) == *old(value),
            r matches Ok(st) ==> {
                &&& forall|v: int|
                    final(self)@.contains(v) <==> old(self)@.contains(v) && v <= old(
                        value,
                    ).spec_max()
                &&& forall|v: int|
                    final(value)@.contains(v) <==> old(value)@.contains(v) && old(self).spec_min()
                        <= v
                &&& final(self).spec_min() == old(self).spec_min()
                &&& final(value).spec_max() == old(value).spec_max()
                &&& final(self).spec_max() <= final(value).spec_max()
                &&& final(self).spec_min() <= final(value).spec_min()
                &&& st.0 == if final(self).spec_max() < old(self).spec_max() {
                    VariableState::MaxBoundChange
                } else {
                    VariableState::NoChange
                }
                &&& st.1 == if final(value).spec_min() > old(value).spec_min() {
                    VariableState::MinBoundChange
                } else {
                    VariableState::NoChange
                }
                &&& st.0 == VariableState::NoChange ==> *final(self) == *old(self)
                &&& st.1 == VariableState::NoChange ==> *final(value) == *old(value)
            },
    {
        let state_self = self.update_weak_bsup(value.max)?;
        let state_value = value.update_weak_binf(self.min)?;
        Ok((state_self, state_value))
    }

    /// Narrows `self` and `value` so that `self > value` can hold; the mirror
    /// image of [`IntVar::less_than`].
    pub fn greater_than(&mut self, value: &mut IntVar) -> (r: Result<
        (VariableState, VariableState),
        VariableError,
    >)
        requires
            old(self).wf(),
            old(value).wf(),
        ensures
            final(self).wf(),
            final(value).wf(),
            r is Err <==> old(self).spec_max() <= old(value).spec_min(),
            r is Err ==> *final(self) == *old(self) && *final(value) == *old(value),
            r matches Ok(st) ==> {
                &&& forall|v: int|
                    final(self)@.contains(v) <==> old(self)@.contains(v) && old(value).spec_min()
                        < v
                &&& forall|v: int|
                    final(value)@.contains(v) <==> old(value)@.contains(v) && v < old(
                        self,
                    ).spec_max()
                &&& final(self).spec_max() == old(self).spec_max()
                &&& final(value).spec_min() == old(value).spec_min()
                &&& final(value).spec_max() < final(self).spec_max()
                &&& final(value).spec_min() < final(self).spec_min()
                &&& st.0 == if final(self).spec_min() > old(self).spec_min() {
                    VariableState::MinBoundChange
                } else {
                    VariableState::NoChange
                }
                &&& st.1 == if final(value).spec_max() < old(value).spec_max() {
                    VariableState::MaxBoundChange
                } else {
                    VariableState::NoChange
                }
                &&& st.0 == VariableState::NoChange ==> *final(self) == *old(self)
                &&& st.1 == VariableState::NoChange ==> *final(value) == *old(value)
            },
    {
        let state_self = self.update_strict_binf(value.min)?;
        let state_value = value.update_strict_bsup(self.max)?;
        Ok((state_self, state_value))
    }

    /// Narrows `self` and `value` so that `self >= value` can hold; the
    /// mirror image of [`IntVar::less_or_equal_than`].
    pub fn greater_or_equal_than(&mut self, value: &mut IntVar) -> (r: Result<
        (VariableState, VariableState),
        VariableError,
    >)
        requires
            old(self).wf(),
            old(value).wf(),
        ensures
            final(self).wf(),
            final(value).wf(),
            r is Err <==> old(self).spec_max() < old(value).spec_min(),
            r is Err ==> *final(self) == *old(self) && *final(value) == *old(value),
            r matches Ok(st) ==> {
                &&& forall|v: int|
                    final(self)@.contains(v) <==> old(self)@.contains(v) && old(value).spec_min()
                        <= v
                &&& forall|v: int|
                    final(value)@.contains(v) <==> old(value)@.contains(v) && v <= old(
                        self,
                    ).spec_max()
                &&& final(self).spec_max() == old(self).spec_max()
                &&& final(value).spec_min() == old(value).spec_min()
                &&& final(value).spec_max() <= final(self).spec_max()
                &&& final(value).spec_min() <= final(self).spec_min()
                &&& st.0 == if final(self).spec_min() > old(self).spec_min() {
                    VariableState::MinBoundChange
                } else {
                    VariableState::NoChange
                }
                &&& st.1 == if final(value).spec_max() < old(value).spec_max() {
                    VariableState::MaxBoundChange
                } else {
                    VariableState::NoChange
                }
                &&& st.0 == VariableState::NoChange ==> *final(self) == *old(self)
                &&& st.1 == VariableState::NoChange ==> *final(value) == *old(value)
            },
    {
        let state_self = self.update_weak_binf(value.min)?;
        let state_value = value.update_weak_bsup(self.max)?;
        Ok((state_self, state_value))
    }

    /// The index of the interval that holds `v`, found by bisection.
    fn find(&self, v: i32) -> (r: Option<usize>)
        requires
            self.wf(),
        ensures
            r is None <==> !self@.contains(v as int),
            r matches Some(i) ==> i < self.intervals().len() && self.intervals()[i as int].0 <= v
                <= self.intervals()[i as int].1,
    {
        let ghost s = self.domain@;
        let mut a: usize = 0;
        let mut b: usize = self.domain.len();
        while a < b
            invariant
                s == self.domain@,
                intervals_wf(s),
                a <= b <= s.len(),
                forall|j: int| 0 <= j < a ==> (#[trigger] s[j]).1 < v,
                forall|j: int| b <= j < s.len() ==> (#[trigger] s[j]).0 > v,
            decreases b - a,
        {
            let m: usize = a + (b - a) / 2;
            let (lo, hi) = self.domain[m];
            if v < lo {
                assert forall|j: int| m <= j < s.len() implies (#[trigger] s[j]).0 > v by {
                    if j > m {
                        assert(s[m as int].1 + 1 < s[j].0);
                    }
                }
                b = m;
            } else if v > hi {
                assert forall|j: int| 0 <= j < m + 1 implies (#[trigger] s[j]).1 < v by {
                    if j < m {
                        assert(s[j].1 + 1 < s[m as int].0);
                    }
                }
                a = m + 1;
            } else {
                assert(s[m as int].0 <= v <= s[m as int].1);
                return Some(m);
            }
        }
        assert(!in_intervals(s, v as int)) by {
            if in_intervals(s, v as int) {
                let i = choose|i: int| 0 <= i < s.len() && (#[trigger] s[i]).0 <= v <= s[i].1;
                assert(i < a || i >= b);
            }
        }
        None
    }

    /// Whether `v` is still in the domain.
    pub fn contains(&self, v: i32) -> (r: bool)
        requires
            self.wf(),
        ensures
            r == self@.contains(v as int),
    {
        self.find(v).is_some()
    }

    /// Makes `val` the only value, whatever the domain held before.
    pub fn unsafe_set_value(&mut self, val: i32)
        ensures
            final(self).wf(),
            final(self).intervals() == seq![(val, val)],
            forall|v: int| final(self)@.contains(v) <==> v == val,
            final(self).spec_min() == val,
            final(self).spec_max() == val,
    {
        let mut domain: Vec<(i32, i32)> = Vec::new();
        domain.push((val, val));
        self.min = val;
        self.max = val;
        self.domain = domain;
        proof {
            assert(self.intervals() =~= seq![(val, val)]);
            assert forall|v: int| self@.contains(v) <==> v == val by {
                if v == val {
                    assert(self.intervals()[0].0 <= v <= self.intervals()[0].1);
                }
            }
        }
    }

    /// Fixes the variable to `val`. This fails, and leaves the variable as it
    /// is, exactly when `val` is not in the domain.
    pub fn set_value(&mut self, val: i32) -> (r: Result<VariableState, VariableError>)
        requires
            old(self).wf(),
        ensures
            final(self).wf(),
            r is Err <==> !old(self)@.contains(val as int),
            r is Err ==> *final(self) == *old(self),
            r matches Ok(st) ==> {
                &&& forall|v: int| final(self)@.contains(v) <==> v == val
                &&& final(self).intervals() == seq![(val, val)]
                &&& final(self).spec_min() == val
                &&& final(self).spec_max() == val
                &&& st == bounds_change(
                    old(self).spec_min(),
                    old(self).spec_max(),
                    val as int,
                    val as int,
                )
                &&& st == VariableState::NoChange ==> *final(self) == *old(self)
            },
    {
        proof {
            lemma_interval_bounds(self.intervals());
        }
        if self.find(val).is_none() {
            return Err(VariableError::DomainWipeout);
        }
        let old_min = self.min;
        let old_max = self.max;
        if old_min == old_max {
            return Ok(VariableState::NoChange);
        }
        self.unsafe_set_value(val);
        if old_min < val && val < old_max {
            Ok(VariableState::BoundsChange)
        } else if old_min < val {
            Ok(VariableState::MinBoundChange)
        } else {
            Ok(VariableState::MaxBoundChange)
        }
    }

    /// Takes `value` out of a domain that holds some other value too, and
    /// tells which bound moved, if any.
    #[verifier::rlimit(50)]
    pub fn unsafe_remove_value(&mut self, value: i32) -> (st: VariableState)
        requires
            old(self).wf(),
            !(old(self).spec_min() == value && old(self).spec_max() == value),
        ensures
            final(self).wf(),
            forall|v: int| final(self)@.contains(v) <==> old(self)@.contains(v) && v != value,
            st == removal_change(
                old(self)@.contains(value as int),
                old(self).spec_min(),
                old(self).spec_max(),
                value as int,
            ),
            st == VariableState::NoChange ==> *final(self) == *old(self),
            final(self).spec_min() >= old(self).spec_min(),
            final(self).spec_max() <= old(self).spec_max(),
            value != old(self).spec_min() ==> final(self).spec_min() == old(self).spec_min(),
            value != old(self).spec_max() ==> final(self).spec_max() == old(self).spec_max(),
            value == old(self).spec_min() ==> final(self).spec_min() > old(self).spec_min(),
            value == old(self).spec_max() ==> final(self).spec_max() < old(self).spec_max(),
    {
        proof {
            lemma_interval_bounds(self.intervals());
        }
        let ghost before = self.domain@;
        let i: usize = match self.find(value) {
            None => {
                return VariableState::NoChange;
            },
            Some(i) => i,
        };
        let (lo, hi) = self.domain[i];
        let last: usize = self.domain.len() - 1;
        proof {
            if i > 0 {
                assert(before[0].1 + 1 < before[i as int].0);
            }
            if i < last {
                assert(before[i as int].1 + 1 < before[last as int].0);
            }
        }
        if lo == hi {
            self.domain.remove(i);
            proof {
                lemma_drop_interval(before, i as int);
            }
            if i == 0 {
                self.min = self.domain[0].0;
                VariableState::MinBoundChange
            } else if i == last {
                self.max = self.domain[last - 1].1;
                VariableState::MaxBoundChange
            } else {
                VariableState::ValuesChange
            }
        } else if value == lo {
            self.domain.set(i, (value + 1, hi));
            proof {
                lemma_shrink_interval(before, i as int, (value + 1) as i32, hi);
                assert(in_intervals(before, value as int));
            }
            if i == 0 {
                self.min = value + 1;
                VariableState::MinBoundChange
            } else {
                VariableState::ValuesChange
            }
        } else if value == hi {
            self.domain.set(i, (lo, value - 1));
            proof {
                lemma_shrink_interval(before, i as int, lo, (value - 1) as i32);
            }
            if i == last {
                self.max = value - 1;
                VariableState::MaxBoundChange
            } else {
                VariableState::ValuesChange
            }
        } else {
            self.domain.set(i, (lo, value - 1));
            self.domain.insert(i + 1, (value + 1, hi));
            proof {
                lemma_split_interval(before, i as int, value as int);
                assert(self.domain@ =~= split_at(before, i as int, value as int));
            }
            VariableState::ValuesChange
        }
    }

    /// Takes `value` out of the domain; a value that is not there is no
    /// change. This fails, and leaves the variable as it is, exactly when
    /// `value` is the only value left.
    pub fn remove_value(&mut self, value: i32) -> (r: Result<VariableState, VariableError>)
        requires
            old(self).wf(),
        ensures
            final(self).wf(),
            r is Err <==> old(self).spec_min() == value && old(self).spec_max() == value,
            r is Err ==> *final(self) == *old(self),
            r matches Ok(st) ==> {
                &&& forall|v: int| final(self)@.contains(v) <==> old(self)@.contains(v) && v != value
                &&& st == removal_change(
                    old(self)@.contains(value as int),
                    old(self).spec_min(),
                    old(self).spec_max(),
                    value as int,
                )
                &&& st == VariableState::NoChange ==> *final(self) == *old(self)
                &&& final(self).spec_min() >= old(self).spec_min()
                &&& final(self).spec_max() <= old(self).spec_max()
                &&& value != old(self).spec_min() ==> final(self).spec_min() == old(self).spec_min()
                &&& value != old(self).spec_max() ==> final(self).spec_max() == old(self).spec_max()
                &&& value == old(self).spec_min() ==> final(self).spec_min() > old(self).spec_min()
                &&& value == old(self).spec_max() ==> final(self).spec_max() < old(self).spec_max()
            },
    {
        if self.min == value && self.max == value {
            return Err(VariableError::DomainWipeout);
        }
        Ok(self.unsafe_remove_value(value))
    }

    /// Builds the variable whose domain holds exactly the given values, in
    /// any order and with repeats; there is none when no value is given.
    #[verifier::rlimit(50)]
    pub fn new_from_iterator(values: Vec<i32>) -> (r: Option<IntVar>)
        ensures
            r is None <==> values@.len() == 0,
            r matches Some(v) ==> {
                &&& v.wf()
                &&& forall|x: int| v@.contains(x) <==> has_value(values@, x)
            },
    {
        let mut values = values;
        if values.len() == 0 {
            return None;
        }
        let ghost input = values@;
        sort_values(&mut values);
        let ghost sorted = values@;
        proof {
            input.to_multiset_ensures();
            sorted.to_multiset_ensures();
            assert forall|x: int| has_value(sorted, x) <==> has_value(input, x) by {
                if has_value(sorted, x) {
                    let i = choose|i: int| 0 <= i < sorted.len() && #[trigger] sorted[i] == x;
                    assert(sorted.contains(sorted[i]));
                    assert(sorted.to_multiset().count(sorted[i]) > 0);
                    assert(input.contains(sorted[i]));
                    let j = choose|j: int| 0 <= j < input.len() && input[j] == sorted[i];
                    assert(input[j] == x);
                }
                if has_value(input, x) {
                    let i = choose|i: int| 0 <= i < input.len() && #[trigger] input[i] == x;
                    assert(input.contains(input[i]));
                    assert(input.to_multiset().count(input[i]) > 0);
                    assert(sorted.contains(input[i]));
                    let j = choose|j: int| 0 <= j < sorted.len() && sorted[j] == input[i];
                    assert(sorted[j] == x);
                }
            }
        }
        let n: usize = values.len();
        let first: i32 = values[0];
        let mut lower_bound: i32 = first;
        let mut prev: i32 = first;
        let mut domain: Vec<(i32, i32)> = Vec::new();
        let mut k: usize = 1;
        proof {
            assert forall|x: int|
                (in_intervals(domain@, x) || lower_bound <= x <= prev) <==> has_value_before(
                    sorted,
                    1,
                    x,
                ) by {
                if x == first {
                    assert(sorted[0] == x);
                }
            }
        }
        while k < n
            invariant
                values@ == sorted,
                ascending(sorted),
                n == sorted.len(),
                1 <= k <= n,
                first == sorted[0],
                intervals_wf(domain@),
                lower_bound <= prev,
                prev == sorted[k - 1],
                forall|j: int| 0 <= j < domain@.len() ==> (#[trigger] domain@[j]).1 + 1 < lower_bound,
                forall|x: int|
                    (in_intervals(domain@, x) || lower_bound <= x <= prev) <==> has_value_before(
                        sorted,
                        k as int,
                        x,
                    ),
                domain@.len() > 0 ==> domain@[0].0 == first,
                domain@.len() == 0 ==> lower_bound == first,
            decreases n - k,
        {
            let value: i32 = values[k];
            let ghost old_domain = domain@;
            let ghost old_lb = lower_bound;
            let ghost old_prev = prev;
            assert(sorted[k - 1] <= sorted[k as int]);
            if value <= prev || value - 1 == prev {
                prev = value;
                assert forall|x: int|
                    (in_intervals(domain@, x) || lower_bound <= x <= prev) <==> (in_intervals(
                        old_domain,
                        x,
                    ) || old_lb <= x <= old_prev || x == value) by {}
            } else {
                proof {
                    lemma_push_interval(old_domain, old_lb, old_prev);
                }
                domain.push((lower_bound, prev));
                lower_bound = value;
                prev = value;
                assert(domain@ == old_domain.push((old_lb, old_prev)));
                assert forall|x: int|
                    (in_intervals(domain@, x) || lower_bound <= x <= prev) <==> (in_intervals(
                        old_domain,
                        x,
                    ) || old_lb <= x <= old_prev || x == value) by {}
            }
            proof {
                assert forall|x: int|
                    (in_intervals(domain@, x) || lower_bound <= x <= prev) <==> has_value_before(
                        sorted,
                        k + 1,
                        x,
                    ) by {
                    lemma_one_more_value(sorted, k as int, x);
                    assert((in_intervals(old_domain, x) || old_lb <= x <= old_prev)
                        <==> has_value_before(sorted, k as int, x));
                }
            }
            k = k + 1;
        }
        proof {
            lemma_push_interval(domain@, lower_bound, prev);
        }
        domain.push((lower_bound, prev));
        let v = IntVar { min: first, max: prev, domain };
        Some(v)
    }

    /// The number of values in the domain.
    pub fn size(&self) -> (r: u64)
        requires
            self.wf(),
        ensures
            r == self@.len(),
            r >= 1,
            r == 1 <==> self.spec_min() == self.spec_max(),
    {
        let ghost s = self.domain@;
        let n: usize = self.domain.len();
        let lo: i64 = self.min as i64;
        let hi: i64 = self.max as i64;
        proof {
            lemma_values_len(s);
            lemma_span_bounds(s);
        }
        let mut total: u64 = 0;
        let mut k: usize = 0;
        while k < n
            invariant
                s == self.domain@,
                n == s.len(),
                intervals_wf(s),
                k <= n,
                total == span(s.take(k as int)),
                span(s) <= s.last().1 - s[0].0 + 1,
            decreases n - k,
        {
            let (a, b) = self.domain[k];
            proof {
                assert(s.take(k + 1).drop_last() =~= s.take(k as int));
                assert(s.take(k + 1).last() == s[k as int]);
                lemma_span_take(s, k + 1);
            }
            total = total + ((b as i64 - a as i64) as u64 + 1);
            k = k + 1;
        }
        proof {
            assert(s.take(n as int) =~= s);
        }
        total
    }

    /// An iterator over the values of the domain, in ascending order.
    pub fn domain_iter(&self) -> (r: IntVarDomainIterator)
        requires
            self.wf(),
        ensures
            r.wf(),
            r.remaining() == values_seq(self.intervals()),
    {
        IntVarDomainIterator::new(copy_intervals(&self.domain))
    }

    /// Replaces the domain by a non-empty part of it, given as a normalised
    /// interval list, and tells what changed.
    fn narrow_to(&mut self, domain: Vec<(i32, i32)>) -> (st: VariableState)
        requires
            old(self).wf(),
            intervals_wf(domain@),
            domain@.len() > 0,
            forall|v: int| in_intervals(domain@, v) ==> old(self)@.contains(v),
        ensures
            final(self).wf(),
            final(self).intervals() == domain@,
            final(self).spec_min() >= old(self).spec_min(),
            final(self).spec_max() <= old(self).spec_max(),
            st == narrowing_change(
                old(self).spec_min(),
                old(self).spec_max(),
                final(self).spec_min(),
                final(self).spec_max(),
                final(self)@ == old(self)@,
            ),
            st == VariableState::NoChange ==> *final(self) == *old(self),
    {
        proof {
            lemma_interval_bounds(self.intervals());
            lemma_interval_bounds(domain@);
            if self.intervals() != domain@ && self@ == interval_values(domain@) {
                assert forall|v: int| in_intervals(self.intervals(), v) <==> in_intervals(domain@, v) by {
                    assert(self@.contains(v) <==> interval_values(domain@).contains(v));
                }
                lemma_same_values_same_intervals(self.intervals(), domain@);
            }
        }
        if same_intervals(&self.domain, &domain) {
            return VariableState::NoChange;
        }
        let new_min: i32 = domain[0].0;
        let new_max: i32 = domain[domain.len() - 1].1;
        let min_moved = new_min > self.min;
        let max_moved = new_max < self.max;
        self.min = new_min;
        self.max = new_max;
        self.domain = domain;
        if min_moved && max_moved {
            VariableState::BoundsChange
        } else if min_moved {
            VariableState::MinBoundChange
        } else if max_moved {
            VariableState::MaxBoundChange
        } else {
            VariableState::ValuesChange
        }
    }

    /// Narrows `self` and `value` to the values that both hold. This fails,
    /// and leaves both as they are, exactly when they share no value.
    pub fn equal(&mut self, value: &mut IntVar) -> (r: Result<
        (VariableState, VariableState),
        VariableError,
    >)
        requires
            old(self).wf(),
            old(value).wf(),
        ensures
            final(self).wf(),
            final(value).wf(),
            r is Err <==> old(self)@.disjoint(old(value)@),
            r is Err ==> *final(self) == *old(self) && *final(value) == *old(value),
            r matches Ok(st) ==> {
                &&& forall|v: int|
                    final(self)@.contains(v) <==> old(self)@.contains(v) && old(value)@.contains(v)
                &&& final(value).intervals() == final(self).intervals()
                &&& final(value).spec_min() == final(self).spec_min()
                &&& final(value).spec_max() == final(self).spec_max()
                &&& st.0 == narrowing_change(
                    old(self).spec_min(),
                    old(self).spec_max(),
                    final(self).spec_min(),
                    final(self).spec_max(),
                    final(self)@ == old(self)@,
                )
                &&& st.1 == narrowing_change(
                    old(value).spec_min(),
                    old(value).spec_max(),
                    final(value).spec_min(),
                    final(value).spec_max(),
                    final(value)@ == old(value)@,
                )
                &&& st.0 == VariableState::NoChange ==> *final(self) == *old(self)
                &&& st.1 == VariableState::NoChange ==> *final(value) == *old(value)
            },
    {
        let common = intersect(&self.domain, &value.domain);
        if common.len() == 0 {
            proof {
                assert forall|v: int| !(self@.contains(v) && value@.contains(v)) by {
                    if self@.contains(v) && value@.contains(v) {
                        assert(in_intervals(common@, v));
                    }
                }
            }
            return Err(VariableError::DomainWipeout);
        }
        proof {
            lemma_interval_bounds(common@);
            let w = common@[0].0 as int;
            assert(in_intervals(common@, w));
            assert(self@.contains(w) && value@.contains(w));
        }
        let other = copy_intervals(&common);
        let state_self = self.narrow_to(common);
        let state_value = value.narrow_to(other);
        Ok((state_self, state_value))
    }

    /// The values of the domain, in ascending order.
    pub fn values(&self) -> (r: Vec<i32>)
        requires
            self.wf(),
        ensures
            r@.map_values(|x: i32| x as int) == values_seq(self.intervals()),
    {
        let mut walk = self.domain_iter();
        let mut out: Vec<i32> = Vec::new();
        let ghost all = values_seq(self.intervals());
        proof {
            lemma_values_seq(self.intervals());
        }
        loop
            invariant
                walk.wf(),
                out@.map_values(|x: i32| x as int) + walk.remaining() == all,
                forall|i: int| 0 <= i < all.len() ==> i32::MIN <= #[trigger] all[i] <= i32::MAX,
            ensures
                out@.map_values(|x: i32| x as int) == all,
            decreases walk.remaining().len(),
        {
            let ghost rest = walk.remaining();
            let ghost done = out@.map_values(|x: i32| x as int);
            match walk.next() {
                None => {
                    assert(done + rest =~= done);
                    break ;
                },
                Some(v) => {
                    out.push(v);
                    proof {
                        assert((done + rest)[done.len() as int] == rest[0]);
                        assert(out@.map_values(|x: i32| x as int) =~= done.push(v as int));
                        assert(done.push(rest[0]) + rest.drop_first() =~= done + rest);
                    }
                },
            }
        }
        out
    }

    /// Narrows `self` and `value` to what lies between the smallest and the
    /// largest value that both hold, so that both end with the same bounds.
    /// This fails, and leaves both as they are, exactly when they share no
    /// value.
    pub fn equal_on_bounds(&mut self, value: &mut IntVar) -> (r: Result<
        (VariableState, VariableState),
        VariableError,
    >)
        requires
            old(self).wf(),
            old(value).wf(),
        ensures
            final(self).wf(),
            final(value).wf(),
            r is Err <==> old(self)@.disjoint(old(value)@),
            r is Err ==> *final(self) == *old(self) && *final(value) == *old(value),
            r matches Ok(st) ==> {
                &&& final(self).spec_min() == final(value).spec_min()
                &&& final(self).spec_max() == final(value).spec_max()
                &&& forall|v: int|
                    final(self)@.contains(v) <==> old(self)@.contains(v) && final(self).spec_min()
                        <= v <= final(self).spec_max()
                &&& forall|v: int|
                    final(value)@.contains(v) <==> old(value)@.contains(v)
                        && final(self).spec_min() <= v <= final(self).spec_max()
                &&& forall|v: int|
                    old(self)@.contains(v) && old(value)@.contains(v) ==> final(self).spec_min()
                        <= v <= final(self).spec_max()
                &&& st.0 == bounds_change(
                    old(self).spec_min(),
                    old(self).spec_max(),
                    final(self).spec_min(),
                    final(self).spec_max(),
                )
                &&& st.1 == bounds_change(
                    old(value).spec_min(),
                    old(value).spec_max(),
                    final(value).spec_min(),
                    final(value).spec_max(),
                )
                &&& st.0 == VariableState::NoChange ==> *final(self) == *old(self)
                &&& st.1 == VariableState::NoChange ==> *final(value) == *old(value)
            },
    {
        let common = intersect(&self.domain, &value.domain);
        if common.len() == 0 {
            proof {
                assert forall|v: int| !(self@.contains(v) && value@.contains(v)) by {
                    if self@.contains(v) && value@.contains(v) {
                        assert(in_intervals(common@, v));
                    }
                }
            }
            return Err(VariableError::DomainWipeout);
        }
        let low: i32 = common[0].0;
        let high: i32 = common[common.len() - 1].1;
        proof {
            lemma_interval_bounds(common@);
            lemma_interval_bounds(self.intervals());
            lemma_interval_bounds(value.intervals());
            assert(in_intervals(common@, low as int));
            assert(in_intervals(common@, high as int));
            assert(self@.contains(low as int) && value@.contains(low as int));
            assert(self@.contains(high as int) && value@.contains(high as int));
            assert forall|v: int| self@.contains(v) && value@.contains(v) implies low <= v
                <= high by {
                assert(in_intervals(common@, v));
            }
        }
        let ghost self0 = *self;
        let ghost value0 = *value;
        let s1 = self.update_binf(low);
        proof {
            lemma_interval_bounds(self.intervals());
            assert(self@.contains(low as int));
            assert(self@.contains(high as int));
        }
        let s2 = self.update_bsup(high);
        let t1 = value.update_binf(low);
        proof {
            lemma_interval_bounds(value.intervals());
            assert(value@.contains(low as int));
            assert(value@.contains(high as int));
        }
        let t2 = value.update_bsup(high);
        proof {
            lemma_interval_bounds(self.intervals());
            lemma_interval_bounds(value.intervals());
            assert(self@.contains(low as int));
            assert(self@.contains(high as int));
            assert(value@.contains(low as int));
            assert(value@.contains(high as int));
        }
        Ok((join_bounds(s1, s2), join_bounds(t1, t2)))
    }

    /// The smallest value of the domain.
    pub fn min(&self) -> (r: i32)
        ensures
            r == self.spec_min(),
    {
        self.min
    }

    /// The largest value of the domain.
    pub fn max(&self) -> (r: i32)
        ensures
            r == self.spec_max(),
    {
        self.max
    }

    /// Whether a single value is left.
    pub fn is_fixed(&self) -> (r: bool)
        ensures
            r == (self.spec_min() == self.spec_max()),
    {
        self.min == self.max
    }

    /// The interval list, in ascending order.
    pub fn domain(&self) -> (r: &Vec<(i32, i32)>)
        ensures
            r@ == self.intervals(),
    {
        &self.domain
    }

    /// The value of a fixed variable.
    pub fn value(&self) -> (r: Option<i32>)
        ensures
            r == if self.spec_min() == self.spec_max() {
                Some(self.spec_min() as i32)
            } else {
                None
            },
    {
        if self.min == self.max {
            Some(self.min)
        } else {
            None
        }
    }
}

/// Two variables at rest that hold the same values have the same bounds and
/// the same intervals, and so compare equal.
pub proof fn lemma_same_values_same_domain(a: IntVar, b: IntVar)
    requires
        a.wf(),
        b.wf(),
        a@ == b@,
    ensures
        a.eq_spec(&b),
{
    assert forall|v: int| in_intervals(a.intervals(), v) <==> in_intervals(b.intervals(), v) by {
        assert(a@.contains(v) <==> in_intervals(a.intervals(), v));
        assert(b@.contains(v) <==> in_intervals(b.intervals(), v));
    }
    lemma_same_values_same_intervals(a.intervals(), b.intervals());
}

/// A domain rebuilt from the values enumerated from another is equal to it:
/// `values` is the enumeration of `domain`, and `rebuilt` holds exactly the
/// entries of `values`.
pub proof fn lemma_rebuilt_domain_is_equal(domain: IntVar, values: Seq<i32>, rebuilt: IntVar)
    requires
        domain.wf(),
        rebuilt.wf(),
        values.map_values(|x: i32| x as int) == values_seq(domain.intervals()),
        forall|x: int| rebuilt@.contains(x) <==> has_value(values, x),
    ensures
        rebuilt.eq_spec(&domain),
{
    let e = values_seq(domain.intervals());
    lemma_values_seq(domain.intervals());
    assert forall|x: int| rebuilt@.contains(x) <==> domain@.contains(x) by {
        if has_value(values, x) {
            let i = choose|i: int| 0 <= i < values.len() && #[trigger] values[i] == x;
            assert(e[i] == x);
            assert(e.contains(x));
        }
        if domain@.contains(x) {
            assert(e.contains(x));
            let i = choose|i: int| 0 <= i < e.len() && e[i] == x;
            assert(values[i] == x);
        }
    }
    assert(rebuilt@ =~= domain@);
    lemma_same_values_same_domain(rebuilt, domain);
}

/// Tightening the upper bound a second time to the same limit changes
/// nothing: when `after` holds the values of `before` that are at most
/// `bound`, its largest value is at most `bound`, which is when tightening
/// reports no change.
pub proof fn lemma_upper_bound_twice(before: IntVar, after: IntVar, bound: int)
    requires
        before.wf(),
        after.wf(),
        forall|v: int| after@.contains(v) <==> before@.contains(v) && v <= bound,
    ensures
        after.spec_max() <= bound,
{
    lemma_interval_bounds(after.intervals());
    assert(after@.contains(after.spec_max()));
}

/// Tightening the lower bound a second time to the same limit changes
/// nothing: when `after` holds the values of `before` that are at least
/// `bound`, its smallest value is at least `bound`, which is when tightening
/// reports no change.
pub proof fn lemma_lower_bound_twice(before: IntVar, after: IntVar, bound: int)
    requires
        before.wf(),
        after.wf(),
        forall|v: int| after@.contains(v) <==> before@.contains(v) && bound <= v,
    ensures
        bound <= after.spec_min(),
{
    lemma_interval_bounds(after.intervals());
    assert(after@.contains(after.spec_min()));
}

/// The bounds of a variable at rest are values of its domain, every value
/// lies between them, and the domain is finite.
pub proof fn lemma_bounds_are_values(v: IntVar)
    requires
        v.wf(),
    ensures
        v@.contains(v.spec_min()),
        v@.contains(v.spec_max()),
        forall|x: int| #[trigger] v@.contains(x) ==> v.spec_min() <= x <= v.spec_max(),
        v@.finite(),
        v@.len() >= 1,
        v@.len() == 1 <==> v.spec_min() == v.spec_max(),
        i32::MIN <= v.spec_min() <= v.spec_max() <= i32::MAX,
{
    lemma_interval_bounds(v.intervals());
    lemma_values_len(v.intervals());
    lemma_span_bounds(v.intervals());
}

/// The class of a change made of a move of the lower bound, or none, and a
/// move of the upper bound, or none.
fn join_bounds(lower: VariableState, upper: VariableState) -> (r: VariableState)
    requires
        lower == VariableState::MinBoundChange || lower == VariableState::NoChange,
        upper == VariableState::MaxBoundChange || upper == VariableState::NoChange,
    ensures
        r == if lower == VariableState::MinBoundChange && upper == VariableState::MaxBoundChange {
            VariableState::BoundsChange
        } else if lower == VariableState::MinBoundChange {
            VariableState::MinBoundChange
        } else {
            upper
        },
{
    match (lower, upper) {
        (VariableState::MinBoundChange, VariableState::MaxBoundChange) => VariableState::BoundsChange,
        (VariableState::MinBoundChange, _) => VariableState::MinBoundChange,
        (_, other) => other,
    }
}

/// A copy of an interval list, entry by entry.
fn copy_intervals(domain: &Vec<(i32, i32)>) -> (r: Vec<(i32, i32)>)
    ensures
        r@ == domain@,
{
    let mut r: Vec<(i32, i32)> = Vec::new();
    let mut k: usize = 0;
    while k < domain.len()
        invariant
            k <= domain.len(),
            r@ == domain@.take(k as int),
        decreases domain.len() - k,
    {
        r.push(domain[k]);
        assert(domain@.take(k + 1) =~= domain@.take(k as int).push(domain@[k as int]));
        k = k + 1;
    }
    assert(domain@.take(k as int) =~= domain@);
    r
}

impl Clone for IntVar {
    /// A copy with the same bounds and the same intervals, which therefore
    /// compares equal to the variable copied.
    fn clone(&self) -> (r: Self)
        ensures
            r.intervals() == self.intervals(),
            r.spec_min() == self.spec_min(),
            r.spec_max() == self.spec_max(),
            r.eq_spec(self),
    {
        IntVar { min: self.min, max: self.max, domain: copy_intervals(&self.domain) }
    }
}

impl vstd::std_specs::cmp::PartialEqSpecImpl for IntVar {
    open spec fn obeys_eq_spec() -> bool {
        true
    }

    open spec fn eq_spec(&self, other: &Self) -> bool {
        &&& self.spec_min() == other.spec_min()
        &&& self.spec_max() == other.spec_max()
        &&& self.intervals() == other.intervals()
    }
}

impl PartialEq for IntVar {
    /// Whether the two variables have the same bounds and the same intervals.
    fn eq(&self, other: &Self) -> (r: bool) {
        let bounds = self.min == other.min && self.max == other.max;
        let intervals = same_intervals(&self.domain, &other.domain);
        assert(bounds == (self.spec_min() == other.spec_min() && self.spec_max()
            == other.spec_max()));
        assert(intervals == (self.intervals() == other.intervals()));
        let r = bounds && intervals;
        assert(r == (self.spec_min() == other.spec_min() && self.spec_max() == other.spec_max()
            && self.intervals() == other.intervals()));
        r
    }
}

/// A walk through the values of an interval list, in ascending order.
pub struct IntVarDomainIterator {
    domain: Vec<(i32, i32)>,
    next_interval: usize,
    element: Option<(i32, i32)>,
}

impl IntVarDomainIterator {
    /// The values still to come, in the order in which they come.
    pub closed spec fn remaining(&self) -> Seq<int> {
        match self.element {
            Some((lo, hi)) => range_seq(lo as int, hi as int) + values_seq(
                self.domain@.skip(self.next_interval as int),
            ),
            None => Seq::empty(),
        }
    }

    /// The invariant of the walk: the interval in hand is not empty, and none
    /// is in hand only when none is left.
    pub closed spec fn wf(&self) -> bool {
        &&& self.next_interval <= self.domain@.len()
        &&& intervals_wf(self.domain@)
        &&& self.element matches Some((lo, hi)) ==> lo <= hi
        &&& self.element is None ==> self.next_interval == self.domain@.len()
    }

    /// Starts a walk through the values of a normalised interval list.
    pub fn new(domain: Vec<(i32, i32)>) -> (r: IntVarDomainIterator)
        requires
            intervals_wf(domain@),
        ensures
            r.wf(),
            r.remaining() == values_seq(domain@),
    {
        if domain.len() == 0 {
            IntVarDomainIterator { domain, next_interval: 0, element: None }
        } else {
            let first = domain[0];
            proof {
                assert(domain@.skip(1) =~= domain@.drop_first());
            }
            IntVarDomainIterator { domain, next_interval: 1, element: Some(first) }
        }
    }

    /// Hands out the next value, if one is left.
    pub fn next(&mut self) -> (r: Option<i32>)
        requires
            old(self).wf(),
        ensures
            final(self).wf(),
            old(self).remaining().len() == 0 ==> r is None && final(self).remaining() == old(
                self,
            ).remaining(),
            old(self).remaining().len() > 0 ==> r == Some(old(self).remaining()[0] as i32)
                && final(self).remaining() == old(self).remaining().drop_first(),
    {
        match self.element {
            None => None,
            Some((lo, hi)) => {
                let ghost rest = values_seq(self.domain@.skip(self.next_interval as int));
                if lo == hi {
                    assert(range_seq(lo as int, hi as int) =~= seq![lo as int]);
                    assert((seq![lo as int] + rest).drop_first() =~= rest);
                    if self.next_interval < self.domain.len() {
                        let ghost tail = self.domain@.skip(self.next_interval as int);
                        assert(tail.drop_first() =~= self.domain@.skip(self.next_interval + 1));
                        assert(tail[0] == self.domain@[self.next_interval as int]);
                        self.element = Some(self.domain[self.next_interval]);
                        self.next_interval = self.next_interval + 1;
                    } else {
                        assert(self.domain@.skip(self.next_interval as int) =~= Seq::empty());
                        self.element = None;
                    }
                } else {
                    assert((range_seq(lo as int, hi as int) + rest).drop_first() =~= range_seq(
                        lo + 1,
                        hi as int,
                    ) + rest);
                    self.element = Some((lo + 1, hi));
                }
                Some(lo)
            },
        }
    }
}

} // verus!
