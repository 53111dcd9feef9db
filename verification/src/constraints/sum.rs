//! The constraint that a variable is a weighted sum of others, with weights
//! that are not negative.

use vstd::prelude::*;

use crate::constraints::arithmetic::binary_ops::clamp;
use crate::constraints::{
    account,
    agree,
    among,
    below,
    leads_to,
    lemma_narrowed_twice,
    narrowed,
    resolves,
    survey,
    PropagationState,
    Propagator,
};
use crate::variables::handlers::default_handler::{lemma_narrowing_measure, Handler};
use crate::variables::int_var::{lemma_bounds_are_values, IntVar};
use crate::variables::{ArrayOfRefs, VariableError, VariableState, ViewIndex, pairwise_disjoint};

verus! {

/// The sum of the lower bounds, or, if `upper` is set, of the upper bounds,
/// of the first `k` of the variables at `places`, each times its weight.
pub open spec fn weighted(
    vars: Seq<IntVar>,
    places: Seq<usize>,
    coefs: Seq<i32>,
    k: int,
    upper: bool,
) -> int
    decreases k,
{
    if k <= 0 {
        0
    } else {
        weighted(vars, places, coefs, k - 1, upper) + coefs[k - 1] * (if upper {
            vars[places[k - 1] as int].spec_max()
        } else {
            vars[places[k - 1] as int].spec_min()
        })
    }
}

/// Whether narrowing for `r = sum of coefs[i] * vars[places[i]]` would
/// change nothing and would not fail: the bounds of `r` lie within the
/// clamped sums of the bounds, and no term can exceed what the largest value
/// of `r` leaves to it once every other term is at its least.
pub open spec fn sum_at_fixpoint(
    vars: Seq<IntVar>,
    r: IntVar,
    places: Seq<usize>,
    coefs: Seq<i32>,
) -> bool {
    let low = weighted(vars, places, coefs, places.len() as int, false);
    let high = weighted(vars, places, coefs, places.len() as int, true);
    &&& r.spec_max() <= clamp(high)
    &&& clamp(low) <= r.spec_min()
    &&& low <= r.spec_max()
    &&& forall|i: int|
        0 <= i < places.len() && coefs[i] > 0 ==> vars[#[trigger] places[i] as int].spec_max()
            <= clamp(vars[places[i] as int].spec_min() + (r.spec_max() - low) / (coefs[i] as int))
}

/// Whether the sum holds of the only values left: `r` and every term are
/// fixed, and `r` to the sum of the terms.
pub open spec fn sum_entailed(
    vars: Seq<IntVar>,
    r: IntVar,
    places: Seq<usize>,
    coefs: Seq<i32>,
) -> bool {
    &&& r.spec_min() == r.spec_max()
    &&& r.spec_min() == weighted(vars, places, coefs, places.len() as int, false)
    &&& forall|i: int|
        0 <= i < places.len() ==> vars[#[trigger] places[i] as int].spec_min()
            == vars[places[i] as int].spec_max()
}

/// On fixed variables whose weighted sum is no less than an `i32` can hold,
/// a sum is at its fixed point exactly when it holds of their values.
pub proof fn lemma_fixed_sum(vars: Seq<IntVar>, r: IntVar, places: Seq<usize>, coefs: Seq<i32>)
    requires
        r.wf(),
        r.spec_min() == r.spec_max(),
        forall|i: int| 0 <= i < places.len() ==> vars[#[trigger] places[i] as int].wf(),
        forall|i: int|
            0 <= i < places.len() ==> vars[#[trigger] places[i] as int].spec_min()
                == vars[places[i] as int].spec_max(),
        weighted(vars, places, coefs, places.len() as int, false) >= i32::MIN,
    ensures
        sum_at_fixpoint(vars, r, places, coefs) <==> r.spec_min() == weighted(
            vars,
            places,
            coefs,
            places.len() as int,
            false,
        ),
{
    let n = places.len() as int;
    lemma_weighted_same(vars, places, coefs, n);
    lemma_bounds_are_values(r);
    let low = weighted(vars, places, coefs, n, false);
    if r.spec_min() == low {
        assert forall|i: int|
            0 <= i < places.len() && coefs[i] > 0 implies vars[#[trigger] places[i] as int].spec_max()
            <= clamp(
            vars[places[i] as int].spec_min() + (r.spec_max() - low) / (coefs[i] as int),
        ) by {
            lemma_bounds_are_values(vars[places[i] as int]);
            assert(0int / (coefs[i] as int) == 0) by (nonlinear_arith)
                requires
                    coefs[i] > 0,
            ;
        }
    }
}

/// A sum of no terms is at its fixed point, and sure, exactly when its
/// result is fixed to zero.
pub proof fn lemma_sum_of_nothing(vars: Seq<IntVar>, r: IntVar)
    requires
        r.wf(),
    ensures
        sum_at_fixpoint(vars, r, Seq::empty(), Seq::empty()) <==> r.spec_min() == 0 && r.spec_max()
            == 0,
        sum_entailed(vars, r, Seq::empty(), Seq::empty()) <==> r.spec_min() == 0 && r.spec_max()
            == 0,
{
    lemma_bounds_are_values(r);
}

/// The weighted sums are read off the bounds of the variables at `places`.
pub proof fn lemma_weighted_reads(
    a: Seq<IntVar>,
    b: Seq<IntVar>,
    places: Seq<usize>,
    coefs: Seq<i32>,
    k: int,
    upper: bool,
)
    requires
        0 <= k <= places.len(),
        forall|i: int|
            0 <= i < k ==> if upper {
                a[#[trigger] places[i] as int].spec_max() == b[places[i] as int].spec_max()
            } else {
                a[#[trigger] places[i] as int].spec_min() == b[places[i] as int].spec_min()
            },
    ensures
        weighted(a, places, coefs, k, upper) == weighted(b, places, coefs, k, upper),
    decreases k,
{
    if k > 0 {
        lemma_weighted_reads(a, b, places, coefs, k - 1, upper);
        assert(if upper {
            a[places[k - 1] as int].spec_max() == b[places[k - 1] as int].spec_max()
        } else {
            a[places[k - 1] as int].spec_min() == b[places[k - 1] as int].spec_min()
        });
    }
}

/// A weighted sum of bounds does not grow where upper bounds shrink, and
/// does not shrink where lower bounds grow.
pub proof fn lemma_weighted_monotone(
    a: Seq<IntVar>,
    b: Seq<IntVar>,
    places: Seq<usize>,
    coefs: Seq<i32>,
    k: int,
    upper: bool,
)
    requires
        0 <= k <= places.len(),
        k <= coefs.len(),
        forall|i: int| 0 <= i < k ==> (#[trigger] coefs[i]) >= 0,
        forall|i: int|
            0 <= i < k ==> if upper {
                b[#[trigger] places[i] as int].spec_max() <= a[places[i] as int].spec_max()
            } else {
                b[#[trigger] places[i] as int].spec_min() >= a[places[i] as int].spec_min()
            },
    ensures
        upper ==> weighted(b, places, coefs, k, upper) <= weighted(a, places, coefs, k, upper),
        !upper ==> weighted(b, places, coefs, k, upper) >= weighted(a, places, coefs, k, upper),
    decreases k,
{
    if k > 0 {
        lemma_weighted_monotone(a, b, places, coefs, k - 1, upper);
        let c = coefs[k - 1] as int;
        let p = places[k - 1] as int;
        assert(c >= 0);
        if upper {
            let x = b[p].spec_max();
            let y = a[p].spec_max();
            assert(x <= y);
            assert(c * x <= c * y) by (nonlinear_arith)
                requires
                    c >= 0,
                    x <= y,
            ;
        } else {
            let x = b[p].spec_min();
            let y = a[p].spec_min();
            assert(x >= y);
            assert(c * x >= c * y) by (nonlinear_arith)
                requires
                    c >= 0,
                    x >= y,
            ;
        }
    }
}

/// Where lower bounds grow, the weighted sum of the lower bounds grows by
/// what the term at `i` grows by, at least.
pub proof fn lemma_weighted_gap(
    a: Seq<IntVar>,
    b: Seq<IntVar>,
    places: Seq<usize>,
    coefs: Seq<i32>,
    k: int,
    i: int,
)
    requires
        0 <= i < k <= places.len(),
        k <= coefs.len(),
        forall|j: int| 0 <= j < k ==> (#[trigger] coefs[j]) >= 0,
        forall|j: int|
            0 <= j < k ==> b[#[trigger] places[j] as int].spec_min() >= a[places[j] as int].spec_min(),
    ensures
        weighted(b, places, coefs, k, false) >= weighted(a, places, coefs, k, false) + coefs[i] * (
        b[places[i] as int].spec_min() - a[places[i] as int].spec_min()),
    decreases k,
{
    let c = coefs[k - 1] as int;
    let p = places[k - 1] as int;
    let x = b[p].spec_min();
    let y = a[p].spec_min();
    assert(c >= 0);
    assert(x >= y);
    if i == k - 1 {
        lemma_weighted_monotone(a, b, places, coefs, k - 1, false);
        assert(c * x == c * y + c * (x - y)) by (nonlinear_arith);
    } else {
        lemma_weighted_gap(a, b, places, coefs, k - 1, i);
        assert(c * x >= c * y) by (nonlinear_arith)
            requires
                c >= 0,
                x >= y,
        ;
    }
}

/// What a term may reach at most does not grow where its lower bound grows
/// by `d` and what is left to it shrinks by `c * d` or more.
pub proof fn lemma_term_bound(floor: int, d: int, a: int, b: int, c: int)
    requires
        c > 0,
        d >= 0,
        b <= a - c * d,
    ensures
        (floor + d) + b / c <= floor + a / c,
{
    vstd::arithmetic::div_mod::lemma_div_is_ordered(b, a - c * d, c);
    vstd::arithmetic::div_mod::lemma_hoist_over_denominator(a, -d, c as nat);
    assert(a + (-d) * c == a - c * d) by (nonlinear_arith);
}

/// Where a sum is at its fixed point on parts of domains, the part of each
/// domain lies within what one round of narrowing keeps of the domain.
pub proof fn lemma_sum_within(
    cur: Seq<IntVar>,
    s: Seq<IntVar>,
    fr: int,
    places: Seq<usize>,
    coefs: Seq<i32>,
)
    requires
        cur.len() == s.len(),
        forall|f: int| 0 <= f < cur.len() ==> (#[trigger] cur[f]).wf(),
        forall|f: int| 0 <= f < s.len() ==> (#[trigger] s[f]).wf(),
        forall|f: int, v: int|
            0 <= f < cur.len() && #[trigger] s[f]@.contains(v) ==> cur[f]@.contains(v),
        0 <= fr < cur.len(),
        forall|i: int| 0 <= i < places.len() ==> (#[trigger] places[i]) < cur.len(),
        coefs.len() == places.len(),
        forall|i: int| 0 <= i < coefs.len() ==> (#[trigger] coefs[i]) >= 0,
        sum_at_fixpoint(s, s[fr], places, coefs),
    ensures
        forall|v: int|
            s[fr]@.contains(v) ==> clamp(weighted(cur, places, coefs, places.len() as int, false))
                <= v <= clamp(weighted(cur, places, coefs, places.len() as int, true)),
        weighted(cur, places, coefs, places.len() as int, false) <= s[fr].spec_max(),
        s[fr].spec_max() <= cur[fr].spec_max(),
        forall|i: int, v: int|
            0 <= i < places.len() && coefs[i] > 0 && #[trigger] s[places[i] as int]@.contains(v)
                ==> v <= clamp(
                cur[places[i] as int].spec_min() + (cur[fr].spec_max() - weighted(
                    cur,
                    places,
                    coefs,
                    places.len() as int,
                    false,
                )) / (coefs[i] as int),
            ),
{
    let n = places.len() as int;
    let low = weighted(cur, places, coefs, n, false);
    let high = weighted(cur, places, coefs, n, true);
    let low_s = weighted(s, places, coefs, n, false);
    let high_s = weighted(s, places, coefs, n, true);
    assert forall|i: int| 0 <= i < n implies s[#[trigger] places[i] as int].spec_min()
        >= cur[places[i] as int].spec_min() && s[places[i] as int].spec_max()
        <= cur[places[i] as int].spec_max() by {
        crate::constraints::lemma_same_size_same_values(cur[places[i] as int], s[places[i] as int]);
    }
    lemma_weighted_monotone(cur, s, places, coefs, n, false);
    lemma_weighted_monotone(cur, s, places, coefs, n, true);
    crate::constraints::lemma_same_size_same_values(cur[fr], s[fr]);
    lemma_bounds_are_values(s[fr]);
    assert forall|i: int, v: int|
        0 <= i < places.len() && coefs[i] > 0 && #[trigger] s[places[i] as int]@.contains(
            v,
        ) implies v <= clamp(
        cur[places[i] as int].spec_min() + (cur[fr].spec_max() - low) / (coefs[i] as int),
    ) by {
        let p = places[i] as int;
        let c = coefs[i] as int;
        lemma_bounds_are_values(s[p]);
        let d = s[p].spec_min() - cur[p].spec_min();
        lemma_weighted_gap(cur, s, places, coefs, n, i);
        lemma_term_bound(
            cur[p].spec_min(),
            d,
            cur[fr].spec_max() - low,
            s[fr].spec_max() - low_s,
            c,
        );
        assert(s[p].spec_max() <= clamp(s[p].spec_min() + (s[fr].spec_max() - low_s) / c));
    }
}

/// A term of a weighted sum is less than `2^62` in size.
proof fn lemma_term_size(c: int, v: int)
    by (nonlinear_arith)
    requires
        0 <= c <= 0x7fff_ffff,
        -0x8000_0000 <= v <= 0x7fff_ffff,
    ensures
        -0x4000_0000_0000_0000 <= c * v <= 0x4000_0000_0000_0000,
{
}

/// The value nearest to `v` that an `i32` can hold.
fn saturate_wide(v: i128) -> (r: i32)
    ensures
        r == clamp(v as int),
{
    if v < i32::MIN as i128 {
        i32::MIN
    } else if v > i32::MAX as i128 {
        i32::MAX
    } else {
        v as i32
    }
}

/// The narrowing for a weighted sum.
#[derive(Debug)]
pub struct SumPropagator {
    coefs: Vec<i32>,
}

impl SumPropagator {
    /// The weights, in the order of the terms.
    pub closed spec fn coefs(&self) -> Seq<i32> {
        self.coefs@
    }

    /// Whether no weight is negative.
    pub open spec fn wf(&self) -> bool {
        forall|i: int| 0 <= i < self.coefs().len() ==> (#[trigger] self.coefs()[i]) >= 0
    }

    /// The propagator for the weights `coefs`.
    pub fn new(coefs: Vec<i32>) -> (r: SumPropagator)
        ensures
            r.coefs() == coefs@,
    {
        SumPropagator { coefs }
    }

    /// Whether the propagator has `n` weights and none is negative.
    pub fn check(&self, n: usize) -> (r: bool)
        ensures
            r == (self.wf() && self.coefs().len() == n),
    {
        if self.coefs.len() != n {
            return false;
        }
        let mut k: usize = 0;
        while k < self.coefs.len()
            invariant
                k <= self.coefs@.len(),
                forall|i: int| 0 <= i < k ==> (#[trigger] self.coefs@[i]) >= 0,
            decreases self.coefs@.len() - k,
        {
            if self.coefs[k] < 0 {
                return false;
            }
            k = k + 1;
        }
        true
    }

    /// The weighted sum of the lower bounds, or, if `upper` is set, of the
    /// upper bounds, of the variables at `places`.
    fn weigh(&self, vars: &Handler, places: &Vec<usize>, upper: bool) -> (r: i128)
        requires
            vars.wf(),
            self.wf(),
            self.coefs().len() == places@.len(),
            forall|i: int| 0 <= i < places@.len() ==> (#[trigger] places@[i]) < vars.vars().len(),
        ensures
            r == weighted(vars.vars(), places@, self.coefs(), places@.len() as int, upper),
            -places@.len() * 0x4000_0000_0000_0000 <= r <= places@.len() * 0x4000_0000_0000_0000,
    {
        let mut acc: i128 = 0;
        let mut k: usize = 0;
        while k < places.len()
            invariant
                vars.wf(),
                self.wf(),
                self.coefs@.len() == places@.len(),
                forall|i: int| 0 <= i < places@.len() ==> (#[trigger] places@[i]) < vars.vars().len(),
                k <= places@.len(),
                acc == weighted(vars.vars(), places@, self.coefs@, k as int, upper),
                -k * 0x4000_0000_0000_0000 <= acc <= k * 0x4000_0000_0000_0000,
            decreases places@.len() - k,
        {
            let c: i32 = self.coefs[k];
            let var = vars.variable(places[k]);
            let v: i32 = if upper {
                var.max()
            } else {
                var.min()
            };
            proof {
                lemma_bounds_are_values(*var);
                assert(self.coefs()[k as int] >= 0);
                lemma_term_size(c as int, v as int);
            }
            let term: i128 = (c as i128) * (v as i128);
            acc = acc + term;
            k = k + 1;
        }
        acc
    }

    /// One round of narrowing, with the sum at the place `fr` and the terms
    /// at `places`: the bounds of the sum from those of the terms, then the
    /// upper bound of each term from the upper bound of the sum. Tells
    /// whether anything was narrowed.
    #[verifier::rlimit(50)]
    fn pass(&self, vars: &mut Handler, fr: usize, places: &Vec<usize>) -> (r: Result<
        bool,
        VariableError,
    >)
        requires
            old(vars).wf(),
            self.wf(),
            self.coefs().len() == places@.len(),
            fr < old(vars).vars().len(),
            forall|i: int| 0 <= i < places@.len() ==> (#[trigger] places@[i]) < old(vars).vars().len(),
            !among(places@, fr as int),
        ensures
            final(vars).wf(),
            narrowed(old(vars), final(vars)),
            forall|f: int|
                0 <= f < old(vars).vars().len() && f != fr && !among(places@, f) ==> final(vars).vars()[f] == old(vars).vars()[f],
            r == Ok::<bool, VariableError>(false) <==> sum_at_fixpoint(
                old(vars).vars(),
                old(vars).vars()[fr as int],
                places@,
                self.coefs(),
            ),
            r == Ok::<bool, VariableError>(false) ==> final(vars).vars() == old(vars).vars(),
            r == Ok::<bool, VariableError>(true) ==> final(vars).measure() < old(vars).measure(),
            forall|s: Handler| #[trigger]
                below(old(vars), &s) && sum_at_fixpoint(
                    s.vars(),
                    s.vars()[fr as int],
                    places@,
                    self.coefs(),
                ) ==> r is Ok && narrowed(final(vars), &s),
    {
        let ghost before = *vars;
        let ghost coefs = self.coefs();
        let ghost fixed = sum_at_fixpoint(before.vars(), before.vars()[fr as int], places@, coefs);
        let low = self.weigh(vars, places, false);
        let high = self.weigh(vars, places, true);
        proof {
            lemma_bounds_are_values(before.vars()[fr as int]);
            assert forall|s: Handler| #[trigger]
                below(&before, &s) && sum_at_fixpoint(
                    s.vars(),
                    s.vars()[fr as int],
                    places@,
                    coefs,
                ) implies (forall|v: int|
                s.vars()[fr as int]@.contains(v) ==> clamp(low as int) <= v <= clamp(
                    high as int,
                )) by {
                lemma_sum_within(before.vars(), s.vars(), fr as int, places@, coefs);
            }
        }
        let first = crate::constraints::confine(
            vars,
            fr,
            saturate_wide(low),
            saturate_wide(high),
        );
        let ghost middle = *vars;
        let mut changed = match first {
            Err(e) => {
                return Err(e);
            },
            Ok(changed) => changed,
        };
        proof {
            lemma_bounds_are_values(vars.vars()[fr as int]);
            lemma_weighted_reads(
                before.vars(),
                middle.vars(),
                places@,
                coefs,
                places@.len() as int,
                false,
            );
            assert forall|s: Handler| #[trigger]
                below(&before, &s) && sum_at_fixpoint(
                    s.vars(),
                    s.vars()[fr as int],
                    places@,
                    coefs,
                ) implies below(&middle, &s) && low <= middle.vars()[fr as int].spec_max() by {
                lemma_sum_within(before.vars(), s.vars(), fr as int, places@, coefs);
                crate::constraints::lemma_same_size_same_values(
                    middle.vars()[fr as int],
                    s.vars()[fr as int],
                );
            }
        }
        let count: usize = places.len();
        assert(count <= 0xffff_ffff_ffff_ffff);
        let room: i128 = vars.variable(fr).max() as i128 - low;
        if room < 0 {
            return Err(VariableError::DomainWipeout);
        }
        let ghost top = vars.vars()[fr as int].spec_max();
        let mut i: usize = 0;
        while i < places.len()
            invariant
                before == *old(vars),
                coefs == self.coefs(),
                fixed == sum_at_fixpoint(before.vars(), before.vars()[fr as int], places@, coefs),
                before.wf(),
                middle.wf(),
                vars.wf(),
                self.wf(),
                narrowed(&before, vars),
                narrowed(&middle, vars),
                coefs.len() == places@.len(),
                fr < before.vars().len(),
                forall|k: int| 0 <= k < places@.len() ==> (#[trigger] places@[k]) < before.vars().len(),
                !among(places@, fr as int),
                i <= places@.len(),
                low == weighted(before.vars(), places@, coefs, places@.len() as int, false),
                low == weighted(middle.vars(), places@, coefs, places@.len() as int, false),
                room == top - low,
                room >= 0,
                top == vars.vars()[fr as int].spec_max(),
                top == middle.vars()[fr as int].spec_max(),
                -0x8000_0000 <= top <= 0x7fff_ffff,
                -places@.len() * 0x4000_0000_0000_0000 <= low <= places@.len()
                    * 0x4000_0000_0000_0000,
                forall|f: int|
                    0 <= f < before.vars().len() && f != fr && !among(places@, f) ==> vars.vars()[f]
                        == before.vars()[f],
                forall|f: int|
                    0 <= f < before.vars().len() ==> (#[trigger] vars.vars()[f]).spec_min()
                        == middle.vars()[f].spec_min(),
                !changed ==> vars.vars() == before.vars(),
                changed ==> !fixed && vars.measure() < before.measure(),
                !changed ==> before.vars()[fr as int].spec_max() <= clamp(
                    weighted(before.vars(), places@, coefs, places@.len() as int, true),
                ) && clamp(low as int) <= before.vars()[fr as int].spec_min(),
                !changed ==> forall|k: int|
                    0 <= k < i && coefs[k] > 0 ==> before.vars()[#[trigger] places@[k] as int].spec_max()
                        <= clamp(
                        before.vars()[places@[k] as int].spec_min() + (top - low) / (
                        coefs[k] as int),
                    ),
                forall|s: Handler| #[trigger]
                    below(&before, &s) && sum_at_fixpoint(
                        s.vars(),
                        s.vars()[fr as int],
                        places@,
                        coefs,
                    ) ==> below(&middle, &s) && narrowed(vars, &s),
            decreases places@.len() - i,
        {
            let c: i32 = self.coefs[i];
            if c > 0 {
                let ghost held = *vars;
                let place: usize = places[i];
                proof {
                    lemma_bounds_are_values(vars.vars()[place as int]);
                    assert(place != fr) by {
                        if place == fr {
                            assert(places@[i as int] == fr as int);
                        }
                    }
                }
                let floor: i32 = vars.variable(place).min();
                let share: i128 = room / (c as i128);
                assert(share == (top - low) / (c as int));
                assert(0 <= share <= room) by (nonlinear_arith)
                    requires
                        share == room / (c as i128),
                        room >= 0,
                        c > 0,
                ;
                let bound = saturate_wide(floor as i128 + share);
                proof {
                    assert forall|s: Handler| #[trigger]
                        below(&before, &s) && sum_at_fixpoint(
                            s.vars(),
                            s.vars()[fr as int],
                            places@,
                            coefs,
                        ) implies (forall|v: int|
                        s.vars()[place as int]@.contains(v) ==> v <= bound) by {
                        lemma_sum_within(middle.vars(), s.vars(), fr as int, places@, coefs);
                        assert(floor == middle.vars()[places@[i as int] as int].spec_min());
                    }
                }
                let outcome = vars.variable_mut(place).update_weak_bsup(bound);
                proof {
                    lemma_narrowed_twice(&before, &held, vars);
                    lemma_narrowed_twice(&middle, &held, vars);
                    assert forall|f: int|
                        0 <= f < before.vars().len() && f != fr && !among(places@, f) implies vars.vars()[f]
                        == before.vars()[f] by {
                        assert(places@[i as int] != f);
                    }
                    assert forall|s: Handler| #[trigger]
                        below(&before, &s) && sum_at_fixpoint(
                            s.vars(),
                            s.vars()[fr as int],
                            places@,
                            coefs,
                        ) implies below(&middle, &s) && outcome is Ok && narrowed(vars, &s) by {
                        let a = s.vars()[place as int];
                        lemma_bounds_are_values(a);
                        assert(a@.contains(a.spec_min()));
                        assert(held.vars()[place as int]@.contains(a.spec_min()));
                        assert forall|f: int, v: int|
                            0 <= f < vars.vars().len() && #[trigger] s.vars()[f]@.contains(
                                v,
                            ) implies vars.vars()[f]@.contains(v) by {
                            assert(held.vars()[f]@.contains(v));
                            if f != place {
                                assert(vars.vars()[f] == held.vars()[f]);
                            }
                        }
                    }
                }
                match outcome {
                    Err(e) => {
                        proof {
                            if !changed {
                                assert(!fixed);
                            }
                        }
                        return Err(e);
                    },
                    Ok(state) => {
                        if state != VariableState::NoChange {
                            proof {
                                lemma_bounds_are_values(held.vars()[place as int]);
                                assert(vars.vars()[place as int]@ != held.vars()[place as int]@);
                                lemma_narrowing_measure(held, *vars, place as int);
                                lemma_narrowing_measure(before, held, 0);
                                if !changed {
                                    assert(!fixed);
                                }
                            }
                            changed = true;
                        } else {
                            assert(vars.vars() =~= held.vars());
                        }
                    },
                }
            }
            i = i + 1;
        }
        Ok(changed)
    }

    /// Narrows until a round narrows nothing more.
    pub fn narrow(&self, vars: &mut Handler, fr: usize, places: &Vec<usize>) -> (r: Result<
        (),
        VariableError,
    >)
        requires
            old(vars).wf(),
            self.wf(),
            self.coefs().len() == places@.len(),
            fr < old(vars).vars().len(),
            forall|i: int| 0 <= i < places@.len() ==> (#[trigger] places@[i]) < old(vars).vars().len(),
            !among(places@, fr as int),
        ensures
            final(vars).wf(),
            narrowed(old(vars), final(vars)),
            forall|f: int|
                0 <= f < old(vars).vars().len() && f != fr && !among(places@, f) ==> final(vars).vars()[f] == old(vars).vars()[f],
            r is Ok ==> sum_at_fixpoint(
                final(vars).vars(),
                final(vars).vars()[fr as int],
                places@,
                self.coefs(),
            ),
            sum_at_fixpoint(old(vars).vars(), old(vars).vars()[fr as int], places@, self.coefs())
                ==> r is Ok && final(vars).vars() == old(vars).vars(),
            forall|s: Handler| #[trigger]
                below(old(vars), &s) && sum_at_fixpoint(
                    s.vars(),
                    s.vars()[fr as int],
                    places@,
                    self.coefs(),
                ) ==> r is Ok && narrowed(final(vars), &s),
    {
        let ghost before = *vars;
        let ghost mut first = true;
        loop
            invariant
                before == *old(vars),
                forall|s: Handler| #[trigger]
                    below(&before, &s) && sum_at_fixpoint(
                        s.vars(),
                        s.vars()[fr as int],
                        places@,
                        self.coefs(),
                    ) ==> narrowed(vars, &s),
                before.wf(),
                vars.wf(),
                self.wf(),
                narrowed(&before, vars),
                self.coefs().len() == places@.len(),
                fr < before.vars().len(),
                forall|i: int| 0 <= i < places@.len() ==> (#[trigger] places@[i]) < before.vars().len(),
                !among(places@, fr as int),
                first ==> vars.vars() == before.vars(),
                !first ==> !sum_at_fixpoint(
                    before.vars(),
                    before.vars()[fr as int],
                    places@,
                    self.coefs(),
                ),
                forall|f: int|
                    0 <= f < before.vars().len() && f != fr && !among(places@, f) ==> vars.vars()[f]
                        == before.vars()[f],
            decreases vars.measure(),
        {
            let ghost held = *vars;
            let outcome = self.pass(vars, fr, places);
            proof {
                lemma_narrowed_twice(&before, &held, vars);
                assert forall|s: Handler| #[trigger]
                    below(&before, &s) && sum_at_fixpoint(
                        s.vars(),
                        s.vars()[fr as int],
                        places@,
                        self.coefs(),
                    ) implies outcome is Ok && narrowed(vars, &s) by {
                    assert(below(&held, &s));
                }
            }
            match outcome {
                Err(e) => {
                    return Err(e);
                },
                Ok(changed) => {
                    if !changed {
                        return Ok(());
                    }
                },
            }
            proof {
                first = false;
            }
        }
    }
}

/// The places that the handles `views` lead to in `vars`, in order.
pub open spec fn places_of(views: Seq<ViewIndex>, vars: &Handler) -> Seq<usize> {
    Seq::new(views.len(), |i: int| vars.slot(views[i])->0 as usize)
}

/// Whether the sum `res = sum of coefs[i] * terms[i]` is at its fixed point
/// on `vars`.
pub open spec fn sum_fixed(
    res: ViewIndex,
    terms: Seq<ViewIndex>,
    coefs: Seq<i32>,
    vars: &Handler,
) -> bool {
    sum_at_fixpoint(vars.vars(), vars.vars()[vars.slot(res)->0], places_of(terms, vars), coefs)
}

/// Whether the sum `res = sum of coefs[i] * terms[i]` holds of the only
/// values left in `vars`.
pub open spec fn sum_sure(
    res: ViewIndex,
    terms: Seq<ViewIndex>,
    coefs: Seq<i32>,
    vars: &Handler,
) -> bool {
    sum_entailed(vars.vars(), vars.vars()[vars.slot(res)->0], places_of(terms, vars), coefs)
}

/// Whether a sum is at its fixed point, and whether it is sure, is read off
/// the bounds of its variables.
pub proof fn lemma_sum_reads(
    res: ViewIndex,
    terms: Seq<ViewIndex>,
    coefs: Seq<i32>,
    a: &Handler,
    b: &Handler,
)
    requires
        a.layout_wf(),
        a.same_layout(b),
        a.slot(res) is Some,
        forall|i: int| 0 <= i < terms.len() ==> a.slot(#[trigger] terms[i]) is Some,
        agree(a.vars()[a.slot(res)->0], b.vars()[a.slot(res)->0], false),
        forall|i: int|
            0 <= i < terms.len() ==> agree(
                a.vars()[a.slot(#[trigger] terms[i])->0],
                b.vars()[a.slot(terms[i])->0],
                false,
            ),
    ensures
        sum_fixed(res, terms, coefs, a) == sum_fixed(res, terms, coefs, b),
        sum_sure(res, terms, coefs, a) == sum_sure(res, terms, coefs, b),
{
    let places = places_of(terms, a);
    assert(places =~= places_of(terms, b));
    assert forall|i: int| 0 <= i < places.len() implies a.vars()[#[trigger] places[i] as int].spec_min()
        == b.vars()[places[i] as int].spec_min() && a.vars()[places[i] as int].spec_max()
        == b.vars()[places[i] as int].spec_max() by {
        crate::variables::handlers::default_handler::lemma_slot_fits(*a, terms[i]);
        assert(agree(a.vars()[a.slot(terms[i])->0], b.vars()[a.slot(terms[i])->0], false));
    }
    lemma_weighted_reads(a.vars(), b.vars(), places, coefs, places.len() as int, false);
    lemma_weighted_reads(a.vars(), b.vars(), places, coefs, places.len() as int, true);
}

impl SumPropagator {
    /// Whether the sum and every term are fixed, and the sum to the sum of
    /// the terms.
    fn check_entailed(&self, vars: &Handler, fr: usize, places: &Vec<usize>) -> (r: bool)
        requires
            vars.wf(),
            self.wf(),
            self.coefs().len() == places@.len(),
            fr < vars.vars().len(),
            forall|i: int| 0 <= i < places@.len() ==> (#[trigger] places@[i]) < vars.vars().len(),
        ensures
            r == sum_entailed(vars.vars(), vars.vars()[fr as int], places@, self.coefs()),
    {
        let res = vars.variable(fr);
        if !res.is_fixed() {
            return false;
        }
        let mut k: usize = 0;
        while k < places.len()
            invariant
                k <= places@.len(),
                forall|i: int| 0 <= i < places@.len() ==> (#[trigger] places@[i]) < vars.vars().len(),
                forall|i: int|
                    0 <= i < k ==> vars.vars()[#[trigger] places@[i] as int].spec_min()
                        == vars.vars()[places@[i] as int].spec_max(),
            decreases places@.len() - k,
        {
            if !vars.variable(places[k]).is_fixed() {
                return false;
            }
            k = k + 1;
        }
        let low = self.weigh(vars, places, false);
        res.min() as i128 == low
    }

    /// Narrows the variables that `res` and the handles of `terms` lead to
    /// for `res = sum of coefs[i] * terms[i]`, and reports what changed.
    #[verifier::rlimit(50)]
    pub fn propagate(&self, vars: &mut Handler, res: &ViewIndex, terms: &ArrayOfRefs) -> (r: Result<
        PropagationState,
        VariableError,
    >)
        requires
            old(vars).wf(),
            self.wf(),
            self.coefs().len() == terms.variables@.len(),
            resolves(seq![*res] + terms.variables@, old(vars)),
        ensures
            final(vars).wf(),
            narrowed(old(vars), final(vars)),
            forall|f: int|
                0 <= f < old(vars).vars().len() && !leads_to(
                    seq![*res] + terms.variables@,
                    old(vars),
                    f,
                ) ==> final(vars).vars()[f] == old(vars).vars()[f],
            r == Ok::<PropagationState, VariableError>(PropagationState::NoChange) <==> sum_fixed(
                *res,
                terms.variables@,
                self.coefs(),
                old(vars),
            ) && !sum_sure(*res, terms.variables@, self.coefs(), old(vars)),
            r is Ok ==> sum_fixed(*res, terms.variables@, self.coefs(), final(vars)),
            forall|s: Handler| #[trigger]
                below(old(vars), &s) && sum_fixed(*res, terms.variables@, self.coefs(), &s)
                    ==> r is Ok && narrowed(final(vars), &s),
            r is Err <==> forall|s: Handler| #[trigger]
                below(old(vars), &s) ==> !sum_fixed(*res, terms.variables@, self.coefs(), &s),
            match r {
                Ok(PropagationState::NoChange) => final(vars).equal_domains(old(vars)),
                Ok(PropagationState::FixPoint(changes)) => crate::constraints::accurate(
                    changes@,
                    old(vars),
                    final(vars),
                ) && sum_fixed(*res, terms.variables@, self.coefs(), final(vars)) && !sum_sure(
                    *res,
                    terms.variables@,
                    self.coefs(),
                    final(vars),
                ) && changes@.len() > 0,
                Ok(PropagationState::Subsumed(changes)) => crate::constraints::accurate(
                    changes@,
                    old(vars),
                    final(vars),
                ) && sum_sure(*res, terms.variables@, self.coefs(), final(vars)),
                Err(_) => true,
            },
    {
        let ghost before = *vars;
        let ghost views = seq![*res] + terms.variables@;
        let all = with_first(res, &terms.variables);
        let (every, snaps) = survey(vars, &all);
        let fr: usize = every[0];
        let mut places: Vec<usize> = Vec::new();
        let mut k: usize = 1;
        while k < every.len()
            invariant
                1 <= k <= every@.len(),
                places@ == every@.subrange(1, k as int),
            decreases every@.len() - k,
        {
            places.push(every[k]);
            proof {
                assert(every@.subrange(1, k + 1) =~= every@.subrange(1, k as int).push(
                    every@[k as int],
                ));
            }
            k = k + 1;
        }
        proof {
            assert(places@ == every@.subrange(1, every@.len() as int));
            assert(views[0] == *res);
            assert(before.slot(*res) == Some(fr as int));
            assert forall|i: int| 0 <= i < places@.len() implies (#[trigger] places@[i])
                < before.vars().len() && before.slot(terms.variables@[i]) == Some(
                places@[i] as int,
            ) by {
                assert(places@[i] == every@[i + 1]);
                assert(views[i + 1] == terms.variables@[i]);
            }
            assert(places@ =~= places_of(terms.variables@, &before));
            if among(places@, fr as int) {
                let i = choose|i: int| 0 <= i < places@.len() && #[trigger] places@[i] == fr as int;
                assert(places@[i] == every@[i + 1]);
                crate::constraints::lemma_apart(every@, 0, i + 1);
            }
        }
        let outcome = self.narrow(vars, fr, &places);
        proof {
            assert forall|s: Handler| #[trigger]
                below(&before, &s) && sum_fixed(
                    *res,
                    terms.variables@,
                    self.coefs(),
                    &s,
                ) implies outcome is Ok && narrowed(vars, &s) by {
                assert(s.slot(*res) == before.slot(*res));
                assert forall|i: int| 0 <= i < terms.variables@.len() implies s.slot(
                    #[trigger] terms.variables@[i],
                ) == before.slot(terms.variables@[i]) by {}
                assert(places@ =~= places_of(terms.variables@, &s));
            }
            assert forall|f: int|
                0 <= f < before.vars().len() && !leads_to(views, &before, f) implies vars.vars()[f]
                == before.vars()[f] by {
                if f == fr {
                    assert(before.slot(views[0]) == Some(f));
                }
                if among(places@, f) {
                    let i = choose|i: int| 0 <= i < places@.len() && #[trigger] places@[i] == f;
                    assert(before.slot(views[i + 1]) == Some(f));
                }
            }
            assert forall|f: int|
                0 <= f < before.vars().len() && (forall|k: int|
                    0 <= k < snaps@.len() ==> (#[trigger] snaps@[k]).place != f) implies vars.vars()[f]
                == before.vars()[f] by {
                assert(snaps@[0].place != f);
                if among(places@, f) {
                    let i = choose|i: int| 0 <= i < places@.len() && #[trigger] places@[i] == f;
                    assert(snaps@[i + 1].place == f);
                }
            }
        }
        match outcome {
            Err(e) => {
                return Err(e);
            },
            Ok(()) => {},
        }
        proof {
            assert(places@ =~= places_of(terms.variables@, vars));
        }
        let changes = account(vars, &snaps, Ghost(before));
        proof {
            if vars.equal_domains(&before) {
                assert(before.slot(views[0]) is Some);
                assert forall|i: int| 0 <= i < terms.variables@.len() implies before.slot(
                    #[trigger] terms.variables@[i],
                ) is Some by {
                    assert(views[i + 1] == terms.variables@[i]);
                }
                lemma_sum_reads(*res, terms.variables@, self.coefs(), &before, vars);
            }
        }
        assert(below(&before, vars) && sum_fixed(*res, terms.variables@, self.coefs(), vars));
        if self.check_entailed(vars, fr, &places) {
            Ok(PropagationState::Subsumed(changes))
        } else if changes.len() == 0 {
            Ok(PropagationState::NoChange)
        } else {
            Ok(PropagationState::FixPoint(changes))
        }
    }
}

/// A part of a domain that is down to one value is down to that value.
pub proof fn lemma_fixed_stay(a: IntVar, b: IntVar)
    requires
        a.wf(),
        b.wf(),
        a.spec_min() == a.spec_max(),
        forall|v: int| b@.contains(v) ==> a@.contains(v),
    ensures
        b.spec_min() == a.spec_min(),
        b.spec_max() == a.spec_min(),
{
    crate::constraints::lemma_same_size_same_values(a, b);
    lemma_bounds_are_values(b);
}

/// Where every term is down to one value, the weighted sum of the upper
/// bounds is the weighted sum of the lower bounds.
pub proof fn lemma_weighted_same(vars: Seq<IntVar>, places: Seq<usize>, coefs: Seq<i32>, k: int)
    requires
        0 <= k <= places.len(),
        forall|i: int|
            0 <= i < k ==> vars[#[trigger] places[i] as int].spec_min()
                == vars[places[i] as int].spec_max(),
    ensures
        weighted(vars, places, coefs, k, true) == weighted(vars, places, coefs, k, false),
    decreases k,
{
    if k > 0 {
        lemma_weighted_same(vars, places, coefs, k - 1);
        assert(vars[places[k - 1] as int].spec_min() == vars[places[k - 1] as int].spec_max());
    }
}

/// The handle `res` followed by the handles `terms`.
fn with_first(res: &ViewIndex, terms: &Vec<ViewIndex>) -> (all: Vec<ViewIndex>)
    ensures
        all@ == seq![*res] + terms@,
{
    let mut all: Vec<ViewIndex> = Vec::new();
    all.push(*res);
    let mut k: usize = 0;
    while k < terms.len()
        invariant
            k <= terms@.len(),
            all@ == seq![*res] + terms@.take(k as int),
        decreases terms@.len() - k,
    {
        all.push(terms[k]);
        proof {
            assert(terms@.take(k + 1) =~= terms@.take(k as int).push(terms@[k as int]));
            assert(all@ =~= seq![*res] + terms@.take(k + 1));
        }
        k = k + 1;
    }
    proof {
        assert(terms@.take(k as int) =~= terms@);
    }
    all
}

/// The constraint that a variable is a weighted sum of others.
#[derive(Debug)]
pub struct Sum {
    res: ViewIndex,
    vars: ArrayOfRefs,
    propagator: SumPropagator,
}

impl Sum {
    /// The handle of the sum.
    pub closed spec fn res(&self) -> ViewIndex {
        self.res
    }

    /// The handles of the terms.
    pub closed spec fn terms(&self) -> Seq<ViewIndex> {
        self.vars.variables@
    }

    /// The weights of the terms.
    pub closed spec fn coefs(&self) -> Seq<i32> {
        self.propagator.coefs()
    }

    /// The constraint `res = sum of coefs[i] * vars[i]`. There is none where
    /// one of the handles is a subview of another, where the weights are not
    /// as many as the terms, or where a weight is negative.
    pub fn new(res: &ViewIndex, vars: Vec<ViewIndex>, coefs: Vec<i32>) -> (r: Option<Sum>)
        ensures
            r is Some <==> pairwise_disjoint(seq![*res] + vars@) && coefs@.len() == vars@.len()
                && forall|i: int| 0 <= i < coefs@.len() ==> (#[trigger] coefs@[i]) >= 0,
            r matches Some(c) ==> c.res() == *res && c.terms() == vars@ && c.coefs() == coefs@
                && c.params_wf(),
    {
        let propagator = SumPropagator::new(coefs);
        if !propagator.check(vars.len()) {
            return None;
        }
        let all = with_first(res, &vars);
        match crate::variables::find_clash(&all) {
            Err(_) => None,
            Ok(()) => Some(Sum { res: *res, vars: ArrayOfRefs { variables: vars }, propagator }),
        }
    }
}

impl Clone for SumPropagator {
    /// A copy with the same weights.
    fn clone(&self) -> (r: Self)
        ensures
            r.coefs() == self.coefs(),
    {
        let mut coefs: Vec<i32> = Vec::new();
        let mut k: usize = 0;
        while k < self.coefs.len()
            invariant
                k <= self.coefs@.len(),
                coefs@ == self.coefs@.take(k as int),
            decreases self.coefs@.len() - k,
        {
            coefs.push(self.coefs[k]);
            assert(self.coefs@.take(k + 1) =~= self.coefs@.take(k as int).push(
                self.coefs@[k as int],
            ));
            k = k + 1;
        }
        assert(self.coefs@.take(k as int) =~= self.coefs@);
        SumPropagator { coefs }
    }
}

impl Clone for Sum {
    /// A copy with the same handles and the same weights.
    fn clone(&self) -> (r: Self)
        ensures
            r.res() == self.res(),
            r.terms() == self.terms(),
            r.coefs() == self.coefs(),
    {
        Sum {
            res: self.res,
            vars: ArrayOfRefs { variables: crate::constraints::copy_views(&self.vars.variables) },
            propagator: self.propagator.clone(),
        }
    }
}

impl Propagator for Sum {
    open spec fn views(&self) -> Seq<ViewIndex> {
        seq![self.res()] + self.terms()
    }

    open spec fn params_wf(&self) -> bool {
        &&& pairwise_disjoint(self.views())
        &&& self.coefs().len() == self.terms().len()
        &&& forall|i: int| 0 <= i < self.coefs().len() ==> (#[trigger] self.coefs()[i]) >= 0
    }

    open spec fn reads_values(&self) -> bool {
        false
    }

    open spec fn at_fixpoint(&self, vars: &Handler) -> bool {
        sum_fixed(self.res(), self.terms(), self.coefs(), vars)
    }

    open spec fn entailed(&self, vars: &Handler) -> bool {
        sum_sure(self.res(), self.terms(), self.coefs(), vars)
    }

    proof fn lemma_reads(&self, a: &Handler, b: &Handler) {
        assert(self.views()[0] == self.res());
        assert forall|i: int| 0 <= i < self.terms().len() implies a.slot(
            #[trigger] self.terms()[i],
        ) is Some && agree(
            a.vars()[a.slot(self.terms()[i])->0],
            b.vars()[a.slot(self.terms()[i])->0],
            false,
        ) by {
            assert(self.views()[i + 1] == self.terms()[i]);
        }
        lemma_sum_reads(self.res(), self.terms(), self.coefs(), a, b);
    }

    proof fn lemma_entailed(&self, a: &Handler, b: &Handler) {
        let terms = self.terms();
        let coefs = self.coefs();
        assert(self.views()[0] == self.res());
        crate::variables::handlers::default_handler::lemma_slot_fits(*a, self.res());
        let fr = a.slot(self.res())->0;
        let places = places_of(terms, a);
        assert(places =~= places_of(terms, b));
        assert forall|i: int| 0 <= i < places.len() implies (#[trigger] places[i]) < a.vars().len()
            && a.slot(terms[i]) == Some(places[i] as int) by {
            assert(self.views()[i + 1] == terms[i]);
            crate::variables::handlers::default_handler::lemma_slot_fits(*a, terms[i]);
        }
        lemma_fixed_stay(a.vars()[fr], b.vars()[fr]);
        assert forall|i: int| 0 <= i < places.len() implies b.vars()[#[trigger] places[i] as int].spec_min()
            == a.vars()[places[i] as int].spec_min() && b.vars()[places[i] as int].spec_max()
            == a.vars()[places[i] as int].spec_min() by {
            lemma_fixed_stay(a.vars()[places[i] as int], b.vars()[places[i] as int]);
        }
        let n = places.len() as int;
        lemma_weighted_reads(a.vars(), b.vars(), places, coefs, n, false);
        lemma_weighted_same(b.vars(), places, coefs, n);
        let low = weighted(b.vars(), places, coefs, n, false);
        assert forall|i: int|
            0 <= i < places.len() && coefs[i] > 0 implies b.vars()[#[trigger] places[i] as int].spec_max()
            <= clamp(
            b.vars()[places[i] as int].spec_min() + (b.vars()[fr].spec_max() - low) / (
            coefs[i] as int),
        ) by {
            crate::variables::int_var::lemma_bounds_are_values(b.vars()[places[i] as int]);
            assert(0int / (coefs[i] as int) == 0) by (nonlinear_arith)
                requires
                    coefs[i] > 0,
            ;
        }
        crate::variables::int_var::lemma_bounds_are_values(b.vars()[fr]);
    }

    fn is_entailed(&self, vars: &Handler) -> (r: bool) {
        let all = with_first(&self.res, &self.vars.variables);
        let (every, _) = survey(vars, &all);
        let fr: usize = every[0];
        let mut places: Vec<usize> = Vec::new();
        let mut k: usize = 1;
        while k < every.len()
            invariant
                1 <= k <= every@.len(),
                places@ == every@.subrange(1, k as int),
            decreases every@.len() - k,
        {
            places.push(every[k]);
            proof {
                assert(every@.subrange(1, k + 1) =~= every@.subrange(1, k as int).push(
                    every@[k as int],
                ));
            }
            k = k + 1;
        }
        proof {
            let views = seq![self.res()] + self.terms();
            assert(views[0] == self.res());
            assert(vars.slot(self.res()) == Some(fr as int));
            assert forall|i: int| 0 <= i < places@.len() implies (#[trigger] places@[i])
                < vars.vars().len() && vars.slot(self.terms()[i]) == Some(places@[i] as int) by {
                assert(places@[i] == every@[i + 1]);
                assert(views[i + 1] == self.terms()[i]);
            }
            assert(places@ =~= places_of(self.terms(), vars));
        }
        self.propagator.check_entailed(vars, fr, &places)
    }

    fn observed(&self) -> (r: Vec<ViewIndex>) {
        with_first(&self.res, &self.vars.variables)
    }

    fn reads(&self) -> (r: bool) {
        false
    }

    fn check(&self, vars: &Handler) -> (r: bool) {
        self.propagator.check(self.vars.variables.len()) && crate::constraints::check_views(
            vars,
            &self.observed(),
        )
    }

    fn dependencies(&self, vars: &Handler) -> (r: Vec<(ViewIndex, VariableState)>) {
        let all = with_first(&self.res, &self.vars.variables);
        crate::constraints::bound_dependencies(vars, &all)
    }

    fn prepare(&mut self, changes: Vec<ViewIndex>) {
    }

    #[verifier::rlimit(50)]
    fn propagate(&self, vars: &mut Handler) -> (r: Result<PropagationState, VariableError>) {
        self.propagator.propagate(vars, &self.res, &self.vars)
    }
}

} // verus!
