//! The constraint that the variables of a list are in strictly ascending
//! order.

use vstd::prelude::*;

use crate::constraints::arithmetic::binary_ops::{
    narrow_order, relation_at_fixpoint, relation_entailed, RelationKind,
};
use crate::constraints::{
    account, agree, all_distinct, below, leads_to, lemma_apart, lemma_narrowed_twice,
    lemma_only_at_start, lemma_only_at_step, narrowed, only_at, places_match, resolves, survey,
    PropagationState, Propagator,
};
use crate::variables::handlers::default_handler::Handler;
use crate::variables::int_var::IntVar;
use crate::variables::{ArrayOfRefs, VariableError, VariableState, ViewIndex, pairwise_disjoint};

verus! {

/// Whether narrowing the variables at `places` for a strictly ascending
/// order would change nothing and would not fail: between neighbours, both
/// bounds ascend strictly.
pub open spec fn increasing_at_fixpoint(vars: Seq<IntVar>, places: Seq<usize>) -> bool {
    forall|i: int|
        0 <= i < places.len() - 1 ==> relation_at_fixpoint(
            RelationKind::LessThan,
            vars[#[trigger] places[i] as int],
            vars[places[i + 1] as int],
        )
}

/// Whether the variables at `places` are in strictly ascending order
/// whatever values are picked: each ends below the start of the next.
pub open spec fn increasing_entailed(vars: Seq<IntVar>, places: Seq<usize>) -> bool {
    forall|i: int|
        0 <= i < places.len() - 1 ==> relation_entailed(
            RelationKind::LessThan,
            vars[#[trigger] places[i] as int],
            vars[places[i + 1] as int],
        )
}

/// On fixed variables the ascending order is at its fixed point exactly when
/// the values ascend strictly.
pub proof fn lemma_fixed_increasing(vars: Seq<IntVar>, places: Seq<usize>)
    requires
        forall|i: int| 0 <= i < places.len() ==> vars[#[trigger] places[i] as int].wf(),
        forall|i: int|
            0 <= i < places.len() ==> vars[#[trigger] places[i] as int].spec_min()
                == vars[places[i] as int].spec_max(),
    ensures
        increasing_at_fixpoint(vars, places) <==> forall|i: int|
            0 <= i < places.len() - 1 ==> vars[#[trigger] places[i] as int].spec_min()
                < vars[places[i + 1] as int].spec_min(),
{
    if increasing_at_fixpoint(vars, places) {
        assert forall|i: int| 0 <= i < places.len() - 1 implies vars[#[trigger] places[i] as int].spec_min()
            < vars[places[i + 1] as int].spec_min() by {
            assert(relation_at_fixpoint(
                RelationKind::LessThan,
                vars[places[i] as int],
                vars[places[i + 1] as int],
            ));
        }
    }
    if forall|i: int|
        0 <= i < places.len() - 1 ==> vars[#[trigger] places[i] as int].spec_min()
            < vars[places[i + 1] as int].spec_min() {
        assert forall|i: int| 0 <= i < places.len() - 1 implies relation_at_fixpoint(
            RelationKind::LessThan,
            vars[#[trigger] places[i] as int],
            vars[places[i + 1] as int],
        ) by {
            assert(vars[places[i] as int].spec_min() < vars[places[i + 1] as int].spec_min());
            assert(vars[places[i + 1] as int].spec_min() == vars[places[i + 1] as int].spec_max());
        }
    }
}

/// The narrowing for a strictly ascending order: a sweep from the first
/// pair of neighbours to the last and a sweep back.
#[derive(Debug, Clone, Copy)]
pub struct IncreasingPropagator {}

impl IncreasingPropagator {
    /// The propagator; it has no parameter.
    pub fn new() -> (r: IncreasingPropagator) {
        IncreasingPropagator {  }
    }

    /// Narrows the variables at `places` by the two sweeps.
    #[verifier::rlimit(50)]
    pub fn narrow(&self, vars: &mut Handler, places: &Vec<usize>) -> (r: Result<(), VariableError>)
        requires
            old(vars).wf(),
            forall|i: int| 0 <= i < places@.len() ==> (#[trigger] places@[i]) < old(vars).vars().len(),
            all_distinct(places@),
        ensures
            final(vars).wf(),
            narrowed(old(vars), final(vars)),
            only_at(old(vars).vars(), final(vars).vars(), places@),
            r is Ok ==> increasing_at_fixpoint(final(vars).vars(), places@),
            increasing_at_fixpoint(old(vars).vars(), places@) ==> r is Ok && final(vars).vars()
                == old(vars).vars(),
            forall|s: Handler| #[trigger]
                below(old(vars), &s) && increasing_at_fixpoint(s.vars(), places@) ==> r is Ok
                    && narrowed(final(vars), &s),
    {
        let ghost before = *vars;
        let n: usize = places.len();
        proof {
            lemma_only_at_start(before.vars(), places@);
        }
        if n < 2 {
            return Ok(());
        }
        proof {
            lemma_ascend_start(vars.vars(), places@);
        }
        let mut i: usize = 0;
        while i < n - 1
            invariant
                before == *old(vars),
                before.wf(),
                vars.wf(),
                narrowed(&before, vars),
                n == places@.len(),
                n >= 2,
                i <= n - 1,
                forall|k: int| 0 <= k < places@.len() ==> (#[trigger] places@[k]) < before.vars().len(),
                all_distinct(places@),
                only_at(before.vars(), vars.vars(), places@),
                mins_ascend(vars.vars(), places@, i as int),
                increasing_at_fixpoint(before.vars(), places@) ==> vars.vars() == before.vars(),
                forall|s: Handler| #[trigger]
                    below(&before, &s) && increasing_at_fixpoint(s.vars(), places@) ==> narrowed(
                        vars,
                        &s,
                    ),
            decreases n - 1 - i,
        {
            let ghost held = *vars;
            let lo: usize = places[i];
            let hi: usize = places[i + 1];
            proof {
                lemma_apart(places@, i as int, i + 1);
                if increasing_at_fixpoint(before.vars(), places@) {
                    assert(relation_at_fixpoint(
                        RelationKind::LessThan,
                        before.vars()[places@[i as int] as int],
                        before.vars()[places@[i + 1] as int],
                    ));
                }
            }
            let outcome = narrow_order(vars, lo, hi, true);
            proof {
                lemma_narrowed_twice(&before, &held, vars);
                lemma_only_at_step(
                    before.vars(),
                    held.vars(),
                    vars.vars(),
                    places@,
                    i as int,
                    i + 1,
                );
                assert forall|s: Handler| #[trigger]
                    below(&before, &s) && increasing_at_fixpoint(
                        s.vars(),
                        places@,
                    ) implies outcome is Ok && narrowed(vars, &s) by {
                    assert(below(&held, &s));
                    assert(relation_at_fixpoint(
                        RelationKind::LessThan,
                        s.vars()[places@[i as int] as int],
                        s.vars()[places@[i + 1] as int],
                    ));
                }
            }
            match outcome {
                Err(e) => {
                    return Err(e);
                },
                Ok(()) => {},
            }
            proof {
                lemma_forward_step(held.vars(), vars.vars(), places@, i as int);
            }
            i = i + 1;
        }
        proof {
            lemma_ascend_start(vars.vars(), places@);
        }
        let mut j: usize = n - 1;
        while j > 0
            invariant
                before == *old(vars),
                before.wf(),
                vars.wf(),
                narrowed(&before, vars),
                n == places@.len(),
                n >= 2,
                j <= n - 1,
                forall|k: int| 0 <= k < places@.len() ==> (#[trigger] places@[k]) < before.vars().len(),
                all_distinct(places@),
                only_at(before.vars(), vars.vars(), places@),
                mins_ascend(vars.vars(), places@, n - 1),
                maxes_ascend(vars.vars(), places@, j as int),
                increasing_at_fixpoint(before.vars(), places@) ==> vars.vars() == before.vars(),
                forall|s: Handler| #[trigger]
                    below(&before, &s) && increasing_at_fixpoint(s.vars(), places@) ==> narrowed(
                        vars,
                        &s,
                    ),
            decreases j,
        {
            let ghost held = *vars;
            let lo: usize = places[j - 1];
            let hi: usize = places[j];
            proof {
                lemma_apart(places@, j - 1, j as int);
                lemma_min_at(held.vars(), places@, n - 1, j - 1);
                if increasing_at_fixpoint(before.vars(), places@) {
                    assert(relation_at_fixpoint(
                        RelationKind::LessThan,
                        before.vars()[places@[j - 1] as int],
                        before.vars()[places@[j - 1 + 1] as int],
                    ));
                }
            }
            let outcome = narrow_order(vars, lo, hi, true);
            proof {
                lemma_narrowed_twice(&before, &held, vars);
                lemma_only_at_step(
                    before.vars(),
                    held.vars(),
                    vars.vars(),
                    places@,
                    j - 1,
                    j as int,
                );
                assert forall|s: Handler| #[trigger]
                    below(&before, &s) && increasing_at_fixpoint(
                        s.vars(),
                        places@,
                    ) implies outcome is Ok && narrowed(vars, &s) by {
                    assert(below(&held, &s));
                    assert(relation_at_fixpoint(
                        RelationKind::LessThan,
                        s.vars()[places@[j - 1] as int],
                        s.vars()[places@[j - 1 + 1] as int],
                    ));
                }
            }
            match outcome {
                Err(e) => {
                    return Err(e);
                },
                Ok(()) => {},
            }
            proof {
                lemma_backward_step(held.vars(), vars.vars(), places@, j as int);
            }
            j = j - 1;
        }
        proof {
            lemma_ascend_end(vars.vars(), places@);
        }
        Ok(())
    }

    /// Whether each of the variables at `places` ends below the start of the
    /// next.
    fn check_entailed(&self, vars: &Handler, places: &Vec<usize>) -> (r: bool)
        requires
            vars.wf(),
            forall|i: int| 0 <= i < places@.len() ==> (#[trigger] places@[i]) < vars.vars().len(),
        ensures
            r == increasing_entailed(vars.vars(), places@),
    {
        let n: usize = places.len();
        if n < 2 {
            return true;
        }
        let mut i: usize = 0;
        while i < n - 1
            invariant
                n == places@.len(),
                n >= 2,
                i <= n - 1,
                forall|k: int| 0 <= k < places@.len() ==> (#[trigger] places@[k]) < vars.vars().len(),
                forall|p: int|
                    0 <= p < i ==> relation_entailed(
                        RelationKind::LessThan,
                        vars.vars()[#[trigger] places@[p] as int],
                        vars.vars()[places@[p + 1] as int],
                    ),
            decreases n - i,
        {
            if vars.variable(places[i]).max() >= vars.variable(places[i + 1]).min() {
                assert(!relation_entailed(
                    RelationKind::LessThan,
                    vars.vars()[places@[i as int] as int],
                    vars.vars()[places@[i + 1] as int],
                ));
                return false;
            }
            i = i + 1;
        }
        true
    }

    /// Narrows the variables that the handles of `array` lead to for a
    /// strictly ascending order, and reports what changed.
    #[verifier::rlimit(50)]
    pub fn propagate(&self, vars: &mut Handler, array: &ArrayOfRefs) -> (r: Result<
        PropagationState,
        VariableError,
    >)
        requires
            old(vars).wf(),
            resolves(array.variables@, old(vars)),
        ensures
            final(vars).wf(),
            narrowed(old(vars), final(vars)),
            forall|f: int|
                0 <= f < old(vars).vars().len() && !leads_to(array.variables@, old(vars), f)
                    ==> final(vars).vars()[f] == old(vars).vars()[f],
            r == Ok::<PropagationState, VariableError>(PropagationState::NoChange) <==> ordered(
                array.variables@,
                old(vars),
                false,
            ) && !ordered(array.variables@, old(vars), true),
            r is Ok ==> ordered(array.variables@, final(vars), false),
            forall|s: Handler| #[trigger]
                below(old(vars), &s) && ordered(array.variables@, &s, false) ==> r is Ok
                    && narrowed(final(vars), &s),
            r is Err <==> forall|s: Handler| #[trigger]
                below(old(vars), &s) ==> !ordered(array.variables@, &s, false),
            match r {
                Ok(PropagationState::NoChange) => final(vars).equal_domains(old(vars)),
                Ok(PropagationState::FixPoint(changes)) => crate::constraints::accurate(
                    changes@,
                    old(vars),
                    final(vars),
                ) && ordered(array.variables@, final(vars), false) && !ordered(
                    array.variables@,
                    final(vars),
                    true,
                ) && changes@.len() > 0,
                Ok(PropagationState::Subsumed(changes)) => crate::constraints::accurate(
                    changes@,
                    old(vars),
                    final(vars),
                ) && ordered(array.variables@, final(vars), true),
                Err(_) => true,
            },
    {
        let ghost before = *vars;
        let (places, snaps) = survey(vars, &array.variables);
        proof {
            lemma_ordered(array.variables@, places@, &before);
        }
        let outcome = self.narrow(vars, &places);
        proof {
            lemma_frames(array.variables@, places@, &before, vars, snaps@);
            assert forall|s: Handler| #[trigger]
                below(&before, &s) && ordered(
                    array.variables@,
                    &s,
                    false,
                ) implies outcome is Ok && narrowed(vars, &s) by {
                assert forall|i: int| 0 <= i < array.variables@.len() implies s.slot(
                    #[trigger] array.variables@[i],
                ) == Some(places@[i] as int) by {
                    assert(before.slot(array.variables@[i]) == Some(places@[i] as int));
                }
                lemma_ordered(array.variables@, places@, &s);
            }
        }
        match outcome {
            Err(e) => {
                return Err(e);
            },
            Ok(()) => {},
        }
        proof {
            lemma_ordered(array.variables@, places@, vars);
        }
        let changes = account(vars, &snaps, Ghost(before));
        proof {
            if vars.equal_domains(&before) {
                lemma_ordered_reads(array.variables@, &before, vars);
            }
        }
        assert(below(&before, vars) && ordered(array.variables@, vars, false));
        if self.check_entailed(vars, &places) {
            Ok(PropagationState::Subsumed(changes))
        } else if changes.len() == 0 {
            Ok(PropagationState::NoChange)
        } else {
            Ok(PropagationState::FixPoint(changes))
        }
    }
}

/// Whether the lower bounds ascend strictly between neighbours among the
/// first `upto + 1` of the variables at `places`.
#[verifier::opaque]
pub open spec fn mins_ascend(vars: Seq<IntVar>, places: Seq<usize>, upto: int) -> bool {
    forall|p: int|
        0 <= p < upto ==> vars[#[trigger] places[p] as int].spec_min() < vars[places[p
            + 1] as int].spec_min()
}

/// Whether the upper bounds ascend strictly between neighbours among the
/// variables at `places` from the position `from` on.
#[verifier::opaque]
pub open spec fn maxes_ascend(vars: Seq<IntVar>, places: Seq<usize>, from: int) -> bool {
    forall|p: int|
        from <= p < places.len() - 1 ==> vars[#[trigger] places[p] as int].spec_max() < vars[places[p
            + 1] as int].spec_max()
}

/// Before the first step nothing is claimed.
proof fn lemma_ascend_start(vars: Seq<IntVar>, places: Seq<usize>)
    ensures
        mins_ascend(vars, places, 0),
        maxes_ascend(vars, places, places.len() - 1),
{
    reveal(mins_ascend);
    reveal(maxes_ascend);
}

/// What the ascent of the lower bounds says of the pair at `p`.
proof fn lemma_min_at(vars: Seq<IntVar>, places: Seq<usize>, upto: int, p: int)
    requires
        mins_ascend(vars, places, upto),
        0 <= p < upto,
    ensures
        vars[places[p] as int].spec_min() < vars[places[p + 1] as int].spec_min(),
{
    reveal(mins_ascend);
}

/// After the last step every pair of neighbours is at its fixed point.
proof fn lemma_ascend_end(vars: Seq<IntVar>, places: Seq<usize>)
    requires
        mins_ascend(vars, places, places.len() - 1),
        maxes_ascend(vars, places, 0),
    ensures
        increasing_at_fixpoint(vars, places),
{
    reveal(mins_ascend);
    reveal(maxes_ascend);
}

/// A step of the sweep forth: the pair at `i` was narrowed, which left the
/// lower bound of its first variable as it was.
proof fn lemma_forward_step(held: Seq<IntVar>, now: Seq<IntVar>, places: Seq<usize>, i: int)
    requires
        all_distinct(places),
        0 <= i < places.len() - 1,
        held.len() == now.len(),
        forall|k: int| 0 <= k < places.len() ==> (#[trigger] places[k]) < held.len(),
        mins_ascend(held, places, i),
        forall|f: int|
            0 <= f < held.len() && f != places[i] && f != places[i + 1] ==> #[trigger] now[f]
                == held[f],
        now[places[i] as int].spec_min() == held[places[i] as int].spec_min(),
        now[places[i] as int].spec_min() < now[places[i + 1] as int].spec_min(),
    ensures
        mins_ascend(now, places, i + 1),
{
    reveal(mins_ascend);
    assert forall|p: int| 0 <= p < i + 1 implies now[#[trigger] places[p] as int].spec_min()
        < now[places[p + 1] as int].spec_min() by {
        if p < i {
            lemma_apart(places, p, i + 1);
            assert(held[places[p] as int].spec_min() < held[places[p + 1] as int].spec_min());
            lemma_apart(places, p, i);
            assert(now[places[p] as int] == held[places[p] as int]);
            if p + 1 < i {
                lemma_apart(places, p + 1, i);
                lemma_apart(places, p + 1, i + 1);
                assert(now[places[p + 1] as int] == held[places[p + 1] as int]);
            }
        }
    }
}

/// A step of the sweep back: the pair that ends at `j` was narrowed, which
/// left its second variable and the lower bound of its first as they were.
proof fn lemma_backward_step(held: Seq<IntVar>, now: Seq<IntVar>, places: Seq<usize>, j: int)
    requires
        all_distinct(places),
        0 < j <= places.len() - 1,
        held.len() == now.len(),
        forall|k: int| 0 <= k < places.len() ==> (#[trigger] places[k]) < held.len(),
        mins_ascend(held, places, places.len() - 1),
        maxes_ascend(held, places, j),
        forall|f: int|
            0 <= f < held.len() && f != places[j - 1] && f != places[j] ==> #[trigger] now[f]
                == held[f],
        now[places[j] as int] == held[places[j] as int],
        now[places[j - 1] as int].spec_min() == held[places[j - 1] as int].spec_min(),
        now[places[j - 1] as int].spec_max() < now[places[j] as int].spec_max(),
    ensures
        mins_ascend(now, places, places.len() - 1),
        maxes_ascend(now, places, j - 1),
{
    reveal(mins_ascend);
    reveal(maxes_ascend);
    assert forall|p: int| 0 <= p < places.len() - 1 implies now[#[trigger] places[p] as int].spec_min()
        < now[places[p + 1] as int].spec_min() by {
        assert(held[places[p] as int].spec_min() < held[places[p + 1] as int].spec_min());
        if p != j - 1 && p != j {
            lemma_apart(places, p, j - 1);
            lemma_apart(places, p, j);
            assert(now[places[p] as int] == held[places[p] as int]);
        }
        if p + 1 != j - 1 && p + 1 != j {
            lemma_apart(places, p + 1, j - 1);
            lemma_apart(places, p + 1, j);
            assert(now[places[p + 1] as int] == held[places[p + 1] as int]);
        }
    }
    assert forall|p: int| j - 1 <= p < places.len() - 1 implies now[#[trigger] places[p] as int].spec_max()
        < now[places[p + 1] as int].spec_max() by {
        if p >= j {
            assert(held[places[p] as int].spec_max() < held[places[p + 1] as int].spec_max());
            if p > j {
                lemma_apart(places, p, j - 1);
                lemma_apart(places, p, j);
                assert(now[places[p] as int] == held[places[p] as int]);
            }
            lemma_apart(places, p + 1, j - 1);
            lemma_apart(places, p + 1, j);
            assert(now[places[p + 1] as int] == held[places[p + 1] as int]);
        }
    }
}

/// What is left alone when only the places `places` change: the variables
/// that no handle of `views` leads to, and those of which no snapshot was
/// taken.
pub(crate) proof fn lemma_frames(
    views: Seq<ViewIndex>,
    places: Seq<usize>,
    before: &Handler,
    after: &Handler,
    snaps: Seq<crate::constraints::Snapshot>,
)
    requires
        places_match(places, views, before),
        only_at(before.vars(), after.vars(), places),
        before.vars().len() == after.vars().len(),
        snaps.len() == places.len(),
        forall|k: int| 0 <= k < snaps.len() ==> (#[trigger] snaps[k]).place == places[k],
    ensures
        forall|f: int|
            0 <= f < before.vars().len() && !leads_to(views, before, f) ==> after.vars()[f]
                == before.vars()[f],
        forall|f: int|
            0 <= f < before.vars().len() && (forall|k: int|
                0 <= k < snaps.len() ==> (#[trigger] snaps[k]).place != f) ==> after.vars()[f]
                == before.vars()[f],
{
    assert forall|f: int|
        0 <= f < before.vars().len() && !leads_to(views, before, f) implies after.vars()[f]
        == before.vars()[f] by {
        if crate::constraints::among(places, f) {
            let i = choose|i: int| 0 <= i < places.len() && #[trigger] places[i] == f;
            assert(before.slot(views[i]) == Some(places[i] as int));
        }
        crate::constraints::lemma_only_at_use(before.vars(), after.vars(), places, f);
    }
    assert forall|f: int|
        0 <= f < before.vars().len() && (forall|k: int|
            0 <= k < snaps.len() ==> (#[trigger] snaps[k]).place != f) implies after.vars()[f]
        == before.vars()[f] by {
        if crate::constraints::among(places, f) {
            let i = choose|i: int| 0 <= i < places.len() && #[trigger] places[i] == f;
            assert(snaps[i].place == f);
        }
        crate::constraints::lemma_only_at_use(before.vars(), after.vars(), places, f);
    }
}

/// Whether the variables that the handles `views` lead to in `vars` are at
/// the fixed point of the ascending order or, if `surely` is set, in
/// ascending order whatever values are picked.
pub open spec fn ordered(views: Seq<ViewIndex>, vars: &Handler, surely: bool) -> bool {
    forall|i: int|
        0 <= i < views.len() - 1 ==> if surely {
            relation_entailed(
                RelationKind::LessThan,
                vars.vars()[vars.slot(#[trigger] views[i])->0],
                vars.vars()[vars.slot(views[i + 1])->0],
            )
        } else {
            relation_at_fixpoint(
                RelationKind::LessThan,
                vars.vars()[vars.slot(#[trigger] views[i])->0],
                vars.vars()[vars.slot(views[i + 1])->0],
            )
        }
}

/// What is said of the handles is what is said of the places that they lead
/// to.
proof fn lemma_ordered(views: Seq<ViewIndex>, places: Seq<usize>, vars: &Handler)
    requires
        places.len() == views.len(),
        forall|i: int| 0 <= i < views.len() ==> vars.slot(#[trigger] views[i]) == Some(
            places[i] as int,
        ),
    ensures
        ordered(views, vars, false) == increasing_at_fixpoint(vars.vars(), places),
        ordered(views, vars, true) == increasing_entailed(vars.vars(), places),
{
    if ordered(views, vars, false) {
        assert forall|i: int| 0 <= i < places.len() - 1 implies relation_at_fixpoint(
            RelationKind::LessThan,
            vars.vars()[#[trigger] places[i] as int],
            vars.vars()[places[i + 1] as int],
        ) by {
            assert(vars.slot(views[i]) == Some(places[i] as int));
            assert(vars.slot(views[i + 1]) == Some(places[i + 1] as int));
        }
    }
    if increasing_at_fixpoint(vars.vars(), places) {
        assert forall|i: int| 0 <= i < views.len() - 1 implies relation_at_fixpoint(
            RelationKind::LessThan,
            vars.vars()[vars.slot(#[trigger] views[i])->0],
            vars.vars()[vars.slot(views[i + 1])->0],
        ) by {
            assert(vars.slot(views[i]) == Some(places[i] as int));
            assert(vars.slot(views[i + 1]) == Some(places[i + 1] as int));
            assert(relation_at_fixpoint(
                RelationKind::LessThan,
                vars.vars()[places[i] as int],
                vars.vars()[places[i + 1] as int],
            ));
        }
    }
    if ordered(views, vars, true) {
        assert forall|i: int| 0 <= i < places.len() - 1 implies relation_entailed(
            RelationKind::LessThan,
            vars.vars()[#[trigger] places[i] as int],
            vars.vars()[places[i + 1] as int],
        ) by {
            assert(vars.slot(views[i]) == Some(places[i] as int));
            assert(vars.slot(views[i + 1]) == Some(places[i + 1] as int));
        }
    }
    if increasing_entailed(vars.vars(), places) {
        assert forall|i: int| 0 <= i < views.len() - 1 implies relation_entailed(
            RelationKind::LessThan,
            vars.vars()[vars.slot(#[trigger] views[i])->0],
            vars.vars()[vars.slot(views[i + 1])->0],
        ) by {
            assert(vars.slot(views[i]) == Some(places[i] as int));
            assert(vars.slot(views[i + 1]) == Some(places[i + 1] as int));
            assert(relation_entailed(
                RelationKind::LessThan,
                vars.vars()[places[i] as int],
                vars.vars()[places[i + 1] as int],
            ));
        }
    }
}

/// Whether the variables are ordered is read off their bounds.
proof fn lemma_ordered_reads(views: Seq<ViewIndex>, a: &Handler, b: &Handler)
    requires
        a.same_layout(b),
        forall|i: int| 0 <= i < views.len() ==> a.slot(#[trigger] views[i]) is Some,
        forall|i: int|
            0 <= i < views.len() ==> agree(
                a.vars()[a.slot(#[trigger] views[i])->0],
                b.vars()[a.slot(views[i])->0],
                false,
            ),
    ensures
        ordered(views, a, false) == ordered(views, b, false),
        ordered(views, a, true) == ordered(views, b, true),
{
    assert forall|i: int| 0 <= i < views.len() implies a.slot(#[trigger] views[i]) == b.slot(
        views[i],
    ) by {}
    if ordered(views, a, false) {
        assert forall|i: int| 0 <= i < views.len() - 1 implies relation_at_fixpoint(
            RelationKind::LessThan,
            b.vars()[b.slot(#[trigger] views[i])->0],
            b.vars()[b.slot(views[i + 1])->0],
        ) by {
            assert(a.slot(views[i + 1]) == b.slot(views[i + 1]));
        }
    }
    if ordered(views, b, false) {
        assert forall|i: int| 0 <= i < views.len() - 1 implies relation_at_fixpoint(
            RelationKind::LessThan,
            a.vars()[a.slot(#[trigger] views[i])->0],
            a.vars()[a.slot(views[i + 1])->0],
        ) by {
            assert(a.slot(views[i + 1]) == b.slot(views[i + 1]));
            assert(relation_at_fixpoint(
                RelationKind::LessThan,
                b.vars()[b.slot(views[i])->0],
                b.vars()[b.slot(views[i + 1])->0],
            ));
        }
    }
    if ordered(views, a, true) {
        assert forall|i: int| 0 <= i < views.len() - 1 implies relation_entailed(
            RelationKind::LessThan,
            b.vars()[b.slot(#[trigger] views[i])->0],
            b.vars()[b.slot(views[i + 1])->0],
        ) by {
            assert(a.slot(views[i + 1]) == b.slot(views[i + 1]));
        }
    }
    if ordered(views, b, true) {
        assert forall|i: int| 0 <= i < views.len() - 1 implies relation_entailed(
            RelationKind::LessThan,
            a.vars()[a.slot(#[trigger] views[i])->0],
            a.vars()[a.slot(views[i + 1])->0],
        ) by {
            assert(a.slot(views[i + 1]) == b.slot(views[i + 1]));
            assert(relation_entailed(
                RelationKind::LessThan,
                b.vars()[b.slot(views[i])->0],
                b.vars()[b.slot(views[i + 1])->0],
            ));
        }
    }
}

/// The constraint that the variables of a list are in strictly ascending
/// order.
#[derive(Debug)]
pub struct Increasing {
    array: ArrayOfRefs,
    propagator: IncreasingPropagator,
}

impl Increasing {
    /// The handles of the variables, in the order that the values are to
    /// have.
    pub closed spec fn array(&self) -> Seq<ViewIndex> {
        self.array.variables@
    }

    /// The constraint that the variables that the handles `views` lead to
    /// are in strictly ascending order. Where one of the handles is a subview
    /// of another, there is none, and the first such pair comes back.
    pub fn new(views: Vec<ViewIndex>) -> (r: Result<Increasing, (ViewIndex, ViewIndex)>)
        ensures
            r is Ok <==> pairwise_disjoint(views@),
            r matches Ok(c) ==> c.array() == views@ && c.params_wf(),
    {
        match crate::variables::find_clash(&views) {
            Err(pair) => Err(pair),
            Ok(()) => Ok(
                Increasing {
                    array: ArrayOfRefs { variables: views },
                    propagator: IncreasingPropagator::new(),
                },
            ),
        }
    }
}

impl Clone for Increasing {
    /// A copy with the same handles in the same order.
    fn clone(&self) -> (r: Self)
        ensures
            r.array() == self.array(),
    {
        Increasing {
            array: ArrayOfRefs { variables: crate::constraints::copy_views(&self.array.variables) },
            propagator: IncreasingPropagator::new(),
        }
    }
}

impl Propagator for Increasing {
    open spec fn views(&self) -> Seq<ViewIndex> {
        self.array()
    }

    open spec fn params_wf(&self) -> bool {
        pairwise_disjoint(self.views())
    }

    open spec fn reads_values(&self) -> bool {
        false
    }

    open spec fn at_fixpoint(&self, vars: &Handler) -> bool {
        ordered(self.array(), vars, false)
    }

    open spec fn entailed(&self, vars: &Handler) -> bool {
        ordered(self.array(), vars, true)
    }

    proof fn lemma_reads(&self, a: &Handler, b: &Handler) {
        lemma_ordered_reads(self.array(), a, b);
    }

    proof fn lemma_entailed(&self, a: &Handler, b: &Handler) {
        let views = self.array();
        assert forall|i: int| 0 <= i < views.len() - 1 implies relation_entailed(
            RelationKind::LessThan,
            b.vars()[b.slot(#[trigger] views[i])->0],
            b.vars()[b.slot(views[i + 1])->0],
        ) && relation_at_fixpoint(
            RelationKind::LessThan,
            b.vars()[b.slot(views[i])->0],
            b.vars()[b.slot(views[i + 1])->0],
        ) by {
            assert(a.slot(views[i]) is Some && a.slot(views[i + 1]) is Some);
            crate::variables::handlers::default_handler::lemma_slot_fits(*a, views[i]);
            crate::variables::handlers::default_handler::lemma_slot_fits(*a, views[i + 1]);
            let f = a.slot(views[i])->0;
            let g = a.slot(views[i + 1])->0;
            assert(relation_entailed(RelationKind::LessThan, a.vars()[f], a.vars()[g]));
            crate::constraints::lemma_same_size_same_values(a.vars()[f], b.vars()[f]);
            crate::constraints::lemma_same_size_same_values(a.vars()[g], b.vars()[g]);
            crate::variables::int_var::lemma_bounds_are_values(b.vars()[f]);
            crate::variables::int_var::lemma_bounds_are_values(b.vars()[g]);
        }
    }

    fn is_entailed(&self, vars: &Handler) -> (r: bool) {
        let (places, _) = survey(vars, &self.array.variables);
        proof {
            lemma_ordered(self.array.variables@, places@, vars);
        }
        self.propagator.check_entailed(vars, &places)
    }

    fn observed(&self) -> (r: Vec<ViewIndex>) {
        crate::constraints::copy_views(&self.array.variables)
    }

    fn reads(&self) -> (r: bool) {
        false
    }

    fn check(&self, vars: &Handler) -> (r: bool) {
        crate::constraints::check_views(vars, &self.array.variables)
    }

    fn dependencies(&self, vars: &Handler) -> (r: Vec<(ViewIndex, VariableState)>) {
        crate::constraints::bound_dependencies(vars, &self.array.variables)
    }

    fn prepare(&mut self, changes: Vec<ViewIndex>) {
    }

    #[verifier::rlimit(50)]
    fn propagate(&self, vars: &mut Handler) -> (r: Result<PropagationState, VariableError>) {
        self.propagator.propagate(vars, &self.array)
    }
}

} // verus!
