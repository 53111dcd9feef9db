//! Constraints: what a propagator is, what it reports, and the catalog.

use vstd::prelude::*;

use crate::variables::handlers::default_handler::Handler;
use crate::variables::int_var::IntVar;
use crate::variables::{VariableError, VariableState, ViewIndex};

pub mod arithmetic;
pub mod increasing;
pub mod sum;

verus! {

/// What a propagator reports after a run that did not fail. A list of
/// changes names, for each variable that lost values, the bound that moved,
/// once for each bound, or a change of values where no bound moved.
#[derive(Debug, Clone, PartialEq, Eq)]
pub enum PropagationState {
    /// Domains were narrowed, in the ways listed, and the propagator is at
    /// its fixed point.
    FixPoint(Vec<(ViewIndex, VariableState)>),
    /// The constraint holds whatever values are picked from the domains, so
    /// the propagator need not run again; domains were narrowed in the ways
    /// listed.
    Subsumed(Vec<(ViewIndex, VariableState)>),
    /// Nothing was narrowed.
    NoChange,
}

/// Whether two variables have the same bounds and, if `values` is set, the
/// same values.
pub open spec fn agree(a: IntVar, b: IntVar, values: bool) -> bool {
    &&& a.spec_min() == b.spec_min()
    &&& a.spec_max() == b.spec_max()
    &&& values ==> a@ == b@
}

/// Whether `s` is a store at rest whose variables stand where those of
/// `old` stand and hold values of these only.
pub open spec fn below(old: &Handler, s: &Handler) -> bool {
    s.wf() && narrowed(old, s)
}

/// Whether no two of the handles `views` lead to the same variable and each
/// leads to a variable of `vars`.
pub open spec fn resolves(views: Seq<ViewIndex>, vars: &Handler) -> bool {
    &&& crate::variables::pairwise_disjoint(views)
    &&& forall|i: int| 0 <= i < views.len() ==> vars.slot(#[trigger] views[i]) is Some
}

/// Whether one of the handles `views` leads to the place `f` of `vars`.
pub open spec fn leads_to(views: Seq<ViewIndex>, vars: &Handler, f: int) -> bool {
    exists|i: int| 0 <= i < views.len() && vars.slot(#[trigger] views[i]) == Some(f)
}

/// A propagator: the part of a constraint that narrows the domains of the
/// variables that the constraint observes.
pub trait Propagator: Sized {
    /// The handles of the variables observed, no two to the same variable.
    spec fn views(&self) -> Seq<ViewIndex>;

    /// Whether the propagator was built as its kind requires.
    spec fn params_wf(&self) -> bool;

    /// Whether the propagator reads values between the bounds of its
    /// variables, and not their bounds only.
    spec fn reads_values(&self) -> bool;

    /// Whether a run would narrow nothing and would not fail.
    spec fn at_fixpoint(&self, vars: &Handler) -> bool;

    /// Whether the constraint holds whatever values are picked from the
    /// domains.
    spec fn entailed(&self, vars: &Handler) -> bool;

    /// What a propagator reads of a store are the bounds of its variables
    /// and, where it reads values, their values: on two stores that agree in
    /// those it is at its fixed point on both or on neither, and entailed on
    /// both or on neither.
    proof fn lemma_reads(&self, a: &Handler, b: &Handler)
        requires
            self.params_wf(),
            resolves(self.views(), a),
            a.wf(),
            b.wf(),
            a.same_layout(b),
            forall|i: int|
                0 <= i < self.views().len() ==> agree(
                    a.vars()[a.slot(#[trigger] self.views()[i])->0],
                    b.vars()[a.slot(self.views()[i])->0],
                    self.reads_values(),
                ),
        ensures
            self.at_fixpoint(a) == self.at_fixpoint(b),
            self.entailed(a) == self.entailed(b),
    ;

    /// A constraint that holds whatever values are picked from the domains
    /// holds whatever values are picked from parts of them, and its
    /// propagator is at its fixed point there.
    proof fn lemma_entailed(&self, a: &Handler, b: &Handler)
        requires
            self.params_wf(),
            resolves(self.views(), a),
            a.wf(),
            below(a, b),
            self.entailed(a),
        ensures
            self.entailed(b),
            self.at_fixpoint(b),
    ;

    /// Whether the constraint holds whatever values are picked from the
    /// domains.
    fn is_entailed(&self, vars: &Handler) -> (r: bool)
        requires
            vars.wf(),
            self.params_wf(),
            resolves(self.views(), vars),
        ensures
            r == self.entailed(vars),
    ;

    /// The handles of the variables observed.
    fn observed(&self) -> (r: Vec<ViewIndex>)
        ensures
            r@ == self.views(),
    ;

    /// Whether the propagator reads values between the bounds of its
    /// variables.
    fn reads(&self) -> (r: bool)
        ensures
            r == self.reads_values(),
    ;

    /// Whether the propagator was built as its kind requires and each of its
    /// handles leads to a variable of `vars`, no two to the same.
    fn check(&self, vars: &Handler) -> (r: bool)
        requires
            vars.layout_wf(),
        ensures
            r == (self.params_wf() && resolves(self.views(), vars)),
    ;

    /// The changes that wake the propagator: of each variable observed a
    /// move of either bound and, where values are read, a change of values.
    fn dependencies(&self, vars: &Handler) -> (r: Vec<(ViewIndex, VariableState)>)
        requires
            vars.layout_wf(),
            self.params_wf(),
            resolves(self.views(), vars),
        ensures
            forall|k: int|
                0 <= k < r@.len() ==> leads_to(self.views(), vars, vars.slot((#[trigger] r@[k]).0)->0)
                    && vars.slot(r@[k].0) is Some,
            forall|i: int|
                0 <= i < self.views().len() ==> lists(
                    r@,
                    vars,
                    vars.slot(#[trigger] self.views()[i])->0,
                    VariableState::MinBoundChange,
                ) && lists(r@, vars, vars.slot(self.views()[i])->0, VariableState::MaxBoundChange) && (
                self.reads_values() ==> lists(
                    r@,
                    vars,
                    vars.slot(self.views()[i])->0,
                    VariableState::ValuesChange,
                )),
    ;

    /// Tells the propagator which of its variables changed since its last
    /// run; none on the first run.
    fn prepare(&mut self, changes: Vec<ViewIndex>)
        ensures
            *final(self) == *old(self),
    ;

    /// Narrows the domains of the observed variables to the fixed point of
    /// the propagator: to the largest domains within those given on which
    /// the propagator is at its fixed point. This fails exactly when there
    /// are no such domains.
    fn propagate(&self, vars: &mut Handler) -> (r: Result<PropagationState, VariableError>)
        requires
            old(vars).wf(),
            self.params_wf(),
            resolves(self.views(), old(vars)),
        ensures
            final(vars).wf(),
            narrowed(old(vars), final(vars)),
            r is Ok ==> self.at_fixpoint(final(vars)),
            forall|s: Handler| #[trigger]
                below(old(vars), &s) && self.at_fixpoint(&s) ==> narrowed(final(vars), &s),
            r is Err <==> forall|s: Handler| #[trigger] below(old(vars), &s) ==> !self.at_fixpoint(&s),
            forall|f: int|
                0 <= f < old(vars).vars().len() && !leads_to(self.views(), old(vars), f)
                    ==> final(vars).vars()[f] == old(vars).vars()[f],
            r == Ok::<PropagationState, VariableError>(PropagationState::NoChange)
                <==> self.at_fixpoint(old(vars)) && !self.entailed(old(vars)),
            match r {
                Ok(PropagationState::NoChange) => final(vars).equal_domains(old(vars)),
                Ok(PropagationState::FixPoint(changes)) => accurate(
                    changes@,
                    old(vars),
                    final(vars),
                ) && self.at_fixpoint(final(vars)) && !self.entailed(final(vars)) && changes@.len()
                    > 0,
                Ok(PropagationState::Subsumed(changes)) => accurate(
                    changes@,
                    old(vars),
                    final(vars),
                ) && self.entailed(final(vars)),
                Err(_) => true,
            },
    ;
}

/// Whether `p` was built as its kind requires and each of its handles leads
/// to a variable of `vars`.
pub open spec fn fits<P: Propagator>(p: &P, vars: &Handler) -> bool {
    p.params_wf() && resolves(p.views(), vars)
}

/// Whether `p` observes the variable at the place `f` of `vars`.
pub open spec fn observes<P: Propagator>(p: &P, vars: &Handler, f: int) -> bool {
    leads_to(p.views(), vars, f)
}

/// Whether `p` is at rest on `vars`: a run would narrow nothing, would not
/// fail and would not find the constraint entailed, so that it reports no
/// change.
pub open spec fn quiet<P: Propagator>(p: &P, vars: &Handler) -> bool {
    p.at_fixpoint(vars) && !p.entailed(vars)
}

/// Whether every variable of `after` stands where it stood in `before` and
/// has lost values at most.
pub open spec fn narrowed(before: &Handler, after: &Handler) -> bool {
    &&& after.same_layout(before)
    &&& forall|f: int, v: int|
        0 <= f < before.vars().len() && #[trigger] after.vars()[f]@.contains(v)
            ==> before.vars()[f]@.contains(v)
}

/// A store narrowed from one that was narrowed from a first is narrowed from
/// the first.
pub proof fn lemma_narrowed_twice(a: &Handler, b: &Handler, c: &Handler)
    requires
        narrowed(a, b),
        narrowed(b, c),
    ensures
        narrowed(a, c),
{
    assert forall|f: int, v: int|
        0 <= f < a.vars().len() && #[trigger] c.vars()[f]@.contains(v) implies a.vars()[f]@.contains(
        v,
    ) by {
        assert(b.vars()[f]@.contains(v));
    }
}

/// Whether `class` tells of a change that took `before` to `after`: of a
/// moved bound, or of a change of values between bounds that stayed.
pub open spec fn tells(class: VariableState, before: IntVar, after: IntVar) -> bool {
    match class {
        VariableState::MinBoundChange => after.spec_min() > before.spec_min(),
        VariableState::MaxBoundChange => after.spec_max() < before.spec_max(),
        VariableState::ValuesChange => after.spec_min() == before.spec_min() && after.spec_max()
            == before.spec_max() && after@ != before@,
        _ => false,
    }
}

/// Whether `changes` holds the entry for the variable at the place `f` and
/// the class `class`.
pub open spec fn lists(
    changes: Seq<(ViewIndex, VariableState)>,
    vars: &Handler,
    f: int,
    class: VariableState,
) -> bool {
    exists|k: int|
        0 <= k < changes.len() && vars.slot((#[trigger] changes[k]).0) == Some(f) && changes[k].1
            == class
}

/// Whether `changes` is a true and full account of what took `before` to
/// `after`: each entry tells of a change that happened, and each moved bound
/// and each change of values between bounds that stayed has its entry.
pub open spec fn accurate(
    changes: Seq<(ViewIndex, VariableState)>,
    before: &Handler,
    after: &Handler,
) -> bool {
    &&& forall|k: int|
        0 <= k < changes.len() ==> before.slot((#[trigger] changes[k]).0) is Some && tells(
            changes[k].1,
            before.vars()[before.slot(changes[k].0)->0],
            after.vars()[before.slot(changes[k].0)->0],
        )
    &&& forall|f: int, class: VariableState|
        0 <= f < before.vars().len() && #[trigger] tells(class, before.vars()[f], after.vars()[f])
            ==> lists(changes, before, f, class)
}

/// The bounds and the size of a variable, kept from before a run to tell
/// afterwards what the run changed.
pub struct Snapshot {
    pub place: usize,
    pub view: ViewIndex,
    pub min: i32,
    pub max: i32,
    pub size: u64,
}

impl Snapshot {
    /// Whether the snapshot was taken of the variable of `vars` that its
    /// handle leads to.
    pub open spec fn taken_of(&self, vars: &Handler) -> bool {
        &&& vars.slot(self.view) == Some(self.place as int)
        &&& self.place < vars.vars().len()
        &&& self.min == vars.vars()[self.place as int].spec_min()
        &&& self.max == vars.vars()[self.place as int].spec_max()
        &&& self.size == vars.vars()[self.place as int]@.len()
    }

    /// Takes the snapshot of the variable that `view` leads to.
    pub fn take(vars: &Handler, view: &ViewIndex) -> (r: Snapshot)
        requires
            vars.wf(),
            vars.slot(*view) is Some,
        ensures
            r.taken_of(vars),
            r.view == *view,
    {
        let place = vars.variable_id(view).unwrap();
        let var = vars.variable(place);
        Snapshot { place, view: *view, min: var.min(), max: var.max(), size: var.size() }
    }
}

/// A variable at rest that holds values of another one only, and as many,
/// holds the same values.
pub proof fn lemma_same_size_same_values(before: IntVar, after: IntVar)
    requires
        before.wf(),
        after.wf(),
        forall|v: int| after@.contains(v) ==> before@.contains(v),
    ensures
        after@.len() <= before@.len(),
        after@.len() == before@.len() <==> after@ == before@,
        after@ == before@ ==> after.intervals() == before.intervals() && after.spec_min()
            == before.spec_min() && after.spec_max() == before.spec_max(),
        before.spec_min() <= after.spec_min(),
        after.spec_max() <= before.spec_max(),
{
    crate::variables::int_var::lemma_bounds_are_values(before);
    crate::variables::int_var::lemma_bounds_are_values(after);
    assert(after@.subset_of(before@));
    vstd::set_lib::lemma_len_subset(after@, before@);
    if after@.len() == before@.len() {
        vstd::set_lib::lemma_subset_equality(after@, before@);
    }
    if after@ == before@ {
        crate::variables::int_var::lemma_same_values_same_domain(after, before);
    }
}

/// Appends to `changes` what the run changed of the variable of `snap`.
fn record(
    vars: &Handler,
    snap: &Snapshot,
    changes: &mut Vec<(ViewIndex, VariableState)>,
    Ghost(before): Ghost<Handler>,
)
    requires
        vars.wf(),
        before.wf(),
        narrowed(&before, vars),
        snap.taken_of(&before),
    ensures
        final(changes)@.len() >= old(changes)@.len(),
        final(changes)@.take(old(changes)@.len() as int) == old(changes)@,
        forall|k: int|
            old(changes)@.len() <= k < final(changes)@.len() ==> (#[trigger] final(changes)@[k]).0
                == snap.view && tells(
                final(changes)@[k].1,
                before.vars()[snap.place as int],
                vars.vars()[snap.place as int],
            ),
        forall|class: VariableState| #[trigger]
            tells(class, before.vars()[snap.place as int], vars.vars()[snap.place as int])
                ==> exists|k: int|
                old(changes)@.len() <= k < final(changes)@.len() && #[trigger] final(changes)@[k]
                    == (snap.view, class),
        final(changes)@.len() == old(changes)@.len() ==> vars.vars()[snap.place as int].intervals()
            == before.vars()[snap.place as int].intervals() && vars.vars()[snap.place as int].spec_min()
            == before.vars()[snap.place as int].spec_min()
            && vars.vars()[snap.place as int].spec_max()
            == before.vars()[snap.place as int].spec_max(),
{
    let ghost start = changes@;
    let var = vars.variable(snap.place);
    proof {
        lemma_same_size_same_values(before.vars()[snap.place as int], *var);
    }
    let min_moved = var.min() > snap.min;
    let max_moved = var.max() < snap.max;
    if min_moved {
        changes.push((snap.view, VariableState::MinBoundChange));
    }
    let ghost middle = changes@;
    if max_moved {
        changes.push((snap.view, VariableState::MaxBoundChange));
    }
    if !min_moved && !max_moved && var.size() != snap.size {
        changes.push((snap.view, VariableState::ValuesChange));
    }
    proof {
        let end = changes@;
        assert(end.take(start.len() as int) =~= start);
        assert forall|class: VariableState| #[trigger]
            tells(class, before.vars()[snap.place as int], vars.vars()[snap.place as int])
            implies exists|k: int|
            start.len() <= k < end.len() && #[trigger] end[k] == (snap.view, class) by {
            match class {
                VariableState::MinBoundChange => {
                    assert(end[start.len() as int] == (snap.view, class));
                },
                VariableState::MaxBoundChange => {
                    assert(end[middle.len() as int] == (snap.view, class));
                },
                VariableState::ValuesChange => {
                    assert(end[start.len() as int] == (snap.view, class));
                },
                _ => {},
            }
        }
    }
}

/// The account of what a run changed, from the snapshots taken before it of
/// every variable that it may have changed.
#[verifier::rlimit(50)]
pub(crate) fn account(vars: &Handler, snaps: &Vec<Snapshot>, Ghost(before): Ghost<Handler>) -> (changes: Vec<
    (ViewIndex, VariableState),
>)
    requires
        vars.wf(),
        before.wf(),
        narrowed(&before, vars),
        forall|k: int| 0 <= k < snaps@.len() ==> (#[trigger] snaps@[k]).taken_of(&before),
        forall|f: int|
            0 <= f < before.vars().len() && (forall|k: int|
                0 <= k < snaps@.len() ==> (#[trigger] snaps@[k]).place != f) ==> vars.vars()[f]
                == before.vars()[f],
    ensures
        accurate(changes@, &before, vars),
        changes@.len() == 0 <==> vars.equal_domains(&before),
{
    let mut changes: Vec<(ViewIndex, VariableState)> = Vec::new();
    let mut n: usize = 0;
    while n < snaps.len()
        invariant
            vars.wf(),
            before.wf(),
            narrowed(&before, vars),
            n <= snaps@.len(),
            forall|k: int| 0 <= k < snaps@.len() ==> (#[trigger] snaps@[k]).taken_of(&before),
            forall|k: int|
                0 <= k < changes@.len() ==> before.slot((#[trigger] changes@[k]).0) is Some
                    && tells(
                    changes@[k].1,
                    before.vars()[before.slot(changes@[k].0)->0],
                    vars.vars()[before.slot(changes@[k].0)->0],
                ),
            forall|m: int, class: VariableState|
                0 <= m < n && #[trigger] tells(
                    class,
                    before.vars()[snaps@[m].place as int],
                    vars.vars()[snaps@[m].place as int],
                ) ==> lists(changes@, &before, snaps@[m].place as int, class),
            changes@.len() == 0 ==> forall|m: int|
                0 <= m < n ==> vars.vars()[(#[trigger] snaps@[m]).place as int].intervals()
                    == before.vars()[snaps@[m].place as int].intervals()
                    && vars.vars()[snaps@[m].place as int].spec_min()
                    == before.vars()[snaps@[m].place as int].spec_min()
                    && vars.vars()[snaps@[m].place as int].spec_max()
                    == before.vars()[snaps@[m].place as int].spec_max(),
        decreases snaps@.len() - n,
    {
        let ghost held = changes@;
        let snap = &snaps[n];
        record(vars, snap, &mut changes, Ghost(before));
        proof {
            let now = changes@;
            assert forall|k: int| 0 <= k < now.len() implies before.slot((#[trigger] now[k]).0) is Some
                && tells(
                now[k].1,
                before.vars()[before.slot(now[k].0)->0],
                vars.vars()[before.slot(now[k].0)->0],
            ) by {
                if k < held.len() {
                    assert(now.take(held.len() as int)[k] == now[k]);
                }
            }
            assert forall|m: int, class: VariableState|
                0 <= m < n + 1 && #[trigger] tells(
                    class,
                    before.vars()[snaps@[m].place as int],
                    vars.vars()[snaps@[m].place as int],
                ) implies lists(now, &before, snaps@[m].place as int, class) by {
                if m < n {
                    assert(lists(held, &before, snaps@[m].place as int, class));
                    let k = choose|k: int|
                        0 <= k < held.len() && before.slot((#[trigger] held[k]).0) == Some(
                            snaps@[m].place as int,
                        ) && held[k].1 == class;
                    assert(now.take(held.len() as int)[k] == now[k]);
                } else {
                    let k = choose|k: int|
                        held.len() <= k < now.len() && #[trigger] now[k] == (snap.view, class);
                    assert(before.slot(now[k].0) == Some(snap.place as int));
                }
            }
        }
        n = n + 1;
    }
    proof {
        assert forall|f: int, class: VariableState|
            0 <= f < before.vars().len() && #[trigger] tells(
                class,
                before.vars()[f],
                vars.vars()[f],
            ) implies lists(changes@, &before, f, class) by {
            if forall|k: int| 0 <= k < snaps@.len() ==> (#[trigger] snaps@[k]).place != f {
                assert(vars.vars()[f] == before.vars()[f]);
            } else {
                let m = choose|m: int| 0 <= m < snaps@.len() && (#[trigger] snaps@[m]).place == f;
                assert(tells(
                    class,
                    before.vars()[snaps@[m].place as int],
                    vars.vars()[snaps@[m].place as int],
                ));
            }
        }
        if changes@.len() == 0 {
            assert forall|f: int| 0 <= f < vars.vars().len() implies (#[trigger] vars.vars()[f]).intervals()
                == before.vars()[f].intervals() && vars.vars()[f].spec_min()
                == before.vars()[f].spec_min() && vars.vars()[f].spec_max()
                == before.vars()[f].spec_max() by {
                if forall|k: int| 0 <= k < snaps@.len() ==> (#[trigger] snaps@[k]).place != f {
                    assert(vars.vars()[f] == before.vars()[f]);
                } else {
                    let m = choose|m: int|
                        0 <= m < snaps@.len() && (#[trigger] snaps@[m]).place == f;
                }
            }
        }
        if vars.equal_domains(&before) && changes@.len() > 0 {
            let f = before.slot(changes@[0].0)->0;
            assert(tells(changes@[0].1, before.vars()[f], vars.vars()[f]));
            assert(vars.vars()[f].intervals() == before.vars()[f].intervals());
        }
    }
    changes
}

/// Whether no place occurs twice in `places`.
#[verifier::opaque]
pub open spec fn all_distinct(places: Seq<usize>) -> bool {
    forall|i: int, j: int|
        0 <= i < j < places.len() ==> #[trigger] places[i] != #[trigger] places[j]
}

/// Two entries of a list without repeats that stand at different positions
/// differ.
pub proof fn lemma_apart(places: Seq<usize>, a: int, b: int)
    requires
        all_distinct(places),
        0 <= a < places.len(),
        0 <= b < places.len(),
        a != b,
    ensures
        places[a] != places[b],
{
    reveal(all_distinct);
    if a < b {
        assert(places[a] != places[b]);
    } else {
        assert(places[b] != places[a]);
    }
}

/// Whether `places` holds, in order, the places that the handles `views`
/// lead to in `vars`.
pub open spec fn places_match(places: Seq<usize>, views: Seq<ViewIndex>, vars: &Handler) -> bool {
    &&& places.len() == views.len()
    &&& forall|i: int|
        0 <= i < views.len() ==> vars.slot(#[trigger] views[i]) == Some(places[i] as int)
    &&& forall|i: int| 0 <= i < places.len() ==> (#[trigger] places[i]) < vars.vars().len()
    &&& all_distinct(places)
}

/// Whether `f` is one of the places `places`.
pub open spec fn among(places: Seq<usize>, f: int) -> bool {
    exists|i: int| 0 <= i < places.len() && #[trigger] places[i] == f
}

/// Whether `after` differs from `before` at the places `places` only.
#[verifier::opaque]
pub open spec fn only_at(before: Seq<IntVar>, after: Seq<IntVar>, places: Seq<usize>) -> bool {
    forall|f: int| 0 <= f < before.len() && !among(places, f) ==> #[trigger] after[f] == before[f]
}

/// A row differs from itself nowhere.
pub proof fn lemma_only_at_start(before: Seq<IntVar>, places: Seq<usize>)
    ensures
        only_at(before, before, places),
{
    reveal(only_at);
}

/// What `only_at` says of one place.
pub proof fn lemma_only_at_use(before: Seq<IntVar>, after: Seq<IntVar>, places: Seq<usize>, f: int)
    requires
        only_at(before, after, places),
        0 <= f < before.len(),
        !among(places, f),
    ensures
        after[f] == before[f],
{
    reveal(only_at);
}

/// A change at two of the places `places`, made to a row that differed from
/// a first at those places only, leaves a row that differs from the first at
/// those places only.
pub proof fn lemma_only_at_step(
    before: Seq<IntVar>,
    held: Seq<IntVar>,
    after: Seq<IntVar>,
    places: Seq<usize>,
    a: int,
    b: int,
)
    requires
        only_at(before, held, places),
        0 <= a < places.len(),
        0 <= b < places.len(),
        before.len() == held.len(),
        forall|f: int|
            0 <= f < held.len() && f != places[a] && f != places[b] ==> #[trigger] after[f]
                == held[f],
    ensures
        only_at(before, after, places),
{
    reveal(only_at);
    assert forall|f: int| 0 <= f < before.len() && !among(places, f) implies #[trigger] after[f]
        == before[f] by {
        assert(places[a] != f);
        assert(places[b] != f);
        assert(held[f] == before[f]);
    }
}

/// The places that the handles `views` lead to, and the snapshots of the
/// variables there.
pub(crate) fn survey(vars: &Handler, views: &Vec<ViewIndex>) -> (r: (Vec<usize>, Vec<Snapshot>))
    requires
        vars.wf(),
        resolves(views@, vars),
    ensures
        places_match(r.0@, views@, vars),
        r.1@.len() == views@.len(),
        forall|k: int|
            0 <= k < r.1@.len() ==> (#[trigger] r.1@[k]).taken_of(vars) && r.1@[k].place
                == r.0@[k],
{
    let mut places: Vec<usize> = Vec::new();
    let mut snaps: Vec<Snapshot> = Vec::new();
    let mut k: usize = 0;
    while k < views.len()
        invariant
            vars.wf(),
            resolves(views@, vars),
            k <= views@.len(),
            places@.len() == k,
            snaps@.len() == k,
            forall|i: int|
                0 <= i < k ==> vars.slot(#[trigger] views@[i]) == Some(places@[i] as int),
            forall|i: int| 0 <= i < k ==> (#[trigger] places@[i]) < vars.vars().len(),
            forall|i: int|
                0 <= i < k ==> (#[trigger] snaps@[i]).taken_of(vars) && snaps@[i].place
                    == places@[i],
        decreases views@.len() - k,
    {
        let snap = Snapshot::take(vars, &views[k]);
        places.push(snap.place);
        snaps.push(snap);
        k = k + 1;
    }
    proof {
        reveal(all_distinct);
        assert forall|i: int, j: int| 0 <= i < j < places@.len() implies #[trigger] places@[i]
            != #[trigger] places@[j] by {
            crate::variables::handlers::default_handler::lemma_disjoint_views_differ(
                *vars,
                views@[i],
                views@[j],
            );
        }
    }
    (places, snaps)
}

/// Whether `list` holds the entry of the handle `view` and the class `class`.
pub open spec fn names(
    list: Seq<(ViewIndex, VariableState)>,
    view: ViewIndex,
    class: VariableState,
) -> bool {
    exists|k: int| 0 <= k < list.len() && #[trigger] list[k] == (view, class)
}

/// The dependencies of a propagator that reads the bounds of the variables
/// that the handles `views` lead to: for each, a move of either bound.
pub(crate) fn bound_dependencies(vars: &Handler, views: &Vec<ViewIndex>) -> (r: Vec<
    (ViewIndex, VariableState),
>)
    requires
        vars.layout_wf(),
        resolves(views@, vars),
    ensures
        forall|k: int|
            0 <= k < r@.len() ==> leads_to(views@, vars, vars.slot((#[trigger] r@[k]).0)->0)
                && vars.slot(r@[k].0) is Some,
        forall|i: int|
            0 <= i < views@.len() ==> lists(
                r@,
                vars,
                vars.slot(#[trigger] views@[i])->0,
                VariableState::MinBoundChange,
            ) && lists(r@, vars, vars.slot(views@[i])->0, VariableState::MaxBoundChange),
{
    let mut r: Vec<(ViewIndex, VariableState)> = Vec::new();
    let mut k: usize = 0;
    while k < views.len()
        invariant
            resolves(views@, vars),
            k <= views@.len(),
            forall|j: int| 0 <= j < r@.len() ==> views@.contains((#[trigger] r@[j]).0),
            forall|i: int|
                0 <= i < k ==> names(r@, #[trigger] views@[i], VariableState::MinBoundChange)
                    && names(r@, views@[i], VariableState::MaxBoundChange),
        decreases views@.len() - k,
    {
        let ghost held = r@;
        r.push((views[k], VariableState::MinBoundChange));
        r.push((views[k], VariableState::MaxBoundChange));
        proof {
            let n = held.len() as int;
            assert(r@[n] == (views@[k as int], VariableState::MinBoundChange));
            assert(r@[n + 1] == (views@[k as int], VariableState::MaxBoundChange));
            assert forall|j: int| 0 <= j < r@.len() implies views@.contains((#[trigger] r@[j]).0) by {
                if j < n {
                    assert(r@[j] == held[j]);
                } else {
                    assert(views@[k as int] == r@[j].0);
                }
            }
            assert forall|i: int| 0 <= i < k + 1 implies names(
                r@,
                #[trigger] views@[i],
                VariableState::MinBoundChange,
            ) && names(r@, views@[i], VariableState::MaxBoundChange) by {
                if i < k {
                    let a = choose|a: int|
                        0 <= a < held.len() && #[trigger] held[a] == (
                            views@[i],
                            VariableState::MinBoundChange,
                        );
                    assert(r@[a] == held[a]);
                    let b = choose|b: int|
                        0 <= b < held.len() && #[trigger] held[b] == (
                            views@[i],
                            VariableState::MaxBoundChange,
                        );
                    assert(r@[b] == held[b]);
                }
            }
        }
        k = k + 1;
    }
    proof {
        assert forall|j: int| 0 <= j < r@.len() implies leads_to(
            views@,
            vars,
            vars.slot((#[trigger] r@[j]).0)->0,
        ) && vars.slot(r@[j].0) is Some by {
            let i = choose|i: int| 0 <= i < views@.len() && views@[i] == r@[j].0;
            assert(vars.slot(views@[i]) is Some);
        }
        assert forall|i: int| 0 <= i < views@.len() implies lists(
            r@,
            vars,
            vars.slot(#[trigger] views@[i])->0,
            VariableState::MinBoundChange,
        ) && lists(r@, vars, vars.slot(views@[i])->0, VariableState::MaxBoundChange) by {
            let a = choose|a: int|
                0 <= a < r@.len() && #[trigger] r@[a] == (views@[i], VariableState::MinBoundChange);
            assert(vars.slot(r@[a].0) == Some(vars.slot(views@[i])->0));
            let b = choose|b: int|
                0 <= b < r@.len() && #[trigger] r@[b] == (views@[i], VariableState::MaxBoundChange);
            assert(vars.slot(r@[b].0) == Some(vars.slot(views@[i])->0));
        }
    }
    r
}

/// Whether no two of the handles `views` lead to the same variable and each
/// leads to a variable of `vars`.
pub(crate) fn check_views(vars: &Handler, views: &Vec<ViewIndex>) -> (r: bool)
    requires
        vars.layout_wf(),
    ensures
        r == resolves(views@, vars),
{
    if crate::variables::find_clash(views).is_err() {
        return false;
    }
    let mut k: usize = 0;
    while k < views.len()
        invariant
            vars.layout_wf(),
            k <= views@.len(),
            forall|i: int| 0 <= i < k ==> vars.slot(#[trigger] views@[i]) is Some,
        decreases views@.len() - k,
    {
        if vars.variable_id(&views[k]).is_none() {
            return false;
        }
        k = k + 1;
    }
    true
}

/// Keeps of the variable at the place `f` the values from `low` to `high`,
/// and tells whether a value was lost. This fails exactly when none of its
/// values lies there.
pub(crate) fn confine(vars: &mut Handler, f: usize, low: i32, high: i32) -> (r: Result<
    bool,
    VariableError,
>)
    requires
        old(vars).wf(),
        f < old(vars).vars().len(),
    ensures
        final(vars).wf(),
        narrowed(old(vars), final(vars)),
        forall|g: int|
            0 <= g < old(vars).vars().len() && g != f ==> final(vars).vars()[g] == old(vars).vars()[g],
        r is Ok ==> forall|v: int|
            final(vars).vars()[f as int]@.contains(v) <==> old(vars).vars()[f as int]@.contains(v)
                && low <= v <= high,
        r is Ok ==> low <= final(vars).vars()[f as int].spec_min() && final(vars).vars()[f as int].spec_max() <= high,
        r == Ok::<bool, VariableError>(false) <==> low <= old(vars).vars()[f as int].spec_min()
            && old(vars).vars()[f as int].spec_max() <= high,
        r == Ok::<bool, VariableError>(false) ==> final(vars).vars() == old(vars).vars(),
        r == Ok::<bool, VariableError>(true) ==> final(vars).measure() < old(vars).measure(),
        r is Err <==> forall|v: int|
            old(vars).vars()[f as int]@.contains(v) ==> !(low <= v <= high),
        forall|s: Handler| #[trigger]
            below(old(vars), &s) && (forall|v: int|
                s.vars()[f as int]@.contains(v) ==> low <= v <= high) ==> r is Ok && narrowed(
                final(vars),
                &s,
            ),
{
    let ghost before = *vars;
    proof {
        crate::variables::int_var::lemma_bounds_are_values(before.vars()[f as int]);
        assert forall|s: Handler| #[trigger]
            below(&before, &s) && (forall|v: int|
                s.vars()[f as int]@.contains(v) ==> low <= v <= high) implies exists|v: int|
            before.vars()[f as int]@.contains(v) && low <= v <= high by {
            let a = s.vars()[f as int];
            crate::variables::int_var::lemma_bounds_are_values(a);
            assert(a@.contains(a.spec_min()));
            assert(before.vars()[f as int]@.contains(a.spec_min()));
        }
    }
    let s1 = vars.variable_mut(f).update_weak_binf(low)?;
    let ghost middle = *vars;
    proof {
        crate::variables::int_var::lemma_bounds_are_values(middle.vars()[f as int]);
    }
    let s2 = vars.variable_mut(f).update_weak_bsup(high)?;
    let changed = s1 != VariableState::NoChange || s2 != VariableState::NoChange;
    proof {
        crate::variables::int_var::lemma_bounds_are_values(vars.vars()[f as int]);
        if changed {
            let x = before.vars()[f as int];
            let y = vars.vars()[f as int];
            assert(x@.contains(x.spec_min()) && x@.contains(x.spec_max()));
            assert(y@ != x@);
            crate::variables::handlers::default_handler::lemma_narrowing_measure(
                before,
                *vars,
                f as int,
            );
        } else {
            assert(middle.vars() =~= before.vars());
            assert(vars.vars() =~= before.vars());
        }
        assert forall|s: Handler| #[trigger]
            below(&before, &s) && (forall|v: int|
                s.vars()[f as int]@.contains(v) ==> low <= v <= high) implies narrowed(vars, &s) by {
            assert forall|g: int, v: int|
                0 <= g < vars.vars().len() && #[trigger] s.vars()[g]@.contains(v) implies vars.vars()[g]@.contains(
                v,
            ) by {
                assert(before.vars()[g]@.contains(v));
                if g != f {
                    assert(vars.vars()[g] == before.vars()[g]);
                }
            }
        }
        let w = vars.vars()[f as int].spec_min();
        assert(before.vars()[f as int]@.contains(w) && low <= w <= high);
    }
    Ok(changed)
}

/// A copy of a list of handles.
pub(crate) fn copy_views(views: &Vec<ViewIndex>) -> (r: Vec<ViewIndex>)
    ensures
        r@ == views@,
{
    let mut r: Vec<ViewIndex> = Vec::new();
    let mut k: usize = 0;
    while k < views.len()
        invariant
            k <= views@.len(),
            r@ == views@.take(k as int),
        decreases views@.len() - k,
    {
        r.push(views[k]);
        assert(views@.take(k + 1) =~= views@.take(k as int).push(views@[k as int]));
        k = k + 1;
    }
    assert(views@.take(k as int) =~= views@);
    r
}

/// A constraint of the catalog.
#[derive(Debug)]
pub enum Constraint {
    /// An order or an equality between two variables.
    Relation(arithmetic::binary_ops::BinaryRelation),
    /// A variable that is another one plus a constant.
    AddConstant(arithmetic::binary_ops::AddConstant),
    /// A list of variables in strictly ascending order.
    Increasing(increasing::Increasing),
    /// A variable that is a weighted sum of others.
    Sum(sum::Sum),
}

/// Whether two constraints are of the same kind and have the same handles
/// and parameters.
pub open spec fn alike(a: &Constraint, b: &Constraint) -> bool {
    match (a, b) {
        (Constraint::Relation(x), Constraint::Relation(y)) => x.x() == y.x() && x.y() == y.y()
            && x.kind() == y.kind(),
        (Constraint::AddConstant(x), Constraint::AddConstant(y)) => x.res() == y.res() && x.var()
            == y.var() && x.coef() == y.coef(),
        (Constraint::Increasing(x), Constraint::Increasing(y)) => x.array() == y.array(),
        (Constraint::Sum(x), Constraint::Sum(y)) => x.res() == y.res() && x.terms() == y.terms()
            && x.coefs() == y.coefs(),
        _ => false,
    }
}

/// Two constraints that are alike observe the same variables and are at
/// their fixed point, and entailed, on the same stores.
pub proof fn lemma_alike(a: &Constraint, b: &Constraint, vars: &Handler)
    requires
        alike(a, b),
    ensures
        a.views() == b.views(),
        a.params_wf() == b.params_wf(),
        a.reads_values() == b.reads_values(),
        a.at_fixpoint(vars) == b.at_fixpoint(vars),
        a.entailed(vars) == b.entailed(vars),
{
}

impl Clone for Constraint {
    /// A copy of the same kind with the same handles and parameters.
    fn clone(&self) -> (r: Self)
        ensures
            alike(self, &r),
    {
        match self {
            Constraint::Relation(c) => Constraint::Relation(*c),
            Constraint::AddConstant(c) => Constraint::AddConstant(*c),
            Constraint::Increasing(c) => Constraint::Increasing(c.clone()),
            Constraint::Sum(c) => Constraint::Sum(c.clone()),
        }
    }
}

impl Propagator for Constraint {
    open spec fn views(&self) -> Seq<ViewIndex> {
        match self {
            Constraint::Relation(c) => c.views(),
            Constraint::AddConstant(c) => c.views(),
            Constraint::Increasing(c) => c.views(),
            Constraint::Sum(c) => c.views(),
        }
    }

    open spec fn params_wf(&self) -> bool {
        match self {
            Constraint::Relation(c) => c.params_wf(),
            Constraint::AddConstant(c) => c.params_wf(),
            Constraint::Increasing(c) => c.params_wf(),
            Constraint::Sum(c) => c.params_wf(),
        }
    }

    open spec fn reads_values(&self) -> bool {
        match self {
            Constraint::Relation(c) => c.reads_values(),
            Constraint::AddConstant(c) => c.reads_values(),
            Constraint::Increasing(c) => c.reads_values(),
            Constraint::Sum(c) => c.reads_values(),
        }
    }

    open spec fn at_fixpoint(&self, vars: &Handler) -> bool {
        match self {
            Constraint::Relation(c) => c.at_fixpoint(vars),
            Constraint::AddConstant(c) => c.at_fixpoint(vars),
            Constraint::Increasing(c) => c.at_fixpoint(vars),
            Constraint::Sum(c) => c.at_fixpoint(vars),
        }
    }

    open spec fn entailed(&self, vars: &Handler) -> bool {
        match self {
            Constraint::Relation(c) => c.entailed(vars),
            Constraint::AddConstant(c) => c.entailed(vars),
            Constraint::Increasing(c) => c.entailed(vars),
            Constraint::Sum(c) => c.entailed(vars),
        }
    }

    proof fn lemma_reads(&self, a: &Handler, b: &Handler) {
        match self {
            Constraint::Relation(c) => c.lemma_reads(a, b),
            Constraint::AddConstant(c) => c.lemma_reads(a, b),
            Constraint::Increasing(c) => c.lemma_reads(a, b),
            Constraint::Sum(c) => c.lemma_reads(a, b),
        }
    }

    proof fn lemma_entailed(&self, a: &Handler, b: &Handler) {
        match self {
            Constraint::Relation(c) => c.lemma_entailed(a, b),
            Constraint::AddConstant(c) => c.lemma_entailed(a, b),
            Constraint::Increasing(c) => c.lemma_entailed(a, b),
            Constraint::Sum(c) => c.lemma_entailed(a, b),
        }
    }

    fn is_entailed(&self, vars: &Handler) -> (r: bool) {
        match self {
            Constraint::Relation(c) => c.is_entailed(vars),
            Constraint::AddConstant(c) => c.is_entailed(vars),
            Constraint::Increasing(c) => c.is_entailed(vars),
            Constraint::Sum(c) => c.is_entailed(vars),
        }
    }

    fn observed(&self) -> (r: Vec<ViewIndex>) {
        match self {
            Constraint::Relation(c) => c.observed(),
            Constraint::AddConstant(c) => c.observed(),
            Constraint::Increasing(c) => c.observed(),
            Constraint::Sum(c) => c.observed(),
        }
    }

    fn reads(&self) -> (r: bool) {
        match self {
            Constraint::Relation(c) => c.reads(),
            Constraint::AddConstant(c) => c.reads(),
            Constraint::Increasing(c) => c.reads(),
            Constraint::Sum(c) => c.reads(),
        }
    }

    fn check(&self, vars: &Handler) -> (r: bool) {
        match self {
            Constraint::Relation(c) => c.check(vars),
            Constraint::AddConstant(c) => c.check(vars),
            Constraint::Increasing(c) => c.check(vars),
            Constraint::Sum(c) => c.check(vars),
        }
    }

    fn dependencies(&self, vars: &Handler) -> (r: Vec<(ViewIndex, VariableState)>) {
        match self {
            Constraint::Relation(c) => c.dependencies(vars),
            Constraint::AddConstant(c) => c.dependencies(vars),
            Constraint::Increasing(c) => c.dependencies(vars),
            Constraint::Sum(c) => c.dependencies(vars),
        }
    }

    fn prepare(&mut self, changes: Vec<ViewIndex>) {
    }

    #[verifier::rlimit(50)]
    fn propagate(&self, vars: &mut Handler) -> (r: Result<PropagationState, VariableError>) {
        match self {
            Constraint::Relation(c) => c.propagate(vars),
            Constraint::AddConstant(c) => c.propagate(vars),
            Constraint::Increasing(c) => c.propagate(vars),
            Constraint::Sum(c) => c.propagate(vars),
        }
    }
}

} // verus!

pub mod handlers;
