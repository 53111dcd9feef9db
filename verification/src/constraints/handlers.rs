//! The constraint handler: the propagators of a problem, which of them are
//! subsumed, and the graph that tells which to wake on which change. It
//! drives propagation to the fixed point of all propagators together.

use std::sync::Arc;
use vstd::prelude::*;

use crate::constraints::{
    accurate,
    agree,
    alike,
    below,
    fits,
    lists,
    narrowed,
    quiet,
    tells,
    Constraint,
    PropagationState,
    Propagator,
};
use crate::graph::{
    all_atomic,
    dispatch,
    holds,
    lemma_atomic_wakes,
    lemma_buffer_insert,
    lemma_dispatch_entry,
    lemma_table_insert,
    wakes,
    wired,
    work_view,
    BipartiteGraph,
    BipartiteGraphBuilder,
    EdgeList,
    Event,
    GraphEvents,
    WorkList,
};
use crate::variables::handlers::default_handler::{lemma_narrowing_measure, Handler};
use crate::variables::{VariableError, VariableState, ViewIndex};

verus! {

/// Whether the graph `table` has, for the propagator at `idx`, the edges of
/// its dependencies: from each variable that it observes, one for a move of
/// the lower bound, one for a move of the upper bound and, where it reads
/// values, one for a change of values.
pub open spec fn covered(table: Seq<EdgeList>, c: &Constraint, vars: &Handler, idx: usize) -> bool {
    forall|i: int|
        0 <= i < c.views().len() ==> {
            let f = vars.slot(#[trigger] c.views()[i])->0 as usize;
            &&& wired(table, f, VariableState::MinBoundChange, idx)
            &&& wired(table, f, VariableState::MaxBoundChange, idx)
            &&& c.reads_values() ==> wired(table, f, VariableState::ValuesChange, idx)
        }
}

/// Whether the propagators `cs` belong to the store `vars` and the graph
/// `table` holds their dependencies.
pub open spec fn wired_up(cs: Seq<Constraint>, table: Seq<EdgeList>, vars: &Handler) -> bool {
    forall|idx: int|
        0 <= idx < cs.len() ==> fits(&#[trigger] cs[idx], vars) && covered(
            table,
            &cs[idx],
            vars,
            idx as usize,
        )
}

/// Whether the propagator at `idx` is subsumed or at rest on `vars`.
pub open spec fn settled(cs: Seq<Constraint>, subs: Seq<bool>, vars: &Handler, idx: int) -> bool {
    subs[idx] || quiet(&cs[idx], vars)
}

/// Whether every propagator of `cs` is at its fixed point on `s`.
pub open spec fn common(cs: Seq<Constraint>, s: &Handler) -> bool {
    forall|idx: int| 0 <= idx < cs.len() ==> (#[trigger] cs[idx]).at_fixpoint(s)
}

/// Whether every propagator of `cs` that is marked in `subs` is entailed on
/// `vars`.
pub open spec fn marks_hold(cs: Seq<Constraint>, subs: Seq<bool>, vars: &Handler) -> bool {
    forall|p: int| 0 <= p < cs.len() && #[trigger] subs[p] ==> cs[p].entailed(vars)
}

/// The marks that hold on a store hold on every store below it.
pub proof fn lemma_marks_narrowed(
    cs: Seq<Constraint>,
    subs: Seq<bool>,
    a: &Handler,
    b: &Handler,
)
    requires
        a.wf(),
        below(a, b),
        forall|idx: int| 0 <= idx < cs.len() ==> fits(&#[trigger] cs[idx], a),
        marks_hold(cs, subs, a),
    ensures
        marks_hold(cs, subs, b),
        forall|p: int| 0 <= p < cs.len() && #[trigger] subs[p] ==> cs[p].at_fixpoint(b),
{
    assert forall|p: int| 0 <= p < cs.len() && #[trigger] subs[p] implies cs[p].entailed(b)
        && cs[p].at_fixpoint(b) by {
        assert(fits(&cs[p], a));
        cs[p].lemma_entailed(a, b);
    }
}

/// Whether one of the events `events` wakes the propagator at `idx`.
pub open spec fn woken_by(table: Seq<EdgeList>, events: Seq<Event>, idx: int) -> bool {
    exists|i: int|
        0 <= i < events.len() && wakes(
            table,
            (#[trigger] events[i]).src,
            events[i].event,
        ).contains(idx as usize) && events[i].from != idx
}

/// Whether the work list `list` has, from the position `k` on, an entry for
/// the propagator at `idx`.
pub open spec fn listed_from(list: WorkList, k: int, idx: int) -> bool {
    exists|j: int| k <= j < list.len() && (#[trigger] list[j]).0 == idx
}

/// The event that stands for an entry of a list of changes made by the
/// propagator at `q`.
pub open spec fn event_of(vars: &Handler, q: usize, change: (ViewIndex, VariableState)) -> Event {
    Event { src: vars.slot(change.0)->0 as usize, from: q, event: change.1 }
}

/// A propagator that was settled stays settled, or is woken, when another
/// one narrows the store and the account of what it changed is turned into
/// events.
pub proof fn lemma_settled_or_woken(
    cs: Seq<Constraint>,
    table: Seq<EdgeList>,
    subs: Seq<bool>,
    before: &Handler,
    after: &Handler,
    q: usize,
    changes: Seq<(ViewIndex, VariableState)>,
    events: Seq<Event>,
    p: int,
)
    requires
        before.wf(),
        after.wf(),
        narrowed(before, after),
        wired_up(cs, table, before),
        accurate(changes, before, after),
        forall|k: int| 0 <= k < changes.len() ==> holds(events, event_of(before, q, #[trigger] changes[k])),
        0 <= p < cs.len(),
        p != q,
        settled(cs, subs, before, p),
    ensures
        settled(cs, subs, after, p) || woken_by(table, events, p),
{
    let c = cs[p];
    if !subs[p] {
        assert(fits(&c, before));
        if forall|i: int|
            0 <= i < c.views().len() ==> agree(
                before.vars()[before.slot(#[trigger] c.views()[i])->0],
                after.vars()[before.slot(c.views()[i])->0],
                c.reads_values(),
            ) {
            c.lemma_reads(before, after);
        } else {
            let i = choose|i: int|
                0 <= i < c.views().len() && !agree(
                    before.vars()[before.slot(#[trigger] c.views()[i])->0],
                    after.vars()[before.slot(c.views()[i])->0],
                    c.reads_values(),
                );
            let view = c.views()[i];
            crate::variables::handlers::default_handler::lemma_slot_fits(*before, view);
            let f = before.slot(view)->0;
            let x = before.vars()[f];
            let y = after.vars()[f];
            crate::constraints::lemma_same_size_same_values(x, y);
            let class = if y.spec_min() > x.spec_min() {
                VariableState::MinBoundChange
            } else if y.spec_max() < x.spec_max() {
                VariableState::MaxBoundChange
            } else {
                VariableState::ValuesChange
            };
            assert(tells(class, x, y));
            assert(lists(changes, before, f, class));
            let k = choose|k: int|
                0 <= k < changes.len() && before.slot((#[trigger] changes[k]).0) == Some(f)
                    && changes[k].1 == class;
            let e = event_of(before, q, changes[k]);
            assert(holds(events, e));
            let n = choose|n: int| 0 <= n < events.len() && #[trigger] events[n] == e;
            assert(covered(table, &c, before, p as usize));
            assert(wired(table, f as usize, class, p as usize));
            lemma_atomic_wakes(table, f as usize, class, p as usize);
            assert(wakes(table, events[n].src, events[n].event).contains(p as usize));
        }
    }
}

/// An account that holds an entry was made of a store that lost a value.
pub proof fn lemma_changes_measure(
    before: &Handler,
    after: &Handler,
    changes: Seq<(ViewIndex, VariableState)>,
)
    requires
        before.wf(),
        after.wf(),
        narrowed(before, after),
        accurate(changes, before, after),
        changes.len() > 0,
    ensures
        after.measure() < before.measure(),
{
    let f = before.slot(changes[0].0)->0;
    crate::variables::handlers::default_handler::lemma_slot_fits(*before, changes[0].0);
    assert(tells(changes[0].1, before.vars()[f], after.vars()[f]));
    crate::constraints::lemma_same_size_same_values(before.vars()[f], after.vars()[f]);
    lemma_narrowing_measure(*before, *after, f);
}

/// Whether a propagator belongs to a store, and whether the graph holds its
/// dependencies, is a matter of the tables of the store alone.
pub proof fn lemma_wired_up_layout(
    cs: Seq<Constraint>,
    table: Seq<EdgeList>,
    a: &Handler,
    b: &Handler,
)
    requires
        wired_up(cs, table, a),
        a.same_layout(b),
    ensures
        wired_up(cs, table, b),
{
    assert forall|idx: int| 0 <= idx < cs.len() implies fits(&#[trigger] cs[idx], b) && covered(
        table,
        &cs[idx],
        b,
        idx as usize,
    ) by {
        let c = cs[idx];
        assert(fits(&c, a));
        assert(covered(table, &c, a, idx as usize));
        assert forall|i: int| 0 <= i < c.views().len() implies b.slot(#[trigger] c.views()[i])
            == a.slot(c.views()[i]) by {}
    }
}

/// Turns the account `changes` of what the propagator at `q` changed into
/// events.
fn post_events(
    events: &mut GraphEvents<'_>,
    vars: &Handler,
    q: usize,
    changes: &Vec<(ViewIndex, VariableState)>,
    Ghost(before): Ghost<Handler>,
)
    requires
        vars.wf(),
        before.wf(),
        narrowed(&before, vars),
        accurate(changes@, &before, vars),
        all_atomic(old(events).events()),
    ensures
        final(events).graph() == old(events).graph(),
        all_atomic(final(events).events()),
        forall|k: int|
            0 <= k < changes@.len() ==> holds(
                final(events).events(),
                event_of(&before, q, #[trigger] changes@[k]),
            ),
        forall|e: Event| holds(old(events).events(), e) ==> holds(final(events).events(), e),
        changes@.len() == 0 ==> final(events).events() == old(events).events(),
{
    let ghost start = events.events();
    let mut k: usize = 0;
    while k < changes.len()
        invariant
            vars.wf(),
            before.wf(),
            narrowed(&before, vars),
            accurate(changes@, &before, vars),
            k <= changes@.len(),
            events.graph() == old(events).graph(),
            start == old(events).events(),
            all_atomic(events.events()),
            forall|j: int|
                0 <= j < k ==> holds(events.events(), event_of(&before, q, #[trigger] changes@[j])),
            forall|e: Event| holds(start, e) ==> holds(events.events(), e),
            k == 0 ==> events.events() == start,
        decreases changes@.len() - k,
    {
        let ghost held = events.events();
        let (view, class) = changes[k];
        proof {
            assert(before.slot(changes@[k as int].0) is Some);
            assert(tells(
                changes@[k as int].1,
                before.vars()[before.slot(changes@[k as int].0)->0],
                vars.vars()[before.slot(changes@[k as int].0)->0],
            ));
        }
        let src = vars.variable_id(&view).unwrap();
        events.add_event(src, q, class);
        proof {
            let x = event_of(&before, q, changes@[k as int]);
            assert(x == Event { src, from: q, event: class });
            lemma_buffer_insert(held, x, x);
            assert forall|j: int| 0 <= j < k + 1 implies holds(
                events.events(),
                event_of(&before, q, #[trigger] changes@[j]),
            ) by {
                lemma_buffer_insert(held, x, event_of(&before, q, changes@[j]));
            }
            assert forall|e: Event| holds(start, e) implies holds(events.events(), e) by {
                lemma_buffer_insert(held, x, e);
            }
        }
        k = k + 1;
    }
}

/// What a run of the propagator at `q` leaves of the claims made before it:
/// a propagator that was settled or woken is settled or woken after it.
pub proof fn lemma_run(
    cs: Seq<Constraint>,
    table: Seq<EdgeList>,
    subs: Seq<bool>,
    marks: Seq<bool>,
    before: &Handler,
    after: &Handler,
    q: usize,
    changes: Seq<(ViewIndex, VariableState)>,
    held: Seq<Event>,
    now: Seq<Event>,
)
    requires
        before.wf(),
        after.wf(),
        narrowed(before, after),
        wired_up(cs, table, before),
        accurate(changes, before, after),
        q < cs.len(),
        subs.len() == cs.len(),
        marks.len() == cs.len(),
        forall|p: int| 0 <= p < cs.len() && p != q ==> #[trigger] marks[p] == subs[p],
        forall|k: int| 0 <= k < changes.len() ==> holds(now, event_of(before, q, #[trigger] changes[k])),
        forall|e: Event| holds(held, e) ==> holds(now, e),
    ensures
        forall|p: int|
            0 <= p < cs.len() && p != q && (#[trigger] settled(cs, subs, before, p) || woken_by(
                table,
                held,
                p,
            )) ==> settled(cs, marks, after, p) || woken_by(table, now, p),
        changes.len() > 0 ==> after.measure() < before.measure(),
        changes.len() == 0 ==> after.equal_domains(before),
        wired_up(cs, table, after),
{
    assert forall|p: int|
        0 <= p < cs.len() && p != q && (#[trigger] settled(cs, subs, before, p) || woken_by(
            table,
            held,
            p,
        )) implies settled(cs, marks, after, p) || woken_by(table, now, p) by {
        if settled(cs, subs, before, p) {
            lemma_settled_or_woken(cs, table, subs, before, after, q, changes, now, p);
            assert(marks[p] == subs[p]);
        } else {
            let i = choose|i: int|
                0 <= i < held.len() && wakes(table, (#[trigger] held[i]).src, held[i].event).contains(
                    p as usize,
                ) && held[i].from != p;
            assert(holds(held, held[i]));
            let n = choose|n: int| 0 <= n < now.len() && #[trigger] now[n] == held[i];
            assert(wakes(table, now[n].src, now[n].event).contains(p as usize));
        }
    }
    if changes.len() > 0 {
        lemma_changes_measure(before, after, changes);
    } else {
        assert forall|f: int| 0 <= f < after.vars().len() implies (#[trigger] after.vars()[f]).intervals()
            == before.vars()[f].intervals() && after.vars()[f].spec_min()
            == before.vars()[f].spec_min() && after.vars()[f].spec_max()
            == before.vars()[f].spec_max() by {
            let x = before.vars()[f];
            let y = after.vars()[f];
            crate::constraints::lemma_same_size_same_values(x, y);
            if y.spec_min() > x.spec_min() {
                assert(tells(VariableState::MinBoundChange, x, y));
                assert(lists(changes, before, f, VariableState::MinBoundChange));
            }
            if y.spec_max() < x.spec_max() {
                assert(tells(VariableState::MaxBoundChange, x, y));
                assert(lists(changes, before, f, VariableState::MaxBoundChange));
            }
            if y@ != x@ && y.spec_min() == x.spec_min() && y.spec_max() == x.spec_max() {
                assert(tells(VariableState::ValuesChange, x, y));
                assert(lists(changes, before, f, VariableState::ValuesChange));
            }
        }
    }
    lemma_wired_up_layout(cs, table, before, after);
}

/// A propagator that ran and reported no change is at rest on the store as
/// it is after the run.
pub proof fn lemma_still_quiet(c: &Constraint, before: &Handler, after: &Handler)
    requires
        before.wf(),
        after.wf(),
        fits(c, before),
        quiet(c, before),
        after.equal_domains(before),
    ensures
        quiet(c, after),
{
    assert forall|i: int| 0 <= i < c.views().len() implies agree(
        before.vars()[before.slot(#[trigger] c.views()[i])->0],
        after.vars()[before.slot(c.views()[i])->0],
        c.reads_values(),
    ) by {
        crate::variables::handlers::default_handler::lemma_slot_fits(*before, c.views()[i]);
    }
    c.lemma_reads(before, after);
}

/// Runs the propagator at `idx`, which is not subsumed: tells it what
/// changed, lets it narrow the store, turns what it changed into events and
/// keeps in mind whether it is subsumed from now on. Tells whether the
/// store was narrowed.
#[verifier::rlimit(50)]
fn run(
    constraints: &mut Vec<Constraint>,
    subsumeds: &mut Vec<bool>,
    events: &mut GraphEvents<'_>,
    vars: &mut Handler,
    idx: usize,
    sources: Vec<ViewIndex>,
) -> (r: Result<bool, VariableError>)
    requires
        old(vars).wf(),
        idx < old(constraints)@.len(),
        old(subsumeds)@.len() == old(constraints)@.len(),
        !old(subsumeds)@[idx as int],
        wired_up(old(constraints)@, old(events).graph().table(), old(vars)),
        marks_hold(old(constraints)@, old(subsumeds)@, old(vars)),
        all_atomic(old(events).events()),
    ensures
        final(vars).wf(),
        narrowed(old(vars), final(vars)),
        final(constraints)@ == old(constraints)@,
        final(subsumeds)@.len() == old(subsumeds)@.len(),
        forall|p: int|
            0 <= p < old(subsumeds)@.len() && p != idx ==> #[trigger] final(subsumeds)@[p]
                == old(subsumeds)@[p],
        marks_hold(final(constraints)@, final(subsumeds)@, final(vars)),
        forall|s: Handler| #[trigger]
            below(old(vars), &s) && old(constraints)@[idx as int].at_fixpoint(&s) ==> r is Ok
                && narrowed(final(vars), &s),
        final(events).graph() == old(events).graph(),
        all_atomic(final(events).events()),
        wired_up(final(constraints)@, final(events).graph().table(), final(vars)),
        r is Ok ==> settled(final(constraints)@, final(subsumeds)@, final(vars), idx as int),
        r is Ok ==> forall|p: int|
            0 <= p < old(constraints)@.len() && p != idx && (#[trigger] settled(
                old(constraints)@,
                old(subsumeds)@,
                old(vars),
                p,
            ) || woken_by(old(events).graph().table(), old(events).events(), p)) ==> settled(
                final(constraints)@,
                final(subsumeds)@,
                final(vars),
                p,
            ) || woken_by(final(events).graph().table(), final(events).events(), p),
        r == Ok::<bool, VariableError>(true) ==> final(vars).measure() < old(vars).measure(),
        r == Ok::<bool, VariableError>(false) ==> final(vars).equal_domains(old(vars)) && final(events).events() == old(events).events(),
        quiet(&old(constraints)@[idx as int], old(vars)) ==> r == Ok::<bool, VariableError>(false)
            && final(subsumeds)@ == old(subsumeds)@,
{
    let ghost before = *vars;
    let ghost cs = constraints@;
    let ghost subs = subsumeds@;
    let ghost table = events.graph().table();
    let ghost held = events.events();
    constraints[idx].prepare(sources);
    assert(constraints@ =~= cs);
    assert(fits(&cs[idx as int], &before));
    let outcome = constraints[idx].propagate(vars);
    let mut changes: Vec<(ViewIndex, VariableState)> = Vec::new();
    let mut subsumed = false;
    proof {
        assert forall|p: int| 0 <= p < cs.len() implies fits(&#[trigger] cs[p], &before) by {}
        lemma_marks_narrowed(cs, subs, &before, vars);
    }
    match outcome {
        Err(e) => {
            proof {
                lemma_wired_up_layout(cs, table, &before, vars);
            }
            return Err(e);
        },
        Ok(PropagationState::NoChange) => {
            proof {
                lemma_still_quiet(&cs[idx as int], &before, vars);
                assert(accurate(changes@, &before, vars)) by {
                    assert forall|f: int, class: VariableState|
                        0 <= f < before.vars().len() && #[trigger] tells(
                            class,
                            before.vars()[f],
                            vars.vars()[f],
                        ) implies lists(changes@, &before, f, class) by {
                        crate::variables::int_var::lemma_same_values_same_domain(
                            before.vars()[f],
                            before.vars()[f],
                        );
                        assert(vars.vars()[f].intervals() == before.vars()[f].intervals());
                    }
                }
            }
        },
        Ok(PropagationState::FixPoint(list)) => {
            changes = list;
        },
        Ok(PropagationState::Subsumed(list)) => {
            changes = list;
            subsumed = true;
        },
    }
    post_events(events, vars, idx, &changes, Ghost(before));
    if subsumed {
        subsumeds.set(idx, true);
    }
    proof {
        lemma_run(
            cs,
            table,
            subs,
            subsumeds@,
            &before,
            vars,
            idx,
            changes@,
            held,
            events.events(),
        );
    }
    Ok(changes.len() > 0)
}

/// Another handle to the graph that `graph` leads to, made with
/// `Arc::clone`: it leads to the same graph, which is not copied.
#[verifier::external_body]
fn share_graph(graph: &Arc<BipartiteGraph>) -> (r: Arc<BipartiteGraph>)
    ensures
        r == *graph,
{
    Arc::clone(graph)
}

/// A constraint handler under construction: the constraints, in the order
/// in which they were added.
pub struct DefaultConstraintsHandlerBuilder {
    constraints: Vec<Constraint>,
}

/// The propagators of a problem, in the order of their declaration, with
/// the mark of those that are subsumed and the graph of their dependencies.
pub struct DefaultConstraintsHandler {
    constraints: Vec<Constraint>,
    subsumeds: Vec<bool>,
    graph: Arc<BipartiteGraph>,
}

impl DefaultConstraintsHandlerBuilder {
    /// The constraints added so far.
    pub closed spec fn constraints(&self) -> Seq<Constraint> {
        self.constraints@
    }

    /// A builder without constraints.
    pub fn new() -> (r: Self)
        ensures
            r.constraints() == Seq::<Constraint>::empty(),
    {
        DefaultConstraintsHandlerBuilder { constraints: Vec::new() }
    }

    /// Adds a constraint after those added before.
    pub fn add(&mut self, constraint: Constraint)
        ensures
            final(self).constraints() == old(self).constraints().push(constraint),
    {
        self.constraints.push(constraint);
    }

    /// The handler of the constraints added, for the store `variables`. There
    /// is none where a constraint was not built as its kind requires or holds
    /// a handle that leads to no variable of the store.
    #[verifier::rlimit(50)]
    pub fn finalize(self, variables: &mut Handler) -> (r: Option<DefaultConstraintsHandler>)
        requires
            old(variables).wf(),
        ensures
            *final(variables) == *old(variables),
            r is Some <==> forall|idx: int|
                0 <= idx < self.constraints().len() ==> fits(
                    &#[trigger] self.constraints()[idx],
                    old(variables),
                ),
            r matches Some(handler) ==> handler.wf(old(variables)) && handler.constraints()
                == self.constraints() && forall|idx: int|
                0 <= idx < handler.subsumed().len() ==> !#[trigger] handler.subsumed()[idx],
    {
        let ghost cs = self.constraints@;
        let n: usize = self.constraints.len();
        let mut builder = BipartiteGraphBuilder::new();
        let mut subsumeds: Vec<bool> = Vec::new();
        let mut idx: usize = 0;
        while idx < n
            invariant
                variables.wf(),
                *variables == *old(variables),
                cs == self.constraints@,
                n == cs.len(),
                idx <= n,
                subsumeds@.len() == idx,
                forall|p: int| 0 <= p < idx ==> !#[trigger] subsumeds@[p],
                forall|p: int|
                    0 <= p < idx ==> fits(&#[trigger] cs[p], variables) && covered(
                        builder.table(),
                        &cs[p],
                        variables,
                        p as usize,
                    ),
            decreases n - idx,
        {
            if !self.constraints[idx].check(variables) {
                assert(!fits(&self.constraints()[idx as int], variables));
                return None;
            }
            let deps = self.constraints[idx].dependencies(variables);
            let ghost start = builder.table();
            let mut k: usize = 0;
            while k < deps.len()
                invariant
                    variables.wf(),
                    k <= deps@.len(),
                    forall|j: int| 0 <= j < deps@.len() ==> variables.slot((#[trigger] deps@[j]).0) is Some,
                    forall|s: usize, l: VariableState, d: usize|
                        wired(start, s, l, d) ==> wired(builder.table(), s, l, d),
                    forall|j: int|
                        0 <= j < k ==> wired(
                            builder.table(),
                            variables.slot((#[trigger] deps@[j]).0)->0 as usize,
                            deps@[j].1,
                            idx,
                        ),
                decreases deps@.len() - k,
            {
                let (view, class) = deps[k];
                let src = variables.variable_id(&view).unwrap();
                let ghost held = builder.table();
                builder.insert_node1_to_node2(src, class, idx);
                proof {
                    lemma_table_insert(held, src, class, idx, src, class, idx);
                    assert forall|s: usize, l: VariableState, d: usize|
                        wired(start, s, l, d) implies wired(builder.table(), s, l, d) by {
                        lemma_table_insert(held, src, class, idx, s, l, d);
                    }
                    assert forall|j: int| 0 <= j < k + 1 implies wired(
                        builder.table(),
                        variables.slot((#[trigger] deps@[j]).0)->0 as usize,
                        deps@[j].1,
                        idx,
                    ) by {
                        if j < k {
                            lemma_table_insert(
                                held,
                                src,
                                class,
                                idx,
                                variables.slot(deps@[j].0)->0 as usize,
                                deps@[j].1,
                                idx,
                            );
                        }
                    }
                }
                k = k + 1;
            }
            proof {
                let table = builder.table();
                let c = cs[idx as int];
                assert forall|p: int| 0 <= p < idx implies covered(
                    table,
                    &#[trigger] cs[p],
                    variables,
                    p as usize,
                ) by {
                    assert(covered(start, &cs[p], variables, p as usize));
                }
                assert forall|i: int| 0 <= i < c.views().len() implies {
                    let f = variables.slot(#[trigger] c.views()[i])->0 as usize;
                    &&& wired(table, f, VariableState::MinBoundChange, idx)
                    &&& wired(table, f, VariableState::MaxBoundChange, idx)
                    &&& c.reads_values() ==> wired(table, f, VariableState::ValuesChange, idx)
                } by {
                    lemma_listed_is_wired(
                        table,
                        deps@,
                        variables,
                        c.views()[i],
                        VariableState::MinBoundChange,
                        idx,
                    );
                    lemma_listed_is_wired(
                        table,
                        deps@,
                        variables,
                        c.views()[i],
                        VariableState::MaxBoundChange,
                        idx,
                    );
                    if c.reads_values() {
                        lemma_listed_is_wired(
                            table,
                            deps@,
                            variables,
                            c.views()[i],
                            VariableState::ValuesChange,
                            idx,
                        );
                    }
                }
            }
            subsumeds.push(false);
            idx = idx + 1;
        }
        let handler = DefaultConstraintsHandler {
            constraints: self.constraints,
            subsumeds,
            graph: Arc::new(builder.finalize()),
        };
        Some(handler)
    }
}

/// A dependency that is listed, and of which every entry has its edge, has
/// its edge.
proof fn lemma_listed_is_wired(
    table: Seq<EdgeList>,
    deps: Seq<(ViewIndex, VariableState)>,
    vars: &Handler,
    view: ViewIndex,
    class: VariableState,
    idx: usize,
)
    requires
        vars.layout_wf(),
        vars.slot(view) is Some,
        lists(deps, vars, vars.slot(view)->0, class),
        forall|j: int|
            0 <= j < deps.len() ==> wired(
                table,
                vars.slot((#[trigger] deps[j]).0)->0 as usize,
                deps[j].1,
                idx,
            ),
    ensures
        wired(table, vars.slot(view)->0 as usize, class, idx),
{
    let j = choose|j: int|
        0 <= j < deps.len() && vars.slot((#[trigger] deps[j]).0) == Some(vars.slot(view)->0)
            && deps[j].1 == class;
    assert(wired(table, vars.slot(deps[j].0)->0 as usize, deps[j].1, idx));
}

impl DefaultConstraintsHandler {
    /// The propagators, in the order of their declaration.
    pub closed spec fn constraints(&self) -> Seq<Constraint> {
        self.constraints@
    }

    /// For each propagator, whether it is subsumed.
    pub closed spec fn subsumed(&self) -> Seq<bool> {
        self.subsumeds@
    }

    /// The edge lists of the graph of dependencies.
    pub closed spec fn table(&self) -> Seq<EdgeList> {
        self.graph.table()
    }

    /// The invariant of a handler for the store `vars`: every propagator
    /// belongs to the store and has its dependencies in the graph, and every
    /// propagator that is marked as subsumed is entailed on the store.
    pub open spec fn wf(&self, vars: &Handler) -> bool {
        &&& self.subsumed().len() == self.constraints().len()
        &&& wired_up(self.constraints(), self.table(), vars)
        &&& marks_hold(self.constraints(), self.subsumed(), vars)
    }

    /// Whether every propagator that is not subsumed is at rest on `vars`: it
    /// would report no change.
    pub open spec fn quiescent(&self, vars: &Handler) -> bool {
        forall|idx: int|
            0 <= idx < self.constraints().len() ==> #[trigger] settled(
                self.constraints(),
                self.subsumed(),
                vars,
                idx,
            )
    }
}

/// At quiescence every propagator that is not subsumed is at rest: it is at
/// its fixed point and not entailed, which is when a run of it reports no
/// change and leaves every domain as it is.
pub proof fn lemma_quiescent_is_at_rest(handler: &DefaultConstraintsHandler, vars: &Handler, p: int)
    requires
        handler.quiescent(vars),
        0 <= p < handler.constraints().len(),
        !handler.subsumed()[p],
    ensures
        handler.constraints()[p].at_fixpoint(vars),
        !handler.constraints()[p].entailed(vars),
{
    assert(settled(handler.constraints(), handler.subsumed(), vars, p));
}

/// Those of the places `sources` that lie within a row of `n` variables, in
/// their order.
pub open spec fn places_within(sources: Seq<usize>, n: nat) -> Seq<usize>
    decreases sources.len(),
{
    if sources.len() == 0 {
        Seq::empty()
    } else if sources.last() < n {
        places_within(sources.drop_last(), n).push(sources.last())
    } else {
        places_within(sources.drop_last(), n)
    }
}

/// The handles that lead to the places `sources` of `vars`, in their order:
/// one for each place that lies within the row.
fn views_of(vars: &Handler, sources: &Vec<usize>) -> (r: Vec<ViewIndex>)
    requires
        vars.layout_wf(),
    ensures
        r@.len() == places_within(sources@, vars.vars().len()).len(),
        forall|i: int|
            0 <= i < r@.len() ==> vars.slot(#[trigger] r@[i]) == Some(
                places_within(sources@, vars.vars().len())[i] as int,
            ) && r@[i].spec_id() == vars.id() && r@[i].spec_type()
                == vars.owners()[places_within(sources@, vars.vars().len())[i] as int],
{
    let ghost n = vars.vars().len();
    let mut r: Vec<ViewIndex> = Vec::new();
    let mut k: usize = 0;
    while k < sources.len()
        invariant
            vars.layout_wf(),
            n == vars.vars().len(),
            k <= sources@.len(),
            r@.len() == places_within(sources@.take(k as int), n).len(),
            forall|i: int|
                0 <= i < r@.len() ==> vars.slot(#[trigger] r@[i]) == Some(
                    places_within(sources@.take(k as int), n)[i] as int,
                ) && r@[i].spec_id() == vars.id() && r@[i].spec_type()
                    == vars.owners()[places_within(sources@.take(k as int), n)[i] as int],
        decreases sources@.len() - k,
    {
        proof {
            let next = sources@.take(k + 1);
            assert(next.drop_last() =~= sources@.take(k as int));
            assert(next.last() == sources@[k as int]);
        }
        if sources[k] < vars.len() {
            r.push(vars.get_view(sources[k]));
        }
        k = k + 1;
    }
    proof {
        assert(sources@.take(k as int) =~= sources@);
    }
    r
}

/// Whether each propagator that was marked as subsumed in `before` is
/// marked still in `after`.
pub open spec fn marks_grow(before: Seq<bool>, after: Seq<bool>) -> bool {
    &&& after.len() == before.len()
    &&& forall|p: int| 0 <= p < before.len() && #[trigger] before[p] ==> after[p]
}

/// The first round: every propagator that is not subsumed runs once, in the
/// order of declaration.
#[verifier::rlimit(50)]
fn first_round(
    constraints: &mut Vec<Constraint>,
    subsumeds: &mut Vec<bool>,
    events: &mut GraphEvents<'_>,
    vars: &mut Handler,
) -> (r: Result<(), VariableError>)
    requires
        old(vars).wf(),
        old(subsumeds)@.len() == old(constraints)@.len(),
        wired_up(old(constraints)@, old(events).graph().table(), old(vars)),
        marks_hold(old(constraints)@, old(subsumeds)@, old(vars)),
        old(events).events().len() == 0,
    ensures
        final(vars).wf(),
        narrowed(old(vars), final(vars)),
        final(constraints)@ == old(constraints)@,
        marks_grow(old(subsumeds)@, final(subsumeds)@),
        marks_hold(final(constraints)@, final(subsumeds)@, final(vars)),
        forall|s: Handler| #[trigger]
            below(old(vars), &s) && common(old(constraints)@, &s) ==> r is Ok && narrowed(final(vars), &s),
        final(events).graph() == old(events).graph(),
        all_atomic(final(events).events()),
        wired_up(final(constraints)@, final(events).graph().table(), final(vars)),
        r is Ok ==> forall|p: int|
            0 <= p < old(constraints)@.len() ==> #[trigger] settled(
                final(constraints)@,
                final(subsumeds)@,
                final(vars),
                p,
            ) || woken_by(final(events).graph().table(), final(events).events(), p),
        (forall|p: int|
            0 <= p < old(constraints)@.len() ==> #[trigger] settled(
                old(constraints)@,
                old(subsumeds)@,
                old(vars),
                p,
            )) ==> r is Ok && final(vars).equal_domains(old(vars)) && final(events).events().len()
            == 0 && final(subsumeds)@ == old(subsumeds)@,
{
    let ghost before = *vars;
    let ghost cs = constraints@;
    let ghost subs = subsumeds@;
    let ghost table = events.graph().table();
    let ghost rested = forall|p: int| 0 <= p < cs.len() ==> #[trigger] settled(cs, subs, &before, p);
    let n: usize = constraints.len();
    let mut idx: usize = 0;
    while idx < n
        invariant
            before == *old(vars),
            cs == old(constraints)@,
            subs == old(subsumeds)@,
            table == old(events).graph().table(),
            rested == (forall|p: int|
                0 <= p < cs.len() ==> #[trigger] settled(cs, subs, &before, p)),
            before.wf(),
            vars.wf(),
            narrowed(&before, vars),
            constraints@ == cs,
            n == cs.len(),
            subs.len() == n,
            idx <= n,
            marks_grow(subs, subsumeds@),
            marks_hold(cs, subsumeds@, vars),
            forall|s: Handler| #[trigger] below(&before, &s) && common(cs, &s) ==> narrowed(vars, &s),
            events.graph() == old(events).graph(),
            all_atomic(events.events()),
            wired_up(cs, table, vars),
            forall|p: int|
                0 <= p < idx ==> #[trigger] settled(cs, subsumeds@, vars, p) || woken_by(
                    table,
                    events.events(),
                    p,
                ),
            rested ==> vars.equal_domains(&before) && events.events().len() == 0 && subsumeds@
                == subs,
        decreases n - idx,
    {
        let ghost held = *vars;
        let ghost marks = subsumeds@;
        let ghost seen = events.events();
        if !subsumeds[idx] {
            proof {
                if rested {
                    assert(settled(cs, subs, &before, idx as int));
                    assert(fits(&cs[idx as int], &held));
                    lemma_wired_up_layout(cs, table, &held, &before);
                    lemma_still_quiet(&cs[idx as int], &before, &held);
                }
            }
            let outcome = run(constraints, subsumeds, events, vars, idx, Vec::new());
            proof {
                crate::constraints::lemma_narrowed_twice(&before, &held, vars);
                assert forall|s: Handler| #[trigger]
                    below(&before, &s) && common(cs, &s) implies outcome is Ok && narrowed(
                    vars,
                    &s,
                ) by {
                    assert(below(&held, &s));
                    assert(cs[idx as int].at_fixpoint(&s));
                }
            }
            match outcome {
                Err(e) => {
                    return Err(e);
                },
                Ok(_) => {},
            }
            proof {
                assert forall|p: int| 0 <= p < idx + 1 implies #[trigger] settled(
                    cs,
                    subsumeds@,
                    vars,
                    p,
                ) || woken_by(table, events.events(), p) by {
                    if p < idx {
                        assert(settled(cs, marks, &held, p) || woken_by(table, seen, p));
                    }
                }
            }
        }
        idx = idx + 1;
    }
    Ok(())
}

/// A later round: the propagators of the work list `list` run, those that
/// are subsumed left out, in the order of the list.
#[verifier::rlimit(50)]
fn round(
    constraints: &mut Vec<Constraint>,
    subsumeds: &mut Vec<bool>,
    events: &mut GraphEvents<'_>,
    vars: &mut Handler,
    list: &Vec<(usize, Vec<usize>)>,
) -> (r: Result<bool, VariableError>)
    requires
        old(vars).wf(),
        old(subsumeds)@.len() == old(constraints)@.len(),
        wired_up(old(constraints)@, old(events).graph().table(), old(vars)),
        marks_hold(old(constraints)@, old(subsumeds)@, old(vars)),
        old(events).events().len() == 0,
        forall|p: int|
            0 <= p < old(constraints)@.len() ==> #[trigger] settled(
                old(constraints)@,
                old(subsumeds)@,
                old(vars),
                p,
            ) || listed_from(work_view(list@), 0, p),
    ensures
        final(vars).wf(),
        narrowed(old(vars), final(vars)),
        final(constraints)@ == old(constraints)@,
        marks_grow(old(subsumeds)@, final(subsumeds)@),
        marks_hold(final(constraints)@, final(subsumeds)@, final(vars)),
        forall|s: Handler| #[trigger]
            below(old(vars), &s) && common(old(constraints)@, &s) ==> r is Ok && narrowed(final(vars), &s),
        final(events).graph() == old(events).graph(),
        all_atomic(final(events).events()),
        wired_up(final(constraints)@, final(events).graph().table(), final(vars)),
        r is Ok ==> forall|p: int|
            0 <= p < old(constraints)@.len() ==> #[trigger] settled(
                final(constraints)@,
                final(subsumeds)@,
                final(vars),
                p,
            ) || woken_by(final(events).graph().table(), final(events).events(), p),
        r == Ok::<bool, VariableError>(true) ==> final(vars).measure() < old(vars).measure(),
        r == Ok::<bool, VariableError>(false) ==> final(events).events().len() == 0,
{
    let ghost before = *vars;
    let ghost cs = constraints@;
    let ghost subs = subsumeds@;
    let ghost table = events.graph().table();
    let ghost work = work_view(list@);
    let n: usize = constraints.len();
    let mut changed = false;
    let mut k: usize = 0;
    while k < list.len()
        invariant
            before == *old(vars),
            cs == old(constraints)@,
            subs == old(subsumeds)@,
            table == old(events).graph().table(),
            work == work_view(list@),
            before.wf(),
            vars.wf(),
            narrowed(&before, vars),
            constraints@ == cs,
            n == cs.len(),
            subs.len() == n,
            k <= list@.len(),
            marks_grow(subs, subsumeds@),
            marks_hold(cs, subsumeds@, vars),
            forall|s: Handler| #[trigger] below(&before, &s) && common(cs, &s) ==> narrowed(vars, &s),
            events.graph() == old(events).graph(),
            all_atomic(events.events()),
            wired_up(cs, table, vars),
            forall|p: int|
                0 <= p < n ==> #[trigger] settled(cs, subsumeds@, vars, p) || listed_from(
                    work,
                    k as int,
                    p,
                ) || woken_by(table, events.events(), p),
            changed ==> vars.measure() < before.measure(),
            !changed ==> events.events().len() == 0,
        decreases list@.len() - k,
    {
        let ghost held = *vars;
        let ghost marks = subsumeds@;
        let ghost seen = events.events();
        let idx: usize = list[k].0;
        proof {
            assert(work[k as int].0 == idx);
        }
        if idx < n && !subsumeds[idx] {
            let sources = views_of(vars, &list[k].1);
            let outcome = run(constraints, subsumeds, events, vars, idx, sources);
            proof {
                assert forall|s: Handler| #[trigger]
                    below(&before, &s) && common(cs, &s) implies outcome is Ok && narrowed(
                    vars,
                    &s,
                ) by {
                    assert(below(&held, &s));
                    assert(cs[idx as int].at_fixpoint(&s));
                }
                crate::constraints::lemma_narrowed_twice(&before, &held, vars);
                crate::variables::handlers::default_handler::lemma_narrowing_measure(
                    before,
                    held,
                    0,
                );
                crate::variables::handlers::default_handler::lemma_narrowing_measure(
                    held,
                    *vars,
                    0,
                );
            }
            match outcome {
                Err(e) => {
                    return Err(e);
                },
                Ok(narrowed_now) => {
                    if narrowed_now {
                        changed = true;
                    }
                },
            }
        }
        proof {
            let ran = idx < n && !marks[idx as int];
            assert forall|p: int| 0 <= p < n implies #[trigger] settled(cs, subsumeds@, vars, p)
                || listed_from(work, k + 1, p) || woken_by(table, events.events(), p) by {
                assert(settled(cs, marks, &held, p) || listed_from(work, k as int, p) || woken_by(
                    table,
                    seen,
                    p,
                ));
                if p == idx {
                    if !ran {
                        assert(marks[p]);
                        assert(subsumeds@ == marks);
                    }
                } else if settled(cs, marks, &held, p) || woken_by(table, seen, p) {
                    if !ran {
                        assert(subsumeds@ == marks);
                        assert(*vars == held);
                        assert(events.events() == seen);
                    }
                } else {
                    let j = choose|j: int| k <= j < work.len() && (#[trigger] work[j]).0 == p;
                    assert(j != k);
                    assert(k + 1 <= j < work.len() && work[j].0 == p);
                }
            }
        }
        k = k + 1;
    }
    proof {
        assert forall|p: int| 0 <= p < n implies #[trigger] settled(cs, subsumeds@, vars, p)
            || woken_by(table, events.events(), p) by {
            if listed_from(work, k as int, p) {
            }
        }
    }
    Ok(changed)
}

/// A propagator that the events wake has its entry in the work list that
/// the events give.
proof fn lemma_woken_is_listed(table: Seq<EdgeList>, events: Seq<Event>, p: int)
    requires
        woken_by(table, events, p),
        0 <= p <= usize::MAX,
    ensures
        listed_from(dispatch(table, events), 0, p),
{
    let i = choose|i: int|
        0 <= i < events.len() && wakes(table, (#[trigger] events[i]).src, events[i].event).contains(
            p as usize,
        ) && events[i].from != p;
    lemma_dispatch_entry(table, events, i, p as usize);
    let list = dispatch(table, events);
    let k = choose|k: int| 0 <= k < list.len() && (#[trigger] list[k]).0 == p as usize;
    assert(0 <= k < list.len() && list[k].0 == p);
}

impl DefaultConstraintsHandler {
    /// Whether the propagator at `idx` belongs to the store `vars` and has
    /// its dependencies in the graph.
    fn check_one(&self, vars: &Handler, idx: usize) -> (r: bool)
        requires
            vars.layout_wf(),
            idx < self.constraints().len(),
        ensures
            r == (fits(&self.constraints()[idx as int], vars) && covered(
                self.table(),
                &self.constraints()[idx as int],
                vars,
                idx,
            )),
    {
        let c = &self.constraints[idx];
        if !c.check(vars) {
            return false;
        }
        let reads = c.reads();
        let views = c.observed();
        let mut i: usize = 0;
        while i < views.len()
            invariant
                vars.layout_wf(),
                idx < self.constraints().len(),
                *c == self.constraints()[idx as int],
                views@ == c.views(),
                reads == c.reads_values(),
                fits(c, vars),
                i <= views@.len(),
                forall|k: int|
                    0 <= k < i ==> {
                        let f = vars.slot(#[trigger] c.views()[k])->0 as usize;
                        &&& wired(self.table(), f, VariableState::MinBoundChange, idx)
                        &&& wired(self.table(), f, VariableState::MaxBoundChange, idx)
                        &&& c.reads_values() ==> wired(
                            self.table(),
                            f,
                            VariableState::ValuesChange,
                            idx,
                        )
                    },
            decreases views@.len() - i,
        {
            let f = vars.variable_id(&views[i]).unwrap();
            let wired_here = self.graph.has_edge(f, VariableState::MinBoundChange, idx)
                && self.graph.has_edge(f, VariableState::MaxBoundChange, idx) && (!reads
                || self.graph.has_edge(f, VariableState::ValuesChange, idx));
            if !wired_here {
                proof {
                    let g = vars.slot(c.views()[i as int])->0 as usize;
                    assert(g == f);
                    assert(!(wired(self.table(), g, VariableState::MinBoundChange, idx) && wired(
                        self.table(),
                        g,
                        VariableState::MaxBoundChange,
                        idx,
                    ) && (c.reads_values() ==> wired(
                        self.table(),
                        g,
                        VariableState::ValuesChange,
                        idx,
                    ))));
                    assert(!covered(self.table(), c, vars, idx));
                }
                return false;
            }
            i = i + 1;
        }
        true
    }

    /// Whether the handler is one for the store `vars`: its propagators
    /// belong to the store and have their dependencies in the graph, and
    /// those that are marked as subsumed are entailed.
    pub fn check(&self, vars: &Handler) -> (r: bool)
        requires
            vars.wf(),
        ensures
            r == self.wf(vars),
    {
        if self.subsumeds.len() != self.constraints.len() {
            return false;
        }
        let mut idx: usize = 0;
        while idx < self.constraints.len()
            invariant
                vars.wf(),
                self.subsumeds@.len() == self.constraints@.len(),
                idx <= self.constraints@.len(),
                forall|p: int|
                    0 <= p < idx ==> fits(&#[trigger] self.constraints()[p], vars) && covered(
                        self.table(),
                        &self.constraints()[p],
                        vars,
                        p as usize,
                    ),
                forall|p: int|
                    0 <= p < idx && #[trigger] self.subsumed()[p] ==> self.constraints()[p].entailed(
                        vars,
                    ),
            decreases self.constraints@.len() - idx,
        {
            if !self.check_one(vars, idx) {
                assert(!(fits(&self.constraints()[idx as int], vars) && covered(
                    self.table(),
                    &self.constraints()[idx as int],
                    vars,
                    idx as int as usize,
                )));
                return false;
            }
            if self.subsumeds[idx] && !self.constraints[idx].is_entailed(vars) {
                assert(self.subsumed()[idx as int] && !self.constraints()[idx as int].entailed(
                    vars,
                ));
                return false;
            }
            idx = idx + 1;
        }
        true
    }

    /// The number of propagators.
    pub fn len(&self) -> (r: usize)
        ensures
            r == self.constraints().len(),
    {
        self.constraints.len()
    }

    /// Whether the propagator at `idx` is subsumed.
    pub fn is_subsumed(&self, idx: usize) -> (r: bool)
        requires
            idx < self.subsumed().len(),
        ensures
            r == self.subsumed()[idx as int],
    {
        self.subsumeds[idx]
    }

    /// Narrows the store to the fixed point of all propagators together: a
    /// first round in which every propagator that is not subsumed runs, then
    /// rounds in which those run that the changes of the round before woke,
    /// until a round wakes none. The report of a success is `FixPoint` with
    /// an empty list: what has changed is read from the store.
    #[verifier::rlimit(50)]
    pub fn propagate_all(&mut self, variables: &mut Handler) -> (r: Result<
        PropagationState,
        VariableError,
    >)
        requires
            old(variables).wf(),
            old(self).wf(old(variables)),
        ensures
            final(variables).wf(),
            narrowed(old(variables), final(variables)),
            final(self).constraints() == old(self).constraints(),
            final(self).table() == old(self).table(),
            final(self).wf(final(variables)),
            marks_grow(old(self).subsumed(), final(self).subsumed()),
            r is Ok ==> final(self).quiescent(final(variables)),
            r is Ok ==> common(final(self).constraints(), final(variables)),
            r is Err <==> forall|s: Handler| #[trigger]
                below(old(variables), &s) ==> !common(old(self).constraints(), &s),
            forall|s: Handler| #[trigger]
                below(old(variables), &s) && common(old(self).constraints(), &s) ==> r is Ok
                    && narrowed(final(variables), &s),
            old(self).quiescent(old(variables)) ==> r is Ok && final(variables).equal_domains(
                old(variables),
            ) && final(self).subsumed() == old(self).subsumed(),
            r matches Ok(state) ==> match state {
                PropagationState::FixPoint(list) => list@.len() == 0,
                _ => false,
            },
    {
        let ghost before = *variables;
        let ghost cs = self.constraints@;
        let ghost subs = self.subsumeds@;
        let ghost table = self.graph.table();
        let ghost rested = forall|p: int|
            0 <= p < cs.len() ==> #[trigger] settled(cs, subs, &before, p);
        assert(rested == self.quiescent(&before));
        let mut events = self.graph.events();
        let first = first_round(
            &mut self.constraints,
            &mut self.subsumeds,
            &mut events,
            variables,
        );
        match first {
            Err(e) => {
                return Err(e);
            },
            Ok(()) => {},
        }
        let ghost sent = events.events();
        let mut work = events.into_iter();
        proof {
            assert(self.constraints.len() == cs.len());
            assert forall|p: int| 0 <= p < cs.len() implies #[trigger] settled(
                cs,
                self.subsumeds@,
                variables,
                p,
            ) || (work matches Some(list) && listed_from(work_view(list@), 0, p)) by {
                if woken_by(table, sent, p) {
                    lemma_woken_is_listed(table, sent, p);
                }
            }
        }
        while work.is_some()
            invariant
                before == *old(variables),
                cs == old(self).constraints@,
                subs == old(self).subsumeds@,
                table == old(self).graph.table(),
                self.graph == old(self).graph,
                rested == old(self).quiescent(old(variables)),
                before.wf(),
                variables.wf(),
                narrowed(&before, variables),
                self.constraints@ == cs,
                subs.len() == cs.len(),
                cs.len() <= usize::MAX,
                marks_grow(subs, self.subsumeds@),
                marks_hold(cs, self.subsumeds@, variables),
                forall|s: Handler| #[trigger]
                    below(&before, &s) && common(cs, &s) ==> narrowed(variables, &s),
                wired_up(cs, table, variables),
                forall|p: int|
                    0 <= p < cs.len() ==> #[trigger] settled(cs, self.subsumeds@, variables, p) || (
                    work matches Some(list) && listed_from(work_view(list@), 0, p)),
                rested ==> work is None && variables.equal_domains(&before) && self.subsumeds@
                    == subs,
            decreases
                    variables.measure(),
                    (if work is Some {
                        1int
                    } else {
                        0int
                    }),
        {
            let ghost held = *variables;
            let list = work.unwrap();
            let mut fresh = self.graph.events();
            let outcome = round(
                &mut self.constraints,
                &mut self.subsumeds,
                &mut fresh,
                variables,
                &list,
            );
            proof {
                crate::constraints::lemma_narrowed_twice(&before, &held, variables);
                crate::variables::handlers::default_handler::lemma_narrowing_measure(
                    held,
                    *variables,
                    0,
                );
                assert forall|s: Handler| #[trigger]
                    below(&before, &s) && common(cs, &s) implies outcome is Ok && narrowed(
                    variables,
                    &s,
                ) by {
                    assert(below(&held, &s));
                }
            }
            let narrowed_now = match outcome {
                Err(e) => {
                    return Err(e);
                },
                Ok(narrowed_now) => narrowed_now,
            };
            let ghost sent = fresh.events();
            work = fresh.into_iter();
            proof {
                if !narrowed_now {
                    assert(dispatch(table, sent).len() == 0);
                }
                assert forall|p: int| 0 <= p < cs.len() implies #[trigger] settled(
                    cs,
                    self.subsumeds@,
                    variables,
                    p,
                ) || (work matches Some(list) && listed_from(work_view(list@), 0, p)) by {
                    if woken_by(table, sent, p) {
                        lemma_woken_is_listed(table, sent, p);
                    }
                }
            }
        }
        proof {
            assert forall|p: int| 0 <= p < cs.len() implies fits(&#[trigger] cs[p], variables) by {}
            lemma_marks_narrowed(cs, self.subsumeds@, variables, variables);
            assert forall|idx: int| 0 <= idx < cs.len() implies (#[trigger] cs[idx]).at_fixpoint(
                variables,
            ) by {
                assert(settled(cs, self.subsumeds@, variables, idx));
            }
            assert(below(&before, variables) && common(cs, variables));
        }
        Ok(PropagationState::FixPoint(Vec::new()))
    }
}

/// Whether the propagators `b` are, one by one, like the propagators `a`.
pub open spec fn all_alike(a: Seq<Constraint>, b: Seq<Constraint>) -> bool {
    &&& a.len() == b.len()
    &&& forall|idx: int| 0 <= idx < a.len() ==> alike(&#[trigger] a[idx], &b[idx])
}

/// Propagators that are like others belong to the same stores, have their
/// dependencies in the same graphs and are settled on the same stores.
pub proof fn lemma_all_alike(
    a: Seq<Constraint>,
    b: Seq<Constraint>,
    table: Seq<EdgeList>,
    subs: Seq<bool>,
    vars: &Handler,
)
    requires
        all_alike(a, b),
    ensures
        wired_up(a, table, vars) == wired_up(b, table, vars),
        marks_hold(a, subs, vars) == marks_hold(b, subs, vars),
        common(a, vars) == common(b, vars),
        forall|idx: int|
            0 <= idx < a.len() ==> #[trigger] settled(a, subs, vars, idx) == settled(
                b,
                subs,
                vars,
                idx,
            ),
{
    assert forall|p: int| 0 <= p < a.len() implies (#[trigger] a[p]).entailed(vars) == b[p].entailed(
        vars,
    ) && a[p].at_fixpoint(vars) == b[p].at_fixpoint(vars) by {
        crate::constraints::lemma_alike(&a[p], &b[p], vars);
    }
    if marks_hold(a, subs, vars) {
        assert forall|p: int| 0 <= p < b.len() && #[trigger] subs[p] implies b[p].entailed(vars) by {
            assert(a[p].entailed(vars));
        }
    }
    if marks_hold(b, subs, vars) {
        assert forall|p: int| 0 <= p < a.len() && #[trigger] subs[p] implies a[p].entailed(vars) by {
            assert(b[p].entailed(vars));
        }
    }
    if common(a, vars) {
        assert forall|p: int| 0 <= p < b.len() implies (#[trigger] b[p]).at_fixpoint(vars) by {
            assert(a[p].at_fixpoint(vars));
        }
    }
    if common(b, vars) {
        assert forall|p: int| 0 <= p < a.len() implies (#[trigger] a[p]).at_fixpoint(vars) by {
            assert(b[p].at_fixpoint(vars));
        }
    }
    assert forall|idx: int| 0 <= idx < a.len() implies (fits(&#[trigger] a[idx], vars) && covered(
        table,
        &a[idx],
        vars,
        idx as usize,
    )) == (fits(&b[idx], vars) && covered(table, &b[idx], vars, idx as usize)) by {
        crate::constraints::lemma_alike(&a[idx], &b[idx], vars);
    }
    if wired_up(a, table, vars) {
        assert forall|idx: int| 0 <= idx < b.len() implies fits(&#[trigger] b[idx], vars)
            && covered(table, &b[idx], vars, idx as usize) by {
            assert(fits(&a[idx], vars) && covered(table, &a[idx], vars, idx as usize));
        }
    }
    if wired_up(b, table, vars) {
        assert forall|idx: int| 0 <= idx < a.len() implies fits(&#[trigger] a[idx], vars)
            && covered(table, &a[idx], vars, idx as usize) by {
            assert(fits(&b[idx], vars) && covered(table, &b[idx], vars, idx as usize));
        }
    }
    assert forall|idx: int| 0 <= idx < a.len() implies #[trigger] settled(a, subs, vars, idx)
        == settled(b, subs, vars, idx) by {
        crate::constraints::lemma_alike(&a[idx], &b[idx], vars);
    }
}

impl Clone for DefaultConstraintsHandler {
    /// A handler with propagators like those of this one and the same
    /// marks, which shares the graph with this one.
    fn clone(&self) -> (r: Self)
        ensures
            all_alike(self.constraints(), r.constraints()),
            r.subsumed() == self.subsumed(),
            r.table() == self.table(),
    {
        let mut subsumeds: Vec<bool> = Vec::new();
        let mut constraints: Vec<Constraint> = Vec::new();
        let mut k: usize = 0;
        while k < self.subsumeds.len()
            invariant
                k <= self.subsumeds@.len(),
                subsumeds@ == self.subsumeds@.take(k as int),
            decreases self.subsumeds@.len() - k,
        {
            subsumeds.push(self.subsumeds[k]);
            assert(self.subsumeds@.take(k + 1) =~= self.subsumeds@.take(k as int).push(
                self.subsumeds@[k as int],
            ));
            k = k + 1;
        }
        assert(self.subsumeds@.take(k as int) =~= self.subsumeds@);
        let mut k: usize = 0;
        while k < self.constraints.len()
            invariant
                k <= self.constraints@.len(),
                constraints@.len() == k,
                forall|idx: int|
                    0 <= idx < k ==> alike(&#[trigger] self.constraints@[idx], &constraints@[idx]),
            decreases self.constraints@.len() - k,
        {
            constraints.push(self.constraints[k].clone());
            k = k + 1;
        }
        DefaultConstraintsHandler { constraints, subsumeds, graph: share_graph(&self.graph) }
    }
}

} // verus!
