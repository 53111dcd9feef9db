//! A search node: the store of the variables with the handler of the
//! constraints and the branchers that work on it.

use vstd::prelude::*;

use crate::branchers::brancher::{nothing_left, same_candidates, BranchersHandler};
use crate::branchers::handlers::{is_fixed, splits, Brancher};
use crate::branchers::{BranchMove, Branches};
use crate::constraints::handlers::{
    all_alike, common, lemma_all_alike, lemma_wired_up_layout, marks_grow,
    DefaultConstraintsHandler,
};
use crate::constraints::{narrowed, resolves, PropagationState, Propagator};
use crate::variables::handlers::default_handler::{lemma_narrowing_measure, Handler};
use crate::variables::{VariableError, VariableState};

verus! {

/// A search node.
pub struct Space {
    variables: Handler,
    constraints: DefaultConstraintsHandler,
    branchers: BranchersHandler,
}

/// Two stores with the same tables and, place by place, the same domains
/// hold as many values together, and one is at rest if the other is.
pub proof fn lemma_equal_domains(a: &Handler, b: &Handler)
    requires
        a.equal_domains(b),
    ensures
        a.wf() == b.wf(),
        b.equal_domains(a),
        a.wf() ==> a.measure() == b.measure() && narrowed(a, b) && narrowed(b, a),
{
    assert forall|f: int| 0 <= f < a.vars().len() implies (#[trigger] b.vars()[f]).intervals()
        == a.vars()[f].intervals() && b.vars()[f].spec_min() == a.vars()[f].spec_min()
        && b.vars()[f].spec_max() == a.vars()[f].spec_max() by {
        assert(a.vars()[f].intervals() == b.vars()[f].intervals());
    }
    if a.wf() {
        assert forall|f: int| 0 <= f < b.vars().len() implies (#[trigger] b.vars()[f]).wf() by {
            assert(a.vars()[f].wf());
        }
    }
    if b.wf() {
        assert forall|f: int| 0 <= f < a.vars().len() implies (#[trigger] a.vars()[f]).wf() by {
            assert(b.vars()[f].wf());
        }
    }
    if a.wf() {
        assert forall|f: int, v: int|
            0 <= f < a.vars().len() && #[trigger] b.vars()[f]@.contains(v) implies a.vars()[f]@.contains(
            v,
        ) by {
            assert(a.vars()[f].intervals() == b.vars()[f].intervals());
        }
        assert forall|f: int, v: int|
            0 <= f < a.vars().len() && #[trigger] a.vars()[f]@.contains(v) implies b.vars()[f]@.contains(
            v,
        ) by {
            assert(a.vars()[f].intervals() == b.vars()[f].intervals());
        }
        lemma_narrowing_measure(*a, *b, 0);
        lemma_narrowing_measure(*b, *a, 0);
    }
}

impl Space {
    /// The store of the variables.
    pub closed spec fn variables(&self) -> Handler {
        self.variables
    }

    /// The handler of the constraints.
    pub closed spec fn constraints(&self) -> DefaultConstraintsHandler {
        self.constraints
    }

    /// The branchers.
    pub closed spec fn branchers(&self) -> BranchersHandler {
        self.branchers
    }

    /// The invariant of a search node: the store is at rest, and the
    /// constraints and the branchers are those of the store.
    pub open spec fn wf(&self) -> bool {
        &&& self.variables().wf()
        &&& self.constraints().wf(&self.variables())
        &&& self.branchers().wf(&self.variables())
    }

    /// Whether the node is a solution: every propagator that is not subsumed
    /// is at rest, and every candidate of every brancher is fixed.
    pub open spec fn solved(&self) -> bool {
        &&& self.wf()
        &&& self.constraints().quiescent(&self.variables())
        &&& nothing_left(self.branchers().branchers(), &self.variables())
    }

    /// Whether the store `s` is a solution of the problem of the node: a
    /// store at rest within the domains of the node on which every
    /// propagator is at its fixed point and every candidate of every
    /// brancher is fixed.
    pub open spec fn admits(&self, s: &Handler) -> bool {
        &&& crate::constraints::below(&self.variables(), s)
        &&& common(self.constraints().constraints(), s)
        &&& nothing_left(self.branchers().branchers(), s)
    }

    /// Whether `other` is a node further down the search tree, or this node:
    /// the same problem with domains narrowed.
    pub open spec fn leads_to(&self, other: &Space) -> bool {
        &&& narrowed(&self.variables(), &other.variables())
        &&& all_alike(self.constraints().constraints(), other.constraints().constraints())
        &&& other.constraints().table() == self.constraints().table()
        &&& marks_grow(self.constraints().subsumed(), other.constraints().subsumed())
        &&& same_candidates(self.branchers().branchers(), other.branchers().branchers())
    }

    /// The node of the three. There is none where the constraints or the
    /// branchers are not those of the store.
    pub fn new(
        variables: Handler,
        constraints: DefaultConstraintsHandler,
        branchers: BranchersHandler,
    ) -> (r: Option<Space>)
        requires
            variables.wf(),
        ensures
            r is Some <==> constraints.wf(&variables) && branchers.wf(&variables),
            r matches Some(space) ==> space.wf() && space.variables() == variables
                && space.constraints() == constraints && space.branchers() == branchers,
    {
        if constraints.check(&variables) && branchers.check(&variables) {
            Some(Space { variables, constraints, branchers })
        } else {
            None
        }
    }

    /// The store of the variables.
    pub fn get_variables(&self) -> (r: &Handler)
        ensures
            *r == self.variables(),
    {
        &self.variables
    }

    /// The handler of the constraints.
    pub fn get_constraints(&self) -> (r: &DefaultConstraintsHandler)
        ensures
            *r == self.constraints(),
    {
        &self.constraints
    }

    /// Narrows the store to the fixed point of all propagators together.
    pub fn propagate(&mut self) -> (r: Result<PropagationState, VariableError>)
        requires
            old(self).wf(),
        ensures
            final(self).wf(),
            old(self).leads_to(final(self)),
            final(self).branchers() == old(self).branchers(),
            r is Ok ==> final(self).constraints().quiescent(&final(self).variables()),
            r is Ok ==> common(final(self).constraints().constraints(), &final(self).variables()),
            old(self).constraints().quiescent(&old(self).variables()) ==> r is Ok && final(self).variables().equal_domains(&old(self).variables()),
            forall|s: Handler| #[trigger]
                crate::constraints::below(&old(self).variables(), &s) && common(
                    old(self).constraints().constraints(),
                    &s,
                ) ==> r is Ok && narrowed(&final(self).variables(), &s),
    {
        let ghost before = self.variables;
        let ghost entry = *self;
        let outcome = self.constraints.propagate_all(&mut self.variables);
        proof {
            lemma_parts_follow(&entry, &self.variables);
            lemma_all_alike_self(self.constraints.constraints());
        }
        outcome
    }

    /// The moves to try next; none where every candidate is fixed.
    pub fn branch(&mut self) -> (r: Option<Branches>)
        requires
            old(self).wf(),
        ensures
            final(self).wf(),
            final(self).variables() == old(self).variables(),
            final(self).constraints() == old(self).constraints(),
            same_candidates(old(self).branchers().branchers(), final(self).branchers().branchers()),
            r is None <==> nothing_left(old(self).branchers().branchers(), &old(self).variables()),
            r matches Some(branches) ==> branches.wf() && old(self).variables().slot(
                branches.target(),
            ) is Some && !is_fixed(&old(self).variables(), branches.target())
                && branches.remaining().len() > 0 && forall|k: int|
                0 <= k < branches.remaining().len() ==> splits(
                    #[trigger] branches.remaining()[k],
                    old(self).variables().vars()[old(self).variables().slot(branches.target())->0],
                    branches.target(),
                ),
            r matches Some(branches) ==> crate::branchers::brancher::is_candidate(
                old(self).branchers().branchers(),
                branches.target(),
            ) && crate::branchers::handlers::covers(
                branches.remaining(),
                old(self).variables().vars()[old(self).variables().slot(branches.target())->0],
            ),
            r matches Some(branches) ==> crate::branchers::handlers::apart(branches.remaining())
                && crate::branchers::brancher::first_offer(
                old(self).branchers().branchers(),
                &old(self).variables(),
                branches.target(),
                branches.remaining(),
            ),
    {
        self.branchers.branch(&self.variables)
    }

    /// Narrows the variable of the move `m` to the values that the move
    /// keeps.
    pub fn apply(&mut self, m: &BranchMove) -> (r: Result<VariableState, VariableError>)
        requires
            old(self).wf(),
            old(self).variables().slot(m.target()) is Some,
        ensures
            final(self).wf(),
            old(self).leads_to(final(self)),
            final(self).constraints() == old(self).constraints(),
            final(self).branchers() == old(self).branchers(),
            r is Err ==> final(self).variables().vars() == old(self).variables().vars(),
            r is Err <==> forall|v: int|
                old(self).variables().vars()[old(self).variables().slot(m.target())->0]@.contains(v)
                    ==> !m.keeps(v),
            r == Ok::<VariableState, VariableError>(VariableState::NoChange) <==> forall|v: int|
                old(self).variables().vars()[old(self).variables().slot(m.target())->0]@.contains(v)
                    ==> m.keeps(v),
            (r is Ok && r != Ok::<VariableState, VariableError>(VariableState::NoChange))
                ==> final(self).variables().measure() < old(self).variables().measure(),
            r is Ok ==> forall|v: int|
                final(self).variables().vars()[old(self).variables().slot(m.target())->0]@.contains(
                    v,
                ) <==> old(self).variables().vars()[old(self).variables().slot(
                    m.target(),
                )->0]@.contains(v) && m.keeps(v),
            forall|f: int|
                0 <= f < old(self).variables().vars().len() && f != old(self).variables().slot(
                    m.target(),
                )->0 ==> final(self).variables().vars()[f] == old(self).variables().vars()[f],
    {
        let ghost before = self.variables;
        let ghost entry = *self;
        let outcome = m.apply(&mut self.variables);
        proof {
            let f = before.slot(m.target())->0;
            crate::variables::handlers::default_handler::lemma_slot_fits(before, m.target());
            lemma_parts_follow(&entry, &self.variables);
            lemma_all_alike_self(self.constraints.constraints());
            if outcome is Ok && outcome != Ok::<VariableState, VariableError>(
                VariableState::NoChange,
            ) {
                let x = before.vars()[f];
                let y = self.variables.vars()[f];
                let v = choose|v: int| x@.contains(v) && !m.keeps(v);
                assert(!y@.contains(v));
                lemma_narrowing_measure(before, self.variables, f);
            }
        }
        outcome
    }
}

/// The constraints and the branchers of a search node are those of every
/// store below the store of the node.
pub proof fn lemma_parts_follow(space: &Space, vars: &Handler)
    requires
        space.wf(),
        crate::constraints::below(&space.variables(), vars),
    ensures
        space.constraints().wf(vars),
        space.branchers().wf(vars),
{
    let before = space.variables();
    let cs = space.constraints().constraints();
    lemma_wired_up_layout(cs, space.constraints().table(), &before, vars);
    assert forall|idx: int| 0 <= idx < cs.len() implies crate::constraints::fits(
        &#[trigger] cs[idx],
        &before,
    ) by {}
    crate::constraints::handlers::lemma_marks_narrowed(
        cs,
        space.constraints().subsumed(),
        &before,
        vars,
    );
    assert forall|i: int|
        0 <= i < space.branchers().branchers().len() implies resolves(
        (#[trigger] space.branchers().branchers()[i]).candidates(),
        vars,
    ) by {
        let views = space.branchers().branchers()[i].candidates();
        assert(resolves(views, &before));
        assert forall|k: int| 0 <= k < views.len() implies vars.slot(#[trigger] views[k]) is Some by {
            assert(before.slot(views[k]) is Some);
        }
    }
}

/// Propagators are, one by one, like themselves.
pub proof fn lemma_all_alike_self(cs: Seq<crate::constraints::Constraint>)
    ensures
        all_alike(cs, cs),
{
    assert forall|idx: int| 0 <= idx < cs.len() implies crate::constraints::alike(
        &#[trigger] cs[idx],
        &cs[idx],
    ) by {
        lemma_alike_self(&cs[idx]);
    }
}

/// A solution of a node is a solution of every node that the node leads to
/// and whose domains it lies within.
pub proof fn lemma_admits_down(a: &Space, b: &Space, s: &Handler)
    requires
        a.admits(s),
        a.leads_to(b),
        narrowed(&b.variables(), s),
    ensures
        b.admits(s),
{
    lemma_all_alike(
        a.constraints().constraints(),
        b.constraints().constraints(),
        a.constraints().table(),
        a.constraints().subsumed(),
        s,
    );
    let p = a.branchers().branchers();
    let q = b.branchers().branchers();
    assert forall|i: int| 0 <= i < q.len() implies crate::branchers::handlers::all_fixed(
        s,
        (#[trigger] q[i]).candidates(),
    ) by {
        assert(crate::branchers::handlers::all_fixed(s, p[i].candidates()));
    }
}

/// A solution that a search finds down the tree from a node is a solution of
/// the problem of the node.
pub proof fn lemma_found_is_admitted(a: &Space, n: &Space)
    requires
        a.wf(),
        n.solved(),
        a.leads_to(n),
    ensures
        a.admits(&n.variables()),
{
    let cs = n.constraints().constraints();
    let vars = n.variables();
    assert forall|p: int| 0 <= p < cs.len() implies crate::constraints::fits(
        &#[trigger] cs[p],
        &vars,
    ) by {}
    crate::constraints::handlers::lemma_marks_narrowed(
        cs,
        n.constraints().subsumed(),
        &vars,
        &vars,
    );
    assert forall|idx: int| 0 <= idx < cs.len() implies (#[trigger] cs[idx]).at_fixpoint(&vars) by {
        assert(crate::constraints::handlers::settled(cs, n.constraints().subsumed(), &vars, idx));
    }
    lemma_all_alike(
        a.constraints().constraints(),
        cs,
        a.constraints().table(),
        a.constraints().subsumed(),
        &vars,
    );
    let p = a.branchers().branchers();
    let q = n.branchers().branchers();
    assert forall|i: int| 0 <= i < p.len() implies crate::branchers::handlers::all_fixed(
        &vars,
        (#[trigger] p[i]).candidates(),
    ) by {
        assert(crate::branchers::handlers::all_fixed(&vars, q[i].candidates()));
    }
}

/// A solution of a node that fixes the variable of a move to a value that
/// the move keeps is a solution of the node that the move leads to.
pub proof fn lemma_move_keeps_solution(
    current: &Space,
    copy: &Space,
    child: &Space,
    m: BranchMove,
    s: &Handler,
)
    requires
        current.wf(),
        current.admits(s),
        current.leads_to(copy),
        copy.variables().equal_domains(&current.variables()),
        copy.leads_to(child),
        current.variables().slot(m.target()) is Some,
        is_fixed(s, m.target()),
        m.keeps(s.vars()[s.slot(m.target())->0].spec_min()),
        forall|v: int|
            child.variables().vars()[copy.variables().slot(m.target())->0]@.contains(v)
                <==> copy.variables().vars()[copy.variables().slot(m.target())->0]@.contains(v)
                && m.keeps(v),
        forall|f: int|
            0 <= f < copy.variables().vars().len() && f != copy.variables().slot(m.target())->0
                ==> child.variables().vars()[f] == copy.variables().vars()[f],
    ensures
        child.admits(s),
{
    let cur = current.variables();
    crate::variables::handlers::default_handler::lemma_slot_fits(cur, m.target());
    let g = cur.slot(m.target())->0;
    assert(copy.variables().slot(m.target()) == Some(g));
    assert(s.slot(m.target()) == Some(g));
    crate::variables::int_var::lemma_bounds_are_values(s.vars()[g]);
    assert forall|f: int, v: int|
        0 <= f < child.variables().vars().len() && #[trigger] s.vars()[f]@.contains(v) implies child.variables().vars()[f]@.contains(
        v,
    ) by {
        assert(cur.vars()[f]@.contains(v));
        assert(copy.variables().vars()[f].intervals() == cur.vars()[f].intervals());
        assert(copy.variables().vars()[f]@.contains(v));
        if f == g {
            assert(v == s.vars()[g].spec_min());
        }
    }
    crate::search::lemma_leads_to_twice(current, copy, child);
    lemma_admits_down(current, child, s);
}

/// Every constraint is like itself.
pub proof fn lemma_alike_self(c: &crate::constraints::Constraint)
    ensures
        crate::constraints::alike(c, c),
{
}

impl Clone for Space {
    /// A copy of the node that shares nothing with it but the graph: a
    /// change to the copy leaves the node as it is.
    fn clone(&self) -> (r: Self)
        ensures
            self.leads_to(&r),
            r.variables().equal_domains(&self.variables()),
            r.constraints().subsumed() == self.constraints().subsumed(),
            self.wf() ==> r.wf() && r.variables().measure() == self.variables().measure(),
            self.solved() ==> r.solved(),
    {
        let r = Space {
            variables: self.variables.clone(),
            constraints: self.constraints.clone(),
            branchers: self.branchers.clone(),
        };
        proof {
            lemma_equal_domains(&r.variables, &self.variables);
            if self.wf() {
                lemma_copy(self, &r);
            }
        }
        r
    }
}

/// A node with the domains, the propagators, the marks, the graph and the
/// candidates of a search node is a search node, a solution if that one is,
/// and its store holds as many values.
pub proof fn lemma_copy(a: &Space, b: &Space)
    requires
        a.wf(),
        b.variables().equal_domains(&a.variables()),
        all_alike(a.constraints().constraints(), b.constraints().constraints()),
        b.constraints().subsumed() == a.constraints().subsumed(),
        b.constraints().table() == a.constraints().table(),
        same_candidates(a.branchers().branchers(), b.branchers().branchers()),
    ensures
        b.wf(),
        b.variables().measure() == a.variables().measure(),
        a.solved() ==> b.solved(),
{
    lemma_equal_domains(&b.variables(), &a.variables());
    lemma_parts_follow(a, &b.variables());
    let cs = a.constraints().constraints();
    let table = a.constraints().table();
    lemma_all_alike(
        cs,
        b.constraints().constraints(),
        table,
        a.constraints().subsumed(),
        &b.variables(),
    );
    assert forall|i: int|
        0 <= i < b.branchers().branchers().len() implies resolves(
        (#[trigger] b.branchers().branchers()[i]).candidates(),
        &b.variables(),
    ) by {
        assert(resolves(a.branchers().branchers()[i].candidates(), &b.variables()));
    }
    if a.solved() {
        lemma_solved_carries(a, b);
    }
}

/// A node with the domains, the propagators, the marks and the candidates of
/// a solution is a solution.
pub proof fn lemma_solved_carries(a: &Space, b: &Space)
    requires
        a.solved(),
        b.wf(),
        b.variables().equal_domains(&a.variables()),
        all_alike(a.constraints().constraints(), b.constraints().constraints()),
        b.constraints().subsumed() == a.constraints().subsumed(),
        same_candidates(a.branchers().branchers(), b.branchers().branchers()),
    ensures
        b.solved(),
{
    let cs = a.constraints().constraints();
    let ds = b.constraints().constraints();
    let subs = a.constraints().subsumed();
    lemma_equal_domains(&b.variables(), &a.variables());
    lemma_all_alike(cs, ds, a.constraints().table(), subs, &b.variables());
    assert forall|idx: int| 0 <= idx < ds.len() implies #[trigger] crate::constraints::handlers::settled(
        ds,
        subs,
        &b.variables(),
        idx,
    ) by {
        assert(crate::constraints::handlers::settled(cs, subs, &a.variables(), idx));
        if !subs[idx] {
            assert(crate::constraints::fits(&cs[idx], &a.variables()));
            crate::constraints::handlers::lemma_still_quiet(&cs[idx], &a.variables(), &b.variables());
        }
        assert(crate::constraints::handlers::settled(cs, subs, &b.variables(), idx));
    }
    assert forall|i: int|
        0 <= i < b.branchers().branchers().len() implies crate::branchers::handlers::all_fixed(
        &b.variables(),
        (#[trigger] b.branchers().branchers()[i]).candidates(),
    ) by {
        let views = a.branchers().branchers()[i].candidates();
        assert(crate::branchers::handlers::all_fixed(&a.variables(), views));
        assert(resolves(views, &a.variables()));
        assert forall|k: int| 0 <= k < views.len() implies is_fixed(
            &b.variables(),
            #[trigger] views[k],
        ) by {
            assert(is_fixed(&a.variables(), views[k]));
            crate::variables::handlers::default_handler::lemma_slot_fits(a.variables(), views[k]);
        }
    }
}

} // verus!
