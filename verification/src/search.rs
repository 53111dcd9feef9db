//! Depth-first search with backtracking over the search nodes.

use vstd::prelude::*;

use crate::branchers::handlers::{is_fixed, splits, Brancher};
use crate::constraints::Propagator;
use crate::branchers::BranchMove;
use crate::constraints::{lemma_narrowed_twice, narrowed};
use crate::spaces::{
    lemma_admits_down, lemma_found_is_admitted, lemma_move_keeps_solution, Space,
};
use crate::variables::handlers::default_handler::{lemma_narrowing_measure, Handler};
use crate::variables::VariableState;

verus! {

/// Being further down the search tree carries over from a first node to a
/// third by way of a second.
pub proof fn lemma_leads_to_twice(a: &Space, b: &Space, c: &Space)
    requires
        a.leads_to(b),
        b.leads_to(c),
    ensures
        a.leads_to(c),
{
    lemma_narrowed_twice(&a.variables(), &b.variables(), &c.variables());
    let x = a.constraints().constraints();
    let y = b.constraints().constraints();
    let z = c.constraints().constraints();
    assert forall|idx: int| 0 <= idx < x.len() implies crate::constraints::alike(
        &#[trigger] x[idx],
        &z[idx],
    ) by {
        assert(crate::constraints::alike(&x[idx], &y[idx]));
        assert(crate::constraints::alike(&y[idx], &z[idx]));
    }
    let p = a.branchers().branchers();
    let q = b.branchers().branchers();
    let r = c.branchers().branchers();
    assert forall|i: int| 0 <= i < p.len() implies (#[trigger] r[i]).candidates()
        == p[i].candidates() by {
        assert(q[i].candidates() == p[i].candidates());
    }
    assert forall|i: int|
        0 <= i < a.constraints().subsumed().len() && #[trigger] a.constraints().subsumed()[i]
        implies c.constraints().subsumed()[i] by {
        assert(b.constraints().subsumed()[i]);
    }
}

/// The value that the store `s` leaves to the variable of the handle `view`.
pub open spec fn value_in(s: &Handler, view: crate::variables::ViewIndex) -> int {
    s.vars()[s.slot(view)->0].spec_min()
}

/// Whether one of the nodes of `found` from the position `from` on has the
/// store `s` among the solutions of its problem.
pub open spec fn finds(found: Seq<Space>, from: int, s: &Handler) -> bool {
    exists|i: int| from <= i < found.len() && (#[trigger] found[i]).admits(s)
}

/// Whether no store is a solution of the problems of two of the nodes of
/// `found` from the position `from` on.
pub open spec fn no_overlap(found: Seq<Space>, from: int) -> bool {
    forall|i: int, j: int, s: Handler|
        from <= i < j < found.len() ==> !(#[trigger] found[i].admits(&s)
            && #[trigger] found[j].admits(&s))
}

/// Whether one of the first `done` moves of `moves` keeps the value `v`.
pub open spec fn kept_before(moves: Seq<BranchMove>, done: int, v: int) -> bool {
    exists|j: int| 0 <= j < done && (#[trigger] moves[j]).keeps(v)
}

/// A solution of a node below the node that a move led to gives the
/// variable of the move a value that the move keeps.
proof fn lemma_solution_is_kept(copy: &Space, child: &Space, n: &Space, m: BranchMove, s: &Handler)
    requires
        copy.variables().wf(),
        copy.variables().slot(m.target()) is Some,
        narrowed(&copy.variables(), &child.variables()),
        forall|v: int|
            child.variables().vars()[copy.variables().slot(m.target())->0]@.contains(v)
                ==> m.keeps(v),
        child.leads_to(n),
        n.admits(s),
    ensures
        m.keeps(value_in(s, m.target())),
{
    crate::variables::handlers::default_handler::lemma_slot_fits(copy.variables(), m.target());
    let f = copy.variables().slot(m.target())->0;
    assert(s.slot(m.target()) == Some(f));
    crate::variables::int_var::lemma_bounds_are_values(s.vars()[f]);
    let v = value_in(s, m.target());
    assert(s.vars()[f]@.contains(v));
    assert(n.variables().vars()[f]@.contains(v));
    assert(child.variables().vars()[f]@.contains(v));
}

/// Searches the tree below the node `space` depth first: propagates, then
/// either takes the node for a solution, where the branchers have no move
/// left, or tries the moves in their order, each on a copy of the node.
/// The solutions are appended to `found` in the order in which they are
/// met. With `first_only` set the search stops at the first solution. Tells
/// whether the search was stopped. A solution is found exactly when the
/// problem of the node has one, and a search that is not stopped at the
/// first solution leaves no solution of the problem out: each lies within
/// one of the nodes found, and within one only.
#[verifier::rlimit(50)]
fn explore(space: Space, first_only: bool, found: &mut Vec<Space>) -> (stopped: bool)
    requires
        space.wf(),
        forall|i: int| 0 <= i < old(found)@.len() ==> (#[trigger] old(found)@[i]).solved(),
    ensures
        final(found)@.len() >= old(found)@.len(),
        final(found)@.take(old(found)@.len() as int) == old(found)@,
        forall|i: int| 0 <= i < final(found)@.len() ==> (#[trigger] final(found)@[i]).solved(),
        forall|i: int|
            old(found)@.len() <= i < final(found)@.len() ==> space.leads_to(
                &#[trigger] final(found)@[i],
            ),
        stopped ==> first_only && final(found)@.len() > old(found)@.len(),
        first_only ==> final(found)@.len() <= old(found)@.len() + 1,
        first_only && final(found)@.len() > old(found)@.len() ==> stopped,
        (exists|s: Handler| #[trigger] space.admits(&s)) ==> final(found)@.len() > old(found)@.len(),
        !first_only ==> forall|s: Handler| #[trigger]
            space.admits(&s) ==> finds(final(found)@, old(found)@.len() as int, &s),
        no_overlap(final(found)@, old(found)@.len() as int),
    decreases space.variables().measure(),
{
    let ghost entry = space;
    let ghost start = found@;
    let mut current = space;
    let propagated = current.propagate();
    proof {
        assert forall|s: Handler| #[trigger] entry.admits(&s) implies propagated is Ok
            && current.admits(&s) by {
            assert(crate::constraints::below(&entry.variables(), &s));
            lemma_admits_down(&entry, &current, &s);
        }
    }
    if propagated.is_err() {
        assert(found@.take(start.len() as int) =~= start);
        return false;
    }
    proof {
        lemma_narrowing_measure(entry.variables(), current.variables(), 0);
    }
    let ghost node = current;
    let mut moves = match current.branch() {
        None => {
            proof {
                assert(current.solved());
            }
            found.push(current);
            proof {
                assert(found@.take(start.len() as int) =~= start);
                assert forall|i: int| 0 <= i < found@.len() implies (#[trigger] found@[i]).solved() by {
                    if i < start.len() {
                        assert(found@[i] == start[i]);
                    }
                }
                assert forall|s: Handler| #[trigger] entry.admits(&s) implies finds(
                    found@,
                    start.len() as int,
                    &s,
                ) by {
                    assert(found@[start.len() as int].admits(&s));
                }
            }
            return first_only;
        },
        Some(moves) => moves,
    };
    let ghost target = moves.target();
    let ghost var = node.variables().vars()[node.variables().slot(target)->0];
    let ghost all = moves.remaining();
    let ghost done: int = 0;
    proof {
        assert(all.skip(0) =~= all);
        lemma_leads_to_same(&entry, &node, &current);
        lemma_leads_to_same(&node, &node, &current);
        assert(crate::branchers::brancher::is_candidate(
            current.branchers().branchers(),
            target,
        )) by {
            let p = node.branchers().branchers();
            let q = current.branchers().branchers();
            let i = choose|i: int| 0 <= i < p.len() && (#[trigger] p[i]).candidates().contains(target);
            assert(q[i].candidates().contains(target));
        }
        assert forall|s: Handler| #[trigger] current.admits(&s) implies is_fixed(&s, target)
            && exists|k: int|
            0 <= k < moves.remaining().len() && (#[trigger] moves.remaining()[k]).keeps(
                value_in(&s, target),
            ) by {
            lemma_candidate_fixed(&current, &s, target);
            crate::variables::handlers::default_handler::lemma_slot_fits(
                current.variables(),
                target,
            );
            let g = current.variables().slot(target)->0;
            crate::variables::int_var::lemma_bounds_are_values(s.vars()[g]);
            assert(s.vars()[g]@.contains(value_in(&s, target)));
            assert(var@.contains(value_in(&s, target)));
        }
        assert forall|s: Handler| #[trigger] entry.admits(&s) implies current.admits(&s) by {
            assert(node.admits(&s));
            lemma_admits_down(&node, &current, &s);
        }
    }
    loop
        invariant
            entry == space,
            entry.wf(),
            current.wf(),
            entry.leads_to(&current),
            current.variables() == node.variables(),
            current.variables().measure() <= entry.variables().measure(),
            moves.wf(),
            moves.target() == target,
            node.variables().slot(target) is Some,
            var == node.variables().vars()[node.variables().slot(target)->0],
            forall|k: int|
                0 <= k < moves.remaining().len() ==> splits(
                    #[trigger] moves.remaining()[k],
                    var,
                    target,
                ),
            start == old(found)@,
            found@.len() >= start.len(),
            found@.take(start.len() as int) == start,
            forall|i: int| 0 <= i < found@.len() ==> (#[trigger] found@[i]).solved(),
            forall|i: int| start.len() <= i < found@.len() ==> entry.leads_to(&#[trigger] found@[i]),
            first_only ==> found@.len() == start.len(),
            0 <= done <= all.len(),
            moves.remaining() == all.skip(done),
            crate::branchers::handlers::apart(all),
            no_overlap(found@, start.len() as int),
            forall|i: int, s: Handler|
                start.len() <= i < found@.len() && #[trigger] found@[i].admits(&s) ==> kept_before(
                    all,
                    done,
                    value_in(&s, target),
                ),
            forall|s: Handler| #[trigger] entry.admits(&s) ==> current.admits(&s),
            forall|s: Handler| #[trigger]
                current.admits(&s) ==> finds(found@, start.len() as int, &s) || (is_fixed(
                    &s,
                    target,
                ) && exists|k: int|
                    0 <= k < moves.remaining().len() && (#[trigger] moves.remaining()[k]).keeps(
                        value_in(&s, target),
                    )),
        decreases moves.remaining().len(),
    {
        let ghost left = moves.remaining();
        let ghost count = found@.len();
        let m = match moves.next() {
            None => {
                proof {
                    assert forall|s: Handler| #[trigger] entry.admits(&s) implies finds(
                        found@,
                        start.len() as int,
                        &s,
                    ) by {
                        assert(current.admits(&s));
                    }
                }
                return false;
            },
            Some(m) => m,
        };
        proof {
            assert(m == all[done]);
            assert(moves.remaining() =~= all.skip(done + 1));
            assert(splits(left[0], var, target));
            assert forall|k: int| 0 <= k < moves.remaining().len() implies splits(
                #[trigger] moves.remaining()[k],
                var,
                target,
            ) by {
                assert(moves.remaining()[k] == left[k + 1]);
            }
        }
        let mut child = current.clone();
        let ghost copy = child;
        proof {
            crate::variables::handlers::default_handler::lemma_slot_fits(
                current.variables(),
                target,
            );
            let f = current.variables().slot(target)->0;
            assert(copy.variables().slot(target) == Some(f));
            assert(copy.variables().vars()[f].intervals() == var.intervals());
            assert(copy.variables().vars()[f]@ =~= var@);
            let v = choose|v: int| var@.contains(v) && !m.keeps(v);
            assert(copy.variables().vars()[f]@.contains(v) && !m.keeps(v));
        }
        let outcome = child.apply(&m);
        let ghost sent = child;
        let mut stop = false;
        let ghost held = found@;
        if outcome.is_ok() {
            proof {
                assert(outcome != Ok::<VariableState, crate::variables::VariableError>(
                    VariableState::NoChange,
                ));
                lemma_leads_to_twice(&current, &copy, &child);
                lemma_leads_to_twice(&entry, &current, &child);
            }
            let stopped = explore(child, first_only, found);
            proof {
                assert(found@.take(start.len() as int) =~= start) by {
                    assert forall|i: int| 0 <= i < start.len() implies found@[i] == start[i] by {
                        assert(found@.take(held.len() as int)[i] == found@[i]);
                        assert(held.take(start.len() as int)[i] == held[i]);
                    }
                }
                assert forall|i: int| start.len() <= i < found@.len() implies entry.leads_to(
                    &#[trigger] found@[i],
                ) by {
                    if i < held.len() {
                        assert(found@.take(held.len() as int)[i] == found@[i]);
                    } else {
                        lemma_leads_to_twice(&entry, &sent, &found@[i]);
                    }
                }
            }
            stop = stopped;
        }
        proof {
            assert forall|i: int, s: Handler|
                start.len() <= i < found@.len() && #[trigger] found@[i].admits(&s) implies kept_before(
                all,
                done + 1,
                value_in(&s, target),
            ) by {
                if i < held.len() {
                    assert(found@.take(held.len() as int)[i] == found@[i]);
                    assert(held[i].admits(&s));
                    assert(kept_before(all, done, value_in(&s, target)));
                    let j = choose|j: int|
                        0 <= j < done && (#[trigger] all[j]).keeps(value_in(&s, target));
                    assert(all[j].keeps(value_in(&s, target)));
                } else {
                    lemma_solution_is_kept(&copy, &sent, &found@[i], m, &s);
                    assert(all[done].keeps(value_in(&s, target)));
                }
            }
            assert forall|i: int, j: int, s: Handler|
                start.len() <= i < j < found@.len() implies !(#[trigger] found@[i].admits(&s)
                && #[trigger] found@[j].admits(&s)) by {
                if found@[i].admits(&s) && found@[j].admits(&s) {
                    if j < held.len() {
                        assert(found@.take(held.len() as int)[i] == found@[i]);
                        assert(found@.take(held.len() as int)[j] == found@[j]);
                        assert(held[i].admits(&s) && held[j].admits(&s));
                    } else if i < held.len() {
                        assert(found@.take(held.len() as int)[i] == found@[i]);
                        assert(held[i].admits(&s));
                        assert(kept_before(all, done, value_in(&s, target)));
                        let k = choose|k: int|
                            0 <= k < done && (#[trigger] all[k]).keeps(value_in(&s, target));
                        lemma_solution_is_kept(&copy, &sent, &found@[j], m, &s);
                        assert(all[k].keeps(value_in(&s, target)) && all[done].keeps(
                            value_in(&s, target),
                        ));
                    }
                }
            }
            done = done + 1;
        }
        if stop {
            return true;
        }
        proof {
            assert forall|s: Handler| #[trigger] current.admits(&s) implies finds(
                found@,
                start.len() as int,
                &s,
            ) || (is_fixed(&s, target) && exists|k: int|
                0 <= k < moves.remaining().len() && (#[trigger] moves.remaining()[k]).keeps(
                    value_in(&s, target),
                )) by {
                if finds(held, start.len() as int, &s) {
                    let i = choose|i: int|
                        start.len() <= i < held.len() && (#[trigger] held[i]).admits(&s);
                    assert(found@.take(held.len() as int)[i] == found@[i]);
                    assert(found@[i].admits(&s));
                } else {
                    let k = choose|k: int|
                        0 <= k < left.len() && (#[trigger] left[k]).keeps(value_in(&s, target));
                    if k == 0 {
                        let f = current.variables().slot(target)->0;
                        crate::variables::int_var::lemma_bounds_are_values(s.vars()[f]);
                        assert(s.vars()[f]@.contains(value_in(&s, target)));
                        assert(var@.contains(value_in(&s, target)));
                        assert(outcome is Ok);
                        lemma_move_keeps_solution(&current, &copy, &sent, m, &s);
                        assert(sent.admits(&s));
                        if !first_only {
                            let i = choose|i: int|
                                held.len() <= i < found@.len() && (#[trigger] found@[i]).admits(&s);
                            assert(found@[i].admits(&s));
                        }
                    } else {
                        assert(moves.remaining()[k - 1] == left[k]);
                    }
                }
            }
        }
    }
}

/// A solution of a node fixes every candidate of the branchers of the node.
proof fn lemma_candidate_fixed(space: &Space, s: &Handler, target: crate::variables::ViewIndex)
    requires
        space.admits(s),
        crate::branchers::brancher::is_candidate(space.branchers().branchers(), target),
    ensures
        is_fixed(s, target),
{
    let b = space.branchers().branchers();
    let i = choose|i: int| 0 <= i < b.len() && (#[trigger] b[i]).candidates().contains(target);
    let views = b[i].candidates();
    assert(crate::branchers::handlers::all_fixed(s, views));
    let k = choose|k: int| 0 <= k < views.len() && views[k] == target;
    assert(is_fixed(s, views[k]));
}

/// A node with the store of another one leads where that one leads.
proof fn lemma_leads_to_same(entry: &Space, node: &Space, space: &Space)
    requires
        entry.leads_to(node),
        space.variables() == node.variables(),
        space.constraints() == node.constraints(),
        crate::branchers::brancher::same_candidates(
            node.branchers().branchers(),
            space.branchers().branchers(),
        ),
    ensures
        entry.leads_to(space),
{
    let p = entry.branchers().branchers();
    let q = node.branchers().branchers();
    let r = space.branchers().branchers();
    assert forall|i: int| 0 <= i < p.len() implies (#[trigger] r[i]).candidates()
        == p[i].candidates() by {
        assert(q[i].candidates() == p[i].candidates());
    }
}

/// In every solution that a solver holds, every propagator that is not
/// subsumed is at rest: it is at its fixed point and not entailed, which is
/// when a run of it reports no change and does not fail.
pub proof fn lemma_solution_is_at_rest(solver: &Solver, i: int, p: int)
    requires
        solver.wf(),
        0 <= i < solver.found().len(),
        0 <= p < solver.found()[i].constraints().constraints().len(),
        !solver.found()[i].constraints().subsumed()[p],
    ensures
        solver.found()[i].constraints().constraints()[p].at_fixpoint(
            &solver.found()[i].variables(),
        ),
        !solver.found()[i].constraints().constraints()[p].entailed(&solver.found()[i].variables()),
{
    let node = solver.found()[i];
    assert(node.solved());
    crate::constraints::handlers::lemma_quiescent_is_at_rest(
        &node.constraints(),
        &node.variables(),
        p,
    );
}

/// The search for solutions of a problem, from its root node.
pub struct Solver {
    root: Space,
    solutions: Vec<Space>,
}

impl Solver {
    /// The root node.
    pub closed spec fn root(&self) -> Space {
        self.root
    }

    /// The solutions found by the last search, in the order in which they
    /// were met.
    pub closed spec fn found(&self) -> Seq<Space> {
        self.solutions@
    }

    /// The invariant of a solver: the root is a search node, and what it
    /// holds as solutions are solutions down the tree from the root.
    pub open spec fn wf(&self) -> bool {
        &&& self.root().wf()
        &&& forall|i: int|
            0 <= i < self.found().len() ==> (#[trigger] self.found()[i]).solved()
                && self.root().leads_to(&self.found()[i])
    }

    /// The solver for the problem of the node `space`.
    pub fn new(space: Space) -> (r: Solver)
        requires
            space.wf(),
        ensures
            r.wf(),
            r.root() == space,
            r.found().len() == 0,
    {
        Solver { root: space, solutions: Vec::new() }
    }

    /// Searches for a first solution, and tells whether there is one.
    pub fn solve(&mut self) -> (r: bool)
        requires
            old(self).wf(),
        ensures
            final(self).wf(),
            final(self).root() == old(self).root(),
            r == (final(self).found().len() == 1),
            !r ==> final(self).found().len() == 0,
            r <==> exists|s: Handler| #[trigger] old(self).root().admits(&s),
    {
        let mut found: Vec<Space> = Vec::new();
        let start = self.root.clone();
        let _ = explore(start, true, &mut found);
        proof {
            assert forall|i: int| 0 <= i < found@.len() implies (#[trigger] found@[i]).solved()
                && self.root.leads_to(&found@[i]) by {
                lemma_leads_to_twice(&self.root, &start, &found@[i]);
            }
            assert forall|s: Handler| #[trigger] self.root.admits(&s) implies start.admits(&s) by {
                assert(start.variables().equal_domains(&self.root.variables()));
                crate::spaces::lemma_equal_domains(&start.variables(), &self.root.variables());
                lemma_narrowed_twice(&start.variables(), &self.root.variables(), &s);
                lemma_admits_down(&self.root, &start, &s);
            }
            if found@.len() > 0 {
                lemma_found_is_admitted(&self.root, &found@[0]);
            }
        }
        self.solutions = found;
        self.solutions.len() == 1
    }

    /// Searches for every solution, and tells how many nodes it found them
    /// in. No solution of the problem is left out: each lies within one of
    /// the nodes found, and within one only.
    pub fn solve_all(&mut self) -> (r: usize)
        requires
            old(self).wf(),
        ensures
            final(self).wf(),
            final(self).root() == old(self).root(),
            r == final(self).found().len(),
            r > 0 <==> exists|s: Handler| #[trigger] old(self).root().admits(&s),
            forall|s: Handler| #[trigger]
                old(self).root().admits(&s) ==> finds(final(self).found(), 0, &s),
            no_overlap(final(self).found(), 0),
    {
        let mut found: Vec<Space> = Vec::new();
        let start = self.root.clone();
        let _ = explore(start, false, &mut found);
        proof {
            assert forall|i: int| 0 <= i < found@.len() implies (#[trigger] found@[i]).solved()
                && self.root.leads_to(&found@[i]) by {
                lemma_leads_to_twice(&self.root, &start, &found@[i]);
            }
            assert forall|s: Handler| #[trigger] self.root.admits(&s) implies start.admits(&s) by {
                assert(start.variables().equal_domains(&self.root.variables()));
                crate::spaces::lemma_equal_domains(&start.variables(), &self.root.variables());
                lemma_narrowed_twice(&start.variables(), &self.root.variables(), &s);
                lemma_admits_down(&self.root, &start, &s);
            }
            if found@.len() > 0 {
                lemma_found_is_admitted(&self.root, &found@[0]);
            }
        }
        self.solutions = found;
        self.solutions.len()
    }

    /// The store of the first solution that the last search found.
    pub fn solution(&self) -> (r: Option<&Handler>)
        ensures
            r is Some <==> self.found().len() > 0,
            r matches Some(vars) ==> *vars == self.found()[0].variables(),
    {
        if self.solutions.len() > 0 {
            Some(self.solutions[0].get_variables())
        } else {
            None
        }
    }

    /// The store of the solution at `i` among those that the last search
    /// found.
    pub fn solution_at(&self, i: usize) -> (r: Option<&Handler>)
        ensures
            r is Some <==> i < self.found().len(),
            r matches Some(vars) ==> *vars == self.found()[i as int].variables(),
    {
        if i < self.solutions.len() {
            Some(self.solutions[i].get_variables())
        } else {
            None
        }
    }
}

} // verus!
