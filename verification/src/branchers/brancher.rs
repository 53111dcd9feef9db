//! The default brancher: a strategy that picks the variable and a strategy
//! that makes the moves.

use vstd::prelude::*;

use crate::branchers::handlers::{apart, Brancher, ValuesSelector, VariableSelector};
use crate::branchers::values_selector::{lemma_moves_split_and_cover, ValueSelection};
use crate::branchers::variables_selector::VariableSelection;
use crate::branchers::{BranchMove, Branches};
use crate::constraints::resolves;
use crate::variables::handlers::default_handler::{lemma_slot_fits, Handler};
use crate::variables::ViewIndex;

verus! {

/// A brancher made of a strategy that picks the variable and a strategy
/// that makes the moves.
#[derive(Debug)]
pub struct DefaultBrancher {
    variables_selector: VariableSelection,
    values_selector: ValueSelection,
}

impl DefaultBrancher {
    /// The strategy that picks the variable.
    pub closed spec fn variables_selector(&self) -> VariableSelection {
        self.variables_selector
    }

    /// The strategy that makes the moves.
    pub closed spec fn values_selector(&self) -> ValueSelection {
        self.values_selector
    }

    /// The brancher of the two strategies.
    pub fn new(variables_selector: VariableSelection, values_selector: ValueSelection) -> (r: Option<
        DefaultBrancher,
    >)
        ensures
            r matches Some(b) && b.variables_selector() == variables_selector
                && b.values_selector() == values_selector,
    {
        Some(DefaultBrancher { variables_selector, values_selector })
    }

    /// A copy of the handles of the candidates.
    pub fn views(&self) -> (r: Vec<ViewIndex>)
        ensures
            r@ == self.candidates(),
    {
        self.variables_selector.views()
    }
}

impl Clone for DefaultBrancher {
    /// A copy with the same strategies over the same candidates.
    fn clone(&self) -> (r: Self)
        ensures
            r.candidates() == self.candidates(),
            r.values_selector() == self.values_selector(),
    {
        DefaultBrancher {
            variables_selector: self.variables_selector.clone(),
            values_selector: self.values_selector,
        }
    }
}

impl Brancher for DefaultBrancher {
    open spec fn candidates(&self) -> Seq<ViewIndex> {
        self.variables_selector().candidates()
    }

    /// The variable is the one that the first strategy picks, and the moves
    /// are those that the second strategy makes for it.
    open spec fn offers(&self, vars: &Handler, view: ViewIndex, moves: Seq<BranchMove>) -> bool {
        &&& exists|i: int|
            0 <= i < self.candidates().len() && self.variables_selector().picks(vars, i) && view
                == #[trigger] self.candidates()[i]
        &&& moves == self.values_selector().moves(vars.vars()[vars.slot(view)->0], view)
    }

    fn branch(&mut self, variables: &Handler) -> (r: Option<Branches>)
        ensures
            r matches Some(branches) ==> apart(branches.remaining()),
    {
        let ghost moves_before = self.values_selector;
        let ghost views = self.variables_selector.candidates();
        match self.variables_selector.select(variables) {
            None => None,
            Some(view) => {
                let branches = self.values_selector.select(variables, view);
                proof {
                    let var = variables.vars()[variables.slot(view)->0];
                    let i = choose|i: int| 0 <= i < views.len() && view == #[trigger] views[i];
                    assert(views.contains(view));
                    lemma_slot_fits(*variables, view);
                    lemma_moves_split_and_cover(moves_before, var, view);
                }
                branches
            },
        }
    }
}

/// A list of branchers under construction.
pub struct BranchersHandlerBuilder {
    branchers: Vec<DefaultBrancher>,
}

/// The branchers of a problem, in their order: the moves to try next are
/// those of the first brancher that has a variable left to branch on.
pub struct BranchersHandler {
    branchers: Vec<DefaultBrancher>,
}

impl BranchersHandlerBuilder {
    /// The branchers added so far.
    pub closed spec fn branchers(&self) -> Seq<DefaultBrancher> {
        self.branchers@
    }

    /// A builder without branchers.
    pub fn new() -> (r: Self)
        ensures
            r.branchers() == Seq::<DefaultBrancher>::empty(),
    {
        BranchersHandlerBuilder { branchers: Vec::new() }
    }

    /// Adds a brancher after those added before.
    pub fn add(&mut self, brancher: DefaultBrancher)
        ensures
            final(self).branchers() == old(self).branchers().push(brancher),
    {
        self.branchers.push(brancher);
    }

    /// The list of the branchers added.
    pub fn finalize(self) -> (r: BranchersHandler)
        ensures
            r.branchers() == self.branchers(),
    {
        BranchersHandler { branchers: self.branchers }
    }
}

/// Whether the candidates of every brancher of `branchers` are fixed in
/// `vars`.
pub open spec fn nothing_left(branchers: Seq<DefaultBrancher>, vars: &Handler) -> bool {
    forall|i: int|
        0 <= i < branchers.len() ==> crate::branchers::handlers::all_fixed(
            vars,
            (#[trigger] branchers[i]).candidates(),
        )
}

/// Whether `view` is a candidate of one of the branchers `branchers`.
pub open spec fn is_candidate(branchers: Seq<DefaultBrancher>, view: ViewIndex) -> bool {
    exists|i: int| 0 <= i < branchers.len() && (#[trigger] branchers[i]).candidates().contains(view)
}

/// Whether the first of the branchers `branchers` that has a candidate that
/// is not fixed in `vars` branches on the variable of the handle `view` with
/// the moves `moves`.
pub open spec fn first_offer(
    branchers: Seq<DefaultBrancher>,
    vars: &Handler,
    view: ViewIndex,
    moves: Seq<BranchMove>,
) -> bool {
    exists|k: int|
        0 <= k < branchers.len() && (#[trigger] branchers[k]).offers(vars, view, moves) && forall|
            i: int,
        |
            0 <= i < k ==> crate::branchers::handlers::all_fixed(
                vars,
                (#[trigger] branchers[i]).candidates(),
            )
}

/// Whether the branchers `after` have, one by one, the candidates of the
/// branchers `before`.
pub open spec fn same_candidates(before: Seq<DefaultBrancher>, after: Seq<DefaultBrancher>) -> bool {
    &&& after.len() == before.len()
    &&& forall|i: int|
        0 <= i < before.len() ==> (#[trigger] after[i]).candidates() == before[i].candidates()
}

impl BranchersHandler {
    /// The branchers, in their order.
    pub closed spec fn branchers(&self) -> Seq<DefaultBrancher> {
        self.branchers@
    }

    /// The invariant of a list of branchers for the store `vars`: every
    /// candidate leads to a variable of the store.
    pub open spec fn wf(&self, vars: &Handler) -> bool {
        forall|i: int|
            0 <= i < self.branchers().len() ==> resolves(
                (#[trigger] self.branchers()[i]).candidates(),
                vars,
            )
    }

    /// Whether the list is one for the store `vars`.
    pub fn check(&self, vars: &Handler) -> (r: bool)
        requires
            vars.layout_wf(),
        ensures
            r == self.wf(vars),
    {
        let mut k: usize = 0;
        while k < self.branchers.len()
            invariant
                vars.layout_wf(),
                k <= self.branchers@.len(),
                forall|i: int|
                    0 <= i < k ==> resolves((#[trigger] self.branchers()[i]).candidates(), vars),
            decreases self.branchers@.len() - k,
        {
            let views = self.branchers[k].views();
            if !crate::constraints::check_views(vars, &views) {
                assert(!resolves(self.branchers()[k as int].candidates(), vars));
                return false;
            }
            k = k + 1;
        }
        true
    }

    /// The moves to try next: those of the first brancher that has a
    /// candidate that is not fixed; none where no brancher has one.
    pub fn branch(&mut self, variables: &Handler) -> (r: Option<Branches>)
        requires
            variables.wf(),
            old(self).wf(variables),
        ensures
            same_candidates(old(self).branchers(), final(self).branchers()),
            r is None <==> nothing_left(old(self).branchers(), variables),
            r matches Some(branches) ==> branches.wf() && variables.slot(branches.target()) is Some
                && !crate::branchers::handlers::is_fixed(variables, branches.target())
                && branches.remaining().len() > 0 && forall|k: int|
                0 <= k < branches.remaining().len() ==> crate::branchers::handlers::splits(
                    #[trigger] branches.remaining()[k],
                    variables.vars()[variables.slot(branches.target())->0],
                    branches.target(),
                ),
            r matches Some(branches) ==> is_candidate(old(self).branchers(), branches.target())
                && crate::branchers::handlers::covers(
                branches.remaining(),
                variables.vars()[variables.slot(branches.target())->0],
            ),
            r matches Some(branches) ==> apart(branches.remaining()) && first_offer(
                old(self).branchers(),
                variables,
                branches.target(),
                branches.remaining(),
            ),
    {
        let ghost before = self.branchers@;
        proof {
            assert forall|i: int| 0 <= i < before.len() implies resolves(
                (#[trigger] before[i]).candidates(),
                variables,
            ) by {
                assert(resolves(self.branchers()[i].candidates(), variables));
            }
        }
        let mut k: usize = 0;
        while k < self.branchers.len()
            invariant
                variables.wf(),
                before == old(self).branchers@,
                same_candidates(before, self.branchers@),
                k <= self.branchers@.len(),
                forall|i: int| k <= i < before.len() ==> #[trigger] self.branchers@[i] == before[i],
                forall|i: int| 0 <= i < before.len() ==> resolves((#[trigger] before[i]).candidates(), variables),
                forall|i: int|
                    0 <= i < k ==> crate::branchers::handlers::all_fixed(
                        variables,
                        (#[trigger] before[i]).candidates(),
                    ),
            decreases self.branchers@.len() - k,
        {
            let ghost held = self.branchers@;
            assert(held[k as int].candidates() == before[k as int].candidates());
            let found = self.branchers[k].branch(variables);
            proof {
                assert forall|i: int| 0 <= i < before.len() implies (#[trigger] self.branchers@[i]).candidates()
                    == before[i].candidates() by {
                    if i != k {
                        assert(self.branchers@[i] == held[i]);
                    }
                }
            }
            if found.is_some() {
                assert(!crate::branchers::handlers::all_fixed(
                    variables,
                    before[k as int].candidates(),
                ));
                assert(before[k as int].candidates().contains(found->0.target()));
                assert(before[k as int].offers(
                    variables,
                    found->0.target(),
                    found->0.remaining(),
                ));
                return found;
            }
            k = k + 1;
        }
        None
    }
}

impl Clone for BranchersHandler {
    /// A list of copies of the branchers, with the same candidates.
    fn clone(&self) -> (r: Self)
        ensures
            same_candidates(self.branchers(), r.branchers()),
    {
        let mut branchers: Vec<DefaultBrancher> = Vec::new();
        let mut k: usize = 0;
        while k < self.branchers.len()
            invariant
                k <= self.branchers@.len(),
                branchers@.len() == k,
                forall|i: int|
                    0 <= i < k ==> (#[trigger] branchers@[i]).candidates()
                        == self.branchers@[i].candidates(),
            decreases self.branchers@.len() - k,
        {
            branchers.push(self.branchers[k].clone());
            k = k + 1;
        }
        BranchersHandler { branchers }
    }
}

} // verus!
