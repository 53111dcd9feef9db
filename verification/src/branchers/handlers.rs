//! What the parts of a brancher are: a strategy that picks the variable, a
//! strategy that picks the values, and the brancher made of the two.

use vstd::prelude::*;

use crate::branchers::Branches;
use crate::constraints::resolves;
use crate::variables::handlers::default_handler::Handler;
use crate::variables::int_var::IntVar;
use crate::variables::ViewIndex;

verus! {

/// Whether the variable that `view` leads to in `vars` is down to one value.
pub open spec fn is_fixed(vars: &Handler, view: ViewIndex) -> bool {
    vars.vars()[vars.slot(view)->0].spec_min() == vars.vars()[vars.slot(view)->0].spec_max()
}

/// Whether every variable that the handles `views` lead to in `vars` is down
/// to one value.
pub open spec fn all_fixed(vars: &Handler, views: Seq<ViewIndex>) -> bool {
    forall|i: int| 0 <= i < views.len() ==> is_fixed(vars, #[trigger] views[i])
}

/// A strategy that picks, among its candidates, the variable to branch on.
pub trait VariableSelector {
    /// The handles of the candidates, in their order.
    spec fn candidates(&self) -> Seq<ViewIndex>;

    /// Whether the strategy picks the candidate at the position `i`.
    spec fn picks(&self, vars: &Handler, i: int) -> bool;

    /// Picks a candidate that is not fixed; none where all are fixed.
    fn select(&mut self, variables: &Handler) -> (r: Option<ViewIndex>)
        requires
            variables.wf(),
            resolves(old(self).candidates(), variables),
        ensures
            final(self).candidates() == old(self).candidates(),
            r is None <==> all_fixed(variables, old(self).candidates()),
            r matches Some(view) ==> exists|i: int|
                0 <= i < old(self).candidates().len() && old(self).picks(variables, i) && view
                    == #[trigger] old(self).candidates()[i] && !is_fixed(variables, view),
    ;

    /// A copy of the handles of the candidates.
    fn views(&self) -> (r: Vec<ViewIndex>)
        ensures
            r@ == self.candidates(),
    ;
}

/// A strategy that makes the moves to try on the variable picked.
pub trait ValuesSelector {
    /// The moves for the variable `var` with the handle `view`, in the order
    /// in which they are tried.
    spec fn moves(&self, var: IntVar, view: ViewIndex) -> Seq<crate::branchers::BranchMove>;

    /// The moves to try on the variable that `view` leads to; none where the
    /// variable is fixed.
    fn select(&mut self, variables: &Handler, view: ViewIndex) -> (r: Option<Branches>)
        requires
            variables.wf(),
            variables.slot(view) is Some,
        ensures
            r is None <==> is_fixed(variables, view),
            r matches Some(branches) ==> branches.wf() && branches.target() == view
                && branches.remaining() == old(self).moves(
                variables.vars()[variables.slot(view)->0],
                view,
            ),
            forall|var: IntVar, any: ViewIndex| #[trigger]
                final(self).moves(var, any) == old(self).moves(var, any),
    ;
}

/// A brancher: it picks a variable that is not fixed and makes the moves to
/// try on it.
pub trait Brancher {
    /// The handles of the variables that the brancher may pick.
    spec fn candidates(&self) -> Seq<ViewIndex>;

    /// Whether, on the store `vars`, the brancher branches on the variable
    /// of the handle `view` with the moves `moves`, in that order.
    spec fn offers(
        &self,
        vars: &Handler,
        view: ViewIndex,
        moves: Seq<crate::branchers::BranchMove>,
    ) -> bool;

    /// The moves to try next; none where every candidate is fixed.
    fn branch(&mut self, variables: &Handler) -> (r: Option<Branches>)
        requires
            variables.wf(),
            resolves(old(self).candidates(), variables),
        ensures
            final(self).candidates() == old(self).candidates(),
            r is None <==> all_fixed(variables, old(self).candidates()),
            r matches Some(branches) ==> branches.wf() && variables.slot(branches.target()) is Some
                && !is_fixed(variables, branches.target()) && branches.remaining().len() > 0
                && forall|k: int|
                0 <= k < branches.remaining().len() ==> splits(
                    #[trigger] branches.remaining()[k],
                    variables.vars()[variables.slot(branches.target())->0],
                    branches.target(),
                ),
            r matches Some(branches) ==> old(self).candidates().contains(branches.target())
                && covers(
                branches.remaining(),
                variables.vars()[variables.slot(branches.target())->0],
            ),
            r matches Some(branches) ==> old(self).offers(
                variables,
                branches.target(),
                branches.remaining(),
            ),
    ;
}

/// Whether no value is kept by two of the moves `moves`.
pub open spec fn apart(moves: Seq<crate::branchers::BranchMove>) -> bool {
    forall|j: int, k: int, v: int|
        0 <= j < k < moves.len() ==> !(#[trigger] moves[j].keeps(v) && #[trigger] moves[k].keeps(v))
}

/// Whether every value of `var` is kept by one of the moves `moves`.
pub open spec fn covers(moves: Seq<crate::branchers::BranchMove>, var: IntVar) -> bool {
    forall|v: int|
        var@.contains(v) ==> exists|k: int| 0 <= k < moves.len() && (#[trigger] moves[k]).keeps(v)
}

/// Whether `m` is a move on the variable `var` with the handle `view` that
/// leaves out a value of `var`.
pub open spec fn splits(m: crate::branchers::BranchMove, var: IntVar, view: ViewIndex) -> bool {
    m.target() == view && exists|v: int| var@.contains(v) && !m.keeps(v)
}

} // verus!
