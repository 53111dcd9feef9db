//! Branching: the moves that split a search node, the strategies that pick
//! the variable to branch on and the values to try, and the list of
//! branchers of a problem.

use vstd::prelude::*;

use crate::constraints::narrowed;
use crate::variables::handlers::default_handler::Handler;
use crate::variables::int_var::{lemma_bounds_are_values, values_seq, IntVar, IntVarDomainIterator};
use crate::variables::{VariableError, VariableState, ViewIndex};

pub mod handlers;
pub mod values_selector;
pub mod variables_selector;
pub mod brancher;

verus! {

/// A move down the search tree: a narrowing of the domain of one variable.
#[derive(Debug, Clone, Copy)]
pub enum BranchMove {
    /// The variable takes the value.
    SetValue(ViewIndex, i32),
    /// The variable is at most the bound.
    AtMost(ViewIndex, i32),
    /// The variable is more than the bound.
    MoreThan(ViewIndex, i32),
}

impl BranchMove {
    /// The handle of the variable that the move narrows.
    pub open spec fn target(&self) -> ViewIndex {
        match *self {
            BranchMove::SetValue(view, _) => view,
            BranchMove::AtMost(view, _) => view,
            BranchMove::MoreThan(view, _) => view,
        }
    }

    /// Whether the move leaves `v` to the variable.
    pub open spec fn keeps(&self, v: int) -> bool {
        match *self {
            BranchMove::SetValue(_, x) => v == x,
            BranchMove::AtMost(_, bound) => v <= bound,
            BranchMove::MoreThan(_, bound) => v > bound,
        }
    }

    /// The handle of the variable that the move narrows.
    pub fn view(&self) -> (r: ViewIndex)
        ensures
            r == self.target(),
    {
        match *self {
            BranchMove::SetValue(view, _) => view,
            BranchMove::AtMost(view, _) => view,
            BranchMove::MoreThan(view, _) => view,
        }
    }

    /// Narrows the variable of the move to the values that the move keeps.
    /// This fails, and leaves the store as it is, exactly when the move
    /// keeps no value of the variable. A second application changes nothing.
    pub fn apply(&self, vars: &mut Handler) -> (r: Result<VariableState, VariableError>)
        requires
            old(vars).wf(),
            old(vars).slot(self.target()) is Some,
        ensures
            final(vars).wf(),
            narrowed(old(vars), final(vars)),
            forall|f: int|
                0 <= f < old(vars).vars().len() && f != old(vars).slot(self.target())->0
                    ==> final(vars).vars()[f] == old(vars).vars()[f],
            r is Err <==> forall|v: int|
                old(vars).vars()[old(vars).slot(self.target())->0]@.contains(v) ==> !self.keeps(v),
            r is Err ==> final(vars).vars() == old(vars).vars(),
            r is Ok ==> forall|v: int|
                final(vars).vars()[old(vars).slot(self.target())->0]@.contains(v) <==> old(vars).vars()[old(vars).slot(self.target())->0]@.contains(v) && self.keeps(v),
            r == Ok::<VariableState, VariableError>(VariableState::NoChange) <==> forall|v: int|
                old(vars).vars()[old(vars).slot(self.target())->0]@.contains(v) ==> self.keeps(v),
            r == Ok::<VariableState, VariableError>(VariableState::NoChange) ==> final(vars).vars() == old(vars).vars(),
    {
        let ghost before = *vars;
        let view = self.view();
        let f = vars.variable_id(&view).unwrap();
        let ghost x = before.vars()[f as int];
        proof {
            lemma_bounds_are_values(x);
            assert(x@.contains(x.spec_min()));
            assert(x@.contains(x.spec_max()));
        }
        let outcome = match *self {
            BranchMove::SetValue(_, value) => vars.variable_mut(f).set_value(value),
            BranchMove::AtMost(_, bound) => vars.variable_mut(f).update_weak_bsup(bound),
            BranchMove::MoreThan(_, bound) => vars.variable_mut(f).update_strict_binf(bound),
        };
        proof {
            lemma_bounds_are_values(vars.vars()[f as int]);
            let y = vars.vars()[f as int];
            match outcome {
                Err(_) => {
                    assert(vars.vars() =~= before.vars());
                    assert(!self.keeps(x.spec_min()) || !self.keeps(x.spec_max()));
                },
                Ok(state) => {
                    if state == VariableState::NoChange {
                        assert(vars.vars() =~= before.vars());
                        assert forall|v: int| x@.contains(v) implies self.keeps(v) by {
                            assert(y@.contains(v));
                        }
                    } else {
                        assert(y.spec_min() > x.spec_min() || y.spec_max() < x.spec_max());
                        if y.spec_min() > x.spec_min() {
                            assert(!y@.contains(x.spec_min()));
                            assert(!self.keeps(x.spec_min()));
                        } else {
                            assert(!y@.contains(x.spec_max()));
                            assert(!self.keeps(x.spec_max()));
                        }
                    }
                    if let BranchMove::SetValue(_, value) = *self {
                        assert(x@.contains(value as int) && self.keeps(value as int));
                    }
                    if forall|v: int| x@.contains(v) ==> self.keeps(v) {
                        assert(self.keeps(x.spec_min()));
                        assert(self.keeps(x.spec_max()));
                    }
                    if forall|v: int| x@.contains(v) ==> !self.keeps(v) {
                        assert(!self.keeps(x.spec_min()));
                        assert(!self.keeps(x.spec_max()));
                    }
                },
            }
        }
        outcome
    }
}

/// The making of the move that fixes the variable of the handle `view` to a
/// value.
pub open spec fn fix_to(view: ViewIndex) -> spec_fn(int) -> BranchMove {
    |v: int| BranchMove::SetValue(view, v as i32)
}

/// The moves of a branching that were not handed out yet: the values of a
/// variable still to try, or the two halves of its domain.
pub struct Branches {
    view: ViewIndex,
    values: Option<IntVarDomainIterator>,
    middle: i32,
    halves_left: u8,
}

impl Branches {
    /// The handle of the variable that every move narrows.
    pub closed spec fn target(&self) -> ViewIndex {
        self.view
    }

    /// The moves still to come, in the order in which they come.
    pub closed spec fn remaining(&self) -> Seq<BranchMove> {
        match self.values {
            Some(walk) => walk.remaining().map_values(fix_to(self.view)),
            None => if self.halves_left == 2 {
                seq![
                    BranchMove::AtMost(self.view, self.middle),
                    BranchMove::MoreThan(self.view, self.middle),
                ]
            } else if self.halves_left == 1 {
                seq![BranchMove::MoreThan(self.view, self.middle)]
            } else {
                Seq::empty()
            },
        }
    }

    /// The invariant of a branching.
    pub closed spec fn wf(&self) -> bool {
        match self.values {
            Some(walk) => walk.wf(),
            None => self.halves_left <= 2,
        }
    }

    /// The branching that tries the values of `var`, in ascending order.
    pub fn over_values(view: ViewIndex, var: &IntVar) -> (r: Branches)
        requires
            var.wf(),
        ensures
            r.wf(),
            r.target() == view,
            r.remaining() == values_seq(var.intervals()).map_values(fix_to(view)),
    {
        Branches { view, values: Some(var.domain_iter()), middle: 0, halves_left: 0 }
    }

    /// The branching that tries first the values up to `middle`, then those
    /// above it.
    pub fn over_halves(view: ViewIndex, middle: i32) -> (r: Branches)
        ensures
            r.wf(),
            r.target() == view,
            r.remaining() == seq![
                BranchMove::AtMost(view, middle),
                BranchMove::MoreThan(view, middle),
            ],
    {
        Branches { view, values: None, middle, halves_left: 2 }
    }

    /// Hands out the next move, if one is left.
    pub fn next(&mut self) -> (r: Option<BranchMove>)
        requires
            old(self).wf(),
        ensures
            final(self).wf(),
            final(self).target() == old(self).target(),
            old(self).remaining().len() == 0 ==> r is None && final(self).remaining() == old(self).remaining(),
            old(self).remaining().len() > 0 ==> r == Some(old(self).remaining()[0])
                && final(self).remaining() == old(self).remaining().drop_first(),
    {
        let ghost before = self.remaining();
        match &mut self.values {
            Some(walk) => {
                let ghost values = walk.remaining();
                match walk.next() {
                    None => None,
                    Some(v) => {
                        proof {
                            let make = fix_to(self.view);
                            assert(values.drop_first().map_values(make) =~= values.map_values(
                                make,
                            ).drop_first());
                        }
                        Some(BranchMove::SetValue(self.view, v))
                    },
                }
            },
            None => {
                if self.halves_left == 2 {
                    self.halves_left = 1;
                    assert(self.remaining() =~= before.drop_first());
                    Some(BranchMove::AtMost(self.view, self.middle))
                } else if self.halves_left == 1 {
                    self.halves_left = 0;
                    assert(self.remaining() =~= before.drop_first());
                    Some(BranchMove::MoreThan(self.view, self.middle))
                } else {
                    None
                }
            },
        }
    }
}

} // verus!
