//! The strategies that make the moves to try on the variable picked.

use vstd::prelude::*;

use crate::branchers::handlers::{is_fixed, ValuesSelector};
use crate::branchers::{BranchMove, Branches};
use crate::variables::handlers::default_handler::Handler;
use crate::variables::int_var::{values_seq, IntVar};
use crate::variables::ViewIndex;

verus! {

/// The strategy that tries the values of the variable in ascending order:
/// each move fixes the variable to one value.
#[derive(Clone, Copy, Debug)]
pub struct MinValueSelector {}

/// The strategy that splits the domain in two: one move keeps the values up
/// to the middle of the bounds, rounded down, the other those above it.
#[derive(Clone, Copy, Debug)]
pub struct DomainSplitSelector {}

/// The middle of `min` and `max`, rounded down.
pub open spec fn middle(min: int, max: int) -> int {
    (min + max) / 2
}

/// The middle of `min` and `max`, rounded down.
pub fn middle_of(min: i32, max: i32) -> (r: i32)
    requires
        min <= max,
    ensures
        r == middle(min as int, max as int),
        min <= r <= max,
        min < max ==> r < max,
{
    let sum: i64 = min as i64 + max as i64;
    let half: i64 = if sum >= 0 {
        sum / 2
    } else {
        -((-sum + 1) / 2)
    };
    half as i32
}

impl MinValueSelector {
    /// The strategy; it has no parameter.
    pub fn new() -> (r: MinValueSelector) {
        MinValueSelector {  }
    }
}

impl DomainSplitSelector {
    /// The strategy; it has no parameter.
    pub fn new() -> (r: DomainSplitSelector) {
        DomainSplitSelector {  }
    }
}

impl ValuesSelector for MinValueSelector {
    open spec fn moves(&self, var: IntVar, view: ViewIndex) -> Seq<BranchMove> {
        values_seq(var.intervals()).map_values(crate::branchers::fix_to(view))
    }

    fn select(&mut self, variables: &Handler, view: ViewIndex) -> (r: Option<Branches>) {
        let var = variables.get_variable(&view);
        if var.is_fixed() {
            None
        } else {
            Some(Branches::over_values(view, var))
        }
    }
}

impl ValuesSelector for DomainSplitSelector {
    open spec fn moves(&self, var: IntVar, view: ViewIndex) -> Seq<BranchMove> {
        seq![
            BranchMove::AtMost(view, middle(var.spec_min(), var.spec_max()) as i32),
            BranchMove::MoreThan(view, middle(var.spec_min(), var.spec_max()) as i32),
        ]
    }

    fn select(&mut self, variables: &Handler, view: ViewIndex) -> (r: Option<Branches>) {
        let var = variables.get_variable(&view);
        if var.is_fixed() {
            None
        } else {
            proof {
                crate::variables::int_var::lemma_bounds_are_values(*var);
            }
            Some(Branches::over_halves(view, middle_of(var.min(), var.max())))
        }
    }
}

/// Which of the two strategies makes the moves.
#[derive(Clone, Copy, Debug)]
pub enum ValueSelection {
    /// The values in ascending order.
    MinValue(MinValueSelector),
    /// The two halves of the domain.
    DomainSplit(DomainSplitSelector),
}

impl ValuesSelector for ValueSelection {
    open spec fn moves(&self, var: IntVar, view: ViewIndex) -> Seq<BranchMove> {
        match self {
            ValueSelection::MinValue(s) => s.moves(var, view),
            ValueSelection::DomainSplit(s) => s.moves(var, view),
        }
    }

    fn select(&mut self, variables: &Handler, view: ViewIndex) -> (r: Option<Branches>) {
        match self {
            ValueSelection::MinValue(s) => s.select(variables, view),
            ValueSelection::DomainSplit(s) => s.select(variables, view),
        }
    }
}

/// Every move that a strategy makes for a variable that is not fixed leaves
/// out a value of the variable, and every value of the variable is kept by
/// one of the moves, and by one only.
pub proof fn lemma_moves_split_and_cover(selection: ValueSelection, var: IntVar, view: ViewIndex)
    requires
        var.wf(),
        var.spec_min() < var.spec_max(),
    ensures
        selection.moves(var, view).len() > 0,
        forall|k: int|
            0 <= k < selection.moves(var, view).len() ==> crate::branchers::handlers::splits(
                #[trigger] selection.moves(var, view)[k],
                var,
                view,
            ),
        crate::branchers::handlers::covers(selection.moves(var, view), var),
        crate::branchers::handlers::apart(selection.moves(var, view)),
{
    crate::variables::int_var::lemma_bounds_are_values(var);
    crate::variables::int_var::lemma_values_seq(var.intervals());
    let list = selection.moves(var, view);
    let values = values_seq(var.intervals());
    match selection {
        ValueSelection::MinValue(_) => {
            assert(values.contains(var.spec_min()));
            assert forall|k: int| 0 <= k < list.len() implies crate::branchers::handlers::splits(
                #[trigger] list[k],
                var,
                view,
            ) by {
                let x = values[k];
                if x == var.spec_min() {
                    assert(var@.contains(var.spec_max()) && !list[k].keeps(var.spec_max()));
                } else {
                    assert(var@.contains(var.spec_min()) && !list[k].keeps(var.spec_min()));
                }
            }
            assert forall|v: int| var@.contains(v) implies exists|k: int|
                0 <= k < list.len() && (#[trigger] list[k]).keeps(v) by {
                assert(values.contains(v));
                let k = choose|k: int| 0 <= k < values.len() && values[k] == v;
                assert(list[k].keeps(v));
            }
        },
        ValueSelection::DomainSplit(_) => {
            let mid = middle(var.spec_min(), var.spec_max());
            assert(var.spec_min() <= mid < var.spec_max());
            assert(var@.contains(var.spec_max()) && !list[0].keeps(var.spec_max()));
            assert(var@.contains(var.spec_min()) && !list[1].keeps(var.spec_min()));
            assert forall|v: int| var@.contains(v) implies exists|k: int|
                0 <= k < list.len() && (#[trigger] list[k]).keeps(v) by {
                if v <= mid {
                    assert(list[0].keeps(v));
                } else {
                    assert(list[1].keeps(v));
                }
            }
        },
    }
}

} // verus!
