//! The strategies that pick the variable to branch on.

use vstd::prelude::*;

use crate::branchers::handlers::{is_fixed, VariableSelector};
use crate::constraints::resolves;
use crate::variables::handlers::default_handler::Handler;
use crate::variables::{find_clash, pairwise_disjoint, ViewIndex};

verus! {

/// The strategy that picks the first candidate that is not fixed.
#[derive(Debug)]
pub struct SequentialVariableSelector {
    variables: Vec<ViewIndex>,
}

/// The strategy that picks, among the candidates that are not fixed, the
/// one with the fewest values, and of several of these the first.
#[derive(Debug)]
pub struct SmallestDomainVariableSelector {
    variables: Vec<ViewIndex>,
}

/// A copy of a list of handles.
fn copy_of(views: &Vec<ViewIndex>) -> (r: Vec<ViewIndex>)
    ensures
        r@ == views@,
{
    let mut r: Vec<ViewIndex> = Vec::new();
    let mut k: usize = 0;
    while k < views.len()
        invariant
            k <= views@.len(),
            r@ == views@.take(k as int),
        decreases views@.len() - k,
    {
        r.push(views[k]);
        assert(views@.take(k + 1) =~= views@.take(k as int).push(views@[k as int]));
        k = k + 1;
    }
    assert(views@.take(k as int) =~= views@);
    r
}

impl SequentialVariableSelector {
    /// The strategy over the candidates `variables`, in their order. There
    /// is none where one of the handles is a subview of another.
    pub fn new(variables: Vec<ViewIndex>) -> (r: Result<SequentialVariableSelector, ()>)
        ensures
            r is Ok <==> pairwise_disjoint(variables@),
            r matches Ok(s) ==> s.candidates() == variables@,
    {
        match find_clash(&variables) {
            Ok(()) => Ok(SequentialVariableSelector { variables }),
            Err(_) => Err(()),
        }
    }
}

impl Clone for SequentialVariableSelector {
    /// A copy with the same candidates.
    fn clone(&self) -> (r: Self)
        ensures
            r.candidates() == self.candidates(),
    {
        SequentialVariableSelector { variables: copy_of(&self.variables) }
    }
}

impl VariableSelector for SequentialVariableSelector {
    closed spec fn candidates(&self) -> Seq<ViewIndex> {
        self.variables@
    }

    /// The candidate at `i` is picked when it is not fixed and every one
    /// before it is.
    open spec fn picks(&self, vars: &Handler, i: int) -> bool {
        &&& !is_fixed(vars, self.candidates()[i])
        &&& forall|j: int| 0 <= j < i ==> is_fixed(vars, #[trigger] self.candidates()[j])
    }

    fn select(&mut self, variables: &Handler) -> (r: Option<ViewIndex>) {
        let mut k: usize = 0;
        while k < self.variables.len()
            invariant
                variables.wf(),
                resolves(self.variables@, variables),
                k <= self.variables@.len(),
                forall|j: int| 0 <= j < k ==> is_fixed(variables, #[trigger] self.variables@[j]),
            decreases self.variables@.len() - k,
        {
            let view = self.variables[k];
            if !variables.get_variable(&view).is_fixed() {
                assert(self.picks(variables, k as int));
                assert(!is_fixed(variables, self.candidates()[k as int]));
                return Some(view);
            }
            k = k + 1;
        }
        None
    }

    fn views(&self) -> (r: Vec<ViewIndex>) {
        copy_of(&self.variables)
    }
}

impl SmallestDomainVariableSelector {
    /// The strategy over the candidates `variables`, in their order. There
    /// is none where one of the handles is a subview of another.
    pub fn new(variables: Vec<ViewIndex>) -> (r: Result<SmallestDomainVariableSelector, ()>)
        ensures
            r is Ok <==> pairwise_disjoint(variables@),
            r matches Ok(s) ==> s.candidates() == variables@,
    {
        match find_clash(&variables) {
            Ok(()) => Ok(SmallestDomainVariableSelector { variables }),
            Err(_) => Err(()),
        }
    }
}

/// The number of values of the variable that `view` leads to in `vars`.
pub open spec fn size_of(vars: &Handler, view: ViewIndex) -> nat {
    vars.vars()[vars.slot(view)->0]@.len()
}

impl Clone for SmallestDomainVariableSelector {
    /// A copy with the same candidates.
    fn clone(&self) -> (r: Self)
        ensures
            r.candidates() == self.candidates(),
    {
        SmallestDomainVariableSelector { variables: copy_of(&self.variables) }
    }
}

impl VariableSelector for SmallestDomainVariableSelector {
    closed spec fn candidates(&self) -> Seq<ViewIndex> {
        self.variables@
    }

    /// The candidate at `i` is picked when it is not fixed, no candidate
    /// that is not fixed has fewer values, and none before it has as few.
    open spec fn picks(&self, vars: &Handler, i: int) -> bool {
        &&& !is_fixed(vars, self.candidates()[i])
        &&& forall|j: int|
            0 <= j < self.candidates().len() && !is_fixed(vars, #[trigger] self.candidates()[j])
                ==> size_of(vars, self.candidates()[i]) <= size_of(vars, self.candidates()[j])
        &&& forall|j: int|
            0 <= j < i && !is_fixed(vars, #[trigger] self.candidates()[j]) ==> size_of(
                vars,
                self.candidates()[i],
            ) < size_of(vars, self.candidates()[j])
    }

    fn select(&mut self, variables: &Handler) -> (r: Option<ViewIndex>) {
        let mut best: Option<(usize, u64)> = None;
        let mut k: usize = 0;
        while k < self.variables.len()
            invariant
                variables.wf(),
                resolves(self.variables@, variables),
                k <= self.variables@.len(),
                best is None ==> forall|j: int|
                    0 <= j < k ==> is_fixed(variables, #[trigger] self.variables@[j]),
                best matches Some((i, size)) ==> {
                    &&& i < k
                    &&& size == size_of(variables, self.variables@[i as int])
                    &&& !is_fixed(variables, self.variables@[i as int])
                    &&& forall|j: int|
                        0 <= j < k && !is_fixed(variables, #[trigger] self.variables@[j]) ==> size
                            <= size_of(variables, self.variables@[j])
                    &&& forall|j: int|
                        0 <= j < i && !is_fixed(variables, #[trigger] self.variables@[j]) ==> size
                            < size_of(variables, self.variables@[j])
                },
            decreases self.variables@.len() - k,
        {
            let view = self.variables[k];
            let size = variables.get_variable(&view).size();
            if size > 1 {
                match best {
                    None => {
                        best = Some((k, size));
                    },
                    Some((_, least)) => {
                        if size < least {
                            best = Some((k, size));
                        }
                    },
                }
            }
            k = k + 1;
        }
        match best {
            None => None,
            Some((i, _)) => {
                assert(self.picks(variables, i as int));
                assert(!is_fixed(variables, self.candidates()[i as int]));
                Some(self.variables[i])
            },
        }
    }

    fn views(&self) -> (r: Vec<ViewIndex>) {
        copy_of(&self.variables)
    }
}

/// Which of the two strategies picks the variable.
#[derive(Debug)]
pub enum VariableSelection {
    /// The first candidate that is not fixed.
    Sequential(SequentialVariableSelector),
    /// The candidate that is not fixed with the fewest values.
    SmallestDomain(SmallestDomainVariableSelector),
}

impl Clone for VariableSelection {
    /// A copy of the same strategy with the same candidates.
    fn clone(&self) -> (r: Self)
        ensures
            r.candidates() == self.candidates(),
            r is Sequential == self is Sequential,
    {
        match self {
            VariableSelection::Sequential(s) => VariableSelection::Sequential(s.clone()),
            VariableSelection::SmallestDomain(s) => VariableSelection::SmallestDomain(s.clone()),
        }
    }
}

impl VariableSelector for VariableSelection {
    open spec fn candidates(&self) -> Seq<ViewIndex> {
        match self {
            VariableSelection::Sequential(s) => s.candidates(),
            VariableSelection::SmallestDomain(s) => s.candidates(),
        }
    }

    open spec fn picks(&self, vars: &Handler, i: int) -> bool {
        match self {
            VariableSelection::Sequential(s) => s.picks(vars, i),
            VariableSelection::SmallestDomain(s) => s.picks(vars, i),
        }
    }

    fn select(&mut self, variables: &Handler) -> (r: Option<ViewIndex>) {
        match self {
            VariableSelection::Sequential(s) => s.select(variables),
            VariableSelection::SmallestDomain(s) => s.select(variables),
        }
    }

    fn views(&self) -> (r: Vec<ViewIndex>) {
        match self {
            VariableSelection::Sequential(s) => s.views(),
            VariableSelection::SmallestDomain(s) => s.views(),
        }
    }
}

} // verus!
