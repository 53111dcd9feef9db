//! Decision variables: change classes, failures, the handles by which
//! constraints address variables, and arrays of variables.

use snowflake::ProcessUniqueId;
use vstd::prelude::*;
use vstd::std_specs::cmp::PartialEqSpec;

use crate::graph::Subsumed;

pub mod int_var;

use crate::variables::int_var::IntVar;

verus! {

/// The class of the latest change made to a variable's domain.
#[derive(Debug, Clone, Copy, PartialEq, Eq, Structural)]
pub enum VariableState {
    /// Both bounds moved.
    BoundsChange,
    /// A value strictly between the bounds left the domain; the bounds stayed.
    ValuesChange,
    /// Only the upper bound moved.
    MaxBoundChange,
    /// Only the lower bound moved.
    MinBoundChange,
    /// The domain is what it was.
    NoChange,
}

impl Subsumed for VariableState {
    /// No change is subsumed under every class; a move of one bound and a
    /// change of values are subsumed under themselves only; a move of both
    /// bounds is subsumed under every move of a bound.
    open spec fn subsumed_under(&self, val: &Self) -> bool {
        match *self {
            VariableState::MaxBoundChange => *val == VariableState::MaxBoundChange,
            VariableState::MinBoundChange => *val == VariableState::MinBoundChange,
            VariableState::BoundsChange => *val == VariableState::BoundsChange || *val
                == VariableState::MaxBoundChange || *val == VariableState::MinBoundChange,
            VariableState::ValuesChange => *val == VariableState::ValuesChange,
            VariableState::NoChange => true,
        }
    }

    fn is_subsumed_under(&self, val: &Self) -> (r: bool) {
        match *self {
            VariableState::MaxBoundChange => *val == VariableState::MaxBoundChange,
            VariableState::MinBoundChange => *val == VariableState::MinBoundChange,
            VariableState::BoundsChange => *val == VariableState::BoundsChange || *val
                == VariableState::MaxBoundChange || *val == VariableState::MinBoundChange,
            VariableState::ValuesChange => *val == VariableState::ValuesChange,
            VariableState::NoChange => true,
        }
    }
}

/// Every change class is subsumed under itself.
pub proof fn lemma_subsumption_reflexive(a: VariableState)
    ensures
        a.subsumed_under(&a),
{
}

/// A class subsumed under a second that is subsumed under a third is
/// subsumed under the third.
pub proof fn lemma_subsumption_transitive(a: VariableState, b: VariableState, c: VariableState)
    requires
        a.subsumed_under(&b),
        b.subsumed_under(&c),
    ensures
        a.subsumed_under(&c),
{
}

/// Why a change to a domain was refused.
#[derive(Debug, Clone, Copy, PartialEq, Eq, Structural)]
pub enum VariableError {
    /// The change would have left the domain without a value.
    DomainWipeout,
}

/// The shape of a handle: where in its handler the variable stands.
#[derive(Hash, Copy, Clone, Debug, Eq, PartialEq, PartialOrd, Ord, Structural)]
pub enum IndexType {
    /// The single variable at a slot.
    FromVar(usize),
    /// The array of variables at a slot.
    FromArrayOfVars(usize),
    /// One variable, by its position, of the array at a slot.
    FromArrayOfVarsVar(usize, usize),
}

/// The types that serve as handles to variables.
pub trait VariableView: Copy {

}

/// The identifier type of the `snowflake` crate, taken as opaque: a value
/// can be copied and compared and nothing else.
#[verifier::external_type_specification]
#[verifier::external_body]
pub struct ExProcessUniqueId(ProcessUniqueId);

/// `snowflake::ProcessUniqueId::new` hands out an identifier; nothing is
/// claimed of it here. (It was made to differ from every other one handed out
/// in the process, and to panic once the process has none left.)
pub assume_specification[ ProcessUniqueId::new ]() -> (id: ProcessUniqueId)
;

/// Compares two identifiers with the `==` that `snowflake` derives for
/// `ProcessUniqueId`, which holds exactly when both are the same identifier.
#[verifier::external_body]
fn same_id(a: &ProcessUniqueId, b: &ProcessUniqueId) -> (r: bool)
    ensures
        r == (*a == *b),
{
    a == b
}

/// An immutable handle to a variable or to an array of variables: the
/// identifier of the handler that owns it, and its place there.
#[derive(Hash, Copy, Clone, Debug, Eq, PartialOrd, Ord)]
pub struct ViewIndex {
    id: ProcessUniqueId,
    index_type: IndexType,
}

impl VariableView for ViewIndex {

}

impl ViewIndex {
    /// The identifier of the owning handler.
    pub closed spec fn spec_id(&self) -> ProcessUniqueId {
        self.id
    }

    /// The place in the owning handler.
    pub closed spec fn spec_type(&self) -> IndexType {
        self.index_type
    }

    /// Whether `self` addresses the whole or a part of what `idx` addresses:
    /// both belong to the same handler, and either they are the same handle
    /// or `self` is an element of the array `idx`.
    pub open spec fn subview_of(&self, idx: &ViewIndex) -> bool {
        self.spec_id() == idx.spec_id() && match self.spec_type() {
            IndexType::FromArrayOfVarsVar(x, y) => idx.spec_type() == IndexType::FromArrayOfVars(x)
                || idx.spec_type() == IndexType::FromArrayOfVarsVar(x, y),
            IndexType::FromArrayOfVars(x) => idx.spec_type() == IndexType::FromArrayOfVars(x),
            IndexType::FromVar(x) => idx.spec_type() == IndexType::FromVar(x),
        }
    }

    /// The handle of the single variable at slot `x` of the handler `id`.
    pub fn new_from_var(id: ProcessUniqueId, x: usize) -> (r: ViewIndex)
        ensures
            r.spec_id() == id,
            r.spec_type() == IndexType::FromVar(x),
    {
        ViewIndex { id, index_type: IndexType::FromVar(x) }
    }

    /// The handle of the array at slot `x` of the handler `id`.
    pub fn new_from_array(id: ProcessUniqueId, x: usize) -> (r: ViewIndex)
        ensures
            r.spec_id() == id,
            r.spec_type() == IndexType::FromArrayOfVars(x),
    {
        ViewIndex { id, index_type: IndexType::FromArrayOfVars(x) }
    }

    /// The handle of the variable at position `y` of the array at slot `x` of
    /// the handler `id`.
    pub fn new_from_array_var(id: ProcessUniqueId, x: usize, y: usize) -> (r: ViewIndex)
        ensures
            r.spec_id() == id,
            r.spec_type() == IndexType::FromArrayOfVarsVar(x, y),
    {
        ViewIndex { id, index_type: IndexType::FromArrayOfVarsVar(x, y) }
    }

    /// Whether `self` addresses the whole or a part of what `idx` addresses.
    pub fn is_subview_of(&self, idx: &ViewIndex) -> (r: bool)
        ensures
            r == self.subview_of(idx),
    {
        if !same_id(&self.id, &idx.id) {
            return false;
        }
        match self.index_type {
            IndexType::FromArrayOfVarsVar(x, y) => match idx.index_type {
                IndexType::FromArrayOfVars(x_) => x == x_,
                IndexType::FromArrayOfVarsVar(x_, y_) => x == x_ && y == y_,
                _ => false,
            },
            IndexType::FromArrayOfVars(x) => match idx.index_type {
                IndexType::FromArrayOfVars(x_) => x == x_,
                _ => false,
            },
            IndexType::FromVar(x) => match idx.index_type {
                IndexType::FromVar(x_) => x == x_,
                _ => false,
            },
        }
    }

    /// Whether the handle belongs to the handler with the identifier `id`.
    pub fn belongs_to(&self, id: &ProcessUniqueId) -> (r: bool)
        ensures
            r == (self.spec_id() == *id),
    {
        same_id(&self.id, id)
    }

    /// The identifier of the owning handler.
    pub fn get_id(&self) -> (r: ProcessUniqueId)
        ensures
            r == self.spec_id(),
    {
        self.id
    }

    /// The place in the owning handler.
    pub fn get_type(&self) -> (r: IndexType)
        ensures
            r == self.spec_type(),
    {
        self.index_type
    }
}

impl vstd::std_specs::cmp::PartialEqSpecImpl for ViewIndex {
    open spec fn obeys_eq_spec() -> bool {
        true
    }

    open spec fn eq_spec(&self, other: &Self) -> bool {
        self.spec_id() == other.spec_id() && self.spec_type() == other.spec_type()
    }
}

impl PartialEq for ViewIndex {
    /// Whether both are the same handle.
    fn eq(&self, other: &Self) -> (r: bool) {
        same_id(&self.id, &other.id) && self.index_type == other.index_type
    }
}

/// Every handle is a subview of itself, and two handles that are subviews of
/// each other are the same handle.
pub proof fn lemma_subview_order(a: ViewIndex, b: ViewIndex)
    ensures
        a.subview_of(&a),
        a.subview_of(&b) && b.subview_of(&a) ==> a.eq_spec(&b),
{
}

/// Whether none of the handles of `views` is a subview of another.
pub open spec fn pairwise_disjoint(views: Seq<ViewIndex>) -> bool {
    forall|i: int, j: int|
        #![trigger views[i], views[j]]
        0 <= i < j < views.len() ==> !views[i].subview_of(&views[j]) && !views[j].subview_of(
            &views[i],
        )
}

/// Whether `i < j` are the places in `views` of the first two handles, in
/// the order of a walk by row, of which one is a subview of the other.
pub open spec fn first_clash(views: Seq<ViewIndex>, i: int, j: int) -> bool {
    &&& 0 <= i < j < views.len()
    &&& views[i].subview_of(&views[j]) || views[j].subview_of(&views[i])
    &&& forall|a: int, b: int|
        #![trigger views[a], views[b]]
        0 <= a < b < views.len() && (a < i || (a == i && b < j)) ==> !views[a].subview_of(
            &views[b],
        ) && !views[b].subview_of(&views[a])
}

/// The lists of handles that can be checked for handles that address the
/// same variable.
pub trait AllDisjoint {
    /// The handles, in order.
    spec fn views(&self) -> Seq<ViewIndex>;

    /// Checks that no handle is a subview of another; where that fails, the
    /// error is the first pair that clashes.
    fn all_disjoint(self) -> (r: Result<(), (ViewIndex, ViewIndex)>)
        ensures
            r is Ok <==> pairwise_disjoint(self.views()),
            r matches Err((left, right)) ==> exists|i: int, j: int|
                first_clash(self.views(), i, j) && left == self.views()[i] && right
                    == self.views()[j],
    ;
}

/// Looks for the first two handles of `views`, in the order of a walk by
/// row, of which one is a subview of the other.
pub fn find_clash(views: &Vec<ViewIndex>) -> (r: Result<(), (ViewIndex, ViewIndex)>)
    ensures
        r is Ok <==> pairwise_disjoint(views@),
        r matches Err((left, right)) ==> exists|i: int, j: int|
            first_clash(views@, i, j) && left == views@[i] && right == views@[j],
{
    let n: usize = views.len();
    let mut i: usize = 0;
    while i < n
        invariant
            n == views@.len(),
            i <= n,
            forall|a: int, b: int|
                #![trigger views@[a], views@[b]]
                0 <= a < b < n && a < i ==> !views@[a].subview_of(&views@[b])
                    && !views@[b].subview_of(&views@[a]),
        decreases n - i,
    {
        let mut j: usize = i + 1;
        while j < n
            invariant
                n == views@.len(),
                i < j <= n,
                forall|a: int, b: int|
                    #![trigger views@[a], views@[b]]
                    0 <= a < b < n && (a < i || (a == i && b < j)) ==> !views@[a].subview_of(
                        &views@[b],
                    ) && !views@[b].subview_of(&views@[a]),
            decreases n - j,
        {
            let left = views[i];
            let right = views[j];
            if left.is_subview_of(&right) || right.is_subview_of(&left) {
                assert(first_clash(views@, i as int, j as int));
                return Err((left, right));
            }
            j = j + 1;
        }
        i = i + 1;
    }
    Ok(())
}

impl AllDisjoint for Vec<ViewIndex> {
    open spec fn views(&self) -> Seq<ViewIndex> {
        self@
    }

    fn all_disjoint(self) -> (r: Result<(), (ViewIndex, ViewIndex)>) {
        let r = find_clash(&self);
        proof {
            if let Err((left, right)) = r {
                let (i, j) = choose|i: int, j: int|
                    first_clash(self@, i, j) && left == self@[i] && right == self@[j];
                assert(first_clash(self.views(), i, j) && left == self.views()[i] && right
                    == self.views()[j]);
            }
        }
        r
    }
}

/// The types that stand for decision variables.
pub trait Variable: Clone {
    /// Whether every variable that the value holds is down to one value.
    spec fn affected(&self) -> bool;

    /// Whether every variable that the value holds is down to one value.
    fn is_affected(&self) -> (r: bool)
        ensures
            r == self.affected(),
    ;
}

impl Variable for IntVar {
    open spec fn affected(&self) -> bool {
        self.spec_min() == self.spec_max()
    }

    fn is_affected(&self) -> (r: bool) {
        self.is_fixed()
    }
}

/// The lists that are read by position.
pub trait Array<Item> {
    /// The entries, in order.
    spec fn items(&self) -> Seq<Item>;

    /// The number of entries.
    fn len(&self) -> (r: usize)
        ensures
            r == self.items().len(),
    ;

    /// The entry at `position`, if there is one.
    fn get(&self, position: usize) -> (r: Option<&Item>)
        ensures
            r is Some <==> position < self.items().len(),
            r matches Some(item) ==> *item == self.items()[position as int],
    ;
}

/// An array that owns its variables.
#[derive(Debug, Clone)]
pub struct ArrayOfVars<Var: Variable> {
    pub variables: Vec<Var>,
}

impl<Var: Variable> ArrayOfVars<Var> {
    /// An array of `len` copies of `var`.
    pub fn new(len: usize, var: Var) -> (r: Option<Self>)
        ensures
            r matches Some(array) && array.variables@.len() == len && forall|i: int|
                0 <= i < len ==> cloned(var, #[trigger] array.variables@[i]),
    {
        let mut variables: Vec<Var> = Vec::new();
        let mut k: usize = 0;
        while k < len
            invariant
                k <= len,
                variables@.len() == k,
                forall|i: int| 0 <= i < k ==> cloned(var, #[trigger] variables@[i]),
            decreases len - k,
        {
            variables.push(var.clone());
            k = k + 1;
        }
        Some(ArrayOfVars { variables })
    }
}

impl<Var: Variable> Array<Var> for ArrayOfVars<Var> {
    open spec fn items(&self) -> Seq<Var> {
        self.variables@
    }

    fn len(&self) -> (r: usize) {
        self.variables.len()
    }

    fn get(&self, position: usize) -> (r: Option<&Var>) {
        if position < self.variables.len() {
            Some(&self.variables[position])
        } else {
            None
        }
    }
}

impl<Var: Variable> Variable for ArrayOfVars<Var> {
    open spec fn affected(&self) -> bool {
        forall|i: int| 0 <= i < self.variables@.len() ==> (#[trigger] self.variables@[i]).affected()
    }

    fn is_affected(&self) -> (r: bool) {
        let mut k: usize = 0;
        while k < self.variables.len()
            invariant
                k <= self.variables@.len(),
                forall|i: int| 0 <= i < k ==> (#[trigger] self.variables@[i]).affected(),
            decreases self.variables@.len() - k,
        {
            if !self.variables[k].is_affected() {
                return false;
            }
            k = k + 1;
        }
        true
    }
}

/// An array of handles to variables that stand elsewhere in a handler, no
/// two of them to the same variable.
#[derive(Debug, Clone)]
pub struct ArrayOfRefs {
    pub variables: Vec<ViewIndex>,
}

impl ArrayOfRefs {
    /// The array of the given handles; there is none when one of them is a
    /// subview of another.
    pub fn new(variables: Vec<ViewIndex>) -> (r: Option<Self>)
        ensures
            r is Some <==> pairwise_disjoint(variables@),
            r matches Some(array) ==> array.variables@ == variables@,
    {
        match find_clash(&variables) {
            Ok(()) => Some(ArrayOfRefs { variables }),
            Err(_) => None,
        }
    }
}

impl Array<ViewIndex> for ArrayOfRefs {
    open spec fn items(&self) -> Seq<ViewIndex> {
        self.variables@
    }

    fn len(&self) -> (r: usize) {
        self.variables.len()
    }

    fn get(&self, position: usize) -> (r: Option<&ViewIndex>) {
        if position < self.variables.len() {
            Some(&self.variables[position])
        } else {
            None
        }
    }
}

} // verus!

pub mod handlers;
