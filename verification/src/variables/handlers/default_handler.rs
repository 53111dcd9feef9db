//! The default variable handler: one row of integer variables, in which
//! single variables and the elements of arrays stand in the order in which
//! they were made, and the tables that lead from a handle to its place.

use snowflake::ProcessUniqueId;
use vstd::prelude::*;

use crate::variables::int_var::IntVar;
use crate::variables::{ArrayOfRefs, ArrayOfVars, IndexType, ViewIndex};

verus! {

/// The place in the row of element `j` of an array that starts at `start`.
pub open spec fn element_slot(start: usize, j: int) -> int {
    start + j
}

/// The store of the variables of a problem.
pub struct Handler {
    id: ProcessUniqueId,
    variables: Vec<IntVar>,
    owners: Vec<IndexType>,
    singles: Vec<usize>,
    arrays: Vec<(usize, usize)>,
}

/// A store under construction.
pub struct Builder {
    handler: Handler,
}

impl Handler {
    /// The identifier that the handles of this store carry.
    pub closed spec fn id(&self) -> ProcessUniqueId {
        self.id
    }

    /// The row of variables.
    pub closed spec fn vars(&self) -> Seq<IntVar> {
        self.variables@
    }

    /// For each place in the row, the shape of the handle that leads there.
    pub closed spec fn owners(&self) -> Seq<IndexType> {
        self.owners@
    }

    /// For each single variable, by its slot, its place in the row.
    pub closed spec fn singles(&self) -> Seq<usize> {
        self.singles@
    }

    /// For each array, by its slot, the place of its first element in the
    /// row and the number of its elements.
    pub closed spec fn arrays(&self) -> Seq<(usize, usize)> {
        self.arrays@
    }

    /// The tables agree with each other: each handle leads to a place in
    /// the row, and that place leads back to it.
    pub open spec fn layout_wf(&self) -> bool {
        &&& self.owners().len() == self.vars().len()
        &&& forall|i: int|
            0 <= i < self.singles().len() ==> (#[trigger] self.singles()[i]) < self.vars().len()
                && self.owners()[self.singles()[i] as int] == IndexType::FromVar(i as usize)
        &&& forall|i: int, j: int|
            0 <= i < self.arrays().len() && 0 <= j < self.arrays()[i].1 ==> 0 <= (
            #[trigger] element_slot(self.arrays()[i].0, j)) < self.vars().len()
                && self.owners()[element_slot(self.arrays()[i].0, j)]
                == IndexType::FromArrayOfVarsVar(i as usize, j as usize)
        &&& forall|f: int|
            0 <= f < self.owners().len() ==> match #[trigger] self.owners()[f] {
                IndexType::FromVar(i) => i < self.singles().len() && self.singles()[i as int] == f,
                IndexType::FromArrayOfVarsVar(i, j) => i < self.arrays().len() && j
                    < self.arrays()[i as int].1 && element_slot(self.arrays()[i as int].0, j as int)
                    == f,
                IndexType::FromArrayOfVars(_) => false,
            }
    }

    /// The invariant of a store: its tables agree and every variable is at
    /// rest.
    pub open spec fn wf(&self) -> bool {
        &&& self.layout_wf()
        &&& forall|f: int| 0 <= f < self.vars().len() ==> (#[trigger] self.vars()[f]).wf()
    }

    /// The place in the row of the variable that `view` addresses, if it
    /// addresses a variable of this store.
    pub open spec fn slot(&self, view: ViewIndex) -> Option<int> {
        if view.spec_id() != self.id() {
            None
        } else {
            match view.spec_type() {
                IndexType::FromVar(i) => if i < self.singles().len() {
                    Some(self.singles()[i as int] as int)
                } else {
                    None
                },
                IndexType::FromArrayOfVarsVar(i, j) => if i < self.arrays().len() && j
                    < self.arrays()[i as int].1 {
                    Some(element_slot(self.arrays()[i as int].0, j as int))
                } else {
                    None
                },
                IndexType::FromArrayOfVars(_) => None,
            }
        }
    }

    /// Whether both stores carry the same identifier and the same tables, so
    /// that a handle leads to the same place in both.
    pub open spec fn same_layout(&self, other: &Handler) -> bool {
        &&& self.id() == other.id()
        &&& self.owners() == other.owners()
        &&& self.singles() == other.singles()
        &&& self.arrays() == other.arrays()
        &&& self.vars().len() == other.vars().len()
    }

    /// Whether both stores have the same tables and, place by place, the same
    /// domains.
    pub open spec fn equal_domains(&self, other: &Handler) -> bool {
        &&& self.same_layout(other)
        &&& forall|f: int|
            0 <= f < self.vars().len() ==> (#[trigger] self.vars()[f]).intervals()
                == other.vars()[f].intervals() && self.vars()[f].spec_min()
                == other.vars()[f].spec_min() && self.vars()[f].spec_max()
                == other.vars()[f].spec_max()
    }

    /// The number of variables.
    pub fn len(&self) -> (r: usize)
        ensures
            r == self.vars().len(),
    {
        self.variables.len()
    }

    /// The place in the row of the variable that `view` addresses, if it
    /// addresses a variable of this store.
    pub fn variable_id(&self, view: &ViewIndex) -> (r: Option<usize>)
        requires
            self.layout_wf(),
        ensures
            r is Some <==> self.slot(*view) is Some,
            r matches Some(f) ==> self.slot(*view) == Some(f as int) && f < self.vars().len(),
    {
        if !view.belongs_to(&self.id) {
            return None;
        }
        match view.get_type() {
            IndexType::FromVar(i) => {
                if i < self.singles.len() {
                    Some(self.singles[i])
                } else {
                    None
                }
            },
            IndexType::FromArrayOfVarsVar(i, j) => {
                if i < self.arrays.len() && j < self.arrays[i].1 {
                    let total: usize = self.variables.len();
                    assert(0 <= element_slot(self.arrays()[i as int].0, j as int) < total);
                    Some(self.arrays[i].0 + j)
                } else {
                    None
                }
            },
            IndexType::FromArrayOfVars(_) => None,
        }
    }

    /// The handle that leads to the place `f` of the row.
    pub fn get_view(&self, f: usize) -> (r: ViewIndex)
        requires
            self.layout_wf(),
            f < self.vars().len(),
        ensures
            self.slot(r) == Some(f as int),
            r.spec_id() == self.id(),
            r.spec_type() == self.owners()[f as int],
    {
        match self.owners[f] {
            IndexType::FromVar(i) => ViewIndex::new_from_var(self.id, i),
            IndexType::FromArrayOfVarsVar(i, j) => ViewIndex::new_from_array_var(self.id, i, j),
            IndexType::FromArrayOfVars(i) => ViewIndex::new_from_array(self.id, i),
        }
    }

    /// The variable at the place `f` of the row.
    pub fn variable(&self, f: usize) -> (r: &IntVar)
        requires
            f < self.vars().len(),
        ensures
            *r == self.vars()[f as int],
    {
        &self.variables[f]
    }

    /// The variable at the place `f` of the row, to be narrowed in place.
    pub fn variable_mut(&mut self, f: usize) -> (r: &mut IntVar)
        requires
            f < old(self).vars().len(),
        ensures
            *r == old(self).vars()[f as int],
            final(self).vars() == old(self).vars().update(f as int, *final(r)),
            final(self).same_layout(old(self)),
    {
        &mut self.variables[f]
    }

    /// The variable that `view` addresses, if it addresses a variable of this
    /// store.
    pub fn get(&self, view: &ViewIndex) -> (r: Option<&IntVar>)
        requires
            self.layout_wf(),
        ensures
            r is Some <==> self.slot(*view) is Some,
            r matches Some(v) ==> *v == self.vars()[self.slot(*view)->0],
    {
        match self.variable_id(view) {
            Some(f) => Some(&self.variables[f]),
            None => None,
        }
    }

    /// The variable that `view` addresses, which must be a variable of this
    /// store.
    pub fn get_variable(&self, view: &ViewIndex) -> (r: &IntVar)
        requires
            self.layout_wf(),
            self.slot(*view) is Some,
        ensures
            *r == self.vars()[self.slot(*view)->0],
    {
        let f = self.variable_id(view).unwrap();
        &self.variables[f]
    }

    /// The handles of the elements of the array that `view` addresses, in
    /// order, if it addresses an array of this store.
    pub fn array_of_refs(&self, view: &ViewIndex) -> (r: Option<ArrayOfRefs>)
        requires
            self.layout_wf(),
        ensures
            r is Some <==> view.spec_id() == self.id() && (view.spec_type() matches IndexType::FromArrayOfVars(
                i,
            ) && i < self.arrays().len()),
            r matches Some(array) ==> view.spec_type() matches IndexType::FromArrayOfVars(i)
                && array.variables@.len() == self.arrays()[i as int].1 && forall|j: int|
                0 <= j < array.variables@.len() ==> (#[trigger] array.variables@[j]).spec_id()
                    == self.id() && array.variables@[j].spec_type()
                    == IndexType::FromArrayOfVarsVar(i, j as usize),
    {
        if !view.belongs_to(&self.id) {
            return None;
        }
        match view.get_type() {
            IndexType::FromArrayOfVars(i) => {
                if i >= self.arrays.len() {
                    return None;
                }
                let n: usize = self.arrays[i].1;
                let mut views: Vec<ViewIndex> = Vec::new();
                let mut j: usize = 0;
                while j < n
                    invariant
                        j <= n,
                        views@.len() == j,
                        forall|k: int|
                            0 <= k < j ==> (#[trigger] views@[k]).spec_id() == self.id()
                                && views@[k].spec_type() == IndexType::FromArrayOfVarsVar(
                                i,
                                k as usize,
                            ),
                    decreases n - j,
                {
                    views.push(ViewIndex::new_from_array_var(self.id, i, j));
                    j = j + 1;
                }
                Some(ArrayOfRefs { variables: views })
            },
            _ => None,
        }
    }
}

impl Clone for Handler {
    /// A store with the same identifier and tables and a copy of every
    /// variable.
    fn clone(&self) -> (r: Self)
        ensures
            r.equal_domains(self),
    {
        let mut variables: Vec<IntVar> = Vec::new();
        let mut k: usize = 0;
        while k < self.variables.len()
            invariant
                k <= self.variables@.len(),
                variables@.len() == k,
                forall|f: int|
                    0 <= f < k ==> (#[trigger] variables@[f]).intervals()
                        == self.variables@[f].intervals() && variables@[f].spec_min()
                        == self.variables@[f].spec_min() && variables@[f].spec_max()
                        == self.variables@[f].spec_max(),
            decreases self.variables@.len() - k,
        {
            variables.push(self.variables[k].clone());
            k = k + 1;
        }
        Handler {
            id: self.id,
            variables,
            owners: copy_shapes(&self.owners),
            singles: copy_places(&self.singles),
            arrays: copy_ranges(&self.arrays),
        }
    }
}

/// A copy of a list of shapes.
fn copy_shapes(list: &Vec<IndexType>) -> (r: Vec<IndexType>)
    ensures
        r@ == list@,
{
    let mut r: Vec<IndexType> = Vec::new();
    let mut k: usize = 0;
    while k < list.len()
        invariant
            k <= list@.len(),
            r@ == list@.take(k as int),
        decreases list@.len() - k,
    {
        r.push(list[k]);
        assert(list@.take(k + 1) =~= list@.take(k as int).push(list@[k as int]));
        k = k + 1;
    }
    assert(list@.take(k as int) =~= list@);
    r
}

/// A copy of a list of places.
fn copy_places(list: &Vec<usize>) -> (r: Vec<usize>)
    ensures
        r@ == list@,
{
    let mut r: Vec<usize> = Vec::new();
    let mut k: usize = 0;
    while k < list.len()
        invariant
            k <= list@.len(),
            r@ == list@.take(k as int),
        decreases list@.len() - k,
    {
        r.push(list[k]);
        assert(list@.take(k + 1) =~= list@.take(k as int).push(list@[k as int]));
        k = k + 1;
    }
    assert(list@.take(k as int) =~= list@);
    r
}

/// A copy of a list of ranges.
fn copy_ranges(list: &Vec<(usize, usize)>) -> (r: Vec<(usize, usize)>)
    ensures
        r@ == list@,
{
    let mut r: Vec<(usize, usize)> = Vec::new();
    let mut k: usize = 0;
    while k < list.len()
        invariant
            k <= list@.len(),
            r@ == list@.take(k as int),
        decreases list@.len() - k,
    {
        r.push(list[k]);
        assert(list@.take(k + 1) =~= list@.take(k as int).push(list@[k as int]));
        k = k + 1;
    }
    assert(list@.take(k as int) =~= list@);
    r
}

impl Builder {
    /// The store as built so far.
    pub closed spec fn handler(&self) -> Handler {
        self.handler
    }

    /// A builder of an empty store with an identifier of its own.
    pub fn new() -> (r: Self)
        ensures
            r.handler().wf(),
            r.handler().vars().len() == 0,
            r.handler().singles().len() == 0,
            r.handler().arrays().len() == 0,
    {
        Builder {
            handler: Handler {
                id: ProcessUniqueId::new(),
                variables: Vec::new(),
                owners: Vec::new(),
                singles: Vec::new(),
                arrays: Vec::new(),
            },
        }
    }

    /// Adds a variable to the end of the row, as the single variable of the
    /// next free slot.
    fn push_single(&mut self, var: IntVar) -> (view: ViewIndex)
        requires
            old(self).handler().wf(),
            var.wf(),
        ensures
            final(self).handler().wf(),
            final(self).handler().id() == old(self).handler().id(),
            final(self).handler().vars() == old(self).handler().vars().push(var),
            final(self).handler().singles() == old(self).handler().singles().push(
                old(self).handler().vars().len() as usize,
            ),
            final(self).handler().arrays() == old(self).handler().arrays(),
            view.spec_id() == old(self).handler().id(),
            view.spec_type() == IndexType::FromVar(old(self).handler().singles().len() as usize),
            final(self).handler().slot(view) == Some(old(self).handler().vars().len() as int),
    {
        let slot: usize = self.handler.singles.len();
        let place: usize = self.handler.variables.len();
        let ghost before = self.handler;
        self.handler.variables.push(var);
        self.handler.owners.push(IndexType::FromVar(slot));
        self.handler.singles.push(place);
        proof {
            let after = self.handler;
            assert forall|i: int, j: int|
                0 <= i < after.arrays().len() && 0 <= j < after.arrays()[i].1 implies 0 <= (
            #[trigger] element_slot(after.arrays()[i].0, j)) < after.vars().len()
                && after.owners()[element_slot(after.arrays()[i].0, j)]
                == IndexType::FromArrayOfVarsVar(i as usize, j as usize) by {
                assert(0 <= element_slot(before.arrays()[i].0, j) < before.vars().len());
            }
            assert forall|f: int| 0 <= f < after.owners().len() implies match #[trigger] after.owners()[f] {
                IndexType::FromVar(i) => i < after.singles().len() && after.singles()[i as int]
                    == f,
                IndexType::FromArrayOfVarsVar(i, j) => i < after.arrays().len() && j
                    < after.arrays()[i as int].1 && element_slot(
                    after.arrays()[i as int].0,
                    j as int,
                ) == f,
                IndexType::FromArrayOfVars(_) => false,
            } by {
                if f < before.owners().len() {
                    assert(after.owners()[f] == before.owners()[f]);
                }
            }
        }
        ViewIndex::new_from_var(self.handler.id, slot)
    }

    /// Adds the variable whose domain is the range `min..=max`, and hands out
    /// its handle; nothing is added when the range is empty.
    pub fn new_int_variable(&mut self, min: i32, max: i32) -> (r: Option<ViewIndex>)
        requires
            old(self).handler().wf(),
        ensures
            final(self).handler().wf(),
            final(self).handler().id() == old(self).handler().id(),
            r is None <==> min > max,
            r is None ==> final(self).handler() == old(self).handler(),
            r matches Some(view) ==> {
                &&& final(self).handler().vars().len() == old(self).handler().vars().len() + 1
                &&& final(self).handler().vars().drop_last() == old(self).handler().vars()
                &&& final(self).handler().vars().last().intervals() == seq![(min, max)]
                &&& final(self).handler().singles() == old(self).handler().singles().push(
                    old(self).handler().vars().len() as usize,
                )
                &&& final(self).handler().arrays() == old(self).handler().arrays()
                &&& view.spec_id() == old(self).handler().id()
                &&& view.spec_type() == IndexType::FromVar(
                    old(self).handler().singles().len() as usize,
                )
                &&& final(self).handler().slot(view) == Some(
                    old(self).handler().vars().len() as int,
                )
            },
    {
        match IntVar::new(min, max) {
            None => None,
            Some(var) => {
                let ghost row = self.handler().vars();
                let view = self.push_single(var);
                assert(row.push(var).drop_last() =~= row);
                Some(view)
            },
        }
    }

    /// Adds the variable whose domain holds exactly the given values, and
    /// hands out its handle; nothing is added when no value is given.
    pub fn new_int_variable_from_values(&mut self, values: Vec<i32>) -> (r: Option<ViewIndex>)
        requires
            old(self).handler().wf(),
        ensures
            final(self).handler().wf(),
            final(self).handler().id() == old(self).handler().id(),
            r is None <==> values@.len() == 0,
            r is None ==> final(self).handler() == old(self).handler(),
            r matches Some(view) ==> {
                &&& final(self).handler().vars().len() == old(self).handler().vars().len() + 1
                &&& final(self).handler().vars().drop_last() == old(self).handler().vars()
                &&& forall|x: int|
                    final(self).handler().vars().last()@.contains(x)
                        <==> crate::variables::int_var::has_value(values@, x)
                &&& final(self).handler().singles() == old(self).handler().singles().push(
                    old(self).handler().vars().len() as usize,
                )
                &&& final(self).handler().arrays() == old(self).handler().arrays()
                &&& view.spec_id() == old(self).handler().id()
                &&& view.spec_type() == IndexType::FromVar(
                    old(self).handler().singles().len() as usize,
                )
                &&& final(self).handler().slot(view) == Some(
                    old(self).handler().vars().len() as int,
                )
            },
    {
        match IntVar::new_from_iterator(values) {
            None => None,
            Some(var) => {
                let ghost row = self.handler().vars();
                let view = self.push_single(var);
                assert(row.push(var).drop_last() =~= row);
                Some(view)
            },
        }
    }

    /// Adds an array of `n` variables, each with the domain
    /// `bounds.0..=bounds.1`, and hands out the handle of the array; nothing
    /// is added when the range is empty.
    pub fn new_int_array(&mut self, n: usize, bounds: (i32, i32)) -> (r: Option<ViewIndex>)
        requires
            old(self).handler().wf(),
        ensures
            final(self).handler().wf(),
            final(self).handler().id() == old(self).handler().id(),
            r is None <==> bounds.0 > bounds.1,
            r is None ==> final(self).handler() == old(self).handler(),
            r matches Some(view) ==> {
                &&& final(self).handler().vars().len() == old(self).handler().vars().len() + n
                &&& final(self).handler().vars().take(old(self).handler().vars().len() as int)
                    == old(self).handler().vars()
                &&& forall|f: int|
                    old(self).handler().vars().len() <= f < final(self).handler().vars().len() ==> (
                    #[trigger] final(self).handler().vars()[f]).intervals() == seq![bounds]
                &&& final(self).handler().singles() == old(self).handler().singles()
                &&& final(self).handler().arrays() == old(self).handler().arrays().push(
                    (old(self).handler().vars().len() as usize, n),
                )
                &&& view.spec_id() == old(self).handler().id()
                &&& view.spec_type() == IndexType::FromArrayOfVars(
                    old(self).handler().arrays().len() as usize,
                )
            },
    {
        let var = match IntVar::new(bounds.0, bounds.1) {
            None => {
                return None;
            },
            Some(var) => var,
        };
        let mut array = match ArrayOfVars::new(n, var) {
            None => {
                return None;
            },
            Some(array) => array,
        };
        let slot: usize = self.handler.arrays.len();
        let start: usize = self.handler.variables.len();
        let ghost before = self.handler;
        let ghost block = array.variables@;
        assert forall|j: int| 0 <= j < n implies (#[trigger] block[j]).wf() && block[j].intervals()
            == seq![bounds] by {
            assert(cloned(var, block[j]));
        }
        self.handler.variables.append(&mut array.variables);
        self.handler.arrays.push((start, n));
        let mut j: usize = 0;
        while j < n
            invariant
                j <= n,
                start + n == self.handler.variables@.len(),
                self.handler.owners@.len() == start + j,
                self.handler.owners@.take(start as int) == before.owners@,
                forall|k: int|
                    0 <= k < j ==> #[trigger] self.handler.owners@[start + k]
                        == IndexType::FromArrayOfVarsVar(slot, k as usize),
                self.handler.id == before.id,
                self.handler.variables@ == before.variables@ + block,
                self.handler.singles@ == before.singles@,
                self.handler.arrays@ == before.arrays@.push((start, n)),
            decreases n - j,
        {
            let ghost prev = self.handler.owners@;
            self.handler.owners.push(IndexType::FromArrayOfVarsVar(slot, j));
            proof {
                assert(self.handler.owners@.take(start as int) =~= prev.take(start as int));
                assert forall|k: int| 0 <= k < j + 1 implies #[trigger] self.handler.owners@[start
                    + k] == IndexType::FromArrayOfVarsVar(slot, k as usize) by {
                    if k < j {
                        assert(prev[start + k] == IndexType::FromArrayOfVarsVar(slot, k as usize));
                    }
                }
            }
            j = j + 1;
        }
        proof {
            let after = self.handler;
            assert(after.vars().take(start as int) =~= before.vars());
            assert forall|i: int|
                0 <= i < after.singles().len() implies (#[trigger] after.singles()[i])
                < after.vars().len() && after.owners()[after.singles()[i] as int]
                == IndexType::FromVar(i as usize) by {
                assert(before.singles()[i] < before.vars().len());
                assert(after.owners().take(start as int)[before.singles()[i] as int]
                    == after.owners()[before.singles()[i] as int]);
            }
            assert forall|i: int, k: int|
                0 <= i < after.arrays().len() && 0 <= k < after.arrays()[i].1 implies 0 <= (
            #[trigger] element_slot(after.arrays()[i].0, k)) < after.vars().len()
                && after.owners()[element_slot(after.arrays()[i].0, k)]
                == IndexType::FromArrayOfVarsVar(i as usize, k as usize) by {
                if i < before.arrays().len() {
                    let f = element_slot(before.arrays()[i].0, k);
                    assert(0 <= f < before.vars().len());
                    assert(after.owners().take(start as int)[f] == after.owners()[f]);
                } else {
                    assert(after.owners()[start + k] == IndexType::FromArrayOfVarsVar(
                        slot,
                        k as usize,
                    ));
                }
            }
            assert forall|f: int| 0 <= f < after.owners().len() implies match #[trigger] after.owners()[f] {
                IndexType::FromVar(i) => i < after.singles().len() && after.singles()[i as int]
                    == f,
                IndexType::FromArrayOfVarsVar(i, k) => i < after.arrays().len() && k
                    < after.arrays()[i as int].1 && element_slot(
                    after.arrays()[i as int].0,
                    k as int,
                ) == f,
                IndexType::FromArrayOfVars(_) => false,
            } by {
                if f < start {
                    assert(after.owners().take(start as int)[f] == after.owners()[f]);
                    assert(after.owners()[f] == before.owners()[f]);
                } else {
                    assert(after.owners()[start + (f - start)] == IndexType::FromArrayOfVarsVar(
                        slot,
                        (f - start) as usize,
                    ));
                }
            }
            assert forall|f: int| 0 <= f < after.vars().len() implies (#[trigger] after.vars()[f]).wf() by {
                if f < start {
                    assert(before.vars()[f].wf());
                } else {
                    assert(after.vars()[f] == block[f - start]);
                }
            }
            assert forall|f: int| start <= f < after.vars().len() implies (#[trigger] after.vars()[f]).intervals()
                == seq![bounds] by {
                assert(after.vars()[f] == block[f - start]);
            }
        }
        Some(ViewIndex::new_from_array(self.handler.id, slot))
    }

    /// The finished store.
    pub fn finalize(self) -> (r: Handler)
        ensures
            r == self.handler(),
    {
        self.handler
    }
}

/// The place that a handle leads to lies within the row, whose length a
/// `usize` can hold.
pub proof fn lemma_slot_fits(handler: Handler, view: ViewIndex)
    requires
        handler.layout_wf(),
        handler.slot(view) is Some,
    ensures
        0 <= handler.slot(view)->0 < handler.vars().len() <= usize::MAX,
{
    assert(handler.variables.len() == handler.variables@.len());
    match view.spec_type() {
        IndexType::FromVar(i) => {
            assert(handler.singles()[i as int] < handler.vars().len());
        },
        IndexType::FromArrayOfVarsVar(i, j) => {
            assert(0 <= element_slot(handler.arrays()[i as int].0, j as int)
                < handler.vars().len());
        },
        IndexType::FromArrayOfVars(_) => {},
    }
}

/// Two handles to variables of a store that are not subviews of each other
/// lead to different places.
pub proof fn lemma_disjoint_views_differ(handler: Handler, a: ViewIndex, b: ViewIndex)
    requires
        handler.layout_wf(),
        handler.slot(a) is Some,
        handler.slot(b) is Some,
        !a.subview_of(&b),
    ensures
        handler.slot(a) != handler.slot(b),
{
    let fa = handler.slot(a)->0;
    let fb = handler.slot(b)->0;
    if fa == fb {
        match a.spec_type() {
            IndexType::FromVar(i) => {
                assert(handler.owners()[handler.singles()[i as int] as int] == IndexType::FromVar(i));
            },
            IndexType::FromArrayOfVarsVar(i, j) => {
                assert(handler.owners()[element_slot(handler.arrays()[i as int].0, j as int)]
                    == IndexType::FromArrayOfVarsVar(i, j));
            },
            IndexType::FromArrayOfVars(_) => {},
        }
        match b.spec_type() {
            IndexType::FromVar(i) => {
                assert(handler.owners()[handler.singles()[i as int] as int] == IndexType::FromVar(i));
            },
            IndexType::FromArrayOfVarsVar(i, j) => {
                assert(handler.owners()[element_slot(handler.arrays()[i as int].0, j as int)]
                    == IndexType::FromArrayOfVarsVar(i, j));
            },
            IndexType::FromArrayOfVars(_) => {},
        }
    }
}

/// The number of values that the first `k` variables of `vars` hold together.
pub open spec fn values_left(vars: Seq<IntVar>, k: int) -> nat
    decreases k,
{
    if k <= 0 {
        0
    } else {
        values_left(vars, k - 1) + vars[k - 1]@.len()
    }
}

/// Where every variable of `after` holds values of its counterpart in
/// `before` only, the variables of `after` hold no more values together; and
/// fewer where the variable at the place `f` has lost one.
pub proof fn lemma_values_left(before: Seq<IntVar>, after: Seq<IntVar>, k: int, f: int)
    requires
        0 <= k <= before.len(),
        before.len() == after.len(),
        forall|i: int| 0 <= i < before.len() ==> (#[trigger] before[i]).wf(),
        forall|i: int| 0 <= i < after.len() ==> (#[trigger] after[i]).wf(),
        forall|i: int, v: int|
            0 <= i < before.len() && #[trigger] after[i]@.contains(v) ==> before[i]@.contains(v),
    ensures
        values_left(after, k) <= values_left(before, k),
        0 <= f < k && after[f]@ != before[f]@ ==> values_left(after, k) < values_left(before, k),
    decreases k,
{
    if k > 0 {
        lemma_values_left(before, after, k - 1, f);
        crate::constraints::lemma_same_size_same_values(before[k - 1], after[k - 1]);
    }
}

impl Handler {
    /// The number of values that the variables hold together.
    pub open spec fn measure(&self) -> nat {
        values_left(self.vars(), self.vars().len() as int)
    }
}

/// Narrowing a store leaves no more values in it, and fewer where a variable
/// has lost one.
pub proof fn lemma_narrowing_measure(before: Handler, after: Handler, f: int)
    requires
        before.wf(),
        after.wf(),
        crate::constraints::narrowed(&before, &after),
    ensures
        after.measure() <= before.measure(),
        0 <= f < before.vars().len() && after.vars()[f]@ != before.vars()[f]@ ==> after.measure()
            < before.measure(),
{
    lemma_values_left(before.vars(), after.vars(), before.vars().len() as int, f);
}

} // verus!
