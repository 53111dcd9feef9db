//! Order and equality between two integer variables, and the sum of a
//! variable and a constant.

use vstd::prelude::*;

use crate::constraints::{
    account,
    agree,
    below,
    lemma_same_size_same_values,
    narrowed,
    PropagationState,
    Propagator,
    Snapshot,
};
use crate::variables::handlers::default_handler::{
    lemma_disjoint_views_differ, lemma_narrowing_measure, Handler,
};
use crate::variables::int_var::{lemma_bounds_are_values, IntVar};
use crate::variables::{pairwise_disjoint, VariableError, VariableState, ViewIndex};

verus! {

/// The relations between two variables `x` and `y` that the catalog holds.
#[derive(Debug, Clone, Copy, PartialEq, Eq, Structural)]
pub enum RelationKind {
    /// `x < y`, on bounds.
    LessThan,
    /// `x <= y`, on bounds.
    LessOrEqualThan,
    /// `x > y`, on bounds.
    GreaterThan,
    /// `x >= y`, on bounds.
    GreaterOrEqualThan,
    /// `x = y`, on values: both keep the values that both hold.
    Equal,
    /// `x = y`, on bounds: both keep what lies between the smallest and the
    /// largest value that both hold.
    EqualOnBounds,
}

/// Whether narrowing `x` and `y` for the relation `kind` would change
/// nothing and would not fail.
pub open spec fn relation_at_fixpoint(kind: RelationKind, x: IntVar, y: IntVar) -> bool {
    match kind {
        RelationKind::LessThan => x.spec_max() < y.spec_max() && x.spec_min() < y.spec_min(),
        RelationKind::LessOrEqualThan => x.spec_max() <= y.spec_max() && x.spec_min()
            <= y.spec_min(),
        RelationKind::GreaterThan => y.spec_max() < x.spec_max() && y.spec_min() < x.spec_min(),
        RelationKind::GreaterOrEqualThan => y.spec_max() <= x.spec_max() && y.spec_min()
            <= x.spec_min(),
        RelationKind::Equal => x@ == y@,
        RelationKind::EqualOnBounds => x.spec_min() == y.spec_min() && x.spec_max()
            == y.spec_max(),
    }
}

/// Whether the relation `kind` holds whatever values are picked from `x` and
/// `y`.
pub open spec fn relation_entailed(kind: RelationKind, x: IntVar, y: IntVar) -> bool {
    match kind {
        RelationKind::LessThan => x.spec_max() < y.spec_min(),
        RelationKind::LessOrEqualThan => x.spec_max() <= y.spec_min(),
        RelationKind::GreaterThan => y.spec_max() < x.spec_min(),
        RelationKind::GreaterOrEqualThan => y.spec_max() <= x.spec_min(),
        RelationKind::Equal | RelationKind::EqualOnBounds => x.spec_min() == x.spec_max()
            && y.spec_min() == y.spec_max() && x.spec_min() == y.spec_min(),
    }
}

/// Whether no value of `x` and no value of `y` stand in the relation `kind`,
/// which is when narrowing fails.
pub open spec fn relation_fails(kind: RelationKind, x: IntVar, y: IntVar) -> bool {
    match kind {
        RelationKind::LessThan => y.spec_max() <= x.spec_min(),
        RelationKind::LessOrEqualThan => y.spec_max() < x.spec_min(),
        RelationKind::GreaterThan => x.spec_max() <= y.spec_min(),
        RelationKind::GreaterOrEqualThan => x.spec_max() < y.spec_min(),
        RelationKind::Equal | RelationKind::EqualOnBounds => x@.disjoint(y@),
    }
}

/// Whether the values `a` and `b` stand in the relation `kind`.
pub open spec fn relation_holds(kind: RelationKind, a: int, b: int) -> bool {
    match kind {
        RelationKind::LessThan => a < b,
        RelationKind::LessOrEqualThan => a <= b,
        RelationKind::GreaterThan => a > b,
        RelationKind::GreaterOrEqualThan => a >= b,
        RelationKind::Equal | RelationKind::EqualOnBounds => a == b,
    }
}

/// On two fixed variables a relation is at its fixed point exactly when it
/// holds of their values.
pub proof fn lemma_fixed_relation(kind: RelationKind, x: IntVar, y: IntVar)
    requires
        x.wf(),
        y.wf(),
        x.spec_min() == x.spec_max(),
        y.spec_min() == y.spec_max(),
    ensures
        relation_at_fixpoint(kind, x, y) <==> relation_holds(kind, x.spec_min(), y.spec_min()),
{
    lemma_bounds_are_values(x);
    lemma_bounds_are_values(y);
    if kind == RelationKind::Equal {
        if x.spec_min() == y.spec_min() {
            assert(x@ =~= y@) by {
                assert forall|v: int| x@.contains(v) <==> y@.contains(v) by {
                    if x@.contains(v) {
                        assert(v == x.spec_min());
                    }
                    if y@.contains(v) {
                        assert(v == y.spec_min());
                    }
                }
            }
        }
        if x@ == y@ {
            assert(y@.contains(x.spec_min()));
        }
    }
}

/// On two fixed variables `r = x + k` is at its fixed point exactly when it
/// holds of their values.
pub proof fn lemma_fixed_shift(r: IntVar, x: IntVar, k: i32)
    requires
        r.wf(),
        x.wf(),
        r.spec_min() == r.spec_max(),
        x.spec_min() == x.spec_max(),
    ensures
        shift_at_fixpoint(r, x, k as int) <==> r.spec_min() == x.spec_min() + k,
{
    lemma_bounds_are_values(r);
    lemma_bounds_are_values(x);
}

/// A constraint that two variables stand in a relation.
#[derive(Debug, Clone, Copy)]
pub struct BinaryRelation {
    x: ViewIndex,
    y: ViewIndex,
    kind: RelationKind,
}

impl BinaryRelation {
    /// The handle of the first variable.
    pub closed spec fn x(&self) -> ViewIndex {
        self.x
    }

    /// The handle of the second variable.
    pub closed spec fn y(&self) -> ViewIndex {
        self.y
    }

    /// The relation.
    pub closed spec fn kind(&self) -> RelationKind {
        self.kind
    }

    /// The constraint that `x` and `y` stand in the relation `kind`. Where
    /// one of the handles is a subview of the other, there is none, and the
    /// two handles come back.
    pub fn new(x: &ViewIndex, y: &ViewIndex, kind: RelationKind) -> (r: Result<
        BinaryRelation,
        (ViewIndex, ViewIndex),
    >)
        ensures
            r is Ok <==> !x.subview_of(y) && !y.subview_of(x),
            r matches Ok(c) ==> c.x() == *x && c.y() == *y && c.kind() == kind && c.params_wf(),
            r matches Err(pair) ==> pair == (*x, *y),
    {
        if x.is_subview_of(y) || y.is_subview_of(x) {
            Err((*x, *y))
        } else {
            let c = BinaryRelation { x: *x, y: *y, kind };
            assert(c.views() =~= seq![*x, *y]);
            Ok(c)
        }
    }

    /// The constraint `x < y`.
    pub fn less_than(x: &ViewIndex, y: &ViewIndex) -> (r: Result<
        BinaryRelation,
        (ViewIndex, ViewIndex),
    >)
        ensures
            r is Ok <==> !x.subview_of(y) && !y.subview_of(x),
            r matches Ok(c) ==> c.x() == *x && c.y() == *y && c.kind() == RelationKind::LessThan
                && c.params_wf(),
            r matches Err(pair) ==> pair == (*x, *y),
    {
        BinaryRelation::new(x, y, RelationKind::LessThan)
    }

    /// The constraint `x <= y`.
    pub fn less_or_equal_than(x: &ViewIndex, y: &ViewIndex) -> (r: Result<
        BinaryRelation,
        (ViewIndex, ViewIndex),
    >)
        ensures
            r is Ok <==> !x.subview_of(y) && !y.subview_of(x),
            r matches Ok(c) ==> c.x() == *x && c.y() == *y && c.kind()
                == RelationKind::LessOrEqualThan && c.params_wf(),
            r matches Err(pair) ==> pair == (*x, *y),
    {
        BinaryRelation::new(x, y, RelationKind::LessOrEqualThan)
    }

    /// The constraint `x > y`.
    pub fn greater_than(x: &ViewIndex, y: &ViewIndex) -> (r: Result<
        BinaryRelation,
        (ViewIndex, ViewIndex),
    >)
        ensures
            r is Ok <==> !x.subview_of(y) && !y.subview_of(x),
            r matches Ok(c) ==> c.x() == *x && c.y() == *y && c.kind() == RelationKind::GreaterThan
                && c.params_wf(),
            r matches Err(pair) ==> pair == (*x, *y),
    {
        BinaryRelation::new(x, y, RelationKind::GreaterThan)
    }

    /// The constraint `x >= y`.
    pub fn greater_or_equal_than(x: &ViewIndex, y: &ViewIndex) -> (r: Result<
        BinaryRelation,
        (ViewIndex, ViewIndex),
    >)
        ensures
            r is Ok <==> !x.subview_of(y) && !y.subview_of(x),
            r matches Ok(c) ==> c.x() == *x && c.y() == *y && c.kind()
                == RelationKind::GreaterOrEqualThan && c.params_wf(),
            r matches Err(pair) ==> pair == (*x, *y),
    {
        BinaryRelation::new(x, y, RelationKind::GreaterOrEqualThan)
    }

    /// The constraint `x = y`, kept on values.
    pub fn equal(x: &ViewIndex, y: &ViewIndex) -> (r: Result<BinaryRelation, (ViewIndex, ViewIndex)>)
        ensures
            r is Ok <==> !x.subview_of(y) && !y.subview_of(x),
            r matches Ok(c) ==> c.x() == *x && c.y() == *y && c.kind() == RelationKind::Equal
                && c.params_wf(),
            r matches Err(pair) ==> pair == (*x, *y),
    {
        BinaryRelation::new(x, y, RelationKind::Equal)
    }

    /// The constraint `x = y`, kept on bounds.
    pub fn equal_on_bounds(x: &ViewIndex, y: &ViewIndex) -> (r: Result<
        BinaryRelation,
        (ViewIndex, ViewIndex),
    >)
        ensures
            r is Ok <==> !x.subview_of(y) && !y.subview_of(x),
            r matches Ok(c) ==> c.x() == *x && c.y() == *y && c.kind()
                == RelationKind::EqualOnBounds && c.params_wf(),
            r matches Err(pair) ==> pair == (*x, *y),
    {
        BinaryRelation::new(x, y, RelationKind::EqualOnBounds)
    }
}

/// Narrows the variables at the places `lo` and `hi` so that the first can
/// lie below the second, strictly or not.
#[verifier::rlimit(50)]
pub(crate) fn narrow_order(vars: &mut Handler, lo: usize, hi: usize, strict: bool) -> (r: Result<
    (),
    VariableError,
>)
    requires
        old(vars).wf(),
        lo < old(vars).vars().len(),
        hi < old(vars).vars().len(),
        lo != hi,
    ensures
        final(vars).wf(),
        narrowed(old(vars), final(vars)),
        forall|f: int|
            0 <= f < old(vars).vars().len() && f != lo && f != hi ==> final(vars).vars()[f]
                == old(vars).vars()[f],
        r is Err <==> relation_fails(
            if strict {
                RelationKind::LessThan
            } else {
                RelationKind::LessOrEqualThan
            },
            old(vars).vars()[lo as int],
            old(vars).vars()[hi as int],
        ),
        r is Err ==> final(vars).vars() == old(vars).vars(),
        r is Ok ==> relation_at_fixpoint(
            if strict {
                RelationKind::LessThan
            } else {
                RelationKind::LessOrEqualThan
            },
            final(vars).vars()[lo as int],
            final(vars).vars()[hi as int],
        ),
        r is Ok ==> final(vars).vars()[lo as int].spec_min() == old(vars).vars()[lo as int].spec_min()
            && final(vars).vars()[hi as int].spec_max() == old(vars).vars()[hi as int].spec_max(),
        r is Ok && (if strict {
            old(vars).vars()[lo as int].spec_min() < old(vars).vars()[hi as int].spec_min()
        } else {
            old(vars).vars()[lo as int].spec_min() <= old(vars).vars()[hi as int].spec_min()
        }) ==> final(vars).vars()[hi as int] == old(vars).vars()[hi as int],
        relation_at_fixpoint(
            if strict {
                RelationKind::LessThan
            } else {
                RelationKind::LessOrEqualThan
            },
            old(vars).vars()[lo as int],
            old(vars).vars()[hi as int],
        ) ==> r is Ok && final(vars).vars() == old(vars).vars(),
        forall|s: Handler| #[trigger]
            below(old(vars), &s) && relation_at_fixpoint(
                if strict {
                    RelationKind::LessThan
                } else {
                    RelationKind::LessOrEqualThan
                },
                s.vars()[lo as int],
                s.vars()[hi as int],
            ) ==> narrowed(final(vars), &s),
        r is Err ==> forall|s: Handler| #[trigger]
            below(old(vars), &s) ==> !relation_at_fixpoint(
                if strict {
                    RelationKind::LessThan
                } else {
                    RelationKind::LessOrEqualThan
                },
                s.vars()[lo as int],
                s.vars()[hi as int],
            ),
{
    let ghost before = *vars;
    let ghost kind = if strict {
        RelationKind::LessThan
    } else {
        RelationKind::LessOrEqualThan
    };
    proof {
        lemma_bounds_are_values(vars.vars()[lo as int]);
        lemma_bounds_are_values(vars.vars()[hi as int]);
        assert forall|s: Handler| #[trigger]
            below(&before, &s) && relation_at_fixpoint(
                kind,
                s.vars()[lo as int],
                s.vars()[hi as int],
            ) implies !relation_fails(kind, before.vars()[lo as int], before.vars()[hi as int]) by {
            lemma_same_size_same_values(before.vars()[lo as int], s.vars()[lo as int]);
            lemma_same_size_same_values(before.vars()[hi as int], s.vars()[hi as int]);
            lemma_bounds_are_values(s.vars()[lo as int]);
        }
    }
    let bound = vars.variable(hi).max();
    let first = if strict {
        vars.variable_mut(lo).update_strict_bsup(bound)
    } else {
        vars.variable_mut(lo).update_weak_bsup(bound)
    };
    let s1 = match first {
        Err(e) => {
            assert(vars.vars() =~= before.vars());
            return Err(e);
        },
        Ok(s1) => s1,
    };
    let ghost middle = *vars;
    let bound = vars.variable(lo).min();
    let second = if strict {
        vars.variable_mut(hi).update_strict_binf(bound)
    } else {
        vars.variable_mut(hi).update_weak_binf(bound)
    };
    let s2 = match second {
        Err(e) => {
            return Err(e);
        },
        Ok(s2) => s2,
    };
    proof {
        if s1 == VariableState::NoChange && s2 == VariableState::NoChange {
            assert(middle.vars() =~= before.vars());
            assert(vars.vars() =~= before.vars());
        }
        assert forall|s: Handler| #[trigger]
            below(&before, &s) && relation_at_fixpoint(
                kind,
                s.vars()[lo as int],
                s.vars()[hi as int],
            ) implies narrowed(vars, &s) by {
            let a = s.vars()[lo as int];
            let b = s.vars()[hi as int];
            lemma_same_size_same_values(before.vars()[lo as int], a);
            lemma_same_size_same_values(before.vars()[hi as int], b);
            lemma_bounds_are_values(a);
            lemma_bounds_are_values(b);
            assert forall|f: int, v: int|
                0 <= f < vars.vars().len() && #[trigger] s.vars()[f]@.contains(v) implies vars.vars()[f]@.contains(
                v,
            ) by {
                assert(before.vars()[f]@.contains(v));
                if f == lo {
                    assert(v <= a.spec_max());
                } else if f == hi {
                    assert(b.spec_min() <= v);
                } else {
                    assert(vars.vars()[f] == before.vars()[f]);
                }
            }
        }
    }
    Ok(())
}

/// Two domains of which parts are at the fixed point of an equality share
/// a value.
proof fn lemma_equal_shares(x0: IntVar, y0: IntVar, a: IntVar, b: IntVar, values: bool)
    requires
        a.wf(),
        b.wf(),
        forall|v: int| a@.contains(v) ==> x0@.contains(v),
        forall|v: int| b@.contains(v) ==> y0@.contains(v),
        relation_at_fixpoint(
            if values {
                RelationKind::Equal
            } else {
                RelationKind::EqualOnBounds
            },
            a,
            b,
        ),
    ensures
        !x0@.disjoint(y0@),
{
    lemma_bounds_are_values(a);
    lemma_bounds_are_values(b);
    let w = a.spec_min();
    assert(a@.contains(w));
    assert(b@.contains(w));
    assert(x0@.contains(w) && y0@.contains(w));
}

/// The domains that an equality narrows two domains to hold every part of
/// these that is at the fixed point of the equality.
proof fn lemma_equal_greatest(
    x0: IntVar,
    y0: IntVar,
    x1: IntVar,
    x: IntVar,
    y: IntVar,
    a: IntVar,
    b: IntVar,
    values: bool,
)
    requires
        a.wf(),
        b.wf(),
        x1@ == x0@,
        forall|v: int| a@.contains(v) ==> x0@.contains(v),
        forall|v: int| b@.contains(v) ==> y0@.contains(v),
        relation_at_fixpoint(
            if values {
                RelationKind::Equal
            } else {
                RelationKind::EqualOnBounds
            },
            a,
            b,
        ),
        values ==> (forall|v: int| x@.contains(v) <==> x1@.contains(v) && y0@.contains(v)),
        values ==> y.intervals() == x.intervals(),
        !values ==> (forall|v: int|
            x@.contains(v) <==> x1@.contains(v) && x.spec_min() <= v <= x.spec_max()),
        !values ==> (forall|v: int|
            y@.contains(v) <==> y0@.contains(v) && x.spec_min() <= v <= x.spec_max()),
        !values ==> (forall|v: int|
            x1@.contains(v) && y0@.contains(v) ==> x.spec_min() <= v <= x.spec_max()),
    ensures
        forall|v: int| #[trigger] a@.contains(v) ==> x@.contains(v),
        forall|v: int| #[trigger] b@.contains(v) ==> y@.contains(v),
{
    lemma_bounds_are_values(a);
    lemma_bounds_are_values(b);
    assert(a@.contains(a.spec_min()) && b@.contains(b.spec_min()));
    assert(a@.contains(a.spec_max()) && b@.contains(b.spec_max()));
    assert(x0@.contains(a.spec_min()) && y0@.contains(b.spec_min()));
    assert(x0@.contains(a.spec_max()) && y0@.contains(b.spec_max()));
    assert forall|v: int| #[trigger] a@.contains(v) implies x@.contains(v) by {
        assert(x0@.contains(v));
        if values {
            assert(b@.contains(v));
            assert(y0@.contains(v));
        }
    }
    assert forall|v: int| #[trigger] b@.contains(v) implies y@.contains(v) by {
        assert(y0@.contains(v));
        if values {
            assert(a@.contains(v));
            assert(x0@.contains(v));
            assert(x@.contains(v));
        }
    }
}

/// Narrows the variables at the places `fx` and `fy` to the values that both
/// hold, or, if `values` is not set, to what lies between the smallest and
/// the largest of these.
#[verifier::rlimit(50)]
fn narrow_equal(vars: &mut Handler, fx: usize, fy: usize, values: bool) -> (r: Result<
    (),
    VariableError,
>)
    requires
        old(vars).wf(),
        fx < old(vars).vars().len(),
        fy < old(vars).vars().len(),
        fx != fy,
    ensures
        final(vars).wf(),
        narrowed(old(vars), final(vars)),
        forall|f: int|
            0 <= f < old(vars).vars().len() && f != fx && f != fy ==> final(vars).vars()[f]
                == old(vars).vars()[f],
        r is Err <==> old(vars).vars()[fx as int]@.disjoint(old(vars).vars()[fy as int]@),
        r is Err ==> final(vars).vars() == old(vars).vars(),
        r is Ok ==> relation_at_fixpoint(
            if values {
                RelationKind::Equal
            } else {
                RelationKind::EqualOnBounds
            },
            final(vars).vars()[fx as int],
            final(vars).vars()[fy as int],
        ),
        relation_at_fixpoint(
            if values {
                RelationKind::Equal
            } else {
                RelationKind::EqualOnBounds
            },
            old(vars).vars()[fx as int],
            old(vars).vars()[fy as int],
        ) ==> r is Ok && final(vars).equal_domains(old(vars)),
        forall|s: Handler| #[trigger]
            below(old(vars), &s) && relation_at_fixpoint(
                if values {
                    RelationKind::Equal
                } else {
                    RelationKind::EqualOnBounds
                },
                s.vars()[fx as int],
                s.vars()[fy as int],
            ) ==> narrowed(final(vars), &s),
        r is Err ==> forall|s: Handler| #[trigger]
            below(old(vars), &s) ==> !relation_at_fixpoint(
                if values {
                    RelationKind::Equal
                } else {
                    RelationKind::EqualOnBounds
                },
                s.vars()[fx as int],
                s.vars()[fy as int],
            ),
{
    let ghost before = *vars;
    let ghost x0 = vars.vars()[fx as int];
    let ghost y0 = vars.vars()[fy as int];
    proof {
        lemma_bounds_are_values(x0);
        lemma_bounds_are_values(y0);
    }
    let ghost kind = if values {
        RelationKind::Equal
    } else {
        RelationKind::EqualOnBounds
    };
    let mut x = vars.variable(fx).clone();
    let ghost x1 = x;
    proof {
        assert(x@ =~= x0@);
        lemma_bounds_are_values(x);
        assert forall|s: Handler| #[trigger]
            below(&before, &s) && relation_at_fixpoint(
                kind,
                s.vars()[fx as int],
                s.vars()[fy as int],
            ) implies !x0@.disjoint(y0@) by {
            lemma_equal_shares(x0, y0, s.vars()[fx as int], s.vars()[fy as int], values);
        }
    }
    let outcome = if values {
        x.equal(vars.variable_mut(fy))
    } else {
        x.equal_on_bounds(vars.variable_mut(fy))
    };
    match outcome {
        Err(e) => {
            assert(vars.vars() =~= before.vars());
            return Err(e);
        },
        Ok(_) => {},
    }
    proof {
        let y = vars.vars()[fy as int];
        assert forall|s: Handler| #[trigger]
            below(&before, &s) && relation_at_fixpoint(
                kind,
                s.vars()[fx as int],
                s.vars()[fy as int],
            ) implies (forall|v: int| #[trigger]
            s.vars()[fx as int]@.contains(v) ==> x@.contains(v)) && (forall|v: int| #[trigger]
            s.vars()[fy as int]@.contains(v) ==> y@.contains(v)) by {
            lemma_equal_greatest(
                x0,
                y0,
                x1,
                x,
                y,
                s.vars()[fx as int],
                s.vars()[fy as int],
                values,
            );
        }
    }
    let ghost y_final = vars.vars()[fy as int];
    proof {
        lemma_bounds_are_values(x);
        let y = vars.vars()[fy as int];
        lemma_bounds_are_values(y);
        if values {
            assert(x@ =~= y@);
            if x0@ == y0@ {
                assert(x@ =~= x1@);
                assert(y@ =~= y0@);
                crate::variables::int_var::lemma_same_values_same_domain(x, x1);
                crate::variables::int_var::lemma_same_values_same_domain(y, y0);
            }
        } else {
            if x0.spec_min() == y0.spec_min() && x0.spec_max() == y0.spec_max() {
                assert(x1@.contains(x0.spec_min()) && y0@.contains(x0.spec_min()));
                assert(x1@.contains(x0.spec_max()) && y0@.contains(x0.spec_max()));
            }
        }
    }
    let place = vars.variable_mut(fx);
    *place = x;
    proof {
        assert forall|s: Handler| #[trigger]
            below(&before, &s) && relation_at_fixpoint(
                kind,
                s.vars()[fx as int],
                s.vars()[fy as int],
            ) implies narrowed(vars, &s) by {
            assert forall|f: int, v: int|
                0 <= f < vars.vars().len() && #[trigger] s.vars()[f]@.contains(v) implies vars.vars()[f]@.contains(
                v,
            ) by {
                assert(before.vars()[f]@.contains(v));
                if f != fx && f != fy {
                    assert(vars.vars()[f] == before.vars()[f]);
                }
            }
        }
    }
    Ok(())
}

/// Narrows the variables at the places `fx` and `fy` for the relation `kind`
/// between them.
fn narrow_relation(vars: &mut Handler, fx: usize, fy: usize, kind: RelationKind) -> (r: Result<
    (),
    VariableError,
>)
    requires
        old(vars).wf(),
        fx < old(vars).vars().len(),
        fy < old(vars).vars().len(),
        fx != fy,
    ensures
        final(vars).wf(),
        narrowed(old(vars), final(vars)),
        forall|f: int|
            0 <= f < old(vars).vars().len() && f != fx && f != fy ==> final(vars).vars()[f]
                == old(vars).vars()[f],
        r is Err <==> relation_fails(
            kind,
            old(vars).vars()[fx as int],
            old(vars).vars()[fy as int],
        ),
        r is Err ==> final(vars).equal_domains(old(vars)),
        r is Ok ==> relation_at_fixpoint(
            kind,
            final(vars).vars()[fx as int],
            final(vars).vars()[fy as int],
        ),
        relation_at_fixpoint(kind, old(vars).vars()[fx as int], old(vars).vars()[fy as int])
            ==> r is Ok && final(vars).equal_domains(old(vars)),
        forall|s: Handler| #[trigger]
            below(old(vars), &s) && relation_at_fixpoint(
                kind,
                s.vars()[fx as int],
                s.vars()[fy as int],
            ) ==> narrowed(final(vars), &s),
        r is Err ==> forall|s: Handler| #[trigger]
            below(old(vars), &s) ==> !relation_at_fixpoint(
                kind,
                s.vars()[fx as int],
                s.vars()[fy as int],
            ),
{
    match kind {
        RelationKind::LessThan => narrow_order(vars, fx, fy, true),
        RelationKind::LessOrEqualThan => narrow_order(vars, fx, fy, false),
        RelationKind::GreaterThan => narrow_order(vars, fy, fx, true),
        RelationKind::GreaterOrEqualThan => narrow_order(vars, fy, fx, false),
        RelationKind::Equal => narrow_equal(vars, fx, fy, true),
        RelationKind::EqualOnBounds => narrow_equal(vars, fx, fy, false),
    }
}

impl Propagator for BinaryRelation {
    open spec fn views(&self) -> Seq<ViewIndex> {
        seq![self.x(), self.y()]
    }

    open spec fn params_wf(&self) -> bool {
        pairwise_disjoint(self.views())
    }

    open spec fn reads_values(&self) -> bool {
        self.kind() == RelationKind::Equal
    }

    open spec fn at_fixpoint(&self, vars: &Handler) -> bool {
        relation_at_fixpoint(
            self.kind(),
            vars.vars()[vars.slot(self.x())->0],
            vars.vars()[vars.slot(self.y())->0],
        )
    }

    open spec fn entailed(&self, vars: &Handler) -> bool {
        relation_entailed(
            self.kind(),
            vars.vars()[vars.slot(self.x())->0],
            vars.vars()[vars.slot(self.y())->0],
        )
    }

    proof fn lemma_reads(&self, a: &Handler, b: &Handler) {
        assert(self.views()[0] == self.x());
        assert(self.views()[1] == self.y());
    }

    proof fn lemma_entailed(&self, a: &Handler, b: &Handler) {
        assert(self.views()[0] == self.x());
        assert(self.views()[1] == self.y());
        crate::variables::handlers::default_handler::lemma_slot_fits(*a, self.x());
        crate::variables::handlers::default_handler::lemma_slot_fits(*a, self.y());
        let fx = a.slot(self.x())->0;
        let fy = a.slot(self.y())->0;
        lemma_same_size_same_values(a.vars()[fx], b.vars()[fx]);
        lemma_same_size_same_values(a.vars()[fy], b.vars()[fy]);
        lemma_bounds_are_values(a.vars()[fx]);
        lemma_bounds_are_values(a.vars()[fy]);
        lemma_bounds_are_values(b.vars()[fx]);
        lemma_bounds_are_values(b.vars()[fy]);
        if self.kind() == RelationKind::Equal {
            let v = a.vars()[fx].spec_min();
            assert forall|w: int| b.vars()[fx]@.contains(w) <==> w == v by {
                if b.vars()[fx]@.contains(w) {
                    assert(a.vars()[fx]@.contains(w));
                }
                if w == v {
                    assert(b.vars()[fx]@.contains(b.vars()[fx].spec_min()));
                }
            }
            assert forall|w: int| b.vars()[fy]@.contains(w) <==> w == v by {
                if b.vars()[fy]@.contains(w) {
                    assert(a.vars()[fy]@.contains(w));
                }
                if w == v {
                    assert(b.vars()[fy]@.contains(b.vars()[fy].spec_min()));
                }
            }
            assert(b.vars()[fx]@ =~= b.vars()[fy]@);
        }
    }

    fn is_entailed(&self, vars: &Handler) -> (r: bool) {
        proof {
            assert(self.views()[0] == self.x());
            assert(self.views()[1] == self.y());
        }
        let x = vars.get_variable(&self.x);
        let y = vars.get_variable(&self.y);
        match self.kind {
            RelationKind::LessThan => x.max() < y.min(),
            RelationKind::LessOrEqualThan => x.max() <= y.min(),
            RelationKind::GreaterThan => y.max() < x.min(),
            RelationKind::GreaterOrEqualThan => y.max() <= x.min(),
            RelationKind::Equal | RelationKind::EqualOnBounds => x.is_fixed() && y.is_fixed()
                && x.min() == y.min(),
        }
    }

    fn observed(&self) -> (r: Vec<ViewIndex>) {
        let mut r: Vec<ViewIndex> = Vec::new();
        r.push(self.x);
        r.push(self.y);
        assert(r@ =~= self.views());
        r
    }

    fn reads(&self) -> (r: bool) {
        match self.kind {
            RelationKind::Equal => true,
            _ => false,
        }
    }

    fn check(&self, vars: &Handler) -> (r: bool) {
        crate::constraints::check_views(vars, &self.observed())
    }

    fn dependencies(&self, vars: &Handler) -> (r: Vec<(ViewIndex, VariableState)>) {
        let mut r: Vec<(ViewIndex, VariableState)> = Vec::new();
        r.push((self.x, VariableState::MinBoundChange));
        r.push((self.x, VariableState::MaxBoundChange));
        r.push((self.y, VariableState::MinBoundChange));
        r.push((self.y, VariableState::MaxBoundChange));
        match self.kind {
            RelationKind::Equal => {
                r.push((self.x, VariableState::ValuesChange));
                r.push((self.y, VariableState::ValuesChange));
            },
            _ => {},
        }
        proof {
            assert(self.views()[0] == self.x());
            assert(self.views()[1] == self.y());
            let fx = vars.slot(self.x())->0;
            let fy = vars.slot(self.y())->0;
            assert(r@[0] == (self.x, VariableState::MinBoundChange));
            assert(r@[1] == (self.x, VariableState::MaxBoundChange));
            assert(r@[2] == (self.y, VariableState::MinBoundChange));
            assert(r@[3] == (self.y, VariableState::MaxBoundChange));
            if self.kind == RelationKind::Equal {
                assert(r@[4] == (self.x, VariableState::ValuesChange));
                assert(r@[5] == (self.y, VariableState::ValuesChange));
            }
        }
        r
    }

    fn prepare(&mut self, changes: Vec<ViewIndex>) {
    }

    #[verifier::rlimit(50)]
    fn propagate(&self, vars: &mut Handler) -> (r: Result<PropagationState, VariableError>) {
        proof {
            assert(self.views()[0] == self.x());
            assert(self.views()[1] == self.y());
            lemma_disjoint_views_differ(*vars, self.x(), self.y());
        }
        let ghost before = *vars;
        let sx = Snapshot::take(vars, &self.x);
        let sy = Snapshot::take(vars, &self.y);
        let fx = sx.place;
        let fy = sy.place;
        let mut snaps: Vec<Snapshot> = Vec::new();
        snaps.push(sx);
        snaps.push(sy);
        let outcome = narrow_relation(vars, fx, fy, self.kind);
        proof {
            assert forall|s: Handler| #[trigger]
                below(&before, &s) && self.at_fixpoint(&s) implies outcome is Ok && narrowed(
                vars,
                &s,
            ) by {
                assert(s.slot(self.x()) == before.slot(self.x()));
                assert(s.slot(self.y()) == before.slot(self.y()));
            }
        }
        match outcome {
            Err(e) => {
                proof {
                    lemma_bounds_are_values(before.vars()[fx as int]);
                    lemma_bounds_are_values(before.vars()[fy as int]);
                    assert forall|f: int|
                        0 <= f < before.vars().len() && !crate::constraints::leads_to(
                            self.views(),
                            &before,
                            f,
                        ) implies vars.vars()[f] == before.vars()[f] by {
                        assert(f != fx);
                        assert(f != fy);
                    }
                }
                return Err(e);
            },
            Ok(()) => {},
        }
        proof {
            assert forall|f: int|
                0 <= f < before.vars().len() && (forall|k: int|
                    0 <= k < snaps@.len() ==> (#[trigger] snaps@[k]).place != f) implies vars.vars()[f]
                == before.vars()[f] by {
                assert(snaps@[0].place != f);
                assert(snaps@[1].place != f);
            }
            assert forall|f: int|
                0 <= f < before.vars().len() && !crate::constraints::leads_to(
                    self.views(),
                    &before,
                    f,
                ) implies vars.vars()[f] == before.vars()[f] by {
                assert(f != fx);
                assert(f != fy);
            }
        }
        let changes = account(vars, &snaps, Ghost(before));
        let x = vars.variable(fx);
        let y = vars.variable(fy);
        proof {
            lemma_bounds_are_values(*x);
            lemma_bounds_are_values(*y);
            if vars.equal_domains(&before) {
                assert(agree(before.vars()[fx as int], *x, true));
                assert(agree(before.vars()[fy as int], *y, true));
            }
        }
        let entailed = match self.kind {
            RelationKind::LessThan => x.max() < y.min(),
            RelationKind::LessOrEqualThan => x.max() <= y.min(),
            RelationKind::GreaterThan => y.max() < x.min(),
            RelationKind::GreaterOrEqualThan => y.max() <= x.min(),
            RelationKind::Equal | RelationKind::EqualOnBounds => x.is_fixed() && y.is_fixed()
                && x.min() == y.min(),
        };
        assert(below(&before, vars) && self.at_fixpoint(vars));
        if entailed {
            Ok(PropagationState::Subsumed(changes))
        } else if changes.len() == 0 {
            Ok(PropagationState::NoChange)
        } else {
            Ok(PropagationState::FixPoint(changes))
        }
    }
}

/// The value nearest to `v` that an `i32` can hold.
pub open spec fn clamp(v: int) -> int {
    if v < i32::MIN {
        i32::MIN as int
    } else if v > i32::MAX {
        i32::MAX as int
    } else {
        v
    }
}

/// The value nearest to `v` that an `i32` can hold.
pub fn saturate(v: i64) -> (r: i32)
    ensures
        r == clamp(v as int),
{
    if v < i32::MIN as i64 {
        i32::MIN
    } else if v > i32::MAX as i64 {
        i32::MAX
    } else {
        v as i32
    }
}

/// Whether narrowing `r` and `x` for `r = x + k` would change nothing and
/// would not fail: the bounds of each lie within the bounds of the other,
/// moved by `k` and clamped.
pub open spec fn shift_at_fixpoint(r: IntVar, x: IntVar, k: int) -> bool {
    &&& clamp(x.spec_min() + k) <= r.spec_min()
    &&& r.spec_max() <= clamp(x.spec_max() + k)
    &&& clamp(r.spec_min() - k) <= x.spec_min()
    &&& x.spec_max() <= clamp(r.spec_max() - k)
}

/// Whether `r = x + k` holds of the only values left to `r` and `x`.
pub open spec fn shift_entailed(r: IntVar, x: IntVar, k: int) -> bool {
    r.spec_min() == r.spec_max() && x.spec_min() == x.spec_max() && r.spec_min() == x.spec_min()
        + k
}

/// The constraint that a variable is another one plus a constant, kept on
/// bounds.
#[derive(Debug, Clone, Copy)]
pub struct AddConstant {
    res: ViewIndex,
    var: ViewIndex,
    coef: i32,
}

/// One round of narrowing for `r = x + k`, with `r` at the place `fr` and `x`
/// at the place `fx`: the bounds of `r` from those of `x`, then the bounds
/// of `x` from those of `r`. Tells whether anything was narrowed.
#[verifier::rlimit(50)]
fn shift_pass(vars: &mut Handler, fr: usize, fx: usize, k: i32) -> (r: Result<bool, VariableError>)
    requires
        old(vars).wf(),
        fr < old(vars).vars().len(),
        fx < old(vars).vars().len(),
        fr != fx,
    ensures
        final(vars).wf(),
        narrowed(old(vars), final(vars)),
        forall|f: int|
            0 <= f < old(vars).vars().len() && f != fr && f != fx ==> final(vars).vars()[f]
                == old(vars).vars()[f],
        r == Ok::<bool, VariableError>(false) <==> shift_at_fixpoint(
            old(vars).vars()[fr as int],
            old(vars).vars()[fx as int],
            k as int,
        ),
        r == Ok::<bool, VariableError>(false) ==> final(vars).vars() == old(vars).vars(),
        r == Ok::<bool, VariableError>(true) ==> final(vars).measure() < old(vars).measure(),
        forall|s: Handler| #[trigger]
            below(old(vars), &s) && shift_at_fixpoint(
                s.vars()[fr as int],
                s.vars()[fx as int],
                k as int,
            ) ==> r is Ok && narrowed(final(vars), &s),
{
    let ghost before = *vars;
    proof {
        lemma_bounds_are_values(vars.vars()[fr as int]);
        lemma_bounds_are_values(vars.vars()[fx as int]);
    }
    let low = saturate(vars.variable(fx).min() as i64 + k as i64);
    let high = saturate(vars.variable(fx).max() as i64 + k as i64);
    proof {
        assert forall|s: Handler| #[trigger]
            below(&before, &s) && shift_at_fixpoint(
                s.vars()[fr as int],
                s.vars()[fx as int],
                k as int,
            ) implies (forall|v: int| s.vars()[fr as int]@.contains(v) ==> low <= v <= high) by {
            lemma_shift_within(
                before.vars()[fr as int],
                before.vars()[fx as int],
                s.vars()[fr as int],
                s.vars()[fx as int],
                k as int,
            );
        }
    }
    let first_outcome = crate::constraints::confine(vars, fr, low, high);
    let ghost middle = *vars;
    proof {
        assert forall|s: Handler| #[trigger]
            below(&before, &s) && shift_at_fixpoint(
                s.vars()[fr as int],
                s.vars()[fx as int],
                k as int,
            ) implies first_outcome is Ok && below(&middle, &s) by {
            assert(forall|v: int| s.vars()[fr as int]@.contains(v) ==> low <= v <= high);
        }
    }
    let first = match first_outcome {
        Err(e) => {
            return Err(e);
        },
        Ok(first) => first,
    };
    proof {
        lemma_bounds_are_values(vars.vars()[fr as int]);
    }
    let low = saturate(vars.variable(fr).min() as i64 - k as i64);
    let high = saturate(vars.variable(fr).max() as i64 - k as i64);
    proof {
        assert forall|s: Handler| #[trigger]
            below(&middle, &s) && shift_at_fixpoint(
                s.vars()[fr as int],
                s.vars()[fx as int],
                k as int,
            ) implies (forall|v: int| s.vars()[fx as int]@.contains(v) ==> low <= v <= high) by {
            lemma_shift_within(
                middle.vars()[fr as int],
                middle.vars()[fx as int],
                s.vars()[fr as int],
                s.vars()[fx as int],
                k as int,
            );
        }
    }
    let second_outcome = crate::constraints::confine(vars, fx, low, high);
    proof {
        crate::constraints::lemma_narrowed_twice(&before, &middle, vars);
        lemma_narrowing_measure(before, middle, 0);
        lemma_narrowing_measure(middle, *vars, 0);
        assert forall|s: Handler| #[trigger]
            below(&before, &s) && shift_at_fixpoint(
                s.vars()[fr as int],
                s.vars()[fx as int],
                k as int,
            ) implies second_outcome is Ok && narrowed(vars, &s) by {
            assert(below(&middle, &s));
            assert(forall|v: int| s.vars()[fx as int]@.contains(v) ==> low <= v <= high);
        }
    }
    let second = match second_outcome {
        Err(e) => {
            return Err(e);
        },
        Ok(second) => second,
    };
    Ok(first || second)
}

/// Where `r = x + k` is at its fixed point on parts of two domains, the part
/// of each lies within the bounds of the other domain, moved by `k` and
/// clamped.
proof fn lemma_shift_within(r: IntVar, x: IntVar, sr: IntVar, sx: IntVar, k: int)
    requires
        r.wf(),
        x.wf(),
        sr.wf(),
        sx.wf(),
        forall|v: int| sr@.contains(v) ==> r@.contains(v),
        forall|v: int| sx@.contains(v) ==> x@.contains(v),
        shift_at_fixpoint(sr, sx, k),
    ensures
        forall|v: int|
            sr@.contains(v) ==> clamp(x.spec_min() + k) <= v <= clamp(x.spec_max() + k),
        forall|v: int|
            sx@.contains(v) ==> clamp(r.spec_min() - k) <= v <= clamp(r.spec_max() - k),
{
    lemma_same_size_same_values(r, sr);
    lemma_same_size_same_values(x, sx);
    lemma_bounds_are_values(sr);
    lemma_bounds_are_values(sx);
}

/// Narrows for `r = x + k` until a round narrows nothing more.
fn shift_narrow(vars: &mut Handler, fr: usize, fx: usize, k: i32) -> (r: Result<(), VariableError>)
    requires
        old(vars).wf(),
        fr < old(vars).vars().len(),
        fx < old(vars).vars().len(),
        fr != fx,
    ensures
        final(vars).wf(),
        narrowed(old(vars), final(vars)),
        forall|f: int|
            0 <= f < old(vars).vars().len() && f != fr && f != fx ==> final(vars).vars()[f]
                == old(vars).vars()[f],
        r is Ok ==> shift_at_fixpoint(
            final(vars).vars()[fr as int],
            final(vars).vars()[fx as int],
            k as int,
        ),
        shift_at_fixpoint(old(vars).vars()[fr as int], old(vars).vars()[fx as int], k as int)
            ==> r is Ok && final(vars).vars() == old(vars).vars(),
        forall|s: Handler| #[trigger]
            below(old(vars), &s) && shift_at_fixpoint(
                s.vars()[fr as int],
                s.vars()[fx as int],
                k as int,
            ) ==> r is Ok && narrowed(final(vars), &s),
{
    let ghost before = *vars;
    let ghost mut first = true;
    loop
        invariant
            vars.wf(),
            before == *old(vars),
            forall|s: Handler| #[trigger]
                below(&before, &s) && shift_at_fixpoint(
                    s.vars()[fr as int],
                    s.vars()[fx as int],
                    k as int,
                ) ==> narrowed(vars, &s),
            before.wf(),
            narrowed(&before, vars),
            fr < before.vars().len(),
            fx < before.vars().len(),
            fr != fx,
            first ==> vars.vars() == before.vars(),
            !first ==> !shift_at_fixpoint(
                before.vars()[fr as int],
                before.vars()[fx as int],
                k as int,
            ),
            forall|f: int|
                0 <= f < before.vars().len() && f != fr && f != fx ==> vars.vars()[f]
                    == before.vars()[f],
        decreases vars.measure(),
    {
        let ghost held = *vars;
        let outcome = shift_pass(vars, fr, fx, k);
        proof {
            crate::constraints::lemma_narrowed_twice(&before, &held, vars);
            assert forall|s: Handler| #[trigger]
                below(&before, &s) && shift_at_fixpoint(
                    s.vars()[fr as int],
                    s.vars()[fx as int],
                    k as int,
                ) implies outcome is Ok && narrowed(vars, &s) by {
                assert(below(&held, &s));
            }
        }
        match outcome {
            Err(e) => {
                return Err(e);
            },
            Ok(changed) => {
                if !changed {
                    return Ok(());
                }
            },
        }
        proof {
            first = false;
        }
    }
}

impl AddConstant {
    /// The handle of the sum.
    pub closed spec fn res(&self) -> ViewIndex {
        self.res
    }

    /// The handle of the variable.
    pub closed spec fn var(&self) -> ViewIndex {
        self.var
    }

    /// The constant.
    pub closed spec fn coef(&self) -> i32 {
        self.coef
    }

    /// The constraint `res = var + coef`. Where one of the handles is a
    /// subview of the other, there is none, and the two handles come back.
    pub fn new(res: &ViewIndex, var: &ViewIndex, coef: i32) -> (r: Result<
        AddConstant,
        (ViewIndex, ViewIndex),
    >)
        ensures
            r is Ok <==> !res.subview_of(var) && !var.subview_of(res),
            r matches Ok(c) ==> c.res() == *res && c.var() == *var && c.coef() == coef
                && c.params_wf(),
            r matches Err(pair) ==> pair == (*res, *var),
    {
        if res.is_subview_of(var) || var.is_subview_of(res) {
            Err((*res, *var))
        } else {
            let c = AddConstant { res: *res, var: *var, coef };
            assert(c.views() =~= seq![*res, *var]);
            Ok(c)
        }
    }
}

impl Propagator for AddConstant {
    open spec fn views(&self) -> Seq<ViewIndex> {
        seq![self.res(), self.var()]
    }

    open spec fn params_wf(&self) -> bool {
        pairwise_disjoint(self.views())
    }

    open spec fn reads_values(&self) -> bool {
        false
    }

    open spec fn at_fixpoint(&self, vars: &Handler) -> bool {
        shift_at_fixpoint(
            vars.vars()[vars.slot(self.res())->0],
            vars.vars()[vars.slot(self.var())->0],
            self.coef() as int,
        )
    }

    open spec fn entailed(&self, vars: &Handler) -> bool {
        shift_entailed(
            vars.vars()[vars.slot(self.res())->0],
            vars.vars()[vars.slot(self.var())->0],
            self.coef() as int,
        )
    }

    proof fn lemma_reads(&self, a: &Handler, b: &Handler) {
        assert(self.views()[0] == self.res());
        assert(self.views()[1] == self.var());
    }

    proof fn lemma_entailed(&self, a: &Handler, b: &Handler) {
        assert(self.views()[0] == self.res());
        assert(self.views()[1] == self.var());
        crate::variables::handlers::default_handler::lemma_slot_fits(*a, self.res());
        crate::variables::handlers::default_handler::lemma_slot_fits(*a, self.var());
        let fr = a.slot(self.res())->0;
        let fx = a.slot(self.var())->0;
        lemma_same_size_same_values(a.vars()[fr], b.vars()[fr]);
        lemma_same_size_same_values(a.vars()[fx], b.vars()[fx]);
        lemma_bounds_are_values(a.vars()[fr]);
        lemma_bounds_are_values(a.vars()[fx]);
        lemma_bounds_are_values(b.vars()[fr]);
        lemma_bounds_are_values(b.vars()[fx]);
    }

    fn is_entailed(&self, vars: &Handler) -> (r: bool) {
        proof {
            assert(self.views()[0] == self.res());
            assert(self.views()[1] == self.var());
        }
        let r = vars.get_variable(&self.res);
        let x = vars.get_variable(&self.var);
        r.is_fixed() && x.is_fixed() && r.min() as i64 == x.min() as i64 + self.coef as i64
    }

    fn observed(&self) -> (r: Vec<ViewIndex>) {
        let mut r: Vec<ViewIndex> = Vec::new();
        r.push(self.res);
        r.push(self.var);
        assert(r@ =~= self.views());
        r
    }

    fn reads(&self) -> (r: bool) {
        false
    }

    fn check(&self, vars: &Handler) -> (r: bool) {
        crate::constraints::check_views(vars, &self.observed())
    }

    fn dependencies(&self, vars: &Handler) -> (r: Vec<(ViewIndex, VariableState)>) {
        let mut r: Vec<(ViewIndex, VariableState)> = Vec::new();
        r.push((self.res, VariableState::MinBoundChange));
        r.push((self.res, VariableState::MaxBoundChange));
        r.push((self.var, VariableState::MinBoundChange));
        r.push((self.var, VariableState::MaxBoundChange));
        proof {
            assert(self.views()[0] == self.res());
            assert(self.views()[1] == self.var());
            assert(r@[0] == (self.res, VariableState::MinBoundChange));
            assert(r@[1] == (self.res, VariableState::MaxBoundChange));
            assert(r@[2] == (self.var, VariableState::MinBoundChange));
            assert(r@[3] == (self.var, VariableState::MaxBoundChange));
        }
        r
    }

    fn prepare(&mut self, changes: Vec<ViewIndex>) {
    }

    #[verifier::rlimit(50)]
    fn propagate(&self, vars: &mut Handler) -> (r: Result<PropagationState, VariableError>) {
        proof {
            assert(self.views()[0] == self.res());
            assert(self.views()[1] == self.var());
            lemma_disjoint_views_differ(*vars, self.res(), self.var());
        }
        let ghost before = *vars;
        let sr = Snapshot::take(vars, &self.res);
        let sx = Snapshot::take(vars, &self.var);
        let fr = sr.place;
        let fx = sx.place;
        let mut snaps: Vec<Snapshot> = Vec::new();
        snaps.push(sr);
        snaps.push(sx);
        let outcome = shift_narrow(vars, fr, fx, self.coef);
        proof {
            assert forall|s: Handler| #[trigger]
                below(&before, &s) && self.at_fixpoint(&s) implies outcome is Ok && narrowed(
                vars,
                &s,
            ) by {
                assert(s.slot(self.res()) == before.slot(self.res()));
                assert(s.slot(self.var()) == before.slot(self.var()));
            }
        }
        match outcome {
            Err(e) => {
                proof {
                    assert forall|f: int|
                        0 <= f < before.vars().len() && !crate::constraints::leads_to(
                            self.views(),
                            &before,
                            f,
                        ) implies vars.vars()[f] == before.vars()[f] by {
                        assert(f != fr);
                        assert(f != fx);
                    }
                }
                return Err(e);
            },
            Ok(()) => {},
        }
        proof {
            assert forall|f: int|
                0 <= f < before.vars().len() && (forall|k: int|
                    0 <= k < snaps@.len() ==> (#[trigger] snaps@[k]).place != f) implies vars.vars()[f]
                == before.vars()[f] by {
                assert(snaps@[0].place != f);
                assert(snaps@[1].place != f);
            }
            assert forall|f: int|
                0 <= f < before.vars().len() && !crate::constraints::leads_to(
                    self.views(),
                    &before,
                    f,
                ) implies vars.vars()[f] == before.vars()[f] by {
                assert(f != fr);
                assert(f != fx);
            }
        }
        let changes = account(vars, &snaps, Ghost(before));
        let r = vars.variable(fr);
        let x = vars.variable(fx);
        proof {
            if vars.equal_domains(&before) {
                assert(agree(before.vars()[fr as int], *r, false));
                assert(agree(before.vars()[fx as int], *x, false));
            }
        }
        let entailed = r.is_fixed() && x.is_fixed() && r.min() as i64 == x.min() as i64
            + self.coef as i64;
        assert(below(&before, vars) && self.at_fixpoint(vars));
        if entailed {
            Ok(PropagationState::Subsumed(changes))
        } else if changes.len() == 0 {
            Ok(PropagationState::NoChange)
        } else {
            Ok(PropagationState::FixPoint(changes))
        }
    }
}

} // verus!
