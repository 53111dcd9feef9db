use solver_cp::constraints::arithmetic::binary_ops::{saturate, AddConstant, BinaryRelation};
use solver_cp::constraints::handlers::{DefaultConstraintsHandler, DefaultConstraintsHandlerBuilder};
use solver_cp::constraints::increasing::Increasing;
use solver_cp::constraints::sum::Sum;
use solver_cp::constraints::{Constraint, PropagationState, Propagator};
use solver_cp::variables::handlers::default_handler::{Builder, Handler};
use solver_cp::variables::{VariableError, VariableState, ViewIndex};

fn domain(vars: &Handler, view: &ViewIndex) -> Vec<(i32, i32)> {
    vars.get_variable(view).domain().clone()
}

fn handler_of(vars: &mut Handler, constraints: Vec<Constraint>) -> DefaultConstraintsHandler {
    let mut builder = DefaultConstraintsHandlerBuilder::new();
    for constraint in constraints {
        builder.add(constraint);
    }
    builder.finalize(vars).unwrap()
}

fn sorted(mut changes: Vec<(ViewIndex, VariableState)>) -> Vec<(ViewIndex, VariableState)> {
    changes.sort_by_key(|&(view, state)| (view, format!("{:?}", state)));
    changes
}

#[test]
fn a_chain_of_less_than_narrows_every_link() {
    let mut builder = Builder::new();
    let a = builder.new_int_variable(3, 10).unwrap();
    let b = builder.new_int_variable(2, 6).unwrap();
    let c = builder.new_int_variable(1, 9).unwrap();
    let mut vars = builder.finalize();
    let mut handler = handler_of(
        &mut vars,
        vec![
            Constraint::Relation(BinaryRelation::less_than(&a, &b).unwrap()),
            Constraint::Relation(BinaryRelation::less_than(&b, &c).unwrap()),
        ],
    );
    assert_eq!(handler.propagate_all(&mut vars), Ok(PropagationState::FixPoint(vec![])));
    assert_eq!(domain(&vars, &a), vec![(3, 5)]);
    assert_eq!(domain(&vars, &b), vec![(4, 6)]);
    assert_eq!(domain(&vars, &c), vec![(5, 9)]);
    assert!(!handler.is_subsumed(0));
    assert!(!handler.is_subsumed(1));
    let place = vars.variable_id(&c).unwrap();
    assert_eq!(vars.variable_mut(place).update_weak_bsup(6), Ok(VariableState::MaxBoundChange));
    assert_eq!(handler.propagate_all(&mut vars), Ok(PropagationState::FixPoint(vec![])));
    assert_eq!(domain(&vars, &a), vec![(3, 4)]);
    assert_eq!(domain(&vars, &b), vec![(4, 5)]);
    assert_eq!(domain(&vars, &c), vec![(5, 6)]);
}

#[test]
fn at_quiescence_every_propagator_reports_no_change() {
    let mut builder = Builder::new();
    let a = builder.new_int_variable(3, 10).unwrap();
    let b = builder.new_int_variable(2, 6).unwrap();
    let c = builder.new_int_variable(1, 9).unwrap();
    let r = builder.new_int_variable(0, 40).unwrap();
    let mut vars = builder.finalize();
    let constraints = vec![
        Constraint::Relation(BinaryRelation::less_than(&a, &b).unwrap()),
        Constraint::Relation(BinaryRelation::greater_than(&c, &b).unwrap()),
        Constraint::Sum(Sum::new(&r, vec![a, b, c], vec![1, 2, 3]).unwrap()),
        Constraint::AddConstant(AddConstant::new(&c, &a, 3).unwrap()),
    ];
    let copies: Vec<Constraint> = constraints.iter().map(|c| c.clone()).collect();
    let mut handler = handler_of(&mut vars, constraints);
    assert!(handler.propagate_all(&mut vars).is_ok());
    let before = vars.clone();
    for (idx, constraint) in copies.iter().enumerate() {
        if !handler.is_subsumed(idx) {
            assert_eq!(constraint.propagate(&mut vars), Ok(PropagationState::NoChange));
        }
    }
    assert_eq!(handler.propagate_all(&mut vars), Ok(PropagationState::FixPoint(vec![])));
    for place in 0..vars.len() {
        assert!(vars.variable(place) == before.variable(place));
    }
}

#[test]
fn after_subsumption_propagation_changes_nothing() {
    let mut builder = Builder::new();
    let a = builder.new_int_variable(0, 3).unwrap();
    let b = builder.new_int_variable(5, 9).unwrap();
    let c = builder.new_int_variable(4, 12).unwrap();
    let mut vars = builder.finalize();
    let mut handler = handler_of(
        &mut vars,
        vec![
            Constraint::Relation(BinaryRelation::less_than(&a, &b).unwrap()),
            Constraint::Relation(BinaryRelation::less_or_equal_than(&c, &b).unwrap()),
        ],
    );
    assert_eq!(handler.propagate_all(&mut vars), Ok(PropagationState::FixPoint(vec![])));
    assert!(handler.is_subsumed(0));
    assert!(!handler.is_subsumed(1));
    assert_eq!(domain(&vars, &c), vec![(4, 9)]);
    let before = vars.clone();
    assert_eq!(handler.propagate_all(&mut vars), Ok(PropagationState::FixPoint(vec![])));
    for place in 0..vars.len() {
        assert!(vars.variable(place) == before.variable(place));
    }
    assert!(handler.is_subsumed(0));
}

#[test]
fn propagation_reports_a_fixed_point_and_marks_what_is_entailed() {
    let mut builder = Builder::new();
    let a = builder.new_int_variable(0, 3).unwrap();
    let b = builder.new_int_variable(5, 9).unwrap();
    let mut vars = builder.finalize();
    let mut handler = handler_of(
        &mut vars,
        vec![Constraint::Relation(BinaryRelation::less_than(&a, &b).unwrap())],
    );
    assert_eq!(handler.len(), 1);
    assert_eq!(handler.propagate_all(&mut vars), Ok(PropagationState::FixPoint(vec![])));
    assert!(handler.is_subsumed(0));
    let mut empty = handler_of(&mut vars, vec![]);
    assert_eq!(empty.propagate_all(&mut vars), Ok(PropagationState::FixPoint(vec![])));
}

#[test]
fn contradicting_orders_fail() {
    let mut builder = Builder::new();
    let a = builder.new_int_variable(0, 9).unwrap();
    let b = builder.new_int_variable(0, 9).unwrap();
    let mut vars = builder.finalize();
    let mut handler = handler_of(
        &mut vars,
        vec![
            Constraint::Relation(BinaryRelation::less_than(&a, &b).unwrap()),
            Constraint::Relation(BinaryRelation::greater_than(&a, &b).unwrap()),
        ],
    );
    assert_eq!(handler.propagate_all(&mut vars), Err(VariableError::DomainWipeout));
}

#[test]
fn each_relation_narrows_as_its_kind_says() {
    let build = || {
        let mut builder = Builder::new();
        let x = builder.new_int_variable(3, 10).unwrap();
        let y = builder.new_int_variable(2, 6).unwrap();
        (builder.finalize(), x, y)
    };
    let (mut vars, x, y) = build();
    let less = BinaryRelation::less_than(&x, &y).unwrap();
    assert_eq!(
        less.propagate(&mut vars).map(|state| match state {
            PropagationState::FixPoint(changes) => sorted(changes),
            _ => panic!("a fixed point was expected"),
        }),
        Ok(sorted(vec![
            (x, VariableState::MaxBoundChange),
            (y, VariableState::MinBoundChange)
        ]))
    );
    assert_eq!(domain(&vars, &x), vec![(3, 5)]);
    assert_eq!(domain(&vars, &y), vec![(4, 6)]);
    assert_eq!(less.propagate(&mut vars), Ok(PropagationState::NoChange));

    let (mut vars, x, y) = build();
    let less_eq = BinaryRelation::less_or_equal_than(&x, &y).unwrap();
    assert!(matches!(less_eq.propagate(&mut vars), Ok(PropagationState::FixPoint(_))));
    assert_eq!(domain(&vars, &x), vec![(3, 6)]);
    assert_eq!(domain(&vars, &y), vec![(3, 6)]);

    let (mut vars, x, y) = build();
    let greater = BinaryRelation::greater_than(&x, &y).unwrap();
    assert_eq!(greater.propagate(&mut vars), Ok(PropagationState::NoChange));
    assert_eq!(domain(&vars, &x), vec![(3, 10)]);
    assert_eq!(domain(&vars, &y), vec![(2, 6)]);
    let greater = BinaryRelation::greater_than(&y, &x).unwrap();
    assert!(matches!(greater.propagate(&mut vars), Ok(PropagationState::FixPoint(_))));
    assert_eq!(domain(&vars, &x), vec![(3, 5)]);
    assert_eq!(domain(&vars, &y), vec![(4, 6)]);
    let (mut vars, x, y) = build();
    let greater_eq = BinaryRelation::greater_or_equal_than(&y, &x).unwrap();
    assert!(matches!(greater_eq.propagate(&mut vars), Ok(PropagationState::FixPoint(_))));
    assert_eq!(domain(&vars, &x), vec![(3, 6)]);
    assert_eq!(domain(&vars, &y), vec![(3, 6)]);

    let (mut vars, x, y) = build();
    let on_bounds = BinaryRelation::equal_on_bounds(&x, &y).unwrap();
    assert_eq!(
        on_bounds.propagate(&mut vars).map(|state| match state {
            PropagationState::FixPoint(changes) => sorted(changes),
            _ => panic!("a fixed point was expected"),
        }),
        Ok(sorted(vec![
            (x, VariableState::MaxBoundChange),
            (y, VariableState::MinBoundChange)
        ]))
    );
    assert_eq!(domain(&vars, &x), vec![(3, 6)]);
    assert_eq!(domain(&vars, &y), vec![(3, 6)]);
}

#[test]
fn order_propagators_are_subsumed_once_the_order_is_sure() {
    let mut builder = Builder::new();
    let x = builder.new_int_variable(0, 3).unwrap();
    let y = builder.new_int_variable(3, 9).unwrap();
    let mut vars = builder.finalize();
    let less_eq = BinaryRelation::less_or_equal_than(&x, &y).unwrap();
    assert_eq!(less_eq.propagate(&mut vars), Ok(PropagationState::Subsumed(vec![])));
    let less = BinaryRelation::less_than(&x, &y).unwrap();
    assert_eq!(less.propagate(&mut vars), Ok(PropagationState::NoChange));
    let greater = BinaryRelation::greater_than(&x, &y).unwrap();
    assert_eq!(greater.propagate(&mut vars), Err(VariableError::DomainWipeout));
    assert_eq!(domain(&vars, &x), vec![(0, 3)]);
    assert_eq!(domain(&vars, &y), vec![(3, 9)]);
}

#[test]
fn equal_keeps_the_shared_values() {
    let mut builder = Builder::new();
    let a = builder.new_int_variable_from_values(vec![1, 3, 5]).unwrap();
    let b = builder.new_int_variable_from_values(vec![2, 3, 4]).unwrap();
    let mut vars = builder.finalize();
    let mut handler = handler_of(
        &mut vars,
        vec![Constraint::Relation(BinaryRelation::equal(&a, &b).unwrap())],
    );
    assert_eq!(handler.propagate_all(&mut vars), Ok(PropagationState::FixPoint(vec![])));
    assert_eq!(domain(&vars, &a), vec![(3, 3)]);
    assert_eq!(domain(&vars, &b), vec![(3, 3)]);
}

#[test]
fn equal_tells_of_values_lost_between_the_bounds() {
    let mut builder = Builder::new();
    let a = builder.new_int_variable(1, 9).unwrap();
    let b = builder.new_int_variable_from_values(vec![1, 2, 5, 9]).unwrap();
    let c = builder.new_int_variable_from_values(vec![3, 4, 5, 6]).unwrap();
    let mut vars = builder.finalize();
    let equal = BinaryRelation::equal(&a, &b).unwrap();
    assert_eq!(
        equal.propagate(&mut vars),
        Ok(PropagationState::FixPoint(vec![(a, VariableState::ValuesChange)]))
    );
    assert_eq!(domain(&vars, &a), vec![(1, 2), (5, 5), (9, 9)]);
    assert_eq!(equal.propagate(&mut vars), Ok(PropagationState::NoChange));
    let mut handler = handler_of(
        &mut vars,
        vec![
            Constraint::Relation(BinaryRelation::equal(&a, &b).unwrap()),
            Constraint::Relation(BinaryRelation::equal(&b, &c).unwrap()),
        ],
    );
    assert!(handler.propagate_all(&mut vars).is_ok());
    assert_eq!(domain(&vars, &a), vec![(5, 5)]);
    assert_eq!(domain(&vars, &b), vec![(5, 5)]);
    assert_eq!(domain(&vars, &c), vec![(5, 5)]);
    let d = BinaryRelation::equal_on_bounds(&a, &c).unwrap();
    assert_eq!(d.propagate(&mut vars), Ok(PropagationState::Subsumed(vec![])));
}

#[test]
fn equal_on_bounds_moves_to_the_shared_values_at_both_ends() {
    let mut builder = Builder::new();
    let a = builder.new_int_variable_from_values(vec![1, 4, 9, 12]).unwrap();
    let b = builder.new_int_variable_from_values(vec![2, 3, 5, 6, 9, 10, 12, 14]).unwrap();
    let c = builder.new_int_variable_from_values(vec![1, 3]).unwrap();
    let d = builder.new_int_variable_from_values(vec![2, 4]).unwrap();
    let mut vars = builder.finalize();
    let on_bounds = BinaryRelation::equal_on_bounds(&a, &b).unwrap();
    assert!(matches!(on_bounds.propagate(&mut vars), Ok(PropagationState::FixPoint(_))));
    assert_eq!(domain(&vars, &a), vec![(9, 9), (12, 12)]);
    assert_eq!(domain(&vars, &b), vec![(9, 10), (12, 12)]);
    assert_eq!(on_bounds.propagate(&mut vars), Ok(PropagationState::NoChange));
    let apart = BinaryRelation::equal_on_bounds(&c, &d).unwrap();
    assert_eq!(apart.propagate(&mut vars), Err(VariableError::DomainWipeout));
}

#[test]
fn add_constant_moves_bounds_both_ways() {
    let mut builder = Builder::new();
    let r = builder.new_int_variable(0, 20).unwrap();
    let x = builder.new_int_variable(-5, 30).unwrap();
    let mut vars = builder.finalize();
    let shift = AddConstant::new(&r, &x, 7).unwrap();
    assert_eq!(
        shift.propagate(&mut vars).map(|state| match state {
            PropagationState::FixPoint(changes) => sorted(changes),
            _ => panic!("a fixed point was expected"),
        }),
        Ok(sorted(vec![(r, VariableState::MinBoundChange), (x, VariableState::MaxBoundChange)]))
    );
    assert_eq!(domain(&vars, &r), vec![(2, 20)]);
    assert_eq!(domain(&vars, &x), vec![(-5, 13)]);
    assert_eq!(shift.propagate(&mut vars), Ok(PropagationState::NoChange));
}

#[test]
fn add_constant_runs_to_its_fixed_point_over_holes() {
    let mut builder = Builder::new();
    let r = builder.new_int_variable_from_values(vec![10, 15, 20]).unwrap();
    let x = builder.new_int_variable_from_values(vec![1, 5, 9, 30]).unwrap();
    let s = builder.new_int_variable_from_values(vec![10, 14, 20]).unwrap();
    let y = builder.new_int_variable_from_values(vec![1, 5, 9, 30]).unwrap();
    let mut vars = builder.finalize();
    let shift = AddConstant::new(&r, &x, 10).unwrap();
    assert!(matches!(shift.propagate(&mut vars), Ok(PropagationState::Subsumed(_))));
    assert_eq!(domain(&vars, &r), vec![(15, 15)]);
    assert_eq!(domain(&vars, &x), vec![(5, 5)]);
    assert_eq!(shift.propagate(&mut vars), Ok(PropagationState::Subsumed(vec![])));
    let none = AddConstant::new(&s, &y, 10).unwrap();
    assert_eq!(none.propagate(&mut vars), Err(VariableError::DomainWipeout));
}

#[test]
fn add_constant_saturates_at_the_ends_of_the_range() {
    assert_eq!(saturate(i32::MAX as i64 + 1), i32::MAX);
    assert_eq!(saturate(i32::MIN as i64 - 1), i32::MIN);
    assert_eq!(saturate(-17), -17);
    let mut builder = Builder::new();
    let r = builder.new_int_variable(0, i32::MAX).unwrap();
    let x = builder.new_int_variable(i32::MAX - 10, i32::MAX).unwrap();
    let mut vars = builder.finalize();
    let shift = AddConstant::new(&r, &x, 5).unwrap();
    assert!(matches!(shift.propagate(&mut vars), Ok(PropagationState::FixPoint(_))));
    assert_eq!(domain(&vars, &r), vec![(i32::MAX - 5, i32::MAX)]);
    assert_eq!(domain(&vars, &x), vec![(i32::MAX - 10, i32::MAX - 5)]);
    let mut builder = Builder::new();
    let r = builder.new_int_variable(0, 10).unwrap();
    let x = builder.new_int_variable(20, 30).unwrap();
    let mut vars = builder.finalize();
    let far = AddConstant::new(&r, &x, 5).unwrap();
    assert_eq!(far.propagate(&mut vars), Err(VariableError::DomainWipeout));
}

#[test]
fn a_sum_bounds_its_terms_by_what_the_sum_leaves() {
    let mut builder = Builder::new();
    let x = builder.new_int_variable(0, 3).unwrap();
    let y = builder.new_int_variable(0, 3).unwrap();
    let z = builder.new_int_variable(0, 3).unwrap();
    let r = builder.new_int_variable(0, 18).unwrap();
    let mut vars = builder.finalize();
    let mut handler = handler_of(
        &mut vars,
        vec![Constraint::Sum(Sum::new(&r, vec![x, y, z], vec![1, 2, 3]).unwrap())],
    );
    assert_eq!(handler.propagate_all(&mut vars), Ok(PropagationState::FixPoint(vec![])));
    assert_eq!(domain(&vars, &r), vec![(0, 18)]);
    assert_eq!(domain(&vars, &x), vec![(0, 3)]);
    assert_eq!(domain(&vars, &y), vec![(0, 3)]);
    assert_eq!(domain(&vars, &z), vec![(0, 3)]);
    let place = vars.variable_id(&r).unwrap();
    assert_eq!(vars.variable_mut(place).update_weak_bsup(5), Ok(VariableState::MaxBoundChange));
    assert_eq!(handler.propagate_all(&mut vars), Ok(PropagationState::FixPoint(vec![])));
    assert_eq!(domain(&vars, &r), vec![(0, 5)]);
    assert_eq!(domain(&vars, &x), vec![(0, 3)]);
    assert_eq!(domain(&vars, &y), vec![(0, 2)]);
    assert_eq!(domain(&vars, &z), vec![(0, 1)]);
}

#[test]
fn a_sum_narrows_its_result_to_the_sums_of_the_bounds() {
    let mut builder = Builder::new();
    let x = builder.new_int_variable(1, 2).unwrap();
    let y = builder.new_int_variable(3, 4).unwrap();
    let r = builder.new_int_variable(-100, 100).unwrap();
    let mut vars = builder.finalize();
    let sum = Sum::new(&r, vec![x, y], vec![2, 5]).unwrap();
    assert_eq!(
        sum.propagate(&mut vars).map(|state| match state {
            PropagationState::FixPoint(changes) => sorted(changes),
            _ => panic!("a fixed point was expected"),
        }),
        Ok(sorted(vec![(r, VariableState::MinBoundChange), (r, VariableState::MaxBoundChange)]))
    );
    assert_eq!(domain(&vars, &r), vec![(17, 24)]);
    assert_eq!(sum.propagate(&mut vars), Ok(PropagationState::NoChange));
}

#[test]
fn a_sum_of_no_terms_is_zero() {
    let mut builder = Builder::new();
    let zero = builder.new_int_variable(0, 0).unwrap();
    let around = builder.new_int_variable(-5, 5).unwrap();
    let above = builder.new_int_variable(1, 5).unwrap();
    let below = builder.new_int_variable(-5, -1).unwrap();
    let mut vars = builder.finalize();
    let sum = Sum::new(&zero, vec![], vec![]).unwrap();
    assert_eq!(sum.propagate(&mut vars), Ok(PropagationState::Subsumed(vec![])));
    let sum = Sum::new(&around, vec![], vec![]).unwrap();
    assert!(matches!(sum.propagate(&mut vars), Ok(PropagationState::Subsumed(_))));
    assert_eq!(domain(&vars, &around), vec![(0, 0)]);
    let sum = Sum::new(&above, vec![], vec![]).unwrap();
    assert_eq!(sum.propagate(&mut vars), Err(VariableError::DomainWipeout));
    let sum = Sum::new(&below, vec![], vec![]).unwrap();
    assert_eq!(sum.propagate(&mut vars), Err(VariableError::DomainWipeout));
}

#[test]
fn a_sum_with_all_terms_fixed_is_subsumed_or_fails() {
    let mut builder = Builder::new();
    let x = builder.new_int_variable(2, 2).unwrap();
    let y = builder.new_int_variable(3, 3).unwrap();
    let r = builder.new_int_variable(0, 100).unwrap();
    let wrong = builder.new_int_variable(0, 10).unwrap();
    let mut vars = builder.finalize();
    let sum = Sum::new(&r, vec![x, y], vec![4, 1]).unwrap();
    assert!(matches!(sum.propagate(&mut vars), Ok(PropagationState::Subsumed(_))));
    assert_eq!(domain(&vars, &r), vec![(11, 11)]);
    let sum = Sum::new(&wrong, vec![x, y], vec![4, 1]).unwrap();
    assert_eq!(sum.propagate(&mut vars), Err(VariableError::DomainWipeout));
}

#[test]
fn a_sum_refuses_negative_weights_and_wrong_counts() {
    let mut builder = Builder::new();
    let x = builder.new_int_variable(0, 3).unwrap();
    let y = builder.new_int_variable(0, 3).unwrap();
    let r = builder.new_int_variable(0, 18).unwrap();
    assert!(Sum::new(&r, vec![x, y], vec![1, -1]).is_none());
    assert!(Sum::new(&r, vec![x, y], vec![1]).is_none());
    assert!(Sum::new(&r, vec![x, r], vec![1, 1]).is_none());
    assert!(Sum::new(&r, vec![x, x], vec![1, 1]).is_none());
    assert!(Sum::new(&r, vec![x, y], vec![0, 7]).is_some());
}

#[test]
fn a_sum_leaves_terms_of_weight_zero_alone() {
    let mut builder = Builder::new();
    let x = builder.new_int_variable(0, 9).unwrap();
    let y = builder.new_int_variable(0, 9).unwrap();
    let r = builder.new_int_variable(0, 6).unwrap();
    let mut vars = builder.finalize();
    let sum = Sum::new(&r, vec![x, y], vec![0, 2]).unwrap();
    assert_eq!(
        sum.propagate(&mut vars),
        Ok(PropagationState::FixPoint(vec![(y, VariableState::MaxBoundChange)]))
    );
    assert_eq!(domain(&vars, &x), vec![(0, 9)]);
    assert_eq!(domain(&vars, &y), vec![(0, 3)]);
    assert_eq!(domain(&vars, &r), vec![(0, 6)]);
}

#[test]
fn increasing_narrows_in_two_sweeps() {
    let mut builder = Builder::new();
    let array = builder.new_int_array(4, (1, 5)).unwrap();
    let mut vars = builder.finalize();
    let views = vars.array_of_refs(&array).unwrap().variables;
    let mut handler = handler_of(
        &mut vars,
        vec![Constraint::Increasing(Increasing::new(views.clone()).unwrap())],
    );
    assert_eq!(handler.propagate_all(&mut vars), Ok(PropagationState::FixPoint(vec![])));
    assert_eq!(domain(&vars, &views[0]), vec![(1, 2)]);
    assert_eq!(domain(&vars, &views[1]), vec![(2, 3)]);
    assert_eq!(domain(&vars, &views[2]), vec![(3, 4)]);
    assert_eq!(domain(&vars, &views[3]), vec![(4, 5)]);
    let increasing = Increasing::new(views).unwrap();
    assert_eq!(increasing.propagate(&mut vars), Ok(PropagationState::NoChange));
}

#[test]
fn increasing_fails_without_room_and_is_subsumed_with_gaps() {
    let mut builder = Builder::new();
    let tight = builder.new_int_array(4, (1, 3)).unwrap();
    let a = builder.new_int_variable(0, 1).unwrap();
    let b = builder.new_int_variable(2, 3).unwrap();
    let c = builder.new_int_variable(4, 5).unwrap();
    let mut vars = builder.finalize();
    let views = vars.array_of_refs(&tight).unwrap().variables;
    let increasing = Increasing::new(views).unwrap();
    assert_eq!(increasing.propagate(&mut vars), Err(VariableError::DomainWipeout));
    let apart = Increasing::new(vec![a, b, c]).unwrap();
    assert_eq!(apart.propagate(&mut vars), Ok(PropagationState::Subsumed(vec![])));
    let single = Increasing::new(vec![a]).unwrap();
    assert_eq!(single.propagate(&mut vars), Ok(PropagationState::Subsumed(vec![])));
    let none = Increasing::new(vec![]).unwrap();
    assert_eq!(none.propagate(&mut vars), Ok(PropagationState::Subsumed(vec![])));
    assert!(Increasing::new(vec![a, b, a]).is_err());
}

#[test]
fn constraints_refuse_tied_handles() {
    let mut builder = Builder::new();
    let x = builder.new_int_variable(0, 3).unwrap();
    let y = builder.new_int_variable(0, 3).unwrap();
    let array = builder.new_int_array(2, (0, 3)).unwrap();
    let vars = builder.finalize();
    let element = vars.array_of_refs(&array).unwrap().variables[0];
    assert_eq!(BinaryRelation::less_than(&x, &x).err(), Some((x, x)));
    assert_eq!(BinaryRelation::equal(&element, &array).err(), Some((element, array)));
    assert_eq!(BinaryRelation::greater_than(&array, &element).err(), Some((array, element)));
    assert!(BinaryRelation::less_than(&x, &y).is_ok());
    assert!(BinaryRelation::less_or_equal_than(&x, &element).is_ok());
    assert_eq!(AddConstant::new(&y, &y, 1).err(), Some((y, y)));
}

#[test]
fn finalize_refuses_handles_of_another_store() {
    let mut builder = Builder::new();
    let x = builder.new_int_variable(0, 3).unwrap();
    let array = builder.new_int_array(2, (0, 3)).unwrap();
    let mut vars = builder.finalize();
    let mut other = Builder::new();
    let stranger = other.new_int_variable(0, 3).unwrap();
    let mut builder = DefaultConstraintsHandlerBuilder::new();
    builder.add(Constraint::Relation(BinaryRelation::less_than(&x, &stranger).unwrap()));
    assert!(builder.finalize(&mut vars).is_none());
    let mut builder = DefaultConstraintsHandlerBuilder::new();
    builder.add(Constraint::Relation(BinaryRelation::less_than(&x, &array).unwrap()));
    assert!(builder.finalize(&mut vars).is_none());
    let mut builder = DefaultConstraintsHandlerBuilder::new();
    builder.add(Constraint::Relation(BinaryRelation::less_than(&stranger, &x).unwrap()));
    let mut theirs = other.finalize();
    assert!(builder.finalize(&mut theirs).is_none());
}

#[test]
fn dependencies_name_both_bounds_and_values_where_they_are_read() {
    let mut builder = Builder::new();
    let x = builder.new_int_variable(0, 3).unwrap();
    let y = builder.new_int_variable(0, 3).unwrap();
    let vars = builder.finalize();
    let less = BinaryRelation::less_than(&x, &y).unwrap();
    assert_eq!(
        less.dependencies(&vars),
        vec![
            (x, VariableState::MinBoundChange),
            (x, VariableState::MaxBoundChange),
            (y, VariableState::MinBoundChange),
            (y, VariableState::MaxBoundChange),
        ]
    );
    assert!(!less.reads());
    assert!(less.check(&vars));
    assert_eq!(less.observed(), vec![x, y]);
    let equal = BinaryRelation::equal(&x, &y).unwrap();
    assert!(equal.reads());
    assert_eq!(equal.dependencies(&vars).len(), 6);
    assert!(equal.dependencies(&vars).contains(&(y, VariableState::ValuesChange)));
    let sum = Sum::new(&x, vec![y], vec![2]).unwrap();
    assert_eq!(sum.observed(), vec![x, y]);
    assert_eq!(sum.dependencies(&vars).len(), 4);
}

#[test]
fn a_woken_propagator_runs_again_until_nothing_moves() {
    let mut builder = Builder::new();
    let a = builder.new_int_variable(0, 100).unwrap();
    let b = builder.new_int_variable(0, 100).unwrap();
    let c = builder.new_int_variable(0, 100).unwrap();
    let d = builder.new_int_variable(0, 3).unwrap();
    let mut vars = builder.finalize();
    let mut handler = handler_of(
        &mut vars,
        vec![
            Constraint::Relation(BinaryRelation::less_than(&a, &b).unwrap()),
            Constraint::Relation(BinaryRelation::less_than(&b, &c).unwrap()),
            Constraint::Relation(BinaryRelation::less_than(&c, &d).unwrap()),
        ],
    );
    assert_eq!(handler.propagate_all(&mut vars), Ok(PropagationState::FixPoint(vec![])));
    assert_eq!(domain(&vars, &a), vec![(0, 0)]);
    assert_eq!(domain(&vars, &b), vec![(1, 1)]);
    assert_eq!(domain(&vars, &c), vec![(2, 2)]);
    assert_eq!(domain(&vars, &d), vec![(3, 3)]);
    assert_eq!(handler.propagate_all(&mut vars), Ok(PropagationState::FixPoint(vec![])));
}

#[test]
fn a_cloned_handler_propagates_on_its_own() {
    let mut builder = Builder::new();
    let a = builder.new_int_variable(3, 10).unwrap();
    let b = builder.new_int_variable(2, 6).unwrap();
    let mut vars = builder.finalize();
    let handler = handler_of(
        &mut vars,
        vec![Constraint::Relation(BinaryRelation::less_than(&a, &b).unwrap())],
    );
    let mut copy = handler.clone();
    let mut narrowed = vars.clone();
    let place = narrowed.variable_id(&b).unwrap();
    assert!(narrowed.variable_mut(place).update_weak_bsup(4).is_ok());
    assert_eq!(copy.propagate_all(&mut narrowed), Ok(PropagationState::FixPoint(vec![])));
    assert_eq!(domain(&narrowed, &a), vec![(3, 3)]);
    assert_eq!(domain(&narrowed, &b), vec![(4, 4)]);
    assert!(copy.is_subsumed(0));
    assert!(!handler.is_subsumed(0));
    assert_eq!(domain(&vars, &a), vec![(3, 10)]);
    assert!(handler.check(&vars));
    assert!(handler.check(&narrowed));
    assert!(copy.check(&narrowed));
    assert!(!copy.check(&vars));
    let other = Builder::new().finalize();
    assert!(!handler.check(&other));
}
