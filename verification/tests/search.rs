use solver_cp::branchers::brancher::{BranchersHandler, BranchersHandlerBuilder, DefaultBrancher};
use solver_cp::branchers::handlers::{Brancher, ValuesSelector, VariableSelector};
use solver_cp::branchers::values_selector::{
    middle_of, DomainSplitSelector, MinValueSelector, ValueSelection,
};
use solver_cp::branchers::variables_selector::{
    SequentialVariableSelector, SmallestDomainVariableSelector, VariableSelection,
};
use solver_cp::branchers::{BranchMove, Branches};
use solver_cp::constraints::arithmetic::binary_ops::BinaryRelation;
use solver_cp::constraints::handlers::DefaultConstraintsHandlerBuilder;
use solver_cp::constraints::increasing::Increasing;
use solver_cp::constraints::sum::Sum;
use solver_cp::constraints::{Constraint, PropagationState, Propagator};
use solver_cp::search::Solver;
use solver_cp::spaces::Space;
use solver_cp::variables::handlers::default_handler::{Builder, Handler};
use solver_cp::variables::{VariableError, VariableState, ViewIndex};

fn sequential(views: Vec<ViewIndex>) -> VariableSelection {
    VariableSelection::Sequential(SequentialVariableSelector::new(views).unwrap())
}

fn smallest(views: Vec<ViewIndex>) -> VariableSelection {
    VariableSelection::SmallestDomain(SmallestDomainVariableSelector::new(views).unwrap())
}

fn min_value() -> ValueSelection {
    ValueSelection::MinValue(MinValueSelector::new())
}

fn split() -> ValueSelection {
    ValueSelection::DomainSplit(DomainSplitSelector::new())
}

fn branchers_of(list: Vec<DefaultBrancher>) -> BranchersHandler {
    let mut builder = BranchersHandlerBuilder::new();
    for brancher in list {
        builder.add(brancher);
    }
    builder.finalize()
}

fn solver_of(
    mut vars: Handler,
    constraints: Vec<Constraint>,
    branchers: Vec<DefaultBrancher>,
) -> Solver {
    let mut builder = DefaultConstraintsHandlerBuilder::new();
    for constraint in constraints {
        builder.add(constraint);
    }
    let handler = builder.finalize(&mut vars).unwrap();
    Solver::new(Space::new(vars, handler, branchers_of(branchers)).unwrap())
}

fn drain(mut branches: Branches) -> Vec<String> {
    let mut out = Vec::new();
    while let Some(m) = branches.next() {
        out.push(match m {
            BranchMove::SetValue(_, v) => format!("={}", v),
            BranchMove::AtMost(_, v) => format!("<={}", v),
            BranchMove::MoreThan(_, v) => format!(">{}", v),
        });
    }
    out
}

fn values(vars: &Handler, views: &[ViewIndex]) -> Vec<Option<i32>> {
    views.iter().map(|view| vars.get_variable(view).value()).collect()
}

#[test]
fn the_first_solution_of_a_chain_takes_the_least_values() {
    let mut builder = Builder::new();
    let a = builder.new_int_variable(3, 10).unwrap();
    let b = builder.new_int_variable(2, 6).unwrap();
    let c = builder.new_int_variable(1, 9).unwrap();
    let vars = builder.finalize();
    let mut solver = solver_of(
        vars,
        vec![
            Constraint::Relation(BinaryRelation::less_than(&a, &b).unwrap()),
            Constraint::Relation(BinaryRelation::less_than(&b, &c).unwrap()),
        ],
        vec![DefaultBrancher::new(sequential(vec![a, b, c]), min_value()).unwrap()],
    );
    assert!(solver.solution().is_none());
    assert!(solver.solve());
    let solution = solver.solution().unwrap();
    assert_eq!(values(solution, &[a, b, c]), vec![Some(3), Some(4), Some(5)]);
    assert!(solver.solution_at(1).is_none());
}

#[test]
fn a_tight_chain_has_one_solution() {
    let mut builder = Builder::new();
    let x = builder.new_int_variable(1, 3).unwrap();
    let y = builder.new_int_variable(1, 3).unwrap();
    let z = builder.new_int_variable(1, 3).unwrap();
    let vars = builder.finalize();
    let mut solver = solver_of(
        vars,
        vec![
            Constraint::Relation(BinaryRelation::less_than(&x, &y).unwrap()),
            Constraint::Relation(BinaryRelation::less_than(&y, &z).unwrap()),
        ],
        vec![DefaultBrancher::new(sequential(vec![x, y, z]), min_value()).unwrap()],
    );
    assert_eq!(solver.solve_all(), 1);
    assert_eq!(values(solver.solution().unwrap(), &[x, y, z]), vec![Some(1), Some(2), Some(3)]);
    assert!(solver.solve());
}

#[test]
fn contradicting_orders_have_no_solution() {
    let mut builder = Builder::new();
    let a = builder.new_int_variable(0, 5).unwrap();
    let b = builder.new_int_variable(0, 5).unwrap();
    let vars = builder.finalize();
    let mut solver = solver_of(
        vars,
        vec![
            Constraint::Relation(BinaryRelation::less_than(&a, &b).unwrap()),
            Constraint::Relation(BinaryRelation::greater_than(&a, &b).unwrap()),
        ],
        vec![DefaultBrancher::new(sequential(vec![a, b]), min_value()).unwrap()],
    );
    assert!(!solver.solve());
    assert!(solver.solution().is_none());
    assert_eq!(solver.solve_all(), 0);
}

#[test]
fn every_solution_is_found_once() {
    let mut builder = Builder::new();
    let x = builder.new_int_variable(0, 3).unwrap();
    let y = builder.new_int_variable(0, 3).unwrap();
    let vars = builder.finalize();
    let constraints = |x: &ViewIndex, y: &ViewIndex| {
        vec![Constraint::Relation(BinaryRelation::less_than(x, y).unwrap())]
    };
    let mut solver = solver_of(
        vars.clone(),
        constraints(&x, &y),
        vec![DefaultBrancher::new(sequential(vec![x, y]), min_value()).unwrap()],
    );
    assert_eq!(solver.solve_all(), 6);
    let mut pairs = Vec::new();
    let mut i = 0;
    while let Some(solution) = solver.solution_at(i) {
        pairs.push(values(solution, &[x, y]));
        i += 1;
    }
    assert_eq!(
        pairs,
        vec![
            vec![Some(0), Some(1)],
            vec![Some(0), Some(2)],
            vec![Some(0), Some(3)],
            vec![Some(1), Some(2)],
            vec![Some(1), Some(3)],
            vec![Some(2), Some(3)],
        ]
    );
    let mut by_halves = solver_of(
        vars.clone(),
        constraints(&x, &y),
        vec![DefaultBrancher::new(smallest(vec![x, y]), split()).unwrap()],
    );
    assert_eq!(by_halves.solve_all(), 6);
    let mut in_two = solver_of(
        vars,
        constraints(&x, &y),
        vec![
            DefaultBrancher::new(sequential(vec![y]), split()).unwrap(),
            DefaultBrancher::new(sequential(vec![x]), min_value()).unwrap(),
        ],
    );
    assert_eq!(in_two.solve_all(), 6);
    assert_eq!(values(in_two.solution().unwrap(), &[x, y]), vec![Some(0), Some(1)]);
}

#[test]
fn a_solution_leaves_every_propagator_at_rest() {
    let mut builder = Builder::new();
    let x = builder.new_int_variable(0, 6).unwrap();
    let y = builder.new_int_variable(0, 6).unwrap();
    let z = builder.new_int_variable(0, 6).unwrap();
    let r = builder.new_int_variable(10, 11).unwrap();
    let vars = builder.finalize();
    let constraints = |x: &ViewIndex, y: &ViewIndex, z: &ViewIndex, r: &ViewIndex| {
        vec![
            Constraint::Sum(Sum::new(r, vec![*x, *y, *z], vec![1, 2, 3]).unwrap()),
            Constraint::Increasing(Increasing::new(vec![*x, *y, *z]).unwrap()),
        ]
    };
    let mut solver = solver_of(
        vars,
        constraints(&x, &y, &z, &r),
        vec![DefaultBrancher::new(sequential(vec![x, y, z, r]), min_value()).unwrap()],
    );
    assert!(solver.solve());
    let solution = solver.solution().unwrap();
    let found = values(solution, &[x, y, z, r]);
    let (vx, vy, vz, vr) =
        (found[0].unwrap(), found[1].unwrap(), found[2].unwrap(), found[3].unwrap());
    assert!(vx < vy && vy < vz);
    assert_eq!(vr, vx + 2 * vy + 3 * vz);
    let mut store = solution.clone();
    for constraint in constraints(&x, &y, &z, &r) {
        let result = constraint.propagate(&mut store);
        assert!(
            result == Ok(PropagationState::NoChange)
                || result == Ok(PropagationState::Subsumed(vec![]))
        );
    }
    for place in 0..store.len() {
        assert!(store.variable(place) == solution.variable(place));
    }
}

#[test]
fn the_sequential_strategy_takes_the_first_open_candidate() {
    let mut builder = Builder::new();
    let a = builder.new_int_variable(3, 3).unwrap();
    let b = builder.new_int_variable(2, 6).unwrap();
    let c = builder.new_int_variable(1, 2).unwrap();
    let vars = builder.finalize();
    let mut selector = SequentialVariableSelector::new(vec![a, b, c]).unwrap();
    assert_eq!(selector.select(&vars), Some(b));
    assert_eq!(selector.views(), vec![a, b, c]);
    let mut selector = SequentialVariableSelector::new(vec![c, a, b]).unwrap();
    assert_eq!(selector.select(&vars), Some(c));
    let mut selector = SequentialVariableSelector::new(vec![a]).unwrap();
    assert_eq!(selector.select(&vars), None);
    let mut selector = SequentialVariableSelector::new(vec![]).unwrap();
    assert_eq!(selector.select(&vars), None);
    assert!(SequentialVariableSelector::new(vec![a, b, a]).is_err());
    assert!(SmallestDomainVariableSelector::new(vec![b, b]).is_err());
}

#[test]
fn the_smallest_domain_strategy_takes_the_first_of_the_smallest() {
    let mut builder = Builder::new();
    let a = builder.new_int_variable(3, 3).unwrap();
    let b = builder.new_int_variable(2, 6).unwrap();
    let c = builder.new_int_variable(1, 2).unwrap();
    let d = builder.new_int_variable_from_values(vec![0, 100]).unwrap();
    let vars = builder.finalize();
    let mut selector = SmallestDomainVariableSelector::new(vec![a, b, c, d]).unwrap();
    assert_eq!(selector.select(&vars), Some(c));
    let mut selector = SmallestDomainVariableSelector::new(vec![d, b, c, a]).unwrap();
    assert_eq!(selector.select(&vars), Some(d));
    let mut selector = SmallestDomainVariableSelector::new(vec![b, a]).unwrap();
    assert_eq!(selector.select(&vars), Some(b));
    let mut selector = SmallestDomainVariableSelector::new(vec![a]).unwrap();
    assert_eq!(selector.select(&vars), None);
}

#[test]
fn the_value_strategies_make_their_moves() {
    let mut builder = Builder::new();
    let a = builder.new_int_variable_from_values(vec![1, 2, 5]).unwrap();
    let b = builder.new_int_variable(-3, 4).unwrap();
    let c = builder.new_int_variable(7, 7).unwrap();
    let vars = builder.finalize();
    let mut by_value = MinValueSelector::new();
    assert_eq!(drain(by_value.select(&vars, a).unwrap()), vec!["=1", "=2", "=5"]);
    assert!(by_value.select(&vars, c).is_none());
    let mut by_halves = DomainSplitSelector::new();
    assert_eq!(drain(by_halves.select(&vars, a).unwrap()), vec!["<=3", ">3"]);
    assert_eq!(drain(by_halves.select(&vars, b).unwrap()), vec!["<=0", ">0"]);
    assert!(by_halves.select(&vars, c).is_none());
    assert_eq!(middle_of(1, 5), 3);
    assert_eq!(middle_of(1, 4), 2);
    assert_eq!(middle_of(-3, 4), 0);
    assert_eq!(middle_of(-4, -1), -3);
    assert_eq!(middle_of(-3, -3), -3);
    assert_eq!(middle_of(i32::MIN, i32::MAX), -1);
    assert_eq!(middle_of(i32::MAX - 1, i32::MAX), i32::MAX - 1);
    assert_eq!(middle_of(i32::MIN, i32::MIN + 1), i32::MIN);
}

#[test]
fn a_move_narrows_one_variable_and_is_idempotent() {
    let mut builder = Builder::new();
    let a = builder.new_int_variable(0, 9).unwrap();
    let b = builder.new_int_variable(0, 9).unwrap();
    let mut vars = builder.finalize();
    let at_most = BranchMove::AtMost(a, 4);
    assert!(at_most.view() == a);
    assert_eq!(at_most.apply(&mut vars), Ok(VariableState::MaxBoundChange));
    assert_eq!(at_most.apply(&mut vars), Ok(VariableState::NoChange));
    assert_eq!(*vars.get_variable(&a).domain(), vec![(0, 4)]);
    assert_eq!(*vars.get_variable(&b).domain(), vec![(0, 9)]);
    let more = BranchMove::MoreThan(a, 2);
    assert_eq!(more.apply(&mut vars), Ok(VariableState::MinBoundChange));
    assert_eq!(more.apply(&mut vars), Ok(VariableState::NoChange));
    assert_eq!(*vars.get_variable(&a).domain(), vec![(3, 4)]);
    let set = BranchMove::SetValue(a, 4);
    assert_eq!(set.apply(&mut vars), Ok(VariableState::MinBoundChange));
    assert_eq!(set.apply(&mut vars), Ok(VariableState::NoChange));
    assert_eq!(BranchMove::SetValue(a, 3).apply(&mut vars), Err(VariableError::DomainWipeout));
    assert_eq!(BranchMove::MoreThan(a, 4).apply(&mut vars), Err(VariableError::DomainWipeout));
    assert_eq!(BranchMove::AtMost(a, 3).apply(&mut vars), Err(VariableError::DomainWipeout));
    assert_eq!(*vars.get_variable(&a).domain(), vec![(4, 4)]);
    assert_eq!(BranchMove::SetValue(b, 5).apply(&mut vars), Ok(VariableState::BoundsChange));
}

#[test]
fn the_first_brancher_with_work_makes_the_moves() {
    let mut builder = Builder::new();
    let a = builder.new_int_variable(3, 3).unwrap();
    let b = builder.new_int_variable(2, 6).unwrap();
    let c = builder.new_int_variable(1, 2).unwrap();
    let vars = builder.finalize();
    let mut first = DefaultBrancher::new(sequential(vec![a]), min_value()).unwrap();
    assert!(first.branch(&vars).is_none());
    assert_eq!(first.views(), vec![a]);
    let mut branchers = branchers_of(vec![
        DefaultBrancher::new(sequential(vec![a]), min_value()).unwrap(),
        DefaultBrancher::new(smallest(vec![b, c]), split()).unwrap(),
        DefaultBrancher::new(sequential(vec![b]), min_value()).unwrap(),
    ]);
    assert!(branchers.check(&vars));
    let moves = branchers.branch(&vars).unwrap();
    assert_eq!(drain(moves), vec!["<=1", ">1"]);
    let mut copy = branchers.clone();
    assert_eq!(drain(copy.branch(&vars).unwrap()), vec!["<=1", ">1"]);
    let mut done = branchers_of(vec![DefaultBrancher::new(sequential(vec![a]), split()).unwrap()]);
    assert!(done.branch(&vars).is_none());
    let mut none = branchers_of(vec![]);
    assert!(none.branch(&vars).is_none());
    let other = Builder::new().finalize();
    assert!(!branchers.check(&other));
    assert!(none.check(&other));
}

#[test]
fn a_space_refuses_parts_of_another_store() {
    let mut builder = Builder::new();
    let a = builder.new_int_variable(0, 3).unwrap();
    let b = builder.new_int_variable(0, 3).unwrap();
    let mut vars = builder.finalize();
    let mut other = Builder::new();
    let stranger = other.new_int_variable(0, 3).unwrap();
    let theirs = other.finalize();
    let handler = |vars: &mut Handler| {
        let mut builder = DefaultConstraintsHandlerBuilder::new();
        builder.add(Constraint::Relation(BinaryRelation::less_than(&a, &b).unwrap()));
        builder.finalize(vars).unwrap()
    };
    let brancher = |view: ViewIndex| {
        branchers_of(vec![DefaultBrancher::new(sequential(vec![view]), min_value()).unwrap()])
    };
    let constraints = handler(&mut vars);
    assert!(Space::new(theirs.clone(), constraints, brancher(stranger)).is_none());
    let constraints = handler(&mut vars);
    assert!(Space::new(vars.clone(), constraints, brancher(stranger)).is_none());
    let constraints = handler(&mut vars);
    let mut space = Space::new(vars.clone(), constraints, brancher(a)).unwrap();
    assert_eq!(space.propagate(), Ok(PropagationState::FixPoint(vec![])));
    assert_eq!(*space.get_variables().get_variable(&a).domain(), vec![(0, 2)]);
    assert_eq!(space.get_constraints().len(), 1);
    let mut copy = space.clone();
    assert_eq!(copy.apply(&BranchMove::SetValue(a, 1)), Ok(VariableState::BoundsChange));
    assert_eq!(*copy.get_variables().get_variable(&a).domain(), vec![(1, 1)]);
    assert_eq!(*space.get_variables().get_variable(&a).domain(), vec![(0, 2)]);
    assert_eq!(drain(space.branch().unwrap()), vec!["=0", "=1", "=2"]);
}
