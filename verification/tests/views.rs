use solver_cp::variables::handlers::default_handler::Builder;
use solver_cp::variables::int_var::IntVar;
use solver_cp::variables::{
    find_clash, AllDisjoint, Array, ArrayOfRefs, ArrayOfVars, IndexType, Variable, VariableState,
    ViewIndex,
};
use solver_cp::graph::Subsumed;
use solver_cp::variables::VariableState::{
    BoundsChange, MaxBoundChange, MinBoundChange, NoChange, ValuesChange,
};
use snowflake::ProcessUniqueId;

#[test]
fn subsumption_follows_the_lattice() {
    let all = [BoundsChange, ValuesChange, MaxBoundChange, MinBoundChange, NoChange];
    for a in all.iter() {
        assert!(a.is_subsumed_under(a));
        assert!(NoChange.is_subsumed_under(a));
    }
    assert!(BoundsChange.is_subsumed_under(&MinBoundChange));
    assert!(BoundsChange.is_subsumed_under(&MaxBoundChange));
    assert!(!BoundsChange.is_subsumed_under(&ValuesChange));
    assert!(!BoundsChange.is_subsumed_under(&NoChange));
    assert!(!MinBoundChange.is_subsumed_under(&MaxBoundChange));
    assert!(!MinBoundChange.is_subsumed_under(&BoundsChange));
    assert!(!MaxBoundChange.is_subsumed_under(&MinBoundChange));
    assert!(!ValuesChange.is_subsumed_under(&BoundsChange));
    assert!(!ValuesChange.is_subsumed_under(&MinBoundChange));
    assert!(!ValuesChange.is_subsumed_under(&NoChange));
    for a in all.iter() {
        for b in all.iter() {
            for c in all.iter() {
                if a.is_subsumed_under(b) && b.is_subsumed_under(c) {
                    assert!(a.is_subsumed_under(c));
                }
            }
        }
    }
}

#[test]
fn subviews_are_elements_of_their_array_and_handles_of_themselves() {
    let id = ProcessUniqueId::new();
    let other = ProcessUniqueId::new();
    let var = ViewIndex::new_from_var(id, 1);
    let array = ViewIndex::new_from_array(id, 1);
    let element = ViewIndex::new_from_array_var(id, 1, 0);
    let element_of_other = ViewIndex::new_from_array_var(id, 2, 0);
    assert!(var.is_subview_of(&var));
    assert!(array.is_subview_of(&array));
    assert!(element.is_subview_of(&element));
    assert!(element.is_subview_of(&array));
    assert!(!array.is_subview_of(&element));
    assert!(!element_of_other.is_subview_of(&array));
    assert!(!var.is_subview_of(&array));
    assert!(!array.is_subview_of(&var));
    assert!(!ViewIndex::new_from_var(id, 2).is_subview_of(&var));
    assert!(!ViewIndex::new_from_var(other, 1).is_subview_of(&var));
    assert!(!ViewIndex::new_from_array_var(other, 1, 0).is_subview_of(&array));
    assert!(var.belongs_to(&id));
    assert!(!var.belongs_to(&other));
    assert_eq!(var.get_type(), IndexType::FromVar(1));
    assert_eq!(element.get_type(), IndexType::FromArrayOfVarsVar(1, 0));
    assert_eq!(array.get_type(), IndexType::FromArrayOfVars(1));
    assert!(var.get_id() == id);
    assert!(var == ViewIndex::new_from_var(id, 1));
    assert!(var != ViewIndex::new_from_var(other, 1));
    assert!(var != array);
}

#[test]
fn all_disjoint_names_the_first_clash() {
    let id = ProcessUniqueId::new();
    let a = ViewIndex::new_from_var(id, 0);
    let b = ViewIndex::new_from_var(id, 1);
    let array = ViewIndex::new_from_array(id, 0);
    let element = ViewIndex::new_from_array_var(id, 0, 3);
    assert_eq!(vec![a, b, array].all_disjoint(), Ok(()));
    assert_eq!(Vec::<ViewIndex>::new().all_disjoint(), Ok(()));
    assert_eq!(vec![a, b, a].all_disjoint(), Err((a, a)));
    assert_eq!(vec![a, element, b, array, a].all_disjoint(), Err((a, a)));
    assert_eq!(vec![b, element, array, b].all_disjoint(), Err((b, b)));
    assert_eq!(vec![element, array].all_disjoint(), Err((element, array)));
    assert_eq!(find_clash(&vec![array, a, element]), Err((array, element)));
}

#[test]
fn arrays_of_variables_hold_copies() {
    let var = IntVar::new(1, 5).unwrap();
    let array = ArrayOfVars::new(3, var.clone()).unwrap();
    assert_eq!(array.len(), 3);
    for position in 0..3 {
        assert!(*array.get(position).unwrap() == var);
    }
    assert!(array.get(3).is_none());
    assert!(!array.is_affected());
    let fixed = ArrayOfVars::new(2, IntVar::new(4, 4).unwrap()).unwrap();
    assert!(fixed.is_affected());
    let empty = ArrayOfVars::new(0, var).unwrap();
    assert_eq!(empty.len(), 0);
    assert!(empty.is_affected());
    assert!(IntVar::new(2, 2).unwrap().is_affected());
    assert!(!IntVar::new(2, 3).unwrap().is_affected());
}

#[test]
fn arrays_of_references_refuse_tied_handles() {
    let id = ProcessUniqueId::new();
    let a = ViewIndex::new_from_var(id, 0);
    let b = ViewIndex::new_from_var(id, 1);
    let refs = ArrayOfRefs::new(vec![a, b]).unwrap();
    assert_eq!(refs.len(), 2);
    assert!(*refs.get(1).unwrap() == b);
    assert!(refs.get(2).is_none());
    assert!(ArrayOfRefs::new(vec![a, b, a]).is_none());
    assert!(ArrayOfRefs::new(Vec::new()).is_some());
}

#[test]
fn the_builder_hands_out_handles_in_order() {
    let mut builder = Builder::new();
    let a = builder.new_int_variable(3, 10).unwrap();
    let array = builder.new_int_array(3, (1, 5)).unwrap();
    let b = builder.new_int_variable_from_values(vec![4, 2, 9]).unwrap();
    assert!(builder.new_int_variable(5, 4).is_none());
    assert!(builder.new_int_variable_from_values(Vec::new()).is_none());
    assert!(builder.new_int_array(2, (1, 0)).is_none());
    let handler = builder.finalize();
    assert_eq!(handler.len(), 5);
    assert_eq!(a.get_type(), IndexType::FromVar(0));
    assert_eq!(b.get_type(), IndexType::FromVar(1));
    assert_eq!(array.get_type(), IndexType::FromArrayOfVars(0));
    assert_eq!(handler.variable_id(&a), Some(0));
    assert_eq!(handler.variable_id(&b), Some(4));
    assert_eq!(handler.variable_id(&array), None);
    assert_eq!(*handler.get_variable(&a).domain(), vec![(3, 10)]);
    assert_eq!(*handler.get_variable(&b).domain(), vec![(2, 2), (4, 4), (9, 9)]);
    let refs = handler.array_of_refs(&array).unwrap();
    assert_eq!(refs.len(), 3);
    for position in 0..3 {
        let view = *refs.get(position).unwrap();
        assert_eq!(view.get_type(), IndexType::FromArrayOfVarsVar(0, position));
        assert_eq!(handler.variable_id(&view), Some(1 + position));
        assert_eq!(*handler.get(&view).unwrap().domain(), vec![(1, 5)]);
        assert!(handler.get_view(1 + position) == view);
    }
    assert!(handler.array_of_refs(&a).is_none());
    assert!(handler.get_view(0) == a);
    assert!(handler.get_view(4) == b);
    let stranger = Builder::new().new_int_variable(0, 1).unwrap();
    assert!(handler.get(&stranger).is_none());
    assert_eq!(handler.variable_id(&stranger), None);
    let beyond = ViewIndex::new_from_var(a.get_id(), 7);
    assert!(handler.get(&beyond).is_none());
    let beyond = ViewIndex::new_from_array_var(a.get_id(), 0, 3);
    assert!(handler.get(&beyond).is_none());
}

#[test]
fn a_cloned_handler_is_a_store_of_its_own() {
    let mut builder = Builder::new();
    let a = builder.new_int_variable(3, 10).unwrap();
    let b = builder.new_int_variable(0, 4).unwrap();
    let handler = builder.finalize();
    let mut copy = handler.clone();
    let place = copy.variable_id(&a).unwrap();
    assert_eq!(copy.variable_mut(place).update_weak_bsup(5), Ok(VariableState::MaxBoundChange));
    assert_eq!(*copy.get_variable(&a).domain(), vec![(3, 5)]);
    assert_eq!(*handler.get_variable(&a).domain(), vec![(3, 10)]);
    assert_eq!(*copy.get_variable(&b).domain(), vec![(0, 4)]);
    assert_eq!(*copy.variable(1).domain(), vec![(0, 4)]);
}
