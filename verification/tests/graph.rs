use solver_cp::graph::{BipartiteGraphBuilder, Event, Subsumed};
use solver_cp::variables::VariableState;
use solver_cp::variables::VariableState::{
    BoundsChange, MaxBoundChange, MinBoundChange, NoChange, ValuesChange,
};

#[test]
fn events_are_subsumed_within_one_variable_and_one_propagator() {
    let e = Event::new(2, 7, BoundsChange);
    assert_eq!(e, Event { src: 2, from: 7, event: BoundsChange });
    assert!(e.is_subsumed_under(&e));
    assert!(e.is_subsumed_under(&Event::new(2, 7, MinBoundChange)));
    assert!(!e.is_subsumed_under(&Event::new(3, 7, MinBoundChange)));
    assert!(!e.is_subsumed_under(&Event::new(2, 8, MinBoundChange)));
    assert!(!Event::new(2, 7, MinBoundChange).is_subsumed_under(&e));
    assert!(Event::new(2, 7, NoChange).is_subsumed_under(&e));
}

#[test]
fn an_event_wakes_the_first_edge_whose_label_subsumes_it() {
    let mut builder = BipartiteGraphBuilder::new();
    builder.insert_node1_to_node2(0, MinBoundChange, 10);
    builder.insert_node1_to_node2(0, MaxBoundChange, 11);
    builder.insert_node1_to_node2(0, MinBoundChange, 12);
    builder.insert_node1_to_node2(0, MinBoundChange, 10);
    builder.insert_node1_to_node2(2, ValuesChange, 10);
    let graph = builder.finalize();
    assert!(graph.has_edge(0, MinBoundChange, 10));
    assert!(graph.has_edge(0, MinBoundChange, 12));
    assert!(graph.has_edge(0, MaxBoundChange, 11));
    assert!(!graph.has_edge(0, MaxBoundChange, 10));
    assert!(!graph.has_edge(1, MinBoundChange, 10));
    assert!(!graph.has_edge(7, MinBoundChange, 10));
    assert!(graph.has_edge(2, ValuesChange, 10));

    let mut events = graph.events();
    events.add_event(0, 99, MinBoundChange);
    assert_eq!(events.into_iter(), Some(vec![(10, vec![0]), (12, vec![0])]));

    let mut events = graph.events();
    events.add_event(0, 10, MinBoundChange);
    assert_eq!(events.into_iter(), Some(vec![(12, vec![0])]));

    let mut events = graph.events();
    events.add_event(0, 99, BoundsChange);
    assert_eq!(events.into_iter(), Some(vec![(10, vec![0]), (12, vec![0])]));

    let mut events = graph.events();
    events.add_event(0, 99, ValuesChange);
    events.add_event(1, 99, MinBoundChange);
    events.add_event(5, 99, MinBoundChange);
    assert_eq!(events.into_iter(), None);

    let events = graph.events();
    assert_eq!(events.into_iter(), None);

    let mut events = graph.events();
    events.add_event(2, 99, ValuesChange);
    events.add_event(0, 99, MaxBoundChange);
    events.add_event(0, 98, MinBoundChange);
    assert_eq!(
        events.into_iter(),
        Some(vec![(10, vec![2, 0]), (11, vec![0]), (12, vec![0])])
    );
}

#[test]
fn the_buffer_drops_what_is_subsumed_and_replaces_what_it_subsumes() {
    let mut builder = BipartiteGraphBuilder::new();
    builder.insert_node1_to_node2(0, MinBoundChange, 1);
    builder.insert_node1_to_node2(0, MaxBoundChange, 2);
    builder.insert_node1_to_node2(0, BoundsChange, 3);
    let graph = builder.finalize();

    let mut events = graph.events();
    events.add_event(0, 9, MinBoundChange);
    events.add_event(0, 9, MinBoundChange);
    events.add_event(0, 9, NoChange);
    assert_eq!(events.into_iter(), Some(vec![(1, vec![0])]));

    let mut events = graph.events();
    events.add_event(0, 9, MinBoundChange);
    events.add_event(0, 9, BoundsChange);
    assert_eq!(events.into_iter(), Some(vec![(1, vec![0])]));

    let mut events = graph.events();
    events.add_event(0, 9, BoundsChange);
    events.add_event(0, 9, MaxBoundChange);
    assert_eq!(events.into_iter(), Some(vec![(2, vec![0])]));

    let mut events = graph.events();
    events.add_event(0, 9, MinBoundChange);
    events.add_event(0, 9, MaxBoundChange);
    assert_eq!(events.into_iter(), Some(vec![(1, vec![0]), (2, vec![0])]));

    let mut events = graph.events();
    events.add_event(0, 1, MinBoundChange);
    events.add_event(0, 9, MinBoundChange);
    assert_eq!(events.into_iter(), Some(vec![(1, vec![0])]));
}

#[test]
fn class_names_are_distinct() {
    let all: [VariableState; 5] =
        [BoundsChange, ValuesChange, MaxBoundChange, MinBoundChange, NoChange];
    for (i, a) in all.iter().enumerate() {
        for (j, b) in all.iter().enumerate() {
            assert_eq!(a == b, i == j);
        }
    }
}
