use calzone::utils::graph::{Collector, DiGraph, GraphError, HashGraph, Nothing, Output, Visitor};
use std::collections::HashMap;

#[test]
fn test_cycle() {
    let graph = HashGraph(HashMap::from([
        (0, vec![1]),
        (1, vec![0]),
    ]));
    let mut visitor = Visitor::new(&graph);
    if let GraphError::Cycle(nodes) = visitor.visit(&0, &mut Nothing).unwrap_err() {
        assert_eq!(nodes[0], 1);
        assert_eq!(nodes[1], 0);
    } else { assert!(false) };

    let graph = HashGraph(HashMap::from([
        (0, vec![1, 2]),
        (1, vec![]),
        (2, vec![1, 3]),
        (3, vec![0]),
    ]));
    let mut visitor = Visitor::new(&graph);
    if let GraphError::Cycle(nodes) = visitor.visit(&0, &mut Nothing).unwrap_err() {
        assert_eq!(nodes[0], 2);
        assert_eq!(nodes[1], 3);
        assert_eq!(nodes[2], 0);
    } else { assert!(false) };
}

#[test]
fn test_missing() {
    let graph = HashGraph(HashMap::from([
        (0, vec![1]),
    ]));
    let mut visitor = Visitor::new(&graph);
    if let GraphError::Missing(node) = visitor.visit(&0, &mut Nothing).unwrap_err() {
        assert_eq!(node, 1);
    } else { assert!(false) };
}

#[test]
fn test_valid() {
    let graph = HashGraph(HashMap::from([
        (0, vec![1, 2]),
        (1, vec![]),
        (2, vec![1, 3]),
        (3, vec![]),
    ]));
    let mut collector = Collector::new();
    let mut visitor = Visitor::new(&graph);
    assert!(visitor.visit(&0, &mut collector).is_ok());
    assert_eq!(
        collector.0,
        vec![1, 3, 2, 0],
    )
}

#[test]
fn self_loop_at_start_is_a_two_node_cycle() {
    let graph = HashGraph(HashMap::from([(5, vec![5])]));
    let mut visitor = Visitor::new(&graph);
    match visitor.visit(&5, &mut Nothing) {
        Err(GraphError::Cycle(nodes)) => assert_eq!(nodes, vec![5, 5]),
        _ => panic!("expected a cycle"),
    }
}

#[test]
fn self_loop_below_start_keeps_the_whole_path() {
    let graph = HashGraph(HashMap::from([(0, vec![1]), (1, vec![2]), (2, vec![2])]));
    let mut visitor = Visitor::new(&graph);
    match visitor.visit(&0, &mut Nothing) {
        Err(GraphError::Cycle(nodes)) => assert_eq!(nodes, vec![0, 1, 2, 2]),
        _ => panic!("expected a cycle"),
    }
}

#[test]
fn missing_start_node() {
    let graph = HashGraph(HashMap::from([(0, vec![])]));
    let mut visitor = Visitor::new(&graph);
    match visitor.visit(&7, &mut Nothing) {
        Err(GraphError::Missing(node)) => assert_eq!(node, 7),
        _ => panic!("expected a missing node"),
    }
}

#[test]
fn postorder_has_successors_first() {
    // A diamond: 0 -> {1, 2}, 1 -> 3, 2 -> 3.
    let graph = HashGraph(HashMap::from([
        (0, vec![1, 2]),
        (1, vec![3]),
        (2, vec![3]),
        (3, vec![]),
    ]));
    let mut collector = Collector::new();
    let mut visitor = Visitor::new(&graph);
    assert!(visitor.visit(&0, &mut collector).is_ok());
    assert_eq!(collector.0, vec![3, 1, 2, 0]);
}

#[test]
fn second_visit_skips_finished_nodes() {
    let graph = HashGraph(HashMap::from([(0, vec![1]), (1, vec![]), (2, vec![1])]));
    let mut collector = Collector::new();
    let mut visitor = Visitor::new(&graph);
    assert!(visitor.visit(&0, &mut collector).is_ok());
    assert!(visitor.visit(&2, &mut collector).is_ok());
    assert_eq!(collector.0, vec![1, 0, 2]);
}

#[test]
fn collector_starts_empty() {
    assert!(Collector::new().0.is_empty());
}

#[test]
fn visit_collects_reachable_nodes_once() {
    // 4 is not reachable from 0; 3 is reached twice.
    let graph = HashGraph(HashMap::from([
        (0, vec![1, 2]),
        (1, vec![3]),
        (2, vec![3]),
        (3, vec![]),
        (4, vec![0]),
    ]));
    let mut collector = Collector::new();
    let mut visitor = Visitor::new(&graph);
    assert!(visitor.visit(&0, &mut collector).is_ok());
    let mut nodes = collector.0.clone();
    nodes.sort();
    assert_eq!(nodes, vec![0, 1, 2, 3]);
    assert!(matches!(graph.edges(3), Output::Empty));
    assert!(matches!(graph.edges(5), Output::Missing));
}
