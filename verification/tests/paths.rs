//! Path reconstruction and the priority frontier.

use complete_graph::CompleteGraph;
use complete_graph::PriorityElement;
use complete_graph::PriorityFrontier;

#[test]
fn concrete_path_scenario() {
    let edges = vec![
        (0usize, 1usize, 10usize),
        (1, 2, 10),
        (0, 2, 5),
        (2, 3, 1),
    ];
    let mut g = CompleteGraph::new(4, &edges);
    let (path, total) = g.get_path(0, 3).expect("3 is reachable from 0");
    assert_eq!(path, vec![(2, 5), (3, 1)]);
    assert_eq!(total, 6);
}

#[test]
fn path_ends_at_destination_and_sums_to_total() {
    let edges = vec![
        (0usize, 1usize, 2usize),
        (1, 2, 3),
        (2, 3, 4),
        (0, 3, 20),
        (1, 3, 8),
    ];
    let mut g = CompleteGraph::new(4, &edges);
    let (path, total) = g.get_path(0, 3).expect("3 is reachable from 0");
    assert_eq!(path.last().unwrap().0, 3);
    let sum: usize = path.iter().map(|step| step.1).sum();
    assert_eq!(sum, total);
    let full = g.all_edges(0);
    assert_eq!(full.get(3).map(|e| e.1), Some(total));
}

#[test]
fn path_through_zero_weight_cycle() {
    let edges = vec![
        (0usize, 1usize, 0usize),
        (1, 2, 0),
        (2, 3, 0),
        (3, 0, 0),
        (0, 4, 7),
    ];
    let mut g = CompleteGraph::new(5, &edges);
    let (path, total) = g.get_path(1, 4).expect("4 is reachable from 1");
    assert_eq!(total, 7);
    assert_eq!(path.last().unwrap().0, 4);
    let sum: usize = path.iter().map(|step| step.1).sum();
    assert_eq!(sum, 7);
}

#[test]
fn unreachable_destination_returns_none() {
    let edges = vec![(0usize, 1usize, 2usize), (2, 3, 1)];
    let mut g = CompleteGraph::new(4, &edges);
    assert!(g.get_path(0, 3).is_none());
    assert!(g.get_path(0, 2).is_none());
}

#[test]
fn out_of_range_destination_returns_none() {
    let edges = vec![(0usize, 1usize, 2usize)];
    let mut g = CompleteGraph::new(2, &edges);
    assert!(g.get_path(0, 9).is_none());
}

#[test]
fn direct_edge_path() {
    let edges = vec![(0usize, 1usize, 2usize), (1, 2, 1)];
    let mut g = CompleteGraph::new(3, &edges);
    let (path, total) = g.get_path(0, 1).expect("adjacent vertex");
    assert_eq!(path, vec![(1, 2)]);
    assert_eq!(total, 2);
}

#[test]
fn priority_element_new_keeps_fields() {
    let element = PriorityElement::new(17, 4);
    assert_eq!(element.weight, 17);
    assert_eq!(element.previous, 4);
}

#[test]
fn frontier_pops_minimum_weight_first() {
    let mut frontier = PriorityFrontier::new();
    frontier.push(0, PriorityElement::new(9, 0));
    frontier.push(1, PriorityElement::new(3, 0));
    frontier.push(2, PriorityElement::new(5, 1));
    let (key, element) = frontier.pop();
    assert_eq!(key, 1);
    assert_eq!(element.weight, 3);
    let (key, element) = frontier.pop();
    assert_eq!(key, 2);
    assert_eq!(element.weight, 5);
    let (key, element) = frontier.pop();
    assert_eq!(key, 0);
    assert_eq!(element.weight, 9);
    assert_eq!(frontier.len(), 0);
}

#[test]
fn frontier_get_and_change_priority() {
    let mut frontier = PriorityFrontier::new();
    frontier.push(7, PriorityElement::new(10, 0));
    frontier.push(8, PriorityElement::new(4, 1));
    let found = frontier.get_priority(7).expect("key 7 is pending");
    assert_eq!(found.weight, 10);
    assert!(frontier.get_priority(9).is_none());
    frontier.change_priority(7, PriorityElement::new(2, 3));
    let (key, element) = frontier.pop();
    assert_eq!(key, 7);
    assert_eq!(element.weight, 2);
    assert_eq!(element.previous, 3);
    assert_eq!(frontier.len(), 1);
}
