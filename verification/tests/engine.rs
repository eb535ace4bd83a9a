//! Traversal correctness against a brute-force reference, determinism, and
//! the invalidation clock.

use complete_graph::CompleteGraph;
use std::collections::HashMap;

/// Reference shortest distances by Bellman-Ford-style relaxation, with the
/// same duplicate-edge semantics as the engine (a later edge between the
/// same pair overwrites the earlier one).
fn reference_distances(
    vertex_num: usize,
    edges: &[(usize, usize, usize)],
    source: usize,
) -> Vec<Option<usize>> {
    let mut adjacency: HashMap<(usize, usize), usize> = HashMap::new();
    for &(a, b, w) in edges {
        adjacency.insert((a, b), w);
        adjacency.insert((b, a), w);
    }
    let mut dist: Vec<Option<usize>> = vec![None; vertex_num];
    dist[source] = Some(0);
    for _ in 0..vertex_num {
        for (&(a, b), &w) in adjacency.iter() {
            if let Some(da) = dist[a] {
                let candidate = da + w;
                if dist[b].map_or(true, |db| candidate < db) {
                    dist[b] = Some(candidate);
                }
            }
        }
    }
    dist
}

fn check_against_reference(vertex_num: usize, edges: &[(usize, usize, usize)], source: usize) {
    let edge_vec: Vec<(usize, usize, usize)> = edges.to_vec();
    let mut g = CompleteGraph::new(vertex_num, &edge_vec);
    let result = g.all_edges(source);
    let reference = reference_distances(vertex_num, edges, source);
    for v in 0..vertex_num {
        if v == source {
            assert!(result.get(v).is_none(), "source must not be reported");
            continue;
        }
        match reference[v] {
            Some(d) => {
                let (_, w) = result.get(v).expect("reachable vertex missing");
                assert_eq!(w, d, "wrong distance for vertex {}", v);
            }
            None => assert!(result.get(v).is_none(), "unreachable vertex reported"),
        }
    }
}

#[test]
fn distances_match_reference_small() {
    check_against_reference(4, &[(0, 1, 10), (1, 2, 10), (0, 2, 5), (2, 3, 1)], 0);
}

#[test]
fn distances_match_reference_zero_weights() {
    check_against_reference(
        6,
        &[(0, 1, 0), (1, 2, 0), (2, 3, 0), (3, 0, 0), (0, 4, 7), (4, 5, 2)],
        1,
    );
}

#[test]
fn distances_match_reference_disconnected() {
    check_against_reference(7, &[(0, 1, 3), (1, 2, 4), (4, 5, 1)], 0);
}

#[test]
fn distances_match_reference_dense() {
    let mut edges: Vec<(usize, usize, usize)> = Vec::new();
    for a in 0..8usize {
        for b in (a + 1)..8usize {
            edges.push((a, b, (a * 7 + b * 13) % 20));
        }
    }
    for s in 0..8usize {
        check_against_reference(8, &edges, s);
    }
}

#[test]
fn duplicate_edge_overwrites() {
    let edges = vec![(0usize, 1usize, 5usize), (0, 1, 2)];
    let mut g = CompleteGraph::new(2, &edges);
    let result = g.all_edges(0);
    assert_eq!(result.get(1), Some((0, 2)));
}

#[test]
fn zero_weight_cycle_terminates_and_is_reproducible() {
    let edges = vec![
        (0usize, 1usize, 0usize),
        (1, 2, 0),
        (2, 3, 0),
        (3, 0, 0),
        (0, 4, 7),
    ];
    let mut g = CompleteGraph::new(5, &edges);
    let first = g.all_edges(1);
    let second = g.all_edges(1);
    assert_eq!(first, second);
    assert_eq!(first.get(4).map(|e| e.1), Some(7));
    assert_eq!(first.get(0).map(|e| e.1), Some(0));
    assert_eq!(first.get(2).map(|e| e.1), Some(0));
    assert_eq!(first.get(3).map(|e| e.1), Some(0));
}

#[test]
fn repeated_runs_return_identical_result_maps() {
    let edges = vec![(0usize, 1usize, 4usize), (1, 2, 6), (0, 2, 12), (2, 3, 1)];
    let mut g = CompleteGraph::new(4, &edges);
    let first = g.all_edges(0);
    let second = g.all_edges(0);
    assert_eq!(first, second);
    let third = g.all_edges(2);
    let fourth = g.all_edges(2);
    assert_eq!(third, fourth);
}

#[test]
fn early_termination_matches_full_run() {
    let edges = vec![
        (0usize, 1usize, 2usize),
        (1, 2, 2),
        (2, 3, 2),
        (0, 3, 9),
        (3, 4, 1),
    ];
    let mut g = CompleteGraph::new(5, &edges);
    let early = g.all_edges_with_terminate(0, 3);
    let full = g.all_edges(0);
    assert_eq!(early.get(3), full.get(3));
    assert_eq!(early.get(3).map(|e| e.1), Some(6));
}

#[test]
fn early_termination_reports_unreachable_target_as_absent() {
    let edges = vec![(0usize, 1usize, 2usize), (2, 3, 1)];
    let mut g = CompleteGraph::new(4, &edges);
    let early = g.all_edges_with_terminate(0, 3);
    assert!(early.get(3).is_none());
    assert_eq!(early.get(1).map(|e| e.1), Some(2));
}

#[test]
fn clock_wrap_preserves_correctness() {
    let edges = vec![(0usize, 1usize, 3usize), (1, 2, 4), (0, 2, 10), (2, 3, 2)];
    let mut worn = CompleteGraph::new(4, &edges);
    // Use the engine once so that stamps collide with the post-wrap clock
    // if the wrap failed to reset them.
    let _ = worn.all_edges(0);
    worn.force_clock_to_max();
    let after_wrap = worn.all_edges(0);
    let mut fresh = CompleteGraph::new(4, &edges);
    let expected = fresh.all_edges(0);
    assert_eq!(after_wrap, expected);
}

#[test]
fn invalidation_clock_counts_and_wraps() {
    let edges = vec![(0usize, 1usize, 1usize)];
    let mut g = CompleteGraph::new(2, &edges);
    assert_eq!(g.invalidate_previous_dijkstra(), 1);
    assert_eq!(g.invalidate_previous_dijkstra(), 2);
    g.force_clock_to_max();
    assert_eq!(g.invalidate_previous_dijkstra(), 1);
    assert_eq!(g.invalidate_previous_dijkstra(), 2);
}

#[test]
fn result_map_len_and_contains() {
    let edges = vec![(0usize, 1usize, 1usize), (1, 2, 1)];
    let mut g = CompleteGraph::new(4, &edges);
    let result = g.all_edges(0);
    assert_eq!(result.len(), 2);
    assert!(result.contains(1));
    assert!(result.contains(2));
    assert!(!result.contains(0));
    assert!(!result.contains(3));
}

#[test]
fn entries_come_out_in_non_decreasing_distance_order() {
    let edges = vec![(0usize, 1usize, 10usize), (1, 2, 10), (0, 2, 5), (2, 3, 1)];
    let mut g = CompleteGraph::new(4, &edges);
    let result = g.all_edges(0);
    let entries = result.entries();
    assert_eq!(entries.len(), 3);
    for pair in entries.windows(2) {
        assert!(pair[0].1 .1 <= pair[1].1 .1);
    }
    assert_eq!(entries[0], (2, (0, 5)));
    assert_eq!(entries[1], (3, (2, 6)));
    assert_eq!(entries[2], (1, (0, 10)));
}

#[test]
fn isolated_source_yields_empty_result_map() {
    let edges: Vec<(usize, usize, usize)> = vec![(1, 2, 5)];
    let mut g = CompleteGraph::new(3, &edges);
    let result = g.all_edges(0);
    assert_eq!(result.len(), 0);
}
