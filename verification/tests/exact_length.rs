use exact_path::graph::Graph;
use exact_path::path::{bfs, yen};

fn graph_of(size: usize, edges: &[(usize, usize)]) -> Graph {
    let mut graph = Graph::new(size);
    for &(u, v) in edges {
        graph.add_edge(u, v);
    }
    graph
}

fn four_cycle() -> Graph {
    graph_of(4, &[(0, 1), (1, 2), (2, 3), (0, 3)])
}

fn two_lanes() -> Graph {
    graph_of(6, &[(0, 1), (1, 2), (2, 5), (0, 3), (3, 4), (4, 5), (1, 4)])
}

fn complete(size: usize) -> Graph {
    let mut graph = Graph::new(size);
    for u in 0..size {
        for v in u + 1..size {
            graph.add_edge(u, v);
        }
    }
    graph
}

fn all_edges(graph: &Graph) -> Vec<(usize, usize)> {
    let mut edges = Vec::new();
    for u in 0..graph.size() {
        for v in 0..graph.size() {
            if graph.has_edge(u, v) {
                edges.push((u, v));
            }
        }
    }
    edges
}

fn is_exact_path(graph: &Graph, path: &[usize], start: usize, end: usize, length: usize) -> bool {
    if path.len() != length || path.first() != Some(&start) || path.last() != Some(&end) {
        return false;
    }
    for pair in path.windows(2) {
        if !graph.has_edge(pair[0], pair[1]) {
            return false;
        }
    }
    let mut seen = path.to_vec();
    seen.sort();
    seen.dedup();
    seen.len() == path.len()
}

#[test]
fn four_cycle_target_below_the_shortest() {
    let mut graph = four_cycle();
    assert_eq!(yen(&mut graph, 0, 2, 2), None);
}

#[test]
fn four_cycle_target_of_the_shortest() {
    let mut graph = four_cycle();
    let found = yen(&mut graph, 0, 2, 3);
    assert!(found == Some(vec![0, 1, 2]) || found == Some(vec![0, 3, 2]));
}

#[test]
fn four_cycle_target_above_every_path() {
    let mut graph = four_cycle();
    assert_eq!(yen(&mut graph, 0, 2, 4), None);
}

#[test]
fn isolated_vertices_have_no_path() {
    for length in 0..6 {
        let mut graph = Graph::new(3);
        assert_eq!(yen(&mut graph, 0, 1, length), None);
    }
}

#[test]
fn returned_path_has_the_shape_asked_for() {
    for length in 0..8 {
        let mut graph = two_lanes();
        if let Some(path) = yen(&mut graph, 0, 5, length) {
            assert!(is_exact_path(&graph, &path, 0, 5, length));
        }
    }
    for length in 0..7 {
        let mut graph = complete(5);
        if let Some(path) = yen(&mut graph, 0, 4, length) {
            assert!(is_exact_path(&graph, &path, 0, 4, length));
        }
    }
}

#[test]
fn edges_are_the_same_after_a_search() {
    for length in 0..8 {
        let mut graph = two_lanes();
        let before = all_edges(&graph);
        let _ = yen(&mut graph, 0, 5, length);
        assert_eq!(all_edges(&graph), before);
        assert_eq!(graph.size(), 6);
    }
    for length in 0..7 {
        let mut graph = complete(5);
        let before = all_edges(&graph);
        let _ = yen(&mut graph, 1, 3, length);
        assert_eq!(all_edges(&graph), before);
    }
}

#[test]
fn neighbour_lists_are_the_same_after_a_search() {
    for length in 0..8 {
        let mut graph = two_lanes();
        let mut before = Vec::new();
        for u in 0..graph.size() {
            before.push(graph.neighbors(u).clone());
        }
        let _ = yen(&mut graph, 0, 5, length);
        for u in 0..graph.size() {
            assert_eq!(graph.neighbors(u), &before[u]);
        }
    }
}

#[test]
fn search_prefers_the_greatest_candidate() {
    // From 0 to 3 over 1 or over 2, and the longer way 0-1-2-3 or 0-2-1-3.
    let mut graph = graph_of(4, &[(0, 1), (0, 2), (1, 3), (2, 3), (1, 2)]);
    assert_eq!(bfs(&graph, 0, 3), Some(vec![0, 1, 3]));
    assert_eq!(yen(&mut graph, 0, 3, 3), Some(vec![0, 1, 3]));
    // The candidates of 0-1-3 are 0-2-3 and 0-1-2-3; the greater one is 0-2-3,
    // whose candidates are 0-2-1-3 (twice); 0-2-1-3 comes after 0-1-2-3.
    assert_eq!(yen(&mut graph, 0, 3, 4), Some(vec![0, 2, 1, 3]));
}

#[test]
fn target_below_the_distance_finds_nothing() {
    for length in 0..4 {
        let mut graph = two_lanes();
        assert_eq!(yen(&mut graph, 0, 5, length), None);
    }
}

#[test]
fn target_of_the_distance_finds_the_shortest_path() {
    let mut graph = two_lanes();
    let shortest = bfs(&graph, 0, 5).unwrap();
    assert_eq!(shortest, vec![0, 1, 2, 5]);
    assert_eq!(yen(&mut graph, 0, 5, 4), Some(vec![0, 1, 2, 5]));
    let mut line = graph_of(4, &[(0, 1), (1, 2), (2, 3)]);
    assert_eq!(yen(&mut line, 0, 3, 4), Some(vec![0, 1, 2, 3]));
    let mut pair = graph_of(2, &[(0, 1)]);
    assert_eq!(yen(&mut pair, 1, 0, 2), Some(vec![1, 0]));
}

#[test]
fn separated_vertices_have_no_path_of_any_length() {
    for length in 0..8 {
        let mut graph = graph_of(6, &[(0, 1), (1, 2), (3, 4), (4, 5)]);
        assert_eq!(yen(&mut graph, 0, 5, length), None);
        assert_eq!(yen(&mut graph, 3, 2, length), None);
    }
}

#[test]
fn search_ends_for_targets_beyond_every_path() {
    for length in 6..10 {
        let mut graph = complete(5);
        assert_eq!(yen(&mut graph, 0, 4, length), None);
    }
    let mut graph = two_lanes();
    assert_eq!(yen(&mut graph, 0, 5, 7), None);
    assert_eq!(yen(&mut graph, 0, 5, usize::MAX), None);
}

#[test]
fn longest_path_is_found() {
    // The only simple path of six vertices, and none is longer.
    let mut graph = two_lanes();
    assert_eq!(yen(&mut graph, 0, 5, 6), Some(vec![0, 3, 4, 1, 2, 5]));
    // In the complete graph a path through all vertices exists, and none is longer.
    let mut full = complete(5);
    let path = yen(&mut full, 0, 4, 5).unwrap();
    assert!(is_exact_path(&full, &path, 0, 4, 5));
}

#[test]
fn length_that_no_path_has_finds_nothing() {
    // Paths from 0 to 5 have four or six vertices.
    let mut graph = two_lanes();
    assert_eq!(yen(&mut graph, 0, 5, 5), None);
}

#[test]
fn search_from_a_vertex_to_itself_is_none() {
    for length in 0..4 {
        let mut graph = four_cycle();
        assert_eq!(yen(&mut graph, 1, 1, length), None);
    }
}

#[test]
fn search_outside_the_graph_is_none() {
    let mut graph = four_cycle();
    assert_eq!(yen(&mut graph, 0, 4, 3), None);
    assert_eq!(yen(&mut graph, 9, 2, 3), None);
}

#[test]
fn second_pass_over_the_same_graph_gives_a_valid_path() {
    let mut graph = two_lanes();
    let first = yen(&mut graph, 0, 5, 6);
    let second = yen(&mut graph, 0, 5, 6);
    assert_eq!(first, Some(vec![0, 3, 4, 1, 2, 5]));
    assert_eq!(second, Some(vec![0, 3, 4, 1, 2, 5]));
}
