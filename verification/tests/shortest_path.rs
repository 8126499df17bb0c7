use exact_path::graph::Graph;
use exact_path::path::bfs;

fn linked(size: usize, edges: &[(usize, usize)]) -> Graph {
    let mut graph = Graph::new(size);
    for &(u, v) in edges {
        graph.add_edge(u, v);
    }
    graph
}

#[test]
fn bfs_on_a_line() {
    let graph = linked(5, &[(0, 1), (1, 2), (2, 3), (3, 4)]);
    assert_eq!(bfs(&graph, 0, 4), Some(vec![0, 1, 2, 3, 4]));
    assert_eq!(bfs(&graph, 4, 0), Some(vec![4, 3, 2, 1, 0]));
    assert_eq!(bfs(&graph, 1, 3), Some(vec![1, 2, 3]));
}

#[test]
fn bfs_between_neighbours() {
    let graph = linked(2, &[(0, 1)]);
    assert_eq!(bfs(&graph, 0, 1), Some(vec![0, 1]));
    assert_eq!(bfs(&graph, 1, 0), Some(vec![1, 0]));
}

#[test]
fn bfs_takes_the_short_way_round() {
    let graph = linked(6, &[(0, 1), (1, 2), (2, 3), (3, 4), (4, 5), (0, 5)]);
    assert_eq!(bfs(&graph, 0, 4), Some(vec![0, 5, 4]));
    assert_eq!(bfs(&graph, 0, 2), Some(vec![0, 1, 2]));
}

#[test]
fn bfs_first_discovery_wins() {
    // Two ways of three vertices from 0 to 2: the neighbour of 0 listed first is taken.
    let graph = linked(4, &[(0, 1), (1, 2), (2, 3), (0, 3)]);
    assert_eq!(bfs(&graph, 0, 2), Some(vec![0, 1, 2]));
    let mirrored = linked(4, &[(0, 3), (1, 2), (2, 3), (0, 1)]);
    assert_eq!(bfs(&mirrored, 0, 2), Some(vec![0, 3, 2]));
}

#[test]
fn bfs_finds_nothing_between_components() {
    let graph = linked(5, &[(0, 1), (1, 2), (3, 4)]);
    assert_eq!(bfs(&graph, 0, 3), None);
    assert_eq!(bfs(&graph, 4, 2), None);
}

#[test]
fn bfs_without_edges() {
    let graph = Graph::new(3);
    assert_eq!(bfs(&graph, 0, 1), None);
}

#[test]
fn bfs_from_a_vertex_to_itself_is_none() {
    let graph = linked(3, &[(0, 1), (1, 2)]);
    assert_eq!(bfs(&graph, 1, 1), None);
    assert_eq!(bfs(&graph, 0, 0), None);
}

#[test]
fn bfs_outside_the_graph_is_none() {
    let graph = linked(3, &[(0, 1), (1, 2)]);
    assert_eq!(bfs(&graph, 0, 3), None);
    assert_eq!(bfs(&graph, 7, 1), None);
    assert_eq!(bfs(&graph, 7, 7), None);
}

#[test]
fn bfs_result_is_a_simple_path_of_edges() {
    let graph = linked(
        7,
        &[(0, 1), (0, 2), (1, 3), (2, 3), (3, 4), (4, 5), (2, 5), (5, 6), (1, 6)],
    );
    let path = bfs(&graph, 0, 6).unwrap();
    assert_eq!(path, vec![0, 1, 6]);
    for pair in path.windows(2) {
        assert!(graph.has_edge(pair[0], pair[1]));
    }
}

#[test]
fn bfs_leaves_the_graph_alone() {
    let graph = linked(4, &[(0, 1), (1, 2), (2, 3), (0, 3)]);
    let _ = bfs(&graph, 0, 2);
    assert_eq!(graph.neighbors(0), &vec![1, 3]);
    assert_eq!(graph.neighbors(1), &vec![0, 2]);
    assert_eq!(graph.neighbors(2), &vec![1, 3]);
    assert_eq!(graph.neighbors(3), &vec![2, 0]);
}
