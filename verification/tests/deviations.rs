use exact_path::deviate::{deviation, deviations, suppress};
use exact_path::graph::Graph;
use exact_path::pool::CandidatePool;

fn ring_of_four() -> Graph {
    let mut graph = Graph::new(4);
    for &(u, v) in &[(0, 1), (1, 2), (2, 3), (0, 3)] {
        graph.add_edge(u, v);
    }
    graph
}

fn ladder() -> Graph {
    // 0-1-2-5 on top, 0-3-4-5 below, and the rung 1-4.
    let mut graph = Graph::new(6);
    for &(u, v) in &[(0, 1), (1, 2), (2, 5), (0, 3), (3, 4), (4, 5), (1, 4)] {
        graph.add_edge(u, v);
    }
    graph
}

fn edges_of(graph: &Graph) -> Vec<Vec<usize>> {
    let mut lists = Vec::new();
    for u in 0..graph.size() {
        lists.push(graph.neighbors(u).clone());
    }
    lists
}

#[test]
fn deviation_at_the_start_goes_the_other_way_round() {
    let mut graph = ring_of_four();
    let paths = vec![vec![0, 1, 2]];
    assert_eq!(deviation(&mut graph, &paths, 0, 2), Some(vec![0, 3, 2]));
}

#[test]
fn deviation_cannot_come_back_to_the_root() {
    let mut graph = ring_of_four();
    let paths = vec![vec![0, 1, 2]];
    // From 1 the only other way to 2 leads through 0, which is on the root.
    assert_eq!(deviation(&mut graph, &paths, 1, 2), None);
}

#[test]
fn deviation_avoids_every_confirmed_path_with_the_same_root() {
    let mut graph = ladder();
    let paths = vec![vec![0, 1, 2, 5], vec![0, 3, 4, 5]];
    // Both edges at 0 are taken by confirmed paths.
    assert_eq!(deviation(&mut graph, &paths, 0, 5), None);
    // From 3 the edge to 4 is taken by the last path, and 0 is on the root.
    assert_eq!(deviation(&mut graph, &paths, 1, 5), None);
    // The root 0-3-4 cuts 4 off from 3; over 1 and 2 the end is reached.
    assert_eq!(deviation(&mut graph, &paths, 2, 5), Some(vec![0, 3, 4, 1, 2, 5]));
}

#[test]
fn deviation_keeps_the_root_of_the_last_path() {
    let mut graph = ladder();
    let paths = vec![vec![0, 1, 2, 5]];
    assert_eq!(deviation(&mut graph, &paths, 1, 5), Some(vec![0, 1, 4, 5]));
    assert_eq!(deviation(&mut graph, &paths, 2, 5), None);
}

#[test]
fn deviation_puts_the_edges_back() {
    let mut graph = ladder();
    let before = edges_of(&graph);
    let paths = vec![vec![0, 1, 2, 5], vec![0, 3, 4, 5]];
    for j in 0..3 {
        let _ = deviation(&mut graph, &paths, j, 5);
        assert_eq!(edges_of(&graph), before);
        assert_eq!(graph.size(), 6);
    }
}

#[test]
fn deviations_fill_the_pool() {
    let mut graph = ladder();
    let before = edges_of(&graph);
    let paths = vec![vec![0, 1, 2, 5]];
    let mut pool = CandidatePool::new();
    deviations(&mut graph, &paths, 5, &mut pool);
    assert_eq!(edges_of(&graph), before);
    assert_eq!(pool.pop(), Some(vec![0, 3, 4, 5]));
    assert_eq!(pool.pop(), Some(vec![0, 1, 4, 5]));
    assert_eq!(pool.pop(), None);
}

#[test]
fn deviations_leave_what_the_pool_held() {
    let mut graph = ring_of_four();
    let paths = vec![vec![0, 1, 2]];
    let mut pool = CandidatePool::new();
    pool.push(vec![9, 9]);
    deviations(&mut graph, &paths, 2, &mut pool);
    assert_eq!(pool.pop(), Some(vec![9, 9]));
    assert_eq!(pool.pop(), Some(vec![0, 3, 2]));
    assert_eq!(pool.pop(), None);
}

#[test]
fn deviations_of_a_path_without_alternatives() {
    let mut graph = Graph::new(3);
    graph.add_edge(0, 1);
    graph.add_edge(1, 2);
    let paths = vec![vec![0, 1, 2]];
    let mut pool = CandidatePool::new();
    deviations(&mut graph, &paths, 2, &mut pool);
    assert_eq!(pool.pop(), None);
    assert!(graph.has_edge(0, 1));
    assert!(graph.has_edge(1, 2));
}

#[test]
fn suppress_takes_out_the_edge_of_every_path_with_the_root() {
    let mut graph = ladder();
    let before = edges_of(&graph);
    let paths = vec![vec![0, 1, 2, 5], vec![0, 1, 4, 5], vec![0, 3, 4, 5]];
    // The root is 0-1 of the path 0-3-4-5: no path goes on from 0-3 but the last.
    let log = suppress(&mut graph, &paths, 1);
    assert_eq!(graph.neighbors(0), &Vec::<usize>::new());
    assert_eq!(graph.neighbors(1), &vec![2, 4]);
    assert_eq!(graph.neighbors(3), &Vec::<usize>::new());
    assert_eq!(graph.neighbors(4), &vec![5, 1]);
    log.restore(&mut graph);
    assert_eq!(edges_of(&graph), before);
}

#[test]
fn suppress_at_the_start_leaves_the_other_vertices_alone() {
    let mut graph = ladder();
    let before = edges_of(&graph);
    let paths = vec![vec![0, 1, 2, 5]];
    let log = suppress(&mut graph, &paths, 0);
    assert_eq!(graph.neighbors(0), &vec![3]);
    assert_eq!(graph.neighbors(1), &vec![2, 4]);
    assert_eq!(graph.neighbors(2), &vec![1, 5]);
    log.restore(&mut graph);
    assert_eq!(edges_of(&graph), before);
}
