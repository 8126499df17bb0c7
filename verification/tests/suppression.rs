use exact_path::graph::Graph;
use exact_path::suppress::Suppression;

fn wheel() -> Graph {
    // Vertex 0 in the middle of the ring 1-2-3-4-1.
    let mut graph = Graph::new(5);
    for &(u, v) in &[(0, 1), (0, 2), (0, 3), (0, 4), (1, 2), (2, 3), (3, 4), (4, 1)] {
        graph.add_edge(u, v);
    }
    graph
}

fn edge_table(graph: &Graph) -> Vec<Vec<usize>> {
    let mut table = Vec::new();
    for u in 0..graph.size() {
        table.push(graph.neighbors(u).clone());
    }
    table
}

#[test]
fn suppressed_edge_is_gone_until_restored() {
    let mut graph = wheel();
    let before = edge_table(&graph);
    let mut log = Suppression::new();
    log.remove(&mut graph, 2, 3);
    assert!(!graph.has_edge(2, 3));
    assert!(!graph.has_edge(3, 2));
    assert!(graph.has_edge(1, 2));
    assert!(graph.has_edge(0, 3));
    log.restore(&mut graph);
    assert_eq!(edge_table(&graph), before);
}

#[test]
fn isolated_vertex_has_no_edge_until_restored() {
    let mut graph = wheel();
    let before = edge_table(&graph);
    let mut log = Suppression::new();
    log.isolate(&mut graph, 0);
    assert!(graph.neighbors(0).is_empty());
    for v in 1..5 {
        assert!(!graph.has_edge(0, v));
        assert!(!graph.has_edge(v, 0));
    }
    assert!(graph.has_edge(1, 2));
    assert!(graph.has_edge(4, 1));
    assert_eq!(graph.neighbors(1), &vec![2, 4]);
    log.restore(&mut graph);
    assert_eq!(edge_table(&graph), before);
}

#[test]
fn suppressions_add_up() {
    let mut graph = wheel();
    let before = edge_table(&graph);
    let mut log = Suppression::new();
    log.remove(&mut graph, 1, 2);
    log.isolate(&mut graph, 3);
    log.isolate(&mut graph, 1);
    assert!(graph.neighbors(1).is_empty());
    assert!(graph.neighbors(3).is_empty());
    assert_eq!(graph.neighbors(0), &vec![2, 4]);
    assert_eq!(graph.neighbors(2), &vec![0]);
    assert_eq!(graph.neighbors(4), &vec![0]);
    log.restore(&mut graph);
    assert_eq!(edge_table(&graph), before);
    assert_eq!(graph.size(), 5);
}

#[test]
fn restored_lists_have_their_order() {
    let mut graph = wheel();
    let mut log = Suppression::new();
    log.isolate(&mut graph, 2);
    log.remove(&mut graph, 0, 1);
    log.isolate(&mut graph, 4);
    log.restore(&mut graph);
    assert_eq!(graph.neighbors(0), &vec![1, 2, 3, 4]);
    assert_eq!(graph.neighbors(1), &vec![0, 2, 4]);
    assert_eq!(graph.neighbors(2), &vec![0, 1, 3]);
    assert_eq!(graph.neighbors(3), &vec![0, 2, 4]);
    assert_eq!(graph.neighbors(4), &vec![0, 3, 1]);
}

#[test]
fn restoring_an_empty_log_changes_nothing() {
    let mut graph = wheel();
    let log = Suppression::new();
    log.restore(&mut graph);
    assert_eq!(graph.neighbors(0), &vec![1, 2, 3, 4]);
    assert_eq!(graph.neighbors(1), &vec![0, 2, 4]);
}

#[test]
fn isolating_a_vertex_without_edges() {
    let mut graph = Graph::new(3);
    graph.add_edge(0, 1);
    let mut log = Suppression::new();
    log.isolate(&mut graph, 2);
    assert!(graph.has_edge(0, 1));
    log.restore(&mut graph);
    assert!(graph.has_edge(0, 1));
    assert!(graph.neighbors(2).is_empty());
}
