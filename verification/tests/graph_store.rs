use exact_path::graph::Graph;

fn store_with(size: usize, edges: &[(usize, usize)]) -> Graph {
    let mut graph = Graph::new(size);
    for &(u, v) in edges {
        graph.add_edge(u, v);
    }
    graph
}

#[test]
fn new_graph_has_its_vertices_and_no_edges() {
    let graph = Graph::new(5);
    assert_eq!(graph.size(), 5);
    for u in 0..5 {
        assert!(graph.neighbors(u).is_empty());
        for v in 0..5 {
            assert!(!graph.has_edge(u, v));
        }
    }
}

#[test]
fn graph_without_vertices() {
    let graph = Graph::new(0);
    assert_eq!(graph.size(), 0);
    assert!(!graph.has_edge(0, 0));
}

#[test]
fn add_edge_is_symmetric() {
    let graph = store_with(4, &[(0, 1), (2, 3)]);
    assert!(graph.has_edge(0, 1));
    assert!(graph.has_edge(1, 0));
    assert!(graph.has_edge(2, 3));
    assert!(graph.has_edge(3, 2));
    assert!(!graph.has_edge(0, 2));
    assert!(!graph.has_edge(1, 3));
    assert!(!graph.has_edge(0, 0));
}

#[test]
fn add_edge_lists_each_side_once() {
    let graph = store_with(3, &[(0, 1)]);
    assert_eq!(graph.neighbors(0), &vec![1]);
    assert_eq!(graph.neighbors(1), &vec![0]);
    assert_eq!(graph.neighbors(2), &Vec::<usize>::new());
}

#[test]
fn neighbors_come_in_the_order_of_insertion() {
    let graph = store_with(4, &[(0, 3), (0, 1), (2, 0)]);
    assert_eq!(graph.neighbors(0), &vec![3, 1, 2]);
    assert_eq!(graph.neighbors(3), &vec![0]);
    assert_eq!(graph.neighbors(2), &vec![0]);
}

#[test]
fn remove_edge_takes_both_sides_out() {
    let mut graph = store_with(4, &[(0, 1), (0, 2), (0, 3), (1, 2)]);
    graph.remove_edge(0, 2);
    assert!(!graph.has_edge(0, 2));
    assert!(!graph.has_edge(2, 0));
    assert_eq!(graph.neighbors(0), &vec![1, 3]);
    assert_eq!(graph.neighbors(2), &vec![1]);
    assert!(graph.has_edge(0, 1));
    assert!(graph.has_edge(0, 3));
    assert!(graph.has_edge(1, 2));
    assert_eq!(graph.size(), 4);
}

#[test]
fn remove_edge_by_its_other_end() {
    let mut graph = store_with(3, &[(0, 1), (1, 2)]);
    graph.remove_edge(2, 1);
    assert!(!graph.has_edge(1, 2));
    assert!(!graph.has_edge(2, 1));
    assert_eq!(graph.neighbors(1), &vec![0]);
    assert!(graph.neighbors(2).is_empty());
}

#[test]
fn removed_edge_comes_back_at_the_end_of_the_lists() {
    let mut graph = store_with(4, &[(0, 1), (0, 2), (0, 3)]);
    graph.remove_edge(0, 1);
    graph.add_edge(0, 1);
    assert_eq!(graph.neighbors(0), &vec![2, 3, 1]);
    assert_eq!(graph.neighbors(1), &vec![0]);
    assert!(graph.has_edge(1, 0));
}

#[test]
fn has_edge_outside_the_graph_is_false() {
    let graph = store_with(2, &[(0, 1)]);
    assert!(!graph.has_edge(2, 0));
    assert!(!graph.has_edge(0, 2));
    assert!(!graph.has_edge(usize::MAX, usize::MAX));
}

#[test]
fn insert_edge_puts_each_end_at_its_place() {
    let mut graph = store_with(4, &[(0, 1), (0, 2), (3, 1)]);
    graph.insert_edge(0, 3, 1, 0);
    assert_eq!(graph.neighbors(0), &vec![1, 3, 2]);
    assert_eq!(graph.neighbors(3), &vec![0, 1]);
    assert!(graph.has_edge(0, 3));
    assert!(graph.has_edge(3, 0));
}

#[test]
fn insert_edge_at_the_end_is_add_edge() {
    let mut inserted = store_with(3, &[(0, 1)]);
    let mut added = store_with(3, &[(0, 1)]);
    inserted.insert_edge(0, 2, 1, 0);
    added.add_edge(0, 2);
    for u in 0..3 {
        assert_eq!(inserted.neighbors(u), added.neighbors(u));
    }
}

#[test]
fn locate_gives_the_place_in_the_list() {
    let graph = store_with(5, &[(2, 4), (2, 0), (2, 3), (0, 1)]);
    assert_eq!(graph.locate(2, 4), 0);
    assert_eq!(graph.locate(2, 0), 1);
    assert_eq!(graph.locate(2, 3), 2);
    assert_eq!(graph.locate(0, 2), 0);
    assert_eq!(graph.locate(0, 1), 1);
}

#[test]
fn removed_edge_goes_back_to_its_places() {
    let mut graph = store_with(4, &[(0, 1), (0, 2), (0, 3), (2, 1)]);
    let at_u = graph.locate(0, 2);
    let at_v = graph.locate(2, 0);
    graph.remove_edge(0, 2);
    graph.insert_edge(0, 2, at_u, at_v);
    assert_eq!(graph.neighbors(0), &vec![1, 2, 3]);
    assert_eq!(graph.neighbors(2), &vec![0, 1]);
}
