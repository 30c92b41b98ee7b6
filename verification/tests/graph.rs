use adjacency_graph::Graph;
use std::collections::HashSet;

#[test]
fn test_add_edge() {
    let mut graph = Graph::new();
    graph.add_edge(0, 1);
    graph.add_edge(1, 2);
    graph.add_edge(2, 3);

    assert_eq!(graph.neighbors_of(0), Some(&vec![1]));
    assert_eq!(graph.neighbors_of(1), Some(&vec![0, 2]));
    assert_eq!(graph.neighbors_of(2), Some(&vec![1, 3]));
    assert_eq!(graph.neighbors_of(3), Some(&vec![2]));
}

#[test]
fn test_degree() {
    let mut graph = Graph::new();
    graph.add_edge(0, 1);
    graph.add_edge(1, 2);
    graph.add_edge(2, 3);

    assert_eq!(graph.degree(0), 1);
    assert_eq!(graph.degree(1), 2);
    assert_eq!(graph.degree(2), 2);
    assert_eq!(graph.degree(3), 1);
}

#[test]
fn test_neighbors_at_distance_2() {
    let mut graph = Graph::new();
    graph.add_edge(0, 1);
    graph.add_edge(1, 2);
    graph.add_edge(1, 3);

    let neighbors = graph.neighbors_at_distance_2(0);
    let expected_neighbors: HashSet<usize> = [2, 3].iter().cloned().collect();
    assert_eq!(neighbors, expected_neighbors);
}

#[test]
fn test_nodes() {
    let mut graph = Graph::new();
    graph.add_edge(0, 1);
    graph.add_edge(1, 2);

    let nodes = graph.nodes();
    let expected_nodes: HashSet<usize> = [0, 1, 2].iter().cloned().collect();
    assert_eq!(nodes.iter().cloned().collect::<HashSet<usize>>(), expected_nodes);
}

#[test]
fn symmetry_of_inserted_edge() {
    let mut graph = Graph::new();
    graph.add_edge(4, 7);

    assert!(graph.neighbors_of(4).unwrap().contains(&7));
    assert!(graph.neighbors_of(7).unwrap().contains(&4));
}

#[test]
fn degree_matches_neighbor_sequence_length() {
    let mut graph = Graph::new();
    graph.add_edge(0, 1);
    graph.add_edge(0, 1);
    graph.add_edge(0, 2);
    graph.add_edge(2, 2);

    for n in 0usize..3 {
        let len = graph.neighbors_of(n).map_or(0, |list| list.len());
        assert_eq!(graph.degree(n), len);
    }
}

#[test]
fn degree_of_unknown_node_is_zero() {
    let mut graph = Graph::new();
    graph.add_edge(0, 1);

    assert_eq!(graph.degree(42), 0);
    assert_eq!(graph.neighbors_of(42), None);
}

#[test]
fn duplicate_edges_accumulate() {
    let mut graph = Graph::new();
    graph.add_edge(0, 1);
    graph.add_edge(0, 1);

    assert_eq!(graph.degree(0), 2);
    assert_eq!(graph.degree(1), 2);
    assert_eq!(graph.neighbors_of(0), Some(&vec![1, 1]));
    assert_eq!(graph.neighbors_of(1), Some(&vec![0, 0]));
}

#[test]
fn distance_2_never_contains_the_node_itself() {
    let mut graph = Graph::new();
    graph.add_edge(0, 1);
    graph.add_edge(1, 2);
    graph.add_edge(0, 2);

    let neighbors = graph.neighbors_at_distance_2(0);
    assert!(!neighbors.contains(&0));
    // A direct neighbor is not globally excluded: both 1 and 2 are reachable
    // through a two-hop path that does not loop back to 0.
    let expected: HashSet<usize> = [1, 2].iter().cloned().collect();
    assert_eq!(neighbors, expected);
}

#[test]
fn distance_2_of_unknown_node_is_empty() {
    let mut graph = Graph::new();
    graph.add_edge(0, 1);

    assert!(graph.neighbors_at_distance_2(42).is_empty());
}

#[test]
fn distance_2_with_self_loops() {
    let mut graph = Graph::new();
    graph.add_edge(0, 0);
    assert!(graph.neighbors_at_distance_2(0).is_empty());

    graph.add_edge(0, 1);
    graph.add_edge(1, 1);
    let expected: HashSet<usize> = [1].iter().cloned().collect();
    assert_eq!(graph.neighbors_at_distance_2(0), expected);
}

#[test]
fn nodes_lists_every_inserted_identifier() {
    let mut graph = Graph::new();
    graph.add_edge(10, 20);
    graph.add_edge(20, 30);
    graph.add_edge(5, 5);

    let nodes: HashSet<usize> = graph.nodes().iter().cloned().collect();
    let expected: HashSet<usize> = [5, 10, 20, 30].iter().cloned().collect();
    assert_eq!(nodes, expected);
}

#[test]
fn empty_graph_queries() {
    let graph = Graph::new();

    assert_eq!(graph.degree(5), 0);
    assert!(graph.neighbors_at_distance_2(5).is_empty());
    assert!(graph.nodes().is_empty());
}

#[test]
fn self_loop_counts_twice_toward_degree() {
    let mut graph = Graph::new();
    graph.add_edge(0, 0);

    assert_eq!(graph.degree(0), 2);
    assert_eq!(graph.neighbors_of(0), Some(&vec![0, 0]));
}
