use max_flow::admission::is_admissible;
use max_flow::generate::{generate_graph, is_new_edge};
use petgraph::graphmap::DiGraphMap;

#[test]
fn generated_graph_has_its_nodes_and_its_path() {
    for &(nodes, extra, weight) in &[(1, 0, 2), (1, 5, 3), (2, 0, 2), (5, 10, 30), (40, 200, 7)] {
        let graph = generate_graph(nodes, extra, weight);
        assert_eq!(graph.node_count(), nodes as usize);
        for v in 0..nodes {
            assert!(graph.contains_node(v));
        }
        for v in 0..nodes - 1 {
            assert!(graph.contains_edge(v, v + 1));
        }
        for (a, b, w) in graph.all_edges() {
            assert!(0 <= a && a < nodes);
            assert!(0 <= b && b < nodes);
            assert_ne!(a, b);
            assert!(1 <= *w && *w < weight);
        }
        assert!(graph.edge_count() >= (nodes - 1) as usize);
        assert!(graph.edge_count() <= (nodes - 1 + extra) as usize);
        assert!(is_admissible(&graph, 0, nodes - 1));
    }
}

#[test]
fn generated_graph_without_extra_edges_is_a_path() {
    let graph = generate_graph(6, 0, 10);
    assert_eq!(graph.edge_count(), 5);
    let graph = generate_graph(6, -3, 10);
    assert_eq!(graph.edge_count(), 5);
}

#[test]
fn weights_stay_below_the_limit() {
    let graph = generate_graph(20, 100, 2);
    for (_, _, w) in graph.all_edges() {
        assert_eq!(*w, 1);
    }
}

#[test]
fn saturated_graph_takes_no_more_edges() {
    // three nodes have six ordered pairs of different nodes
    let graph = generate_graph(3, 2000, 5);
    assert!(graph.edge_count() <= 6);
    assert!(graph.edge_count() >= 2);
}

#[test]
fn new_edge_joins_different_nodes_without_one() {
    let mut graph: DiGraphMap<i32, i32> = DiGraphMap::new();
    graph.add_edge(0, 1, 4);
    assert!(!is_new_edge(&graph, 0, 1));
    assert!(is_new_edge(&graph, 1, 0));
    assert!(!is_new_edge(&graph, 1, 1));
    assert!(is_new_edge(&graph, 0, 2));
}
