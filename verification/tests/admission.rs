use max_flow::admission::{is_admissible, try_ford_fulkerson};
use petgraph::graphmap::DiGraphMap;

fn graph_of(nodes: i32, edges: &[(i32, i32, i32)]) -> DiGraphMap<i32, i32> {
    let mut graph: DiGraphMap<i32, i32> = DiGraphMap::new();
    for v in 0..nodes {
        graph.add_node(v);
    }
    for &(a, b, w) in edges {
        graph.add_edge(a, b, w);
    }
    graph
}

#[test]
fn network_is_admitted() {
    let graph = graph_of(4, &[(0, 1, 3), (1, 0, 2), (1, 3, 2), (2, 3, 0)]);
    assert!(is_admissible(&graph, 0, 3));
    assert!(is_admissible(&graph, 3, 0));
    assert!(is_admissible(&graph, 2, 2));
}

#[test]
fn node_ids_in_any_order_are_admitted() {
    let mut graph: DiGraphMap<i32, i32> = DiGraphMap::new();
    graph.add_edge(2, 0, 5);
    graph.add_edge(0, 1, 4);
    assert!(is_admissible(&graph, 2, 1));
    assert_eq!(try_ford_fulkerson(&mut graph, 2, 1), Some(4));
}

#[test]
fn gap_in_the_node_ids_is_refused() {
    let mut graph: DiGraphMap<i32, i32> = DiGraphMap::new();
    graph.add_edge(0, 2, 5);
    assert!(!is_admissible(&graph, 0, 2));
    assert_eq!(try_ford_fulkerson(&mut graph, 0, 2), None);
    assert_eq!(graph.edge_weight(0, 2), Some(&5));
    assert_eq!(graph.edge_count(), 1);
}

#[test]
fn negative_node_id_is_refused() {
    let mut graph: DiGraphMap<i32, i32> = DiGraphMap::new();
    graph.add_edge(0, -1, 5);
    assert!(!is_admissible(&graph, 0, 0));
}

#[test]
fn source_or_sink_that_is_no_node_is_refused() {
    let graph = graph_of(3, &[(0, 1, 3), (1, 2, 3)]);
    assert!(!is_admissible(&graph, 3, 1));
    assert!(!is_admissible(&graph, 0, 3));
    assert!(!is_admissible(&graph, -1, 1));
    assert!(!is_admissible(&graph, 0, -1));
    assert!(is_admissible(&graph, 0, 2));
}

#[test]
fn graph_without_nodes_is_refused() {
    let graph: DiGraphMap<i32, i32> = DiGraphMap::new();
    assert!(!is_admissible(&graph, 0, 0));
}

#[test]
fn negative_weight_is_refused() {
    let mut graph = graph_of(3, &[(0, 1, 3), (1, 2, -1)]);
    assert!(!is_admissible(&graph, 0, 2));
    assert_eq!(try_ford_fulkerson(&mut graph, 0, 2), None);
    assert_eq!(graph.edge_weight(0, 1), Some(&3));
    assert_eq!(graph.edge_weight(1, 2), Some(&-1));
    assert_eq!(graph.edge_count(), 2);
}

#[test]
fn opposite_edges_that_exceed_the_integers_are_refused() {
    let graph = graph_of(3, &[(0, 1, i32::MAX), (1, 0, 1), (1, 2, 1)]);
    assert!(!is_admissible(&graph, 0, 2));
    let graph = graph_of(3, &[(0, 1, i32::MAX - 1), (1, 0, 1), (1, 2, 1)]);
    assert!(is_admissible(&graph, 0, 2));
}

#[test]
fn source_with_too_much_capacity_is_refused() {
    let graph = graph_of(3, &[(0, 1, i32::MAX), (0, 2, 1), (1, 2, 5)]);
    assert!(!is_admissible(&graph, 0, 2));
    assert!(is_admissible(&graph, 1, 2));
    let graph = graph_of(3, &[(0, 1, i32::MAX - 1), (0, 2, 1), (1, 2, 5)]);
    assert!(is_admissible(&graph, 0, 2));
}

#[test]
fn admitted_graph_is_solved() {
    let mut graph = graph_of(4, &[(0, 1, 3), (0, 2, 2), (1, 3, 2), (2, 3, 3)]);
    assert_eq!(try_ford_fulkerson(&mut graph, 0, 3), Some(4));
    assert_eq!(graph.edge_weight(3, 1), Some(&2));
    assert_eq!(graph.edge_weight(3, 2), Some(&2));
}
