use max_flow::algorithm::ford_fulkerson::ford_fulkerson;
use petgraph::graphmap::DiGraphMap;

fn graph_of(nodes: i32, edges: &[(i32, i32, i32)]) -> DiGraphMap<i32, i32> {
    let mut graph: DiGraphMap<i32, i32> = DiGraphMap::new();
    for v in 0..nodes {
        graph.add_node(v);
    }
    for &(a, b, w) in edges {
        graph.add_edge(a, b, w);
    }
    graph
}

fn weight(graph: &DiGraphMap<i32, i32>, a: i32, b: i32) -> i32 {
    graph.edge_weight(a, b).copied().unwrap_or(0)
}

#[test]
fn single_edge_carries_its_capacity() {
    let mut graph = graph_of(2, &[(0, 1, 5)]);
    assert_eq!(ford_fulkerson(&mut graph, 0, 1), 5);
    assert_eq!(graph.edge_weight(0, 1), Some(&0));
    assert_eq!(graph.edge_weight(1, 0), Some(&5));
}

#[test]
fn diamond_is_limited_by_both_branches() {
    let mut graph = graph_of(4, &[(0, 1, 3), (0, 2, 2), (1, 3, 2), (2, 3, 3)]);
    assert_eq!(ford_fulkerson(&mut graph, 0, 3), 4);
    assert_eq!(weight(&graph, 0, 1), 1);
    assert_eq!(weight(&graph, 1, 0), 2);
    assert_eq!(weight(&graph, 0, 2), 0);
    assert_eq!(weight(&graph, 2, 0), 2);
    assert_eq!(weight(&graph, 1, 3), 0);
    assert_eq!(weight(&graph, 3, 1), 2);
    assert_eq!(weight(&graph, 2, 3), 1);
    assert_eq!(weight(&graph, 3, 2), 2);
}

#[test]
fn disconnected_sink_gets_nothing() {
    let mut graph = graph_of(3, &[(0, 1, 7), (2, 0, 4)]);
    assert_eq!(ford_fulkerson(&mut graph, 1, 2), 0);
    assert_eq!(graph.node_count(), 3);
    assert_eq!(graph.edge_count(), 2);
    assert_eq!(graph.edge_weight(0, 1), Some(&7));
    assert_eq!(graph.edge_weight(2, 0), Some(&4));
}

#[test]
fn cycle_updates_the_reverse_edge_that_exists_and_creates_the_one_that_does_not() {
    let mut graph = graph_of(3, &[(0, 1, 5), (1, 2, 5), (2, 1, 3)]);
    assert!(!graph.contains_edge(1, 0));
    assert_eq!(ford_fulkerson(&mut graph, 0, 2), 5);
    // the reverse edge that was absent is created with what was sent
    assert_eq!(graph.edge_weight(0, 1), Some(&0));
    assert_eq!(graph.edge_weight(1, 0), Some(&5));
    // the reverse edge that was there gains what was sent
    assert_eq!(graph.edge_weight(1, 2), Some(&0));
    assert_eq!(graph.edge_weight(2, 1), Some(&8));
    assert_eq!(graph.edge_count(), 4);
    assert_eq!(graph.node_count(), 3);
    for (_, _, w) in graph.all_edges() {
        assert!(*w >= 0);
    }
}

#[test]
fn source_that_is_the_sink_gives_zero_and_leaves_the_graph() {
    let mut graph = graph_of(3, &[(0, 1, 5), (1, 0, 2), (1, 2, 4), (1, 1, 9)]);
    assert_eq!(ford_fulkerson(&mut graph, 1, 1), 0);
    assert_eq!(graph.edge_count(), 4);
    assert_eq!(graph.edge_weight(0, 1), Some(&5));
    assert_eq!(graph.edge_weight(1, 0), Some(&2));
    assert_eq!(graph.edge_weight(1, 2), Some(&4));
    assert_eq!(graph.edge_weight(1, 1), Some(&9));
}

#[test]
fn self_loop_carries_nothing() {
    let mut graph = graph_of(2, &[(0, 0, 9), (0, 1, 2), (1, 1, 4)]);
    assert_eq!(ford_fulkerson(&mut graph, 0, 1), 2);
    assert_eq!(graph.edge_weight(0, 0), Some(&9));
    assert_eq!(graph.edge_weight(1, 1), Some(&4));
    assert_eq!(graph.edge_weight(0, 1), Some(&0));
    assert_eq!(graph.edge_weight(1, 0), Some(&2));
}

#[test]
fn edge_of_weight_zero_carries_nothing() {
    let mut graph = graph_of(3, &[(0, 1, 0), (1, 2, 6), (0, 2, 1)]);
    assert_eq!(ford_fulkerson(&mut graph, 0, 2), 1);
    assert_eq!(graph.edge_weight(0, 1), Some(&0));
    assert_eq!(graph.edge_weight(1, 2), Some(&6));
    assert!(!graph.contains_edge(1, 0));
}

#[test]
fn later_path_returns_flow_over_a_reverse_edge() {
    // The shortest path 0-1-2-3 is taken first. The second path has to give
    // back what went from 1 to 2.
    let mut graph = graph_of(
        8,
        &[
            (0, 1, 1),
            (1, 2, 1),
            (2, 3, 1),
            (0, 4, 1),
            (4, 5, 1),
            (5, 2, 1),
            (1, 6, 1),
            (6, 7, 1),
            (7, 3, 1),
        ],
    );
    assert_eq!(ford_fulkerson(&mut graph, 0, 3), 2);
    assert_eq!(weight(&graph, 1, 2), 1);
    assert_eq!(weight(&graph, 2, 1), 0);
    assert_eq!(weight(&graph, 0, 1), 0);
    assert_eq!(weight(&graph, 0, 4), 0);
    assert_eq!(weight(&graph, 2, 3), 0);
    assert_eq!(weight(&graph, 7, 3), 0);
    assert_eq!(weight(&graph, 3, 7), 1);
}

#[test]
fn opposite_edges_keep_their_sum() {
    let mut graph = graph_of(4, &[(0, 1, 4), (1, 0, 3), (1, 2, 2), (2, 1, 6), (2, 3, 5), (0, 2, 1)]);
    assert_eq!(ford_fulkerson(&mut graph, 0, 3), 3);
    assert_eq!(weight(&graph, 0, 1) + weight(&graph, 1, 0), 7);
    assert_eq!(weight(&graph, 1, 2) + weight(&graph, 2, 1), 8);
    assert_eq!(weight(&graph, 2, 3) + weight(&graph, 3, 2), 5);
    assert_eq!(weight(&graph, 0, 2) + weight(&graph, 2, 0), 1);
}

#[test]
fn greatest_value_that_fits() {
    let mut graph = graph_of(3, &[(0, 1, i32::MAX), (1, 2, i32::MAX)]);
    assert_eq!(ford_fulkerson(&mut graph, 0, 2), i32::MAX);
    assert_eq!(graph.edge_weight(0, 1), Some(&0));
    assert_eq!(graph.edge_weight(1, 0), Some(&i32::MAX));
}
