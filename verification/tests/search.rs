use max_flow::algorithm::ford_fulkerson::bfs;
use petgraph::graphmap::DiGraphMap;

fn graph_of(nodes: i32, edges: &[(i32, i32, i32)]) -> DiGraphMap<i32, i32> {
    let mut graph: DiGraphMap<i32, i32> = DiGraphMap::new();
    for v in 0..nodes {
        graph.add_node(v);
    }
    for &(a, b, w) in edges {
        graph.add_edge(a, b, w);
    }
    graph
}

fn path_back_from(parent: &[Option<i32>], sink: i32) -> Vec<i32> {
    let mut path = vec![sink];
    let mut node = sink;
    while let Some(previous) = parent[node as usize] {
        path.push(previous);
        node = previous;
        assert!(path.len() <= parent.len());
    }
    path.reverse();
    path
}

#[test]
fn bfs_records_the_only_path() {
    let graph = graph_of(4, &[(0, 1, 2), (1, 2, 1), (2, 3, 4)]);
    let mut parent: Vec<Option<i32>> = vec![Some(3); 4];
    assert!(bfs(&graph, 0, 3, &mut parent));
    assert_eq!(parent.len(), 4);
    assert_eq!(path_back_from(&parent, 3), vec![0, 1, 2, 3]);
}

#[test]
fn bfs_takes_a_shortest_path() {
    let graph = graph_of(
        6,
        &[(0, 1, 1), (1, 2, 1), (2, 3, 1), (3, 5, 1), (0, 4, 1), (4, 5, 1), (1, 5, 0)],
    );
    let mut parent: Vec<Option<i32>> = vec![None; 6];
    assert!(bfs(&graph, 0, 5, &mut parent));
    assert_eq!(path_back_from(&parent, 5), vec![0, 4, 5]);
}

#[test]
fn bfs_does_not_cross_an_exhausted_edge() {
    let graph = graph_of(3, &[(0, 1, 0), (1, 2, 5)]);
    let mut parent: Vec<Option<i32>> = vec![None; 3];
    assert!(!bfs(&graph, 0, 2, &mut parent));
    assert_eq!(parent.len(), 3);
}

#[test]
fn bfs_does_not_walk_against_an_edge() {
    let graph = graph_of(3, &[(1, 0, 5), (2, 1, 5)]);
    let mut parent: Vec<Option<i32>> = vec![None; 3];
    assert!(!bfs(&graph, 0, 2, &mut parent));
}

#[test]
fn bfs_from_a_node_to_itself_finds_nothing() {
    let graph = graph_of(2, &[(0, 1, 5), (1, 0, 5), (0, 0, 5)]);
    let mut parent: Vec<Option<i32>> = vec![None; 2];
    assert!(!bfs(&graph, 0, 0, &mut parent));
}

#[test]
fn bfs_overwrites_what_an_earlier_search_left() {
    let graph = graph_of(3, &[(0, 1, 1), (1, 2, 1), (2, 0, 1)]);
    let mut parent: Vec<Option<i32>> = vec![None; 3];
    assert!(bfs(&graph, 0, 2, &mut parent));
    assert_eq!(path_back_from(&parent, 2), vec![0, 1, 2]);
    assert!(bfs(&graph, 1, 0, &mut parent));
    assert_eq!(path_back_from(&parent, 0), vec![1, 2, 0]);
}

#[test]
fn bfs_leaves_the_graph_alone() {
    let graph = graph_of(3, &[(0, 1, 4), (1, 2, 6)]);
    let mut parent: Vec<Option<i32>> = vec![None; 3];
    assert!(bfs(&graph, 0, 2, &mut parent));
    assert_eq!(graph.edge_count(), 2);
    assert_eq!(graph.edge_weight(0, 1), Some(&4));
    assert_eq!(graph.edge_weight(1, 2), Some(&6));
}
