use max_flow::algorithm::ford_fulkerson::{bfs, ford_fulkerson};
use petgraph::graphmap::DiGraphMap;

fn graph_of(nodes: i32, edges: &[(i32, i32, i32)]) -> DiGraphMap<i32, i32> {
    let mut graph: DiGraphMap<i32, i32> = DiGraphMap::new();
    for v in 0..nodes {
        graph.add_node(v);
    }
    for &(a, b, w) in edges {
        graph.add_edge(a, b, w);
    }
    graph
}

/// Runs the phases by hand on the paths that `bfs` finds, and counts them.
fn phases(graph: &mut DiGraphMap<i32, i32>, source: i32, sink: i32) -> (i64, usize) {
    let mut parent: Vec<Option<i32>> = vec![None; graph.node_count()];
    let mut total = 0i64;
    let mut count = 0;
    while bfs(graph, source, sink, &mut parent) {
        let mut amount = i32::MAX;
        let mut node = sink;
        while let Some(previous) = parent[node as usize] {
            amount = amount.min(*graph.edge_weight(previous, node).unwrap());
            node = previous;
        }
        let mut node = sink;
        while let Some(previous) = parent[node as usize] {
            *graph.edge_weight_mut(previous, node).unwrap() -= amount;
            let back = graph.edge_weight(node, previous).copied().unwrap_or(0);
            graph.add_edge(node, previous, back + amount);
            node = previous;
        }
        total += amount as i64;
        count += 1;
    }
    (total, count)
}

fn crossed_ladder(scale: i32) -> Vec<(i32, i32, i32)> {
    vec![
        (0, 1, scale),
        (0, 2, scale),
        (1, 2, 1),
        (1, 3, scale),
        (2, 3, scale),
    ]
}

#[test]
fn large_capacities_take_no_more_phases() {
    let mut counts = Vec::new();
    for &scale in &[1, 10, 1_000, 1_000_000, 1_000_000_000] {
        let mut graph = graph_of(4, &crossed_ladder(scale));
        let (total, count) = phases(&mut graph, 0, 3);
        assert_eq!(total, 2 * scale as i64);
        counts.push(count);
    }
    for count in &counts {
        assert_eq!(*count, 2);
    }
}

#[test]
fn large_capacities_are_solved_at_once() {
    let mut graph = graph_of(4, &crossed_ladder(1_000_000_000));
    assert_eq!(ford_fulkerson(&mut graph, 0, 3), 2_000_000_000);
}

/// The number of ordered pairs of nodes that an edge joins in one direction
/// or the other.
fn joined_pairs(graph: &DiGraphMap<i32, i32>) -> usize {
    let n = graph.node_count() as i32;
    let mut pairs = 0;
    for a in 0..n {
        for b in 0..n {
            let forth = graph.edge_weight(a, b).copied().unwrap_or(0);
            let back = graph.edge_weight(b, a).copied().unwrap_or(0);
            if forth > 0 || back > 0 {
                pairs += 1;
            }
        }
    }
    pairs
}

#[test]
fn phases_stay_within_the_bound() {
    for &scale in &[1, 1_000, 100_000] {
        for nodes in 2..12 {
            let mut edges = Vec::new();
            for a in 0..nodes {
                for b in 0..nodes {
                    if a != b && (a * 5 + b * 3) % 7 < 3 {
                        edges.push((a, b, scale * (1 + (a * 13 + b * 7) % 11)));
                    }
                }
            }
            let mut graph = graph_of(nodes, &edges);
            let bound = nodes as usize * (joined_pairs(&graph) + 1);
            let (_, count) = phases(&mut graph, 0, nodes - 1);
            assert!(count <= bound);
        }
    }
}

#[test]
fn phases_stay_within_nodes_times_edges() {
    for &scale in &[1, 1_000, 100_000] {
        for nodes in 2..12 {
            let mut edges = Vec::new();
            for a in 0..nodes {
                for b in 0..nodes {
                    if a != b && (a * 7 + b * 3) % 4 != 0 {
                        edges.push((a, b, scale * (1 + (a * 5 + b * 11) % 9)));
                    }
                }
            }
            let mut graph = graph_of(nodes, &edges);
            let mut solved = graph.clone();
            let (total, count) = phases(&mut graph, 0, nodes - 1);
            assert!(count <= nodes as usize * edges.len());
            assert_eq!(total, ford_fulkerson(&mut solved, 0, nodes - 1) as i64);
        }
    }
}

#[test]
fn phase_counts_do_not_depend_on_the_scale() {
    let mut seen: Vec<Vec<usize>> = Vec::new();
    for &scale in &[1, 1_000, 100_000] {
        let mut counts = Vec::new();
        for nodes in 2..10 {
            let mut edges = Vec::new();
            for a in 0..nodes {
                for b in 0..nodes {
                    if a != b && (a + 2 * b) % 3 != 0 {
                        edges.push((a, b, scale * (1 + (a * 3 + b) % 5)));
                    }
                }
            }
            let mut graph = graph_of(nodes, &edges);
            counts.push(phases(&mut graph, 0, nodes - 1).1);
        }
        seen.push(counts);
    }
    assert_eq!(seen[0], seen[1]);
    assert_eq!(seen[1], seen[2]);
}
