use max_flow::admission::try_ford_fulkerson;
use max_flow::algorithm::ford_fulkerson::ford_fulkerson;
use max_flow::generate::generate_graph;
use petgraph::graphmap::DiGraphMap;

fn graph_of(nodes: i32, edges: &[(i32, i32, i32)]) -> DiGraphMap<i32, i32> {
    let mut graph: DiGraphMap<i32, i32> = DiGraphMap::new();
    for v in 0..nodes {
        graph.add_node(v);
    }
    for &(a, b, w) in edges {
        graph.add_edge(a, b, w);
    }
    graph
}

fn weight(graph: &DiGraphMap<i32, i32>, a: i32, b: i32) -> i64 {
    graph.edge_weight(a, b).copied().unwrap_or(0) as i64
}

/// What the run has used of the edge from `a` to `b`.
fn used(original: &DiGraphMap<i32, i32>, residual: &DiGraphMap<i32, i32>, a: i32, b: i32) -> i64 {
    (weight(original, a, b) - weight(residual, a, b)).max(0)
}

fn reachable_from(graph: &DiGraphMap<i32, i32>, source: i32) -> Vec<bool> {
    let n = graph.node_count();
    let mut seen = vec![false; n];
    let mut stack = vec![source];
    seen[source as usize] = true;
    while let Some(u) = stack.pop() {
        for v in 0..n as i32 {
            if !seen[v as usize] && weight(graph, u, v) > 0 {
                seen[v as usize] = true;
                stack.push(v);
            }
        }
    }
    seen
}

/// A maximum flow found by depth-first search on a matrix, to compare with.
fn reference_max_flow(graph: &DiGraphMap<i32, i32>, source: i32, sink: i32) -> i64 {
    let n = graph.node_count();
    let mut cap = vec![vec![0i64; n]; n];
    for (a, b, w) in graph.all_edges() {
        cap[a as usize][b as usize] = *w as i64;
    }
    if source == sink {
        return 0;
    }
    let mut total = 0;
    loop {
        let mut previous: Vec<Option<usize>> = vec![None; n];
        let mut seen = vec![false; n];
        let mut stack = vec![source as usize];
        seen[source as usize] = true;
        while let Some(u) = stack.pop() {
            for v in 0..n {
                if !seen[v] && cap[u][v] > 0 {
                    seen[v] = true;
                    previous[v] = Some(u);
                    stack.push(v);
                }
            }
        }
        if !seen[sink as usize] {
            return total;
        }
        let mut amount = i64::MAX;
        let mut v = sink as usize;
        while let Some(u) = previous[v] {
            amount = amount.min(cap[u][v]);
            v = u;
        }
        let mut v = sink as usize;
        while let Some(u) = previous[v] {
            cap[u][v] -= amount;
            cap[v][u] += amount;
            v = u;
        }
        total += amount;
    }
}

fn check_outcome(original: &DiGraphMap<i32, i32>, source: i32, sink: i32) {
    let mut residual = original.clone();
    let value = ford_fulkerson(&mut residual, source, sink) as i64;
    let n = original.node_count() as i32;
    assert_eq!(residual.node_count(), original.node_count());
    assert_eq!(value, reference_max_flow(original, source, sink));

    // capacity respect, and nothing negative is left
    for a in 0..n {
        for b in 0..n {
            assert!(weight(&residual, a, b) >= 0);
            assert!(used(original, &residual, a, b) <= weight(original, a, b));
            assert_eq!(
                weight(&residual, a, b) + weight(&residual, b, a),
                weight(original, a, b) + weight(original, b, a)
            );
        }
    }
    // conservation
    for x in 0..n {
        let inflow: i64 = (0..n).map(|u| used(original, &residual, u, x)).sum();
        let outflow: i64 = (0..n).map(|v| used(original, &residual, x, v)).sum();
        if x != source && x != sink {
            assert_eq!(inflow, outflow);
        }
        if x == source && source != sink {
            assert_eq!(outflow - inflow, value);
        }
        if x == sink && source != sink {
            assert_eq!(inflow - outflow, value);
        }
    }
    // the cut between what is still reachable and the rest
    let side = reachable_from(&residual, source);
    if source != sink {
        assert!(side[source as usize]);
        assert!(!side[sink as usize]);
        let mut crossing = 0;
        for a in 0..n {
            for b in 0..n {
                if side[a as usize] && !side[b as usize] {
                    crossing += weight(original, a, b);
                }
            }
        }
        assert_eq!(crossing, value);
    }
    // asking again
    let mut again = residual.clone();
    assert_eq!(ford_fulkerson(&mut again, source, sink), 0);
    assert_eq!(again.edge_count(), residual.edge_count());
    for (a, b, w) in residual.all_edges() {
        assert_eq!(again.edge_weight(a, b), Some(w));
    }
}

#[test]
fn outcome_on_a_diamond() {
    check_outcome(&graph_of(4, &[(0, 1, 3), (0, 2, 2), (1, 3, 2), (2, 3, 3)]), 0, 3);
}

#[test]
fn outcome_with_opposite_edges() {
    let graph = graph_of(
        5,
        &[(0, 1, 10), (1, 0, 4), (1, 2, 5), (2, 1, 7), (0, 2, 3), (2, 3, 8), (3, 4, 6), (1, 4, 2), (4, 1, 9)],
    );
    check_outcome(&graph, 0, 4);
    check_outcome(&graph, 4, 0);
    check_outcome(&graph, 2, 1);
    check_outcome(&graph, 3, 3);
}

#[test]
fn outcome_on_a_textbook_network() {
    let graph = graph_of(
        6,
        &[
            (0, 1, 16),
            (0, 2, 13),
            (1, 2, 10),
            (2, 1, 4),
            (1, 3, 12),
            (3, 2, 9),
            (2, 4, 14),
            (4, 3, 7),
            (3, 5, 20),
            (4, 5, 4),
        ],
    );
    let mut residual = graph.clone();
    assert_eq!(ford_fulkerson(&mut residual, 0, 5), 23);
    check_outcome(&graph, 0, 5);
}

#[test]
fn outcome_on_generated_graphs() {
    for round in 0..60 {
        let nodes = 2 + round % 9;
        let graph = generate_graph(nodes, 3 * nodes, 30);
        check_outcome(&graph, 0, nodes - 1);
        check_outcome(&graph, nodes - 1, 0);
        check_outcome(&graph, nodes / 2, 0);
    }
}

#[test]
fn asking_again_gives_zero() {
    let mut graph = graph_of(4, &[(0, 1, 3), (0, 2, 2), (1, 3, 2), (2, 3, 3), (1, 2, 5)]);
    assert_eq!(ford_fulkerson(&mut graph, 0, 3), 5);
    let left = graph.clone();
    assert_eq!(ford_fulkerson(&mut graph, 0, 3), 0);
    assert_eq!(try_ford_fulkerson(&mut graph, 0, 3), Some(0));
    assert_eq!(graph.edge_count(), left.edge_count());
    for (a, b, w) in left.all_edges() {
        assert_eq!(graph.edge_weight(a, b), Some(w));
    }
}
