//! Maximum flow by shortest augmenting paths.

use crate::augment::{
    is_least_after, is_sending, lemma_extends_step, lemma_extension_joins_nodes, lemma_least_step,
    lemma_longer_run, lemma_residual_fits, lemma_sending_done, lemma_sending_room,
    lemma_sending_starts, lemma_sending_step, lemma_walk_back,
};
use crate::duality::{lemma_nothing_sent, lemma_used_flow};
use crate::graph::{
    add_edge, edge_weight, edge_weight_mut, graph_edges, graph_nodes, neighbors, node_count,
};
use crate::network::{
    augmentable, capacity, dense, extends_edges, flows_bounded, is_flow, is_network, is_path,
    is_residual_of, joins_nodes, nonnegative, pairs_fit, reachable, sent_value, used_flow,
};
use crate::outcome::{is_outcome, lemma_outcome};
use crate::phases::{is_augmenting, is_run};
use crate::search::{
    consistent, discover, is_search_result, lemma_discover, lemma_distinct_bounded, lemma_finish,
    lemma_level_is_distance, lemma_route, lemma_start, marks_path, route, start,
};
use petgraph::graphmap::DiGraphMap;
use std::collections::VecDeque;
use vstd::prelude::*;

verus! {

/// Breadth-first search for an augmenting path.
///
/// Looks for a path from `source` to `sink` over edges of positive weight.
/// It finds one exactly where `sink` is another node than `source` and can be
/// reached from it; `parent` then records a shortest such path, which can be
/// read backwards from `sink`. Where it finds none, what `parent` holds is
/// not specified. The graph is left as it is.
pub fn bfs(
    graph: &DiGraphMap<i32, i32>,
    source: i32,
    sink: i32,
    parent: &mut Vec<Option<i32>>,
) -> (found: bool)
    requires
        dense(graph_nodes(*graph)),
        joins_nodes(graph_edges(*graph), graph_nodes(*graph).len() as int),
        old(parent)@.len() == graph_nodes(*graph).len(),
        graph_nodes(*graph).contains(source),
        graph_nodes(*graph).contains(sink),
    ensures
        final(parent)@.len() == old(parent)@.len(),
        found == augmentable(
            graph_edges(*graph),
            old(parent)@.len() as int,
            source as int,
            sink as int,
        ),
        found ==> exists|p: Seq<int>| #[trigger]
            is_search_result(
                graph_edges(*graph),
                old(parent)@.len() as int,
                final(parent)@,
                source as int,
                sink as int,
                p,
            ),
{
    let ghost weights = graph_edges(*graph);
    let ghost n = parent@.len() as int;
    let mut visited: Vec<bool> = vec![false; node_count(graph)];
    let mut queue: VecDeque<i32> = VecDeque::new();

    queue.push_back(source);
    visited[source as usize] = true;
    parent[source as usize] = None;

    let ghost mut d = start(source as int);
    let ghost mut head: int = 0;
    proof {
        lemma_start(weights, n, source as int, parent@, visited@);
    }

    while queue.len() > 0
        invariant
            joins_nodes(weights, n),
            n == old(parent)@.len(),
            weights == graph_edges(*graph),
            0 <= source < n,
            0 <= sink < n,
            consistent(weights, n, source as int, parent@, visited@, d, head),
            queue@.len() == d.order.len() - head,
            forall|k: int| 0 <= k < queue@.len() ==> #[trigger] queue@[k] as int == d.order[head + k],
            source != sink ==> !visited@[sink as int],
        decreases n - head,
    {
        let current_node: i32 = queue.pop_front().unwrap();
        let targets = neighbors(graph, current_node);
        proof {
            lemma_distinct_bounded(d.order, n);
        }
        let mut i: usize = 0;
        while i < targets.len()
            invariant
                joins_nodes(weights, n),
                n == old(parent)@.len(),
                weights == graph_edges(*graph),
                0 <= source < n,
                0 <= sink < n,
                0 <= head < d.order.len(),
                current_node as int == d.order[head],
                consistent(weights, n, source as int, parent@, visited@, d, head),
                queue@.len() == d.order.len() - head - 1,
                forall|k: int|
                    0 <= k < queue@.len() ==> #[trigger] queue@[k] as int == d.order[head + 1 + k],
                source != sink ==> !visited@[sink as int],
                0 <= i <= targets@.len(),
                forall|b: i32| weights.contains_key((current_node, b)) <==> targets@.contains(b),
                forall|k: int|
                    0 <= k < i && capacity(weights, current_node as int, #[trigger] targets@[k] as int)
                        > 0 ==> visited@[targets@[k] as int],
            decreases targets@.len() - i,
        {
            let neighbor: i32 = targets[i];
            assert(weights.contains_key((current_node, neighbor))) by {
                assert(targets@.contains(targets@[i as int]));
            }
            if !visited[neighbor as usize] && edge_weight(graph, current_node, neighbor).unwrap_or(0)
                > 0 {
                proof {
                    lemma_discover(
                        weights,
                        n,
                        source as int,
                        parent@,
                        visited@,
                        d,
                        head,
                        neighbor as int,
                    );
                    if neighbor == sink {
                        assert forall|q: Seq<int>| #[trigger]
                            is_path(
                                weights,
                                n,
                                q,
                                source as int,
                                sink as int,
                            ) implies d.level[head] + 2 <= q.len() by {
                            lemma_level_is_distance(
                                weights,
                                n,
                                source as int,
                                parent@,
                                visited@,
                                d,
                                head,
                                q,
                                sink as int,
                            );
                        }
                    }
                }
                let ghost before = d;
                queue.push_back(neighbor);
                parent[neighbor as usize] = Some(current_node);
                visited[neighbor as usize] = true;
                proof {
                    d = discover(before, neighbor as int, head);
                }

                if neighbor == sink {
                    proof {
                        let last = d.order.len() - 1;
                        lemma_route(weights, n, source as int, parent@, visited@, d, head, last);
                        let p = route(d, last);
                        assert(visited@[source as int]) by {
                            assert(before.order[0] == source);
                        }
                        assert(is_search_result(
                            weights,
                            n,
                            parent@,
                            source as int,
                            sink as int,
                            p,
                        ));
                    }
                    return true;
                }
            }
            i += 1;
        }
        proof {
            assert forall|v: int|
                0 <= v < n && #[trigger] capacity(weights, d.order[head], v) > 0 implies visited@[v] by {
                assert(weights.contains_key((current_node, v as i32)));
                assert(targets@.contains(v as i32));
                let k = choose|k: int| 0 <= k < targets@.len() && targets@[k] == v as i32;
                assert(capacity(weights, current_node as int, targets@[k] as int) > 0);
            }
            lemma_finish(weights, n, source as int, parent@, visited@, d, head);
            head = head + 1;
        }
    }

    proof {
        if source != sink && reachable(weights, n, source as int, sink as int) {
            let q = choose|q: Seq<int>| is_path(weights, n, q, source as int, sink as int);
            lemma_level_is_distance(
                weights,
                n,
                source as int,
                parent@,
                visited@,
                d,
                head,
                q,
                sink as int,
            );
            assert(visited@[sink as int]);
        }
    }
    false
}

/// The maximum flow from `source` to `sink`.
///
/// Looks for a shortest augmenting path, sends along it as much as its
/// narrowest edge takes, and does so again until no augmenting path is left.
/// Sending an amount over an edge takes it from the edge's weight and adds
/// it to the weight of the opposite edge, which is created where the graph
/// has none. The graph is worked on in place: what it holds afterwards is the
/// residual graph of a maximum flow, and the value returned is that flow's
/// value. Where `sink` is `source` the value is zero and the graph is left
/// as it is.
///
/// The graph must be a network, `source` and `sink` must be nodes of it, and
/// the value of its maximum flow must fit in `i32`.
pub fn ford_fulkerson(graph: &mut DiGraphMap<i32, i32>, source: i32, sink: i32) -> (max_flow: i32)
    requires
        is_network(graph_nodes(*old(graph)), graph_edges(*old(graph))),
        graph_nodes(*old(graph)).contains(source),
        graph_nodes(*old(graph)).contains(sink),
        flows_bounded(
            graph_edges(*old(graph)),
            graph_nodes(*old(graph)).len() as int,
            source as int,
            sink as int,
            i32::MAX as int,
        ),
    ensures
        is_outcome(
            graph_nodes(*old(graph)),
            graph_edges(*old(graph)),
            graph_nodes(*final(graph)),
            graph_edges(*final(graph)),
            source as int,
            sink as int,
            max_flow as int,
        ),
{
    let ghost nodes = graph_nodes(*graph);
    let ghost original = graph_edges(*graph);
    let ghost n = nodes.len() as int;
    let ghost mut run = seq![original];
    let mut parent: Vec<Option<i32>> = vec![None; node_count(graph)];
    let mut max_flow: i32 = 0;
    proof {
        lemma_nothing_sent(original, n, source as int, sink as int);
    }

    while bfs(graph, source, sink, &mut parent)
        invariant
            graph_nodes(*graph) == nodes,
            n == nodes.len(),
            is_network(nodes, original),
            nodes.contains(source),
            nodes.contains(sink),
            flows_bounded(original, n, source as int, sink as int, i32::MAX as int),
            parent@.len() == n,
            extends_edges(original, graph_edges(*graph)),
            joins_nodes(graph_edges(*graph), n),
            is_residual_of(original, graph_edges(*graph), n, source as int, sink as int),
            max_flow == sent_value(original, graph_edges(*graph), n, source as int),
            graph_edges(*graph) == original || augmentable(original, n, source as int, sink as int),
            is_run(run, n, source as int, sink as int),
            run[0] == original,
            run[run.len() - 1] == graph_edges(*graph),
        decreases i32::MAX - max_flow,
    {
        let ghost residual = graph_edges(*graph);
        let ghost p = choose|p: Seq<int>| #[trigger]
            is_search_result(residual, n, parent@, source as int, sink as int, p);
        let ghost mut at: int = p.len() - 1;

        let mut path_flow: i32 = i32::MAX;
        let mut current_node: i32 = sink;
        loop
            invariant
                graph_edges(*graph) == residual,
                parent@.len() == n,
                is_path(residual, n, p, source as int, sink as int),
                marks_path(parent@, p),
                0 <= at < p.len(),
                current_node as int == p[at],
                is_least_after(residual, p, at, path_flow as int, i32::MAX as int),
            ensures
                at == 0,
            decreases at,
        {
            proof {
                lemma_walk_back(residual, n, parent@, p, source as int, sink as int, at);
            }
            match parent[current_node as usize] {
                Some(prev_node) => {
                    let weight: i32 = edge_weight(graph, prev_node, current_node).unwrap();
                    proof {
                        lemma_least_step(residual, p, at, path_flow as int, i32::MAX as int);
                        at = at - 1;
                    }
                    if weight < path_flow {
                        path_flow = weight;
                    }
                    current_node = prev_node;
                },
                None => {
                    break ;
                },
            }
        }

        proof {
            assert(p[0] != p[p.len() - 1]);
            assert(is_augmenting(residual, n, source as int, sink as int, p, path_flow as int));
            lemma_residual_fits(original, residual, n, source as int, sink as int);
            lemma_sending_starts(residual, n, p, path_flow as int, sink as int);
            at = p.len() - 1;
        }
        let mut node_on_path: i32 = sink;
        loop
            invariant
                graph_nodes(*graph) == nodes,
                dense(nodes),
                n == nodes.len(),
                parent@.len() == n,
                nonnegative(residual, n),
                pairs_fit(residual, n),
                is_augmenting(residual, n, source as int, sink as int, p, path_flow as int),
                marks_path(parent@, p),
                0 <= at < p.len(),
                node_on_path as int == p[at],
                is_sending(residual, graph_edges(*graph), n, p, at, path_flow as int, sink as int),
                extends_edges(original, graph_edges(*graph)),
            ensures
                at == 0,
            decreases at,
        {
            proof {
                lemma_walk_back(residual, n, parent@, p, source as int, sink as int, at);
            }
            match parent[node_on_path as usize] {
                Some(previous_node) => {
                    let ghost before = graph_edges(*graph);
                    proof {
                        lemma_sending_room(
                            residual,
                            before,
                            n,
                            source as int,
                            sink as int,
                            p,
                            at,
                            path_flow as int,
                        );
                    }
                    let weight = edge_weight_mut(graph, previous_node, node_on_path).unwrap();
                    *weight -= path_flow;
                    if let Some(reverse_weight) = edge_weight_mut(graph, node_on_path, previous_node) {
                        *reverse_weight += path_flow;
                    } else {
                        add_edge(graph, node_on_path, previous_node, path_flow);
                    }
                    proof {
                        let after = graph_edges(*graph);
                        assert(graph_nodes(*graph) =~= nodes);
                        lemma_extends_step(original, before, after, previous_node, node_on_path);
                        lemma_sending_step(
                            residual,
                            before,
                            after,
                            n,
                            p,
                            at,
                            path_flow as int,
                            sink as int,
                        );
                        at = at - 1;
                    }
                    node_on_path = previous_node;
                },
                None => {
                    break ;
                },
            }
        }

        proof {
            let after = graph_edges(*graph);
            lemma_sending_done(
                original,
                residual,
                after,
                n,
                source as int,
                sink as int,
                p,
                path_flow as int,
            );
            lemma_longer_run(run, after, n, source as int, sink as int);
            run = run.push(after);
            lemma_extension_joins_nodes(original, after, n);
            lemma_used_flow(original, after, n, source as int, sink as int);
            assert(is_flow(original, n, source as int, sink as int, used_flow(original, after)));
        }
        max_flow += path_flow;
    }

    proof {
        lemma_outcome(nodes, original, graph_edges(*graph), source as int, sink as int, run);
    }
    max_flow
}

} // verus!
