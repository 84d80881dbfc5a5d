//! Random graphs to run the algorithm on.

use crate::admission::{first_ids, lemma_first_ids};
use crate::graph::{
    add_edge, add_node, contains_edge, empty_edges, graph_edges, graph_nodes, new_graph,
};
use crate::network::{capacity, is_network};
use crate::random::random_range;
use petgraph::graphmap::DiGraphMap;
use vstd::prelude::*;

verus! {

/// What holds of the edges of a generated graph, whatever numbers were drawn:
/// every edge joins two different nodes and has a weight from 1 up to, not
/// including, `weight`; and each node but the last has an edge to the next.
pub open spec fn is_generated(weights: Map<(i32, i32), i32>, number_of_nodes: int, weight: int) -> bool {
    &&& forall|a: i32, b: i32| #[trigger]
        weights.contains_key((a, b)) ==> 0 <= a < number_of_nodes && 0 <= b < number_of_nodes && a
            != b && 1 <= weights[(a, b)] < weight
    &&& forall|i: i32|
        0 <= i < number_of_nodes - 1 ==> #[trigger] weights.contains_key((i, (i + 1) as i32))
}

/// A generated graph is a network, unless two of its weights can exceed `i32`
/// together.
pub proof fn lemma_generated_is_network(
    nodes: Set<i32>,
    weights: Map<(i32, i32), i32>,
    number_of_nodes: int,
    weight: int,
)
    requires
        0 <= number_of_nodes <= i32::MAX,
        1 <= weight <= 0x4000_0000,
        nodes == first_ids(number_of_nodes),
        is_generated(weights, number_of_nodes, weight),
    ensures
        nodes.len() == number_of_nodes,
        is_network(nodes, weights),
{
    lemma_first_ids(number_of_nodes);
    assert forall|a: i32, b: i32| #[trigger] weights.contains_key((a, b)) implies 0 <= a
        < number_of_nodes && 0 <= b < number_of_nodes by {}
    assert forall|u: int, v: int|
        0 <= u < number_of_nodes && 0 <= v < number_of_nodes implies 0 <= #[trigger] capacity(
        weights,
        u,
        v,
    ) < weight by {
        if weights.contains_key((u as i32, v as i32)) {
            assert(1 <= weights[(u as i32, v as i32)] < weight);
        }
    }
    assert forall|u: int, v: int|
        0 <= u < number_of_nodes && 0 <= v < number_of_nodes implies #[trigger] capacity(
        weights,
        u,
        v,
    ) + capacity(weights, v, u) <= i32::MAX by {
        assert(0 <= capacity(weights, v, u) < weight);
    }
}

/// Whether an edge from `u` to `v` is one to add: `u` and `v` differ and the
/// graph has no such edge yet.
pub fn is_new_edge(graph: &DiGraphMap<i32, i32>, u: i32, v: i32) -> (fresh: bool)
    ensures
        fresh == (u != v && !graph_edges(*graph).contains_key((u, v))),
{
    u != v && !contains_edge(graph, u, v)
}

/// A random graph on the nodes `0, ..., number_of_nodes - 1`.
///
/// Each node but the last gets an edge to the next. Then a pair of nodes is
/// drawn `additional_edges` times, and gets an edge where it is a pair of
/// different nodes without one. Every weight is drawn from 1 up to, not
/// including, `weight`.
pub fn generate_graph(number_of_nodes: i32, additional_edges: i32, weight: i32) -> (graph:
    DiGraphMap<i32, i32>)
    requires
        1 <= number_of_nodes,
        2 <= weight,
    ensures
        graph_nodes(graph) == first_ids(number_of_nodes as int),
        is_generated(graph_edges(graph), number_of_nodes as int, weight as int),
        graph_edges(graph).dom().finite(),
        number_of_nodes - 1 <= graph_edges(graph).dom().len() <= number_of_nodes - 1 + (
        if additional_edges > 0 {
            additional_edges as int
        } else {
            0
        }),
        weight <= 0x4000_0000 ==> is_network(graph_nodes(graph), graph_edges(graph)),
{
    broadcast use vstd::set::group_set_axioms, vstd::map::group_map_axioms;

    let mut graph: DiGraphMap<i32, i32> = new_graph();

    for i in 0..number_of_nodes
        invariant
            graph_nodes(graph) == first_ids(i as int),
            graph_edges(graph) == empty_edges(),
    {
        add_node(&mut graph, i);
        assert(first_ids(i as int).insert(i) =~= first_ids(i + 1));
    }

    for i in 0..(number_of_nodes - 1)
        invariant
            1 <= number_of_nodes,
            2 <= weight,
            graph_nodes(graph) == first_ids(number_of_nodes as int),
            forall|a: i32, b: i32| #[trigger]
                graph_edges(graph).contains_key((a, b)) ==> 0 <= a < i && b == a + 1 && 1
                    <= graph_edges(graph)[(a, b)] < weight,
            forall|k: i32| 0 <= k < i ==> #[trigger] graph_edges(graph).contains_key((k, (k + 1) as i32)),
            graph_edges(graph).dom().finite(),
            graph_edges(graph).dom().len() == i,
    {
        let w = random_range(1, weight);
        let ghost before = graph_edges(graph);
        add_edge(&mut graph, i, i + 1, w);
        proof {
            assert(!before.contains_key((i, (i + 1) as i32)));
            assert(graph_nodes(graph) =~= first_ids(number_of_nodes as int));
            assert(graph_edges(graph).dom() =~= before.dom().insert((i, (i + 1) as i32)));
        }
    }

    let ghost path_edges = number_of_nodes - 1;
    let mut round: i32 = 0;
    while round < additional_edges
        invariant
            1 <= number_of_nodes,
            2 <= weight,
            path_edges == number_of_nodes - 1,
            0 <= round,
            round <= additional_edges || round == 0,
            graph_nodes(graph) == first_ids(number_of_nodes as int),
            is_generated(graph_edges(graph), number_of_nodes as int, weight as int),
            graph_edges(graph).dom().finite(),
            path_edges <= graph_edges(graph).dom().len() <= path_edges + round,
        decreases additional_edges - round,
    {
        let u = random_range(0, number_of_nodes);
        let v = random_range(0, number_of_nodes);
        if is_new_edge(&graph, u, v) {
            let w = random_range(1, weight);
            let ghost before = graph_edges(graph);
            add_edge(&mut graph, u, v, w);
            proof {
                assert(graph_nodes(graph) =~= first_ids(number_of_nodes as int));
                assert(graph_edges(graph).dom() =~= before.dom().insert((u, v)));
                assert forall|i: i32| 0 <= i < number_of_nodes - 1 implies #[trigger] graph_edges(
                    graph,
                ).contains_key((i, (i + 1) as i32)) by {
                    assert(before.contains_key((i, (i + 1) as i32)));
                }
            }
        }
        round += 1;
    }

    proof {
        if weight <= 0x4000_0000 {
            lemma_generated_is_network(
                graph_nodes(graph),
                graph_edges(graph),
                number_of_nodes as int,
                weight as int,
            );
        }
    }
    graph
}

} // verus!
