//! Testing a graph before it is worked on.

use crate::algorithm::ford_fulkerson::ford_fulkerson;
use crate::graph::{all_edges, edge_weight, graph_edges, graph_nodes, node_ids};
use crate::laws::lemma_source_capacity_bounds_flows;
use crate::network::{capacities, capacity, dense, is_network, nonnegative, out_capacity};
use crate::outcome::is_outcome;
use crate::search::lemma_distinct_bounded;
use crate::sums::{row, sum_to};
use petgraph::graphmap::DiGraphMap;
use vstd::prelude::*;
use vstd::set_lib::lemma_subset_equality;

verus! {

/// The inputs that [`try_ford_fulkerson`] works on: the graph is a network,
/// `source` and `sink` are nodes of it, and the capacities of the edges that
/// leave `source` together fit in `i32`, so that the value of every flow does.
pub open spec fn admissible(
    nodes: Set<i32>,
    weights: Map<(i32, i32), i32>,
    source: i32,
    sink: i32,
) -> bool {
    &&& is_network(nodes, weights)
    &&& nodes.contains(source)
    &&& nodes.contains(sink)
    &&& out_capacity(weights, nodes.len() as int, source as int) <= i32::MAX
}

/// The identifiers `0, 1, ..., k - 1`.
pub open spec fn first_ids(k: int) -> Set<i32> {
    Set::new(|v: i32| 0 <= v < k)
}

/// There are `k` identifiers below `k`.
pub proof fn lemma_first_ids(k: int)
    requires
        0 <= k <= 0x8000_0000,
    ensures
        first_ids(k).finite(),
        first_ids(k).len() == k,
    decreases k,
{
    broadcast use vstd::set::group_set_axioms;

    if k == 0 {
        assert(first_ids(k) =~= Set::<i32>::empty());
    } else {
        lemma_first_ids(k - 1);
        assert(first_ids(k) =~= first_ids(k - 1).insert((k - 1) as i32));
    }
}

/// Distinct identifiers, as many as the greatest allows, are dense.
pub proof fn lemma_ids_dense(ids: Seq<i32>, nodes: Set<i32>)
    requires
        ids.no_duplicates(),
        ids.to_set() == nodes,
        forall|k: int| 0 <= k < ids.len() ==> 0 <= #[trigger] ids[k] < ids.len(),
    ensures
        nodes.len() == ids.len(),
        ids.len() <= 0x8000_0000,
        dense(nodes),
{
    let n = ids.len() as int;
    ids.unique_seq_to_set();
    let wide = Seq::new(ids.len(), |k: int| ids[k] as int);
    lemma_distinct_bounded(wide, 0x8000_0000);
    lemma_first_ids(n);
    assert(nodes.subset_of(first_ids(n))) by {
        assert forall|v: i32| nodes.contains(v) implies first_ids(n).contains(v) by {
            let k = choose|k: int| 0 <= k < ids.len() && ids[k] == v;
            assert(0 <= ids[k] < ids.len());
        }
    }
    vstd::set_lib::lemma_len_subset(nodes, first_ids(n));
    lemma_subset_equality(nodes, first_ids(n));
}

/// Whether the graph, `source` and `sink` are admissible.
pub fn is_admissible(graph: &DiGraphMap<i32, i32>, source: i32, sink: i32) -> (ok: bool)
    ensures
        ok == admissible(graph_nodes(*graph), graph_edges(*graph), source, sink),
{
    let ghost nodes = graph_nodes(*graph);
    let ghost weights = graph_edges(*graph);
    let ids = node_ids(graph);
    let n = ids.len();
    proof {
        ids@.unique_seq_to_set();
    }
    let mut i: usize = 0;
    while i < n
        invariant
            n == ids@.len(),
            n == nodes.len(),
            nodes == graph_nodes(*graph),
            ids@.to_set() == nodes,
            0 <= i <= n,
            forall|k: int| 0 <= k < i ==> 0 <= #[trigger] ids@[k] < n,
        decreases n - i,
    {
        let id = ids[i];
        if id < 0 || id as usize >= n {
            proof {
                assert(ids@[i as int] == id);
                assert(nodes.contains(id));
            }
            return false;
        }
        i += 1;
    }
    proof {
        lemma_ids_dense(ids@, nodes);
    }
    if source < 0 || source as usize >= n || sink < 0 || sink as usize >= n {
        return false;
    }
    let edges = all_edges(graph);
    let mut j: usize = 0;
    while j < edges.len()
        invariant
            n == nodes.len(),
            nodes == graph_nodes(*graph),
            weights == graph_edges(*graph),
            0 <= j <= edges@.len(),
            forall|k: int|
                0 <= k < edges@.len() ==> weights.contains_key(
                    ((#[trigger] edges@[k]).0, edges@[k].1),
                ) && weights[(edges@[k].0, edges@[k].1)] == edges@[k].2,
            forall|k: int|
                0 <= k < j ==> {
                    let (a, b, weight) = #[trigger] edges@[k];
                    &&& 0 <= a < n
                    &&& 0 <= b < n
                    &&& 0 <= weight
                    &&& weight + capacity(weights, b as int, a as int) <= i32::MAX
                },
        decreases edges@.len() - j,
    {
        let (a, b, weight) = edges[j];
        if a < 0 || a as usize >= n || b < 0 || b as usize >= n {
            return false;
        }
        let back = edge_weight(graph, b, a).unwrap_or(0);
        proof {
            assert(capacity(weights, a as int, b as int) == weight);
            assert(capacity(weights, b as int, a as int) == back);
        }
        if weight < 0 || weight as i64 + back as i64 > i32::MAX as i64 {
            return false;
        }
        j += 1;
    }
    proof {
        assert forall|a: i32, b: i32| #[trigger] weights.contains_key((a, b)) implies 0 <= a < n
            && 0 <= b < n && 0 <= weights[(a, b)] && weights[(a, b)] + capacity(
            weights,
            b as int,
            a as int,
        ) <= i32::MAX by {
            let k = choose|k: int|
                0 <= k < edges@.len() && (#[trigger] edges@[k]).0 == a && edges@[k].1 == b;
            assert(weights[(edges@[k].0, edges@[k].1)] == edges@[k].2);
        }
        assert forall|u: int, v: int| 0 <= u < n && 0 <= v < n implies 0 <= #[trigger] capacity(
            weights,
            u,
            v,
        ) by {
            if weights.contains_key((u as i32, v as i32)) {
                assert(0 <= weights[(u as i32, v as i32)]);
            }
        }
        assert forall|u: int, v: int| 0 <= u < n && 0 <= v < n implies #[trigger] capacity(
            weights,
            u,
            v,
        ) + capacity(weights, v, u) <= i32::MAX by {
            if weights.contains_key((u as i32, v as i32)) {
                assert(0 <= weights[(u as i32, v as i32)]);
            } else if weights.contains_key((v as i32, u as i32)) {
                assert(0 <= weights[(v as i32, u as i32)]);
            }
        }
    }
    let mut total: i64 = 0;
    let mut v: usize = 0;
    while v < n
        invariant
            n == nodes.len(),
            n <= 0x8000_0000,
            weights == graph_edges(*graph),
            nonnegative(weights, n as int),
            0 <= source < n,
            0 <= v <= n,
            total == sum_to(row(capacities(weights), source as int), v as int),
            0 <= total <= v * 0x7fff_ffff,
        decreases n - v,
    {
        let weight = edge_weight(graph, source, v as i32).unwrap_or(0);
        proof {
            assert(capacity(weights, source as int, v as int) == weight);
            assert(row(capacities(weights), source as int)(v as int) == weight);
        }
        total += weight as i64;
        v += 1;
    }
    total <= i32::MAX as i64
}

/// The maximum flow from `source` to `sink`, where the inputs are admissible.
///
/// On admissible inputs this is [`ford_fulkerson`]. On others it returns
/// `None` and leaves the graph as it is.
pub fn try_ford_fulkerson(graph: &mut DiGraphMap<i32, i32>, source: i32, sink: i32) -> (result:
    Option<i32>)
    ensures
        result is Some <==> admissible(
            graph_nodes(*old(graph)),
            graph_edges(*old(graph)),
            source,
            sink,
        ),
        match result {
            Some(max_flow) => is_outcome(
                graph_nodes(*old(graph)),
                graph_edges(*old(graph)),
                graph_nodes(*final(graph)),
                graph_edges(*final(graph)),
                source as int,
                sink as int,
                max_flow as int,
            ),
            None => graph_nodes(*final(graph)) == graph_nodes(*old(graph)) && graph_edges(
                *final(graph),
            ) == graph_edges(*old(graph)),
        },
{
    if is_admissible(graph, source, sink) {
        proof {
            lemma_source_capacity_bounds_flows(
                graph_edges(*graph),
                graph_nodes(*graph).len() as int,
                source as int,
                sink as int,
            );
        }
        Some(ford_fulkerson(graph, source, sink))
    } else {
        None
    }
}

} // verus!
