//! What holds of every run, stated over the outcome that a run ensures.

use crate::augment::lemma_extension_joins_nodes;
use crate::duality::{lemma_max_flow_min_cut, lemma_nothing_sent};
use crate::network::{
    capacities, capacity, cut_capacity, flow_value, flows_bounded, is_flow, is_network,
    out_capacity, pairs_fit, reachable_set, separates, used_flow,
};
use crate::outcome::{is_bounded_run, is_outcome};
use crate::phases::{is_run, phase_bound};
use crate::sums::{col, lemma_sum_le, lemma_sum_zero, row, sum_to};
use vstd::prelude::*;

verus! {

/// Conservation: at every node other than `source` and `sink`, the flow that
/// a run has used on the edges into the node is the flow that it has used on
/// the edges out of it. The used flow of an edge is the capacity that the edge
/// has lost, and zero where it has lost none.
pub proof fn lemma_conservation(
    nodes: Set<i32>,
    original: Map<(i32, i32), i32>,
    nodes_after: Set<i32>,
    residual: Map<(i32, i32), i32>,
    source: int,
    sink: int,
    value: int,
    x: int,
)
    requires
        is_outcome(nodes, original, nodes_after, residual, source, sink, value),
        0 <= x < nodes.len(),
        x != source,
        x != sink,
    ensures
        sum_to(col(used_flow(original, residual), x), nodes.len() as int) == sum_to(
            row(used_flow(original, residual), x),
            nodes.len() as int,
        ),
{
}

/// Capacity respect: the flow that a run has used on a pair of nodes is
/// neither negative nor above the pair's original capacity, and it is zero
/// where the original graph has no edge.
pub proof fn lemma_capacity_respected(
    nodes: Set<i32>,
    original: Map<(i32, i32), i32>,
    nodes_after: Set<i32>,
    residual: Map<(i32, i32), i32>,
    source: int,
    sink: int,
    value: int,
    u: int,
    v: int,
)
    requires
        is_outcome(nodes, original, nodes_after, residual, source, sink, value),
        0 <= u < nodes.len(),
        0 <= v < nodes.len(),
    ensures
        0 <= used_flow(original, residual)(u, v) <= capacity(original, u, v),
        !original.contains_key((u as i32, v as i32)) ==> used_flow(original, residual)(u, v) == 0,
{
    assert(used_flow(original, residual)(u, v) <= capacity(original, u, v));
}

/// Optimality: the value that a run returns is the value of a flow, no flow
/// has a greater value, and where `sink` is another node than `source` it is
/// the capacity of the cut between the nodes that the residual graph leaves
/// within reach of `source` and the others, which no cut undercuts.
pub proof fn lemma_optimality(
    nodes: Set<i32>,
    original: Map<(i32, i32), i32>,
    nodes_after: Set<i32>,
    residual: Map<(i32, i32), i32>,
    source: int,
    sink: int,
    value: int,
)
    requires
        is_outcome(nodes, original, nodes_after, residual, source, sink, value),
    ensures
        is_flow(original, nodes.len() as int, source, sink, used_flow(original, residual)),
        flow_value(used_flow(original, residual), nodes.len() as int, source) == value,
        forall|f: spec_fn(int, int) -> int| #[trigger]
            is_flow(original, nodes.len() as int, source, sink, f) ==> flow_value(
                f,
                nodes.len() as int,
                source,
            ) <= value,
        source != sink ==> separates(
            reachable_set(residual, nodes.len() as int, source),
            source,
            sink,
        ),
        source != sink ==> cut_capacity(
            original,
            nodes.len() as int,
            reachable_set(residual, nodes.len() as int, source),
        ) == value,
        forall|side: Set<int>| #[trigger]
            separates(side, source, sink) ==> value <= cut_capacity(
                original,
                nodes.len() as int,
                side,
            ),
{
}

/// The bound on phases: the graph that a run has left was reached from the
/// original by augmentations along shortest paths, of which there were at
/// most as many as there are nodes, times one more than the number of ordered
/// pairs of nodes that an edge joins in one direction or the other. The size
/// of the capacities has no part in it.
pub proof fn lemma_phases_bounded(
    nodes: Set<i32>,
    original: Map<(i32, i32), i32>,
    nodes_after: Set<i32>,
    residual: Map<(i32, i32), i32>,
    source: int,
    sink: int,
    value: int,
)
    requires
        is_outcome(nodes, original, nodes_after, residual, source, sink, value),
    ensures
        exists|run: Seq<Map<(i32, i32), i32>>|
            {
                &&& #[trigger] is_run(run, nodes.len() as int, source, sink)
                &&& run[0] == original
                &&& run[run.len() - 1] == residual
                &&& run.len() - 1 <= phase_bound(original, nodes.len() as int)
            },
{
    let n = nodes.len() as int;
    let run = choose|run: Seq<Map<(i32, i32), i32>>| #[trigger]
        is_bounded_run(run, original, residual, n, source, sink);
    assert(is_run(run, n, source, sink));
}

/// Asking again: the graph that a run has left can be handed to another run
/// with the same `source` and `sink`, and every such run returns zero and
/// leaves the graph as it is.
pub proof fn lemma_requery(
    nodes: Set<i32>,
    original: Map<(i32, i32), i32>,
    nodes_after: Set<i32>,
    residual: Map<(i32, i32), i32>,
    nodes_again: Set<i32>,
    residual_again: Map<(i32, i32), i32>,
    source: int,
    sink: int,
    value: int,
    value_again: int,
)
    requires
        is_network(nodes, original),
        0 <= source < nodes.len(),
        0 <= sink < nodes.len(),
        is_outcome(nodes, original, nodes_after, residual, source, sink, value),
        is_outcome(nodes_after, residual, nodes_again, residual_again, source, sink, value_again),
    ensures
        is_network(nodes_after, residual),
        flows_bounded(residual, nodes_after.len() as int, source, sink, i32::MAX as int),
        value_again == 0,
        residual_again == residual,
        nodes_again == nodes,
{
    let n = nodes.len() as int;
    assert(pairs_fit(residual, n)) by {
        assert forall|u: int, v: int| 0 <= u < n && 0 <= v < n implies #[trigger] capacity(
            residual,
            u,
            v,
        ) + capacity(residual, v, u) <= i32::MAX by {
            assert(capacity(original, u, v) + capacity(original, v, u) <= i32::MAX);
        }
    }
    lemma_extension_joins_nodes(original, residual, n);
    lemma_nothing_sent(residual, n, source, sink);
    lemma_max_flow_min_cut(residual, residual, n, source, sink);
}

/// No flow has a value above the total capacity of the pairs that start at
/// `source`.
pub proof fn lemma_source_capacity_bounds_flows(
    weights: Map<(i32, i32), i32>,
    n: int,
    source: int,
    sink: int,
)
    requires
        0 <= source < n,
    ensures
        flows_bounded(weights, n, source, sink, out_capacity(weights, n, source)),
{
    assert forall|f: spec_fn(int, int) -> int| #[trigger]
        is_flow(weights, n, source, sink, f) implies flow_value(f, n, source) <= out_capacity(
        weights,
        n,
        source,
    ) by {
        let zero = |u: int| 0int;
        lemma_sum_zero(zero, n);
        assert forall|u: int| 0 <= u < n implies #[trigger] zero(u) <= col(f, source)(u) by {
            assert(f(u, source) <= capacity(weights, u, source));
        }
        lemma_sum_le(zero, col(f, source), n);
        assert forall|v: int| 0 <= v < n implies #[trigger] row(f, source)(v) <= row(
            capacities(weights),
            source,
        )(v) by {
            assert(f(source, v) <= capacity(weights, source, v));
        }
        lemma_sum_le(row(f, source), row(capacities(weights), source), n);
    }
}

} // verus!
