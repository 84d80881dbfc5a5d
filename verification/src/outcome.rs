//! What a run ensures.

use crate::duality::{lemma_flow_below_cut, lemma_max_flow_min_cut, lemma_used_flow};
use crate::network::{
    augmentable, cut_capacity, extends_edges, flow_value, flows_bounded, is_flow, is_residual_of,
    nonnegative, reachable_set, sent_value, separates, used_flow,
};
use crate::phases::{is_run, lemma_phase_bound, phase_bound};
use vstd::prelude::*;

verus! {

/// `run` leads from `first` to `last` by phases, of which it has no more than
/// the phase bound of `first` allows.
pub open spec fn is_bounded_run(
    run: Seq<Map<(i32, i32), i32>>,
    first: Map<(i32, i32), i32>,
    last: Map<(i32, i32), i32>,
    n: int,
    source: int,
    sink: int,
) -> bool {
    &&& is_run(run, n, source, sink)
    &&& run[0] == first
    &&& run[run.len() - 1] == last
    &&& run.len() - 1 <= phase_bound(first, n)
}

/// What a run on `original` with the nodes `nodes` may leave: the graph
/// `residual` on the nodes `nodes_after`, and the value `value`.
pub open spec fn is_outcome(
    nodes: Set<i32>,
    original: Map<(i32, i32), i32>,
    nodes_after: Set<i32>,
    residual: Map<(i32, i32), i32>,
    source: int,
    sink: int,
    value: int,
) -> bool {
    let n = nodes.len() as int;
    // the nodes are what they were
    &&& nodes_after == nodes
    // every edge is still there, and an edge that is new is opposite to one
    // that was there
    &&& extends_edges(original, residual)
    // no capacity is negative, what one direction of a pair has lost the other
    // has gained, and no node but `source` and `sink` has lost outgoing capacity
    &&& is_residual_of(original, residual, n, source, sink)
    // the capacities that the edges have lost are a flow: within the original
    // capacities, and entering each node but `source` and `sink` as they leave it
    &&& is_flow(original, n, source, sink, used_flow(original, residual))
    // `value` is the value of that flow
    &&& flow_value(used_flow(original, residual), n, source) == value
    // no flow has a greater value
    &&& flows_bounded(original, n, source, sink, value)
    // the nodes still within reach of `source` form a cut of the capacity `value`
    &&& source != sink ==> separates(reachable_set(residual, n, source), source, sink)
        && cut_capacity(original, n, reachable_set(residual, n, source)) == value
    // no cut between `source` and `sink` has a smaller capacity
    &&& forall|side: Set<int>| #[trigger]
        separates(side, source, sink) ==> value <= cut_capacity(original, n, side)
    // no augmenting path is left
    &&& !augmentable(residual, n, source, sink)
    // a graph without an augmenting path is left as it is
    &&& !augmentable(original, n, source, sink) ==> value == 0 && residual == original
    // the graph was reached by augmentations along shortest paths, each by the
    // bottleneck of its path, and by no more of them than the phase bound allows
    &&& exists|run: Seq<Map<(i32, i32), i32>>| #[trigger]
        is_bounded_run(run, original, residual, n, source, sink)
}

/// What a run of phases that ends without an augmenting path has reached is
/// an outcome.
pub proof fn lemma_outcome(
    nodes: Set<i32>,
    original: Map<(i32, i32), i32>,
    residual: Map<(i32, i32), i32>,
    source: int,
    sink: int,
    run: Seq<Map<(i32, i32), i32>>,
)
    requires
        0 <= source < nodes.len(),
        0 <= sink < nodes.len(),
        nonnegative(original, nodes.len() as int),
        extends_edges(original, residual),
        is_residual_of(original, residual, nodes.len() as int, source, sink),
        !augmentable(residual, nodes.len() as int, source, sink),
        !augmentable(original, nodes.len() as int, source, sink) ==> residual == original,
        is_run(run, nodes.len() as int, source, sink),
        run[0] == original,
        run[run.len() - 1] == residual,
    ensures
        is_outcome(
            nodes,
            original,
            nodes,
            residual,
            source,
            sink,
            sent_value(original, residual, nodes.len() as int, source),
        ),
{
    let n = nodes.len() as int;
    let value = sent_value(original, residual, n, source);
    lemma_used_flow(original, residual, n, source, sink);
    lemma_max_flow_min_cut(original, residual, n, source, sink);
    assert forall|side: Set<int>| #[trigger] separates(side, source, sink) implies value
        <= cut_capacity(original, n, side) by {
        lemma_flow_below_cut(original, n, source, sink, used_flow(original, residual), side);
    }
    lemma_phase_bound(run, n, source, sink);
    assert(is_bounded_run(run, original, residual, n, source, sink));
}

} // verus!
