//! The mathematical model: capacities, flows, cuts and residual graphs.
//!
//! Nodes are the integers `0..n`. A weight map gives each ordered pair of
//! nodes a capacity, zero where it stores no edge. Everything here is
//! specification; nothing is executable.

use crate::sums::{col, grid_sum, row, sum_to};
use vstd::prelude::*;

verus! {

/// The capacity of the ordered pair `(u, v)`: the stored weight of the edge
/// from `u` to `v`, and zero where there is no such edge.
pub open spec fn capacity(weights: Map<(i32, i32), i32>, u: int, v: int) -> int {
    if i32::MIN <= u <= i32::MAX && i32::MIN <= v <= i32::MAX && weights.contains_key(
        (u as i32, v as i32),
    ) {
        weights[(u as i32, v as i32)] as int
    } else {
        0
    }
}

/// `capacity` as a function of the pair alone.
pub open spec fn capacities(weights: Map<(i32, i32), i32>) -> spec_fn(int, int) -> int {
    |u: int, v: int| capacity(weights, u, v)
}

/// The total capacity of the pairs that start at `x`.
pub open spec fn out_capacity(weights: Map<(i32, i32), i32>, n: int, x: int) -> int {
    sum_to(row(capacities(weights), x), n)
}

/// The node identifiers are exactly `0, 1, ..., nodes.len() - 1`.
pub open spec fn dense(nodes: Set<i32>) -> bool {
    forall|v: i32| nodes.contains(v) <==> 0 <= v < nodes.len()
}

/// Every edge joins two nodes.
pub open spec fn joins_nodes(weights: Map<(i32, i32), i32>, n: int) -> bool {
    forall|a: i32, b: i32| #[trigger] weights.contains_key((a, b)) ==> 0 <= a < n && 0 <= b < n
}

/// No pair of nodes has a negative capacity.
pub open spec fn nonnegative(weights: Map<(i32, i32), i32>, n: int) -> bool {
    forall|u: int, v: int| 0 <= u < n && 0 <= v < n ==> 0 <= #[trigger] capacity(weights, u, v)
}

/// For each pair of nodes, the capacities of the two opposite directions
/// together are within `i32`.
pub open spec fn pairs_fit(weights: Map<(i32, i32), i32>, n: int) -> bool {
    forall|u: int, v: int|
        0 <= u < n && 0 <= v < n ==> #[trigger] capacity(weights, u, v) + capacity(weights, v, u)
            <= i32::MAX
}

/// What a graph must satisfy to be worked on: dense node identifiers, edges
/// between nodes only, no negative capacity, and opposite capacities that
/// together fit in `i32`.
pub open spec fn is_network(nodes: Set<i32>, weights: Map<(i32, i32), i32>) -> bool {
    &&& dense(nodes)
    &&& joins_nodes(weights, nodes.len() as int)
    &&& nonnegative(weights, nodes.len() as int)
    &&& pairs_fit(weights, nodes.len() as int)
}

/// A flow from `source` to `sink`: on each pair an amount between zero and the
/// pair's capacity, such that what enters a node other than `source` and `sink`
/// leaves it.
pub open spec fn is_flow(
    weights: Map<(i32, i32), i32>,
    n: int,
    source: int,
    sink: int,
    f: spec_fn(int, int) -> int,
) -> bool {
    &&& forall|u: int, v: int|
        0 <= u < n && 0 <= v < n ==> 0 <= f(u, v) && f(u, v) <= #[trigger] capacity(
            weights,
            u,
            v,
        )
    &&& forall|x: int|
        0 <= x < n && x != source && x != sink ==> sum_to(#[trigger] col(f, x), n) == sum_to(
            row(f, x),
            n,
        )
}

/// The value of a flow: what leaves `source` less what enters it.
pub open spec fn flow_value(f: spec_fn(int, int) -> int, n: int, source: int) -> int {
    sum_to(row(f, source), n) - sum_to(col(f, source), n)
}

/// No flow from `source` to `sink` has a value above `bound`.
pub open spec fn flows_bounded(
    weights: Map<(i32, i32), i32>,
    n: int,
    source: int,
    sink: int,
    bound: int,
) -> bool {
    forall|f: spec_fn(int, int) -> int| #[trigger]
        is_flow(weights, n, source, sink, f) ==> flow_value(f, n, source) <= bound
}

/// `h` on the pairs that lead from `side` to its complement, zero elsewhere.
pub open spec fn crossing(h: spec_fn(int, int) -> int, side: Set<int>) -> spec_fn(int, int) -> int {
    |u: int, v: int|
        if side.contains(u) && !side.contains(v) {
            h(u, v)
        } else {
            0
        }
}

/// `side` holds `source` and not `sink`.
pub open spec fn separates(side: Set<int>, source: int, sink: int) -> bool {
    side.contains(source) && !side.contains(sink)
}

/// The capacity of the cut `(side, complement)`: the total capacity of the
/// pairs that lead from a node of `side` to a node outside it.
pub open spec fn cut_capacity(weights: Map<(i32, i32), i32>, n: int, side: Set<int>) -> int {
    grid_sum(crossing(capacities(weights), side), n, n)
}

/// What has been sent from `u` to `v`, net: the capacity that the pair has lost.
pub open spec fn sent(
    original: Map<(i32, i32), i32>,
    residual: Map<(i32, i32), i32>,
    u: int,
    v: int,
) -> int {
    capacity(original, u, v) - capacity(residual, u, v)
}

/// The flow that a residual graph records against the original capacities: on
/// each pair the capacity it has lost, and zero where it has gained.
pub open spec fn used_flow(original: Map<(i32, i32), i32>, residual: Map<(i32, i32), i32>) -> spec_fn(
    int,
    int,
) -> int {
    |u: int, v: int|
        if sent(original, residual, u, v) > 0 {
            sent(original, residual, u, v)
        } else {
            0
        }
}

/// `residual` is what augmenting paths from `source` to `sink` can make of
/// `original`: no capacity is negative, what one direction of a pair has lost
/// the other has gained, and at every node but `source` and `sink` the
/// outgoing capacity is what it was.
pub open spec fn is_residual_of(
    original: Map<(i32, i32), i32>,
    residual: Map<(i32, i32), i32>,
    n: int,
    source: int,
    sink: int,
) -> bool {
    &&& nonnegative(residual, n)
    &&& forall|u: int, v: int|
        0 <= u < n && 0 <= v < n ==> #[trigger] capacity(residual, u, v) + capacity(residual, v, u)
            == capacity(original, u, v) + capacity(original, v, u)
    &&& forall|x: int|
        0 <= x < n && x != source && x != sink ==> #[trigger] out_capacity(residual, n, x)
            == out_capacity(original, n, x)
}

/// `residual` has every edge of `original`, and besides those only edges
/// opposite to edges of `original`.
pub open spec fn extends_edges(
    original: Map<(i32, i32), i32>,
    residual: Map<(i32, i32), i32>,
) -> bool {
    &&& forall|a: i32, b: i32| #[trigger]
        original.contains_key((a, b)) ==> residual.contains_key((a, b))
    &&& forall|a: i32, b: i32| #[trigger]
        residual.contains_key((a, b)) ==> original.contains_key((a, b)) || original.contains_key(
            (b, a),
        )
}

/// The value of the flow that `residual` records: the outgoing capacity that
/// `source` has lost.
pub open spec fn sent_value(
    original: Map<(i32, i32), i32>,
    residual: Map<(i32, i32), i32>,
    n: int,
    source: int,
) -> int {
    out_capacity(original, n, source) - out_capacity(residual, n, source)
}

/// The capacity of the pair that leads to position `i` of `p` from the
/// position before it.
pub open spec fn step_capacity(weights: Map<(i32, i32), i32>, p: Seq<int>, i: int) -> int {
    capacity(weights, p[i - 1], p[i])
}

/// Position `i` of `p` is reached from the position before it over a pair of
/// positive capacity.
pub open spec fn positive_step(weights: Map<(i32, i32), i32>, p: Seq<int>, i: int) -> bool {
    capacity(weights, p[i - 1], p[i]) > 0
}

/// `p` lists nodes, each reached from the one before over a pair of positive
/// capacity, from `from` to `to`.
pub open spec fn is_path(
    weights: Map<(i32, i32), i32>,
    n: int,
    p: Seq<int>,
    from: int,
    to: int,
) -> bool {
    &&& p.len() >= 1
    &&& p[0] == from
    &&& p[p.len() - 1] == to
    &&& forall|i: int| 0 <= i < p.len() ==> 0 <= #[trigger] p[i] < n
    &&& forall|i: int| 0 < i < p.len() ==> #[trigger] positive_step(weights, p, i)
}

/// Some path of positive capacity leads from `from` to `to`.
pub open spec fn reachable(weights: Map<(i32, i32), i32>, n: int, from: int, to: int) -> bool {
    exists|p: Seq<int>| is_path(weights, n, p, from, to)
}

/// The nodes that paths of positive capacity reach from `from`.
pub open spec fn reachable_set(weights: Map<(i32, i32), i32>, n: int, from: int) -> Set<int> {
    Set::new(|v: int| reachable(weights, n, from, v))
}

/// An augmenting path is left: `sink` is another node than `source` and can be
/// reached from it.
pub open spec fn augmentable(weights: Map<(i32, i32), i32>, n: int, source: int, sink: int) -> bool {
    source != sink && reachable(weights, n, source, sink)
}

} // verus!
