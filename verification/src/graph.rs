//! The graph container and what is taken on trust about it.
//!
//! The residual graph lives in a `petgraph` `DiGraphMap<i32, i32>`. Verus does
//! not look inside that type; the two spec functions below name what it holds,
//! and each wrapper states, over those names, what the method it calls does.

use petgraph::graphmap::DiGraphMap;
use vstd::prelude::*;

verus! {

/// `petgraph::graphmap::GraphMap`, of which `DiGraphMap` is the directed
/// kind: taken as it is, without a look inside.
#[verifier::external_type_specification]
#[verifier::external_body]
#[verifier::reject_recursive_types(N)]
#[verifier::reject_recursive_types(E)]
#[verifier::reject_recursive_types(Ty)]
#[verifier::reject_recursive_types(S)]
pub struct ExGraphMap<N, E, Ty, S: core::hash::BuildHasher>(
    petgraph::graphmap::GraphMap<N, E, Ty, S>,
);

/// `petgraph::Directed`, the marker of graphs whose edges have a direction.
#[verifier::external_type_specification]
#[verifier::external_body]
pub struct ExDirected(petgraph::Directed);

/// The node identifiers that a graph holds.
pub uninterp spec fn graph_nodes(graph: DiGraphMap<i32, i32>) -> Set<i32>;

/// The edges that a graph holds, each ordered pair of endpoints with its weight.
pub uninterp spec fn graph_edges(graph: DiGraphMap<i32, i32>) -> Map<(i32, i32), i32>;

/// The edges of a graph that has none.
pub open spec fn empty_edges() -> Map<(i32, i32), i32> {
    Map::empty()
}

/// `GraphMap::new`: a graph without nodes and without edges.
#[verifier::external_body]
pub(crate) fn new_graph() -> (graph: DiGraphMap<i32, i32>)
    ensures
        graph_nodes(graph) == Set::<i32>::empty(),
        graph_edges(graph) == empty_edges(),
{
    DiGraphMap::new()
}

/// `GraphMap::add_node`: makes `n` a node of the graph, if it is none yet, and
/// hands `n` back. The edges stay as they are.
#[verifier::external_body]
pub(crate) fn add_node(graph: &mut DiGraphMap<i32, i32>, n: i32) -> (id: i32)
    ensures
        id == n,
        graph_nodes(*final(graph)) == graph_nodes(*old(graph)).insert(n),
        graph_edges(*final(graph)) == graph_edges(*old(graph)),
{
    graph.add_node(n)
}

/// `GraphMap::contains_edge`: whether the graph has an edge from `a` to `b`.
#[verifier::external_body]
pub(crate) fn contains_edge(graph: &DiGraphMap<i32, i32>, a: i32, b: i32) -> (present: bool)
    ensures
        present == graph_edges(*graph).contains_key((a, b)),
{
    graph.contains_edge(a, b)
}

/// `GraphMap::node_count`: the number of node identifiers in the graph.
#[verifier::external_body]
pub(crate) fn node_count(graph: &DiGraphMap<i32, i32>) -> (count: usize)
    ensures
        count == graph_nodes(*graph).len(),
{
    graph.node_count()
}

/// `GraphMap::nodes`, collected: the node identifiers of the graph, each once.
#[verifier::external_body]
pub(crate) fn node_ids(graph: &DiGraphMap<i32, i32>) -> (ids: Vec<i32>)
    ensures
        ids@.no_duplicates(),
        ids@.to_set() == graph_nodes(*graph),
{
    graph.nodes().collect()
}

/// `GraphMap::neighbors`, collected: the targets of the edges that start at `a`.
#[verifier::external_body]
pub(crate) fn neighbors(graph: &DiGraphMap<i32, i32>, a: i32) -> (targets: Vec<i32>)
    ensures
        forall|b: i32| graph_edges(*graph).contains_key((a, b)) <==> targets@.contains(b),
{
    graph.neighbors(a).collect()
}

/// `GraphMap::all_edges`, collected: every edge of the graph, as its two
/// endpoints and its weight.
#[verifier::external_body]
pub(crate) fn all_edges(graph: &DiGraphMap<i32, i32>) -> (edges: Vec<(i32, i32, i32)>)
    ensures
        forall|i: int|
            0 <= i < edges@.len() ==> graph_edges(*graph).contains_key(
                ((#[trigger] edges@[i]).0, edges@[i].1),
            ) && graph_edges(*graph)[(edges@[i].0, edges@[i].1)] == edges@[i].2,
        forall|a: i32, b: i32| #[trigger]
            graph_edges(*graph).contains_key((a, b)) ==> exists|i: int|
                0 <= i < edges@.len() && (#[trigger] edges@[i]).0 == a && edges@[i].1 == b,
{
    graph.all_edges().map(|(a, b, weight)| (a, b, *weight)).collect()
}

/// `GraphMap::edge_weight`: the weight stored for the edge from `a` to `b`,
/// `None` where the graph has no such edge.
#[verifier::external_body]
pub(crate) fn edge_weight(graph: &DiGraphMap<i32, i32>, a: i32, b: i32) -> (weight: Option<i32>)
    ensures
        weight == (if graph_edges(*graph).contains_key((a, b)) {
            Some(graph_edges(*graph)[(a, b)])
        } else {
            None
        }),
{
    graph.edge_weight(a, b).copied()
}

/// `GraphMap::edge_weight_mut`: a handle on the stored weight of the edge from
/// `a` to `b`, `None` where the graph has no such edge. What is written through
/// the handle becomes the edge's weight; nothing else in the graph changes.
#[verifier::external_body]
pub(crate) fn edge_weight_mut(graph: &mut DiGraphMap<i32, i32>, a: i32, b: i32) -> (slot: Option<
    &mut i32,
>)
    ensures
        graph_nodes(*final(graph)) == graph_nodes(*old(graph)),
        match slot {
            Some(weight) => {
                &&& graph_edges(*old(graph)).contains_key((a, b))
                &&& *weight == graph_edges(*old(graph))[(a, b)]
                &&& graph_edges(*final(graph)) == graph_edges(*old(graph)).insert(
                    (a, b),
                    *final(weight),
                )
            },
            None => {
                &&& !graph_edges(*old(graph)).contains_key((a, b))
                &&& graph_edges(*final(graph)) == graph_edges(*old(graph))
            },
        },
{
    graph.edge_weight_mut(a, b)
}

/// `GraphMap::add_edge`: stores `weight` for the edge from `a` to `b`,
/// replacing an earlier weight, which it returns; both endpoints become nodes
/// of the graph if they were not.
#[verifier::external_body]
pub(crate) fn add_edge(graph: &mut DiGraphMap<i32, i32>, a: i32, b: i32, weight: i32) -> (previous:
    Option<i32>)
    ensures
        previous == (if graph_edges(*old(graph)).contains_key((a, b)) {
            Some(graph_edges(*old(graph))[(a, b)])
        } else {
            None
        }),
        graph_edges(*final(graph)) == graph_edges(*old(graph)).insert((a, b), weight),
        graph_nodes(*final(graph)) == graph_nodes(*old(graph)).insert(a).insert(b),
{
    graph.add_edge(a, b, weight)
}

} // verus!
