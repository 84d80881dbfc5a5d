//! Maximum flow between two nodes of a directed, capacitated graph, computed
//! by shortest augmenting paths over a residual graph that is updated in place.
//!
//! The graph is a `petgraph` `DiGraphMap<i32, i32>` whose nodes are
//! `0, 1, ..., n - 1` and whose edge weights are residual capacities.
//! [`algorithm::ford_fulkerson::ford_fulkerson`] turns it into the residual
//! graph of a maximum flow and returns that flow's value;
//! [`admission::try_ford_fulkerson`] does so after testing that the graph can
//! be worked on. [`generate::generate_graph`] makes random graphs to try it on.
//!
//! What the functions ensure is stated over a model of capacities, flows and
//! cuts ([`network`]), of single augmentations ([`phases`]) and of whole runs
//! ([`outcome`]). The proofs are in [`sums`], [`duality`], [`distance`],
//! [`search`], [`augment`] and [`phases`]; [`laws`] states what follows for
//! every run. What is taken on trust about `petgraph` and `rand` is in
//! [`graph`] and [`random`].

pub mod admission;
pub mod algorithm;
pub mod augment;
pub mod distance;
pub mod duality;
pub mod generate;
pub mod graph;
pub mod laws;
pub mod network;
pub mod outcome;
pub mod phases;
pub mod random;
pub mod search;
pub mod sums;
