//! The node-and-edge store behind the model: petgraph's directed
//! graph, held behind trusted declarations.  Two names stand for its
//! contents — the node weights in index order and the edges in
//! insertion order — and each method the model calls has a wrapper
//! whose contract states, over those names, what petgraph's source
//! shows.

use vstd::prelude::*;

verus! {

#[verifier::external_type_specification]
#[verifier::external_body]
pub struct ExDirected(petgraph::Directed);

#[verifier::external_type_specification]
#[verifier::external_body]
#[verifier::reject_recursive_types(N)]
#[verifier::reject_recursive_types(E)]
#[verifier::reject_recursive_types(Ty)]
#[verifier::reject_recursive_types(Ix)]
pub struct ExGraph<N, E, Ty, Ix>(petgraph::graph::Graph<N, E, Ty, Ix>);

/// The node weights of the graph, in node index order.
pub uninterp spec fn graph_nodes(
    g: petgraph::graph::Graph<u64, u64, petgraph::Directed, u32>,
) -> Seq<u64>;

/// The edges of the graph as (source index, target index) pairs, in
/// insertion order.
pub uninterp spec fn graph_edges(
    g: petgraph::graph::Graph<u64, u64, petgraph::Directed, u32>,
) -> Seq<(usize, usize)>;

/// Relies on petgraph's Graph::new: a graph with no nodes and no edges.
#[verifier::external_body]
pub fn graph_new() -> (g: petgraph::graph::Graph<u64, u64, petgraph::Directed, u32>)
    ensures
        graph_nodes(g) == Seq::<u64>::empty(),
        graph_edges(g) == Seq::<(usize, usize)>::empty(),
{
    petgraph::graph::Graph::new()
}

/// Relies on petgraph's Graph::add_node: appends one node holding the
/// weight and returns its index, the former node count.  It panics
/// only when the node count has reached the u32 index cap, which the
/// caller rules out.
#[verifier::external_body]
pub fn graph_add_node(
    g: &mut petgraph::graph::Graph<u64, u64, petgraph::Directed, u32>,
    w: u64,
) -> (ix: usize)
    requires
        graph_nodes(*old(g)).len() < 0xFFFF_FFFFusize,
    ensures
        graph_nodes(*final(g)) == graph_nodes(*old(g)).push(w),
        graph_edges(*final(g)) == graph_edges(*old(g)),
        ix == graph_nodes(*old(g)).len(),
{
    g.add_node(w).index()
}

/// Relies on petgraph's Graph::add_edge: appends one directed edge
/// from `a` to `b`.  It panics only on a node index out of bounds or
/// when the edge count has reached the u32 index cap, which the caller
/// rules out.
#[verifier::external_body]
pub fn graph_add_edge(
    g: &mut petgraph::graph::Graph<u64, u64, petgraph::Directed, u32>,
    a: usize,
    b: usize,
)
    requires
        a < graph_nodes(*old(g)).len(),
        b < graph_nodes(*old(g)).len(),
        graph_edges(*old(g)).len() < 0xFFFF_FFFFusize,
    ensures
        graph_nodes(*final(g)) == graph_nodes(*old(g)),
        graph_edges(*final(g)) == graph_edges(*old(g)).push((a, b)),
{
    g.add_edge(
        petgraph::graph::NodeIndex::new(a),
        petgraph::graph::NodeIndex::new(b),
        0,
    );
}

/// Relies on petgraph's Graph::node_count: the number of nodes.
#[verifier::external_body]
pub fn graph_node_count(g: &petgraph::graph::Graph<u64, u64, petgraph::Directed, u32>) -> (n: usize)
    ensures
        n == graph_nodes(*g).len(),
{
    g.node_count()
}

/// Relies on petgraph's Graph::edge_count: the number of edges.
#[verifier::external_body]
pub fn graph_edge_count(g: &petgraph::graph::Graph<u64, u64, petgraph::Directed, u32>) -> (n: usize)
    ensures
        n == graph_edges(*g).len(),
{
    g.edge_count()
}

/// Relies on petgraph's Graph::raw_edges, which hands the edges out in
/// insertion order, and on Edge::source and Edge::target, the stored
/// endpoint indices.
#[verifier::external_body]
pub fn graph_edge_list(
    g: &petgraph::graph::Graph<u64, u64, petgraph::Directed, u32>,
) -> (v: Vec<(usize, usize)>)
    ensures
        v@ == graph_edges(*g),
{
    g.raw_edges().iter().map(|e| (e.source().index(), e.target().index())).collect()
}

} // verus!
