//! Trusted interface to petgraph's directed graph.
//!
//! The graph that the builder fills and the centrality engine reads is
//! petgraph's `DiGraph<String, i64>`. Verus sees it as an opaque type;
//! two uninterpreted names, `graph_nodes` and `graph_edges`, stand for
//! its contents (node labels in index order, edges in insertion order),
//! and each method the library calls has a wrapper whose contract says
//! what petgraph's source shows: nodes and edges live in vectors, are
//! numbered consecutively from zero in insertion order, and `add_edge`
//! appends (parallel edges are kept, not merged).

use vstd::prelude::*;

verus! {

#[verifier::external_type_specification]
#[verifier::external_body]
#[verifier::reject_recursive_types(N)]
#[verifier::reject_recursive_types(E)]
#[verifier::reject_recursive_types(Ty)]
#[verifier::reject_recursive_types(Ix)]
pub struct ExGraph<N, E, Ty, Ix>(petgraph::graph::Graph<N, E, Ty, Ix>);

#[verifier::external_type_specification]
#[verifier::external_body]
pub struct ExDirected(petgraph::Directed);

/// The labels of the graph's nodes, in node-index order.
pub uninterp spec fn graph_nodes(g: petgraph::graph::DiGraph<String, i64>) -> Seq<Seq<char>>;

/// The graph's edges `(from, to, weight)`, in edge-index order.
pub uninterp spec fn graph_edges(g: petgraph::graph::DiGraph<String, i64>) -> Seq<
    (usize, usize, i64),
>;

/// Relies on petgraph's `Graph::new`: an empty graph.
#[verifier::external_body]
pub fn graph_new() -> (g: petgraph::graph::DiGraph<String, i64>)
    ensures
        graph_nodes(g) == Seq::<Seq<char>>::empty(),
        graph_edges(g) == Seq::<(usize, usize, i64)>::empty(),
{
    petgraph::graph::DiGraph::new()
}

/// Relies on petgraph's `Graph::add_node`: appends a node whose index is
/// the previous node count. It panics at the `u32` index cap, which the
/// precondition rules out.
#[verifier::external_body]
pub fn graph_add_node(g: &mut petgraph::graph::DiGraph<String, i64>, label: String) -> (r: usize)
    requires
        graph_nodes(*old(g)).len() < 0xffff_ffff,
    ensures
        graph_nodes(*final(g)) == graph_nodes(*old(g)).push(label@),
        graph_edges(*final(g)) == graph_edges(*old(g)),
        r == graph_nodes(*old(g)).len(),
{
    g.add_node(label).index()
}

/// Relies on petgraph's `Graph::add_edge`: appends the edge `a -> b`,
/// keeping parallel edges. It panics if an endpoint does not exist or at
/// the `u32` index cap, which the preconditions rule out.
#[verifier::external_body]
pub fn graph_add_edge(g: &mut petgraph::graph::DiGraph<String, i64>, a: usize, b: usize, w: i64)
    requires
        a < graph_nodes(*old(g)).len(),
        b < graph_nodes(*old(g)).len(),
        graph_edges(*old(g)).len() < 0xffff_ffff,
    ensures
        graph_nodes(*final(g)) == graph_nodes(*old(g)),
        graph_edges(*final(g)) == graph_edges(*old(g)).push((a, b, w)),
{
    g.add_edge(petgraph::graph::NodeIndex::new(a), petgraph::graph::NodeIndex::new(b), w);
}

/// Relies on petgraph's `Graph::node_count`: the number of nodes.
#[verifier::external_body]
pub fn graph_node_count(g: &petgraph::graph::DiGraph<String, i64>) -> (r: usize)
    ensures
        r == graph_nodes(*g).len(),
{
    g.node_count()
}

/// Relies on petgraph's `Graph::node_indices` and `Graph::node_weight`:
/// node indices run from 0 to the node count, each holding its label.
#[verifier::external_body]
pub fn graph_labels(g: &petgraph::graph::DiGraph<String, i64>) -> (r: Vec<String>)
    ensures
        r.deep_view() == graph_nodes(*g),
{
    g.node_indices().map(|i| g.node_weight(i).unwrap().clone()).collect()
}

/// Relies on petgraph's `Graph::edge_indices`, `Graph::edge_endpoints`
/// and `Graph::edge_weight`: edge indices run in insertion order, and
/// every stored edge references existing nodes.
#[verifier::external_body]
pub fn graph_edge_list(g: &petgraph::graph::DiGraph<String, i64>) -> (r: Vec<(usize, usize, i64)>)
    ensures
        r@ == graph_edges(*g),
        forall|k: int|
            0 <= k < r@.len() ==> r@[k].0 < graph_nodes(*g).len() && r@[k].1 < graph_nodes(
                *g,
            ).len(),
{
    g.edge_indices().map(
        |e| {
            let (s, t) = g.edge_endpoints(e).unwrap();
            (s.index(), t.index(), *g.edge_weight(e).unwrap())
        },
    ).collect()
}

} // verus!
