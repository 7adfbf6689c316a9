use crate::analyzer::{TransactionEdge, TransactionNode};
use petgraph::graph::{Graph, NodeIndex};
use petgraph::Directed;
use vstd::prelude::*;

verus! {

/// `petgraph::graph::Graph`, a graph that numbers its nodes and edges in
/// the order in which they come. What it holds is seen through `tx_nodes`
/// and `tx_edges` only.
#[verifier::external_type_specification]
#[verifier::external_body]
#[verifier::reject_recursive_types(N)]
#[verifier::reject_recursive_types(E)]
#[verifier::reject_recursive_types(Ty)]
#[verifier::reject_recursive_types(Ix)]
pub struct ExGraph<N, E, Ty, Ix>(Graph<N, E, Ty, Ix>);

/// The graph of a transaction across all contracts.
pub type TxGraph = Graph<TransactionNode, TransactionEdge, Directed, u32>;

/// The nodes of the graph in the order of their indices.
pub uninterp spec fn tx_nodes(g: TxGraph) -> Seq<TransactionNode>;

/// The edges of the graph in the order in which they were added, each
/// with the indices of the node it starts at and the node it leads to.
pub uninterp spec fn tx_edges(g: TxGraph) -> Seq<(usize, usize, TransactionEdge)>;

/// The graph without nodes.
pub open spec fn no_tx_nodes() -> Seq<TransactionNode> {
    Seq::empty()
}

/// The graph without edges.
pub open spec fn no_tx_edges() -> Seq<(usize, usize, TransactionEdge)> {
    Seq::empty()
}

/// `Graph::new`: a graph without nodes and edges.
#[verifier::external_body]
pub(crate) fn tx_new() -> (g: TxGraph)
    ensures
        tx_nodes(g) == no_tx_nodes(),
        tx_edges(g) == no_tx_edges(),
{
    Graph::new()
}

/// `Graph::node_count`.
#[verifier::external_body]
pub(crate) fn tx_node_count(g: &TxGraph) -> (count: usize)
    ensures
        count == tx_nodes(*g).len(),
{
    g.node_count()
}

/// `Graph::edge_count`.
#[verifier::external_body]
pub(crate) fn tx_edge_count(g: &TxGraph) -> (count: usize)
    ensures
        count == tx_edges(*g).len(),
{
    g.edge_count()
}

/// `Graph::add_node`: the node comes behind the others, and its index is
/// the number of nodes that were there. The graph panics where that
/// number has reached the largest index.
#[verifier::external_body]
pub(crate) fn tx_add_node(g: &mut TxGraph, node: TransactionNode) -> (index: usize)
    requires
        tx_nodes(*old(g)).len() < u32::MAX,
    ensures
        tx_nodes(*final(g)) == tx_nodes(*old(g)).push(node),
        tx_edges(*final(g)) == tx_edges(*old(g)),
        index == tx_nodes(*old(g)).len(),
{
    g.add_node(node).index()
}

/// `Graph::add_edge`: the edge comes behind the others. The graph panics
/// where a node does not exist or the number of edges has reached the
/// largest index.
#[verifier::external_body]
pub(crate) fn tx_add_edge(g: &mut TxGraph, from: usize, to: usize, label: TransactionEdge)
    requires
        from < tx_nodes(*old(g)).len(),
        to < tx_nodes(*old(g)).len(),
        tx_edges(*old(g)).len() < u32::MAX,
    ensures
        tx_nodes(*final(g)) == tx_nodes(*old(g)),
        tx_edges(*final(g)) == tx_edges(*old(g)).push((from, to, label)),
{
    g.add_edge(NodeIndex::new(from), NodeIndex::new(to), label);
}

/// Indexing a `Graph` by a `NodeIndex`: the node with that index.
#[verifier::external_body]
pub(crate) fn tx_node(g: &TxGraph, index: usize) -> (node: &TransactionNode)
    requires
        index < tx_nodes(*g).len(),
    ensures
        *node == tx_nodes(*g)[index as int],
{
    &g[NodeIndex::new(index)]
}

/// `Graph::raw_edges` with `Edge::source` and `Edge::target`: the edge
/// that was added as number `index`, with the indices of its two nodes.
#[verifier::external_body]
pub(crate) fn tx_edge(g: &TxGraph, index: usize) -> (edge: (usize, usize, &TransactionEdge))
    requires
        index < tx_edges(*g).len(),
    ensures
        (edge.0, edge.1, *edge.2) == tx_edges(*g)[index as int],
{
    let edge = &g.raw_edges()[index];
    (edge.source().index(), edge.target().index(), &edge.weight)
}

} // verus!
