use crate::cfg_gen::cfg_graph::Edges;
use petgraph::graphmap::GraphMap;
use petgraph::Directed;
use petgraph::Direction;
use std::collections::hash_map::RandomState;
use std::hash::BuildHasher;
use vstd::prelude::*;

verus! {

/// `petgraph::graphmap::GraphMap`, a graph whose nodes are its keys. What
/// it holds is seen through `dag_nodes` and `dag_edges` only.
#[verifier::external_type_specification]
#[verifier::external_body]
#[verifier::reject_recursive_types(N)]
#[verifier::reject_recursive_types(E)]
#[verifier::reject_recursive_types(Ty)]
#[verifier::reject_recursive_types(S)]
pub struct ExGraphMap<N, E, Ty, S: BuildHasher>(GraphMap<N, E, Ty, S>);

/// `petgraph::Directed`, the marker of graphs with directed edges.
#[verifier::external_type_specification]
#[verifier::external_body]
pub struct ExDirected(Directed);

/// A node of a contract's graph: the first and the last program counter
/// of a basic block.
pub type Node = (u16, u16);

/// The directed graph of one contract's basic blocks.
pub type CfgDag = GraphMap<(u16, u16), Edges, Directed, RandomState>;

/// The nodes that the graph holds.
pub uninterp spec fn dag_nodes(g: CfgDag) -> Set<(u16, u16)>;

/// The edges that the graph holds, each pair of nodes with its label.
pub uninterp spec fn dag_edges(g: CfgDag) -> Map<((u16, u16), (u16, u16)), Edges>;

/// The pairs of nodes of which `n` is one.
pub open spec fn touching(n: Node) -> Set<(Node, Node)> {
    Set::new(|k: (Node, Node)| k.0 == n || k.1 == n)
}

/// The empty set of edges.
pub open spec fn no_edges() -> Map<(Node, Node), Edges> {
    Map::empty()
}

/// `GraphMap::new`: a graph without nodes and edges.
#[verifier::external_body]
pub(crate) fn dag_new() -> (g: CfgDag)
    ensures
        dag_nodes(g) == Set::<Node>::empty(),
        dag_edges(g) == no_edges(),
{
    GraphMap::new()
}

/// `GraphMap::add_node`: the node is in the graph afterwards; the edges
/// stay as they are.
#[verifier::external_body]
pub(crate) fn dag_add_node(g: &mut CfgDag, n: Node)
    ensures
        dag_nodes(*final(g)) == dag_nodes(*old(g)).insert(n),
        dag_edges(*final(g)) == dag_edges(*old(g)),
{
    g.add_node(n);
}

/// `GraphMap::add_edge`: both end nodes are in the graph afterwards, and
/// the pair carries the new label, in place of an earlier one, which is
/// handed back.
#[verifier::external_body]
pub(crate) fn dag_add_edge(g: &mut CfgDag, a: Node, b: Node, label: Edges) -> (previous: Option<
    Edges,
>)
    ensures
        dag_nodes(*final(g)) == dag_nodes(*old(g)).insert(a).insert(b),
        dag_edges(*final(g)) == dag_edges(*old(g)).insert((a, b), label),
        previous == (if dag_edges(*old(g)).dom().contains((a, b)) {
            Some(dag_edges(*old(g))[(a, b)])
        } else {
            None
        }),
{
    g.add_edge(a, b, label)
}

/// `GraphMap::remove_node`: the node leaves the graph, and with it every
/// edge that starts or ends there. Says whether the node was there.
#[verifier::external_body]
pub(crate) fn dag_remove_node(g: &mut CfgDag, n: Node) -> (removed: bool)
    ensures
        dag_nodes(*final(g)) == dag_nodes(*old(g)).remove(n),
        dag_edges(*final(g)) == dag_edges(*old(g)).remove_keys(touching(n)),
        removed == dag_nodes(*old(g)).contains(n),
{
    g.remove_node(n)
}

/// `GraphMap::edge_weight`: the label of the edge from `a` to `b`, if the
/// graph holds that edge.
#[verifier::external_body]
pub(crate) fn dag_edge_label(g: &CfgDag, a: Node, b: Node) -> (label: Option<Edges>)
    ensures
        label == (if dag_edges(*g).dom().contains((a, b)) {
            Some(dag_edges(*g)[(a, b)])
        } else {
            None
        }),
{
    g.edge_weight(a, b).copied()
}

/// `GraphMap::nodes`: every node of the graph, once.
#[verifier::external_body]
pub(crate) fn dag_node_list(g: &CfgDag) -> (nodes: Vec<Node>)
    ensures
        nodes@.no_duplicates(),
        nodes@.to_set() == dag_nodes(*g),
{
    g.nodes().collect()
}

/// Whether `edges` lists every pair of `map` once, with its label.
pub open spec fn lists_edges(
    edges: Seq<(Node, Node, Edges)>,
    map: Map<(Node, Node), Edges>,
) -> bool {
    &&& forall|i: int|
        0 <= i < edges.len() ==> map.contains_pair(
            ((#[trigger] edges[i]).0, edges[i].1),
            edges[i].2,
        )
    &&& forall|i: int, j: int|
        0 <= i < j < edges.len() ==> ((#[trigger] edges[i]).0, edges[i].1) != ((
            #[trigger] edges[j]).0, edges[j].1)
    &&& forall|k: (Node, Node)|
        map.dom().contains(k) ==> exists|i: int|
            0 <= i < edges.len() && (#[trigger] edges[i]).0 == k.0 && edges[i].1 == k.1
}

/// `GraphMap::all_edges`: every edge of the graph, once, with its label.
#[verifier::external_body]
pub(crate) fn dag_edge_list(g: &CfgDag) -> (edges: Vec<(Node, Node, Edges)>)
    ensures
        lists_edges(edges@, dag_edges(*g)),
{
    g.all_edges().map(|(a, b, label)| (a, b, *label)).collect()
}

/// `GraphMap::edges_directed` with `Incoming`: the nodes from which an
/// edge leads to `n`, each once; `n` itself where it has an edge to itself.
#[verifier::external_body]
pub(crate) fn dag_sources(g: &CfgDag, n: Node) -> (sources: Vec<Node>)
    ensures
        sources@.no_duplicates(),
        sources@.to_set() == Set::new(|a: Node| dag_edges(*g).dom().contains((a, n))),
{
    g.edges_directed(n, Direction::Incoming).map(|(from, _, _)| from).collect()
}

/// `GraphMap::neighbors`: the nodes to which an edge leads from `n`, each
/// once; `n` itself where it has an edge to itself.
#[verifier::external_body]
pub(crate) fn dag_targets(g: &CfgDag, n: Node) -> (targets: Vec<Node>)
    ensures
        targets@.no_duplicates(),
        targets@.to_set() == Set::new(|b: Node| dag_edges(*g).dom().contains((n, b))),
{
    g.neighbors(n).collect()
}

/// `GraphMap::node_count`: the number of nodes.
#[verifier::external_body]
pub(crate) fn dag_node_count(g: &CfgDag) -> (count: usize)
    ensures
        count == dag_nodes(*g).len(),
{
    g.node_count()
}

/// `GraphMap::edge_count`: the number of edges.
#[verifier::external_body]
pub(crate) fn dag_edge_count(g: &CfgDag) -> (count: usize)
    ensures
        count == dag_edges(*g).dom().len(),
{
    g.edge_count()
}

/// A listing of the edges of a graph holds as many edges as the graph.
pub proof fn lemma_listing_len(edges: Seq<(Node, Node, Edges)>, map: Map<(Node, Node), Edges>)
    requires
        lists_edges(edges, map),
    ensures
        edges.len() == map.dom().len(),
{
    let keys = edges.map_values(|e: (Node, Node, Edges)| (e.0, e.1));
    assert(keys.no_duplicates());
    assert(keys.to_set() =~= map.dom()) by {
        assert forall|k: (Node, Node)| keys.to_set().contains(k) <==> map.dom().contains(k) by {
            if map.dom().contains(k) {
                let i = choose|i: int|
                    0 <= i < edges.len() && (#[trigger] edges[i]).0 == k.0 && edges[i].1 == k.1;
                assert(keys[i] == k);
            }
            if keys.contains(k) {
                let i = choose|i: int| 0 <= i < keys.len() && keys[i] == k;
                assert(map.contains_pair((edges[i].0, edges[i].1), edges[i].2));
            }
        }
    }
    keys.unique_seq_to_set();
}

} // verus!
