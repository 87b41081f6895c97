//! The directed multigraph that holds the call graph: petgraph's `StableDiGraph`, declared to
//! Verus together with the contracts of the few operations that the library performs on it.

use petgraph::graph::NodeIndex;
use petgraph::stable_graph::{StableDiGraph, StableGraph};
use petgraph::visit::EdgeRef;
use petgraph::Direction;
use vstd::prelude::*;

verus! {

/// What a node of the call graph stands for.
#[derive(Debug)]
pub enum NodeData {
    /// A source file.
    File { path: String },
    /// A symbol and the file that defines it.
    Symbol { name: String, file_path: String },
    /// A callee name, as written at the call sites.
    UnresolvedCall { name: String },
    /// An imported module.
    Module { name: String },
}

/// How the source of an edge relates to its target.
#[derive(Debug, Clone, Copy, PartialEq, Eq, Structural)]
pub enum EdgeKind {
    Defines,
    Calls,
    Imports,
    CallsResolved,
}

/// petgraph's marker for graphs with directed edges.
#[verifier::external_type_specification]
#[verifier::external_body]
pub struct ExDirected(petgraph::Directed);

/// petgraph's `StableGraph`; `StableDiGraph` is an alias of it.
#[verifier::external_type_specification]
#[verifier::external_body]
#[verifier::reject_recursive_types(N)]
#[verifier::reject_recursive_types(E)]
#[verifier::reject_recursive_types(Ty)]
#[verifier::reject_recursive_types(Ix)]
pub struct ExStableGraph<N, E, Ty, Ix>(StableGraph<N, E, Ty, Ix>);

/// The nodes of a graph: each index in use, with the weight of its node.
pub uninterp spec fn graph_nodes(graph: StableDiGraph<NodeData, EdgeKind>) -> Map<usize, NodeData>;

/// For each node of a graph, the edges that point at it, as the index of the source and the
/// weight of the edge, the most recently added edge first.
pub uninterp spec fn graph_incoming(graph: StableDiGraph<NodeData, EdgeKind>) -> Map<
    usize,
    Seq<(usize, EdgeKind)>,
>;

/// The number of edges of a graph.
pub uninterp spec fn graph_edge_count(graph: StableDiGraph<NodeData, EdgeKind>) -> nat;

/// `StableDiGraph::new`: a graph without nodes and without edges.
#[verifier::external_body]
pub(crate) fn new_graph() -> (graph: StableDiGraph<NodeData, EdgeKind>)
    ensures
        (graph_nodes(graph) == Map::<usize, NodeData>::empty()),
        (graph_incoming(graph) == Map::<usize, Seq<(usize, EdgeKind)>>::empty()),
        graph_edge_count(graph) == 0,
{
    StableDiGraph::new()
}

/// `StableGraph::add_node`: adds a node without edges, under an index that was not in use, and
/// returns that index. The call panics on a graph that already has `u32::MAX` nodes.
#[verifier::external_body]
pub(crate) fn add_node(graph: &mut StableDiGraph<NodeData, EdgeKind>, data: NodeData) -> (index:
    usize)
    requires
        graph_nodes(*old(graph)).len() < u32::MAX,
    ensures
        !graph_nodes(*old(graph)).contains_key(index),
        graph_nodes(*final(graph)) == graph_nodes(*old(graph)).insert(index, data),
        graph_incoming(*final(graph)) == graph_incoming(*old(graph)).insert(
            index,
            Seq::<(usize, EdgeKind)>::empty(),
        ),
        graph_edge_count(*final(graph)) == graph_edge_count(*old(graph)),
{
    graph.add_node(data).index()
}

/// `StableGraph::add_edge`: adds an edge, also where the two nodes are already linked. The new
/// edge becomes the first of those that point at `to`; nothing else changes. The call panics
/// where one of the nodes is missing, and on a graph that already has `u32::MAX` edges.
#[verifier::external_body]
pub(crate) fn add_edge(
    graph: &mut StableDiGraph<NodeData, EdgeKind>,
    from: usize,
    to: usize,
    kind: EdgeKind,
)
    requires
        graph_nodes(*old(graph)).contains_key(from),
        graph_nodes(*old(graph)).contains_key(to),
        graph_edge_count(*old(graph)) < u32::MAX,
    ensures
        graph_nodes(*final(graph)) == graph_nodes(*old(graph)),
        graph_incoming(*final(graph)) == graph_incoming(*old(graph)).insert(
            to,
            seq![(from, kind)] + graph_incoming(*old(graph))[to],
        ),
        graph_edge_count(*final(graph)) == graph_edge_count(*old(graph)) + 1,
{
    graph.add_edge(NodeIndex::new(from), NodeIndex::new(to), kind);
}

/// `StableGraph::edges_directed` with `Direction::Incoming`: the edges that point at a node,
/// the most recently added one first, each as the index of its source and its weight.
#[verifier::external_body]
pub(crate) fn incoming_edges(graph: &StableDiGraph<NodeData, EdgeKind>, node: usize) -> (edges: Vec<
    (usize, EdgeKind),
>)
    requires
        graph_nodes(*graph).contains_key(node),
    ensures
        edges@ == graph_incoming(*graph)[node],
{
    graph.edges_directed(NodeIndex::new(node), Direction::Incoming).map(
        |edge| (edge.source().index(), *edge.weight()),
    ).collect()
}

/// Indexing a `StableGraph` by a node: the weight of that node. Panics where the node is missing.
#[verifier::external_body]
pub(crate) fn node_data(graph: &StableDiGraph<NodeData, EdgeKind>, node: usize) -> (data: &NodeData)
    requires
        graph_nodes(*graph).contains_key(node),
    ensures
        *data == graph_nodes(*graph)[node],
{
    &graph[NodeIndex::new(node)]
}

/// `StableGraph::node_count`: the number of nodes.
#[verifier::external_body]
pub(crate) fn node_count(graph: &StableDiGraph<NodeData, EdgeKind>) -> (count: usize)
    ensures
        count == graph_nodes(*graph).len(),
{
    graph.node_count()
}

/// `StableGraph::edge_count`: the number of edges.
#[verifier::external_body]
pub(crate) fn edge_count(graph: &StableDiGraph<NodeData, EdgeKind>) -> (count: usize)
    ensures
        count == graph_edge_count(*graph),
{
    graph.edge_count()
}

} // verus!
