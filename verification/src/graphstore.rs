//! The storage behind the navigation graph, provided by the `petgraph`
//! crate.
//!
//! Nothing in this file is proved: it states what the crate's `Graph` does,
//! over the sequence of nodes and the sequence of edges that a graph holds.
//! A node is the triple of a map id and the bit patterns of two floats; an
//! edge is the triple of its source, its target and its label.

use petgraph::graph::{EdgeIndex, Graph, NodeIndex};
use petgraph::Directed;
use vstd::prelude::*;

verus! {

#[verifier::external_type_specification]
#[verifier::external_body]
#[verifier::reject_recursive_types(N)]
#[verifier::reject_recursive_types(E)]
#[verifier::reject_recursive_types(Ty)]
#[verifier::reject_recursive_types(Ix)]
pub struct ExGraph<N, E, Ty, Ix>(Graph<N, E, Ty, Ix>);

#[verifier::external_type_specification]
#[verifier::external_body]
pub struct ExDirected(Directed);

/// The nodes of a graph, in the order in which they were added.
pub uninterp spec fn graph_nodes(graph: Graph<(u16, u32, u32), u8>) -> Seq<(u16, u32, u32)>;

/// The edges of a graph, in the order in which they were added.
pub uninterp spec fn graph_edges(graph: Graph<(u16, u32, u32), u8>) -> Seq<(usize, usize, u8)>;

/// `Graph::new`: a directed graph without nodes and without edges.
#[verifier::external_body]
pub(crate) fn graph_new() -> (graph: Graph<(u16, u32, u32), u8>)
    ensures
        graph_nodes(graph) == Seq::<(u16, u32, u32)>::empty(),
        graph_edges(graph) == Seq::<(usize, usize, u8)>::empty(),
{
    Graph::new()
}

/// `Graph::node_count`: the number of nodes.
#[verifier::external_body]
pub(crate) fn graph_node_count(graph: &Graph<(u16, u32, u32), u8>) -> (count: usize)
    ensures
        count == graph_nodes(*graph).len(),
{
    graph.node_count()
}

/// `Graph::edge_count`: the number of edges.
#[verifier::external_body]
pub(crate) fn graph_edge_count(graph: &Graph<(u16, u32, u32), u8>) -> (count: usize)
    ensures
        count == graph_edges(*graph).len(),
{
    graph.edge_count()
}

/// `Graph::add_node`: appends a node and returns its index; the edges stay
/// as they were.  The method panics once the 32-bit node indices are used
/// up, which the precondition rules out.
#[verifier::external_body]
pub(crate) fn graph_add_node(graph: &mut Graph<(u16, u32, u32), u8>, node: (u16, u32, u32)) -> (index:
    usize)
    requires
        graph_nodes(*old(graph)).len() < 0xffff_ffff,
    ensures
        graph_nodes(*final(graph)) == graph_nodes(*old(graph)).push(node),
        graph_edges(*final(graph)) == graph_edges(*old(graph)),
        index == graph_nodes(*old(graph)).len(),
{
    graph.add_node(node).index()
}

/// `Graph::add_edge`: appends a directed edge from node `a` to node `b`;
/// the nodes stay as they were.  The method panics on an index that is not
/// a node and once the 32-bit edge indices are used up, which the
/// precondition rules out.
#[verifier::external_body]
pub(crate) fn graph_add_edge(graph: &mut Graph<(u16, u32, u32), u8>, a: usize, b: usize, label: u8)
    requires
        a < graph_nodes(*old(graph)).len(),
        b < graph_nodes(*old(graph)).len(),
        graph_nodes(*old(graph)).len() <= 0xffff_ffff,
        graph_edges(*old(graph)).len() < 0xffff_ffff,
    ensures
        graph_nodes(*final(graph)) == graph_nodes(*old(graph)),
        graph_edges(*final(graph)) == graph_edges(*old(graph)).push((a, b, label)),
{
    graph.add_edge(NodeIndex::new(a), NodeIndex::new(b), label);
}

/// `Graph::node_weight`: the node at an index.
#[verifier::external_body]
pub(crate) fn graph_node_at(graph: &Graph<(u16, u32, u32), u8>, index: usize) -> (node: (
    u16,
    u32,
    u32,
))
    requires
        index < graph_nodes(*graph).len(),
        graph_nodes(*graph).len() <= 0xffff_ffff,
    ensures
        node == graph_nodes(*graph)[index as int],
{
    *graph.node_weight(NodeIndex::new(index)).unwrap()
}

/// `Graph::edge_endpoints`: the source and the target of the edge at an
/// index.
#[verifier::external_body]
pub(crate) fn graph_edge_ends(graph: &Graph<(u16, u32, u32), u8>, index: usize) -> (ends: (
    usize,
    usize,
))
    requires
        index < graph_edges(*graph).len(),
        graph_edges(*graph).len() <= 0xffff_ffff,
    ensures
        ends.0 == graph_edges(*graph)[index as int].0,
        ends.1 == graph_edges(*graph)[index as int].1,
{
    let (a, b) = graph.edge_endpoints(EdgeIndex::new(index)).unwrap();
    (a.index(), b.index())
}

/// `Graph::edge_weight`: the label of the edge at an index.
#[verifier::external_body]
pub(crate) fn graph_edge_label(graph: &Graph<(u16, u32, u32), u8>, index: usize) -> (label: u8)
    requires
        index < graph_edges(*graph).len(),
        graph_edges(*graph).len() <= 0xffff_ffff,
    ensures
        label == graph_edges(*graph)[index as int].2,
{
    *graph.edge_weight(EdgeIndex::new(index)).unwrap()
}

} // verus!
