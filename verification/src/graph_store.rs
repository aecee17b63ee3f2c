//! The directed graph that holds the service dependency graph: petgraph's
//! `Graph`, seen through the nodes and edges it holds.

use vstd::prelude::*;
use petgraph::graph::{DiGraph, EdgeIndex, Graph, NodeIndex};
use petgraph::visit::EdgeRef;
use petgraph::{Directed, Direction};
use crate::dependency_graph::EdgeWeight;

verus! {

#[verifier::external_type_specification]
#[verifier::external_body]
#[verifier::reject_recursive_types(N)]
#[verifier::reject_recursive_types(E)]
#[verifier::reject_recursive_types(Ty)]
#[verifier::reject_recursive_types(Ix)]
pub struct ExGraph<N, E, Ty, Ix>(Graph<N, E, Ty, Ix>);

#[verifier::external_type_specification]
#[verifier::external_body]
pub struct ExDirected(Directed);

/// The node weights of a graph (service names), by node index.
pub uninterp spec fn graph_nodes(g: DiGraph<String, EdgeWeight>) -> Seq<Seq<char>>;

/// The edges of a graph, by edge index: (source index, target index, weight).
pub uninterp spec fn graph_edges(g: DiGraph<String, EdgeWeight>) -> Seq<(int, int, EdgeWeight)>;

/// The edges that leave node `a`, newest first (petgraph links a new edge in
/// front of the node's list): (target index, weight).
pub open spec fn edges_out(edges: Seq<(int, int, EdgeWeight)>, a: int) -> Seq<(int, EdgeWeight)>
    decreases edges.len(),
{
    if edges.len() == 0 {
        Seq::empty()
    } else if edges.last().0 == a {
        seq![(edges.last().1, edges.last().2)] + edges_out(edges.drop_last(), a)
    } else {
        edges_out(edges.drop_last(), a)
    }
}

/// The edges that enter node `a`, newest first: (source index, weight).
pub open spec fn edges_in(edges: Seq<(int, int, EdgeWeight)>, a: int) -> Seq<(int, EdgeWeight)>
    decreases edges.len(),
{
    if edges.len() == 0 {
        Seq::empty()
    } else if edges.last().1 == a {
        seq![(edges.last().0, edges.last().2)] + edges_in(edges.drop_last(), a)
    } else {
        edges_in(edges.drop_last(), a)
    }
}

/// The newest edge from `a` to `b`, if any.
pub open spec fn newest_edge(edges: Seq<(int, int, EdgeWeight)>, a: int, b: int) -> Option<int>
    decreases edges.len(),
{
    if edges.len() == 0 {
        None
    } else if edges.last().0 == a && edges.last().1 == b {
        Some(edges.len() - 1)
    } else {
        newest_edge(edges.drop_last(), a, b)
    }
}

/// `DiGraph::new`: a graph with no node and no edge.
#[verifier::external_body]
pub(crate) fn graph_new() -> (g: DiGraph<String, EdgeWeight>)
    ensures
        graph_nodes(g) == Seq::<Seq<char>>::empty(),
        graph_edges(g) == Seq::<(int, int, EdgeWeight)>::empty(),
{
    DiGraph::new()
}

/// `Graph::add_node`: appends a node and returns its index (the former node
/// count). It panics at `u32::MAX` nodes, which `requires` leaves out.
#[verifier::external_body]
pub(crate) fn graph_add_node(g: &mut DiGraph<String, EdgeWeight>, weight: String) -> (idx: usize)
    requires
        graph_nodes(*old(g)).len() < 0xffff_ffff,
    ensures
        idx == graph_nodes(*old(g)).len(),
        graph_nodes(*final(g)) == graph_nodes(*old(g)).push(weight@),
        graph_edges(*final(g)) == graph_edges(*old(g)),
{
    g.add_node(weight).index()
}

/// `Graph::add_edge`: appends an edge from `a` to `b` and returns its index.
/// It panics where a node does not exist or at `u32::MAX` edges, which
/// `requires` leaves out.
#[verifier::external_body]
pub(crate) fn graph_add_edge(g: &mut DiGraph<String, EdgeWeight>, a: usize, b: usize, weight: EdgeWeight) -> (idx: usize)
    requires
        a < graph_nodes(*old(g)).len(),
        b < graph_nodes(*old(g)).len(),
        graph_edges(*old(g)).len() < 0xffff_ffff,
    ensures
        idx == graph_edges(*old(g)).len(),
        graph_nodes(*final(g)) == graph_nodes(*old(g)),
        graph_edges(*final(g)) == graph_edges(*old(g)).push((a as int, b as int, weight)),
{
    g.add_edge(NodeIndex::new(a), NodeIndex::new(b), weight).index()
}

/// `Graph::find_edge` on a directed graph: walks the edges that leave `a`,
/// newest first, and returns the first that enters `b`.
#[verifier::external_body]
pub(crate) fn graph_find_edge(g: &DiGraph<String, EdgeWeight>, a: usize, b: usize) -> (res: Option<usize>)
    requires
        a < graph_nodes(*g).len(),
        b < graph_nodes(*g).len(),
    ensures
        match newest_edge(graph_edges(*g), a as int, b as int) {
            None => res is None,
            Some(e) => res == Some(e as usize),
        },
{
    g.find_edge(NodeIndex::new(a), NodeIndex::new(b)).map(|e| e.index())
}

/// `Graph::edge_weight_mut`, written through: the weight of edge `e`
/// becomes `weight`.
#[verifier::external_body]
pub(crate) fn graph_set_edge_weight(g: &mut DiGraph<String, EdgeWeight>, e: usize, weight: EdgeWeight)
    requires
        e < graph_edges(*old(g)).len(),
    ensures
        graph_nodes(*final(g)) == graph_nodes(*old(g)),
        graph_edges(*final(g)) == graph_edges(*old(g)).update(
            e as int,
            (graph_edges(*old(g))[e as int].0, graph_edges(*old(g))[e as int].1, weight),
        ),
{
    *g.edge_weight_mut(EdgeIndex::new(e)).unwrap() = weight;
}

/// `Graph::edge_weight`: the weight of edge `e`.
#[verifier::external_body]
pub(crate) fn graph_edge_weight(g: &DiGraph<String, EdgeWeight>, e: usize) -> (w: &EdgeWeight)
    requires
        e < graph_edges(*g).len(),
    ensures
        *w == graph_edges(*g)[e as int].2,
{
    g.edge_weight(EdgeIndex::new(e)).unwrap()
}

/// `Graph::edge_endpoints`: the source and target of edge `e`.
#[verifier::external_body]
pub(crate) fn graph_edge_endpoints(g: &DiGraph<String, EdgeWeight>, e: usize) -> (res: (usize, usize))
    requires
        e < graph_edges(*g).len(),
    ensures
        res.0 as int == graph_edges(*g)[e as int].0,
        res.1 as int == graph_edges(*g)[e as int].1,
{
    let (a, b) = g.edge_endpoints(EdgeIndex::new(e)).unwrap();
    (a.index(), b.index())
}

/// `Graph::node_weight`: the name held by node `n`.
#[verifier::external_body]
pub(crate) fn graph_node_weight(g: &DiGraph<String, EdgeWeight>, n: usize) -> (w: &String)
    requires
        n < graph_nodes(*g).len(),
    ensures
        w@ == graph_nodes(*g)[n as int],
{
    g.node_weight(NodeIndex::new(n)).unwrap()
}

/// `Graph::edge_indices`: the edge indices, in order.
#[verifier::external_body]
pub(crate) fn graph_edge_indices(g: &DiGraph<String, EdgeWeight>) -> (res: Vec<usize>)
    ensures
        res@.len() == graph_edges(*g).len(),
        forall|i: int| 0 <= i < res@.len() ==> res@[i] == i,
{
    g.edge_indices().map(|e| e.index()).collect()
}

/// `Graph::edges`: the edges that leave node `a`, newest first, each as
/// (target index, weight).
#[verifier::external_body]
pub(crate) fn graph_edges_from<'a>(g: &'a DiGraph<String, EdgeWeight>, a: usize) -> (res: Vec<(usize, &'a EdgeWeight)>)
    requires
        a < graph_nodes(*g).len(),
    ensures
        res@.len() == edges_out(graph_edges(*g), a as int).len(),
        forall|i: int| 0 <= i < res@.len() ==> res@[i].0 as int == edges_out(graph_edges(*g), a as int)[i].0
            && *res@[i].1 == edges_out(graph_edges(*g), a as int)[i].1,
{
    g.edges(NodeIndex::new(a)).map(|e| (e.target().index(), e.weight())).collect()
}

/// `Graph::edges_directed` with `Direction::Incoming`: the edges that enter
/// node `a`, newest first, each as (source index, weight).
#[verifier::external_body]
pub(crate) fn graph_edges_into<'a>(g: &'a DiGraph<String, EdgeWeight>, a: usize) -> (res: Vec<(usize, &'a EdgeWeight)>)
    requires
        a < graph_nodes(*g).len(),
    ensures
        res@.len() == edges_in(graph_edges(*g), a as int).len(),
        forall|i: int| 0 <= i < res@.len() ==> res@[i].0 as int == edges_in(graph_edges(*g), a as int)[i].0
            && *res@[i].1 == edges_in(graph_edges(*g), a as int)[i].1,
{
    g.edges_directed(NodeIndex::new(a), Direction::Incoming).map(|e| (e.source().index(), e.weight())).collect()
}

} // verus!
