//! Storage of nodes and arcs in `petgraph::graph::Graph`.
//!
//! Verus does not look inside the storage. What it holds is named by
//! [`graph_nodes`] and [`graph_edges`], and every function in this file states,
//! without proof, what one method of the storage does to those two sequences.
//! The statements are made of a storage that has only ever been added to:
//! this library removes neither nodes nor arcs.

use crate::model::hops_from;
use crate::model::Ed;
use crate::model::Hop;
use crate::model::Link;
use crate::model::Nd;
use crate::model::STORE_LIMIT;
use petgraph::graph::EdgeIndex;
use petgraph::graph::Graph;
use petgraph::graph::NodeIndex;
use petgraph::visit::EdgeRef;
use vstd::prelude::*;

verus! {

/// `petgraph::graph::Graph`, the storage itself. Verus takes it as a type
/// whose values it cannot look into.
#[verifier::external_type_specification]
#[verifier::external_body]
#[verifier::reject_recursive_types(N)]
#[verifier::reject_recursive_types(E)]
#[verifier::reject_recursive_types(Ty)]
#[verifier::reject_recursive_types(Ix)]
pub struct ExGraph<N, E, Ty, Ix>(petgraph::graph::Graph<N, E, Ty, Ix>);

/// `petgraph::Directed`, the marker that makes the storage keep the
/// direction of its arcs.
#[verifier::external_type_specification]
#[verifier::external_body]
pub struct ExDirected(petgraph::Directed);

/// The node payloads that the storage holds; a node's handle is its position.
pub uninterp spec fn graph_nodes(g: Graph<Nd, Ed>) -> Seq<Nd>;

/// The arcs that the storage holds, in the order in which they were added; an
/// arc's index is its position.
pub uninterp spec fn graph_edges(g: Graph<Nd, Ed>) -> Seq<Link>;

/// `Graph::new`: a storage without nodes and without arcs.
#[verifier::external_body]
pub(crate) fn store_new() -> (g: Graph<Nd, Ed>)
    ensures
        graph_nodes(g) == Seq::<Nd>::empty(),
        graph_edges(g) == Seq::<Link>::empty(),
{
    Graph::new()
}

/// `Graph::node_count`: the number of nodes held.
#[verifier::external_body]
pub(crate) fn store_node_count(g: &Graph<Nd, Ed>) -> (n: usize)
    ensures
        n == graph_nodes(*g).len(),
{
    g.node_count()
}

/// `Graph::edge_count`: the number of arcs held.
#[verifier::external_body]
pub(crate) fn store_edge_count(g: &Graph<Nd, Ed>) -> (n: usize)
    ensures
        n == graph_edges(*g).len(),
{
    g.edge_count()
}

/// `Graph::add_node`: the payload is put behind the nodes held, the arcs stay,
/// and the handle returned is the new node's position. The method panics once
/// the storage is full, which the precondition leaves out.
#[verifier::external_body]
pub(crate) fn store_add_node(g: &mut Graph<Nd, Ed>, nd: Nd) -> (h: usize)
    requires
        graph_nodes(*old(g)).len() < STORE_LIMIT,
    ensures
        graph_nodes(*final(g)) == graph_nodes(*old(g)).push(nd),
        graph_edges(*final(g)) == graph_edges(*old(g)),
        h == graph_nodes(*old(g)).len(),
{
    g.add_node(nd).index()
}

/// `Graph::add_edge`: an arc from `a` to `b` is put behind the arcs held, the
/// nodes stay, and the index returned is the new arc's position. The method
/// panics on a handle that the storage did not give out, and once the storage
/// is full; the precondition leaves both out.
#[verifier::external_body]
pub(crate) fn store_add_edge(g: &mut Graph<Nd, Ed>, a: usize, b: usize, ed: Ed) -> (e: usize)
    requires
        a < graph_nodes(*old(g)).len(),
        b < graph_nodes(*old(g)).len(),
        graph_nodes(*old(g)).len() <= STORE_LIMIT,
        graph_edges(*old(g)).len() < STORE_LIMIT,
    ensures
        graph_nodes(*final(g)) == graph_nodes(*old(g)),
        graph_edges(*final(g)) == graph_edges(*old(g)).push(Link { from: a, to: b, ed }),
        e == graph_edges(*old(g)).len(),
{
    g.add_edge(NodeIndex::new(a), NodeIndex::new(b), ed).index()
}

/// Indexing the storage by a node's handle: the payload of that node. It
/// panics on a handle that the storage did not give out, which the
/// precondition leaves out.
#[verifier::external_body]
pub(crate) fn store_node(g: &Graph<Nd, Ed>, a: usize) -> (nd: Nd)
    requires
        a < graph_nodes(*g).len(),
        graph_nodes(*g).len() <= STORE_LIMIT,
    ensures
        nd == graph_nodes(*g)[a as int],
{
    g[NodeIndex::new(a)]
}

/// `Graph::edges`: the arcs that leave `a`, each with its index, the node it
/// enters and its payload, the one added last first.
#[verifier::external_body]
pub(crate) fn store_edges(g: &Graph<Nd, Ed>, a: usize) -> (hops: Vec<Hop>)
    requires
        a < graph_nodes(*g).len(),
        graph_nodes(*g).len() <= STORE_LIMIT,
    ensures
        hops@ == hops_from(graph_edges(*g), a),
{
    g.edges(NodeIndex::new(a)).map(
        |e| Hop { edge: e.id().index(), to: e.target().index(), ed: *e.weight() },
    ).collect()
}

/// Indexing the storage by an arc's index: the payload of that arc. It panics
/// on an index that the storage did not give out, which the precondition
/// leaves out.
#[verifier::external_body]
pub(crate) fn store_edge(g: &Graph<Nd, Ed>, e: usize) -> (ed: Ed)
    requires
        e < graph_edges(*g).len(),
        graph_edges(*g).len() <= STORE_LIMIT,
    ensures
        ed == graph_edges(*g)[e as int].ed,
{
    g[EdgeIndex::new(e)]
}

/// Assigning through the storage indexed by an arc's index: the payload of
/// that arc is replaced, its ends and everything else stay. It panics on an
/// index that the storage did not give out, which the precondition leaves out.
#[verifier::external_body]
pub(crate) fn store_set_edge(g: &mut Graph<Nd, Ed>, e: usize, ed: Ed)
    requires
        e < graph_edges(*old(g)).len(),
        graph_edges(*old(g)).len() <= STORE_LIMIT,
    ensures
        graph_nodes(*final(g)) == graph_nodes(*old(g)),
        graph_edges(*final(g)) == graph_edges(*old(g)).update(
            e as int,
            (Link { from: graph_edges(*old(g))[e as int].from, to: graph_edges(*old(g))[e as int].to, ed }),
        ),
{
    g[EdgeIndex::new(e)] = ed;
}

/// `Graph::edge_endpoints`: the handles of the node that an arc leaves and of
/// the node that it enters.
#[verifier::external_body]
pub(crate) fn store_ends(g: &Graph<Nd, Ed>, e: usize) -> (ends: Option<(usize, usize)>)
    requires
        e < graph_edges(*g).len(),
        graph_edges(*g).len() <= STORE_LIMIT,
    ensures
        ends == Some((graph_edges(*g)[e as int].from, graph_edges(*g)[e as int].to)),
{
    g.edge_endpoints(EdgeIndex::new(e)).map(|(a, b)| (a.index(), b.index()))
}

} // verus!
