use vstd::prelude::*;
use petgraph::stable_graph::{EdgeIndex, NodeIndex, StableGraph};
use petgraph::visit::EdgeRef;
use petgraph::{Directed, Direction};
use crate::edge::{Edge, Link, Side, Wire, endpoint};
use crate::node::Op;

verus! {

/// `petgraph::stable_graph::StableGraph`, whose inside the library does
/// not look into.
#[verifier::external_type_specification]
#[verifier::external_body]
#[verifier::reject_recursive_types(N)]
#[verifier::reject_recursive_types(E)]
#[verifier::reject_recursive_types(Ty)]
#[verifier::reject_recursive_types(Ix)]
pub struct ExStableGraph<N, E, Ty, Ix>(StableGraph<N, E, Ty, Ix>);

/// `petgraph::Directed`, the marker of graphs with directed edges.
#[verifier::external_type_specification]
#[verifier::external_body]
pub struct ExDirected(Directed);

/// The collection that holds the nodes and edges of a graph.
pub type Store = StableGraph<Op, Link, Directed, u32>;

/// The nodes that a store holds: from each live node index to the node's
/// weight.
pub uninterp spec fn store_nodes(g: Store) -> Map<u32, Op>;

/// The edges that a store holds: from each live edge index to the edge's
/// ends and weight.
pub uninterp spec fn store_edges(g: Store) -> Map<u32, Wire>;

/// The edges that are left when every edge with an end in `id` goes.
pub open spec fn detached(edges: Map<u32, Wire>, id: u32) -> Map<u32, Wire> {
    edges.restrict(Set::new(|e: u32| edges[e].source != id && edges[e].target != id))
}

/// Whether `found` lists, each once, exactly the edges that have `id` at
/// the given end.
pub open spec fn lists(found: Seq<Edge>, edges: Map<u32, Wire>, id: u32, side: Side) -> bool {
    &&& forall|i: int|
        0 <= i < found.len() ==> edges.contains_key((#[trigger] found[i]).id)
            && edges[found[i].id] == found[i].wire() && endpoint(found[i].wire(), side) == id
    &&& forall|i: int, j: int|
        0 <= i < j < found.len() ==> (#[trigger] found[i]).id != (#[trigger] found[j]).id
    &&& forall|e: u32|
        edges.contains_key(e) && endpoint(#[trigger] edges[e], side) == id ==> exists|i: int|
            0 <= i < found.len() && (#[trigger] found[i]).id == e
}

/// Whether `found` lists, each once, exactly the edges that run from
/// `source` to `target`.
pub open spec fn joins(found: Seq<Edge>, edges: Map<u32, Wire>, source: u32, target: u32) -> bool {
    &&& forall|i: int|
        0 <= i < found.len() ==> edges.contains_key((#[trigger] found[i]).id)
            && edges[found[i].id] == found[i].wire() && found[i].source == source
            && found[i].target == target
    &&& forall|i: int, j: int|
        0 <= i < j < found.len() ==> (#[trigger] found[i]).id != (#[trigger] found[j]).id
    &&& forall|e: u32|
        edges.contains_key(e) && (#[trigger] edges[e]).source == source && edges[e].target
            == target ==> exists|i: int| 0 <= i < found.len() && (#[trigger] found[i]).id == e
}

/// `StableGraph::new`: a store without nodes and edges.
#[verifier::external_body]
pub(crate) fn store_new() -> (r: Store)
    ensures
        store_nodes(r) =~= Map::empty(),
        store_edges(r) =~= Map::empty(),
{
    StableGraph::new()
}

/// `StableGraph::node_count`: the number of live nodes.
#[verifier::external_body]
pub(crate) fn store_node_count(g: &Store) -> (r: usize)
    ensures
        r == store_nodes(*g).dom().len(),
{
    g.node_count()
}

/// `StableGraph::edge_count`: the number of live edges.
#[verifier::external_body]
pub(crate) fn store_edge_count(g: &Store) -> (r: usize)
    ensures
        r == store_edges(*g).dom().len(),
{
    g.edge_count()
}

/// `StableGraph::add_node`: the node gets an index that no live node has,
/// and nothing else changes. It panics when the index type has no index
/// left, which cannot happen while fewer live nodes exist than the largest
/// index: a vacant index is used again before a new one is taken.
#[verifier::external_body]
pub(crate) fn store_add_node(g: &mut Store, op: Op) -> (id: u32)
    requires
        store_nodes(*old(g)).dom().finite(),
        store_nodes(*old(g)).dom().len() < u32::MAX,
    ensures
        !store_nodes(*old(g)).contains_key(id),
        store_nodes(*final(g)) == store_nodes(*old(g)).insert(id, op),
        store_edges(*final(g)) == store_edges(*old(g)),
{
    g.add_node(op).index() as u32
}

/// `StableGraph::add_edge`: the edge gets an index that no live edge has,
/// and nothing else changes. It panics when an end is no live node, or when
/// the index type has no index left.
#[verifier::external_body]
pub(crate) fn store_add_edge(g: &mut Store, source: u32, target: u32, link: Link) -> (id: u32)
    requires
        store_nodes(*old(g)).contains_key(source),
        store_nodes(*old(g)).contains_key(target),
        store_edges(*old(g)).dom().finite(),
        store_edges(*old(g)).dom().len() < u32::MAX,
    ensures
        !store_edges(*old(g)).contains_key(id),
        store_edges(*final(g)) == store_edges(*old(g)).insert(id, link.between(source, target)),
        store_nodes(*final(g)) == store_nodes(*old(g)),
{
    g.add_edge(NodeIndex::new(source as usize), NodeIndex::new(target as usize), link).index() as u32
}

/// `StableGraph::remove_node`: a live node goes, and with it every edge
/// that has an end in it; the indices of all other nodes and edges stay.
/// The result is the node's weight, or `None` where the index was not live.
#[verifier::external_body]
pub(crate) fn store_remove_node(g: &mut Store, id: u32) -> (r: Option<Op>)
    ensures
        r == (if store_nodes(*old(g)).contains_key(id) {
            Some(store_nodes(*old(g))[id])
        } else {
            None
        }),
        store_nodes(*final(g)) == store_nodes(*old(g)).remove(id),
        store_edges(*final(g)) == detached(store_edges(*old(g)), id),
{
    g.remove_node(NodeIndex::new(id as usize))
}

/// `StableGraph::remove_edge`: a live edge goes, and nothing else changes.
/// The result says whether the index was live.
#[verifier::external_body]
pub(crate) fn store_remove_edge(g: &mut Store, id: u32) -> (r: bool)
    ensures
        r == store_edges(*old(g)).contains_key(id),
        store_edges(*final(g)) == store_edges(*old(g)).remove(id),
        store_nodes(*final(g)) == store_nodes(*old(g)),
{
    g.remove_edge(EdgeIndex::new(id as usize)).is_some()
}

/// `StableGraph::node_weight`: the weight of a live node.
#[verifier::external_body]
pub(crate) fn store_node(g: &Store, id: u32) -> (r: Option<Op>)
    ensures
        r == (if store_nodes(*g).contains_key(id) {
            Some(store_nodes(*g)[id])
        } else {
            None
        }),
{
    g.node_weight(NodeIndex::new(id as usize)).copied()
}

/// `StableGraph::node_indices`: the indices of the live nodes, in rising
/// order.
#[verifier::external_body]
pub(crate) fn store_node_ids(g: &Store) -> (r: Vec<u32>)
    ensures
        forall|i: int, j: int| 0 <= i < j < r@.len() ==> r@[i] < r@[j],
        forall|id: u32| store_nodes(*g).contains_key(id) <==> r@.contains(id),
{
    g.node_indices().map(|n| n.index() as u32).collect()
}

/// `StableGraph::edges_directed`: the edges that end in the node
/// (`Incoming`) or start from it (`Outgoing`), each once, with their
/// indices, ends and a copy of what they carry. The order is left open.
#[verifier::external_body]
pub(crate) fn store_edges_of(g: &Store, id: u32, side: Side) -> (r: Vec<Edge>)
    ensures
        lists(r@, store_edges(*g), id, side),
{
    let dir = match side {
        Side::Incoming => Direction::Incoming,
        Side::Outgoing => Direction::Outgoing,
    };
    g.edges_directed(NodeIndex::new(id as usize), dir).map(
        |e| Edge {
            id: e.id().index() as u32,
            source: e.source().index() as u32,
            target: e.target().index() as u32,
            link: e.weight().dup(),
        },
    ).collect()
}

/// `StableGraph::edges_connecting`: the edges that run from the first node
/// to the second, each once, with their indices, ends and a copy of what
/// they carry. The order is left open.
#[verifier::external_body]
pub(crate) fn store_edges_between(g: &Store, source: u32, target: u32) -> (r: Vec<Edge>)
    ensures
        joins(r@, store_edges(*g), source, target),
{
    g.edges_connecting(NodeIndex::new(source as usize), NodeIndex::new(target as usize)).map(
        |e| Edge {
            id: e.id().index() as u32,
            source: e.source().index() as u32,
            target: e.target().index() as u32,
            link: e.weight().dup(),
        },
    ).collect()
}

} // verus!
