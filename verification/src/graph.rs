use vstd::prelude::*;
use crate::edge::{Edge, Link, Side, Wire, endpoint, rerouted};
use crate::fault::Fault;
use crate::node::Op;
use crate::store::{
    Store, detached, joins, lists, store_add_edge, store_add_node, store_edge_count, store_edges,
    store_edges_between, store_edges_of, store_new, store_node, store_node_count, store_node_ids,
    store_nodes, store_remove_edge, store_remove_node,
};
use crate::view::ShapeView;

verus! {

/// The edges that have `id` at the given end.
pub open spec fn ends(edges: Map<u32, Wire>, id: u32, side: Side) -> Set<u32> {
    Set::new(|e: u32| edges.contains_key(e) && endpoint(edges[e], side) == id)
}

/// The edges that `id` consumes.
pub open spec fn incoming(edges: Map<u32, Wire>, id: u32) -> Set<u32> {
    ends(edges, id, Side::Incoming)
}

/// The edges that `id` produces.
pub open spec fn outgoing(edges: Map<u32, Wire>, id: u32) -> Set<u32> {
    ends(edges, id, Side::Outgoing)
}

/// Whether the inputs of `id` are fully and uniquely wired: no two incoming
/// edges feed the same input slot, and every fed slot is smaller than the
/// number of incoming edges, so that the slots are exactly zero up to that
/// number.
pub open spec fn wired(edges: Map<u32, Wire>, id: u32) -> bool {
    &&& forall|a: u32, b: u32|
        #![trigger edges[a], edges[b]]
        incoming(edges, id).contains(a) && incoming(edges, id).contains(b) && a != b
            ==> edges[a].input_slot != edges[b].input_slot
    &&& forall|a: u32|
        incoming(edges, id).contains(a) ==> (#[trigger] edges[a]).input_slot < incoming(
            edges,
            id,
        ).len()
}

/// Whether every node's inputs are fully and uniquely wired.
pub open spec fn fully_wired(nodes: Map<u32, Op>, edges: Map<u32, Wire>) -> bool {
    forall|id: u32| #[trigger] nodes.contains_key(id) ==> wired(edges, id)
}

/// What holds of the contents of every graph: they are finite, their
/// numbers fit the index type, and every edge runs between two nodes.
pub open spec fn sound(nodes: Map<u32, Op>, edges: Map<u32, Wire>) -> bool {
    &&& nodes.dom().finite()
    &&& edges.dom().finite()
    &&& nodes.dom().len() <= u32::MAX
    &&& edges.dom().len() <= u32::MAX
    &&& forall|e: u32|
        edges.contains_key(e) ==> nodes.contains_key((#[trigger] edges[e]).source)
            && nodes.contains_key(edges[e].target)
}

/// A listing that holds each edge at one end of a node once has as many
/// entries as the node has edges at that end.
pub proof fn lemma_listing_len(found: Seq<Edge>, edges: Map<u32, Wire>, id: u32, side: Side)
    requires
        lists(found, edges, id, side),
    ensures
        ends(edges, id, side).finite(),
        ends(edges, id, side).len() == found.len(),
{
    let ids = Seq::new(found.len(), |i: int| found[i].id);
    assert(ids.no_duplicates());
    assert forall|e: u32| ids.to_set().contains(e) <==> ends(edges, id, side).contains(e) by {
        if ids.to_set().contains(e) {
            let i = choose|i: int| 0 <= i < ids.len() && ids[i] == e;
            assert(found[i].id == e);
        }
        if ends(edges, id, side).contains(e) {
            assert(endpoint(edges[e], side) == id);
            let i = choose|i: int| 0 <= i < found.len() && (#[trigger] found[i]).id == e;
            assert(ids[i] == e);
        }
    }
    assert(ids.to_set() =~= ends(edges, id, side));
    ids.unique_seq_to_set();
    vstd::seq_lib::seq_to_set_is_finite(ids);
}

/// Putting a wire with the same target and input slot in the place of an
/// edge leaves every node wired that was.
pub proof fn lemma_swap_keeps_wired(edges: Map<u32, Wire>, old_id: u32, new_id: u32, w: Wire)
    requires
        edges.dom().finite(),
        edges.contains_key(old_id),
        !edges.remove(old_id).contains_key(new_id),
        w.target == edges[old_id].target,
        w.input_slot == edges[old_id].input_slot,
    ensures
        forall|x: u32|
            wired(edges, x) ==> #[trigger] wired(edges.remove(old_id).insert(new_id, w), x),
{
    let after = edges.remove(old_id).insert(new_id, w);
    let t = w.target;
    assert forall|x: u32| wired(edges, x) implies #[trigger] wired(after, x) by {
        let before_in = incoming(edges, x);
        let after_in = incoming(after, x);
        vstd::set_lib::lemma_len_subset(before_in, edges.dom());
        if x == t {
            assert(after_in =~= before_in.remove(old_id).insert(new_id));
            assert(before_in.contains(old_id));
            assert(after_in.len() == before_in.len());
            assert forall|a: u32, b: u32|
                #![trigger after[a], after[b]]
                after_in.contains(a) && after_in.contains(b) && a != b implies after[a].input_slot
                != after[b].input_slot by {
                if a == new_id {
                    assert(before_in.contains(b));
                    assert(edges[old_id].input_slot != edges[b].input_slot);
                } else if b == new_id {
                    assert(before_in.contains(a));
                    assert(edges[a].input_slot != edges[old_id].input_slot);
                } else {
                    assert(before_in.contains(a) && before_in.contains(b));
                    assert(edges[a].input_slot != edges[b].input_slot);
                }
            }
            assert forall|a: u32| after_in.contains(a) implies (#[trigger] after[a]).input_slot
                < after_in.len() by {
                if a == new_id {
                    assert(edges[old_id].input_slot < before_in.len());
                } else {
                    assert(before_in.contains(a));
                    assert(edges[a].input_slot < before_in.len());
                }
            }
        } else {
            assert(after_in =~= before_in);
            assert forall|a: u32, b: u32|
                #![trigger after[a], after[b]]
                after_in.contains(a) && after_in.contains(b) && a != b implies after[a].input_slot
                != after[b].input_slot by {
                assert(edges[a].input_slot != edges[b].input_slot);
            }
            assert forall|a: u32| after_in.contains(a) implies (#[trigger] after[a]).input_slot
                < after_in.len() by {
                assert(edges[a].input_slot < before_in.len());
            }
        }
    }
}

/// Taking away a node that nothing consumes leaves every other node wired
/// that was.
pub proof fn lemma_sink_keeps_wired(edges: Map<u32, Wire>, id: u32)
    requires
        outgoing(edges, id) =~= Set::empty(),
    ensures
        forall|x: u32| x != id && wired(edges, x) ==> #[trigger] wired(detached(edges, id), x),
{
    let after = detached(edges, id);
    assert forall|x: u32| x != id && wired(edges, x) implies #[trigger] wired(after, x) by {
        assert forall|e: u32| incoming(edges, x).contains(e) implies incoming(after, x).contains(
            e,
        ) by {
            if edges[e].source == id {
                assert(outgoing(edges, id).contains(e));
            }
        }
        assert(incoming(after, x) =~= incoming(edges, x));
        assert forall|a: u32, b: u32|
            #![trigger after[a], after[b]]
            incoming(after, x).contains(a) && incoming(after, x).contains(b) && a
                != b implies after[a].input_slot != after[b].input_slot by {
            assert(edges[a].input_slot != edges[b].input_slot);
        }
        assert forall|a: u32| incoming(after, x).contains(a) implies (
        #[trigger] after[a]).input_slot < incoming(after, x).len() by {
            assert(edges[a].input_slot < incoming(edges, x).len());
        }
    }
}

/// What rerouting the edges at one end of `from` to `to` leaves: `moves`
/// holds for each such edge its old and its new number.
pub open spec fn moved(
    before: Map<u32, Wire>,
    after: Map<u32, Wire>,
    from: u32,
    to: u32,
    side: Side,
    moves: Seq<(u32, u32)>,
) -> bool {
    &&& forall|i: int, j: int|
        0 <= i < j < moves.len() ==> (#[trigger] moves[i]).0 != (#[trigger] moves[j]).0
            && moves[i].1 != moves[j].1
    &&& forall|e: u32|
        ends(before, from, side).contains(e) <==> exists|i: int|
            0 <= i < moves.len() && (#[trigger] moves[i]).0 == e
    &&& forall|i: int|
        0 <= i < moves.len() ==> after.contains_key((#[trigger] moves[i]).1) && after[moves[i].1]
            == rerouted(before[moves[i].0], side, to)
    &&& forall|e: u32|
        before.contains_key(e) && endpoint(#[trigger] before[e], side) != from
            ==> after.contains_key(e) && after[e] == before[e]
    &&& forall|e: u32| #[trigger]
        after.contains_key(e) ==> (before.contains_key(e) && endpoint(before[e], side) != from)
            || exists|i: int| 0 <= i < moves.len() && (#[trigger] moves[i]).1 == e
    &&& after.dom().len() == before.dom().len()
}

/// Wiring the next free input slot of a node leaves every node wired that
/// was.
pub proof fn lemma_wire_keeps_wired(edges: Map<u32, Wire>, id: u32, w: Wire)
    requires
        edges.dom().finite(),
        !edges.contains_key(id),
        w.input_slot == incoming(edges, w.target).len(),
    ensures
        forall|x: u32| wired(edges, x) ==> #[trigger] wired(edges.insert(id, w), x),
        incoming(edges.insert(id, w), w.target).len() == incoming(edges, w.target).len() + 1,
{
    let after = edges.insert(id, w);
    let t = w.target;
    vstd::set_lib::lemma_len_subset(incoming(edges, t), edges.dom());
    assert(incoming(after, t) =~= incoming(edges, t).insert(id));
    assert forall|x: u32| wired(edges, x) implies #[trigger] wired(after, x) by {
        let before_in = incoming(edges, x);
        let after_in = incoming(after, x);
        if x == t {
            assert forall|a: u32, b: u32|
                #![trigger after[a], after[b]]
                after_in.contains(a) && after_in.contains(b) && a != b implies after[a].input_slot
                != after[b].input_slot by {
                if a == id {
                    assert(before_in.contains(b));
                    assert(edges[b].input_slot < before_in.len());
                } else if b == id {
                    assert(before_in.contains(a));
                    assert(edges[a].input_slot < before_in.len());
                } else {
                    assert(before_in.contains(a) && before_in.contains(b));
                    assert(edges[a].input_slot != edges[b].input_slot);
                }
            }
            assert forall|a: u32| after_in.contains(a) implies (#[trigger] after[a]).input_slot
                < after_in.len() by {
                if a != id {
                    assert(before_in.contains(a));
                    assert(edges[a].input_slot < before_in.len());
                }
            }
        } else {
            assert(after_in =~= before_in);
            assert forall|a: u32, b: u32|
                #![trigger after[a], after[b]]
                after_in.contains(a) && after_in.contains(b) && a != b implies after[a].input_slot
                != after[b].input_slot by {
                assert(edges[a].input_slot != edges[b].input_slot);
            }
            assert forall|a: u32| after_in.contains(a) implies (#[trigger] after[a]).input_slot
                < after_in.len() by {
                assert(edges[a].input_slot < before_in.len());
            }
        }
    }
}

/// A directed multigraph of operator nodes. Each edge says which output of
/// its producer feeds which input of its consumer, and how the consumer sees
/// the buffer.
pub struct Graph {
    store: Store,
}

impl Graph {
    /// The nodes: from each node's number to its operator.
    pub closed spec fn nodes(&self) -> Map<u32, Op> {
        store_nodes(self.store)
    }

    /// The edges: from each edge's number to its ends and what it carries.
    pub closed spec fn edges(&self) -> Map<u32, Wire> {
        store_edges(self.store)
    }

    /// What holds of every graph that this crate hands out.
    pub open spec fn wf(&self) -> bool {
        sound(self.nodes(), self.edges())
    }

    /// Whether every node's inputs are fully and uniquely wired.
    pub open spec fn is_wired(&self) -> bool {
        fully_wired(self.nodes(), self.edges())
    }

    /// A graph without nodes.
    pub fn new() -> (r: Graph)
        ensures
            r.wf(),
            r.nodes() == Map::<u32, Op>::empty(),
            r.edges() == Map::<u32, Wire>::empty(),
    {
        let store = store_new();
        Graph { store }
    }

    /// The number of nodes.
    pub fn node_count(&self) -> (r: usize)
        requires
            self.wf(),
        ensures
            r == self.nodes().dom().len(),
            r <= u32::MAX,
    {
        store_node_count(&self.store)
    }

    /// The number of edges.
    pub fn edge_count(&self) -> (r: usize)
        requires
            self.wf(),
        ensures
            r == self.edges().dom().len(),
            r <= u32::MAX,
    {
        store_edge_count(&self.store)
    }

    /// Adds a node for `op` and returns its number.
    pub fn add_node(&mut self, op: Op) -> (id: u32)
        requires
            old(self).wf(),
            old(self).nodes().dom().len() < u32::MAX,
        ensures
            final(self).wf(),
            !old(self).nodes().contains_key(id),
            final(self).nodes() == old(self).nodes().insert(id, op),
            final(self).edges() == old(self).edges(),
    {
        store_add_node(&mut self.store, op)
    }

    /// The operator of node `id`, if there is such a node.
    pub fn op_of(&self, id: u32) -> (r: Option<Op>)
        ensures
            r == (if self.nodes().contains_key(id) {
                Some(self.nodes()[id])
            } else {
                None
            }),
    {
        store_node(&self.store, id)
    }

    /// Whether `id` is a node of the graph.
    pub fn contains(&self, id: u32) -> (r: bool)
        ensures
            r == self.nodes().contains_key(id),
    {
        store_node(&self.store, id).is_some()
    }

    /// The numbers of all nodes, in rising order.
    pub fn node_ids(&self) -> (r: Vec<u32>)
        ensures
            forall|i: int, j: int| 0 <= i < j < r@.len() ==> r@[i] < r@[j],
            forall|id: u32| self.nodes().contains_key(id) <==> r@.contains(id),
    {
        store_node_ids(&self.store)
    }

    /// The edges at one end of node `id`, each once.
    pub fn edges_of(&self, id: u32, side: Side) -> (r: Vec<Edge>)
        requires
            self.wf(),
        ensures
            lists(r@, self.edges(), id, side),
            r@.len() == ends(self.edges(), id, side).len(),
    {
        let r = store_edges_of(&self.store, id, side);
        proof {
            lemma_listing_len(r@, self.edges(), id, side);
        }
        r
    }

    /// The number of edges that consume an output of node `id`.
    pub fn consumer_count(&self, id: u32) -> (r: usize)
        requires
            self.wf(),
        ensures
            r == outgoing(self.edges(), id).len(),
    {
        self.edges_of(id, Side::Outgoing).len()
    }

    /// Wires output `output_slot` of `producer` to input `input_slot` of
    /// `consumer`, seen through `view`, and returns the number of the new
    /// edge. Where one of the two is no node of the graph, nothing changes.
    pub fn wire(
        &mut self,
        producer: u32,
        output_slot: u8,
        consumer: u32,
        input_slot: u8,
        view: ShapeView,
    ) -> (r: Result<u32, Fault>)
        requires
            old(self).wf(),
            old(self).edges().dom().len() < u32::MAX,
        ensures
            final(self).wf(),
            match r {
                Ok(id) => {
                    &&& old(self).nodes().contains_key(producer)
                    &&& old(self).nodes().contains_key(consumer)
                    &&& !old(self).edges().contains_key(id)
                    &&& final(self).edges() == old(self).edges().insert(
                        id,
                        (Wire {
                            source: producer,
                            target: consumer,
                            output_slot,
                            input_slot,
                            view: view@,
                        }),
                    )
                    &&& final(self).nodes() == old(self).nodes()
                },
                Err(e) => {
                    &&& e == Fault::StructuralMismatch
                    &&& !old(self).nodes().contains_key(producer) || !old(
                        self
                    ).nodes().contains_key(consumer)
                    &&& final(self).edges() == old(self).edges()
                    &&& final(self).nodes() == old(self).nodes()
                },
            },
    {
        if !self.contains(producer) || !self.contains(consumer) {
            return Err(Fault::StructuralMismatch);
        }
        let link = Link { output_slot, input_slot, view };
        let id = store_add_edge(&mut self.store, producer, consumer, link);
        Ok(id)
    }

    /// Removes node `id` and every edge that has an end in it, whatever
    /// still consumes it. The result is the node's operator, or `None`
    /// where there was no such node.
    pub fn remove_node(&mut self, id: u32) -> (r: Option<Op>)
        requires
            old(self).wf(),
        ensures
            final(self).wf(),
            r == (if old(self).nodes().contains_key(id) {
                Some(old(self).nodes()[id])
            } else {
                None
            }),
            final(self).nodes() == old(self).nodes().remove(id),
            final(self).edges() == detached(old(self).edges(), id),
    {
        proof {
            let edges = self.edges();
            vstd::set_lib::lemma_len_subset(detached(edges, id).dom(), edges.dom());
        }
        store_remove_node(&mut self.store, id)
    }

    /// Removes node `id` if no more than `min_remaining_consumers` edges
    /// consume it, and says whether it did.
    pub fn safe_remove_node(&mut self, id: u32, min_remaining_consumers: usize) -> (r: bool)
        requires
            old(self).wf(),
        ensures
            final(self).wf(),
            r == (old(self).nodes().contains_key(id) && outgoing(old(self).edges(), id).len()
                <= min_remaining_consumers),
            r ==> final(self).nodes() == old(self).nodes().remove(id) && final(self).edges()
                == detached(old(self).edges(), id),
            !r ==> final(self).nodes() == old(self).nodes() && final(self).edges() == old(self).edges(),
    {
        if !self.contains(id) {
            return false;
        }
        if self.consumer_count(id) > min_remaining_consumers {
            return false;
        }
        self.remove_node(id);
        true
    }

    /// An edge that feeds input `slot` of `consumer`. Where no edge feeds
    /// that slot, the graph is not as the caller expects.
    pub fn input_at(&self, consumer: u32, slot: u8) -> (r: Result<Edge, Fault>)
        requires
            self.wf(),
        ensures
            match r {
                Ok(e) => self.edges().contains_key(e.id) && self.edges()[e.id] == e.wire()
                    && e.target == consumer && e.link.input_slot == slot,
                Err(fault) => fault == Fault::StructuralMismatch && forall|e: u32|
                    incoming(self.edges(), consumer).contains(e) ==> (
                    #[trigger] self.edges()[e]).input_slot != slot,
            },
    {
        let mut found = self.edges_of(consumer, Side::Incoming);
        let ghost all = found@;
        while found.len() > 0
            invariant
                self.wf(),
                lists(all, self.edges(), consumer, Side::Incoming),
                found@.len() <= all.len(),
                found@ == all.take(found@.len() as int),
                forall|i: int|
                    found@.len() <= i < all.len() ==> (#[trigger] all[i]).link.input_slot
                        != slot,
            decreases found.len(),
        {
            let ghost before = found@;
            let e = found.pop().unwrap();
            proof {
                assert(e == all[before.len() - 1]);
                assert(found@ =~= all.take(found@.len() as int));
            }
            if e.link.input_slot == slot {
                return Ok(e);
            }
        }
        proof {
            assert forall|e: u32| incoming(self.edges(), consumer).contains(e) implies (
            #[trigger] self.edges()[e]).input_slot != slot by {
                assert(endpoint(self.edges()[e], Side::Incoming) == consumer);
                let i = choose|i: int| 0 <= i < all.len() && (#[trigger] all[i]).id == e;
                assert(all[i].link.input_slot != slot);
            }
        }
        Err(Fault::StructuralMismatch)
    }

    /// Whether the inputs of node `id` are fully and uniquely wired.
    pub fn node_is_wired(&self, id: u32) -> (r: bool)
        requires
            self.wf(),
        ensures
            r == wired(self.edges(), id),
    {
        let found = self.edges_of(id, Side::Incoming);
        let n = found.len();
        let mut i: usize = 0;
        while i < n
            invariant
                i <= n,
                n == found@.len(),
                n == incoming(self.edges(), id).len(),
                lists(found@, self.edges(), id, Side::Incoming),
                forall|a: int| 0 <= a < i ==> (#[trigger] found@[a]).link.input_slot < n,
                forall|a: int, b: int|
                    0 <= a < i && 0 <= b < n && a != b ==> (#[trigger] found@[a]).link.input_slot
                        != (#[trigger] found@[b]).link.input_slot,
            decreases n - i,
        {
            if found[i].link.input_slot as usize >= n {
                proof {
                    assert(incoming(self.edges(), id).contains(found@[i as int].id));
                    assert(self.edges()[found@[i as int].id].input_slot >= n);
                }
                return false;
            }
            let mut j: usize = 0;
            while j < n
                invariant
                    i < n,
                    j <= n,
                    n == found@.len(),
                    lists(found@, self.edges(), id, Side::Incoming),
                    forall|b: int|
                        0 <= b < j && b != i ==> found@[i as int].link.input_slot != (
                        #[trigger] found@[b]).link.input_slot,
                decreases n - j,
            {
                if j != i && found[j].link.input_slot == found[i].link.input_slot {
                    proof {
                        let a = found@[i as int].id;
                        let b = found@[j as int].id;
                        assert(incoming(self.edges(), id).contains(a));
                        assert(incoming(self.edges(), id).contains(b));
                        assert(a != b);
                        assert(self.edges()[a].input_slot == self.edges()[b].input_slot);
                    }
                    return false;
                }
                j += 1;
            }
            i += 1;
        }
        proof {
            let edges = self.edges();
            assert forall|a: u32, b: u32|
                #![trigger edges[a], edges[b]]
                incoming(edges, id).contains(a) && incoming(edges, id).contains(b) && a
                    != b implies edges[a].input_slot != edges[b].input_slot by {
                assert(endpoint(edges[a], Side::Incoming) == id);
                assert(endpoint(edges[b], Side::Incoming) == id);
                let x = choose|x: int| 0 <= x < found@.len() && (#[trigger] found@[x]).id == a;
                let y = choose|y: int| 0 <= y < found@.len() && (#[trigger] found@[y]).id == b;
                assert(found@[x].link.input_slot != found@[y].link.input_slot);
            }
            assert forall|a: u32| incoming(edges, id).contains(a) implies (
            #[trigger] edges[a]).input_slot < incoming(edges, id).len() by {
                assert(endpoint(edges[a], Side::Incoming) == id);
                let x = choose|x: int| 0 <= x < found@.len() && (#[trigger] found@[x]).id == a;
                assert(found@[x].link.input_slot < n);
            }
        }
        true
    }

    /// Whether every node's inputs are fully and uniquely wired.
    pub fn is_fully_wired(&self) -> (r: bool)
        requires
            self.wf(),
        ensures
            r == self.is_wired(),
    {
        let ids = self.node_ids();
        let mut i: usize = 0;
        while i < ids.len()
            invariant
                self.wf(),
                i <= ids.len(),
                forall|id: u32| self.nodes().contains_key(id) <==> ids@.contains(id),
                forall|k: int| 0 <= k < i ==> wired(self.edges(), #[trigger] ids@[k]),
            decreases ids.len() - i,
        {
            if !self.node_is_wired(ids[i]) {
                proof {
                    assert(ids@.contains(ids@[i as int]));
                }
                return false;
            }
            i += 1;
        }
        proof {
            assert forall|id: u32| #[trigger] self.nodes().contains_key(id) implies wired(
                self.edges(),
                id,
            ) by {
                assert(ids@.contains(id));
                let k = choose|k: int| 0 <= k < ids@.len() && ids@[k] == id;
                assert(wired(self.edges(), ids@[k]));
            }
        }
        true
    }
    /// The edges that run from `producer` to `consumer`, each once.
    pub fn edges_between(&self, producer: u32, consumer: u32) -> (r: Vec<Edge>)
        requires
            self.wf(),
        ensures
            joins(r@, self.edges(), producer, consumer),
    {
        store_edges_between(&self.store, producer, consumer)
    }

    /// An edge from `producer` to input `slot` of `consumer`. Where there
    /// is none, the graph is not as the caller expects.
    pub fn find_feed(&self, producer: u32, consumer: u32, slot: u8) -> (r: Result<Edge, Fault>)
        requires
            self.wf(),
        ensures
            match r {
                Ok(e) => self.edges().contains_key(e.id) && self.edges()[e.id] == e.wire()
                    && e.source == producer && e.target == consumer && e.link.input_slot == slot,
                Err(fault) => fault == Fault::StructuralMismatch && forall|e: u32|
                    self.edges().contains_key(e) ==> !((#[trigger] self.edges()[e]).source
                        == producer && self.edges()[e].target == consumer
                        && self.edges()[e].input_slot == slot),
            },
    {
        let mut found = self.edges_between(producer, consumer);
        let ghost all = found@;
        while found.len() > 0
            invariant
                self.wf(),
                joins(all, self.edges(), producer, consumer),
                found@.len() <= all.len(),
                found@ == all.take(found@.len() as int),
                forall|i: int|
                    found@.len() <= i < all.len() ==> (#[trigger] all[i]).link.input_slot
                        != slot,
            decreases found.len(),
        {
            let ghost before = found@;
            let e = found.pop().unwrap();
            proof {
                assert(e == all[before.len() - 1]);
                assert(found@ =~= all.take(found@.len() as int));
            }
            if e.link.input_slot == slot {
                return Ok(e);
            }
        }
        proof {
            assert forall|e: u32| self.edges().contains_key(e) implies !((
            #[trigger] self.edges()[e]).source == producer && self.edges()[e].target == consumer
                && self.edges()[e].input_slot == slot) by {
                if self.edges()[e].source == producer && self.edges()[e].target == consumer {
                    let i = choose|i: int| 0 <= i < all.len() && (#[trigger] all[i]).id == e;
                    assert(all[i].wire() == self.edges()[e]);
                }
            }
        }
        Err(Fault::StructuralMismatch)
    }

    /// Moves the edges at one end of `from` over to `to`, one after the
    /// other: each is taken out and put in again with that end changed.
    fn reroute(&mut self, from: u32, to: u32, side: Side) -> (r: Vec<(u32, u32)>)
        requires
            old(self).wf(),
            old(self).nodes().contains_key(to),
            from != to,
        ensures
            final(self).wf(),
            final(self).nodes() == old(self).nodes(),
            moved(old(self).edges(), final(self).edges(), from, to, side, r@),
            ends(final(self).edges(), from, side) =~= Set::empty(),
            side == Side::Outgoing ==> forall|x: u32|
                wired(old(self).edges(), x) ==> #[trigger] wired(final(self).edges(), x),
    {
        let found = self.edges_of(from, side);
        let ghost before = self.edges();
        let mut moves: Vec<(u32, u32)> = Vec::new();
        let mut k: usize = 0;
        while k < found.len()
            invariant
                k <= found@.len(),
                moves@.len() == k,
                self.wf(),
                self.nodes() == old(self).nodes(),
                self.nodes().contains_key(to),
                from != to,
                before == old(self).edges(),
                lists(found@, before, from, side),
                forall|j: int| 0 <= j < k ==> (#[trigger] moves@[j]).0 == found@[j].id,
                forall|j: int|
                    k <= j < found@.len() ==> self.edges().contains_key((#[trigger] found@[j]).id)
                        && self.edges()[found@[j].id] == found@[j].wire(),
                forall|j: int|
                    0 <= j < k ==> self.edges().contains_key((#[trigger] moves@[j]).1)
                        && self.edges()[moves@[j].1] == rerouted(found@[j].wire(), side, to),
                forall|i: int, j: int|
                    0 <= i < j < k ==> (#[trigger] moves@[i]).1 != (#[trigger] moves@[j]).1,
                forall|e: u32|
                    before.contains_key(e) && endpoint(#[trigger] before[e], side) != from
                        ==> self.edges().contains_key(e) && self.edges()[e] == before[e],
                forall|e: u32| #[trigger]
                    self.edges().contains_key(e) ==> (before.contains_key(e) && endpoint(
                        before[e],
                        side,
                    ) != from) || (exists|i: int| 0 <= i < k && (#[trigger] moves@[i]).1 == e) || (
                    exists|i: int| k <= i < found@.len() && (#[trigger] found@[i]).id == e),
                self.edges().dom().len() == before.dom().len(),
                side == Side::Outgoing ==> forall|x: u32|
                    wired(before, x) ==> #[trigger] wired(self.edges(), x),
            decreases found@.len() - k,
        {
            let e = &found[k];
            let ghost now = self.edges();
            let ghost w = rerouted(e.wire(), side, to);
            let link = e.link.dup();
            let source = match side {
                Side::Incoming => e.source,
                Side::Outgoing => to,
            };
            let target = match side {
                Side::Incoming => to,
                Side::Outgoing => e.target,
            };
            assert(now.contains_key(e.id) && now[e.id] == e.wire());
            assert(self.nodes().contains_key(e.source) && self.nodes().contains_key(e.target));
            store_remove_edge(&mut self.store, e.id);
            let fresh = store_add_edge(&mut self.store, source, target, link);
            proof {
                assert(link.between(source, target) == w);
                assert(self.edges() == now.remove(e.id).insert(fresh, w));
                if side == Side::Outgoing {
                    lemma_swap_keeps_wired(now, e.id, fresh, w);
                }
            }
            let ghost earlier = moves@;
            moves.push((e.id, fresh));
            proof {
                assert forall|j: int| k < j < found@.len() implies self.edges().contains_key(
                    (#[trigger] found@[j]).id,
                ) && self.edges()[found@[j].id] == found@[j].wire() by {
                    assert(found@[k as int].id != found@[j].id);
                    assert(now.contains_key(found@[j].id));
                }
                assert forall|j: int| 0 <= j < k + 1 implies self.edges().contains_key(
                    (#[trigger] moves@[j]).1,
                ) && self.edges()[moves@[j].1] == rerouted(found@[j].wire(), side, to) by {
                    if j < k {
                        assert(moves@[j] == earlier[j]);
                        assert(now.contains_key(earlier[j].1));
                        assert(now[earlier[j].1] == rerouted(found@[j].wire(), side, to));
                        assert(endpoint(now[earlier[j].1], side) == to);
                        assert(endpoint(now[e.id], side) == from);
                    }
                }
                assert forall|i: int, j: int| 0 <= i < j < k + 1 implies (#[trigger] moves@[i]).1
                    != (#[trigger] moves@[j]).1 by {
                    assert(moves@[i] == earlier[i]);
                    if j < k {
                        assert(moves@[j] == earlier[j]);
                    } else {
                        assert(now.contains_key(earlier[i].1));
                        assert(endpoint(now[earlier[i].1], side) == to);
                    }
                }
                assert forall|x: u32|
                    before.contains_key(x) && endpoint(#[trigger] before[x], side)
                        != from implies self.edges().contains_key(x) && self.edges()[x]
                    == before[x] by {
                    assert(now.contains_key(x) && now[x] == before[x]);
                }
                assert forall|x: u32| #[trigger] self.edges().contains_key(x) implies (
                before.contains_key(x) && endpoint(before[x], side) != from) || (exists|i: int|
                    0 <= i < k + 1 && (#[trigger] moves@[i]).1 == x) || (exists|i: int|
                    k + 1 <= i < found@.len() && (#[trigger] found@[i]).id == x) by {
                    if x == fresh {
                        assert(moves@[k as int].1 == x);
                    } else {
                        assert(now.contains_key(x));
                        if before.contains_key(x) && endpoint(before[x], side) != from {
                        } else if exists|i: int| 0 <= i < k && (#[trigger] earlier[i]).1 == x {
                            let i = choose|i: int| 0 <= i < k && (#[trigger] earlier[i]).1 == x;
                            assert(moves@[i].1 == x);
                        } else {
                            let i = choose|i: int|
                                k <= i < found@.len() && (#[trigger] found@[i]).id == x;
                            assert(i != k);
                        }
                    }
                }
                assert forall|j: int| 0 <= j < k + 1 implies (#[trigger] moves@[j]).0
                    == found@[j].id by {
                    if j < k {
                        assert(moves@[j] == earlier[j]);
                    }
                }
            }
            k += 1;
        }
        proof {
            let after = self.edges();
            assert forall|e: u32| ends(before, from, side).contains(e) <==> exists|i: int|
                0 <= i < moves@.len() && (#[trigger] moves@[i]).0 == e by {
                if ends(before, from, side).contains(e) {
                    assert(endpoint(before[e], side) == from);
                    let i = choose|i: int| 0 <= i < found@.len() && (#[trigger] found@[i]).id == e;
                    assert(moves@[i].0 == e);
                }
                if exists|i: int| 0 <= i < moves@.len() && (#[trigger] moves@[i]).0 == e {
                    let i = choose|i: int| 0 <= i < moves@.len() && (#[trigger] moves@[i]).0 == e;
                    assert(found@[i].id == e);
                }
            }
            assert forall|i: int| 0 <= i < moves@.len() implies after.contains_key(
                (#[trigger] moves@[i]).1,
            ) && after[moves@[i].1] == rerouted(before[moves@[i].0], side, to) by {
                assert(before[found@[i].id] == found@[i].wire());
            }
            assert forall|i: int, j: int| 0 <= i < j < moves@.len() implies (
            #[trigger] moves@[i]).0 != (#[trigger] moves@[j]).0 && moves@[i].1
                != moves@[j].1 by {
                assert(found@[i].id != found@[j].id);
            }
            assert forall|e: u32| !ends(after, from, side).contains(e) by {
                if after.contains_key(e) {
                    if before.contains_key(e) && endpoint(before[e], side) != from {
                    } else {
                        let i = choose|i: int|
                            0 <= i < moves@.len() && (#[trigger] moves@[i]).1 == e;
                        assert(after[moves@[i].1] == rerouted(found@[i].wire(), side, to));
                    }
                }
            }
        }
        moves
    }

    /// Reroutes every edge that `from` consumes so that `to` consumes it
    /// instead, at the same input slot and with producer, output slot and
    /// view as before; afterwards `from` consumes nothing. The result holds
    /// for each rerouted edge its old and its new number. Where `to` is no
    /// node of the graph nothing changes.
    pub fn move_incoming_edges(&mut self, from: u32, to: u32) -> (r: Result<
        Vec<(u32, u32)>,
        Fault,
    >)
        requires
            old(self).wf(),
        ensures
            final(self).wf(),
            final(self).nodes() == old(self).nodes(),
            match r {
                Ok(moves) => {
                    &&& old(self).nodes().contains_key(to)
                    &&& from != to ==> moved(
                        old(self).edges(),
                        final(self).edges(),
                        from,
                        to,
                        Side::Incoming,
                        moves@,
                    ) && incoming(final(self).edges(), from) =~= Set::empty()
                    &&& from == to ==> moves@.len() == 0 && final(self).edges() == old(self).edges()
                },
                Err(e) => {
                    &&& e == Fault::StructuralMismatch
                    &&& !old(self).nodes().contains_key(to)
                    &&& final(self).edges() == old(self).edges()
                },
            },
    {
        if !self.contains(to) {
            return Err(Fault::StructuralMismatch);
        }
        if from == to {
            return Ok(Vec::new());
        }
        Ok(self.reroute(from, to, Side::Incoming))
    }

    /// Reroutes every edge that `from` produces so that it comes from `to`
    /// instead, with consumer, slots and view as before; afterwards nothing
    /// consumes `from`, and every node that was wired still is. The result
    /// holds for each rerouted edge its old and its new number. Where `to`
    /// is no node of the graph nothing changes.
    pub fn move_outgoing_edges(&mut self, from: u32, to: u32) -> (r: Result<
        Vec<(u32, u32)>,
        Fault,
    >)
        requires
            old(self).wf(),
        ensures
            final(self).wf(),
            final(self).nodes() == old(self).nodes(),
            forall|x: u32|
                wired(old(self).edges(), x) ==> #[trigger] wired(final(self).edges(), x),
            match r {
                Ok(moves) => {
                    &&& old(self).nodes().contains_key(to)
                    &&& from != to ==> moved(
                        old(self).edges(),
                        final(self).edges(),
                        from,
                        to,
                        Side::Outgoing,
                        moves@,
                    ) && outgoing(final(self).edges(), from) =~= Set::empty()
                    &&& from == to ==> moves@.len() == 0 && final(self).edges() == old(self).edges()
                },
                Err(e) => {
                    &&& e == Fault::StructuralMismatch
                    &&& !old(self).nodes().contains_key(to)
                    &&& final(self).edges() == old(self).edges()
                },
            },
    {
        if !self.contains(to) {
            return Err(Fault::StructuralMismatch);
        }
        if from == to {
            return Ok(Vec::new());
        }
        Ok(self.reroute(from, to, Side::Outgoing))
    }
}

} // verus!
