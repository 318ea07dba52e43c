use vstd::prelude::*;
use crate::axis::Axis;
use crate::view::ShapeView;

verus! {

/// The two ends of an edge, seen from a node.
#[derive(Clone, Copy, Debug, PartialEq, Eq, Hash, Structural)]
pub enum Side {
    /// The node consumes what the edge carries.
    Incoming,
    /// The node produces what the edge carries.
    Outgoing,
}

/// What an edge carries: which output of the producer it takes, which input
/// of the consumer it feeds, and how the consumer sees the buffer.
#[derive(Debug, PartialEq, Eq, Hash)]
pub struct Link {
    pub output_slot: u8,
    pub input_slot: u8,
    pub view: ShapeView,
}

/// An edge as the contracts speak of it: its two ends and what it carries,
/// the view by its axes.
pub struct Wire {
    pub source: u32,
    pub target: u32,
    pub output_slot: u8,
    pub input_slot: u8,
    pub view: Seq<Axis>,
}

/// An edge as read out of the graph.
#[derive(Debug, PartialEq, Eq, Hash)]
pub struct Edge {
    pub id: u32,
    pub source: u32,
    pub target: u32,
    pub link: Link,
}

/// The end of a wire on the given side: its target for an incoming edge,
/// its source for an outgoing one.
pub open spec fn endpoint(w: Wire, side: Side) -> u32 {
    match side {
        Side::Incoming => w.target,
        Side::Outgoing => w.source,
    }
}

/// The wire with its end on the given side moved to `to`.
pub open spec fn rerouted(w: Wire, side: Side, to: u32) -> Wire {
    match side {
        Side::Incoming => Wire { target: to, ..w },
        Side::Outgoing => Wire { source: to, ..w },
    }
}

impl Link {
    /// The wire from `source` to `target` that carries this link.
    pub open spec fn between(&self, source: u32, target: u32) -> Wire {
        Wire {
            source,
            target,
            output_slot: self.output_slot,
            input_slot: self.input_slot,
            view: self.view@,
        }
    }

    /// A copy of the link.
    pub fn dup(&self) -> (r: Link)
        ensures
            r.output_slot == self.output_slot,
            r.input_slot == self.input_slot,
            r.view@ == self.view@,
    {
        Link { output_slot: self.output_slot, input_slot: self.input_slot, view: self.view.dup() }
    }
}

impl Edge {
    /// The edge as the contracts speak of it.
    pub open spec fn wire(&self) -> Wire {
        self.link.between(self.source, self.target)
    }
}

} // verus!
