use vstd::prelude::*;
use crate::axis::{Axis, Extent, is_contiguous};
use crate::edge::{Edge, Side, Wire, endpoint};
use crate::fault::Fault;
use crate::graph::{
    Graph, fully_wired, incoming, lemma_wire_keeps_wired, moved, outgoing, sound, wired,
};
use crate::matcher::{Matcher, deletable, held, lemma_swept, listed, swept};
use crate::node::{Op, OpKind, kind_of};
use crate::pattern::{Pattern, PatternNode, agrees, feeds, is_match, matches_at, settled};
use crate::store::lists;
use crate::view::ShapeView;

verus! {

/// The literal one, as the bit pattern of its IEEE 754 binary32 form.
pub const ONE: u32 = 0x3F80_0000;

/// The literal minus one, as the bit pattern of its IEEE 754 binary32 form.
pub const NEGATIVE_ONE: u32 = 0xBF80_0000;

/// The idioms that the passes of this crate fuse into one node.
#[derive(Clone, Copy, Debug, PartialEq, Eq, Hash, Structural)]
pub enum Fusion {
    /// `a + (b * -1)` becomes `a - b`.
    Subtraction,
    /// `1 - ((a < b) + (b < a))` becomes `a == b`.
    Equality,
    /// The sum over `(arange == index) * table` becomes a lookup of the
    /// rows of `table` by `index`.
    Gather,
}

/// The nodes of the graph that have an operator of the given type.
pub open spec fn of_kind(nodes: Map<u32, Op>, kind: OpKind) -> Set<u32> {
    Set::new(|id: u32| nodes.contains_key(id) && kind_of(nodes[id]) == kind)
}

/// One input of a pattern node: the pattern node that consumes, the input
/// slot, and the pattern node that produces.
pub struct Feed {
    pub consumer: usize,
    pub slot: u8,
    pub producer: usize,
}

/// The record of one rewrite: the edges of the idiom that feed the fused
/// node and that decide on the rewrite, the two new edges into the fused
/// node, and how the edges out of the root were rerouted.
pub struct Rewrite {
    pub first: u32,
    pub second: u32,
    pub gate: u32,
    pub input0: u32,
    pub input1: u32,
    pub rerouted: Map<u32, Wire>,
    pub moves: Seq<(u32, u32)>,
}

impl Fusion {
    /// The pattern of the idiom. Its last node is the root.
    pub open spec fn template(self) -> Seq<PatternNode> {
        match self {
            Fusion::Subtraction => seq![
                PatternNode::Any,
                PatternNode::Any,
                PatternNode::Constant(NEGATIVE_ONE),
                PatternNode::Binary(OpKind::Mul, 1, 2),
                PatternNode::Binary(OpKind::Add, 0, 3),
            ],
            Fusion::Equality => seq![
                PatternNode::Constant(ONE),
                PatternNode::Any,
                PatternNode::Any,
                PatternNode::Binary(OpKind::LessThan, 1, 2),
                PatternNode::Binary(OpKind::LessThan, 2, 1),
                PatternNode::Binary(OpKind::Add, 3, 4),
                PatternNode::Binary(OpKind::Sub, 0, 5),
            ],
            Fusion::Gather => seq![
                PatternNode::Leaf(OpKind::ARange),
                PatternNode::Any,
                PatternNode::Binary(OpKind::Equal, 0, 1),
                PatternNode::Any,
                PatternNode::Binary(OpKind::Mul, 2, 3),
                PatternNode::Unary(OpKind::SumReduce, 4),
            ],
        }
    }

    /// The pattern node of the root.
    pub open spec fn root(self) -> int {
        self.template().len() - 1
    }

    /// The operator type of the root, which a rewrite takes away.
    pub open spec fn root_kind(self) -> OpKind {
        match self {
            Fusion::Subtraction => OpKind::Add,
            Fusion::Equality => OpKind::Sub,
            Fusion::Gather => OpKind::SumReduce,
        }
    }

    /// The operator type of the node that a rewrite puts in.
    pub open spec fn fused_kind(self) -> OpKind {
        match self {
            Fusion::Subtraction => OpKind::Sub,
            Fusion::Equality => OpKind::Equal,
            Fusion::Gather => OpKind::Gather,
        }
    }

    /// The pattern nodes inside the idiom whose results nothing else may
    /// consume if the idiom is to be rewritten.
    pub open spec fn interior(self) -> Seq<usize> {
        match self {
            Fusion::Subtraction => seq![3usize],
            Fusion::Equality => seq![3usize, 4usize, 5usize],
            Fusion::Gather => seq![2usize, 4usize],
        }
    }

    /// The edge of the idiom that becomes the first input of the fused
    /// node.
    pub open spec fn first(self) -> Feed {
        match self {
            Fusion::Subtraction => Feed { consumer: 4, slot: 0, producer: 0 },
            Fusion::Equality => Feed { consumer: 3, slot: 0, producer: 1 },
            Fusion::Gather => Feed { consumer: 2, slot: 1, producer: 1 },
        }
    }

    /// The edge of the idiom that becomes the second input of the fused
    /// node.
    pub open spec fn second(self) -> Feed {
        match self {
            Fusion::Subtraction => Feed { consumer: 3, slot: 0, producer: 1 },
            Fusion::Equality => Feed { consumer: 3, slot: 1, producer: 2 },
            Fusion::Gather => Feed { consumer: 4, slot: 1, producer: 3 },
        }
    }

    /// The edge of the idiom whose view decides whether the idiom may be
    /// rewritten.
    pub open spec fn gate(self) -> Feed {
        match self {
            Fusion::Subtraction => Feed { consumer: 4, slot: 1, producer: 3 },
            Fusion::Equality => Feed { consumer: 3, slot: 0, producer: 1 },
            Fusion::Gather => Feed { consumer: 4, slot: 1, producer: 3 },
        }
    }

    /// What the rewrite asks of the view on the deciding edge: for the
    /// subtraction that it is contiguous, neither sliced nor padded; for the
    /// lookup that its last axis has a fixed size; for the equality nothing.
    pub open spec fn admits(self, view: Seq<Axis>) -> bool {
        match self {
            Fusion::Subtraction => is_contiguous(view),
            Fusion::Equality => true,
            Fusion::Gather => view.len() > 0 && view.last().size is Fixed,
        }
    }

    /// The operator of the fused node; the lookup takes the width of its
    /// rows from the length of the last axis of the view on the deciding
    /// edge.
    pub open spec fn fused(self, view: Seq<Axis>) -> Op {
        match self {
            Fusion::Subtraction => Op::Sub,
            Fusion::Equality => Op::Equal,
            Fusion::Gather => Op::Gather(view.last().len() as usize),
        }
    }

    /// Whether edge `e` is the edge of occurrence `b` that `feed` names.
    pub open spec fn feeding(edges: Map<u32, Wire>, b: Seq<Option<u32>>, feed: Feed, e: u32) -> bool {
        &&& edges.contains_key(e)
        &&& edges[e].target == b[feed.consumer as int].unwrap()
        &&& edges[e].input_slot == feed.slot
        &&& edges[e].source == b[feed.producer as int].unwrap()
    }

    /// Whether `b` is an occurrence of the idiom that may be rewritten: its
    /// root is not pinned, its interior may go, and the view on the deciding
    /// edge is as the rewrite asks.
    pub open spec fn fusable(
        self,
        nodes: Map<u32, Op>,
        edges: Map<u32, Wire>,
        b: Seq<Option<u32>>,
        pinned: Seq<u32>,
    ) -> bool {
        &&& is_match(self.template(), nodes, edges, b)
        &&& !pinned.contains(b[self.root()].unwrap())
        &&& deletable(edges, b, pinned, self.interior())
        &&& forall|e: u32|
            Self::feeding(edges, b, self.gate(), e) ==> self.admits((#[trigger] edges[e]).view)
    }

    /// Whether the idiom occurs with its root at `root` and may be
    /// rewritten there.
    pub open spec fn fusable_at(
        self,
        nodes: Map<u32, Op>,
        edges: Map<u32, Wire>,
        pinned: Seq<u32>,
        root: u32,
    ) -> bool {
        exists|b: Seq<Option<u32>>| #[trigger]
            self.fusable(nodes, edges, b, pinned) && b[self.root()] == Some(root)
    }

    /// Whether a rewrite may take away a node of this operator type: the
    /// types of the idiom's own operators.
    pub open spec fn may_go(self, kind: OpKind) -> bool {
        match self {
            Fusion::Subtraction => kind == OpKind::Add || kind == OpKind::Mul || kind
                == OpKind::Constant,
            Fusion::Equality => kind == OpKind::Sub || kind == OpKind::Add || kind
                == OpKind::LessThan || kind == OpKind::Constant,
            Fusion::Gather => kind == OpKind::SumReduce || kind == OpKind::Mul || kind
                == OpKind::Equal || kind == OpKind::ARange,
        }
    }

    /// The wire that feeds input `slot` of the fused node with what edge
    /// `e` of the idiom carried.
    pub open spec fn handed_on(edges: Map<u32, Wire>, e: u32, fused: u32, slot: u8) -> Wire {
        Wire {
            source: edges[e].source,
            target: fused,
            output_slot: edges[e].output_slot,
            input_slot: slot,
            view: edges[e].view,
        }
    }

    /// Whether one rewrite of occurrence `b` leads from the first graph to
    /// the second, by the steps that `how` records: a node `fused` is put
    /// in; it is fed what the two edges of the idiom carried; the edges out
    /// of the root are rerouted to come out of it; and what is left of the
    /// occurrence without a consumer is swept away from the root down.
    pub open spec fn follows(
        self,
        nodes: Map<u32, Op>,
        edges: Map<u32, Wire>,
        b: Seq<Option<u32>>,
        pinned: Seq<u32>,
        fused: u32,
        after_nodes: Map<u32, Op>,
        after_edges: Map<u32, Wire>,
        how: Rewrite,
    ) -> bool {
        let fed = edges.insert(how.input0, Self::handed_on(edges, how.first, fused, 0)).insert(
            how.input1,
            Self::handed_on(edges, how.second, fused, 1),
        );
        &&& Self::feeding(edges, b, self.first(), how.first)
        &&& Self::feeding(edges, b, self.second(), how.second)
        &&& Self::feeding(edges, b, self.gate(), how.gate)
        &&& !nodes.contains_key(fused)
        &&& !edges.contains_key(how.input0)
        &&& !edges.contains_key(how.input1)
        &&& how.input0 != how.input1
        &&& moved(fed, how.rerouted, b[self.root()].unwrap(), fused, Side::Outgoing, how.moves)
        &&& (after_nodes, after_edges) == swept(
            nodes.insert(fused, self.fused(edges[how.gate].view)),
            how.rerouted,
            b,
            pinned,
            b.len(),
        )
    }

    /// Whether one rewrite of occurrence `b`, which puts in node `fused`,
    /// leads from the first graph to the second.
    pub open spec fn rewritten(
        self,
        nodes: Map<u32, Op>,
        edges: Map<u32, Wire>,
        b: Seq<Option<u32>>,
        pinned: Seq<u32>,
        fused: u32,
        after_nodes: Map<u32, Op>,
        after_edges: Map<u32, Wire>,
    ) -> bool {
        exists|how: Rewrite| #[trigger]
            self.follows(nodes, edges, b, pinned, fused, after_nodes, after_edges, how)
    }

    /// Whether one rewrite of an occurrence that may be rewritten leads
    /// from the first graph to the second.
    pub open spec fn rewrites_to(
        self,
        nodes: Map<u32, Op>,
        edges: Map<u32, Wire>,
        pinned: Seq<u32>,
        after_nodes: Map<u32, Op>,
        after_edges: Map<u32, Wire>,
    ) -> bool {
        exists|b: Seq<Option<u32>>, fused: u32|
            self.fusable(nodes, edges, b, pinned) && #[trigger] self.rewritten(
                nodes,
                edges,
                b,
                pinned,
                fused,
                after_nodes,
                after_edges,
            )
    }

    /// Whether `k` rewrites, one after the other, lead from the first graph
    /// to the second.
    pub open spec fn reaches(
        self,
        nodes: Map<u32, Op>,
        edges: Map<u32, Wire>,
        pinned: Seq<u32>,
        after_nodes: Map<u32, Op>,
        after_edges: Map<u32, Wire>,
        k: nat,
    ) -> bool
        decreases k,
    {
        if k == 0 {
            after_nodes == nodes && after_edges == edges
        } else {
            exists|mid_nodes: Map<u32, Op>, mid_edges: Map<u32, Wire>|
                self.reaches(nodes, edges, pinned, mid_nodes, mid_edges, (k - 1) as nat)
                    && #[trigger] self.rewrites_to(
                    mid_nodes,
                    mid_edges,
                    pinned,
                    after_nodes,
                    after_edges,
                )
        }
    }

    /// The pattern of the idiom.
    pub fn pattern(self) -> (r: Pattern)
        ensures
            r@ == self.template(),
    {
        let mut p = Pattern::new();
        match self {
            Fusion::Subtraction => {
                let lhs = p.any();
                let rhs = p.any();
                let minus_one = p.constant(NEGATIVE_ONE);
                let mul = p.binary(OpKind::Mul, rhs, minus_one).unwrap();
                let _ = p.binary(OpKind::Add, lhs, mul);
            },
            Fusion::Equality => {
                let one = p.constant(ONE);
                let lhs = p.any();
                let rhs = p.any();
                let lt1 = p.binary(OpKind::LessThan, lhs, rhs).unwrap();
                let lt2 = p.binary(OpKind::LessThan, rhs, lhs).unwrap();
                let ne = p.binary(OpKind::Add, lt1, lt2).unwrap();
                let _ = p.binary(OpKind::Sub, one, ne);
            },
            Fusion::Gather => {
                let arange = p.op(OpKind::ARange);
                let index = p.any();
                let eq = p.binary(OpKind::Equal, arange, index).unwrap();
                let table = p.any();
                let mul = p.binary(OpKind::Mul, eq, table).unwrap();
                let _ = p.unary(OpKind::SumReduce, mul);
            },
        }
        proof {
            assert(p@ =~= self.template());
        }
        p
    }

    fn interior_list(self) -> (r: Vec<usize>)
        ensures
            r@ == self.interior(),
    {
        let mut v: Vec<usize> = Vec::new();
        match self {
            Fusion::Subtraction => {
                v.push(3);
            },
            Fusion::Equality => {
                v.push(3);
                v.push(4);
                v.push(5);
            },
            Fusion::Gather => {
                v.push(2);
                v.push(4);
            },
        }
        proof {
            assert(v@ =~= self.interior());
        }
        v
    }

    fn first_feed(self) -> (r: Feed)
        ensures
            r == self.first(),
    {
        match self {
            Fusion::Subtraction => Feed { consumer: 4, slot: 0, producer: 0 },
            Fusion::Equality => Feed { consumer: 3, slot: 0, producer: 1 },
            Fusion::Gather => Feed { consumer: 2, slot: 1, producer: 1 },
        }
    }

    fn second_feed(self) -> (r: Feed)
        ensures
            r == self.second(),
    {
        match self {
            Fusion::Subtraction => Feed { consumer: 3, slot: 0, producer: 1 },
            Fusion::Equality => Feed { consumer: 3, slot: 1, producer: 2 },
            Fusion::Gather => Feed { consumer: 4, slot: 1, producer: 3 },
        }
    }

    fn gate_feed(self) -> (r: Feed)
        ensures
            r == self.gate(),
    {
        match self {
            Fusion::Subtraction => Feed { consumer: 4, slot: 1, producer: 3 },
            Fusion::Equality => Feed { consumer: 3, slot: 0, producer: 1 },
            Fusion::Gather => Feed { consumer: 4, slot: 1, producer: 3 },
        }
    }

    fn root_index(self) -> (r: usize)
        ensures
            r == self.root(),
    {
        match self {
            Fusion::Subtraction => 4,
            Fusion::Equality => 6,
            Fusion::Gather => 5,
        }
    }

    fn accepts(self, view: &ShapeView) -> (r: bool)
        ensures
            r == self.admits(view@),
    {
        match self {
            Fusion::Subtraction => view.is_contiguous(),
            Fusion::Equality => true,
            Fusion::Gather => {
                let n = view.rank();
                if n == 0 {
                    false
                } else {
                    match view.axis(n - 1) {
                        Some(a) => match a.size {
                            Extent::Fixed(_) => true,
                            Extent::Symbol(_) => false,
                        },
                        None => false,
                    }
                }
            },
        }
    }

    fn fused_op(self, view: &ShapeView) -> (r: Op)
        requires
            self.admits(view@),
        ensures
            r == self.fused(view@),
    {
        match self {
            Fusion::Subtraction => Op::Sub,
            Fusion::Equality => Op::Equal,
            Fusion::Gather => {
                proof {
                    use_type_invariant(view);
                }
                let n = view.rank();
                match view.axis(n - 1) {
                    Some(a) => {
                        assert(a.wf());
                        Op::Gather(a.length())
                    },
                    None => Op::Gather(0),
                }
            },
        }
    }

    /// In an occurrence of the idiom every pattern node is bound, each edge
    /// that the rewrite uses exists, and the root has the root's type.
    pub proof fn lemma_occurrence(
        self,
        nodes: Map<u32, Op>,
        edges: Map<u32, Wire>,
        b: Seq<Option<u32>>,
    )
        requires
            is_match(self.template(), nodes, edges, b),
        ensures
            b.len() == self.template().len(),
            forall|q: int| 0 <= q < b.len() ==> (#[trigger] b[q]) is Some && nodes.contains_key(
                b[q].unwrap(),
            ),
            feeds(
                edges,
                b[self.first().producer as int].unwrap(),
                b[self.first().consumer as int].unwrap(),
                self.first().slot,
            ),
            feeds(
                edges,
                b[self.second().producer as int].unwrap(),
                b[self.second().consumer as int].unwrap(),
                self.second().slot,
            ),
            feeds(
                edges,
                b[self.gate().producer as int].unwrap(),
                b[self.gate().consumer as int].unwrap(),
                self.gate().slot,
            ),
            kind_of(nodes[b[self.root()].unwrap()]) == self.root_kind(),
            forall|other: Seq<Option<u32>>| agrees(other, b) ==> other =~= b,
            forall|q: int|
                0 <= q < b.len() ==> q == self.first().producer || q == self.second().producer
                    || self.may_go(kind_of(nodes[(#[trigger] b[q]).unwrap()])),
            self.may_go(self.root_kind()),
            !self.may_go(self.fused_kind()),
    {
        let t = self.template();
        assert(settled(t, nodes, edges, b, 0));
        assert(settled(t, nodes, edges, b, 1));
        assert(settled(t, nodes, edges, b, 2));
        assert(settled(t, nodes, edges, b, 3));
        assert(settled(t, nodes, edges, b, 4));
        match self {
            Fusion::Subtraction => {},
            Fusion::Equality => {
                assert(settled(t, nodes, edges, b, 5));
                assert(settled(t, nodes, edges, b, 6));
            },
            Fusion::Gather => {
                assert(settled(t, nodes, edges, b, 5));
            },
        }
    }
}

/// Whether the graph has room for what a pass may add: one node, and two
/// edges for every node of the type that the pass takes away.
pub open spec fn has_room(fusion: Fusion, nodes: Map<u32, Op>, edges: Map<u32, Wire>) -> bool {
    &&& nodes.dom().len() < u32::MAX
    &&& edges.dom().len() + 2 * of_kind(nodes, fusion.root_kind()).len() <= u32::MAX
}

/// What a pass leaves of a graph: a sound graph with room for another run,
/// wired if it was; every pinned node; every node that is no operator of
/// the idiom; besides the nodes it found only fused nodes; the result of
/// some number of rewrites, one after the other; no occurrence that may be
/// rewritten; and the graph as it was, if it held no such occurrence.
pub open spec fn compiled(
    fusion: Fusion,
    nodes: Map<u32, Op>,
    edges: Map<u32, Wire>,
    after_nodes: Map<u32, Op>,
    after_edges: Map<u32, Wire>,
    pinned: Seq<u32>,
) -> bool {
    &&& sound(after_nodes, after_edges)
    &&& has_room(fusion, after_nodes, after_edges)
    &&& fully_wired(nodes, edges) ==> fully_wired(after_nodes, after_edges)
    &&& forall|id: u32|
        pinned.contains(id) && #[trigger] nodes.contains_key(id) ==> after_nodes.contains_key(id)
            && after_nodes[id] == nodes[id]
    &&& forall|id: u32| #[trigger]
        after_nodes.contains_key(id) ==> (nodes.contains_key(id) && after_nodes[id] == nodes[id])
            || kind_of(after_nodes[id]) == fusion.fused_kind()
    &&& forall|id: u32| #[trigger]
        nodes.contains_key(id) && !fusion.may_go(kind_of(nodes[id])) ==> after_nodes.contains_key(
            id,
        ) && after_nodes[id] == nodes[id]
    &&& exists|k: nat| #[trigger] fusion.reaches(nodes, edges, pinned, after_nodes, after_edges, k)
    &&& forall|root: u32| !fusion.fusable_at(after_nodes, after_edges, pinned, root)
    &&& (forall|root: u32| !fusion.fusable_at(nodes, edges, pinned, root)) ==> after_nodes
        == nodes && after_edges == edges
}

/// No more nodes have one type than there are nodes.
pub proof fn lemma_kind_count_bound(nodes: Map<u32, Op>, kind: OpKind)
    requires
        nodes.dom().finite(),
    ensures
        of_kind(nodes, kind).finite(),
        of_kind(nodes, kind).len() <= nodes.dom().len(),
{
    vstd::set_lib::lemma_len_subset(of_kind(nodes, kind), nodes.dom());
}

/// A chain of rewrites and one more rewrite make a chain.
proof fn lemma_one_more(
    fusion: Fusion,
    nodes: Map<u32, Op>,
    edges: Map<u32, Wire>,
    pinned: Seq<u32>,
    mid_nodes: Map<u32, Op>,
    mid_edges: Map<u32, Wire>,
    after_nodes: Map<u32, Op>,
    after_edges: Map<u32, Wire>,
    k: nat,
)
    requires
        fusion.reaches(nodes, edges, pinned, mid_nodes, mid_edges, k),
        fusion.rewrites_to(mid_nodes, mid_edges, pinned, after_nodes, after_edges),
    ensures
        fusion.reaches(nodes, edges, pinned, after_nodes, after_edges, k + 1),
{
    let next = k + 1;
    assert((next - 1) as nat == k);
    assert(fusion.reaches(nodes, edges, pinned, mid_nodes, mid_edges, (next - 1) as nat));
}

/// A pass that has run finds nothing to do when it runs again: what the
/// second run leaves is what the first left.
pub proof fn lemma_second_run_changes_nothing(
    fusion: Fusion,
    nodes: Map<u32, Op>,
    edges: Map<u32, Wire>,
    once_nodes: Map<u32, Op>,
    once_edges: Map<u32, Wire>,
    twice_nodes: Map<u32, Op>,
    twice_edges: Map<u32, Wire>,
    pinned: Seq<u32>,
)
    requires
        compiled(fusion, nodes, edges, once_nodes, once_edges, pinned),
        compiled(fusion, once_nodes, once_edges, twice_nodes, twice_edges, pinned),
    ensures
        twice_nodes == once_nodes,
        twice_edges == once_edges,
{
}

/// An occurrence in which an interior node has a consumer outside the
/// occurrence is never one that may be rewritten.
pub proof fn lemma_shared_interior_is_kept(
    fusion: Fusion,
    nodes: Map<u32, Op>,
    edges: Map<u32, Wire>,
    b: Seq<Option<u32>>,
    pinned: Seq<u32>,
    i: int,
    e: u32,
)
    requires
        0 <= i < fusion.interior().len(),
        fusion.interior()[i] < b.len(),
        edges.contains_key(e),
        Some(edges[e].source) == b[fusion.interior()[i] as int],
        !held(b, edges[e].target),
    ensures
        !deletable(edges, b, pinned, fusion.interior()),
        !fusion.fusable(nodes, edges, b, pinned),
{
    if deletable(edges, b, pinned, fusion.interior()) {
        let q = fusion.interior()[i];
        assert(held(b, edges[e].target));
    }
}

fn gate_holds(fusion: Fusion, graph: &Graph, producer: u32, consumer: u32, slot: u8) -> (r: bool)
    requires
        graph.wf(),
    ensures
        r == (forall|e: u32|
            graph.edges().contains_key(e) && graph.edges()[e].target == consumer
                && graph.edges()[e].input_slot == slot && graph.edges()[e].source == producer
                ==> fusion.admits((#[trigger] graph.edges()[e]).view)),
{
    let found = graph.edges_of(consumer, Side::Incoming);
    let ghost edges = graph.edges();
    let mut k: usize = 0;
    while k < found.len()
        invariant
            k <= found@.len(),
            edges == graph.edges(),
            lists(found@, edges, consumer, Side::Incoming),
            forall|j: int|
                0 <= j < k && (#[trigger] found@[j]).link.input_slot == slot && found@[j].source
                    == producer ==> fusion.admits(found@[j].link.view@),
        decreases found@.len() - k,
    {
        let e = &found[k];
        if e.link.input_slot == slot && e.source == producer && !fusion.accepts(&e.link.view) {
            proof {
                assert(edges[e.id] == e.wire());
            }
            return false;
        }
        k += 1;
    }
    proof {
        assert forall|e: u32|
            edges.contains_key(e) && edges[e].target == consumer && edges[e].input_slot == slot
                && edges[e].source == producer implies fusion.admits((#[trigger] edges[e]).view) by {
            assert(endpoint(edges[e], Side::Incoming) == consumer);
            let j = choose|j: int| 0 <= j < found@.len() && (#[trigger] found@[j]).id == e;
            assert(found@[j].wire() == edges[e]);
        }
    }
    true
}

/// Whether the occurrence at hand may be rewritten.
fn ready(fusion: Fusion, graph: &Graph, m: &Matcher, pinned: &Vec<u32>, chosen: &Vec<usize>) -> (r:
    bool)
    requires
        graph.wf(),
        m.wf(),
        m.pattern() == fusion.template(),
        chosen@ == fusion.interior(),
        is_match(fusion.template(), graph.nodes(), graph.edges(), m.binding()),
    ensures
        r == fusion.fusable(graph.nodes(), graph.edges(), m.binding(), pinned@),
{
    proof {
        fusion.lemma_occurrence(graph.nodes(), graph.edges(), m.binding());
    }
    let root = m.resolve(fusion.root_index()).unwrap();
    if listed(pinned, root) {
        return false;
    }
    if !m.can_delete(graph, pinned, chosen) {
        return false;
    }
    let gate = fusion.gate_feed();
    let producer = m.resolve(gate.producer).unwrap();
    let consumer = m.resolve(gate.consumer).unwrap();
    gate_holds(fusion, graph, producer, consumer, gate.slot)
}

/// The edge of the occurrence at hand that `feed` names.
fn feed_edge(graph: &Graph, m: &Matcher, feed: Feed) -> (r: Result<Edge, Fault>)
    requires
        graph.wf(),
        feed.consumer < m.binding().len(),
        feed.producer < m.binding().len(),
        m.binding()[feed.consumer as int] is Some,
        m.binding()[feed.producer as int] is Some,
        feeds(
            graph.edges(),
            m.binding()[feed.producer as int].unwrap(),
            m.binding()[feed.consumer as int].unwrap(),
            feed.slot,
        ),
    ensures
        r is Ok,
        Fusion::feeding(graph.edges(), m.binding(), feed, r.unwrap().id),
        graph.edges()[r.unwrap().id] == r.unwrap().wire(),
{
    let producer = m.resolve(feed.producer).unwrap();
    let consumer = m.resolve(feed.consumer).unwrap();
    let r = graph.find_feed(producer, consumer, feed.slot);
    proof {
        if r is Err {
            let e = choose|e: u32|
                graph.edges().contains_key(e) && (#[trigger] graph.edges()[e]).target == consumer
                    && graph.edges()[e].input_slot == feed.slot && graph.edges()[e].source
                    == producer;
            assert(graph.edges().contains_key(e));
            assert(false);
        }
    }
    r
}

/// Rewrites the occurrence at hand: puts in the fused node, feeds it what
/// the idiom consumed, hands the root's consumers over to it, and takes
/// away what is left of the idiom without a consumer.
fn fuse(fusion: Fusion, graph: &mut Graph, m: &mut Matcher, pinned: &Vec<u32>) -> (r: u32)
    requires
        old(graph).wf(),
        old(m).wf(),
        old(m).pattern() == fusion.template(),
        fusion.fusable(old(graph).nodes(), old(graph).edges(), old(m).binding(), pinned@),
        old(graph).nodes().dom().len() < u32::MAX,
        old(graph).edges().dom().len() + 2 <= u32::MAX,
    ensures
        final(graph).wf(),
        final(m).wf(),
        final(m).state() is Invalidated,
        final(m).pattern() == old(m).pattern(),
        final(graph).nodes().dom().len() <= old(graph).nodes().dom().len(),
        final(graph).edges().dom().len() <= old(graph).edges().dom().len() + 2,
        of_kind(final(graph).nodes(), fusion.root_kind()).len() < of_kind(
            old(graph).nodes(),
            fusion.root_kind(),
        ).len(),
        fully_wired(old(graph).nodes(), old(graph).edges()) ==> fully_wired(
            final(graph).nodes(),
            final(graph).edges(),
        ),
        forall|id: u32|
            pinned@.contains(id) && #[trigger] old(graph).nodes().contains_key(id)
                ==> final(graph).nodes().contains_key(id) && final(graph).nodes()[id]
                == old(graph).nodes()[id],
        forall|id: u32| #[trigger]
            final(graph).nodes().contains_key(id) ==> (old(graph).nodes().contains_key(id)
                && final(graph).nodes()[id] == old(graph).nodes()[id]) || kind_of(
                final(graph).nodes()[id],
            ) == fusion.fused_kind(),
        forall|id: u32| #[trigger]
            old(graph).nodes().contains_key(id) && !fusion.may_go(
                kind_of(old(graph).nodes()[id]),
            ) ==> final(graph).nodes().contains_key(id) && final(graph).nodes()[id]
                == old(graph).nodes()[id],
        fusion.rewritten(
            old(graph).nodes(),
            old(graph).edges(),
            old(m).binding(),
            pinned@,
            r,
            final(graph).nodes(),
            final(graph).edges(),
        ),
{
    let ghost b = m.binding();
    let ghost n0 = graph.nodes();
    let ghost e0 = graph.edges();
    proof {
        fusion.lemma_occurrence(n0, e0, b);
    }
    let root = m.resolve(fusion.root_index()).unwrap();
    let a = feed_edge(graph, m, fusion.first_feed()).unwrap();
    let c = feed_edge(graph, m, fusion.second_feed()).unwrap();
    let g = feed_edge(graph, m, fusion.gate_feed()).unwrap();
    assert(fusion.admits(e0[g.id].view));
    let op = fusion.fused_op(&g.link.view);
    let fused = graph.add_node(op);
    proof {
        assert(incoming(e0, fused) =~= Set::empty()) by {
            assert forall|e: u32| !incoming(e0, fused).contains(e) by {
                if e0.contains_key(e) && e0[e].target == fused {
                    assert(n0.contains_key(e0[e].target));
                }
            }
        }
        assert(wired(e0, fused));
    }
    let ghost w1 = Wire {
        source: a.source,
        target: fused,
        output_slot: a.link.output_slot,
        input_slot: 0,
        view: a.link.view@,
    };
    let first = graph.wire(a.source, a.link.output_slot, fused, 0, a.link.view);
    assert(first is Ok);
    let ghost e1 = graph.edges();
    proof {
        lemma_wire_keeps_wired(e0, first.unwrap(), w1);
    }
    let ghost w2 = Wire {
        source: c.source,
        target: fused,
        output_slot: c.link.output_slot,
        input_slot: 1,
        view: c.link.view@,
    };
    let second = graph.wire(c.source, c.link.output_slot, fused, 1, c.link.view);
    assert(second is Ok);
    let ghost e2 = graph.edges();
    let ghost n2 = graph.nodes();
    proof {
        lemma_wire_keeps_wired(e1, second.unwrap(), w2);
    }
    let moves = graph.move_outgoing_edges(root, fused);
    assert(moves is Ok);
    let ghost e3 = graph.edges();
    proof {
        lemma_swept(n2, e3, b, pinned@, b.len());
        assert(outgoing(e3, root).len() == 0);
    }
    m.delete_matched(graph, pinned);
    proof {
        let n4 = graph.nodes();
        let kind = fusion.root_kind();
        let how = Rewrite {
            first: a.id,
            second: c.id,
            gate: g.id,
            input0: first.unwrap(),
            input1: second.unwrap(),
            rerouted: e3,
            moves: moves.unwrap()@,
        };
        assert(e2 == e0.insert(how.input0, Fusion::handed_on(e0, how.first, fused, 0)).insert(
            how.input1,
            Fusion::handed_on(e0, how.second, fused, 1),
        ));
        assert(fusion.follows(n0, e0, b, pinned@, fused, n4, graph.edges(), how));
        assert forall|id: u32| #[trigger]
            n0.contains_key(id) && !fusion.may_go(kind_of(n0[id])) implies n4.contains_key(id)
            && n4[id] == n0[id] by {
            assert(n2.contains_key(id) && n2[id] == n0[id]);
            if !n4.contains_key(id) {
                assert(held(b, id));
                let q = choose|q: int| 0 <= q < b.len() && #[trigger] b[q] == Some(id);
                assert(!held(b, fused)) by {
                    if held(b, fused) {
                        let x = choose|x: int| 0 <= x < b.len() && #[trigger] b[x] == Some(fused);
                        assert(n0.contains_key(b[x].unwrap()));
                    }
                }
                assert(id != root);
                if q == fusion.first().producer {
                    assert(e2.contains_key(how.input0));
                    assert(e2[how.input0].source == id);
                    assert(e3.contains_key(how.input0) && e3[how.input0] == e2[how.input0]);
                } else {
                    assert(q == fusion.second().producer);
                    assert(e2.contains_key(how.input1));
                    assert(e2[how.input1].source == id);
                    assert(e3.contains_key(how.input1) && e3[how.input1] == e2[how.input1]);
                }
            }
        }
        assert(!n4.contains_key(root));
        lemma_kind_count_bound(n0, kind);
        assert(of_kind(n4, kind).subset_of(of_kind(n0, kind).remove(root))) by {
            assert forall|id: u32| of_kind(n4, kind).contains(id) implies of_kind(
                n0,
                kind,
            ).remove(root).contains(id) by {
                assert(n2.contains_key(id) && n4[id] == n2[id]);
            }
        }
        assert(of_kind(n0, kind).contains(root));
        vstd::set_lib::lemma_len_subset(of_kind(n4, kind), of_kind(n0, kind).remove(root));
        assert(n4.dom().subset_of(n2.dom().remove(root)));
        vstd::set_lib::lemma_len_subset(n4.dom(), n2.dom().remove(root));
        if fully_wired(n0, e0) {
            assert forall|id: u32| #[trigger] n4.contains_key(id) implies wired(
                graph.edges(),
                id,
            ) by {
                assert(n2.contains_key(id));
                assert(wired(e0, id));
                assert(wired(e1, id));
                assert(wired(e2, id));
                assert(wired(e3, id));
            }
        }
    }
    fused
}

/// Rewrites occurrences of the idiom until none is left that may be
/// rewritten.
fn run(fusion: Fusion, graph: &mut Graph, pinned: &Vec<u32>)
    requires
        old(graph).wf(),
        has_room(fusion, old(graph).nodes(), old(graph).edges()),
    ensures
        final(graph).wf(),
        compiled(
            fusion,
            old(graph).nodes(),
            old(graph).edges(),
            final(graph).nodes(),
            final(graph).edges(),
            pinned@,
        ),
{
    let mut m = Matcher::new(fusion.pattern());
    let chosen = fusion.interior_list();
    let ghost n0 = graph.nodes();
    let ghost e0 = graph.edges();
    let ghost kind = fusion.root_kind();
    let mut done = false;
    let ghost steps: nat = 0;
    while !done
        invariant
            graph.wf(),
            fusion.reaches(n0, e0, pinned@, graph.nodes(), graph.edges(), steps),
            forall|id: u32| #[trigger]
                n0.contains_key(id) && !fusion.may_go(kind_of(n0[id]))
                    ==> graph.nodes().contains_key(id) && graph.nodes()[id] == n0[id],
            m.wf(),
            m.pattern() == fusion.template(),
            chosen@ == fusion.interior(),
            kind == fusion.root_kind(),
            n0 == old(graph).nodes(),
            e0 == old(graph).edges(),
            m.state() is Invalidated || m.in_step_with(graph),
            !(m.state() is Invalidated) ==> forall|j: int|
                0 <= j < m.cursor() ==> !fusion.fusable_at(
                    graph.nodes(),
                    graph.edges(),
                    pinned@,
                    #[trigger] m.candidates()[j],
                ),
            has_room(fusion, graph.nodes(), graph.edges()),
            fully_wired(n0, e0) ==> fully_wired(graph.nodes(), graph.edges()),
            forall|id: u32|
                pinned@.contains(id) && #[trigger] n0.contains_key(id)
                    ==> graph.nodes().contains_key(id) && graph.nodes()[id] == n0[id],
            forall|id: u32| #[trigger]
                graph.nodes().contains_key(id) ==> (n0.contains_key(id) && graph.nodes()[id]
                    == n0[id]) || kind_of(graph.nodes()[id]) == fusion.fused_kind(),
            (forall|root: u32| !fusion.fusable_at(n0, e0, pinned@, root)) ==> graph.nodes() == n0
                && graph.edges() == e0,
            done ==> forall|root: u32|
                !fusion.fusable_at(graph.nodes(), graph.edges(), pinned@, root),
        decreases
            (if done {
                0int
            } else {
                1int
            }),
            of_kind(graph.nodes(), kind).len(),
            m.budget(),
    {
        let ghost nodes = graph.nodes();
        let ghost edges = graph.edges();
        if !m.next_match(graph) {
            proof {
                assert forall|root: u32| !fusion.fusable_at(nodes, edges, pinned@, root) by {
                    if fusion.fusable_at(nodes, edges, pinned@, root) {
                        let b = choose|b: Seq<Option<u32>>| #[trigger]
                            fusion.fusable(nodes, edges, b, pinned@) && b[fusion.root()] == Some(
                                root,
                            );
                        fusion.lemma_occurrence(nodes, edges, b);
                        assert(nodes.contains_key(root));
                        assert(m.candidates().contains(root));
                        let j = choose|j: int|
                            0 <= j < m.candidates().len() && m.candidates()[j] == root;
                        assert(matches_at(fusion.template(), nodes, edges, m.candidates()[j]));
                    }
                }
            }
            done = true;
        } else {
            let ghost b = m.binding();
            proof {
                fusion.lemma_occurrence(nodes, edges, b);
                assert forall|j: int| 0 <= j < m.cursor() - 1 implies !fusion.fusable_at(
                    nodes,
                    edges,
                    pinned@,
                    #[trigger] m.candidates()[j],
                ) by {
                    let r = m.candidates()[j];
                    if fusion.fusable_at(nodes, edges, pinned@, r) {
                        let x = choose|x: Seq<Option<u32>>| #[trigger]
                            fusion.fusable(nodes, edges, x, pinned@) && x[fusion.root()] == Some(r);
                        assert(matches_at(fusion.template(), nodes, edges, r));
                    }
                }
            }
            if ready(fusion, graph, &m, pinned, &chosen) {
                proof {
                    assert(fusion.fusable_at(nodes, edges, pinned@, b[fusion.root()].unwrap()));
                    lemma_kind_count_bound(nodes, kind);
                    assert(of_kind(nodes, kind).contains(b[fusion.root()].unwrap()));
                    assert(of_kind(nodes, kind).len() >= 1) by {
                        let r = b[fusion.root()].unwrap();
                        assert(of_kind(nodes, kind).remove(r).len() + 1 == of_kind(
                            nodes,
                            kind,
                        ).len());
                    }
                }
                let fused = fuse(fusion, graph, &mut m, pinned);
                proof {
                    assert(fusion.rewritten(
                        nodes,
                        edges,
                        b,
                        pinned@,
                        fused,
                        graph.nodes(),
                        graph.edges(),
                    ));
                    assert(fusion.rewrites_to(nodes, edges, pinned@, graph.nodes(), graph.edges()));
                    assert(fusion.reaches(n0, e0, pinned@, nodes, edges, steps));
                    lemma_one_more(
                        fusion,
                        n0,
                        e0,
                        pinned@,
                        nodes,
                        edges,
                        graph.nodes(),
                        graph.edges(),
                        steps,
                    );
                    steps = steps + 1;
                }
            } else {
                proof {
                    let r = m.candidates()[m.cursor() - 1];
                    if fusion.fusable_at(nodes, edges, pinned@, r) {
                        let x = choose|x: Seq<Option<u32>>| #[trigger]
                            fusion.fusable(nodes, edges, x, pinned@) && x[fusion.root()] == Some(r);
                        assert(agrees(x, b));
                        assert(x =~= b);
                    }
                }
            }
        }
    }
}

/// The pass that folds `a + (b * -1)` into one subtraction.
#[derive(Clone, Copy, Debug, Default, PartialEq, Eq)]
pub struct SubtractionCompiler;

impl SubtractionCompiler {
    /// Rewrites every occurrence of the idiom that may be rewritten: the
    /// root is not pinned, the product is neither pinned nor consumed
    /// elsewhere, and the sum sees the product through a view that is
    /// contiguous, neither sliced nor padded. The nodes in `pinned` are
    /// never taken away.
    pub fn compile(&self, graph: &mut Graph, pinned: &Vec<u32>)
        requires
            old(graph).wf(),
            has_room(Fusion::Subtraction, old(graph).nodes(), old(graph).edges()),
        ensures
            final(graph).wf(),
            compiled(
                Fusion::Subtraction,
                old(graph).nodes(),
                old(graph).edges(),
                final(graph).nodes(),
                final(graph).edges(),
                pinned@,
            ),
    {
        run(Fusion::Subtraction, graph, pinned)
    }
}

/// The pass that folds `1 - ((a < b) + (b < a))` into one test for
/// equality.
#[derive(Clone, Copy, Debug, Default, PartialEq, Eq)]
pub struct EqualCompiler;

impl EqualCompiler {
    /// Rewrites every occurrence of the idiom that may be rewritten: the
    /// root is not pinned, and the two comparisons and their sum are
    /// neither pinned nor consumed elsewhere. The nodes in `pinned` are
    /// never taken away.
    pub fn compile(&self, graph: &mut Graph, pinned: &Vec<u32>)
        requires
            old(graph).wf(),
            has_room(Fusion::Equality, old(graph).nodes(), old(graph).edges()),
        ensures
            final(graph).wf(),
            compiled(
                Fusion::Equality,
                old(graph).nodes(),
                old(graph).edges(),
                final(graph).nodes(),
                final(graph).edges(),
                pinned@,
            ),
    {
        run(Fusion::Equality, graph, pinned)
    }
}

/// The pass that folds the sum over `(arange == index) * table` into one
/// lookup.
#[derive(Clone, Copy, Debug, Default, PartialEq, Eq)]
pub struct GatherCompiler;

impl GatherCompiler {
    /// Rewrites every occurrence of the idiom that may be rewritten: the
    /// root is not pinned, the comparison and the product are neither
    /// pinned nor consumed elsewhere, and the last axis of the view through
    /// which the product sees the table has a fixed size, which becomes
    /// the width of the lookup's rows. The nodes in `pinned` are never
    /// taken away.
    pub fn compile(&self, graph: &mut Graph, pinned: &Vec<u32>)
        requires
            old(graph).wf(),
            has_room(Fusion::Gather, old(graph).nodes(), old(graph).edges()),
        ensures
            final(graph).wf(),
            compiled(
                Fusion::Gather,
                old(graph).nodes(),
                old(graph).edges(),
                final(graph).nodes(),
                final(graph).edges(),
                pinned@,
            ),
    {
        run(Fusion::Gather, graph, pinned)
    }
}

} // verus!
