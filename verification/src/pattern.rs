use vstd::prelude::*;
use crate::edge::{Edge, Side, Wire};
use crate::graph::{Graph, incoming};
use crate::node::{Op, OpKind, kind_of};
use crate::store::lists;

verus! {

/// One node of a pattern. The numbers in `Unary` and `Binary` name earlier
/// nodes of the same pattern.
#[derive(Clone, Copy, Debug, PartialEq, Eq, Hash, Structural)]
pub enum PatternNode {
    /// Any one node.
    Any,
    /// A constant node with this literal.
    Constant(u32),
    /// A node of this operator type, whatever feeds it.
    Leaf(OpKind),
    /// A node of this operator type whose single input comes from the node
    /// that the named pattern node stands for.
    Unary(OpKind, usize),
    /// A node of this operator type with two inputs: the first from the
    /// node that the first named pattern node stands for, the second from
    /// that of the second.
    Binary(OpKind, usize, usize),
}

/// A template graph: a list of pattern nodes, each of which may name
/// earlier ones as its inputs. The last node is the root. A pattern node
/// that is named twice stands for one and the same graph node.
#[derive(Debug, PartialEq, Eq, Hash)]
pub struct Pattern {
    nodes: Vec<PatternNode>,
}

impl View for Pattern {
    type V = Seq<PatternNode>;

    closed spec fn view(&self) -> Seq<PatternNode> {
        self.nodes@
    }
}

/// Whether a graph node with operator `op` may stand for pattern node `p`.
pub open spec fn node_fits(p: PatternNode, op: Op) -> bool {
    match p {
        PatternNode::Any => true,
        PatternNode::Constant(bits) => op == Op::Constant(bits),
        PatternNode::Leaf(kind) => kind_of(op) == kind,
        PatternNode::Unary(kind, _) => kind_of(op) == kind,
        PatternNode::Binary(kind, _, _) => kind_of(op) == kind,
    }
}

/// Whether some edge runs from `producer` to input `slot` of `consumer`.
pub open spec fn feeds(edges: Map<u32, Wire>, producer: u32, consumer: u32, slot: u8) -> bool {
    exists|e: u32|
        edges.contains_key(e) && (#[trigger] edges[e]).target == consumer && edges[e].input_slot
            == slot && edges[e].source == producer
}

/// Whether graph node `n`, standing for pattern node `p`, is fed as the
/// pattern asks: it has as many inputs as the pattern node names, and each
/// comes, at its slot, from the graph node that the named pattern node is
/// bound to.
pub open spec fn inputs_fit(
    pattern: Seq<PatternNode>,
    p: int,
    n: u32,
    binding: Seq<Option<u32>>,
    edges: Map<u32, Wire>,
) -> bool {
    match pattern[p] {
        PatternNode::Unary(_, c) => {
            &&& c < p
            &&& incoming(edges, n).len() == 1
            &&& binding[c as int] is Some
            &&& feeds(edges, binding[c as int].unwrap(), n, 0)
        },
        PatternNode::Binary(_, c, d) => {
            &&& c < p
            &&& d < p
            &&& incoming(edges, n).len() == 2
            &&& binding[c as int] is Some
            &&& feeds(edges, binding[c as int].unwrap(), n, 0)
            &&& binding[d as int] is Some
            &&& feeds(edges, binding[d as int].unwrap(), n, 1)
        },
        _ => true,
    }
}

/// Whether what `binding` says of pattern node `p` holds in the graph.
pub open spec fn settled(
    pattern: Seq<PatternNode>,
    nodes: Map<u32, Op>,
    edges: Map<u32, Wire>,
    binding: Seq<Option<u32>>,
    p: int,
) -> bool {
    binding[p] is Some ==> {
        &&& nodes.contains_key(binding[p].unwrap())
        &&& node_fits(pattern[p], nodes[binding[p].unwrap()])
        &&& inputs_fit(pattern, p, binding[p].unwrap(), binding, edges)
    }
}

/// Whether `binding` is an occurrence of the pattern in the graph: the
/// root is bound, and every bound pattern node is bound to a graph node of
/// the right operator (or literal) that is fed as the pattern asks.
pub open spec fn is_match(
    pattern: Seq<PatternNode>,
    nodes: Map<u32, Op>,
    edges: Map<u32, Wire>,
    binding: Seq<Option<u32>>,
) -> bool {
    &&& pattern.len() > 0
    &&& binding.len() == pattern.len()
    &&& binding[pattern.len() - 1] is Some
    &&& forall|p: int| 0 <= p < pattern.len() ==> #[trigger] settled(pattern, nodes, edges, binding, p)
}

/// Whether the pattern occurs in the graph with its root at `root`.
pub open spec fn matches_at(
    pattern: Seq<PatternNode>,
    nodes: Map<u32, Op>,
    edges: Map<u32, Wire>,
    root: u32,
) -> bool {
    exists|b: Seq<Option<u32>>| #[trigger]
        is_match(pattern, nodes, edges, b) && b[pattern.len() - 1] == Some(root)
}

/// Whether `b` says of every pattern node that `partial` binds what
/// `partial` says.
pub open spec fn agrees(b: Seq<Option<u32>>, partial: Seq<Option<u32>>) -> bool {
    &&& b.len() == partial.len()
    &&& forall|q: int| 0 <= q < partial.len() && (#[trigger] partial[q]) is Some ==> b[q] == partial[q]
}

/// Whether `after` keeps what `before` binds, and binds beyond it only
/// pattern nodes before `p`.
pub open spec fn grows(before: Seq<Option<u32>>, after: Seq<Option<u32>>, p: int) -> bool {
    &&& after.len() == before.len()
    &&& forall|q: int| 0 <= q < before.len() && (#[trigger] before[q]) is Some ==> after[q] == before[q]
    &&& forall|q: int| p <= q < before.len() ==> #[trigger] after[q] == before[q]
}

proof fn lemma_found_feed(found: Seq<Edge>, edges: Map<u32, Wire>, n: u32, slot: u8, m: u32)
    requires
        lists(found, edges, n, Side::Incoming),
        feeds(edges, m, n, slot),
    ensures
        exists|i: int|
            0 <= i < found.len() && (#[trigger] found[i]).link.input_slot == slot
                && found[i].source == m,
{
    let e = choose|e: u32|
        edges.contains_key(e) && (#[trigger] edges[e]).target == n && edges[e].input_slot == slot
            && edges[e].source == m;
    let i = choose|i: int| 0 <= i < found.len() && (#[trigger] found[i]).id == e;
    assert(found[i].wire() == edges[e]);
}

fn fits(p: PatternNode, op: Op) -> (r: bool)
    ensures
        r == node_fits(p, op),
{
    match p {
        PatternNode::Any => true,
        PatternNode::Constant(bits) => match op {
            Op::Constant(found) => found == bits,
            _ => false,
        },
        PatternNode::Leaf(kind) => op.kind() == kind,
        PatternNode::Unary(kind, _) => op.kind() == kind,
        PatternNode::Binary(kind, _, _) => op.kind() == kind,
    }
}

fn bind(binding: &mut Vec<Option<u32>>, c: usize, m: u32) -> (ok: bool)
    requires
        c < old(binding)@.len(),
    ensures
        ok ==> {
            &&& final(binding)@ == old(binding)@.update(c as int, Some(m))
            &&& old(binding)@[c as int] is None || old(binding)@[c as int] == Some(m)
        },
        !ok ==> {
            &&& final(binding)@ == old(binding)@
            &&& old(binding)@[c as int] is Some
            &&& old(binding)@[c as int] != Some(m)
        },
{
    match binding[c] {
        None => {
            binding.set(c, Some(m));
            true
        },
        Some(x) => {
            if x == m {
                proof {
                    assert(binding@ =~= binding@.update(c as int, Some(m)));
                }
                true
            } else {
                false
            }
        },
    }
}

impl Pattern {
    /// The pattern without nodes.
    pub fn new() -> (r: Pattern)
        ensures
            r@ == Seq::<PatternNode>::empty(),
    {
        Pattern { nodes: Vec::new() }
    }

    /// The number of pattern nodes.
    pub fn len(&self) -> (r: usize)
        ensures
            r == self@.len(),
    {
        self.nodes.len()
    }

    /// Pattern node `p`.
    pub fn node(&self, p: usize) -> (r: Option<PatternNode>)
        ensures
            r == (if p < self@.len() {
                Some(self@[p as int])
            } else {
                None
            }),
    {
        if p < self.nodes.len() {
            Some(self.nodes[p])
        } else {
            None
        }
    }

    /// A copy of the pattern.
    pub fn dup(&self) -> (r: Pattern)
        ensures
            r@ == self@,
    {
        let mut v: Vec<PatternNode> = Vec::new();
        let mut k: usize = 0;
        while k < self.nodes.len()
            invariant
                k <= self.nodes.len(),
                v@ == self.nodes@.take(k as int),
            decreases self.nodes.len() - k,
        {
            v.push(self.nodes[k]);
            proof {
                assert(self.nodes@.take(k as int + 1) =~= self.nodes@.take(k as int).push(
                    self.nodes@[k as int],
                ));
            }
            k += 1;
        }
        proof {
            assert(self.nodes@.take(k as int) =~= self.nodes@);
        }
        Pattern { nodes: v }
    }

    /// Adds a node that stands for any one graph node, and returns its
    /// number.
    pub fn any(&mut self) -> (r: usize)
        ensures
            r == old(self)@.len(),
            final(self)@ == old(self)@.push(PatternNode::Any),
    {
        self.nodes.push(PatternNode::Any);
        self.nodes.len() - 1
    }

    /// Adds a node that stands for a constant with the literal `bits`, and
    /// returns its number.
    pub fn constant(&mut self, bits: u32) -> (r: usize)
        ensures
            r == old(self)@.len(),
            final(self)@ == old(self)@.push(PatternNode::Constant(bits)),
    {
        self.nodes.push(PatternNode::Constant(bits));
        self.nodes.len() - 1
    }

    /// Adds a node that stands for a graph node of type `kind`, whatever
    /// feeds it, and returns its number.
    pub fn op(&mut self, kind: OpKind) -> (r: usize)
        ensures
            r == old(self)@.len(),
            final(self)@ == old(self)@.push(PatternNode::Leaf(kind)),
    {
        self.nodes.push(PatternNode::Leaf(kind));
        self.nodes.len() - 1
    }

    /// Adds a node that stands for a graph node of type `kind` whose single
    /// input is what pattern node `input` stands for, and returns its
    /// number. Where `input` is no node of the pattern, nothing is added.
    pub fn unary(&mut self, kind: OpKind, input: usize) -> (r: Option<usize>)
        ensures
            input < old(self)@.len() ==> r == Some(old(self)@.len() as usize) && final(self)@
                == old(self)@.push(PatternNode::Unary(kind, input)),
            input >= old(self)@.len() ==> r is None && final(self)@ == old(self)@,
    {
        if input >= self.nodes.len() {
            return None;
        }
        self.nodes.push(PatternNode::Unary(kind, input));
        Some(self.nodes.len() - 1)
    }

    /// Adds a node that stands for a graph node of type `kind` whose first
    /// input is what pattern node `first` stands for and whose second is
    /// what `second` stands for, and returns its number. Where one of the
    /// two is no node of the pattern, nothing is added.
    pub fn binary(&mut self, kind: OpKind, first: usize, second: usize) -> (r: Option<usize>)
        ensures
            first < old(self)@.len() && second < old(self)@.len() ==> r == Some(
                old(self)@.len() as usize,
            ) && final(self)@ == old(self)@.push(PatternNode::Binary(kind, first, second)),
            first >= old(self)@.len() || second >= old(self)@.len() ==> r is None && final(self)@
                == old(self)@,
    {
        if first >= self.nodes.len() || second >= self.nodes.len() {
            return None;
        }
        self.nodes.push(PatternNode::Binary(kind, first, second));
        Some(self.nodes.len() - 1)
    }

    /// Settles pattern node `p`: checks the graph node it is bound to, and
    /// binds the pattern nodes that it names to the producers of that
    /// node's inputs.
    fn step(&self, graph: &Graph, p: usize, binding: &mut Vec<Option<u32>>) -> (ok: bool)
        requires
            graph.wf(),
            p < self@.len(),
            old(binding)@.len() == self@.len(),
        ensures
            final(binding)@.len() == old(binding)@.len(),
            ok ==> grows(old(binding)@, final(binding)@, p as int) && settled(
                self@,
                graph.nodes(),
                graph.edges(),
                final(binding)@,
                p as int,
            ),
            ok ==> forall|b: Seq<Option<u32>>| #[trigger]
                is_match(self@, graph.nodes(), graph.edges(), b) && agrees(b, old(binding)@)
                    ==> agrees(b, final(binding)@),
            !ok ==> forall|b: Seq<Option<u32>>| #[trigger]
                is_match(self@, graph.nodes(), graph.edges(), b) ==> !agrees(b, old(binding)@),
    {
        let ghost start = binding@;
        let ghost nodes = graph.nodes();
        let ghost edges = graph.edges();
        let n = match binding[p] {
            None => {
                return true;
            },
            Some(n) => n,
        };
        let node = self.nodes[p];
        let fitting = match graph.op_of(n) {
            None => false,
            Some(op) => fits(node, op),
        };
        if !fitting {
            proof {
                assert forall|b: Seq<Option<u32>>| #[trigger]
                    is_match(self@, nodes, edges, b) implies !agrees(b, start) by {
                    if agrees(b, start) {
                        assert(start[p as int] is Some);
                        assert(settled(self@, nodes, edges, b, p as int));
                    }
                }
            }
            return false;
        }
        match node {
            PatternNode::Unary(_, c) => {
                let found = graph.edges_of(n, Side::Incoming);
                let usable = c < p && found.len() == 1 && found[0].link.input_slot == 0;
                let joined = if usable {
                    bind(binding, c, found[0].source)
                } else {
                    false
                };
                proof {
                    if joined {
                        assert(edges[found@[0].id] == found@[0].wire());
                        assert(feeds(edges, found@[0].source, n, 0));
                    }
                    assert forall|b: Seq<Option<u32>>| #[trigger]
                        is_match(self@, nodes, edges, b) && agrees(b, start) implies joined
                        && agrees(b, binding@) by {
                        assert(start[p as int] is Some);
                        assert(settled(self@, nodes, edges, b, p as int));
                        lemma_found_feed(found@, edges, n, 0, b[c as int].unwrap());
                    }
                }
                joined
            },
            PatternNode::Binary(_, c, d) => {
                let found = graph.edges_of(n, Side::Incoming);
                let usable = c < p && d < p && found.len() == 2;
                let straight = usable && found[0].link.input_slot == 0 && found[1].link.input_slot
                    == 1;
                let crossed = usable && found[0].link.input_slot == 1 && found[1].link.input_slot
                    == 0;
                let joined = if straight {
                    bind(binding, c, found[0].source) && bind(binding, d, found[1].source)
                } else if crossed {
                    bind(binding, c, found[1].source) && bind(binding, d, found[0].source)
                } else {
                    false
                };
                proof {
                    if joined {
                        assert(edges[found@[0].id] == found@[0].wire());
                        assert(edges[found@[1].id] == found@[1].wire());
                        if straight {
                            assert(feeds(edges, found@[0].source, n, 0));
                            assert(feeds(edges, found@[1].source, n, 1));
                        } else {
                            assert(feeds(edges, found@[1].source, n, 0));
                            assert(feeds(edges, found@[0].source, n, 1));
                        }
                    }
                    assert forall|b: Seq<Option<u32>>| #[trigger]
                        is_match(self@, nodes, edges, b) && agrees(b, start) implies joined
                        && agrees(b, binding@) by {
                        assert(start[p as int] is Some);
                        assert(settled(self@, nodes, edges, b, p as int));
                        lemma_found_feed(found@, edges, n, 0, b[c as int].unwrap());
                        lemma_found_feed(found@, edges, n, 1, b[d as int].unwrap());
                    }
                }
                joined
            },
            _ => true,
        }
    }

    /// The occurrence of the pattern with its root at graph node `root`,
    /// if there is one: for each pattern node the graph node it stands for,
    /// or `None` for a pattern node that the root does not reach.
    pub fn match_at(&self, graph: &Graph, root: u32) -> (r: Option<Vec<Option<u32>>>)
        requires
            graph.wf(),
        ensures
            match r {
                Some(b) => {
                    &&& is_match(self@, graph.nodes(), graph.edges(), b@)
                    &&& b@[self@.len() - 1] == Some(root)
                    &&& forall|other: Seq<Option<u32>>| #[trigger]
                        is_match(self@, graph.nodes(), graph.edges(), other) && other[self@.len()
                            - 1] == Some(root) ==> agrees(other, b@)
                },
                None => !matches_at(self@, graph.nodes(), graph.edges(), root),
            },
    {
        let n = self.nodes.len();
        if n == 0 {
            return None;
        }
        let ghost nodes = graph.nodes();
        let ghost edges = graph.edges();
        let mut binding: Vec<Option<u32>> = Vec::new();
        while binding.len() < n
            invariant
                binding@.len() <= n,
                forall|q: int| 0 <= q < binding@.len() ==> (#[trigger] binding@[q]) is None,
            decreases n - binding@.len(),
        {
            binding.push(None);
        }
        binding.set(n - 1, Some(root));
        let mut p: usize = n;
        while p > 0
            invariant
                graph.wf(),
                nodes == graph.nodes(),
                edges == graph.edges(),
                n == self@.len(),
                n > 0,
                p <= n,
                binding@.len() == n,
                binding@[n - 1] == Some(root),
                forall|q: int| p <= q < n ==> #[trigger] settled(self@, nodes, edges, binding@, q),
                forall|b: Seq<Option<u32>>| #[trigger]
                    is_match(self@, nodes, edges, b) && b[n - 1] == Some(root) ==> agrees(
                        b,
                        binding@,
                    ),
            decreases p,
        {
            p -= 1;
            let ghost before = binding@;
            if !self.step(graph, p, &mut binding) {
                proof {
                    assert forall|b: Seq<Option<u32>>| #[trigger]
                        is_match(self@, nodes, edges, b) implies b[n - 1] != Some(root) by {
                        if b[n - 1] == Some(root) {
                            assert(agrees(b, before));
                        }
                    }
                }
                return None;
            }
            proof {
                assert forall|q: int| p <= q < n implies #[trigger] settled(
                    self@,
                    nodes,
                    edges,
                    binding@,
                    q,
                ) by {
                    if q > p {
                        assert(settled(self@, nodes, edges, before, q));
                        assert(binding@[q] == before[q]);
                        if before[q] is Some {
                            match self@[q] {
                                PatternNode::Unary(_, c) => {
                                    assert(before[c as int] is Some);
                                },
                                PatternNode::Binary(_, c, d) => {
                                    assert(before[c as int] is Some);
                                    assert(before[d as int] is Some);
                                },
                                _ => {},
                            }
                        }
                    }
                }
            }
        }
        Some(binding)
    }
}

} // verus!
