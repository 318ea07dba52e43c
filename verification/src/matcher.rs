use vstd::prelude::*;
use crate::edge::{Side, Wire, endpoint};
use crate::graph::{Graph, lemma_sink_keeps_wired, outgoing, sound, wired};
use crate::node::Op;
use crate::pattern::{Pattern, PatternNode, agrees, is_match, matches_at};
use crate::store::{detached, lists};

verus! {

/// Where a search stands.
#[derive(Clone, Copy, Debug, PartialEq, Eq, Hash, Structural)]
pub enum MatcherState {
    /// The list of candidates is in use, and no occurrence is at hand.
    Searching,
    /// The last step found an occurrence, which is at hand.
    ProducedMatch,
    /// Nothing is cached: the next step lists the graph's nodes anew.
    Invalidated,
}

/// Whether `id` is in the list.
pub fn listed(ids: &Vec<u32>, id: u32) -> (r: bool)
    ensures
        r == ids@.contains(id),
{
    let mut k: usize = 0;
    while k < ids.len()
        invariant
            k <= ids.len(),
            forall|i: int| 0 <= i < k ==> ids@[i] != id,
        decreases ids.len() - k,
    {
        if ids[k] == id {
            return true;
        }
        k += 1;
    }
    false
}

/// Whether some pattern node is bound to graph node `id`.
pub open spec fn held(binding: Seq<Option<u32>>, id: u32) -> bool {
    exists|q: int| 0 <= q < binding.len() && #[trigger] binding[q] == Some(id)
}

/// Whether the graph nodes bound to the pattern nodes in `chosen` may go:
/// each of these pattern nodes is bound, to a node that is not pinned, and
/// every edge out of that node ends in a node of the occurrence.
pub open spec fn deletable(
    edges: Map<u32, Wire>,
    binding: Seq<Option<u32>>,
    pinned: Seq<u32>,
    chosen: Seq<usize>,
) -> bool {
    forall|i: int|
        0 <= i < chosen.len() ==> {
            &&& (#[trigger] chosen[i]) < binding.len()
            &&& binding[chosen[i] as int] is Some
            &&& !pinned.contains(binding[chosen[i] as int].unwrap())
            &&& forall|e: u32|
                edges.contains_key(e) && (#[trigger] edges[e]).source == binding[chosen[i] as int].unwrap()
                    ==> held(binding, edges[e].target)
        }
}

/// The graph without node `id`, if `id` is a node that nothing consumes;
/// the graph as it is otherwise.
pub open spec fn drop_sink(nodes: Map<u32, Op>, edges: Map<u32, Wire>, id: u32) -> (
    Map<u32, Op>,
    Map<u32, Wire>,
) {
    if nodes.contains_key(id) && outgoing(edges, id).len() == 0 {
        (nodes.remove(id), detached(edges, id))
    } else {
        (nodes, edges)
    }
}

/// What is left of the graph after the last `k` pattern nodes have been
/// gone through from the root down, and each graph node that is bound to
/// one of them, is not pinned and has no consumer at that moment has been
/// taken away.
pub open spec fn swept(
    nodes: Map<u32, Op>,
    edges: Map<u32, Wire>,
    binding: Seq<Option<u32>>,
    pinned: Seq<u32>,
    k: nat,
) -> (Map<u32, Op>, Map<u32, Wire>)
    decreases k,
{
    if k == 0 || k > binding.len() {
        (nodes, edges)
    } else {
        let prev = swept(nodes, edges, binding, pinned, (k - 1) as nat);
        match binding[binding.len() - k] {
            Some(id) => if pinned.contains(id) {
                prev
            } else {
                drop_sink(prev.0, prev.1, id)
            },
            None => prev,
        }
    }
}

/// Taking a node away leaves a sound graph.
pub proof fn lemma_detach_sound(nodes: Map<u32, Op>, edges: Map<u32, Wire>, id: u32)
    requires
        sound(nodes, edges),
    ensures
        sound(nodes.remove(id), detached(edges, id)),
        detached(edges, id).dom().len() <= edges.dom().len(),
        nodes.remove(id).dom().len() <= nodes.dom().len(),
{
    vstd::set_lib::lemma_len_subset(detached(edges, id).dom(), edges.dom());
    vstd::set_lib::lemma_len_subset(nodes.remove(id).dom(), nodes.dom());
}

/// What the sweep keeps: the graph stays sound and only shrinks; what goes
/// is bound and not pinned; an edge into a node outside the occurrence
/// stays, and so does its producer; every node that was wired still is.
pub proof fn lemma_swept(
    nodes: Map<u32, Op>,
    edges: Map<u32, Wire>,
    binding: Seq<Option<u32>>,
    pinned: Seq<u32>,
    k: nat,
)
    requires
        sound(nodes, edges),
        k <= binding.len(),
    ensures
        ({
            let after = swept(nodes, edges, binding, pinned, k);
            &&& sound(after.0, after.1)
            &&& after.0.dom().len() <= nodes.dom().len()
            &&& after.1.dom().len() <= edges.dom().len()
            &&& forall|id: u32| #[trigger]
                after.0.contains_key(id) ==> nodes.contains_key(id) && after.0[id] == nodes[id]
            &&& forall|e: u32| #[trigger]
                after.1.contains_key(e) ==> edges.contains_key(e) && after.1[e] == edges[e]
            &&& forall|id: u32|
                nodes.contains_key(id) && !(#[trigger] after.0.contains_key(id)) ==> held(
                    binding,
                    id,
                ) && !pinned.contains(id)
            &&& forall|e: u32|
                edges.contains_key(e) && !held(binding, (#[trigger] edges[e]).target)
                    ==> after.1.contains_key(e) && after.0.contains_key(edges[e].source)
            &&& forall|x: u32|
                after.0.contains_key(x) && wired(edges, x) ==> #[trigger] wired(after.1, x)
            &&& k >= 1 && binding[binding.len() - 1] is Some && !pinned.contains(
                binding[binding.len() - 1].unwrap(),
            ) && outgoing(edges, binding[binding.len() - 1].unwrap()).len() == 0
                ==> !after.0.contains_key(binding[binding.len() - 1].unwrap())
        }),
    decreases k,
{
    if k > 0 {
        lemma_swept(nodes, edges, binding, pinned, (k - 1) as nat);
        let prev = swept(nodes, edges, binding, pinned, (k - 1) as nat);
        let after = swept(nodes, edges, binding, pinned, k);
        let q = binding.len() - k;
        if binding[q] is Some && !pinned.contains(binding[q].unwrap()) {
            let id = binding[q].unwrap();
            assert(held(binding, id));
            if prev.0.contains_key(id) && outgoing(prev.1, id).len() == 0 {
                lemma_detach_sound(prev.0, prev.1, id);
                vstd::set_lib::lemma_len_subset(outgoing(prev.1, id), prev.1.dom());
                assert(outgoing(prev.1, id) =~= Set::empty()) by {
                    if exists|e: u32| outgoing(prev.1, id).contains(e) {
                        let e = choose|e: u32| outgoing(prev.1, id).contains(e);
                        assert(outgoing(prev.1, id).remove(e).len() + 1 == outgoing(
                            prev.1,
                            id,
                        ).len());
                    }
                }
                lemma_sink_keeps_wired(prev.1, id);
                assert forall|e: u32|
                    edges.contains_key(e) && !held(
                        binding,
                        (#[trigger] edges[e]).target,
                    ) implies after.1.contains_key(e) && after.0.contains_key(
                    edges[e].source,
                ) by {
                    assert(prev.1.contains_key(e));
                    assert(prev.1[e] == edges[e]);
                    if edges[e].source == id {
                        assert(outgoing(prev.1, id).contains(e));
                    }
                }
                assert forall|x: u32|
                    after.0.contains_key(x) && wired(edges, x) implies #[trigger] wired(
                    after.1,
                    x,
                ) by {
                    assert(wired(prev.1, x));
                }
            }
        }
        if k == 1 {
            assert(prev == (nodes, edges));
        }
    }
}

/// A search for the occurrences of one pattern in a graph. The search
/// keeps the list of nodes that it still has to try; a caller that changes
/// the graph invalidates the search before it goes on.
pub struct Matcher {
    pattern: Pattern,
    state: MatcherState,
    candidates: Vec<u32>,
    cursor: usize,
    current: Vec<Option<u32>>,
    seen: Ghost<(Map<u32, Op>, Map<u32, Wire>)>,
}

proof fn lemma_rising_bound(ids: Seq<u32>, k: int)
    requires
        forall|i: int, j: int| 0 <= i < j < ids.len() ==> ids[i] < ids[j],
        0 <= k < ids.len(),
    ensures
        k <= ids[k],
    decreases k,
{
    if k > 0 {
        lemma_rising_bound(ids, k - 1);
    }
}

impl Matcher {
    /// The pattern that is searched for.
    pub closed spec fn pattern(&self) -> Seq<PatternNode> {
        self.pattern@
    }

    /// Where the search stands.
    pub closed spec fn state(&self) -> MatcherState {
        self.state
    }

    /// The nodes that the search goes through, as listed when the search
    /// last looked at the whole graph.
    pub closed spec fn candidates(&self) -> Seq<u32> {
        self.candidates@
    }

    /// How many of the candidates have been tried.
    pub closed spec fn cursor(&self) -> int {
        self.cursor as int
    }

    /// The nodes of the graph against which the candidates were listed.
    pub closed spec fn seen_nodes(&self) -> Map<u32, Op> {
        self.seen@.0
    }

    /// The edges of the graph against which the candidates were listed.
    pub closed spec fn seen_edges(&self) -> Map<u32, Wire> {
        self.seen@.1
    }

    /// The occurrence at hand: for each pattern node the graph node it
    /// stands for. Empty where no occurrence is at hand.
    pub closed spec fn binding(&self) -> Seq<Option<u32>> {
        if self.state is ProducedMatch {
            self.current@
        } else {
            Seq::empty()
        }
    }

    /// What holds of every search.
    pub open spec fn wf(&self) -> bool {
        &&& 0 <= self.cursor() <= self.candidates().len()
        &&& self.state() is ProducedMatch ==> {
            &&& self.cursor() > 0
            &&& self.pattern().len() > 0
            &&& self.binding().len() == self.pattern().len()
            &&& self.binding()[self.pattern().len() - 1] == Some(
                self.candidates()[self.cursor() - 1],
            )
        }
        &&& !(self.state() is ProducedMatch) ==> self.binding().len() == 0
        &&& !(self.state() is Invalidated) ==> {
            &&& self.candidates().len() <= u32::MAX + 1
            &&& forall|i: int, j: int|
                0 <= i < j < self.candidates().len() ==> self.candidates()[i]
                    < self.candidates()[j]
            &&& forall|id: u32|
                self.seen_nodes().contains_key(id) <==> self.candidates().contains(id)
        }
    }

    /// Whether the candidates were listed against the graph as it is now.
    pub open spec fn in_step_with(&self, graph: &Graph) -> bool {
        &&& !(self.state() is Invalidated)
        &&& self.seen_nodes() == graph.nodes()
        &&& self.seen_edges() == graph.edges()
    }

    /// The number of candidates that a search in this state has yet to try,
    /// at most.
    pub open spec fn budget(&self) -> int {
        if self.state() is Invalidated {
            u32::MAX + 2
        } else {
            self.candidates().len() - self.cursor()
        }
    }

    /// A search for `pattern` that has not looked at any graph yet.
    pub fn new(pattern: Pattern) -> (r: Matcher)
        ensures
            r.wf(),
            r.state() is Invalidated,
            r.pattern() == pattern@,
    {
        Matcher {
            pattern,
            state: MatcherState::Invalidated,
            candidates: Vec::new(),
            cursor: 0,
            current: Vec::new(),
            seen: Ghost((Map::empty(), Map::empty())),
        }
    }

    /// Where the search stands.
    pub fn status(&self) -> (r: MatcherState)
        ensures
            r == self.state(),
    {
        self.state
    }

    /// Drops what the search has cached. To be called after every change
    /// to the graph, before the search goes on.
    pub fn invalidate(&mut self)
        requires
            old(self).wf(),
        ensures
            final(self).wf(),
            final(self).state() is Invalidated,
            final(self).pattern() == old(self).pattern(),
    {
        self.state = MatcherState::Invalidated;
        self.cursor = 0;
        self.candidates = Vec::new();
        self.current = Vec::new();
    }

    /// Goes on to the next occurrence of the pattern and says whether there
    /// is one. An invalidated search first lists the graph's nodes; any
    /// other goes on in the list it has. The candidates from where the
    /// search stood up to the one it stops at hold no occurrence.
    pub fn next_match(&mut self, graph: &Graph) -> (r: bool)
        requires
            old(self).wf(),
            graph.wf(),
        ensures
            final(self).wf(),
            final(self).pattern() == old(self).pattern(),
            old(self).state() is Invalidated ==> final(self).in_step_with(graph),
            !(old(self).state() is Invalidated) ==> {
                &&& final(self).candidates() == old(self).candidates()
                &&& final(self).seen_nodes() == old(self).seen_nodes()
                &&& final(self).seen_edges() == old(self).seen_edges()
                &&& old(self).cursor() <= final(self).cursor()
            },
            final(self).budget() <= old(self).budget(),
            r ==> final(self).budget() < old(self).budget(),
            forall|j: int|
                (if old(self).state() is Invalidated {
                    0
                } else {
                    old(self).cursor()
                }) <= j < final(self).cursor() - (if r {
                    1int
                } else {
                    0int
                }) ==> !matches_at(
                    final(self).pattern(),
                    graph.nodes(),
                    graph.edges(),
                    #[trigger] final(self).candidates()[j],
                ),
            r ==> {
                &&& final(self).state() is ProducedMatch
                &&& is_match(
                    final(self).pattern(),
                    graph.nodes(),
                    graph.edges(),
                    final(self).binding(),
                )
                &&& forall|other: Seq<Option<u32>>| #[trigger]
                    is_match(final(self).pattern(), graph.nodes(), graph.edges(), other)
                        && other.last() == final(self).binding().last() ==> agrees(
                        other,
                        final(self).binding(),
                    )
            },
            !r ==> final(self).state() is Searching && final(self).cursor() == final(self).candidates().len(),
    {
        if let MatcherState::Invalidated = self.state {
            self.candidates = graph.node_ids();
            self.cursor = 0;
            self.seen = Ghost((graph.nodes(), graph.edges()));
            proof {
                if self.candidates@.len() > 0 {
                    lemma_rising_bound(self.candidates@, self.candidates@.len() - 1);
                }
            }
        }
        self.state = MatcherState::Searching;
        self.current = Vec::new();
        let ghost start = self.cursor as int;
        while self.cursor < self.candidates.len()
            invariant
                graph.wf(),
                old(self).wf(),
                self.pattern@ == old(self).pattern(),
                start <= self.cursor <= self.candidates@.len(),
                old(self).state() is Invalidated ==> start == 0 && self.seen@.0 == graph.nodes()
                    && self.seen@.1 == graph.edges(),
                !(old(self).state() is Invalidated) ==> start == old(self).cursor()
                    && self.candidates@ == old(self).candidates() && self.seen@ == old(
                    self,
                ).seen@,
                self.state is Searching,
                self.current@.len() == 0,
                self.candidates@.len() <= u32::MAX + 1,
                forall|i: int, j: int|
                    0 <= i < j < self.candidates@.len() ==> self.candidates@[i]
                        < self.candidates@[j],
                forall|id: u32| self.seen@.0.contains_key(id) <==> self.candidates@.contains(id),
                forall|j: int|
                    start <= j < self.cursor ==> !matches_at(
                        self.pattern@,
                        graph.nodes(),
                        graph.edges(),
                        #[trigger] self.candidates@[j],
                    ),
            decreases self.candidates@.len() - self.cursor,
        {
            let root = self.candidates[self.cursor];
            self.cursor += 1;
            match self.pattern.match_at(graph, root) {
                Some(b) => {
                    self.current = b;
                    self.state = MatcherState::ProducedMatch;
                    return true;
                },
                None => {},
            }
        }
        false
    }

    /// The graph node that pattern node `p` stands for in the occurrence
    /// at hand.
    pub fn resolve(&self, p: usize) -> (r: Option<u32>)
        ensures
            r == (if p < self.binding().len() {
                self.binding()[p as int]
            } else {
                None
            }),
    {
        match self.state {
            MatcherState::ProducedMatch => {
                if p < self.current.len() {
                    self.current[p]
                } else {
                    None
                }
            },
            _ => None,
        }
    }

    fn holds(&self, id: u32) -> (r: bool)
        ensures
            r == held(self.binding(), id),
    {
        match self.state {
            MatcherState::ProducedMatch => {},
            _ => {
                return false;
            },
        }
        let mut q: usize = 0;
        while q < self.current.len()
            invariant
                q <= self.current@.len(),
                self.state is ProducedMatch,
                forall|i: int| 0 <= i < q ==> self.current@[i] != Some(id),
            decreases self.current@.len() - q,
        {
            match self.current[q] {
                Some(x) => {
                    if x == id {
                        return true;
                    }
                },
                None => {},
            }
            q += 1;
        }
        false
    }

    /// Whether, in the occurrence at hand, the graph nodes that the pattern
    /// nodes in `chosen` stand for may go: none of them is pinned, and none
    /// has a consumer outside the occurrence.
    pub fn can_delete(&self, graph: &Graph, pinned: &Vec<u32>, chosen: &Vec<usize>) -> (r: bool)
        requires
            graph.wf(),
        ensures
            r == deletable(graph.edges(), self.binding(), pinned@, chosen@),
    {
        let mut i: usize = 0;
        while i < chosen.len()
            invariant
                graph.wf(),
                i <= chosen@.len(),
                deletable(graph.edges(), self.binding(), pinned@, chosen@.take(i as int)),
            decreases chosen@.len() - i,
        {
            let ghost edges = graph.edges();
            let ghost binding = self.binding();
            let id = match self.resolve(chosen[i]) {
                None => {
                    return false;
                },
                Some(id) => id,
            };
            if listed(pinned, id) {
                return false;
            }
            let outs = graph.edges_of(id, Side::Outgoing);
            let mut k: usize = 0;
            while k < outs.len()
                invariant
                    k <= outs@.len(),
                    edges == graph.edges(),
                    binding == self.binding(),
                    lists(outs@, edges, id, Side::Outgoing),
                    forall|j: int| 0 <= j < k ==> held(binding, (#[trigger] outs@[j]).target),
                    i < chosen@.len(),
                    chosen@[i as int] < binding.len(),
                    binding[chosen@[i as int] as int] == Some(id),
                decreases outs@.len() - k,
            {
                if !self.holds(outs[k].target) {
                    proof {
                        let e = outs@[k as int].id;
                        assert(edges[e] == outs@[k as int].wire());
                        assert(edges.contains_key(e) && edges[e].source == id);
                    }
                    return false;
                }
                k += 1;
            }
            proof {
                assert forall|e: u32|
                    edges.contains_key(e) && (#[trigger] edges[e]).source == id implies held(
                    binding,
                    edges[e].target,
                ) by {
                    assert(endpoint(edges[e], Side::Outgoing) == id);
                    let j = choose|j: int| 0 <= j < outs@.len() && (#[trigger] outs@[j]).id == e;
                    assert(outs@[j].wire() == edges[e]);
                }
                let next = chosen@.take(i as int + 1);
                assert forall|j: int| 0 <= j < next.len() implies {
                    &&& (#[trigger] next[j]) < binding.len()
                    &&& binding[next[j] as int] is Some
                    &&& !pinned@.contains(binding[next[j] as int].unwrap())
                    &&& forall|e: u32|
                        edges.contains_key(e) && (#[trigger] edges[e]).source
                            == binding[next[j] as int].unwrap() ==> held(binding, edges[e].target)
                } by {
                    if j < i {
                        assert(next[j] == chosen@.take(i as int)[j]);
                    }
                }
            }
            i += 1;
        }
        proof {
            assert(chosen@.take(i as int) =~= chosen@);
        }
        true
    }

    /// Takes away what is left of the occurrence at hand once a rewrite has
    /// rerouted its edges: from the root down, every bound graph node that
    /// is not pinned and has no consumer left. The search is invalidated.
    pub fn delete_matched(&mut self, graph: &mut Graph, pinned: &Vec<u32>)
        requires
            old(self).wf(),
            old(graph).wf(),
        ensures
            final(self).wf(),
            final(self).state() is Invalidated,
            final(self).pattern() == old(self).pattern(),
            final(graph).wf(),
            (final(graph).nodes(), final(graph).edges()) == swept(
                old(graph).nodes(),
                old(graph).edges(),
                old(self).binding(),
                pinned@,
                old(self).binding().len(),
            ),
    {
        let ghost binding = self.binding();
        let ghost nodes = graph.nodes();
        let ghost edges = graph.edges();
        let n = match self.state {
            MatcherState::ProducedMatch => self.current.len(),
            _ => 0,
        };
        let mut k: usize = 0;
        while k < n
            invariant
                k <= n,
                n == binding.len(),
                binding == self.binding(),
                n > 0 ==> self.state is ProducedMatch && self.current@ == binding,
                graph.wf(),
                sound(nodes, edges),
                (graph.nodes(), graph.edges()) == swept(nodes, edges, binding, pinned@, k as nat),
            decreases n - k,
        {
            proof {
                lemma_swept(nodes, edges, binding, pinned@, k as nat);
            }
            match self.current[n - 1 - k] {
                Some(id) => {
                    if !listed(pinned, id) {
                        graph.safe_remove_node(id, 0);
                    }
                },
                None => {},
            }
            k += 1;
        }
        self.invalidate();
    }
}

} // verus!
