//! The runtime: the dependency graph, the value and invalidation state of each node, and the
//! single tracking scope that records reads while an effect body is evaluated.
use crate::graph::{
    graph_add_edge, graph_add_node, graph_dependents, graph_edge_count, graph_edges,
    graph_find_edge, graph_new, graph_node_count, graph_remove_edge,
    has_edge, DepGraph, MAX_INDEX,
};
use crate::value::Value;
use vstd::prelude::*;
use vstd::set_lib::{lemma_int_range, lemma_len_subset, set_int_range};

verus! {

/// The invalidation state of a node.
#[derive(Clone, Copy, Debug, PartialEq, Eq, Structural)]
pub enum NodeState {
    /// The value is up to date.
    Clean,
    /// Something this node depends on changed; whether it is up to date is not known yet.
    Check,
    /// The value was just overwritten by a write.
    Dirty,
}

/// One vertex of the dependency graph: a value cell and its invalidation state.
#[derive(Clone, Copy, Debug)]
pub struct Node {
    state: NodeState,
    value: Value,
}

/// `p` is a chain of dependency edges that leads from `x` to `a`.
pub open spec fn is_dep_path(edges: Seq<(nat, nat)>, p: Seq<nat>, x: nat, a: nat) -> bool {
    &&& p.len() >= 2
    &&& p[0] == x
    &&& p[p.len() - 1] == a
    &&& forall|i: int| 0 <= i < p.len() - 1 ==> has_edge(edges, #[trigger] p[i], p[i + 1])
}

/// `x` depends on `a`, directly or transitively.
pub open spec fn depends_on(edges: Seq<(nat, nat)>, x: nat, a: nat) -> bool {
    exists|p: Seq<nat>| #[trigger] is_dep_path(edges, p, x, a)
}

/// No node depends on `x`: `x` is a terminal consumer.
pub open spec fn is_leaf(edges: Seq<(nat, nat)>, x: nat) -> bool {
    forall|y: nat| !#[trigger] has_edge(edges, y, x)
}

/// The nodes that a write of `root` schedules for re-evaluation: the leaves that depend on it.
pub open spec fn scheduled_by(edges: Seq<(nat, nat)>, root: nat, x: nat) -> bool {
    x != root && depends_on(edges, x, root) && is_leaf(edges, x)
}

/// The state of node `i` after a write of `root` has been propagated.
pub open spec fn state_after_write(
    edges: Seq<(nat, nat)>,
    states: Seq<NodeState>,
    root: nat,
    i: nat,
) -> NodeState {
    if i == root {
        NodeState::Dirty
    } else if depends_on(edges, i, root) && !is_leaf(edges, i) {
        NodeState::Check
    } else {
        states[i as int]
    }
}

/// The node indices of `s` as natural numbers.
pub open spec fn as_nats(s: Seq<usize>) -> Seq<nat> {
    s.map_values(|x: usize| x as nat)
}

/// The nodes that `x` depends on directly.
pub open spec fn deps_of(edges: Seq<(nat, nat)>, x: nat) -> Set<nat> {
    Set::new(|b: nat| has_edge(edges, x, b))
}

/// `after` is `before` once a new effect's first evaluation, with result `value`, has been
/// recorded: a `Clean` node at the next index, with an edge to each node the evaluation read.
pub open spec fn effect_recorded(before: Runtime, after: Runtime, value: Value) -> bool {
    let idx = before.len();
    &&& before.scope() is Some
    &&& after.states() == before.states().push(NodeState::Clean)
    &&& after.values() == before.values().push(value)
    &&& after.scope() is None
    &&& after.owner() == before.owner()
    &&& after.len() == before.len() + 1
    &&& after.edges().len() <= before.edges().len() + before.scope()->0.len()
    &&& forall|a: nat, b: nat|
        #[trigger] has_edge(after.edges(), a, b) <==> (has_edge(before.edges(), a, b) || (a == idx
            && as_nats(before.scope()->0).contains(b)))
}

/// `after` is `before` once `value` was written to node `root` and the write propagated;
/// `effects` are the nodes scheduled for re-evaluation.
pub open spec fn write_outcome(
    before: Runtime,
    after: Runtime,
    root: nat,
    value: Value,
    effects: Seq<usize>,
) -> bool {
    &&& after.values() == before.values().update(root as int, value)
    &&& after.edges() == before.edges()
    &&& after.scope() == before.scope()
    &&& after.owner() == before.owner()
    &&& after.len() == before.len()
    &&& effects.no_duplicates()
    &&& forall|x: usize| effects.contains(x) <==> scheduled_by(before.edges(), root, x as nat)
    &&& forall|i: int|
        0 <= i < before.len() ==> #[trigger] after.states()[i] == state_after_write(
            before.edges(),
            before.states(),
            root,
            i as nat,
        )
}

/// `after` is `before` once the re-evaluation of effect `idx`, with result `value`, has been
/// recorded: the node holds `value`, is `Clean`, and its edges are replaced by one edge to
/// each node the re-evaluation read.
pub open spec fn rerun_recorded(before: Runtime, after: Runtime, idx: nat, value: Value) -> bool {
    &&& before.scope() is Some
    &&& after.states() == before.states().update(idx as int, NodeState::Clean)
    &&& after.values() == before.values().update(idx as int, value)
    &&& after.scope() is None
    &&& after.owner() == before.owner()
    &&& after.len() == before.len()
    &&& after.edges().len() <= before.edges().len() + before.scope()->0.len()
    &&& forall|a: nat, b: nat|
        #[trigger] has_edge(after.edges(), a, b) <==> ((has_edge(before.edges(), a, b) && a != idx)
            || (a == idx && as_nats(before.scope()->0).contains(b)))
}

/// Every edge joins two nodes below `n`, and no edge is recorded twice.
pub open spec fn edges_wf(edges: Seq<(nat, nat)>, n: nat) -> bool {
    &&& forall|i: int| 0 <= i < edges.len() ==> #[trigger] edges[i].0 < n && edges[i].1 < n
    &&& edges.no_duplicates()
}

/// Removing edge `e` by moving the last edge into its place removes exactly that edge from a
/// sequence without repeats, and leaves no repeats.
pub proof fn lemma_swap_remove(s: Seq<(nat, nat)>, e: int)
    requires
        s.no_duplicates(),
        0 <= e < s.len(),
    ensures
        s.update(e, s.last()).drop_last().no_duplicates(),
        forall|x: (nat, nat)| #[trigger] s.update(e, s.last()).drop_last().contains(x) <==> (s.contains(x) && x != s[e]),
{
    let r = s.update(e, s.last()).drop_last();
    assert forall|x: (nat, nat)| #[trigger] r.contains(x) <==> (s.contains(x) && x != s[e]) by {
        if r.contains(x) {
            let q = choose|q: int| 0 <= q < r.len() && r[q] == x;
            if q == e {
                assert(x == s[s.len() - 1]);
            } else {
                assert(x == s[q]);
            }
        }
        if s.contains(x) && x != s[e] {
            let q = choose|q: int| 0 <= q < s.len() && s[q] == x;
            if q == s.len() - 1 {
                assert(r[e] == x);
            } else {
                assert(r[q] == x);
            }
        }
    }
}

/// The per-thread reactive runtime.
pub struct Runtime {
    graph: DepGraph,
    nodes: Vec<Node>,
    current_effect_deps: Option<Vec<usize>>,
    thread: u64,
}

impl Runtime {
    /// The invalidation state of each node, by index.
    pub closed spec fn states(&self) -> Seq<NodeState> {
        self.nodes@.map_values(|n: Node| n.state)
    }

    /// The value of each node, by index.
    pub closed spec fn values(&self) -> Seq<Value> {
        self.nodes@.map_values(|n: Node| n.value)
    }

    /// The dependency edges: `(a, b)` means that `a` read `b` during its last evaluation.
    pub closed spec fn edges(&self) -> Seq<(nat, nat)> {
        graph_edges(self.graph)
    }

    /// The reads recorded by the open tracking scope, or `None` when no scope is open.
    pub closed spec fn scope(&self) -> Option<Seq<usize>> {
        match self.current_effect_deps {
            Some(v) => Some(v@),
            None => None,
        }
    }

    /// The thread that owns this runtime.
    pub closed spec fn owner(&self) -> u64 {
        self.thread
    }

    /// The number of nodes.
    pub closed spec fn len(&self) -> nat {
        self.nodes@.len()
    }

    /// One node record per graph node, edges between existing nodes without repeats, and
    /// recorded reads of existing nodes only.
    pub closed spec fn wf(&self) -> bool {
        &&& graph_node_count(self.graph) == self.nodes@.len()
        &&& self.nodes@.len() <= MAX_INDEX
        &&& edges_wf(graph_edges(self.graph), self.nodes@.len())
        &&& self.current_effect_deps matches Some(v) ==> forall|i: int|
            0 <= i < v@.len() ==> #[trigger] v@[i] < self.nodes@.len()
    }

    /// What well-formedness says of the model: edges join existing nodes without repeats, and
    /// there is one state and one value per node.
    pub proof fn lemma_wf_facts(&self)
        requires
            self.wf(),
        ensures
            edges_wf(self.edges(), self.len()),
            self.states().len() == self.len(),
            self.values().len() == self.len(),
            self.len() <= MAX_INDEX,
    {
    }

    /// The runtime `self` keeps every node of `old` with the schema of its value, and the owner.
    pub open spec fn extends(&self, old: &Runtime) -> bool {
        &&& self.owner() == old.owner()
        &&& old.len() <= self.len()
        &&& forall|i: int|
            0 <= i < old.len() ==> (#[trigger] self.values()[i]).spec_schema()
                == old.values()[i].spec_schema()
    }

    /// A runtime with no nodes and no open scope, owned by thread `thread`.
    pub fn new(thread: u64) -> (r: Runtime)
        ensures
            r.wf(),
            r.len() == 0,
            r.states() == Seq::<NodeState>::empty(),
            r.values() == Seq::<Value>::empty(),
            r.edges() == Seq::<(nat, nat)>::empty(),
            r.scope() is None,
            r.owner() == thread,
    {
        let r = Runtime { graph: graph_new(), nodes: Vec::new(), current_effect_deps: None, thread };
        proof {
            assert(r.states() =~= Seq::<NodeState>::empty());
            assert(r.values() =~= Seq::<Value>::empty());
        }
        r
    }

    /// The thread that owns this runtime.
    pub fn thread(&self) -> (r: u64)
        ensures
            r == self.owner(),
    {
        self.thread
    }

    /// The number of nodes.
    pub fn node_count(&self) -> (r: usize)
        requires
            self.wf(),
        ensures
            r == self.len(),
    {
        self.nodes.len()
    }

    /// Whether a tracking scope is open.
    pub fn is_tracking(&self) -> (r: bool)
        ensures
            r == self.scope() is Some,
    {
        self.current_effect_deps.is_some()
    }

    /// The number of reads recorded by the open scope, or 0 when no scope is open.
    pub fn scope_len(&self) -> (r: usize)
        ensures
            self.scope() matches Some(s) ==> r == s.len(),
            self.scope() is None ==> r == 0,
    {
        match &self.current_effect_deps {
            Some(deps) => deps.len(),
            None => 0,
        }
    }

    /// The invalidation state of node `idx`.
    pub fn state(&self, idx: usize) -> (r: NodeState)
        requires
            idx < self.len(),
        ensures
            r == self.states()[idx as int],
    {
        self.nodes[idx].state
    }

    /// Whether the dependency edge `from -> to` is recorded.
    pub fn depends(&self, from: usize, to: usize) -> (r: bool)
        requires
            self.wf(),
            from < self.len(),
            to < self.len(),
        ensures
            r == has_edge(self.edges(), from as nat, to as nat),
    {
        graph_find_edge(&self.graph, from, to).is_some()
    }

    /// The number of dependency edges.
    pub fn edge_count(&self) -> (r: usize)
        ensures
            r == self.edges().len(),
    {
        graph_edge_count(&self.graph)
    }

    /// Inserts a node holding `value` in state `state`; its index is the old node count.
    pub fn add_node(&mut self, state: NodeState, value: Value) -> (idx: usize)
        requires
            old(self).wf(),
            old(self).len() < MAX_INDEX,
        ensures
            final(self).wf(),
            idx == old(self).len(),
            final(self).states() == old(self).states().push(state),
            final(self).values() == old(self).values().push(value),
            final(self).edges() == old(self).edges(),
            final(self).scope() == old(self).scope(),
            final(self).owner() == old(self).owner(),
            final(self).len() == old(self).len() + 1,
    {
        let idx = graph_add_node(&mut self.graph);
        self.nodes.push(Node { state, value });
        proof {
            assert(self.states() =~= old(self).states().push(state));
            assert(self.values() =~= old(self).values().push(value));
            assert(self.edges() == old(self).edges());
        }
        idx
    }

    /// The value of node `idx`, read without recording a dependency.
    pub fn peek(&self, idx: usize) -> (v: Value)
        requires
            idx < self.len(),
        ensures
            v == self.values()[idx as int],
    {
        self.nodes[idx].value
    }

    /// Reads node `idx`. While a tracking scope is open the read is appended to it.
    pub fn read(&mut self, idx: usize) -> (v: Value)
        requires
            old(self).wf(),
            idx < old(self).len(),
        ensures
            final(self).wf(),
            v == old(self).values()[idx as int],
            final(self).scope() == (match old(self).scope() {
                Some(s) => Some(s.push(idx)),
                None => None,
            }),
            final(self).states() == old(self).states(),
            final(self).values() == old(self).values(),
            final(self).edges() == old(self).edges(),
            final(self).owner() == old(self).owner(),
            final(self).len() == old(self).len(),
    {
        match self.current_effect_deps.take() {
            Some(mut deps) => {
                deps.push(idx);
                self.current_effect_deps = Some(deps);
            },
            None => {},
        }
        self.nodes[idx].value
    }

    /// Opens the tracking scope: from now on reads are recorded.
    pub fn begin_tracking(&mut self)
        requires
            old(self).wf(),
            old(self).scope() is None,
        ensures
            final(self).wf(),
            final(self).scope() == Some(Seq::<usize>::empty()),
            final(self).states() == old(self).states(),
            final(self).values() == old(self).values(),
            final(self).edges() == old(self).edges(),
            final(self).owner() == old(self).owner(),
            final(self).len() == old(self).len(),
    {
        self.current_effect_deps = Some(Vec::new());
        proof {
            assert(self.scope()->0 =~= Seq::<usize>::empty());
        }
    }

    /// Closes the tracking scope and discards its reads: an evaluation that did not complete
    /// records nothing.
    pub fn cancel_tracking(&mut self)
        requires
            old(self).wf(),
        ensures
            final(self).wf(),
            final(self).scope() is None,
            final(self).states() == old(self).states(),
            final(self).values() == old(self).values(),
            final(self).edges() == old(self).edges(),
            final(self).owner() == old(self).owner(),
            final(self).len() == old(self).len(),
    {
        self.current_effect_deps = None;
    }

    /// Closes the tracking scope and hands back the reads it recorded.
    fn end_tracking(&mut self) -> (deps: Vec<usize>)
        requires
            old(self).wf(),
            old(self).scope() is Some,
        ensures
            final(self).wf(),
            deps@ == old(self).scope()->0,
            forall|i: int| 0 <= i < deps@.len() ==> #[trigger] deps@[i] < old(self).len(),
            final(self).scope() is None,
            final(self).states() == old(self).states(),
            final(self).values() == old(self).values(),
            final(self).edges() == old(self).edges(),
            final(self).owner() == old(self).owner(),
            final(self).len() == old(self).len(),
    {
        let deps = self.current_effect_deps.take().unwrap();
        deps
    }

    /// Records one edge `from -> d` for each distinct `d` of `deps`, keeping the edges that
    /// are already there.
    fn add_deps(&mut self, from: usize, deps: &Vec<usize>)
        requires
            old(self).wf(),
            from < old(self).len(),
            forall|i: int| 0 <= i < deps@.len() ==> #[trigger] deps@[i] < old(self).len(),
            old(self).edges().len() + deps@.len() <= MAX_INDEX,
        ensures
            final(self).wf(),
            forall|a: nat, b: nat|
                #[trigger] has_edge(final(self).edges(), a, b) <==> (has_edge(
                    old(self).edges(),
                    a,
                    b,
                ) || (a == from && as_nats(deps@).contains(b))),
            final(self).edges().len() <= old(self).edges().len() + deps@.len(),
            final(self).states() == old(self).states(),
            final(self).values() == old(self).values(),
            final(self).scope() == old(self).scope(),
            final(self).owner() == old(self).owner(),
            final(self).len() == old(self).len(),
    {
        let ghost e0 = self.edges();
        let mut i: usize = 0;
        while i < deps.len()
            invariant
                self.wf(),
                i <= deps@.len(),
                from < self.len(),
                forall|q: int| 0 <= q < deps@.len() ==> #[trigger] deps@[q] < self.len(),
                self.edges().len() <= e0.len() + i,
                e0.len() + deps@.len() <= MAX_INDEX,
                e0 == old(self).edges(),
                forall|a: nat, b: nat|
                    #[trigger] has_edge(self.edges(), a, b) <==> (has_edge(e0, a, b) || (a == from
                        && as_nats(deps@.subrange(0, i as int)).contains(b))),
                self.states() == old(self).states(),
                self.values() == old(self).values(),
                self.scope() == old(self).scope(),
                self.owner() == old(self).owner(),
                self.len() == old(self).len(),
            decreases deps@.len() - i,
        {
            let d = deps[i];
            let ghost e1 = self.edges();
            let found = graph_find_edge(&self.graph, from, d);
            if found.is_none() {
                graph_add_edge(&mut self.graph, from, d);
                proof {
                    let e2 = self.edges();
                    assert(e2 == e1.push((from as nat, d as nat)));
                    assert forall|a: nat, b: nat| #[trigger] has_edge(e2, a, b) <==> (has_edge(e1, a, b) || (a == from && b == d)) by {
                        if has_edge(e1, a, b) {
                            let q = choose|q: int| 0 <= q < e1.len() && e1[q] == (a, b);
                            assert(e2[q] == (a, b));
                        }
                        if a == from && b == d {
                            assert(e2[e1.len() as int] == (a, b));
                        }
                        if has_edge(e2, a, b) && !(a == from && b == d) {
                            let q = choose|q: int| 0 <= q < e2.len() && e2[q] == (a, b);
                            assert(e1[q] == (a, b));
                        }
                    }
                    assert forall|q: int| 0 <= q < e2.len() implies #[trigger] e2[q].0 < self.nodes@.len() && e2[q].1 < self.nodes@.len() by {
                        if q < e1.len() {
                            assert(e2[q] == e1[q]);
                        }
                    }
                    assert(e2.no_duplicates()) by {
                        assert forall|p: int, q: int| 0 <= p < e2.len() && 0 <= q < e2.len() && p != q implies e2[p] != e2[q] by {
                            if p < e1.len() && q < e1.len() {
                            } else if p < e1.len() {
                                assert(e1.contains(e2[p]));
                            } else if q < e1.len() {
                                assert(e1.contains(e2[q]));
                            }
                        }
                    }
                }
            }
            proof {
                let sub0 = as_nats(deps@.subrange(0, i as int));
                let sub1 = as_nats(deps@.subrange(0, i + 1 as int));
                assert forall|b: nat| sub1.contains(b) <==> (sub0.contains(b) || b == d as nat) by {
                    if sub0.contains(b) {
                        let q = choose|q: int| 0 <= q < sub0.len() && sub0[q] == b;
                        assert(sub1[q] == b);
                    }
                    if b == d as nat {
                        assert(sub1[i as int] == b);
                    }
                    if sub1.contains(b) && b != d as nat {
                        let q = choose|q: int| 0 <= q < sub1.len() && sub1[q] == b;
                        assert(sub0[q] == b);
                    }
                }
            }
            i = i + 1;
        }
        proof {
            assert(deps@.subrange(0, deps@.len() as int) =~= deps@);
        }
    }

    /// Removes every edge that starts at `from`.
    fn clear_deps(&mut self, from: usize)
        requires
            old(self).wf(),
            from < old(self).len(),
        ensures
            final(self).wf(),
            forall|a: nat, b: nat|
                #[trigger] has_edge(final(self).edges(), a, b) <==> (has_edge(
                    old(self).edges(),
                    a,
                    b,
                ) && a != from),
            final(self).edges().len() <= old(self).edges().len(),
            final(self).states() == old(self).states(),
            final(self).values() == old(self).values(),
            final(self).scope() == old(self).scope(),
            final(self).owner() == old(self).owner(),
            final(self).len() == old(self).len(),
    {
        let ghost e0 = self.edges();
        let n = self.nodes.len();
        let mut b: usize = 0;
        while b < n
            invariant
                self.wf(),
                b <= n,
                n == self.len(),
                from < n,
                e0 == old(self).edges(),
                self.edges().len() <= e0.len(),
                forall|x: nat, y: nat|
                    #[trigger] has_edge(self.edges(), x, y) <==> (has_edge(e0, x, y) && !(x
                        == from && y < b)),
                self.states() == old(self).states(),
                self.values() == old(self).values(),
                self.scope() == old(self).scope(),
                self.owner() == old(self).owner(),
                self.len() == old(self).len(),
            decreases n - b,
        {
            let ghost e1 = self.edges();
            match graph_find_edge(&self.graph, from, b) {
                Some(e) => {
                    graph_remove_edge(&mut self.graph, e);
                    proof {
                        lemma_swap_remove(e1, e as int);
                        let e2 = self.edges();
                        assert forall|q: int| 0 <= q < e2.len() implies #[trigger] e2[q].0 < n && e2[q].1 < n by {
                            assert(e1.contains(e2[q]));
                        }
                        assert forall|x: nat, y: nat|
                            #[trigger] has_edge(e2, x, y) <==> (has_edge(e0, x, y) && !(x == from && y < b + 1)) by {
                            assert(has_edge(e1, x, y) <==> (has_edge(e0, x, y) && !(x == from && y < b)));
                        }
                    }
                },
                None => {
                    proof {
                        assert forall|x: nat, y: nat|
                            #[trigger] has_edge(e1, x, y) <==> (has_edge(e0, x, y) && !(x == from && y < b + 1)) by {
                            assert(has_edge(e1, x, y) <==> (has_edge(e0, x, y) && !(x == from && y < b)));
                        }
                    }
                },
            }
            b = b + 1;
        }
        proof {
            assert forall|x: nat, y: nat| #[trigger] has_edge(self.edges(), x, y) <==> (has_edge(e0, x, y) && x != from) by {
                if has_edge(e0, x, y) {
                    let q = choose|q: int| 0 <= q < e0.len() && e0[q] == (x, y);
                    assert(old(self).wf());
                    assert(e0[q].0 < n);
                    assert(e0[q].1 < n);
                }
            }
        }
    }

    /// Closes the scope of a new effect's first evaluation: inserts a `Clean` node holding
    /// `value`, with one edge to each distinct node that the evaluation read.
    pub fn finish_effect(&mut self, value: Value) -> (idx: usize)
        requires
            old(self).wf(),
            old(self).scope() is Some,
            old(self).len() < MAX_INDEX,
            old(self).edges().len() + old(self).scope()->0.len() <= MAX_INDEX,
        ensures
            final(self).wf(),
            idx == old(self).len(),
            effect_recorded(*old(self), *final(self), value),
    {
        let deps = self.end_tracking();
        let idx = self.add_node(NodeState::Clean, value);
        self.add_deps(idx, &deps);
        idx
    }

    /// Writes `value` into node `idx`, marks it `Dirty` and propagates the change. Returns,
    /// each once, the effects that must be evaluated again: the leaves that depend on `idx`.
    pub fn write(&mut self, idx: usize, value: Value) -> (effects: Vec<usize>)
        requires
            old(self).wf(),
            idx < old(self).len(),
            value.spec_schema() == old(self).values()[idx as int].spec_schema(),
        ensures
            final(self).wf(),
            write_outcome(*old(self), *final(self), idx as nat, value, effects@),
    {
        self.nodes.set(idx, Node { state: NodeState::Dirty, value });
        let ghost mid_states = self.states();
        proof {
            assert(self.values() =~= old(self).values().update(idx as int, value));
            assert(mid_states =~= old(self).states().update(idx as int, NodeState::Dirty));
        }
        let effects = self.propagate(idx);
        proof {
            assert forall|i: int| 0 <= i < old(self).len() implies #[trigger] self.states()[i]
                == state_after_write(old(self).edges(), old(self).states(), idx as nat, i as nat) by {
                assert(self.states()[i] == state_after_write(old(self).edges(), mid_states, idx as nat, i as nat));
            }
        }
        effects
    }

    /// Opens the scope of an effect's re-evaluation and returns its previous value.
    pub fn begin_rerun(&mut self, idx: usize) -> (prev: Value)
        requires
            old(self).wf(),
            idx < old(self).len(),
            old(self).scope() is None,
        ensures
            final(self).wf(),
            prev == old(self).values()[idx as int],
            final(self).scope() == Some(Seq::<usize>::empty()),
            final(self).states() == old(self).states(),
            final(self).values() == old(self).values(),
            final(self).edges() == old(self).edges(),
            final(self).owner() == old(self).owner(),
            final(self).len() == old(self).len(),
    {
        self.begin_tracking();
        self.nodes[idx].value
    }

    /// Closes the scope of effect `idx`'s re-evaluation: stores `value`, replaces the
    /// effect's dependency edges by one edge to each distinct node read, and marks it `Clean`.
    pub fn finish_rerun(&mut self, idx: usize, value: Value)
        requires
            old(self).wf(),
            idx < old(self).len(),
            old(self).scope() is Some,
            value.spec_schema() == old(self).values()[idx as int].spec_schema(),
            old(self).edges().len() + old(self).scope()->0.len() <= MAX_INDEX,
        ensures
            final(self).wf(),
            rerun_recorded(*old(self), *final(self), idx as nat, value),
    {
        let deps = self.end_tracking();
        self.clear_deps(idx);
        self.add_deps(idx, &deps);
        self.nodes.set(idx, Node { state: NodeState::Clean, value });
        proof {
            assert(self.values() =~= old(self).values().update(idx as int, value));
            assert(self.states() =~= old(self).states().update(idx as int, NodeState::Clean));
        }
    }

    /// Propagates a write of `root`: marks every non-leaf that depends on it `Check` and
    /// returns, each once, the leaves that depend on it.
    fn propagate(&mut self, root: usize) -> (effects: Vec<usize>)
        requires
            old(self).wf(),
            root < old(self).len(),
            old(self).states()[root as int] == NodeState::Dirty,
        ensures
            final(self).wf(),
            final(self).edges() == old(self).edges(),
            final(self).values() == old(self).values(),
            final(self).scope() == old(self).scope(),
            final(self).owner() == old(self).owner(),
            final(self).len() == old(self).len(),
            effects@.no_duplicates(),
            forall|x: usize|
                effects@.contains(x) <==> scheduled_by(old(self).edges(), root as nat, x as nat),
            forall|i: int|
                0 <= i < old(self).len() ==> #[trigger] final(self).states()[i]
                    == state_after_write(old(self).edges(), old(self).states(), root as nat, i as nat),
    {
        let ghost edges = self.edges();
        let ghost states0 = self.states();
        let n = self.nodes.len();
        let mut visited: Vec<bool> = Vec::new();
        let mut k: usize = 0;
        while k < n
            invariant
                k <= n,
                visited@.len() == k,
                forall|i: int| 0 <= i < k ==> !visited@[i],
            decreases n - k,
        {
            visited.push(false);
            k = k + 1;
        }
        visited.set(root, true);
        let mut stack: Vec<usize> = Vec::new();
        stack.push(root);
        let mut effects: Vec<usize> = Vec::new();
        let ghost mut vis: Set<int> = set![root as int];
        proof {
            lemma_int_range(0, n as int);
            lemma_len_subset(vis, set_int_range(0, n as int));
            assert(stack@ =~= seq![root]);
            assert(stack@.contains(root)) by {
                assert(stack@[0] == root);
            }
            assert forall|i: int| 0 <= i < n && visited@[i] implies i == root by {
                if i != root {
                    assert(!visited@[i]);
                }
            }
        }
        while stack.len() > 0
            invariant
                self.wf(),
                self.edges() == edges,
                self.len() == n,
                self.values() == old(self).values(),
                self.scope() == old(self).scope(),
                self.owner() == old(self).owner(),
                n == old(self).len(),
                edges == old(self).edges(),
                states0 == old(self).states(),
                root < n,
                visited@.len() == n,
                visited@[root as int],
                vis.finite(),
                vis.len() <= n,
                forall|i: int| vis.contains(i) ==> 0 <= i < n,
                forall|i: int| 0 <= i < n ==> (visited@[i] <==> vis.contains(i)),
                stack@.no_duplicates(),
                forall|j: int| 0 <= j < stack@.len() ==> #[trigger] stack@[j] < n && visited@[stack@[j] as int],
                effects@.no_duplicates(),
                forall|i: int|
                    0 <= i < n && #[trigger] visited@[i] && i != root ==> depends_on(
                        edges,
                        i as nat,
                        root as nat,
                    ),
                forall|x: usize|
                    #[trigger] effects@.contains(x) <==> (x < n && visited@[x as int]
                        && !stack@.contains(x) && x != root && is_leaf(edges, x as nat)),
                forall|u: usize, d: nat|
                    u < n && visited@[u as int] && !stack@.contains(u) && #[trigger] has_edge(
                        edges,
                        d,
                        u as nat,
                    ) ==> d < n && visited@[d as int],
                forall|i: int|
                    0 <= i < n ==> #[trigger] self.states()[i] == if visited@[i]
                        && !stack@.contains(i as usize) && i != root && !is_leaf(edges, i as nat) {
                        NodeState::Check
                    } else {
                        states0[i]
                    },
            decreases 2 * (n - vis.len()) + stack@.len(),
        {
            let ghost measure0 = 2 * (n - vis.len()) + stack@.len();
            let ghost stack0 = stack@;
            let u = stack.pop().unwrap();
            assert(!stack@.contains(u)) by {
                if stack@.contains(u) {
                    let j = choose|j: int| 0 <= j < stack@.len() && stack@[j] == u;
                    assert(stack0[j] == stack0[stack0.len() - 1]);
                }
            }
            assert(stack0 =~= stack@.push(u));
            assert(stack0.contains(u)) by {
                assert(stack0[stack0.len() - 1] == u);
            }
            let ghost stack1 = stack@;
            let deps = graph_dependents(&self.graph, u);
            if deps.len() == 0 {
                assert(is_leaf(edges, u as nat)) by {
                    assert forall|y: nat| !#[trigger] has_edge(edges, y, u as nat) by {
                        if has_edge(edges, y, u as nat) {
                            let j = choose|j: int| 0 <= j < edges.len() && edges[j] == (y, u as nat);
                            assert(edges[j].0 < n);
                            assert(deps@.contains(y as usize));
                        }
                    }
                }
                let ghost effects0 = effects@;
                assert(!effects0.contains(u));
                if u != root {
                    effects.push(u);
                }
                assert forall|x: usize|
                    #[trigger] effects@.contains(x) <==> (x < n && visited@[x as int]
                        && !stack@.contains(x) && x != root && is_leaf(edges, x as nat)) by {
                    if u != root {
                        assert(effects@ == effects0.push(u));
                        if effects0.contains(x) {
                            let q = choose|q: int| 0 <= q < effects0.len() && effects0[q] == x;
                            assert(effects@[q] == x);
                        }
                        if effects@.contains(x) && x != u {
                            let q = choose|q: int| 0 <= q < effects@.len() && effects@[q] == x;
                            assert(effects0[q] == x);
                        }
                        assert(effects@[effects0.len() as int] == u);
                    }
                    if stack0.contains(x) && x != u {
                        let q = choose|q: int| 0 <= q < stack0.len() && stack0[q] == x;
                        assert(stack@[q] == x);
                    }
                    if stack@.contains(x) {
                        let q = choose|q: int| 0 <= q < stack@.len() && stack@[q] == x;
                        assert(stack0[q] == x);
                    }
                }
            } else {
                assert(deps@.contains(deps[0]));
                assert(!is_leaf(edges, u as nat));
                if u != root {
                    let mut node = self.nodes[u];
                    node.state = NodeState::Check;
                    self.nodes.set(u, node);
                }
                assert forall|q: int| 0 <= q < deps@.len() implies #[trigger] deps@[q] < n by {
                    assert(deps@.contains(deps@[q]));
                    let ei = choose|ei: int| 0 <= ei < edges.len() && edges[ei] == (deps@[q] as nat, u as nat);
                    assert(edges[ei].0 < n);
                }
                let mut j: usize = 0;
                while j < deps.len()
                    invariant
                        forall|q: int| 0 <= q < deps@.len() ==> #[trigger] deps@[q] < n,
                        self.wf(),
                        self.edges() == edges,
                        self.len() == n,
                        self.values() == old(self).values(),
                        self.scope() == old(self).scope(),
                        self.owner() == old(self).owner(),
                        n == old(self).len(),
                        edges == old(self).edges(),
                        states0 == old(self).states(),
                        root < n,
                        u < n,
                        !is_leaf(edges, u as nat),
                        j <= deps@.len(),
                        forall|x: usize| deps@.contains(x) <==> has_edge(edges, x as nat, u as nat),
                        visited@.len() == n,
                        visited@[root as int],
                        visited@[u as int],
                        !stack@.contains(u),
                        forall|i: int| 0 <= i < stack1.len() ==> stack@[i] == stack1[i],
                        stack1.len() <= stack@.len(),
                        forall|jj: int| 0 <= jj < j ==> visited@[#[trigger] deps@[jj] as int],
                        2 * (n - vis.len()) + stack@.len() < measure0,
                        vis.finite(),
                        vis.len() <= n,
                        forall|i: int| vis.contains(i) ==> 0 <= i < n,
                        forall|i: int| 0 <= i < n ==> (visited@[i] <==> vis.contains(i)),
                        stack@.no_duplicates(),
                        forall|jx: int| 0 <= jx < stack@.len() ==> #[trigger] stack@[jx] < n && visited@[stack@[jx] as int],
                        effects@.no_duplicates(),
                        forall|i: int|
                            0 <= i < n && #[trigger] visited@[i] && i != root ==> depends_on(
                                edges,
                                i as nat,
                                root as nat,
                            ),
                        forall|x: usize|
                            #[trigger] effects@.contains(x) <==> (x < n && visited@[x as int]
                                && !stack@.contains(x) && x != root && is_leaf(edges, x as nat)),
                        forall|w: usize, d: nat|
                            w < n && w != u && visited@[w as int] && !stack@.contains(w)
                                && #[trigger] has_edge(edges, d, w as nat) ==> d < n
                                && visited@[d as int],
                        forall|i: int|
                            0 <= i < n ==> #[trigger] self.states()[i] == if visited@[i]
                                && !stack@.contains(i as usize) && i != root && !is_leaf(
                                edges,
                                i as nat,
                            ) {
                                NodeState::Check
                            } else {
                                states0[i]
                            },
                    decreases deps@.len() - j,
                {
                    let d = deps[j];
                    assert(deps@.contains(d));
                    assert(has_edge(edges, d as nat, u as nat));
                    let ghost ei = choose|ei: int| 0 <= ei < edges.len() && edges[ei] == (d as nat, u as nat);
                    assert(edges[ei].0 < n);
                    let ghost visited0 = visited@;
                    if !visited[d] {
                        proof {
                            // `d` depends on `root` through `u`.
                            if u == root {
                                let p = seq![d as nat, root as nat];
                                assert(is_dep_path(edges, p, d as nat, root as nat));
                            } else {
                                let pu = choose|pu: Seq<nat>| #[trigger] is_dep_path(edges, pu, u as nat, root as nat);
                                let p = seq![d as nat] + pu;
                                assert forall|i: int| 0 <= i < p.len() - 1 implies has_edge(edges, #[trigger] p[i], p[i + 1]) by {
                                    if i > 0 {
                                        assert(p[i] == pu[i - 1]);
                                        assert(p[i + 1] == pu[i]);
                                    }
                                }
                                assert(is_dep_path(edges, p, d as nat, root as nat));
                            }
                            assert(!vis.contains(d as int));
                            vis = vis.insert(d as int);
                            assert(vis.subset_of(set_int_range(0, n as int)));
                            lemma_int_range(0, n as int);
                            lemma_len_subset(vis, set_int_range(0, n as int));
                        }
                        let ghost stack2 = stack@;
                        assert(!effects@.contains(d));
                        visited.set(d, true);
                        stack.push(d);
                        assert forall|x: usize|
                            #[trigger] effects@.contains(x) <==> (x < n && visited@[x as int]
                                && !stack@.contains(x) && x != root && is_leaf(edges, x as nat)) by {
                            assert(stack@ == stack2.push(d));
                            assert(stack@[stack2.len() as int] == d);
                            if stack2.contains(x) {
                                let q = choose|q: int| 0 <= q < stack2.len() && stack2[q] == x;
                                assert(stack@[q] == x);
                            }
                            if stack@.contains(x) && x != d {
                                let q = choose|q: int| 0 <= q < stack@.len() && stack@[q] == x;
                                assert(stack2[q] == x);
                            }
                        }
                        assert(stack@.contains(d)) by {
                            assert(stack@[stack2.len() as int] == d);
                        }
                        assert forall|w: usize| #[trigger] stack2.contains(w) implies stack@.contains(w) by {
                            let q = choose|q: int| 0 <= q < stack2.len() && stack2[q] == w;
                            assert(stack@[q] == w);
                        }
                        assert forall|w: usize, dd: nat|
                            w < n && w != u && visited@[w as int] && !stack@.contains(w)
                                && #[trigger] has_edge(edges, dd, w as nat) implies dd < n
                                && visited@[dd as int] by {
                            assert(w != d);
                            assert(visited0[w as int]);
                            assert(!stack2.contains(w));
                        }
                        assert forall|i: int| 0 <= i < n implies #[trigger] self.states()[i] == if visited@[i]
                                && !stack@.contains(i as usize) && i != root && !is_leaf(
                                edges,
                                i as nat,
                            ) {
                                NodeState::Check
                            } else {
                                states0[i]
                            } by {
                            if i != d {
                                assert(visited0[i] == visited@[i]);
                                if stack@.contains(i as usize) {
                                    let q = choose|q: int| 0 <= q < stack@.len() && stack@[q] == i as usize;
                                    assert(stack2[q] == i as usize);
                                }
                                if stack2.contains(i as usize) {
                                    assert(stack@.contains(i as usize));
                                }
                            }
                        }
                    }
                    assert(visited@[deps@[j as int] as int]);
                    assert forall|jj: int| 0 <= jj < j + 1 implies visited@[#[trigger] deps@[jj] as int] by {
                        if jj < j {
                            assert(visited0[deps@[jj] as int]);
                        }
                    }
                    j = j + 1;
                }
                proof {
                    assert forall|d: nat| #[trigger] has_edge(edges, d, u as nat) implies d < n && visited@[d as int] by {
                        let ei = choose|ei: int| 0 <= ei < edges.len() && edges[ei] == (d, u as nat);
                        assert(edges[ei].0 < n);
                        assert(deps@.contains(d as usize));
                        let jj = choose|jj: int| 0 <= jj < deps@.len() && deps@[jj] == d as usize;
                        assert(visited@[deps@[jj] as int]);
                    }
                }
            }
        }
        proof {
            assert forall|i: int| 0 <= i < n implies #[trigger] self.states()[i] == state_after_write(edges, states0, root as nat, i as nat) by {
                if i != root && depends_on(edges, i as nat, root as nat) {
                    let p = choose|p: Seq<nat>| #[trigger] is_dep_path(edges, p, i as nat, root as nat);
                    self.lemma_closed_reach(edges, visited@, root, n, p, 0);
                }
            }
            assert forall|x: usize| effects@.contains(x) <==> scheduled_by(edges, root as nat, x as nat) by {
                if scheduled_by(edges, root as nat, x as nat) {
                    let p = choose|p: Seq<nat>| #[trigger] is_dep_path(edges, p, x as nat, root as nat);
                    self.lemma_closed_reach(edges, visited@, root, n, p, 0);
                }
            }
        }
        effects
    }

    /// In a set of visited nodes that holds `root` and is closed under dependents, every node
    /// on a dependency path to `root` is visited.
    proof fn lemma_closed_reach(
        &self,
        edges: Seq<(nat, nat)>,
        visited: Seq<bool>,
        root: usize,
        n: usize,
        p: Seq<nat>,
        i: int,
    )
        requires
            visited.len() == n,
            root < n,
            visited[root as int],
            forall|u: usize, d: nat|
                u < n && visited[u as int] && #[trigger] has_edge(edges, d, u as nat) ==> d < n
                    && visited[d as int],
            p.len() >= 1,
            p[p.len() - 1] == root,
            forall|j: int| 0 <= j < p.len() - 1 ==> has_edge(edges, #[trigger] p[j], p[j + 1]),
            0 <= i < p.len(),
        ensures
            p[i] < n,
            visited[p[i] as int],
        decreases p.len() - i,
    {
        if i < p.len() - 1 {
            self.lemma_closed_reach(edges, visited, root, n, p, i + 1);
            assert(has_edge(edges, p[i], p[i + 1]));
            assert(p[i + 1] as usize as nat == p[i + 1]);
        }
    }
}

/// However many times an effect's first evaluation read node `b`, recording it leaves exactly
/// one edge from the effect to `b`.
pub proof fn lemma_one_edge_per_read(before: Runtime, after: Runtime, value: Value, b: nat)
    requires
        before.wf(),
        after.wf(),
        effect_recorded(before, after, value),
        as_nats(before.scope()->0).contains(b),
    ensures
        exists|i: int|
            0 <= i < after.edges().len() && after.edges()[i] == (before.len(), b) && forall|j: int|
                0 <= j < after.edges().len() && #[trigger] after.edges()[j] == (before.len(), b) ==> j
                    == i,
{
    let e = after.edges();
    assert(has_edge(e, before.len(), b));
    let i = choose|i: int| 0 <= i < e.len() && e[i] == (before.len(), b);
    assert forall|j: int| 0 <= j < e.len() && #[trigger] e[j] == (before.len(), b) implies j == i by {
        assert(e.no_duplicates());
    }
}

/// The same holds when an effect is evaluated again: one edge to each node read.
pub proof fn lemma_one_edge_per_reread(before: Runtime, after: Runtime, idx: nat, value: Value, b: nat)
    requires
        before.wf(),
        after.wf(),
        rerun_recorded(before, after, idx, value),
        as_nats(before.scope()->0).contains(b),
    ensures
        exists|i: int|
            0 <= i < after.edges().len() && after.edges()[i] == (idx, b) && forall|j: int|
                0 <= j < after.edges().len() && #[trigger] after.edges()[j] == (idx, b) ==> j == i,
{
    let e = after.edges();
    assert(has_edge(e, idx, b));
    let i = choose|i: int| 0 <= i < e.len() && e[i] == (idx, b);
    assert forall|j: int| 0 <= j < e.len() && #[trigger] e[j] == (idx, b) implies j == i by {
        assert(e.no_duplicates());
    }
}

/// A new effect depends on exactly the nodes its first evaluation read: no more, no fewer.
pub proof fn lemma_initial_deps_exact(before: Runtime, after: Runtime, value: Value)
    requires
        before.wf(),
        effect_recorded(before, after, value),
    ensures
        deps_of(after.edges(), before.len()) == as_nats(before.scope()->0).to_set(),
{
    let s = as_nats(before.scope()->0);
    assert forall|b: nat| deps_of(after.edges(), before.len()).contains(b) <==> s.to_set().contains(b) by {
        if has_edge(before.edges(), before.len(), b) {
            let q = choose|q: int| 0 <= q < before.edges().len() && before.edges()[q] == (before.len(), b);
            assert(before.edges()[q].0 < before.len());
        }
    }
    assert(deps_of(after.edges(), before.len()) =~= s.to_set());
}

/// A write schedules a node that is reachable along two or more dependency paths once:
/// every scheduled node stands exactly once among the effects to run.
pub proof fn lemma_scheduled_once(
    before: Runtime,
    after: Runtime,
    root: nat,
    value: Value,
    effects: Seq<usize>,
    x: usize,
)
    requires
        write_outcome(before, after, root, value, effects),
        scheduled_by(before.edges(), root, x as nat),
    ensures
        exists|i: int|
            0 <= i < effects.len() && effects[i] == x && forall|j: int|
                0 <= j < effects.len() && #[trigger] effects[j] == x ==> j == i,
{
    assert(effects.contains(x));
    let i = choose|i: int| 0 <= i < effects.len() && effects[i] == x;
    assert forall|j: int| 0 <= j < effects.len() && #[trigger] effects[j] == x implies j == i by {
        assert(effects.no_duplicates());
    }
}

/// A leaf that read `root` directly, or through any chain of other nodes, is scheduled by
/// a write of `root`.
pub proof fn lemma_dependent_leaf_scheduled(
    before: Runtime,
    after: Runtime,
    root: nat,
    value: Value,
    effects: Seq<usize>,
    p: Seq<nat>,
    x: usize,
)
    requires
        write_outcome(before, after, root, value, effects),
        is_dep_path(before.edges(), p, x as nat, root),
        x != root,
        is_leaf(before.edges(), x as nat),
    ensures
        effects.contains(x),
{
    assert(depends_on(before.edges(), x as nat, root));
}

/// A write of `root` never schedules a node that does not depend on `root`.
pub proof fn lemma_no_spurious_schedule(
    before: Runtime,
    after: Runtime,
    root: nat,
    value: Value,
    effects: Seq<usize>,
    x: usize,
)
    requires
        write_outcome(before, after, root, value, effects),
        effects.contains(x),
    ensures
        x != root,
        depends_on(before.edges(), x as nat, root),
        is_leaf(before.edges(), x as nat),
{
}

/// After a write of `root` propagates, `root` is `Dirty`, each node that depends on it and
/// has dependents of its own is `Check`, and every node that does not depend on it keeps its
/// state.
pub proof fn lemma_write_states(
    before: Runtime,
    after: Runtime,
    root: nat,
    value: Value,
    effects: Seq<usize>,
)
    requires
        root < before.len(),
        write_outcome(before, after, root, value, effects),
    ensures
        after.states()[root as int] == NodeState::Dirty,
        forall|i: nat|
            i < before.len() && i != root && depends_on(before.edges(), i, root) && !is_leaf(
                before.edges(),
                i,
            ) ==> #[trigger] after.states()[i as int] == NodeState::Check,
        forall|i: nat|
            i < before.len() && i != root && !depends_on(before.edges(), i, root)
                ==> #[trigger] after.states()[i as int] == before.states()[i as int],
{
    assert(after.states()[root as int] == state_after_write(before.edges(), before.states(), root, root));
    assert forall|i: nat|
        i < before.len() && i != root && depends_on(before.edges(), i, root) && !is_leaf(
            before.edges(),
            i,
        ) implies #[trigger] after.states()[i as int] == NodeState::Check by {
        assert(after.states()[i as int] == state_after_write(before.edges(), before.states(), root, i));
    }
    assert forall|i: nat|
        i < before.len() && i != root && !depends_on(before.edges(), i, root)
            implies #[trigger] after.states()[i as int] == before.states()[i as int] by {
        assert(after.states()[i as int] == state_after_write(before.edges(), before.states(), root, i));
    }
}

/// Once a scheduled effect has been evaluated again, it is `Clean`.
pub proof fn lemma_rerun_clean(before: Runtime, after: Runtime, idx: nat, value: Value)
    requires
        before.wf(),
        idx < before.len(),
        rerun_recorded(before, after, idx, value),
    ensures
        after.states()[idx as int] == NodeState::Clean,
{
    before.lemma_wf_facts();
}

} // verus!
