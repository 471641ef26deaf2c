//! The dependency graph's storage: a directed `petgraph` graph whose edge `(a, b)` records
//! that node `a` read node `b` during its last evaluation.
use petgraph::graph::{EdgeIndex, NodeIndex};
use petgraph::Direction::Incoming;
use vstd::prelude::*;

verus! {

#[verifier::external_type_specification]
#[verifier::external_body]
#[verifier::reject_recursive_types(N)]
#[verifier::reject_recursive_types(E)]
#[verifier::reject_recursive_types(Ty)]
#[verifier::reject_recursive_types(Ix)]
pub struct ExGraph<N, E, Ty, Ix>(petgraph::graph::Graph<N, E, Ty, Ix>);

#[verifier::external_type_specification]
#[verifier::external_body]
pub struct ExDirected(petgraph::Directed);

/// The graph type used for dependencies: nodes and edges carry no weight.
pub type DepGraph = petgraph::graph::Graph<(), ()>;

/// The largest node or edge count a `DepGraph` (with `u32` indices) can reach.
pub const MAX_INDEX: usize = 4294967295;

/// The edges of the graph, by edge index, as `(source, target)` node indices.
pub uninterp spec fn graph_edges(g: DepGraph) -> Seq<(nat, nat)>;

/// The number of nodes of the graph; nodes are numbered `0 .. count`.
pub uninterp spec fn graph_node_count(g: DepGraph) -> nat;

/// Whether some edge of `edges` goes from `a` to `b`.
pub open spec fn has_edge(edges: Seq<(nat, nat)>, a: nat, b: nat) -> bool {
    edges.contains((a, b))
}

/// Relies on `Graph::new`: the new graph has no nodes and no edges.
#[verifier::external_body]
pub(crate) fn graph_new() -> (g: DepGraph)
    ensures
        graph_node_count(g) == 0,
        graph_edges(g) == Seq::<(nat, nat)>::empty(),
{
    petgraph::graph::Graph::new()
}

/// Relies on `Graph::edge_count`: the number of edges.
#[verifier::external_body]
pub(crate) fn graph_edge_count(g: &DepGraph) -> (r: usize)
    ensures
        r == graph_edges(*g).len(),
{
    g.edge_count()
}

/// Relies on `Graph::add_node`: the new node takes the next index and no edge changes.
/// It panics when the count would reach the `u32` index limit, which `requires` rules out.
#[verifier::external_body]
pub(crate) fn graph_add_node(g: &mut DepGraph) -> (r: usize)
    requires
        graph_node_count(*old(g)) < MAX_INDEX,
    ensures
        r == graph_node_count(*old(g)),
        graph_node_count(*final(g)) == graph_node_count(*old(g)) + 1,
        graph_edges(*final(g)) == graph_edges(*old(g)),
{
    g.add_node(()).index()
}

/// Relies on `Graph::add_edge`: the edge `(a, b)` is appended at the next edge index.
/// It panics on a missing node or at the `u32` index limit, which `requires` rules out.
#[verifier::external_body]
pub(crate) fn graph_add_edge(g: &mut DepGraph, a: usize, b: usize) -> (r: usize)
    requires
        a < graph_node_count(*old(g)),
        b < graph_node_count(*old(g)),
        graph_edges(*old(g)).len() < MAX_INDEX,
    ensures
        r == graph_edges(*old(g)).len(),
        graph_node_count(*final(g)) == graph_node_count(*old(g)),
        graph_edges(*final(g)) == graph_edges(*old(g)).push((a as nat, b as nat)),
{
    g.add_edge(NodeIndex::new(a), NodeIndex::new(b), ()).index()
}

/// Relies on `Graph::find_edge`: the index of some edge from `a` to `b`, if there is one.
#[verifier::external_body]
pub(crate) fn graph_find_edge(g: &DepGraph, a: usize, b: usize) -> (r: Option<usize>)
    requires
        a < graph_node_count(*g),
        b < graph_node_count(*g),
    ensures
        r.is_none() <==> !has_edge(graph_edges(*g), a as nat, b as nat),
        r matches Some(i) ==> i < graph_edges(*g).len() && graph_edges(*g)[i as int] == (
        a as nat, b as nat),
{
    g.find_edge(NodeIndex::new(a), NodeIndex::new(b)).map(|e| e.index())
}

/// Relies on `Graph::remove_edge`: the last edge takes the place of the removed one
/// (a `swap_remove` of the edge list).
#[verifier::external_body]
pub(crate) fn graph_remove_edge(g: &mut DepGraph, e: usize)
    requires
        e < graph_edges(*old(g)).len(),
    ensures
        graph_node_count(*final(g)) == graph_node_count(*old(g)),
        graph_edges(*final(g)) == graph_edges(*old(g)).update(
            e as int,
            graph_edges(*old(g)).last(),
        ).drop_last(),
{
    g.remove_edge(EdgeIndex::new(e));
}

/// Relies on `Graph::neighbors_directed` with `Incoming`: the sources of the edges that end
/// at `n`, that is the nodes that depend on `n`.
#[verifier::external_body]
pub(crate) fn graph_dependents(g: &DepGraph, n: usize) -> (r: Vec<usize>)
    requires
        n < graph_node_count(*g),
    ensures
        forall|x: usize| r@.contains(x) <==> has_edge(graph_edges(*g), x as nat, n as nat),
{
    g.neighbors_directed(NodeIndex::new(n), Incoming).map(|x| x.index()).collect()
}

} // verus!
