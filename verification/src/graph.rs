//! The constraint graph: one node per cell, one edge between any two cells
//! that exclude each other.
//!
//! The graph is a `petgraph` graph. Verus does not look inside it: what a
//! graph holds is given a name ([`graph_nodes`], [`graph_edges`]), and each
//! `petgraph` method that the library calls is wrapped in a function whose
//! contract, stated over those names, is believed without proof. Everything
//! else in this file is proved from those contracts.

use petgraph::graph::Graph;
use petgraph::graph::NodeIndex;
use petgraph::Undirected;
use vstd::prelude::*;

verus! {

/// `petgraph::graph::Graph`, opaque to the verifier.
#[verifier::external_type_specification]
#[verifier::external_body]
#[verifier::reject_recursive_types(N)]
#[verifier::reject_recursive_types(E)]
#[verifier::reject_recursive_types(Ty)]
#[verifier::reject_recursive_types(Ix)]
pub struct ExGraph<N, E, Ty, Ix>(Graph<N, E, Ty, Ix>);

/// `petgraph::Undirected`, the marker of graphs whose edges have no direction.
#[verifier::external_type_specification]
#[verifier::external_body]
pub struct ExUndirected(Undirected);

/// An undirected graph whose nodes carry the row and column of a cell.
pub type ConstraintGraph = Graph<(usize, usize), (), Undirected, u32>;

/// The weights of the nodes of a graph, in the order of their indices.
pub uninterp spec fn graph_nodes(g: ConstraintGraph) -> Seq<(usize, usize)>;

/// The edges of a graph, in the order in which they were added, each as the
/// indices of the two nodes it was added between.
pub uninterp spec fn graph_edges(g: ConstraintGraph) -> Seq<(usize, usize)>;

/// Edge `e` joins the nodes `a` and `b`, in either direction.
pub open spec fn links(e: (usize, usize), a: int, b: int) -> bool {
    (e.0 == a && e.1 == b) || (e.0 == b && e.1 == a)
}

/// Some edge joins the nodes `a` and `b`.
pub open spec fn adjacent(edges: Seq<(usize, usize)>, a: int, b: int) -> bool {
    exists|i: int| 0 <= i < edges.len() && links(#[trigger] edges[i], a, b)
}

/// `out` lists, for each edge at node `a`, the node at its other end: the
/// edge with index `via[k]` joins `a` and `out[k]`, no edge is listed twice,
/// and every edge at `a` is listed.
pub open spec fn lists_neighbors(
    edges: Seq<(usize, usize)>,
    a: int,
    out: Seq<usize>,
    via: Seq<int>,
) -> bool {
    &&& via.len() == out.len()
    &&& via.no_duplicates()
    &&& forall|k: int|
        0 <= k < via.len() ==> 0 <= #[trigger] via[k] < edges.len() && links(
            edges[via[k]],
            a,
            out[k] as int,
        )
    &&& forall|i: int|
        0 <= i < edges.len() && ((#[trigger] edges[i]).0 == a || edges[i].1 == a) ==> via.contains(
            i,
        )
}

/// `Graph::new_undirected`: a graph without nodes or edges.
#[verifier::external_body]
pub(crate) fn graph_new() -> (g: ConstraintGraph)
    ensures
        graph_nodes(g) == Seq::<(usize, usize)>::empty(),
        graph_edges(g) == Seq::<(usize, usize)>::empty(),
{
    Graph::new_undirected()
}

/// `Graph::add_node`: appends a node with the given weight and returns its
/// index, which is the number of nodes there were before. The edges stay.
/// `petgraph` panics when the graph is full, which the precondition excludes.
#[verifier::external_body]
pub(crate) fn graph_add_node(g: &mut ConstraintGraph, weight: (usize, usize)) -> (index: usize)
    requires
        graph_nodes(*old(g)).len() < u32::MAX,
    ensures
        index == graph_nodes(*old(g)).len(),
        graph_nodes(*final(g)) == graph_nodes(*old(g)).push(weight),
        graph_edges(*final(g)) == graph_edges(*old(g)),
{
    g.add_node(weight).index()
}

/// `Graph::add_edge`: appends an edge between two existing nodes, also when
/// one is there already. The nodes stay. `petgraph` panics when a node is
/// missing or the graph is full, which the precondition excludes.
#[verifier::external_body]
pub(crate) fn graph_add_edge(g: &mut ConstraintGraph, a: usize, b: usize)
    requires
        a < graph_nodes(*old(g)).len(),
        b < graph_nodes(*old(g)).len(),
        graph_nodes(*old(g)).len() <= u32::MAX,
        graph_edges(*old(g)).len() < u32::MAX,
    ensures
        graph_nodes(*final(g)) == graph_nodes(*old(g)),
        graph_edges(*final(g)) == graph_edges(*old(g)).push((a, b)),
{
    g.add_edge(NodeIndex::new(a), NodeIndex::new(b), ());
}

/// `Graph::find_edge` on an undirected graph: the index of an edge that
/// joins `a` and `b` in either direction, or `None` when there is none.
#[verifier::external_body]
pub(crate) fn graph_find_edge(g: &ConstraintGraph, a: usize, b: usize) -> (found: Option<usize>)
    requires
        a < graph_nodes(*g).len(),
        b < graph_nodes(*g).len(),
        graph_nodes(*g).len() <= u32::MAX,
    ensures
        match found {
            Some(i) => i < graph_edges(*g).len() && links(graph_edges(*g)[i as int], a as int, b as int),
            None => !adjacent(graph_edges(*g), a as int, b as int),
        },
{
    match g.find_edge(NodeIndex::new(a), NodeIndex::new(b)) {
        Some(e) => Some(e.index()),
        None => None,
    }
}

/// `Graph::neighbors` on an undirected graph: for each edge at node `a`,
/// once, the index of the node at its other end. The order is left open.
#[verifier::external_body]
pub(crate) fn graph_neighbors(g: &ConstraintGraph, a: usize) -> (out: Vec<usize>)
    requires
        a < graph_nodes(*g).len(),
        graph_nodes(*g).len() <= u32::MAX,
    ensures
        exists|via: Seq<int>| lists_neighbors(graph_edges(*g), a as int, out@, via),
{
    let mut out: Vec<usize> = Vec::new();
    for n in g.neighbors(NodeIndex::new(a)) {
        out.push(n.index());
    }
    out
}

/// `Graph::node_weight`: the weight of the node with index `a`, or `None`
/// when the graph has no such node.
#[verifier::external_body]
pub(crate) fn graph_node_weight(g: &ConstraintGraph, a: usize) -> (weight: Option<(usize, usize)>)
    requires
        a <= u32::MAX,
    ensures
        weight == if a < graph_nodes(*g).len() {
            Some(graph_nodes(*g)[a as int])
        } else {
            None
        },
{
    match g.node_weight(NodeIndex::new(a)) {
        Some(w) => Some(*w),
        None => None,
    }
}

/// `Graph::clone`: a graph with the same nodes and edges under the same
/// indices.
#[verifier::external_body]
pub(crate) fn graph_clone(g: &ConstraintGraph) -> (copy: ConstraintGraph)
    ensures
        graph_nodes(copy) == graph_nodes(*g),
        graph_edges(copy) == graph_edges(*g),
{
    g.clone()
}

} // verus!
