//! Building the constraint graph of the 9×9 grid, unit by unit, and reading
//! the neighbours of a cell back from it.

use crate::graph::{
    adjacent, graph_add_edge, graph_edges, graph_find_edge, graph_nodes, links, ConstraintGraph,
};
use crate::rules::{
    col_of, in_unit, is_cell, is_peer, joined_before, lemma_cell_at_place, lemma_peer_iff_joined,
    lemma_places_ordered, lemma_unit_places, place_in_unit, row_of, unit_cell,
};
use vstd::prelude::*;

verus! {

/// The weights of the 81 nodes: node `p` carries the row and the column of
/// cell `p`.
pub open spec fn cell_weights() -> Seq<(usize, usize)> {
    Seq::new(81, |p: int| (row_of(p) as usize, col_of(p) as usize))
}

/// No two edges join the same pair of nodes.
pub open spec fn no_parallel_edges(edges: Seq<(usize, usize)>) -> bool {
    forall|i: int, j: int|
        0 <= i < j < edges.len() ==> !links(#[trigger] edges[i], (#[trigger] edges[j]).0 as int, edges[j].1 as int)
}

/// The constraint graph of the grid: one node per cell, in the order of the
/// cells, and exactly one edge between any two cells that exclude each other.
pub open spec fn is_constraint_graph(g: ConstraintGraph) -> bool {
    &&& graph_nodes(g) == cell_weights()
    &&& forall|i: int|
        0 <= i < graph_edges(g).len() ==> (#[trigger] graph_edges(g)[i]).0 < 81 && graph_edges(g)[i].1 < 81
    &&& no_parallel_edges(graph_edges(g))
    &&& forall|a: int, b: int|
        is_cell(a) && is_cell(b) ==> (#[trigger] adjacent(graph_edges(g), a, b) <==> is_peer(a, b))
}

/// An edge was added from node `a` to node `b`.
pub open spec fn has_edge(edges: Seq<(usize, usize)>, a: int, b: int) -> bool {
    exists|i: int| 0 <= i < edges.len() && #[trigger] edges[i] == (a as usize, b as usize)
}

/// What holds of the graph while unit `u` is being connected, when all pairs
/// of its cells whose places come before `(ia, ib)` are done: every edge
/// runs from a cell to a later cell, no edge stands twice, and two cells are
/// joined exactly when an earlier unit holds both or they are such a pair.
pub open spec fn connecting(g: ConstraintGraph, u: int, ia: int, ib: int) -> bool {
    let edges = graph_edges(g);
    &&& graph_nodes(g) == cell_weights()
    &&& edges.len() <= 81 * u + 9 * ia + ib
    &&& forall|i: int| 0 <= i < edges.len() ==> (#[trigger] edges[i]).0 < edges[i].1 < 81
    &&& forall|i: int, j: int| 0 <= i < j < edges.len() ==> #[trigger] edges[i] != #[trigger] edges[j]
    &&& forall|a: int, b: int|
        0 <= a < b < 81 ==> (#[trigger] has_edge(edges, a, b) <==> joined_before(a, b, u) || (in_unit(
            u,
            a,
        ) && in_unit(u, b) && (place_in_unit(u, a) < ia || (place_in_unit(u, a) == ia
            && place_in_unit(u, b) < ib))))
}

/// All units before unit `n` are connected.
pub open spec fn connected_before(g: ConstraintGraph, n: int) -> bool {
    connecting(g, n, 0, 0)
}

proof fn lemma_has_edge_push(edges: Seq<(usize, usize)>, e: (usize, usize), a: int, b: int)
    requires
        0 <= a < 81,
        0 <= b < 81,
    ensures
        has_edge(edges.push(e), a, b) <==> has_edge(edges, a, b) || e == (a as usize, b as usize),
{
    let grown = edges.push(e);
    if has_edge(edges, a, b) {
        let i = choose|i: int| 0 <= i < edges.len() && #[trigger] edges[i] == (a as usize, b as usize);
        assert(grown[i] == (a as usize, b as usize));
    }
    if e == (a as usize, b as usize) {
        assert(grown[edges.len() as int] == (a as usize, b as usize));
    }
    if has_edge(grown, a, b) {
        let i = choose|i: int| 0 <= i < grown.len() && #[trigger] grown[i] == (a as usize, b as usize);
        if i < edges.len() {
            assert(edges[i] == (a as usize, b as usize));
        }
    }
}

/// Adds an edge between any two cells of one unit, given as the indices of
/// its nine nodes in the order of the unit. With `lookup`, a pair that an
/// earlier unit has joined is left as it is; without it the caller knows that
/// there is no such pair.
pub(crate) fn connect_unit(
    g: &mut ConstraintGraph,
    nodes: &Vec<usize>,
    lookup: bool,
    Ghost(u): Ghost<int>,
)
    requires
        0 <= u < 27,
        connected_before(*old(g), u),
        nodes@.len() == 9,
        forall|k: int| 0 <= k < 9 ==> nodes@[k] == unit_cell(u, k),
        !lookup ==> forall|k: int, j: int|
            0 <= k < j < 9 ==> !joined_before(unit_cell(u, k), unit_cell(u, j), u),
    ensures
        connected_before(*final(g), u + 1),
{
    for index_a in 0..9usize
        invariant
            0 <= u < 27,
            connecting(*g, u, index_a as int, 0),
            nodes@.len() == 9,
            forall|k: int| 0 <= k < 9 ==> nodes@[k] == unit_cell(u, k),
            !lookup ==> forall|k: int, j: int|
                0 <= k < j < 9 ==> !joined_before(unit_cell(u, k), unit_cell(u, j), u),
    {
        proof {
            lemma_step_in(*g, u, index_a as int);
        }
        for index_b in (index_a + 1)..9usize
            invariant
                0 <= u < 27,
                index_a < 9,
                connecting(*g, u, index_a as int, index_b as int),
                nodes@.len() == 9,
                forall|k: int| 0 <= k < 9 ==> nodes@[k] == unit_cell(u, k),
                !lookup ==> forall|k: int, j: int|
                    0 <= k < j < 9 ==> !joined_before(unit_cell(u, k), unit_cell(u, j), u),
        {
            let a = nodes[index_a];
            let b = nodes[index_b];
            proof {
                lemma_unit_places(u, index_a as int);
                lemma_unit_places(u, index_b as int);
                lemma_places_in_order(u, index_a as int, index_b as int);
            }
            let ghost before = *g;
            let ghost present = has_edge(graph_edges(before), a as int, b as int);
            let mut missing = true;
            if lookup {
                let found = graph_find_edge(g, a, b);
                missing = found.is_none();
                proof {
                    lemma_found_is_present(graph_edges(before), a as int, b as int, found);
                }
            }
            assert(missing == !present);
            if missing {
                graph_add_edge(g, a, b);
            }
            proof {
                lemma_pair_done(before, *g, u, index_a as int, index_b as int);
            }
        }
        proof {
            lemma_step_out(*g, u, index_a as int);
        }
    }
    proof {
        lemma_unit_done(*g, u);
    }
}

/// Places in a unit and the cells at them stand in the same order.
proof fn lemma_places_in_order(u: int, k: int, j: int)
    requires
        0 <= u < 27,
        0 <= k < j < 9,
    ensures
        unit_cell(u, k) < unit_cell(u, j),
{
    lemma_unit_places(u, k);
    lemma_unit_places(u, j);
    if unit_cell(u, j) < unit_cell(u, k) {
        lemma_places_ordered(u, unit_cell(u, j), unit_cell(u, k));
    }
}

proof fn lemma_found_is_present(edges: Seq<(usize, usize)>, a: int, b: int, found: Option<usize>)
    requires
        0 <= a < b < 81,
        forall|i: int| 0 <= i < edges.len() ==> (#[trigger] edges[i]).0 < edges[i].1 < 81,
        match found {
            Some(i) => i < edges.len() && links(edges[i as int], a, b),
            None => !adjacent(edges, a, b),
        },
    ensures
        found is None <==> !has_edge(edges, a, b),
{
    match found {
        Some(i) => {
            assert(edges[i as int] == (a as usize, b as usize));
        },
        None => {
            if has_edge(edges, a, b) {
                let i = choose|i: int| 0 <= i < edges.len() && #[trigger] edges[i] == (a as usize, b as usize);
                assert(links(edges[i], a, b));
            }
        },
    }
}

/// Starting on the pairs whose first place is `ia`.
proof fn lemma_step_in(g: ConstraintGraph, u: int, ia: int)
    requires
        0 <= u < 27,
        0 <= ia < 9,
        connecting(g, u, ia, 0),
    ensures
        connecting(g, u, ia, ia + 1),
{
    let edges = graph_edges(g);
    assert forall|a: int, b: int| 0 <= a < b < 81 implies (#[trigger] has_edge(edges, a, b)
        <==> joined_before(a, b, u) || (in_unit(u, a) && in_unit(u, b) && (place_in_unit(u, a) < ia
        || (place_in_unit(u, a) == ia && place_in_unit(u, b) < ia + 1)))) by {
        if in_unit(u, a) && in_unit(u, b) {
            lemma_places_ordered(u, a, b);
        }
    }
}

/// Done with the pairs whose first place is `ia`.
proof fn lemma_step_out(g: ConstraintGraph, u: int, ia: int)
    requires
        0 <= u < 27,
        0 <= ia < 9,
        connecting(g, u, ia, 9),
    ensures
        connecting(g, u, ia + 1, 0),
{
    let edges = graph_edges(g);
    assert forall|a: int, b: int| 0 <= a < b < 81 implies (#[trigger] has_edge(edges, a, b)
        <==> joined_before(a, b, u) || (in_unit(u, a) && in_unit(u, b) && (place_in_unit(u, a) < ia
        + 1 || (place_in_unit(u, a) == ia + 1 && place_in_unit(u, b) < 0)))) by {
        if in_unit(u, a) && in_unit(u, b) {
            lemma_cell_at_place(u, a);
            lemma_cell_at_place(u, b);
        }
    }
}

/// Done with the unit.
proof fn lemma_unit_done(g: ConstraintGraph, u: int)
    requires
        0 <= u < 27,
        connecting(g, u, 9, 0),
    ensures
        connected_before(g, u + 1),
{
    let edges = graph_edges(g);
    assert forall|a: int, b: int| 0 <= a < b < 81 implies (#[trigger] has_edge(edges, a, b)
        <==> joined_before(a, b, u + 1) || (in_unit(u + 1, a) && in_unit(u + 1, b) && (
    place_in_unit(u + 1, a) < 0 || (place_in_unit(u + 1, a) == 0 && place_in_unit(u + 1, b) < 0))))
        by {
        lemma_peer_iff_joined(a, b);
        if in_unit(u, a) && in_unit(u, b) {
            lemma_cell_at_place(u, a);
            lemma_cell_at_place(u, b);
        }
    }
}

/// One pair of the unit is dealt with: its edge was there or has been added.
proof fn lemma_pair_done(before: ConstraintGraph, after: ConstraintGraph, u: int, ia: int, ib: int)
    requires
        0 <= u < 27,
        0 <= ia < ib < 9,
        connecting(before, u, ia, ib),
        graph_nodes(after) == graph_nodes(before),
        graph_edges(after) == if has_edge(
            graph_edges(before),
            unit_cell(u, ia),
            unit_cell(u, ib),
        ) {
            graph_edges(before)
        } else {
            graph_edges(before).push((unit_cell(u, ia) as usize, unit_cell(u, ib) as usize))
        },
    ensures
        connecting(after, u, ia, ib + 1),
{
    let old_edges = graph_edges(before);
    let edges = graph_edges(after);
    let x = unit_cell(u, ia);
    let y = unit_cell(u, ib);
    lemma_unit_places(u, ia);
    lemma_unit_places(u, ib);
    lemma_places_in_order(u, ia, ib);
    let e = (x as usize, y as usize);
    if !has_edge(old_edges, x, y) {
        assert forall|i: int, j: int| 0 <= i < j < edges.len() implies #[trigger] edges[i]
            != #[trigger] edges[j] by {
            if j == old_edges.len() {
                if old_edges[i] == e {
                    assert(has_edge(old_edges, x, y));
                }
            }
        }
    }
    assert forall|a: int, b: int| 0 <= a < b < 81 implies (#[trigger] has_edge(edges, a, b)
        <==> joined_before(a, b, u) || (in_unit(u, a) && in_unit(u, b) && (place_in_unit(u, a) < ia
        || (place_in_unit(u, a) == ia && place_in_unit(u, b) < ib + 1)))) by {
        lemma_has_edge_push(old_edges, e, a, b);
        if in_unit(u, a) && in_unit(u, b) {
            lemma_cell_at_place(u, a);
            lemma_cell_at_place(u, b);
        }
    }
}

} // verus!
