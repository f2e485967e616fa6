//! The board: the 81 cells with their candidates, the constraint graph, and
//! the index that sorts the cells by the number of their candidates.

use crate::color::{all_codes, colors_of, lemma_color_codes, lemma_colors_of_len, Color, COLORS};
use crate::constraints::{
    cell_weights, connect_unit, connected_before, has_edge, is_constraint_graph,
};
use crate::graph::{
    adjacent, graph_add_node, graph_clone, graph_edges, graph_neighbors, graph_new,
    graph_node_weight, graph_nodes, links, lists_neighbors, ConstraintGraph,
};
use crate::givens::{given_at, lemma_seeded_skips, place, seeded, Seeding};
use crate::rules::{
    candidates, cell_index, col_of, complete, consistent, contradictory, empty_grid, is_cell,
    is_peer, joined_before, lemma_assign_keeps_consistent, lemma_candidates_after_assign,
    lemma_cell_of_coordinates, lemma_coordinates, lemma_peer_iff_joined, lemma_unit_places, row_of,
    stuck, unit_cell, Grid,
};
use std::collections::HashSet;
use vstd::prelude::*;
use vstd::std_specs::iter::IteratorSpec;

verus! {

/// One cell of the board.
pub struct Cell {
    pub(crate) value: Option<Color>,
    pub(crate) possible_values: HashSet<u8>,
    pub(crate) graph_index: usize,
}

impl Cell {
    /// The symbol that the cell holds, if any.
    pub closed spec fn assigned(&self) -> Option<Color> {
        self.value
    }

    /// The numbers of the symbols that the cell keeps as candidates.
    pub closed spec fn codes(&self) -> Set<u8> {
        self.possible_values@
    }

    /// The symbols that the cell keeps as candidates.
    pub open spec fn candidates(&self) -> Set<Color> {
        colors_of(self.codes())
    }

    /// The index of the cell's node in the constraint graph.
    pub closed spec fn node(&self) -> int {
        self.graph_index as int
    }

    /// An empty cell with all nine symbols as candidates.
    pub fn new(node_index: usize) -> (cell: Cell)
        ensures
            cell.assigned() is None,
            cell.codes() == all_codes(),
            cell.node() == node_index,
    {
        broadcast use vstd::std_specs::hash::group_hash_axioms;

        let mut colors_set: HashSet<u8> = HashSet::new();
        for i in 0..9usize
            invariant
                colors_set@ == Set::new(|k: u8| 1 <= k <= i),
        {
            let color = COLORS[i];
            colors_set.insert(color.digit());
            assert(color.code() == i + 1);
            assert(colors_set@ =~= Set::new(|k: u8| 1 <= k <= i + 1));
        }
        assert(colors_set@ =~= all_codes());
        Cell { value: None, possible_values: colors_set, graph_index: node_index }
    }
}

/// A Sudoku board in the course of being filled.
pub struct SudokuBoard {
    pub(crate) grid: Vec<Cell>,
    pub(crate) constraints: ConstraintGraph,
    pub(crate) buckets: Vec<HashSet<usize>>,
    pub(crate) conflict: bool,
}

impl View for SudokuBoard {
    type V = Grid;

    /// What the cells hold.
    closed spec fn view(&self) -> Grid {
        Seq::new(81, |p: int| self.grid@[p].value)
    }
}

impl SudokuBoard {
    /// A given could not be placed: it contradicted what the board held.
    pub closed spec fn conflicting(&self) -> bool {
        self.conflict
    }

    /// The candidates that the board keeps for cell `p`.
    pub closed spec fn candidates_at(&self, p: int) -> Set<Color> {
        self.grid@[p].candidates()
    }

    /// The constraint graph of the board.
    pub closed spec fn constraint_graph(&self) -> ConstraintGraph {
        self.constraints
    }

    /// The cells that the index lists under `k` candidates.
    pub closed spec fn bucket(&self, k: int) -> Set<int> {
        Set::new(|p: int| is_cell(p) && self.buckets@[k]@.contains(p as usize))
    }

    /// The board is in one piece: it has its 81 cells and its constraint
    /// graph, every cell keeps only symbols as candidates, and the index
    /// lists every cell under the number of its candidates.
    pub closed spec fn indexed(&self) -> bool {
        &&& self.grid@.len() == 81
        &&& self.buckets@.len() == 10
        &&& is_constraint_graph(self.constraints)
        &&& forall|p: int| is_cell(p) ==> (#[trigger] self.grid@[p]).graph_index == p
        &&& forall|p: int| is_cell(p) ==> (#[trigger] self.grid@[p]).possible_values@.subset_of(all_codes())
        &&& forall|k: int, i: usize|
            0 <= k < 10 ==> (#[trigger] self.buckets@[k]@.contains(i) <==> i < 81
                && self.grid@[i as int].possible_values@.len() == k)
    }

    /// The board is valid: it is in one piece, no two cells that exclude each
    /// other hold the same symbol, and the candidates kept for each cell are
    /// exactly those that the rules leave.
    pub closed spec fn wf(&self) -> bool {
        &&& self.indexed()
        &&& consistent(self@)
        &&& forall|p: int| is_cell(p) ==> #[trigger] self.candidates_at(p) == candidates(self@, p)
    }
}

/// The cells of a new board, each with a node of its own in the graph.
fn fresh_cells(constraints: &mut ConstraintGraph) -> (grid: Vec<Cell>)
    requires
        graph_nodes(*old(constraints)).len() == 0,
        graph_edges(*old(constraints)).len() == 0,
    ensures
        grid@.len() == 81,
        graph_nodes(*final(constraints)) == cell_weights(),
        graph_edges(*final(constraints)).len() == 0,
        forall|p: int|
            is_cell(p) ==> (#[trigger] grid@[p]).value is None && grid@[p].possible_values@
                == all_codes() && grid@[p].graph_index == p,
{
    let mut grid: Vec<Cell> = Vec::new();
    for p in 0..81usize
        invariant
            grid@.len() == p,
            graph_nodes(*constraints) == cell_weights().take(p as int),
            graph_edges(*constraints).len() == 0,
            forall|i: int|
                0 <= i < p ==> (#[trigger] grid@[i]).value is None && grid@[i].possible_values@
                    == all_codes() && grid@[i].graph_index == i,
    {
        let index = graph_add_node(constraints, (p / 9, p % 9));
        grid.push(Cell::new(index));
        assert(graph_nodes(*constraints) =~= cell_weights().take(p + 1));
    }
    assert(graph_nodes(*constraints) =~= cell_weights());
    grid
}

/// The index of a board: ten sets of cells, each cell in the set of the
/// number of its candidates.
fn fresh_buckets(grid: &Vec<Cell>) -> (buckets: Vec<HashSet<usize>>)
    requires
        grid@.len() == 81,
        forall|p: int| is_cell(p) ==> (#[trigger] grid@[p]).possible_values@ == all_codes(),
    ensures
        buckets@.len() == 10,
        forall|k: int, i: usize|
            0 <= k < 10 ==> (#[trigger] buckets@[k]@.contains(i) <==> i < 81 && k == 9),
{
    broadcast use vstd::std_specs::hash::group_hash_axioms;

    let mut buckets: Vec<HashSet<usize>> = Vec::new();
    for k in 0..10usize
        invariant
            buckets@.len() == k,
            forall|j: int, i: usize| 0 <= j < k ==> !#[trigger] buckets@[j]@.contains(i),
    {
        buckets.push(HashSet::new());
    }
    for p in 0..81usize
        invariant
            grid@.len() == 81,
            forall|q: int| is_cell(q) ==> (#[trigger] grid@[q]).possible_values@ == all_codes(),
            buckets@.len() == 10,
            forall|k: int, i: usize|
                0 <= k < 10 ==> (#[trigger] buckets@[k]@.contains(i) <==> i < p && k == 9),
    {
        assert(is_cell(p as int));
        let num_cell_possible_values = grid[p].possible_values.len();
        assert(num_cell_possible_values == 9);
        buckets[num_cell_possible_values].insert(p);
    }
    buckets
}

/// The nodes of the nine cells of a unit, in the order of the unit.
fn unit_nodes(grid: &Vec<Cell>, unit: usize) -> (nodes: Vec<usize>)
    requires
        grid@.len() == 81,
        forall|p: int| is_cell(p) ==> (#[trigger] grid@[p]).graph_index == p,
        unit < 27,
    ensures
        nodes@.len() == 9,
        forall|k: int| 0 <= k < 9 ==> nodes@[k] == unit_cell(unit as int, k),
{
    let mut nodes: Vec<usize> = Vec::new();
    for k in 0..9usize
        invariant
            grid@.len() == 81,
            forall|p: int| is_cell(p) ==> (#[trigger] grid@[p]).graph_index == p,
            unit < 27,
            nodes@.len() == k,
            forall|j: int| 0 <= j < k ==> nodes@[j] == unit_cell(unit as int, j),
    {
        proof {
            lemma_unit_places(unit as int, k as int);
        }
        let p = if unit < 9 {
            unit * 9 + k
        } else if unit < 18 {
            k * 9 + (unit - 9)
        } else {
            (((unit - 18) / 3) * 3 + k / 3) * 9 + ((unit - 18) % 3) * 3 + k % 3
        };
        nodes.push(grid[p].graph_index);
    }
    nodes
}

impl SudokuBoard {
    /// An empty board: no cell holds a symbol, and each has all nine
    /// candidates.
    pub fn new() -> (board: SudokuBoard)
        ensures
            board.wf(),
            board@ == empty_grid(),
            !board.conflicting(),
    {
        let mut constraints: ConstraintGraph = graph_new();
        let grid: Vec<Cell> = fresh_cells(&mut constraints);
        let buckets: Vec<HashSet<usize>> = fresh_buckets(&grid);
        assert(connected_before(constraints, 0));
        for row in 0..9usize
            invariant
                grid@.len() == 81,
                forall|p: int| is_cell(p) ==> (#[trigger] grid@[p]).graph_index == p,
                connected_before(constraints, row as int),
        {
            let nodes = unit_nodes(&grid, row);
            proof {
                lemma_line_is_new(row as int);
            }
            connect_unit(&mut constraints, &nodes, false, Ghost(row as int));
        }
        for col in 0..9usize
            invariant
                grid@.len() == 81,
                forall|p: int| is_cell(p) ==> (#[trigger] grid@[p]).graph_index == p,
                connected_before(constraints, 9 + col),
        {
            let nodes = unit_nodes(&grid, 9 + col);
            proof {
                lemma_line_is_new(9 + col);
            }
            connect_unit(&mut constraints, &nodes, false, Ghost(9 + col));
        }
        for block_row in 0..3usize
            invariant
                grid@.len() == 81,
                forall|p: int| is_cell(p) ==> (#[trigger] grid@[p]).graph_index == p,
                connected_before(constraints, 18 + 3 * block_row),
        {
            for block_col in 0..3usize
                invariant
                    block_row < 3,
                    grid@.len() == 81,
                    forall|p: int| is_cell(p) ==> (#[trigger] grid@[p]).graph_index == p,
                    connected_before(constraints, 18 + 3 * block_row + block_col),
            {
                let unit = 18 + 3 * block_row + block_col;
                let nodes = unit_nodes(&grid, unit);
                connect_unit(&mut constraints, &nodes, true, Ghost(unit as int));
            }
        }
        proof {
            lemma_all_connected(constraints);
        }
        let board = SudokuBoard { grid, constraints, buckets, conflict: false };
        proof {
            assert(board@ =~= empty_grid());
            assert forall|p: int| is_cell(p) implies #[trigger] board.candidates_at(p)
                == candidates(board@, p) by {
                assert(board.candidates_at(p) =~= candidates(board@, p)) by {
                    assert forall|c: Color| candidates(board@, p).contains(c) by {
                        lemma_color_codes(c);
                    }
                    assert forall|c: Color| board.candidates_at(p).contains(c) by {
                        lemma_color_codes(c);
                    }
                }
            }
        }
        board
    }
}

impl SudokuBoard {
    /// The cells that exclude the given cell: each of them once, as row and
    /// column, in no particular order.
    pub fn get_cell_constraint_neighbors(&self, grid_index: (usize, usize)) -> (neighbors: Vec<
        (usize, usize),
    >)
        requires
            self.indexed(),
            grid_index.0 < 9,
            grid_index.1 < 9,
        ensures
            neighbors@.no_duplicates(),
            forall|q: (usize, usize)|
                neighbors@.contains(q) <==> q.0 < 9 && q.1 < 9 && is_peer(
                    cell_index(grid_index.0 as int, grid_index.1 as int),
                    cell_index(q.0 as int, q.1 as int),
                ),
    {
        let (row, col) = grid_index;
        let ghost p = cell_index(row as int, col as int);
        let node = self.grid[row * 9 + col].graph_index;
        let found = graph_neighbors(&self.constraints, node);
        proof {
            let via = choose|via: Seq<int>|
                lists_neighbors(graph_edges(self.constraints), p, found@, via);
            lemma_neighbors_are_peers(self.constraints, p, found@, via);
        }
        let mut neighbors: Vec<(usize, usize)> = Vec::new();
        for k in 0..found.len()
            invariant
                graph_nodes(self.constraints) == cell_weights(),
                forall|j: int| 0 <= j < found@.len() ==> is_cell(#[trigger] found@[j] as int),
                neighbors@.len() == k,
                forall|j: int|
                    0 <= j < k ==> #[trigger] neighbors@[j] == (
                        row_of(found@[j] as int) as usize,
                        col_of(found@[j] as int) as usize,
                    ),
        {
            let neighbor = found[k];
            assert(is_cell(found@[k as int] as int));
            let index = match graph_node_weight(&self.constraints, neighbor) {
                Some(index) => index,
                None => (row, col),
            };
            neighbors.push(index);
        }
        proof {
            assert forall|i: int, j: int|
                0 <= i < neighbors@.len() && 0 <= j < neighbors@.len() && i != j implies neighbors@[i]
                != neighbors@[j] by {
                assert(is_cell(found@[i] as int) && is_cell(found@[j] as int));
                lemma_cell_of_coordinates(found@[i] as int);
                lemma_cell_of_coordinates(found@[j] as int);
                assert(found@[i] != found@[j]);
            }
            assert forall|q: (usize, usize)|
                neighbors@.contains(q) <==> q.0 < 9 && q.1 < 9 && is_peer(
                    p,
                    cell_index(q.0 as int, q.1 as int),
                ) by {
                if neighbors@.contains(q) {
                    let j = choose|j: int| 0 <= j < neighbors@.len() && neighbors@[j] == q;
                    assert(is_cell(found@[j] as int));
                    lemma_cell_of_coordinates(found@[j] as int);
                }
                if q.0 < 9 && q.1 < 9 && is_peer(p, cell_index(q.0 as int, q.1 as int)) {
                    let x = cell_index(q.0 as int, q.1 as int);
                    lemma_coordinates(q.0 as int, q.1 as int);
                    assert(found@.contains(x as usize));
                    let j = choose|j: int| 0 <= j < found@.len() && found@[j] == x as usize;
                    assert(neighbors@[j] == q);
                }
            }
        }
        neighbors
    }
}

impl SudokuBoard {
    /// Takes the symbol of the given cell, if it holds one, from the
    /// candidates of every cell that it excludes, and moves each of those
    /// cells in the index to the number of candidates it has left. A valid
    /// board stays as it is: there the symbol is no candidate of those cells.
    pub fn brodcast_cell_color_to_neighbors(&mut self, grid_index: (usize, usize))
        requires
            old(self).indexed(),
            grid_index.0 < 9,
            grid_index.1 < 9,
        ensures
            final(self).indexed(),
            final(self)@ == old(self)@,
            final(self).conflicting() == old(self).conflicting(),
            forall|i: int|
                is_cell(i) ==> #[trigger] final(self).candidates_at(i) == match old(self)@[cell_index(
                    grid_index.0 as int,
                    grid_index.1 as int,
                )] {
                    Some(color) => if is_peer(
                        cell_index(grid_index.0 as int, grid_index.1 as int),
                        i,
                    ) {
                        old(self).candidates_at(i).remove(color)
                    } else {
                        old(self).candidates_at(i)
                    },
                    None => old(self).candidates_at(i),
                },
            old(self).wf() ==> final(self).wf(),
    {
        broadcast use vstd::std_specs::hash::group_hash_axioms;

        let (cell_row, cell_col) = grid_index;
        let ghost p = cell_index(cell_row as int, cell_col as int);
        let ghost before = *self;
        if let Some(color) = self.grid[cell_row * 9 + cell_col].value {
            let code = color.digit();
            let neighbors = self.get_cell_constraint_neighbors((cell_row, cell_col));
            for n in 0..neighbors.len()
                invariant
                    self.indexed(),
                    before.indexed(),
                    self@ == before@,
                    self.conflict == before.conflict,
                    is_cell(p),
                    code == color.code(),
                    forall|q: (usize, usize)|
                        neighbors@.contains(q) <==> q.0 < 9 && q.1 < 9 && is_peer(
                            p,
                            cell_index(q.0 as int, q.1 as int),
                        ),
                    forall|i: int|
                        is_cell(i) ==> (#[trigger] self.grid@[i]).possible_values@ == if exists|j: int|
                            0 <= j < n && cell_index(
                                neighbors@[j].0 as int,
                                neighbors@[j].1 as int,
                            ) == i {
                            before.grid@[i].possible_values@.remove(code)
                        } else {
                            before.grid@[i].possible_values@
                        },
            {
                let (row, col) = neighbors[n];
                assert(neighbors@.contains(neighbors@[n as int]));
                let i = row * 9 + col;
                let ghost entering = *self;
                assert(is_cell(i as int));
                proof {
                    lemma_colors_of_len(self.grid@[i as int].possible_values@);
                }
                let old_count = self.grid[i].possible_values.len();
                self.grid[i].possible_values.remove(&code);
                proof {
                    lemma_colors_of_len(self.grid@[i as int].possible_values@);
                }
                let new_count = self.grid[i].possible_values.len();
                self.buckets[old_count].remove(&i);
                self.buckets[new_count].insert(i);
                proof {
                    assert(self@ =~= before@);
                    assert forall|x: int| is_cell(x) implies (#[trigger] self.grid@[x]).possible_values@
                        == if exists|j: int|
                        0 <= j < n + 1 && cell_index(
                            neighbors@[j].0 as int,
                            neighbors@[j].1 as int,
                        ) == x {
                        before.grid@[x].possible_values@.remove(code)
                    } else {
                        before.grid@[x].possible_values@
                    } by {
                        let seen = exists|j: int|
                            0 <= j < n && cell_index(
                                neighbors@[j].0 as int,
                                neighbors@[j].1 as int,
                            ) == x;
                        assert(entering.grid@[x].possible_values@ == if seen {
                            before.grid@[x].possible_values@.remove(code)
                        } else {
                            before.grid@[x].possible_values@
                        });
                        if x == i {
                            assert(cell_index(
                                neighbors@[n as int].0 as int,
                                neighbors@[n as int].1 as int,
                            ) == x);
                            assert(self.grid@[x].possible_values@
                                =~= before.grid@[x].possible_values@.remove(code));
                        } else if seen {
                            let j = choose|j: int|
                                0 <= j < n && cell_index(
                                    neighbors@[j].0 as int,
                                    neighbors@[j].1 as int,
                                ) == x;
                            assert(0 <= j < n + 1);
                        }
                    }
                }
            }
            proof {
                assert forall|i: int| is_cell(i) implies #[trigger] self.candidates_at(i) == if is_peer(
                    p,
                    i,
                ) {
                    before.candidates_at(i).remove(color)
                } else {
                    before.candidates_at(i)
                } by {
                    let seen = exists|j: int|
                        0 <= j < neighbors@.len() && cell_index(
                            neighbors@[j].0 as int,
                            neighbors@[j].1 as int,
                        ) == i;
                    lemma_cell_of_coordinates(i);
                    let q = (row_of(i) as usize, col_of(i) as usize);
                    if seen {
                        let j = choose|j: int|
                            0 <= j < neighbors@.len() && cell_index(
                                neighbors@[j].0 as int,
                                neighbors@[j].1 as int,
                            ) == i;
                        assert(neighbors@.contains(neighbors@[j]));
                    }
                    if is_peer(p, i) {
                        assert(neighbors@.contains(q));
                        let j = choose|j: int| 0 <= j < neighbors@.len() && neighbors@[j] == q;
                        assert(cell_index(neighbors@[j].0 as int, neighbors@[j].1 as int) == i);
                    }
                    assert(seen == is_peer(p, i));
                    lemma_colors_without(before.grid@[i].possible_values@, color);
                }
                if before.wf() {
                    assert forall|i: int| is_cell(i) implies #[trigger] self.candidates_at(i)
                        == candidates(self@, i) by {
                        assert(before.candidates_at(i) == candidates(before@, i));
                        if is_peer(p, i) {
                            assert(!candidates(before@, i).contains(color)) by {
                                assert(is_peer(i, p));
                            }
                            assert(before.candidates_at(i).remove(color) =~= before.candidates_at(
                                i,
                            ));
                        }
                    }
                }
            }
        }
    }

    /// Puts a symbol into an empty cell of which it is a candidate: the cell
    /// holds the symbol and keeps no candidates, and the symbol is no longer
    /// a candidate of any cell that the cell excludes.
    pub fn set_cell_color(&mut self, grid_index: (usize, usize), color: Color)
        requires
            old(self).wf(),
            grid_index.0 < 9,
            grid_index.1 < 9,
            candidates(old(self)@, cell_index(grid_index.0 as int, grid_index.1 as int)).contains(
                color,
            ),
        ensures
            final(self).wf(),
            final(self)@ == old(self)@.update(
                cell_index(grid_index.0 as int, grid_index.1 as int),
                Some(color),
            ),
            final(self).conflicting() == old(self).conflicting(),
    {
        broadcast use vstd::std_specs::hash::group_hash_axioms;

        let (cell_row, cell_col) = grid_index;
        let p = cell_row * 9 + cell_col;
        let ghost before = *self;
        assert(is_cell(p as int));
        proof {
            lemma_colors_of_len(self.grid@[p as int].possible_values@);
        }
        self.grid[p].value = Some(color);
        let old_count = self.grid[p].possible_values.len();
        self.grid[p].possible_values.clear();
        let new_count: usize = self.grid[p].possible_values.len();
        self.buckets[old_count].remove(&p);
        self.buckets[new_count].insert(p);
        let ghost cleared = *self;
        proof {
            assert(cleared@ =~= before@.update(p as int, Some(color)));
            assert(cleared.indexed());
            assert forall|i: int| is_cell(i) implies #[trigger] cleared.candidates_at(i) == if i == p {
                Set::<Color>::empty()
            } else {
                before.candidates_at(i)
            } by {
                if i == p {
                    assert(cleared.candidates_at(i) =~= Set::<Color>::empty());
                }
            }
        }
        self.brodcast_cell_color_to_neighbors((cell_row, cell_col));
        proof {
            lemma_assign_keeps_consistent(before@, p as int, color);
            assert forall|i: int| is_cell(i) implies #[trigger] self.candidates_at(i) == candidates(
                self@,
                i,
            ) by {
                lemma_candidates_after_assign(before@, p as int, color, i);
                assert(before.candidates_at(i) == candidates(before@, i));
                assert(cleared.candidates_at(i) == if i == p {
                    Set::<Color>::empty()
                } else {
                    before.candidates_at(i)
                });
            }
        }
    }
}

/// Some member of a set, if it has any; which one is left open.
fn any_member(s: &HashSet<usize>) -> (member: Option<usize>)
    ensures
        match member {
            Some(x) => s@.contains(x),
            None => s@ == Set::<usize>::empty(),
        },
{
    broadcast use vstd::std_specs::hash::group_hash_axioms;

    let ghost full: Seq<&usize> = s.iter().remaining();
    for x in it: s.iter()
        invariant
            it.seq() == full,
            full.unref().to_set() == s@,
            it.index() == 0,
    {
        assert(full.unref()[0] == *x);
        assert(full.unref().contains(*x));
        return Some(*x);
    }
    assert(full.len() == 0);
    assert(full.unref().to_set() =~= Set::<usize>::empty());
    None
}

impl SudokuBoard {
    /// On a valid board the number of candidates kept for a cell is the
    /// number of candidates that the rules leave it, and at most nine.
    proof fn lemma_count(&self, p: int)
        requires
            self.wf(),
            is_cell(p),
        ensures
            self.grid@[p].possible_values@.finite(),
            self.grid@[p].possible_values@.len() == candidates(self@, p).len(),
            candidates(self@, p).len() <= 9,
            candidates(self@, p).finite(),
            self@[p] == self.grid@[p].value,
    {
        lemma_colors_of_len(self.grid@[p].possible_values@);
        assert(self.candidates_at(p) == candidates(self@, p));
    }

    /// Every cell holds a symbol.
    pub fn is_complete(&self) -> (full: bool)
        requires
            self.wf(),
        ensures
            full == complete(self@),
    {
        for p in 0..81usize
            invariant
                self.wf(),
                forall|q: int| 0 <= q < p ==> (#[trigger] self@[q]) is Some,
        {
            if self.grid[p].value.is_none() {
                assert(self@[p as int] is None);
                return false;
            }
        }
        true
    }

    /// Some empty cell has no candidate left.
    pub fn has_contadiction(&self) -> (stopped: bool)
        requires
            self.wf(),
        ensures
            stopped == contradictory(self@),
    {
        broadcast use vstd::std_specs::hash::group_hash_axioms;

        for row in 0..9usize
            invariant
                self.wf(),
                forall|q: int| 0 <= q < 9 * row ==> !stuck(self@, q),
        {
            for col in 0..9usize
                invariant
                    self.wf(),
                    row < 9,
                    forall|q: int| 0 <= q < 9 * row + col ==> !stuck(self@, q),
            {
                let cell = &self.grid[row * 9 + col];
                proof {
                    self.lemma_count(row * 9 + col);
                }
                if cell.value.is_none() && cell.possible_values.is_empty() {
                    assert(stuck(self@, row * 9 + col));
                    return true;
                }
            }
        }
        false
    }

    /// An empty cell with the fewest candidates among those that have at
    /// least two; which of several such cells is left open. `None` when no
    /// cell has two candidates or more.
    pub fn select_unassigned_cell(&self) -> (choice: Option<(usize, usize)>)
        requires
            self.wf(),
        ensures
            match choice {
                Some((row, col)) => {
                    &&& row < 9
                    &&& col < 9
                    &&& 2 <= candidates(self@, cell_index(row as int, col as int)).len()
                    &&& forall|q: int|
                        is_cell(q) && 2 <= (#[trigger] candidates(self@, q)).len() ==> candidates(
                            self@,
                            cell_index(row as int, col as int),
                        ).len() <= candidates(self@, q).len()
                },
                None => forall|q: int| is_cell(q) ==> (#[trigger] candidates(self@, q)).len() < 2,
            },
    {
        for count in 2..10usize
            invariant
                self.wf(),
                forall|q: int|
                    is_cell(q) ==> (#[trigger] candidates(self@, q)).len() < 2 || candidates(
                        self@,
                        q,
                    ).len() >= count,
        {
            if let Some(cell) = any_member(&self.buckets[count]) {
                proof {
                    self.lemma_count(cell as int);
                }
                return Some((cell / 9, cell % 9));
            }
            proof {
                assert forall|q: int| is_cell(q) implies (#[trigger] candidates(self@, q)).len() < 2
                    || candidates(self@, q).len() >= count + 1 by {
                    self.lemma_count(q);
                    if candidates(self@, q).len() == count {
                        assert(self.buckets@[count as int]@.contains(q as usize));
                    }
                }
            }
        }
        proof {
            assert forall|q: int| is_cell(q) implies (#[trigger] candidates(self@, q)).len() < 2 by {
                self.lemma_count(q);
            }
        }
        None
    }
}

impl SudokuBoard {
    /// The grid and the mark of contradiction of the board.
    pub open spec fn seeding(&self) -> Seeding {
        Seeding { grid: self@, conflict: self.conflicting() }
    }

    /// Places one given. Where the cell holds the symbol already nothing
    /// happens; where the symbol is a candidate of the cell it is put there;
    /// else the board stays as it is but for the mark that a given
    /// contradicted it.
    pub fn set_given(&mut self, grid_index: (usize, usize), color: Color)
        requires
            old(self).wf(),
            grid_index.0 < 9,
            grid_index.1 < 9,
        ensures
            final(self).wf(),
            final(self).seeding() == place(
                old(self).seeding(),
                cell_index(grid_index.0 as int, grid_index.1 as int),
                Some(color),
            ),
    {
        broadcast use vstd::std_specs::hash::group_hash_axioms;

        let (row, col) = grid_index;
        let p = row * 9 + col;
        assert(is_cell(p as int));
        assert(self.candidates_at(p as int) == candidates(self@, p as int));
        let there = match self.grid[p].value {
            Some(held) => held == color,
            None => false,
        };
        if there {
        } else if self.grid[p].possible_values.contains(&color.digit()) {
            self.set_cell_color((row, col), color);
        } else {
            self.conflict = true;
            assert(self@ =~= old(self)@);
            assert forall|q: int| is_cell(q) implies #[trigger] self.candidates_at(q) == candidates(
                self@,
                q,
            ) by {
                assert(old(self).candidates_at(q) == candidates(old(self)@, q));
            }
        }
    }

    /// Places the givens of a puzzle text, row by row: the digits `1` to `9`
    /// stand for the symbols, every other character for an empty cell.
    pub fn initialize_board_colors(&mut self, puzzle: Vec<Vec<char>>)
        requires
            old(self).wf(),
            puzzle@.len() <= 9,
            forall|row: int| 0 <= row < puzzle@.len() ==> (#[trigger] puzzle@[row])@.len() <= 9,
        ensures
            final(self).wf(),
            final(self).seeding() == seeded(old(self).seeding(), puzzle.deep_view(), 81),
    {
        let ghost start = self.seeding();
        let ghost text = puzzle.deep_view();
        assert(text.len() == puzzle@.len());
        assert forall|row: int| 0 <= row < puzzle@.len() implies #[trigger] text[row]
            == puzzle@[row]@ by {
            assert(text[row] =~= puzzle@[row]@);
        }
        for row in 0..puzzle.len()
            invariant
                self.wf(),
                puzzle@.len() <= 9,
                text.len() == puzzle@.len(),
                forall|r: int| 0 <= r < puzzle@.len() ==> #[trigger] text[r] == puzzle@[r]@,
                forall|r: int| 0 <= r < puzzle@.len() ==> (#[trigger] puzzle@[r])@.len() <= 9,
                self.seeding() == seeded(start, text, 9 * row),
        {
            let row_data = &puzzle[row];
            for col in 0..row_data.len()
                invariant
                    self.wf(),
                    row < puzzle@.len() <= 9,
                    row_data == puzzle@[row as int],
                    row_data@.len() <= 9,
                    text.len() == puzzle@.len(),
                    text[row as int] == row_data@,
                    self.seeding() == seeded(start, text, 9 * row + col),
            {
                let puzzle_cell = row_data[col];
                proof {
                    lemma_coordinates(row as int, col as int);
                }
                match Color::from_char(puzzle_cell) {
                    Some(color) => {
                        self.set_given((row, col), color);
                    },
                    None => {},
                }
            }
            proof {
                let len = row_data@.len() as int;
                assert forall|p: int| 9 * row + len <= p < 9 * row + 9 implies given_at(text, p)
                    is None by {
                    lemma_coordinates(row as int, p - 9 * row);
                }
                lemma_seeded_skips(start, text, 9 * row + len, 9 * row + 9);
            }
        }
        proof {
            let rows = puzzle@.len() as int;
            assert forall|p: int| 9 * rows <= p < 81 implies given_at(text, p) is None by {
                lemma_cell_of_coordinates(p);
            }
            lemma_seeded_skips(start, text, 9 * rows, 81);
        }
    }
}

/// The members of a set, each once; their order is left open.
fn members(s: &HashSet<usize>) -> (listed: Vec<usize>)
    ensures
        listed@.to_set() == s@,
        listed@.no_duplicates(),
{
    broadcast use vstd::std_specs::hash::group_hash_axioms;

    let ghost full: Seq<&usize> = s.iter().remaining();
    let mut listed: Vec<usize> = Vec::new();
    for x in it: s.iter()
        invariant
            it.seq() == full,
            full.unref().to_set() == s@,
            full.no_duplicates(),
            listed@ == full.unref().take(it.index()),
    {
        listed.push(*x);
        assert(listed@ =~= full.unref().take(it.index() + 1));
    }
    assert(listed@ =~= full.unref());
    assert(listed@.no_duplicates()) by {
        assert forall|i: int, j: int|
            0 <= i < listed@.len() && 0 <= j < listed@.len() && i != j implies listed@[i]
            != listed@[j] by {
            assert(full[i] != full[j]);
        }
    }
    listed
}

/// A set with the same members.
fn copy_of<K: Copy + Eq + std::hash::Hash>(s: &HashSet<K>) -> (copy: HashSet<K>)
    requires
        vstd::std_specs::hash::obeys_key_model::<K>(),
    ensures
        copy@ == s@,
{
    broadcast use vstd::std_specs::hash::group_hash_axioms;

    let ghost full: Seq<&K> = s.iter().remaining();
    let mut copy: HashSet<K> = HashSet::new();
    for x in it: s.iter()
        invariant
            vstd::std_specs::hash::obeys_key_model::<K>(),
            it.seq() == full,
            full.unref().to_set() == s@,
            copy@ == full.unref().take(it.index()).to_set(),
    {
        copy.insert(*x);
        assert(full.unref().take(it.index() + 1) =~= full.unref().take(it.index()).push(*x));
        assert(copy@ =~= full.unref().take(it.index() + 1).to_set()) by {
            let shorter = full.unref().take(it.index());
            assert forall|k: K| shorter.push(*x).contains(k) <==> shorter.contains(k) || k == *x by {
                if shorter.contains(k) {
                    let i = choose|i: int| 0 <= i < shorter.len() && shorter[i] == k;
                    assert(shorter.push(*x)[i] == k);
                }
                if k == *x {
                    assert(shorter.push(*x)[shorter.len() as int] == k);
                }
            }
        }
    }
    assert(full.unref().take(full.len() as int) =~= full.unref());
    copy
}

impl Clone for Cell {
    fn clone(&self) -> (copy: Cell)
        ensures
            copy.assigned() == self.assigned(),
            copy.codes() == self.codes(),
            copy.node() == self.node(),
    {
        broadcast use vstd::std_specs::hash::group_hash_axioms;

        Cell {
            value: self.value,
            possible_values: copy_of(&self.possible_values),
            graph_index: self.graph_index,
        }
    }
}

impl Clone for SudokuBoard {
    /// A board of its own that holds what this one holds.
    fn clone(&self) -> (copy: SudokuBoard)
        ensures
            self.indexed() ==> {
                &&& copy.indexed()
                &&& copy@ == self@
                &&& copy.conflicting() == self.conflicting()
                &&& copy.wf() == self.wf()
                &&& forall|p: int|
                    is_cell(p) ==> #[trigger] copy.candidates_at(p) == self.candidates_at(p)
                &&& forall|k: int| 0 <= k <= 9 ==> #[trigger] copy.bucket(k) == self.bucket(k)
            },
    {
        broadcast use vstd::std_specs::hash::group_hash_axioms;

        let mut grid: Vec<Cell> = Vec::new();
        for p in 0..self.grid.len()
            invariant
                grid@.len() == p,
                forall|i: int|
                    0 <= i < p ==> (#[trigger] grid@[i]).value == self.grid@[i].value
                        && grid@[i].possible_values@ == self.grid@[i].possible_values@
                        && grid@[i].graph_index == self.grid@[i].graph_index,
        {
            grid.push(self.grid[p].clone());
        }
        let mut buckets: Vec<HashSet<usize>> = Vec::new();
        for k in 0..self.buckets.len()
            invariant
                buckets@.len() == k,
                forall|i: int| 0 <= i < k ==> (#[trigger] buckets@[i])@ == self.buckets@[i]@,
        {
            buckets.push(copy_of(&self.buckets[k]));
        }
        let copy = SudokuBoard {
            grid,
            constraints: graph_clone(&self.constraints),
            buckets,
            conflict: self.conflict,
        };
        proof {
            if self.indexed() {
                assert(copy@ =~= self@);
                assert forall|k: int| 0 <= k <= 9 implies #[trigger] copy.bucket(k) == self.bucket(
                    k,
                ) by {
                    assert(copy.bucket(k) =~= self.bucket(k));
                }
                assert forall|p: int| is_cell(p) implies #[trigger] copy.candidates_at(p)
                    == self.candidates_at(p) by {
                    assert(copy.grid@[p].possible_values@ == self.grid@[p].possible_values@);
                }
                assert(copy.indexed());
                assert forall|p: int| is_cell(p) implies (#[trigger] copy.candidates_at(p)
                    == candidates(copy@, p)) == (self.candidates_at(p) == candidates(self@, p)) by {}
                if self.wf() {
                    assert forall|p: int| is_cell(p) implies #[trigger] copy.candidates_at(p)
                        == candidates(copy@, p) by {
                        assert(self.candidates_at(p) == candidates(self@, p));
                    }
                }
                if copy.wf() {
                    assert forall|p: int| is_cell(p) implies #[trigger] self.candidates_at(p)
                        == candidates(self@, p) by {
                        assert(copy.candidates_at(p) == candidates(copy@, p));
                    }
                }
                assert(copy.wf() == self.wf());
            }
        }
        copy
    }
}

impl SudokuBoard {
    /// A given contradicted the board.
    pub fn conflicted(&self) -> (marked: bool)
        ensures
            marked == self.conflicting(),
    {
        self.conflict
    }

    /// What the given cell holds.
    pub fn value_at(&self, grid_index: (usize, usize)) -> (value: Option<Color>)
        requires
            self.wf(),
            grid_index.0 < 9,
            grid_index.1 < 9,
        ensures
            value == self@[cell_index(grid_index.0 as int, grid_index.1 as int)],
    {
        self.grid[grid_index.0 * 9 + grid_index.1].value
    }

    /// The candidates of the given cell, in ascending order.
    pub fn candidates_of(&self, grid_index: (usize, usize)) -> (options: Vec<Color>)
        requires
            self.wf(),
            grid_index.0 < 9,
            grid_index.1 < 9,
        ensures
            forall|c: Color|
                options@.contains(c) <==> candidates(
                    self@,
                    cell_index(grid_index.0 as int, grid_index.1 as int),
                ).contains(c),
            forall|i: int, j: int|
                0 <= i < j < options@.len() ==> options@[i].code() < options@[j].code(),
            options@.len() == candidates(
                self@,
                cell_index(grid_index.0 as int, grid_index.1 as int),
            ).len(),
    {
        broadcast use vstd::std_specs::hash::group_hash_axioms;

        let p = grid_index.0 * 9 + grid_index.1;
        let ghost wanted = candidates(self@, p as int);
        assert(is_cell(p as int));
        assert(self.candidates_at(p as int) == wanted);
        let mut options: Vec<Color> = Vec::new();
        for i in 0..9usize
            invariant
                self.wf(),
                p < 81,
                wanted == colors_of(self.grid@[p as int].possible_values@),
                forall|k: int|
                    0 <= k < options@.len() ==> wanted.contains(#[trigger] options@[k])
                        && options@[k].code() <= i,
                forall|c: Color| wanted.contains(c) && c.code() <= i ==> options@.contains(c),
                forall|a: int, b: int|
                    0 <= a < b < options@.len() ==> options@[a].code() < options@[b].code(),
        {
            let color = COLORS[i];
            assert(color.code() == i + 1);
            let ghost shorter = options@;
            if self.grid[p].possible_values.contains(&color.digit()) {
                options.push(color);
                assert(options@[shorter.len() as int] == color);
            }
            assert forall|c: Color| wanted.contains(c) && c.code() <= i + 1 implies options@.contains(
                c,
            ) by {
                lemma_color_codes(c);
                lemma_color_codes(color);
                if c.code() <= i {
                    assert(shorter.contains(c));
                    let k = choose|k: int| 0 <= k < shorter.len() && shorter[k] == c;
                    assert(options@[k] == c);
                } else {
                    assert(c == color);
                }
            }
        }
        proof {
            assert forall|c: Color| options@.contains(c) <==> wanted.contains(c) by {
                lemma_color_codes(c);
            }
            assert(options@.no_duplicates());
            options@.unique_seq_to_set();
            assert(options@.to_set() =~= wanted);
        }
        options
    }

    /// The cells that have `count` candidates, each once, as row and column,
    /// in no particular order. A cell that holds a symbol has none.
    pub fn cells_with(&self, count: usize) -> (cells: Vec<(usize, usize)>)
        requires
            self.wf(),
            count <= 9,
        ensures
            cells@.no_duplicates(),
            forall|q: (usize, usize)|
                cells@.contains(q) <==> q.0 < 9 && q.1 < 9 && candidates(
                    self@,
                    cell_index(q.0 as int, q.1 as int),
                ).len() == count,
    {
        broadcast use vstd::std_specs::hash::group_hash_axioms;

        let listed = members(&self.buckets[count]);
        let mut cells: Vec<(usize, usize)> = Vec::new();
        for n in 0..listed.len()
            invariant
                self.wf(),
                count <= 9,
                listed@.to_set() == self.buckets@[count as int]@,
                cells@.len() == n,
                forall|j: int| 0 <= j < n ==> (#[trigger] listed@[j]) < 81,
                forall|j: int|
                    0 <= j < n ==> (#[trigger] cells@[j]).0 == listed@[j] / 9 && cells@[j].1
                        == listed@[j] % 9,
        {
            let cell = listed[n];
            assert(listed@.contains(cell));
            assert(self.buckets@[count as int]@.contains(cell));
            cells.push((cell / 9, cell % 9));
        }
        proof {
            assert forall|i: int, j: int|
                0 <= i < cells@.len() && 0 <= j < cells@.len() && i != j implies cells@[i]
                != cells@[j] by {
                assert(listed@[i] != listed@[j]);
            }
            assert forall|q: (usize, usize)|
                cells@.contains(q) <==> q.0 < 9 && q.1 < 9 && candidates(
                    self@,
                    cell_index(q.0 as int, q.1 as int),
                ).len() == count by {
                if cells@.contains(q) {
                    let j = choose|j: int| 0 <= j < cells@.len() && cells@[j] == q;
                    let i = listed@[j];
                    assert(listed@.contains(i));
                    assert(self.buckets@[count as int]@.contains(i));
                    self.lemma_count(i as int);
                }
                if q.0 < 9 && q.1 < 9 && candidates(
                    self@,
                    cell_index(q.0 as int, q.1 as int),
                ).len() == count {
                    let i = (q.0 * 9 + q.1) as usize;
                    self.lemma_count(i as int);
                    assert(self.buckets@[count as int]@.contains(i));
                    assert(listed@.contains(i));
                    let j = choose|j: int| 0 <= j < listed@.len() && listed@[j] == i;
                    assert(cells@[j] == q);
                }
            }
        }
        cells
    }

    /// The board as text: nine rows of nine characters, a digit for a symbol
    /// and `.` for an empty cell.
    pub fn render(&self) -> (rows: Vec<Vec<char>>)
        requires
            self.wf(),
        ensures
            rows@.len() == 9,
            forall|row: int| 0 <= row < 9 ==> (#[trigger] rows@[row])@.len() == 9,
            forall|row: int, col: int|
                0 <= row < 9 && 0 <= col < 9 ==> #[trigger] rows@[row]@[col] == Color::glyph(
                    self@[cell_index(row, col)],
                ),
    {
        let mut rows: Vec<Vec<char>> = Vec::new();
        for row in 0..9usize
            invariant
                self.wf(),
                rows@.len() == row,
                forall|r: int| 0 <= r < row ==> (#[trigger] rows@[r])@.len() == 9,
                forall|r: int, c: int|
                    0 <= r < row && 0 <= c < 9 ==> #[trigger] rows@[r]@[c] == Color::glyph(
                        self@[cell_index(r, c)],
                    ),
        {
            let mut line: Vec<char> = Vec::new();
            for col in 0..9usize
                invariant
                    self.wf(),
                    row < 9,
                    line@.len() == col,
                    forall|c: int|
                        0 <= c < col ==> #[trigger] line@[c] == Color::glyph(
                            self@[cell_index(row as int, c)],
                        ),
            {
                let ch = Color::to_char(self.grid[row * 9 + col].value);
                line.push(ch);
            }
            rows.push(line);
        }
        rows
    }

    /// A valid board is in one piece, has 81 cells, holds no symbol twice
    /// among cells that exclude each other, and keeps for each cell exactly
    /// the candidates that the rules leave: none for a cell that holds a
    /// symbol. Its graph joins exactly the cells that exclude each other.
    pub proof fn lemma_valid_board(&self)
        requires
            self.wf(),
        ensures
            self.indexed(),
            self@.len() == 81,
            consistent(self@),
            is_constraint_graph(self.constraint_graph()),
            forall|p: int| is_cell(p) ==> #[trigger] self.candidates_at(p) == candidates(self@, p),
            forall|p: int|
                is_cell(p) && self@[p] is Some ==> #[trigger] self.candidates_at(p) == Set::<
                    Color,
                >::empty(),
    {
        assert forall|p: int| is_cell(p) && self@[p] is Some implies #[trigger] self.candidates_at(p)
            == Set::<Color>::empty() by {
            assert(candidates(self@, p) =~= Set::<Color>::empty());
        }
    }

    /// The index is consistent: under each number from 0 to 9 it lists
    /// exactly the cells that keep that many candidates. (A cell that holds a
    /// symbol keeps none.)
    pub proof fn lemma_buckets_sort_by_count(&self, k: int)
        requires
            self.indexed(),
            0 <= k <= 9,
        ensures
            self.bucket(k) == Set::new(|p: int| is_cell(p) && self.candidates_at(p).len() == k),
    {
        assert(self.bucket(k) =~= Set::new(|p: int| is_cell(p) && self.candidates_at(p).len() == k))
            by {
            assert forall|p: int| is_cell(p) implies (self.buckets@[k]@.contains(p as usize)
                <==> self.candidates_at(p).len() == k) by {
                lemma_colors_of_len(self.grid@[p].possible_values@);
            }
        }
    }

    /// What a valid board holds in its cells decides the rest: two valid
    /// boards with the same grid keep the same candidates for every cell and
    /// list the same cells under every number of candidates.
    pub proof fn lemma_valid_boards_agree(&self, other: &SudokuBoard)
        requires
            self.wf(),
            other.wf(),
            self@ == other@,
        ensures
            forall|p: int| is_cell(p) ==> #[trigger] self.candidates_at(p) == other.candidates_at(p),
            forall|k: int| 0 <= k <= 9 ==> #[trigger] self.bucket(k) == other.bucket(k),
    {
        assert forall|p: int| is_cell(p) implies #[trigger] self.candidates_at(p)
            == other.candidates_at(p) by {
            assert(other.candidates_at(p) == candidates(other@, p));
        }
        assert forall|k: int| 0 <= k <= 9 implies #[trigger] self.bucket(k) == other.bucket(k) by {
            self.lemma_buckets_sort_by_count(k);
            other.lemma_buckets_sort_by_count(k);
            assert(self.bucket(k) =~= other.bucket(k)) by {
                assert forall|p: int| is_cell(p) implies self.candidates_at(p)
                    == other.candidates_at(p) by {}
            }
        }
    }

    /// Assignments are consistent: two cells that exclude each other and
    /// both hold a symbol hold different symbols.
    pub proof fn lemma_assigned_neighbors_differ(&self, p: int, q: int)
        requires
            self.wf(),
            is_peer(p, q),
            self@[p] is Some,
            self@[q] is Some,
        ensures
            self@[p] != self@[q],
    {
    }
}

/// Taking the number of a symbol from a set of numbers takes the symbol from
/// the set of their symbols.
proof fn lemma_colors_without(codes: Set<u8>, color: Color)
    ensures
        colors_of(codes.remove(color.code())) == colors_of(codes).remove(color),
{
    assert(colors_of(codes.remove(color.code())) =~= colors_of(codes).remove(color)) by {
        assert forall|c: Color| #[trigger]
            colors_of(codes.remove(color.code())).contains(c) == colors_of(codes).remove(
                color,
            ).contains(c) by {
            lemma_color_codes(c);
            lemma_color_codes(color);
        }
    }
}

/// In the constraint graph the neighbours of the node of a cell are the
/// cells that the cell excludes, and each is listed once.
proof fn lemma_neighbors_are_peers(g: ConstraintGraph, p: int, found: Seq<usize>, via: Seq<int>)
    requires
        is_constraint_graph(g),
        is_cell(p),
        lists_neighbors(graph_edges(g), p, found, via),
    ensures
        found.no_duplicates(),
        forall|j: int|
            0 <= j < found.len() ==> is_cell(#[trigger] found[j] as int) && is_peer(
                p,
                found[j] as int,
            ),
        forall|x: int| #[trigger] is_peer(p, x) ==> found.contains(x as usize),
{
    let edges = graph_edges(g);
    assert forall|j: int| 0 <= j < found.len() implies is_cell(#[trigger] found[j] as int)
        && is_peer(p, found[j] as int) by {
        let i = via[j];
        assert(links(edges[i], p, found[j] as int));
        assert(adjacent(edges, p, found[j] as int));
    }
    assert forall|j: int, k: int| 0 <= j < k < found.len() implies found[j] != found[k] by {
        if found[j] == found[k] {
            let (a, b) = (via[j], via[k]);
            assert(links(edges[a], p, found[j] as int));
            assert(links(edges[b], p, found[k] as int));
            assert(a != b);
            if a < b {
                assert(!links(edges[a], edges[b].0 as int, edges[b].1 as int));
            } else {
                assert(!links(edges[b], edges[a].0 as int, edges[a].1 as int));
            }
        }
    }
    assert forall|x: int| #[trigger] is_peer(p, x) implies found.contains(x as usize) by {
        assert(adjacent(edges, p, x));
        let i = choose|i: int| 0 <= i < edges.len() && links(#[trigger] edges[i], p, x);
        assert(via.contains(i));
        let j = choose|j: int| 0 <= j < via.len() && via[j] == i;
        assert(links(edges[via[j]], p, found[j] as int));
        assert(found[j] == x as usize);
    }
}

/// The cells of a row share no earlier row, and the cells of a column no row
/// and no earlier column.
proof fn lemma_line_is_new(u: int)
    requires
        0 <= u < 18,
    ensures
        forall|k: int, j: int|
            0 <= k < j < 9 ==> !joined_before(unit_cell(u, k), unit_cell(u, j), u),
{
    assert forall|k: int, j: int| 0 <= k < j < 9 implies !joined_before(
        unit_cell(u, k),
        unit_cell(u, j),
        u,
    ) by {
        lemma_unit_places(u, k);
        lemma_unit_places(u, j);
        if u < 9 {
            lemma_coordinates(u, k);
            lemma_coordinates(u, j);
        } else {
            lemma_coordinates(k, u - 9);
            lemma_coordinates(j, u - 9);
        }
    }
}

/// When all 27 units are connected, the graph is the constraint graph.
proof fn lemma_all_connected(g: ConstraintGraph)
    requires
        connected_before(g, 27),
    ensures
        is_constraint_graph(g),
{
    let edges = graph_edges(g);
    assert forall|a: int, b: int| is_cell(a) && is_cell(b) implies (#[trigger] adjacent(edges, a, b)
        <==> is_peer(a, b)) by {
        if a != b {
            lemma_peer_iff_joined(a, b);
        }
        let (lo, hi) = if a < b {
            (a, b)
        } else {
            (b, a)
        };
        if adjacent(edges, a, b) {
            let i = choose|i: int| 0 <= i < edges.len() && links(#[trigger] edges[i], a, b);
            assert(edges[i] == (lo as usize, hi as usize));
            assert(has_edge(edges, lo, hi));
        }
        if is_peer(a, b) {
            assert(has_edge(edges, lo, hi));
            let i = choose|i: int|
                0 <= i < edges.len() && #[trigger] edges[i] == (lo as usize, hi as usize);
            assert(links(edges[i], a, b));
        }
    }
}

} // verus!
