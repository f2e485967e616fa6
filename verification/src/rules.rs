//! The rules of the game, as mathematics: cells, units, the exclusion
//! relation between cells, and what it means for a grid to be solved.
//!
//! A cell is a number from 0 to 80, counted row by row; the cell in row `r`
//! and column `c` is `9 * r + c`. A grid is a sequence of 81 optional
//! symbols, one per cell.

use crate::color::{all_colors, lemma_color_codes, lemma_color_sets_are_small, Color};
use vstd::prelude::*;

verus! {

/// The content of the 81 cells, row by row; `None` is an empty cell.
pub type Grid = Seq<Option<Color>>;

pub open spec fn is_cell(p: int) -> bool {
    0 <= p < 81
}

/// The cell in row `row` and column `col`.
pub open spec fn cell_index(row: int, col: int) -> int {
    row * 9 + col
}

pub open spec fn row_of(p: int) -> int {
    p / 9
}

pub open spec fn col_of(p: int) -> int {
    p % 9
}

/// The 3×3 block of a cell; blocks are counted row by row, from 0 to 8.
pub open spec fn block_of(p: int) -> int {
    (row_of(p) / 3) * 3 + col_of(p) / 3
}

/// Two distinct cells exclude each other when they lie in the same row, the
/// same column or the same block: they may not hold the same symbol.
pub open spec fn is_peer(p: int, q: int) -> bool {
    &&& is_cell(p)
    &&& is_cell(q)
    &&& p != q
    &&& (row_of(p) == row_of(q) || col_of(p) == col_of(q) || block_of(p) == block_of(q))
}

/// The `k`-th cell of unit `u`. There are 27 units: the rows are the units 0
/// to 8, the columns the units 9 to 17, and the blocks the units 18 to 26.
pub open spec fn unit_cell(u: int, k: int) -> int {
    if u < 9 {
        u * 9 + k
    } else if u < 18 {
        k * 9 + (u - 9)
    } else {
        (((u - 18) / 3) * 3 + k / 3) * 9 + ((u - 18) % 3) * 3 + k % 3
    }
}

/// An empty grid.
pub open spec fn empty_grid() -> Grid {
    Seq::new(81, |p: int| None::<Color>)
}

/// No two cells that exclude each other hold the same symbol.
pub open spec fn consistent(g: Grid) -> bool {
    forall|p: int, q: int| #[trigger] is_peer(p, q) && g[p] is Some ==> g[p] != g[q]
}

/// Every cell holds a symbol.
pub open spec fn complete(g: Grid) -> bool {
    forall|p: int| is_cell(p) ==> (#[trigger] g[p]) is Some
}

/// The cells that hold no symbol yet.
pub open spec fn unassigned(g: Grid) -> Set<int> {
    Set::new(|p: int| is_cell(p) && g[p] is None)
}

/// The symbols that may still go into cell `p`: none if the cell is filled,
/// else every symbol that no cell excluding `p` holds.
pub open spec fn candidates(g: Grid, p: int) -> Set<Color> {
    Set::new(|c: Color| g[p] is None && forall|q: int| #[trigger] is_peer(p, q) ==> g[q] != Some(c))
}

/// Cell `p` is empty and no symbol may go into it.
pub open spec fn stuck(g: Grid, p: int) -> bool {
    is_cell(p) && g[p] is None && candidates(g, p).len() == 0
}

/// Some empty cell has no candidate left.
pub open spec fn contradictory(g: Grid) -> bool {
    exists|p: int| stuck(g, p)
}

/// `h` keeps every symbol that `g` holds.
pub open spec fn extends(h: Grid, g: Grid) -> bool {
    &&& h.len() == g.len()
    &&& forall|p: int| 0 <= p < g.len() && (#[trigger] g[p]) is Some ==> h[p] == g[p]
}

/// Symbol `c` stands in exactly one cell of unit `u`.
pub open spec fn holds_once(g: Grid, u: int, c: Color) -> bool {
    exists|k: int|
        0 <= k < 9 && g[#[trigger] unit_cell(u, k)] == Some(c) && forall|j: int|
            0 <= j < 9 && j != k ==> g[#[trigger] unit_cell(u, j)] != Some(c)
}

/// A solved grid: all 81 cells are filled, and every row, every column and
/// every block holds each symbol exactly once.
pub open spec fn is_solution(g: Grid) -> bool {
    &&& g.len() == 81
    &&& complete(g)
    &&& forall|u: int, c: Color| 0 <= u < 27 ==> #[trigger] holds_once(g, u, c)
}

/// Some solved grid keeps every symbol of `g`.
pub open spec fn solvable(g: Grid) -> bool {
    exists|s: Grid| is_solution(s) && #[trigger] extends(s, g)
}

/// Row, column and block of the cell in row `row` and column `col`.
pub proof fn lemma_coordinates(row: int, col: int)
    requires
        0 <= row < 9,
        0 <= col < 9,
    ensures
        is_cell(cell_index(row, col)),
        row_of(cell_index(row, col)) == row,
        col_of(cell_index(row, col)) == col,
        block_of(cell_index(row, col)) == (row / 3) * 3 + col / 3,
{
}

/// Every cell is the cell of its row and its column.
pub proof fn lemma_cell_of_coordinates(p: int)
    requires
        is_cell(p),
    ensures
        0 <= row_of(p) < 9,
        0 <= col_of(p) < 9,
        cell_index(row_of(p), col_of(p)) == p,
{
}

/// Row and column of the `k`-th cell of unit `u`.
pub open spec fn unit_row(u: int, k: int) -> int {
    if u < 9 {
        u
    } else if u < 18 {
        k
    } else {
        ((u - 18) / 3) * 3 + k / 3
    }
}

pub open spec fn unit_col(u: int, k: int) -> int {
    if u < 9 {
        k
    } else if u < 18 {
        u - 9
    } else {
        ((u - 18) % 3) * 3 + k % 3
    }
}

/// The cells of a unit are cells, and any two of them exclude each other.
pub proof fn lemma_unit_cells(u: int, k: int, j: int)
    requires
        0 <= u < 27,
        0 <= k < 9,
        0 <= j < 9,
    ensures
        is_cell(unit_cell(u, k)),
        k != j ==> is_peer(unit_cell(u, k), unit_cell(u, j)),
{
    let (rk, ck) = (unit_row(u, k), unit_col(u, k));
    let (rj, cj) = (unit_row(u, j), unit_col(u, j));
    assert(unit_cell(u, k) == cell_index(rk, ck));
    assert(unit_cell(u, j) == cell_index(rj, cj));
    lemma_coordinates(rk, ck);
    lemma_coordinates(rj, cj);
    if u >= 18 {
        let b = u - 18;
        assert(rk / 3 == b / 3 && rj / 3 == b / 3);
        assert(ck / 3 == b % 3 && cj / 3 == b % 3);
        if k != j {
            assert(k / 3 != j / 3 || k % 3 != j % 3);
        }
    }
}

/// A unit that holds both of two cells which exclude each other.
pub open spec fn shared_unit(p: int, q: int) -> int {
    if row_of(p) == row_of(q) {
        row_of(p)
    } else if col_of(p) == col_of(q) {
        9 + col_of(p)
    } else {
        18 + block_of(p)
    }
}

/// The place of cell `p` in unit `u`, if `p` belongs to it.
pub open spec fn place_in_unit(u: int, p: int) -> int {
    if u < 9 {
        col_of(p)
    } else if u < 18 {
        row_of(p)
    } else {
        (row_of(p) % 3) * 3 + col_of(p) % 3
    }
}

/// Two cells that exclude each other are two different cells of one unit.
pub proof fn lemma_peers_share_unit(p: int, q: int)
    requires
        is_peer(p, q),
    ensures
        0 <= shared_unit(p, q) < 27,
        0 <= place_in_unit(shared_unit(p, q), p) < 9,
        0 <= place_in_unit(shared_unit(p, q), q) < 9,
        place_in_unit(shared_unit(p, q), p) != place_in_unit(shared_unit(p, q), q),
        unit_cell(shared_unit(p, q), place_in_unit(shared_unit(p, q), p)) == p,
        unit_cell(shared_unit(p, q), place_in_unit(shared_unit(p, q), q)) == q,
{
    lemma_cell_of_coordinates(p);
    lemma_cell_of_coordinates(q);
    let (rp, cp) = (row_of(p), col_of(p));
    let (rq, cq) = (row_of(q), col_of(q));
    let u = shared_unit(p, q);
    if u >= 18 {
        let b = block_of(p);
        assert(b == block_of(q));
        assert(b / 3 == rp / 3 && b % 3 == cp / 3);
        assert(b / 3 == rq / 3 && b % 3 == cq / 3);
        assert(rp == (rp / 3) * 3 + rp % 3 && cp == (cp / 3) * 3 + cp % 3);
        assert(rq == (rq / 3) * 3 + rq % 3 && cq == (cq / 3) * 3 + cq % 3);
        let kp = (rp % 3) * 3 + cp % 3;
        let kq = (rq % 3) * 3 + cq % 3;
        assert(kp / 3 == rp % 3 && kp % 3 == cp % 3);
        assert(kq / 3 == rq % 3 && kq % 3 == cq % 3);
    }
}

/// Cell `p` belongs to unit `u`.
pub open spec fn in_unit(u: int, p: int) -> bool {
    if u < 9 {
        row_of(p) == u
    } else if u < 18 {
        col_of(p) == u - 9
    } else {
        block_of(p) == u - 18
    }
}

/// Two cells lie together in one of the units before unit `n`.
pub open spec fn joined_before(a: int, b: int, n: int) -> bool {
    ||| row_of(a) == row_of(b) && row_of(a) < n
    ||| col_of(a) == col_of(b) && 9 + col_of(a) < n
    ||| block_of(a) == block_of(b) && 18 + block_of(a) < n
}

/// The `k`-th cell of a unit belongs to the unit, at place `k`.
pub proof fn lemma_unit_places(u: int, k: int)
    requires
        0 <= u < 27,
        0 <= k < 9,
    ensures
        is_cell(unit_cell(u, k)),
        in_unit(u, unit_cell(u, k)),
        place_in_unit(u, unit_cell(u, k)) == k,
{
    let (r, c) = (unit_row(u, k), unit_col(u, k));
    assert(unit_cell(u, k) == cell_index(r, c));
    lemma_coordinates(r, c);
    if u >= 18 {
        let b = u - 18;
        assert(r / 3 == b / 3 && c / 3 == b % 3);
        assert(r % 3 == k / 3 && c % 3 == k % 3);
    }
}

/// A cell of a unit is the cell at its place in the unit.
pub proof fn lemma_cell_at_place(u: int, p: int)
    requires
        0 <= u < 27,
        is_cell(p),
        in_unit(u, p),
    ensures
        0 <= place_in_unit(u, p) < 9,
        unit_cell(u, place_in_unit(u, p)) == p,
{
    lemma_cell_of_coordinates(p);
    let (r, c) = (row_of(p), col_of(p));
    if u >= 18 {
        let b = u - 18;
        assert(b / 3 == r / 3 && b % 3 == c / 3);
        assert(r == (r / 3) * 3 + r % 3 && c == (c / 3) * 3 + c % 3);
        let k = (r % 3) * 3 + c % 3;
        assert(k / 3 == r % 3 && k % 3 == c % 3);
    }
}

/// Within a unit the cells stand in the order of their places.
pub proof fn lemma_places_ordered(u: int, a: int, b: int)
    requires
        0 <= u < 27,
        is_cell(a),
        is_cell(b),
        in_unit(u, a),
        in_unit(u, b),
        a < b,
    ensures
        place_in_unit(u, a) < place_in_unit(u, b),
{
    lemma_cell_of_coordinates(a);
    lemma_cell_of_coordinates(b);
    let (ra, ca) = (row_of(a), col_of(a));
    let (rb, cb) = (row_of(b), col_of(b));
    assert(ra < rb || (ra == rb && ca < cb));
    if u >= 18 {
        let k = u - 18;
        assert(k / 3 == ra / 3 && k % 3 == ca / 3);
        assert(k / 3 == rb / 3 && k % 3 == cb / 3);
        assert(ra == (ra / 3) * 3 + ra % 3 && ca == (ca / 3) * 3 + ca % 3);
        assert(rb == (rb / 3) * 3 + rb % 3 && cb == (cb / 3) * 3 + cb % 3);
    }
}

/// Two distinct cells exclude each other exactly when some unit holds both.
pub proof fn lemma_peer_iff_joined(a: int, b: int)
    requires
        is_cell(a),
        is_cell(b),
        a != b,
    ensures
        is_peer(a, b) <==> joined_before(a, b, 27),
        forall|u: int| 0 <= u < 27 ==> (joined_before(a, b, u + 1) <==> joined_before(a, b, u) || (in_unit(u, a) && in_unit(u, b))),
{
    lemma_cell_of_coordinates(a);
    lemma_cell_of_coordinates(b);
    assert(0 <= block_of(a) < 9 && 0 <= block_of(b) < 9);
}

/// In a solved grid no two cells that exclude each other hold the same
/// symbol.
pub proof fn lemma_solution_is_consistent(g: Grid)
    requires
        is_solution(g),
    ensures
        consistent(g),
{
    assert forall|p: int, q: int| #[trigger] is_peer(p, q) && g[p] is Some implies g[p] != g[q] by {
        lemma_peers_share_unit(p, q);
        let u = shared_unit(p, q);
        let kp = place_in_unit(u, p);
        let kq = place_in_unit(u, q);
        let c = g[p]->0;
        assert(holds_once(g, u, c));
        let k = choose|k: int|
            0 <= k < 9 && g[#[trigger] unit_cell(u, k)] == Some(c) && forall|j: int|
                0 <= j < 9 && j != k ==> g[#[trigger] unit_cell(u, j)] != Some(c);
        assert(g[unit_cell(u, kp)] == Some(c));
        assert(kp == k);
        assert(g[unit_cell(u, kq)] != Some(c));
    }
}

/// The symbol in the `k`-th cell of unit `u`, where that cell is filled.
pub open spec fn unit_value(g: Grid, u: int, k: int) -> Color {
    g[unit_cell(u, k)]->0
}

/// In a complete and consistent grid each unit holds each symbol exactly
/// once: its nine cells hold nine different symbols, and there are only nine.
pub proof fn lemma_unit_holds_every_color(g: Grid, u: int, c: Color)
    requires
        g.len() == 81,
        complete(g),
        consistent(g),
        0 <= u < 27,
    ensures
        holds_once(g, u, c),
{
    assert forall|k: int, j: int| 0 <= k < 9 && 0 <= j < 9 && k != j implies #[trigger] unit_value(
        g,
        u,
        k,
    ) != #[trigger] unit_value(g, u, j) by {
        lemma_unit_cells(u, k, j);
        assert(is_peer(unit_cell(u, k), unit_cell(u, j)));
        assert(g[unit_cell(u, k)] is Some);
        assert(g[unit_cell(u, j)] is Some);
    }
    assert forall|k: int| 0 <= k < 9 implies g[unit_cell(u, k)] == Some(
        #[trigger] unit_value(g, u, k),
    ) by {
        lemma_unit_cells(u, k, k);
        assert(g[unit_cell(u, k)] is Some);
    }
    if forall|k: int| 0 <= k < 9 ==> #[trigger] unit_value(g, u, k) != c {
        let held = set![
            unit_value(g, u, 0),
            unit_value(g, u, 1),
            unit_value(g, u, 2),
            unit_value(g, u, 3),
            unit_value(g, u, 4),
            unit_value(g, u, 5),
            unit_value(g, u, 6),
            unit_value(g, u, 7),
            unit_value(g, u, 8),
        ];
        let rest = all_colors().remove(c);
        assert(held.len() == 9);
        lemma_color_sets_are_small(held);
        lemma_color_codes(c);
        assert(rest.len() == 8);
        assert(held.subset_of(rest)) by {
            assert forall|x: Color| held.contains(x) implies rest.contains(x) by {
                lemma_color_codes(x);
            }
        }
        vstd::set_lib::lemma_len_subset(held, rest);
        assert(false);
    }
    let k = choose|k: int| 0 <= k < 9 && #[trigger] unit_value(g, u, k) == c;
    assert(g[unit_cell(u, k)] == Some(c));
    assert forall|j: int| 0 <= j < 9 && j != k implies g[#[trigger] unit_cell(u, j)] != Some(c) by {
        assert(unit_value(g, u, j) != unit_value(g, u, k));
    }
}

/// A grid is solved exactly when it is complete and consistent.
pub proof fn lemma_solution_iff_complete_and_consistent(g: Grid)
    requires
        g.len() == 81,
    ensures
        is_solution(g) <==> complete(g) && consistent(g),
{
    if is_solution(g) {
        lemma_solution_is_consistent(g);
    }
    if complete(g) && consistent(g) {
        assert forall|u: int, c: Color| 0 <= u < 27 implies #[trigger] holds_once(g, u, c) by {
            lemma_unit_holds_every_color(g, u, c);
        }
    }
}

/// What a solved grid holds in a cell is a candidate for that cell in every
/// grid that the solved one extends and that leaves the cell empty.
pub proof fn lemma_solution_picks_candidate(g: Grid, s: Grid, p: int)
    requires
        g.len() == 81,
        is_solution(s),
        extends(s, g),
        is_cell(p),
        g[p] is None,
    ensures
        s[p] is Some,
        candidates(g, p).contains(s[p]->0),
{
    lemma_solution_is_consistent(s);
    let c = s[p]->0;
    assert(s[p] is Some);
    assert forall|q: int| #[trigger] is_peer(p, q) implies g[q] != Some(c) by {
        if g[q] == Some(c) {
            assert(s[q] == g[q]);
            assert(is_peer(p, q) && s[p] is Some);
        }
    }
}

/// Filling an empty cell with one of its candidates keeps the grid
/// consistent.
pub proof fn lemma_assign_keeps_consistent(g: Grid, p: int, c: Color)
    requires
        g.len() == 81,
        is_cell(p),
        consistent(g),
        candidates(g, p).contains(c),
    ensures
        consistent(g.update(p, Some(c))),
{
    let h = g.update(p, Some(c));
    assert forall|a: int, b: int| #[trigger] is_peer(a, b) && h[a] is Some implies h[a] != h[b] by {
        if a == p {
            assert(is_peer(p, b));
        } else if b == p {
            assert(is_peer(p, a));
        } else {
            assert(is_peer(a, b) && g[a] is Some);
        }
    }
}

/// Filling an empty cell `p` with `c` leaves the filled cell without
/// candidates, takes `c` from the candidates of the cells that `p` excludes,
/// and leaves the candidates of all other cells as they were.
pub proof fn lemma_candidates_after_assign(g: Grid, p: int, c: Color, i: int)
    requires
        g.len() == 81,
        is_cell(p),
        is_cell(i),
        g[p] is None,
    ensures
        candidates(g.update(p, Some(c)), i) == if i == p {
            Set::<Color>::empty()
        } else if is_peer(p, i) {
            candidates(g, i).remove(c)
        } else {
            candidates(g, i)
        },
{
    let h = g.update(p, Some(c));
    let after = candidates(h, i);
    if i == p {
        assert(after =~= Set::<Color>::empty());
    } else {
        let before = candidates(g, i);
        assert forall|d: Color| after.contains(d) implies before.contains(d) && (is_peer(p, i) ==> d
            != c) by {
            assert forall|q: int| #[trigger] is_peer(i, q) implies g[q] != Some(d) by {
                assert(h[q] != Some(d));
            }
            if is_peer(p, i) {
                assert(is_peer(i, p));
                assert(h[p] != Some(d));
            }
        }
        assert forall|d: Color| before.contains(d) && (is_peer(p, i) ==> d != c) implies after.contains(
            d,
        ) by {
            assert forall|q: int| #[trigger] is_peer(i, q) implies h[q] != Some(d) by {
                if q == p {
                    assert(is_peer(p, i));
                } else {
                    assert(g[q] != Some(d));
                }
            }
        }
        if is_peer(p, i) {
            assert(after =~= before.remove(c));
        } else {
            assert(after =~= before);
        }
    }
}

/// The members of a set of one symbol are equal.
pub proof fn lemma_single_candidate(s: Set<Color>, a: Color, b: Color)
    requires
        s.len() == 1,
        s.contains(a),
        s.contains(b),
    ensures
        a == b,
{
    lemma_color_sets_are_small(s);
    if a != b {
        assert(s.remove(a).len() == 0);
        assert(s.remove(a).contains(b));
    }
}

/// A set of symbols without members has length 0, and the other way round.
pub proof fn lemma_no_candidate(s: Set<Color>)
    ensures
        s.len() == 0 <==> s == Set::<Color>::empty(),
{
    lemma_color_sets_are_small(s);
    if s.len() == 0 {
        assert(s =~= Set::<Color>::empty());
    }
}

/// The empty cells are finitely many, and filling one leaves one less. The
/// candidates of no cell grow by it.
pub proof fn lemma_assign_shrinks(g: Grid, p: int, c: Color)
    requires
        g.len() == 81,
        is_cell(p),
        g[p] is None,
    ensures
        unassigned(g).finite(),
        unassigned(g.update(p, Some(c))).len() == unassigned(g).len() - 1,
        forall|i: int|
            is_cell(i) ==> (#[trigger] candidates(g.update(p, Some(c)), i)).len() <= candidates(
                g,
                i,
            ).len(),
{
    let h = g.update(p, Some(c));
    vstd::set_lib::lemma_int_range(0, 81);
    assert(unassigned(g).subset_of(vstd::set_lib::set_int_range(0, 81)));
    vstd::set_lib::lemma_len_subset(unassigned(g), vstd::set_lib::set_int_range(0, 81));
    assert(unassigned(h) =~= unassigned(g).remove(p));
    assert forall|i: int| is_cell(i) implies (#[trigger] candidates(h, i)).len() <= candidates(
        g,
        i,
    ).len() by {
        lemma_candidates_after_assign(g, p, c, i);
        lemma_color_sets_are_small(candidates(g, i));
        lemma_color_sets_are_small(candidates(h, i));
        assert(candidates(h, i).subset_of(candidates(g, i)));
        vstd::set_lib::lemma_len_subset(candidates(h, i), candidates(g, i));
    }
}

/// A grid that extends another has no more empty cells.
pub proof fn lemma_extension_has_fewer_empty(h: Grid, g: Grid)
    requires
        g.len() == 81,
        extends(h, g),
    ensures
        unassigned(g).finite(),
        unassigned(h).finite(),
        unassigned(h).len() <= unassigned(g).len(),
{
    vstd::set_lib::lemma_int_range(0, 81);
    assert(unassigned(g).subset_of(vstd::set_lib::set_int_range(0, 81)));
    vstd::set_lib::lemma_len_subset(unassigned(g), vstd::set_lib::set_int_range(0, 81));
    assert(unassigned(h).subset_of(unassigned(g))) by {
        assert forall|p: int| unassigned(h).contains(p) implies unassigned(g).contains(p) by {
            if g[p] is Some {
                assert(h[p] == g[p]);
            }
        }
    }
    vstd::set_lib::lemma_len_subset(unassigned(h), unassigned(g));
}

/// A grid in which some empty cell has no candidate cannot be completed.
pub proof fn lemma_contradiction_has_no_solution(g: Grid)
    requires
        g.len() == 81,
        contradictory(g),
    ensures
        !solvable(g),
{
    let p = choose|p: int| stuck(g, p);
    if solvable(g) {
        let s = choose|s: Grid| is_solution(s) && #[trigger] extends(s, g);
        lemma_solution_picks_candidate(g, s, p);
        lemma_no_candidate(candidates(g, p));
    }
}

/// A solved grid extends the grid with one more cell filled exactly when it
/// extends the grid and holds that symbol in that cell.
pub proof fn lemma_extends_assigned(s: Grid, g: Grid, p: int, c: Color)
    requires
        g.len() == 81,
        is_cell(p),
        g[p] is None,
    ensures
        extends(s, g.update(p, Some(c))) <==> extends(s, g) && s[p] == Some(c),
{
    let h = g.update(p, Some(c));
    if extends(s, h) {
        assert(h[p] is Some);
        assert forall|q: int| 0 <= q < g.len() && (#[trigger] g[q]) is Some implies s[q] == g[q] by {
            assert(h[q] == g[q]);
        }
    }
    if extends(s, g) && s[p] == Some(c) {
        assert forall|q: int| 0 <= q < h.len() && (#[trigger] h[q]) is Some implies s[q] == h[q] by {
            if q != p {
                assert(g[q] is Some);
            }
        }
    }
}

} // verus!
