//! The givens of a puzzle: reading them from a text, placing them on a
//! grid, and what they mean for the solutions of the grid.

use crate::color::Color;
use crate::rules::{
    candidates, col_of, empty_grid, extends, is_peer, is_solution, lemma_extends_assigned,
    lemma_solution_is_consistent, lemma_solution_picks_candidate, row_of, solvable, Grid,
};
use vstd::prelude::*;

verus! {

/// What a puzzle text gives for cell `p`: the symbol that the character in
/// the cell's row and column stands for, and nothing where the text has no
/// such character.
pub open spec fn given_at(puzzle: Seq<Seq<char>>, p: int) -> Option<Color> {
    if 0 <= row_of(p) < puzzle.len() && 0 <= col_of(p) < puzzle[row_of(p)].len() {
        Color::parse(puzzle[row_of(p)][col_of(p)])
    } else {
        None
    }
}

/// A grid together with the mark that some given contradicted it.
pub struct Seeding {
    pub grid: Grid,
    pub conflict: bool,
}

/// Placing a given in cell `p`. Nothing happens where nothing is given or
/// the cell holds the given symbol already. Else the symbol goes into the
/// cell if it is a candidate there, and if it is not, the grid stays and the
/// contradiction is marked.
pub open spec fn place(state: Seeding, p: int, given: Option<Color>) -> Seeding {
    match given {
        None => state,
        Some(c) => if state.grid[p] == Some(c) {
            state
        } else if candidates(state.grid, p).contains(c) {
            Seeding { grid: state.grid.update(p, Some(c)), conflict: state.conflict }
        } else {
            Seeding { grid: state.grid, conflict: true }
        },
    }
}

/// Placing the givens of a puzzle text for the cells before cell `n`, cell
/// by cell.
pub open spec fn seeded(state: Seeding, puzzle: Seq<Seq<char>>, n: int) -> Seeding
    decreases n,
{
    if n <= 0 {
        state
    } else {
        place(seeded(state, puzzle, n - 1), n - 1, given_at(puzzle, n - 1))
    }
}

/// Cells for which nothing is given change nothing.
pub proof fn lemma_seeded_skips(state: Seeding, puzzle: Seq<Seq<char>>, from: int, to: int)
    requires
        from <= to,
        forall|p: int| from <= p < to ==> given_at(puzzle, p) is None,
    ensures
        seeded(state, puzzle, to) == seeded(state, puzzle, from),
    decreases to - from,
{
    if from < to {
        lemma_seeded_skips(state, puzzle, from, to - 1);
        assert(given_at(puzzle, to - 1) is None);
    }
}

/// Grid `s` holds every symbol that the puzzle text gives for the cells
/// before cell `n`.
pub open spec fn agrees(s: Grid, puzzle: Seq<Seq<char>>, n: int) -> bool {
    forall|p: int| 0 <= p < n && (#[trigger] given_at(puzzle, p)) is Some ==> s[p] == given_at(puzzle, p)
}

/// Grid `s` is a solution of the puzzle: a solved grid that holds every
/// given.
pub open spec fn completes(s: Grid, puzzle: Seq<Seq<char>>) -> bool {
    is_solution(s) && agrees(s, puzzle, 81)
}

/// An empty grid on which nothing has been placed.
pub open spec fn unseeded() -> Seeding {
    Seeding { grid: empty_grid(), conflict: false }
}

/// Placing givens keeps what the grid held and what was marked. Unless a
/// contradiction is marked, the grid then holds every given: in the end
/// each given cell holds the symbol given for it.
pub proof fn lemma_seeded_holds_givens(state: Seeding, puzzle: Seq<Seq<char>>, n: int)
    requires
        state.grid.len() == 81,
        0 <= n <= 81,
    ensures
        seeded(state, puzzle, n).grid.len() == 81,
        extends(seeded(state, puzzle, n).grid, state.grid),
        state.conflict ==> seeded(state, puzzle, n).conflict,
        !seeded(state, puzzle, n).conflict ==> agrees(seeded(state, puzzle, n).grid, puzzle, n),
    decreases n,
{
    if n > 0 {
        let before = seeded(state, puzzle, n - 1);
        let after = seeded(state, puzzle, n);
        lemma_seeded_holds_givens(state, puzzle, n - 1);
        assert(after == place(before, n - 1, given_at(puzzle, n - 1)));
        assert(extends(after.grid, before.grid));
        assert(extends(after.grid, state.grid)) by {
            assert forall|p: int| 0 <= p < 81 && (#[trigger] state.grid[p]) is Some implies after.grid[p]
                == state.grid[p] by {
                assert(before.grid[p] == state.grid[p]);
            }
        }
        if !after.conflict {
            assert forall|p: int| 0 <= p < n && (#[trigger] given_at(puzzle, p)) is Some implies after.grid[p]
                == given_at(puzzle, p) by {
                if p < n - 1 {
                    assert(before.grid[p] == given_at(puzzle, p));
                }
            }
        }
    }
}

/// Placing givens loses no solution and lets none in that ignores a given:
/// a solved grid extends the grid after placing, with no contradiction
/// marked, exactly when it extends the grid before, with none marked, and
/// holds every given that was placed.
pub proof fn lemma_seeded_solutions(state: Seeding, puzzle: Seq<Seq<char>>, n: int, s: Grid)
    requires
        state.grid.len() == 81,
        0 <= n <= 81,
        is_solution(s),
    ensures
        !seeded(state, puzzle, n).conflict && extends(s, seeded(state, puzzle, n).grid)
            <==> !state.conflict && extends(s, state.grid) && agrees(s, puzzle, n),
    decreases n,
{
    if n > 0 {
        let p = n - 1;
        let before = seeded(state, puzzle, p);
        let after = seeded(state, puzzle, n);
        lemma_seeded_solutions(state, puzzle, p, s);
        lemma_seeded_holds_givens(state, puzzle, p);
        assert(after == place(before, p, given_at(puzzle, p)));
        assert(agrees(s, puzzle, n) <==> agrees(s, puzzle, p) && (given_at(puzzle, p) is Some
            ==> s[p] == given_at(puzzle, p))) by {
            if agrees(s, puzzle, n) {
                assert(agrees(s, puzzle, p));
            }
            if agrees(s, puzzle, p) && (given_at(puzzle, p) is Some ==> s[p] == given_at(puzzle, p)) {
                assert(agrees(s, puzzle, n));
            }
        }
        match given_at(puzzle, p) {
            None => {},
            Some(c) => {
                if before.grid[p] == Some(c) {
                    if extends(s, before.grid) {
                        assert(s[p] == before.grid[p]);
                    }
                } else if candidates(before.grid, p).contains(c) {
                    lemma_extends_assigned(s, before.grid, p, c);
                } else {
                    if extends(s, before.grid) {
                        if before.grid[p] is None {
                            lemma_solution_picks_candidate(before.grid, s, p);
                        } else {
                            assert(s[p] == before.grid[p]);
                        }
                    }
                }
            },
        }
    }
}

/// A board seeded from a puzzle text can be completed exactly when the
/// puzzle has a solution: nothing contradicts while the givens are placed
/// on an empty grid and the grid so filled is solvable, if and only if some
/// solved grid holds every given.
pub proof fn lemma_seeded_is_solvable_iff_puzzle_is(puzzle: Seq<Seq<char>>)
    ensures
        !seeded(unseeded(), puzzle, 81).conflict && solvable(seeded(unseeded(), puzzle, 81).grid)
            <==> exists|s: Grid| #[trigger] completes(s, puzzle),
{
    let after = seeded(unseeded(), puzzle, 81);
    if !after.conflict && solvable(after.grid) {
        let s = choose|s: Grid| is_solution(s) && #[trigger] extends(s, after.grid);
        lemma_seeded_solutions(unseeded(), puzzle, 81, s);
        assert(completes(s, puzzle));
    }
    if exists|s: Grid| #[trigger] completes(s, puzzle) {
        let s = choose|s: Grid| #[trigger] completes(s, puzzle);
        assert(extends(s, empty_grid()));
        lemma_seeded_solutions(unseeded(), puzzle, 81, s);
        assert(extends(s, after.grid));
    }
}

/// A puzzle that gives the same symbol for two cells of one row, one
/// column or one block has no solution.
pub proof fn lemma_repeated_given_has_no_solution(puzzle: Seq<Seq<char>>, p: int, q: int)
    requires
        is_peer(p, q),
        given_at(puzzle, p) is Some,
        given_at(puzzle, p) == given_at(puzzle, q),
    ensures
        !exists|s: Grid| #[trigger] completes(s, puzzle),
        seeded(unseeded(), puzzle, 81).conflict || !solvable(seeded(unseeded(), puzzle, 81).grid),
{
    if exists|s: Grid| #[trigger] completes(s, puzzle) {
        let s = choose|s: Grid| #[trigger] completes(s, puzzle);
        lemma_solution_is_consistent(s);
        assert(s[p] == given_at(puzzle, p));
        assert(s[q] == given_at(puzzle, q));
        assert(is_peer(p, q) && s[p] is Some);
    }
    lemma_seeded_is_solvable_iff_puzzle_is(puzzle);
}

} // verus!
