//! The solver: propagation of forced cells, and a backtracking search that
//! branches on a cell with the fewest candidates.

use crate::board::SudokuBoard;
use crate::color::Color;
use crate::propagation::{
    forced, lemma_forced_keeps_solutions, lemma_forced_step, lemma_propagation_is_idempotent,
    no_singles, propagated, run,
};
use crate::rules::{
    candidates, cell_index, col_of, extends, is_cell, is_solution, lemma_assign_shrinks,
    lemma_cell_of_coordinates, lemma_contradiction_has_no_solution, lemma_coordinates,
    lemma_extends_assigned, lemma_extension_has_fewer_empty, lemma_no_candidate,
    lemma_solution_iff_complete_and_consistent, lemma_solution_picks_candidate, row_of, solvable,
    stuck, unassigned, Grid,
};
use vstd::prelude::*;

verus! {

impl SudokuBoard {
    /// The board can be completed: no given contradicted it, and some solved
    /// grid keeps every symbol that it holds.
    pub open spec fn has_solution(&self) -> bool {
        !self.conflicting() && solvable(self@)
    }

    /// Fills every cell that has a single candidate with that candidate, and
    /// goes on until no cell has a single candidate.
    pub fn set_hanging_singles(&mut self)
        requires
            old(self).wf(),
        ensures
            final(self).wf(),
            final(self).conflicting() == old(self).conflicting(),
            propagated(old(self)@, final(self)@),
    {
        let ghost start = self@;
        let ghost mut steps: Seq<(int, Color)> = Seq::empty();
        proof {
            self.lemma_valid_board();
        }
        loop
            invariant
                self.wf(),
                self.conflicting() == old(self).conflicting(),
                start == old(self)@,
                start.len() == 81,
                forced(start, steps),
                self@ == run(start, steps),
            ensures
                no_singles(self@),
            decreases unassigned(self@).len(),
        {
            let singles: Vec<(usize, usize)> = self.cells_with(1);
            if singles.len() == 0 {
                proof {
                    assert forall|p: int| is_cell(p) implies (#[trigger] candidates(self@, p)).len()
                        != 1 by {
                        lemma_cell_of_coordinates(p);
                        let q = (row_of(p) as usize, col_of(p) as usize);
                        if candidates(self@, p).len() == 1 {
                            assert(singles@.contains(q));
                        }
                    }
                }
                break;
            }
            let ghost entering = unassigned(self@).len();
            proof {
                self.lemma_valid_board();
                assert forall|j: int| 0 <= j < singles@.len() implies (#[trigger] singles@[j]).0 < 9
                    && singles@[j].1 < 9 && candidates(
                    self@,
                    cell_index(singles@[j].0 as int, singles@[j].1 as int),
                ).len() == 1 by {
                    assert(singles@.contains(singles@[j]));
                }
            }
            for n in 0..singles.len()
                invariant
                    self.wf(),
                    self@.len() == 81,
                    self.conflicting() == old(self).conflicting(),
                    start.len() == 81,
                    forced(start, steps),
                    self@ == run(start, steps),
                    singles@.len() > 0,
                    forall|j: int|
                        0 <= j < singles@.len() ==> (#[trigger] singles@[j]).0 < 9 && singles@[j].1 < 9,
                    forall|j: int|
                        n <= j < singles@.len() ==> candidates(
                            self@,
                            cell_index((#[trigger] singles@[j]).0 as int, singles@[j].1 as int),
                        ).len() <= 1,
                    n == 0 ==> candidates(
                        self@,
                        cell_index(singles@[0].0 as int, singles@[0].1 as int),
                    ).len() == 1,
                    unassigned(self@).len() <= entering,
                    n > 0 ==> unassigned(self@).len() < entering,
            {
                let cell = singles[n];
                let ghost p = cell_index(cell.0 as int, cell.1 as int);
                let ghost g = self@;
                proof {
                    lemma_coordinates(cell.0 as int, cell.1 as int);
                    lemma_no_candidate(candidates(g, p));
                }
                let options = self.candidates_of(cell);
                if options.len() > 0 {
                    let color = options[0];
                    proof {
                        assert(options@.contains(color));
                        lemma_forced_step(start, steps, p, color);
                        lemma_assign_shrinks(g, p, color);
                    }
                    self.set_cell_color(cell, color);
                    proof {
                        steps = steps.push((p, color));
                        self.lemma_valid_board();
                        assert forall|j: int| n + 1 <= j < singles@.len() implies candidates(
                            self@,
                            cell_index((#[trigger] singles@[j]).0 as int, singles@[j].1 as int),
                        ).len() <= 1 by {
                            lemma_coordinates(singles@[j].0 as int, singles@[j].1 as int);
                        }
                    }
                }
            }
        }
    }

    /// Completes the board if it can be completed. The search fills the
    /// forced cells, then takes a cell with the fewest candidates and tries
    /// each of them in ascending order, on a copy of the board.
    ///
    /// Returns `true` exactly when the board can be completed; the board is
    /// then solved and keeps every symbol that it held. Otherwise the
    /// board holds what filling the forced cells made of it.
    pub fn solve(&mut self) -> (solved: bool)
        requires
            old(self).wf(),
        ensures
            final(self).wf(),
            final(self).conflicting() == old(self).conflicting(),
            solved <==> old(self).has_solution(),
            solved ==> is_solution(final(self)@) && extends(final(self)@, old(self)@),
            !solved ==> propagated(old(self)@, final(self)@),
        decreases unassigned(old(self)@).len(),
    {
        let ghost start = self@;
        proof {
            self.lemma_valid_board();
        }
        self.set_hanging_singles();
        let ghost g = self@;
        proof {
            self.lemma_valid_board();
            let steps = choose|steps: Seq<(int, Color)>| forced(start, steps) && g == #[trigger] run(start, steps);
            lemma_forced_keeps_solutions(start, steps);
            lemma_extension_has_fewer_empty(g, start);
            assert(solvable(start) ==> solvable(g)) by {
                if solvable(start) {
                    let s = choose|s: Grid| is_solution(s) && #[trigger] extends(s, start);
                    assert(extends(s, g));
                }
            }
            assert(solvable(g) ==> solvable(start)) by {
                if solvable(g) {
                    let s = choose|s: Grid| is_solution(s) && #[trigger] extends(s, g);
                    lemma_extends_transitive(s, g, start);
                }
            }
        }

        if self.conflicted() {
            return false;
        }
        if self.has_contadiction() {
            proof {
                lemma_contradiction_has_no_solution(g);
            }
            return false;
        }
        if self.is_complete() {
            proof {
                lemma_solution_iff_complete_and_consistent(g);
                assert(extends(g, g));
            }
            return true;
        }
        let (row, col) = match self.select_unassigned_cell() {
            Some(cell) => cell,
            None => {
                proof {
                    let p = choose|p: int| is_cell(p) && (#[trigger] g[p]) is None;
                    assert(candidates(g, p).len() < 2);
                    assert(!stuck(g, p));
                }
                return false;
            },
        };
        let ghost p = cell_index(row as int, col as int);
        proof {
            lemma_coordinates(row as int, col as int);
            lemma_no_candidate(candidates(g, p));
        }

        let cantidates: Vec<Color> = self.candidates_of((row, col));
        proof {
            assert(cantidates@.contains(cantidates@[0]));
        }
        for n in 0..cantidates.len()
            invariant
                self.wf(),
                self@ == g,
                g.len() == 81,
                start.len() == 81,
                start == old(self)@,
                extends(g, start),
                unassigned(g).len() <= unassigned(start).len(),
                self.conflicting() == old(self).conflicting(),
                !self.conflicting(),
                row < 9,
                col < 9,
                p == cell_index(row as int, col as int),
                is_cell(p),
                g[p] is None,
                solvable(start) == solvable(g),
                propagated(start, g),
                forall|c: Color| cantidates@.contains(c) <==> candidates(g, p).contains(c),
                forall|j: int| 0 <= j < n ==> !solvable(g.update(p, Some(#[trigger] cantidates@[j]))),
        {
            let color = cantidates[n];
            let mut next_board = self.clone();
            proof {
                self.lemma_valid_board();
                assert(cantidates@.contains(color));
                lemma_assign_shrinks(g, p, color);
            }
            next_board.set_cell_color((row, col), color);
            if next_board.solve() {
                proof {
                    lemma_extends_assigned(next_board@, g, p, color);
                    lemma_extends_transitive(next_board@, g, start);
                }
                *self = next_board;
                return true;
            }
        }
        proof {
            if solvable(g) {
                let s = choose|s: Grid| is_solution(s) && #[trigger] extends(s, g);
                lemma_solution_picks_candidate(g, s, p);
                let c = s[p]->0;
                assert(cantidates@.contains(c));
                let j = choose|j: int| 0 <= j < cantidates@.len() && cantidates@[j] == c;
                lemma_extends_assigned(s, g, p, c);
                assert(extends(s, g.update(p, Some(cantidates@[j]))));
            }
        }
        false
    }
}

/// Filling the forced cells is idempotent: a second pass, right after the
/// first, leaves the board as the first pass left it.
pub proof fn lemma_second_pass_changes_nothing(
    start: SudokuBoard,
    once: SudokuBoard,
    twice: SudokuBoard,
)
    requires
        start.wf(),
        once.wf(),
        twice.wf(),
        propagated(start@, once@),
        once.conflicting() == start.conflicting(),
        propagated(once@, twice@),
        twice.conflicting() == once.conflicting(),
    ensures
        twice@ == once@,
        twice.conflicting() == once.conflicting(),
        forall|p: int| is_cell(p) ==> #[trigger] twice.candidates_at(p) == once.candidates_at(p),
        forall|k: int| 0 <= k <= 9 ==> #[trigger] twice.bucket(k) == once.bucket(k),
{
    lemma_propagation_is_idempotent(start@, once@, twice@);
    twice.lemma_valid_boards_agree(&once);
}

/// Extending is transitive.
pub proof fn lemma_extends_transitive(a: Grid, b: Grid, c: Grid)
    requires
        extends(a, b),
        extends(b, c),
    ensures
        extends(a, c),
{
    assert forall|p: int| 0 <= p < c.len() && (#[trigger] c[p]) is Some implies a[p] == c[p] by {
        assert(b[p] == c[p]);
    }
}

} // verus!
