//! Propagation: filling, again and again, a cell that has a single
//! candidate with that candidate.

use crate::color::Color;
use crate::rules::{
    candidates, extends, is_cell, is_solution, lemma_single_candidate,
    lemma_solution_picks_candidate, Grid,
};
use vstd::prelude::*;

verus! {

/// The grid after a sequence of steps, each of which puts a symbol into a
/// cell.
pub open spec fn run(g: Grid, steps: Seq<(int, Color)>) -> Grid
    decreases steps.len(),
{
    if steps.len() == 0 {
        g
    } else {
        run(g, steps.drop_last()).update(steps.last().0, Some(steps.last().1))
    }
}

/// Every step fills a cell with its only candidate at that moment.
pub open spec fn forced(g: Grid, steps: Seq<(int, Color)>) -> bool
    decreases steps.len(),
{
    steps.len() == 0 || {
        &&& forced(g, steps.drop_last())
        &&& is_cell(steps.last().0)
        &&& candidates(run(g, steps.drop_last()), steps.last().0).len() == 1
        &&& candidates(run(g, steps.drop_last()), steps.last().0).contains(steps.last().1)
    }
}

/// No empty cell has exactly one candidate.
pub open spec fn no_singles(g: Grid) -> bool {
    forall|p: int| is_cell(p) ==> (#[trigger] candidates(g, p)).len() != 1
}

/// `h` comes from `g` by filling, again and again, a cell that has a single
/// candidate with that candidate, until no cell has a single candidate.
pub open spec fn propagated(g: Grid, h: Grid) -> bool {
    &&& no_singles(h)
    &&& exists|steps: Seq<(int, Color)>| forced(g, steps) && h == #[trigger] run(g, steps)
}

/// One more forced step.
pub proof fn lemma_forced_step(g: Grid, steps: Seq<(int, Color)>, p: int, c: Color)
    requires
        forced(g, steps),
        is_cell(p),
        candidates(run(g, steps), p).len() == 1,
        candidates(run(g, steps), p).contains(c),
    ensures
        forced(g, steps.push((p, c))),
        run(g, steps.push((p, c))) == run(g, steps).update(p, Some(c)),
{
    assert(steps.push((p, c)).drop_last() =~= steps);
}

/// Forced steps only fill empty cells, and every solved grid that extends
/// the grid before them extends the grid after them: they lose no solution.
pub proof fn lemma_forced_keeps_solutions(g: Grid, steps: Seq<(int, Color)>)
    requires
        g.len() == 81,
        forced(g, steps),
    ensures
        run(g, steps).len() == 81,
        extends(run(g, steps), g),
        forall|s: Grid| is_solution(s) && extends(s, g) ==> #[trigger] extends(s, run(g, steps)),
    decreases steps.len(),
{
    if steps.len() > 0 {
        let before = run(g, steps.drop_last());
        let (p, c) = steps.last();
        let after = run(g, steps);
        lemma_forced_keeps_solutions(g, steps.drop_last());
        assert(before[p] is None);
        assert(extends(after, g)) by {
            assert forall|q: int| 0 <= q < g.len() && (#[trigger] g[q]) is Some implies after[q]
                == g[q] by {
                assert(before[q] == g[q]);
            }
        }
        assert forall|s: Grid| is_solution(s) && extends(s, g) implies #[trigger] extends(
            s,
            after,
        ) by {
            assert(extends(s, before));
            lemma_solution_picks_candidate(before, s, p);
            lemma_single_candidate(candidates(before, p), c, s[p]->0);
            assert forall|q: int| 0 <= q < after.len() && (#[trigger] after[q]) is Some implies s[q]
                == after[q] by {
                if q != p {
                    assert(before[q] is Some);
                }
            }
        }
    }
}

/// Where no cell has a single candidate there is no forced step to take.
pub proof fn lemma_nothing_forced(g: Grid, steps: Seq<(int, Color)>)
    requires
        no_singles(g),
        forced(g, steps),
    ensures
        steps.len() == 0,
    decreases steps.len(),
{
    if steps.len() > 0 {
        lemma_nothing_forced(g, steps.drop_last());
        assert(run(g, steps.drop_last()) == g);
        assert(candidates(g, steps.last().0).len() == 1);
    }
}

/// Propagation is idempotent: propagating a grid that comes out of
/// propagation gives the same grid again.
pub proof fn lemma_propagation_is_idempotent(g: Grid, once: Grid, twice: Grid)
    requires
        propagated(g, once),
        propagated(once, twice),
    ensures
        twice == once,
{
    let steps = choose|steps: Seq<(int, Color)>| forced(once, steps) && twice == #[trigger] run(once, steps);
    lemma_nothing_forced(once, steps);
}

} // verus!
