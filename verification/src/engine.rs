//! The run of the engine as a function of its input: sweep after sweep,
//! with a look at the bounds whenever the countdown runs out.

use vstd::prelude::*;
use crate::bounds::{closest, hot_box};
use crate::common::{ComputeError, InitialCell};
use crate::limits::{MAX_ITERATIONS, MAX_SIDE};
use crate::mass::{ints, swept};
use crate::model::{
    flow, hot_cells, inner, lemma_cell, lemma_hot_bounds, lemma_hot_zero, lemma_neighbours,
    lemma_row_col, sheds,
};
use crate::recentre::{blank, grown_side, keeps_off, regrown};

verus! {

/// The grid after one sweep.
pub open spec fn swept_grid(g: Seq<u32>, side: int) -> Seq<u32> {
    Seq::new(g.len(), |i: int| (g[i] + flow(g, side, i)) as u32)
}

/// The counters after one sweep of the grid `g`.
pub open spec fn counted(count: Seq<u32>, g: Seq<u32>, side: int) -> Seq<u32> {
    Seq::new(
        count.len(),
        |i: int|
            (count[i] + if sheds(g, side, i) > 0 {
                1int
            } else {
                0int
            }) as u32,
    )
}

/// The state of a run between two sweeps.
pub struct Run {
    pub side: int,
    pub sand: Seq<u32>,
    pub count: Seq<u32>,
    pub next_check: int,
    pub iterations: int,
    pub redistributions: int,
}

/// How a run ends.
pub enum Outcome {
    Settled { side: int, sand: Seq<u32>, count: Seq<u32>, iterations: int, redistributions: int },
    Failed(ComputeError),
}

/// The state after a look at the bounds, or `None` where the grid would
/// have to grow past the largest side.
pub open spec fn checked(r: Run) -> Option<Run> {
    let near = closest(hot_box(r.sand, r.side), r.side);
    if near > 1 {
        Some(Run { next_check: near / 2, ..r })
    } else if grown_side(r.side) > MAX_SIDE {
        None
    } else {
        Some(
            Run {
                side: grown_side(r.side),
                sand: regrown(r.sand, r.sand, r.side),
                count: regrown(r.count, r.sand, r.side),
                next_check: (grown_side(r.side) - r.side) / 4,
                ..r
            },
        )
    }
}

/// The state after the sweep that follows `r`, before any look at the
/// bounds.
pub open spec fn swept_run(r: Run) -> Run {
    Run {
        sand: swept_grid(r.sand, r.side),
        count: counted(r.count, r.sand, r.side),
        iterations: r.iterations + 1,
        redistributions: r.redistributions + hot_cells(r.sand, r.side),
        next_check: r.next_check - 1,
        ..r
    }
}

/// The state after the iteration that follows `r`, where the run goes on:
/// the sweep, and a look at the bounds if the countdown has run out.
pub open spec fn next_run(r: Run) -> Option<Run> {
    if swept_run(r).next_check != 0 {
        Some(swept_run(r))
    } else {
        checked(swept_run(r))
    }
}

/// The end of the run that stands at `r`.
#[verifier::opaque]
pub open spec fn settle(r: Run) -> Outcome
    decreases MAX_ITERATIONS - r.iterations,
{
    if r.iterations >= MAX_ITERATIONS {
        Outcome::Failed(ComputeError::TooManyIterations)
    } else {
        let hits = hot_cells(r.sand, r.side);
        let next = Run {
            sand: swept_grid(r.sand, r.side),
            count: counted(r.count, r.sand, r.side),
            iterations: r.iterations + 1,
            redistributions: r.redistributions + hits,
            next_check: r.next_check - 1,
            ..r
        };
        if hits == 0 {
            Outcome::Settled {
                side: next.side,
                sand: next.sand,
                count: next.count,
                iterations: next.iterations,
                redistributions: next.redistributions,
            }
        } else if next.next_check != 0 {
            settle(next)
        } else {
            match checked(next) {
                Some(after) => settle(after),
                None => Outcome::Failed(ComputeError::GridTooLarge),
            }
        }
    }
}

/// One step of a run: the sweep, and what follows from its count.
pub proof fn lemma_settle_step(r: Run)
    requires
        r.iterations < MAX_ITERATIONS,
    ensures
        settle(r) == if hot_cells(r.sand, r.side) == 0 {
            Outcome::Settled {
                side: r.side,
                sand: swept_run(r).sand,
                count: swept_run(r).count,
                iterations: r.iterations + 1,
                redistributions: swept_run(r).redistributions,
            }
        } else if r.next_check - 1 != 0 {
            settle(swept_run(r))
        } else {
            match checked(swept_run(r)) {
                Some(after) => settle(after),
                None => Outcome::Failed(ComputeError::GridTooLarge),
            }
        },
{
    reveal(settle);
}

/// A run that has used up its sweeps is given up.
pub proof fn lemma_settle_spent(r: Run)
    requires
        r.iterations >= MAX_ITERATIONS,
    ensures
        settle(r) == Outcome::Failed(ComputeError::TooManyIterations),
{
    reveal(settle);
}

/// The largest coordinate among the cells, 0 where there are none.
pub open spec fn extent(cells: Seq<InitialCell>) -> int
    decreases cells.len(),
{
    if cells.len() == 0 {
        0
    } else {
        let rest = extent(cells.drop_last());
        let c = cells.last();
        let m = if c.x >= c.y {
            c.x as int
        } else {
            c.y as int
        };
        if rest >= m {
            rest
        } else {
            m
        }
    }
}

/// Grains in the cells together.
pub open spec fn grains(cells: Seq<InitialCell>) -> int
    decreases cells.len(),
{
    if cells.len() == 0 {
        0
    } else {
        grains(cells.drop_last()) + cells.last().value
    }
}

/// The empty grid of the given side with the cells set on it one after
/// another.
pub open spec fn seeded(cells: Seq<InitialCell>, side: int) -> Seq<u32>
    decreases cells.len(),
{
    if cells.len() == 0 {
        blank(side)
    } else {
        let c = cells.last();
        seeded(cells.drop_last(), side).update(c.y * side + c.x, c.value)
    }
}

/// The end of the run on the given cells.
pub open spec fn outcome(cells: Seq<InitialCell>) -> Outcome {
    let side = extent(cells) + 1;
    if side > MAX_SIDE {
        Outcome::Failed(ComputeError::GridTooLarge)
    } else {
        match checked(
            Run {
                side,
                sand: seeded(cells, side),
                count: blank(side),
                next_check: 0,
                iterations: 0,
                redistributions: 0,
            },
        ) {
            Some(first) => settle(first),
            None => Outcome::Failed(ComputeError::GridTooLarge),
        }
    }
}

/// No cell of the grid holds more than three grains.
pub open spec fn stable(g: Seq<u32>) -> bool {
    forall|i: int| 0 <= i < g.len() ==> #[trigger] g[i] <= 3
}

/// A sweep topples no cell exactly when no inner cell holds four grains or
/// more, and never more cells than the grid has.
pub proof fn lemma_sweep_zero(g: Seq<u32>, side: int)
    ensures
        0 <= hot_cells(g, side) <= g.len(),
        hot_cells(g, side) == 0 <==> (forall|i: int| 0 <= i < g.len() ==> sheds(g, side, i) == 0),
{
    lemma_hot_bounds(g, side, g.len() as int);
    lemma_hot_zero(g, side, g.len() as int);
}

/// A cell that keeps off the edges is an inner cell.
pub proof fn lemma_off_inner(g: Seq<u32>, side: int, i: int)
    requires
        1 <= side,
        g.len() == side * side,
        0 <= i < g.len(),
        1 <= i % side <= side - 2,
        1 <= i / side <= side - 2,
    ensures
        inner(g.len() as int, side, i),
{
    lemma_row_col(side, i);
    lemma_cell(side, side, i % side, i / side);
    lemma_cell(side, side - 1, i % side, i / side);
    lemma_cell(side, side, 0, i / side - 1);
}

/// The front of toppling cells moves by one cell a sweep at the most.
#[verifier::rlimit(50)]
pub proof fn lemma_swept_off(g: Seq<u32>, side: int, d: int)
    requires
        3 <= side,
        g.len() == side * side,
        1 <= d,
        keeps_off(g, side, d),
        ints(swept_grid(g, side)) == swept(g, side),
    ensures
        keeps_off(swept_grid(g, side), side, d - 1),
{
    let w = swept_grid(g, side);
    assert forall|i: int| 0 <= i < w.len() && #[trigger] w[i] >= 4 implies d - 1 <= i % side <= side
        - 1 - (d - 1) && d - 1 <= i / side <= side - 1 - (d - 1) by {
        lemma_row_col(side, i);
        let x = i % side;
        let y = i / side;
        lemma_neighbours(g, side, x, y);
        lemma_cell(side, side, x, y);
        assert(w[i] == ints(w)[i]);
        assert(swept(g, side)[i] == g[i] + flow(g, side, i));
        if g[i] >= 4 {
            assert(d <= x <= side - 1 - d && d <= y <= side - 1 - d);
        } else {
            assert(sheds(g, side, i) == 0);
            assert(w[i] as int == g[i] + flow(g, side, i));
            if sheds(g, side, i - 1) > 0 {
                lemma_cell(side, side, x - 1, y);
                assert(g[i - 1] >= 4);
                assert((i - 1) % side == x - 1 && (i - 1) / side == y);
            } else if sheds(g, side, i + 1) > 0 {
                lemma_cell(side, side, x + 1, y);
                assert(g[i + 1] >= 4);
                assert((i + 1) % side == x + 1 && (i + 1) / side == y);
            } else if sheds(g, side, i - side) > 0 {
                lemma_cell(side, side, x, y - 1);
                assert(g[i - side] >= 4);
                assert((i - side) % side == x && (i - side) / side == y - 1);
            } else if sheds(g, side, i + side) > 0 {
                lemma_cell(side, side, x, y + 1);
                assert(g[i + side] >= 4);
                assert((i + side) % side == x && (i + side) / side == y + 1);
            } else {
                assert(flow(g, side, i) == 0);
            }
        }
    }
}

} // verus!
