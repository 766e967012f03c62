//! What holds of the engine as a whole: a stable grid stays as it is, the
//! order of the cells does not matter, counters never fall, and grains are
//! kept.

use vstd::prelude::*;
use crate::bounds::{
    closest, hot_at, hot_box, lemma_first_line_hot, lemma_hot_box, lemma_last_line_hot, line_cell,
    line_hot,
};
use crate::common::InitialCell;
use crate::compute::{
    lemma_after_sweep, lemma_checked_ok, lemma_extent, lemma_seeded_total, run_ok,
};
use crate::engine::{
    checked, counted, extent, grains, lemma_settle_spent, lemma_settle_step, lemma_sweep_zero,
    outcome, seeded, settle, stable, swept_grid, swept_run, Outcome, Run,
};
use crate::limits::{MAX_ITERATIONS, MAX_SIDE};
use crate::mass::{
    ints, lemma_sum_update, lemma_sum_zero, lemma_swept_total, lemma_total_le, swept, total,
};
use crate::model::{flow, hot_cells, lemma_cell, lemma_neighbours, lemma_row_col, sheds};
use crate::recentre::{
    blank, grown_side, keeps_off, lemma_regrown_cells, lemma_regrown_total, lemma_shift_for, lemma_target,
    regrown, shift_for,
};

verus! {

/// A sweep of a grid in which no cell holds more than three grains topples
/// nothing and leaves the grid as it is.
pub proof fn lemma_stable_sweep(g: Seq<u32>, side: int)
    requires
        0 <= side,
        g.len() == side * side,
        stable(g),
    ensures
        hot_cells(g, side) == 0,
        swept_grid(g, side) == g,
{
    assert forall|i: int| sheds(g, side, i) == 0 by {
        if 0 <= i < g.len() {
            assert(g[i] <= 3);
        }
    }
    lemma_sweep_zero(g, side);
    assert(swept_grid(g, side) =~= g);
}

/// Idempotence: the engine, set on a grid that it has stabilised, is done
/// after one sweep that topples nothing, and hands the same grid back.
pub proof fn lemma_idempotent(r: Run)
    requires
        0 <= r.side,
        r.sand.len() == r.side * r.side,
        r.count.len() == r.sand.len(),
        r.iterations < MAX_ITERATIONS,
        stable(r.sand),
    ensures
        settle(r) == (Outcome::Settled {
            side: r.side,
            sand: r.sand,
            count: r.count,
            iterations: r.iterations + 1,
            redistributions: r.redistributions,
        }),
{
    lemma_stable_sweep(r.sand, r.side);
    lemma_settle_step(r);
    assert forall|i: int| sheds(r.sand, r.side, i) == 0 by {
        if 0 <= i < r.sand.len() {
            assert(r.sand[i] <= 3);
        }
    }
    assert(counted(r.count, r.sand, r.side) =~= r.count);
}

/// Count monotonicity: a sweep lowers no counter, and a look at the bounds
/// either leaves the counters or moves each counter of the active box, as
/// it is, to its new place.
pub proof fn lemma_counts_grow(r: Run)
    requires
        run_ok(r),
        r.iterations < MAX_ITERATIONS,
    ensures
        forall|i: int|
            0 <= i < r.count.len() ==> r.count[i] <= #[trigger] swept_run(r).count[i] <= r.count[i]
                + 1,
        match checked(swept_run(r)) {
            Some(after) => after.count == swept_run(r).count || ({
                let s = shift_for(hot_box(swept_run(r).sand, r.side), r.side);
                forall|i: int|
                    0 <= i < after.count.len() && s.covers(i) ==> #[trigger] after.count[i]
                        == swept_run(r).count[s.source(i)]
            }),
            None => true,
        },
{
    let next = swept_run(r);
    if closest(hot_box(next.sand, r.side), r.side) <= 1 && grown_side(r.side) <= MAX_SIDE {
        lemma_regrown_cells(next.count, next.sand, r.side);
    }
}

/// The outermost rows and columns are never written: while the toppling
/// cells keep two cells or more from every edge, as they do in every run
/// between two sweeps, a sweep leaves the rim of the grid as it is.
pub proof fn lemma_rim_rests(g: Seq<u32>, side: int)
    requires
        3 <= side,
        g.len() == side * side,
        keeps_off(g, side, 2),
    ensures
        forall|i: int|
            0 <= i < g.len() && (i % side == 0 || i % side == side - 1 || i / side == 0 || i / side
                == side - 1) ==> #[trigger] flow(g, side, i) == 0,
{
    assert forall|i: int|
        0 <= i < g.len() && (i % side == 0 || i % side == side - 1 || i / side == 0 || i / side
            == side - 1) implies #[trigger] flow(g, side, i) == 0 by {
        lemma_row_col(side, i);
        let x = i % side;
        let y = i / side;
        lemma_neighbours(g, side, x, y);
        lemma_cell(side, side, x, y);
        if sheds(g, side, i - 1) > 0 {
            lemma_cell(side, side, x - 1, y);
            assert(g[i - 1] >= 4);
        }
        if sheds(g, side, i + 1) > 0 {
            lemma_cell(side, side, x + 1, y);
            assert(g[i + 1] >= 4);
        }
        if sheds(g, side, i - side) > 0 {
            lemma_cell(side, side, x, y - 1);
            assert(g[i - side] >= 4);
        }
        if sheds(g, side, i + side) > 0 {
            lemma_cell(side, side, x, y + 1);
            assert(g[i + side] >= 4);
        }
    }
}

/// No two cells share a position.
pub open spec fn distinct(cells: Seq<InitialCell>) -> bool {
    forall|i: int, j: int|
        0 <= i < j < cells.len() ==> cells[i].x != cells[j].x || cells[i].y != cells[j].y
}

/// The cell of the seeded grid on which a cell of the list was set holds
/// that cell's grains.
pub proof fn lemma_seeded_at(cells: Seq<InitialCell>, side: int, k: int)
    requires
        distinct(cells),
        extent(cells) < side,
        0 <= k < cells.len(),
    ensures
        seeded(cells, side).len() == side * side,
        0 <= cells[k].y * side + cells[k].x < side * side,
        seeded(cells, side)[cells[k].y * side + cells[k].x] == cells[k].value,
    decreases cells.len(),
{
    let rest = cells.drop_last();
    let c = cells.last();
    lemma_extent_grows(cells);
    lemma_seeded_len(cells, side);
    lemma_seeded_len(rest, side);
    lemma_extent(cells, k);
    lemma_extent(cells, cells.len() - 1);
    lemma_cell(side, side, c.x as int, c.y as int);
    lemma_cell(side, side, cells[k].x as int, cells[k].y as int);
    if k < cells.len() - 1 {
        lemma_seeded_at(rest, side, k);
    }
}

pub proof fn lemma_extent_grows(cells: Seq<InitialCell>)
    requires
        cells.len() > 0,
    ensures
        extent(cells.drop_last()) <= extent(cells),
{
}

pub proof fn lemma_seeded_len(cells: Seq<InitialCell>, side: int)
    requires
        extent(cells) < side,
    ensures
        seeded(cells, side).len() == side * side,
{
    lemma_extent_floor(cells);
    lemma_seeded_total(cells, side);
}

/// A cell of the seeded grid on which no cell of the list was set is empty.
pub proof fn lemma_seeded_empty(cells: Seq<InitialCell>, side: int, i: int)
    requires
        extent(cells) < side,
        0 <= i < side * side,
        forall|k: int| 0 <= k < cells.len() ==> #[trigger] cells[k].y * side + cells[k].x != i,
    ensures
        seeded(cells, side)[i] == 0,
    decreases cells.len(),
{
    lemma_seeded_len(cells, side);
    if cells.len() > 0 {
        let rest = cells.drop_last();
        lemma_extent_grows(cells);
        lemma_seeded_len(rest, side);
        lemma_extent(cells, cells.len() - 1);
        lemma_cell(side, side, cells.last().x as int, cells.last().y as int);
        assert forall|k: int| 0 <= k < rest.len() implies #[trigger] rest[k].y * side + rest[k].x
            != i by {
            assert(cells[k].y * side + cells[k].x != i);
        }
        lemma_seeded_empty(rest, side, i);
        assert(cells[cells.len() - 1].y * side + cells[cells.len() - 1].x != i);
    }
}

/// The extent of a list of cells is a coordinate of one of them.
pub proof fn lemma_extent_attained(cells: Seq<InitialCell>)
    requires
        cells.len() > 0,
    ensures
        exists|k: int|
            0 <= k < cells.len() && (extent(cells) == (#[trigger] cells[k]).x || extent(cells)
                == cells[k].y),
    decreases cells.len(),
{
    let n = cells.len() - 1;
    let rest = cells.drop_last();
    let c = cells.last();
    let m = if c.x >= c.y {
        c.x as int
    } else {
        c.y as int
    };
    if rest.len() > 0 && extent(rest) >= m {
        lemma_extent_attained(rest);
        let k = choose|k: int|
            0 <= k < rest.len() && (extent(rest) == (#[trigger] rest[k]).x || extent(rest)
                == rest[k].y);
        assert(cells[k] == rest[k]);
    } else {
        lemma_extent_floor(rest);
        assert(cells[n] == c);
    }
}

pub proof fn lemma_extent_floor(cells: Seq<InitialCell>)
    ensures
        0 <= extent(cells),
    decreases cells.len(),
{
    if cells.len() > 0 {
        lemma_extent_floor(cells.drop_last());
    }
}

/// Lists that hold the same cells have the same extent.
pub proof fn lemma_extent_le(a: Seq<InitialCell>, b: Seq<InitialCell>)
    requires
        forall|c: InitialCell| a.contains(c) ==> b.contains(c),
    ensures
        extent(a) <= extent(b),
{
    lemma_extent_floor(b);
    if a.len() > 0 {
        lemma_extent_attained(a);
        let k = choose|k: int|
            0 <= k < a.len() && (extent(a) == (#[trigger] a[k]).x || extent(a) == a[k].y);
        assert(a.contains(a[k]));
        let m = choose|m: int| 0 <= m < b.len() && b[m] == a[k];
        lemma_extent(b, m);
    }
}

/// Abelianness: the cells of the initial configuration may come in any
/// order. Two lists of cells at distinct positions, one a reordering of the
/// other, give the same seeded grid and so the same run: the same final
/// grid, counters, side and totals.
#[verifier::rlimit(50)]
pub proof fn lemma_reorder(a: Seq<InitialCell>, b: Seq<InitialCell>)
    requires
        a.to_multiset() == b.to_multiset(),
        distinct(a),
        distinct(b),
    ensures
        extent(a) == extent(b),
        seeded(a, extent(a) + 1) == seeded(b, extent(b) + 1),
        outcome(a) == outcome(b),
{
    a.to_multiset_ensures();
    b.to_multiset_ensures();
    assert forall|c: InitialCell| a.contains(c) <==> b.contains(c) by {
        assert(a.contains(c) <==> a.to_multiset().count(c) > 0);
        assert(b.contains(c) <==> b.to_multiset().count(c) > 0);
    }
    lemma_extent_le(a, b);
    lemma_extent_le(b, a);
    let side = extent(a) + 1;
    let ga = seeded(a, side);
    let gb = seeded(b, side);
    lemma_seeded_len(a, side);
    lemma_seeded_len(b, side);
    assert forall|i: int| 0 <= i < ga.len() implies ga[i] == gb[i] by {
        if exists|k: int| 0 <= k < a.len() && (#[trigger] a[k]).y * side + a[k].x == i {
            let k = choose|k: int| 0 <= k < a.len() && (#[trigger] a[k]).y * side + a[k].x == i;
            assert(a.contains(a[k]));
            let m = choose|m: int| 0 <= m < b.len() && b[m] == a[k];
            lemma_seeded_at(a, side, k);
            lemma_seeded_at(b, side, m);
        } else {
            assert forall|m: int| 0 <= m < b.len() implies #[trigger] b[m].y * side + b[m].x
                != i by {
                assert(b.contains(b[m]));
                let k = choose|k: int| 0 <= k < a.len() && a[k] == b[m];
                assert(a[k].y * side + a[k].x != i);
            }
            assert forall|k: int| 0 <= k < a.len() implies #[trigger] a[k].y * side + a[k].x
                != i by {
                assert(!((#[trigger] a[k]).y * side + a[k].x == i));
            }
            lemma_seeded_empty(a, side, i);
            lemma_seeded_empty(b, side, i);
        }
    }
    assert(ga =~= gb);
}

/// Every grain of the grid lies in the box around the cells that are about
/// to topple.
pub open spec fn all_in_box(g: Seq<u32>, side: int) -> bool {
    let b = hot_box(g, side);
    forall|i: int|
        0 <= i < g.len() && #[trigger] g[i] > 0 ==> b.minx <= i % side <= b.maxx && b.miny <= i
            / side <= b.maxy
}

/// A grid whose grains all lie in the box keeps them when it grows.
#[verifier::rlimit(50)]
pub proof fn lemma_regrown_keeps(g: Seq<u32>, side: int)
    requires
        1 <= side,
        g.len() == side * side,
        grown_side(side) <= MAX_SIDE,
        all_in_box(g, side),
    ensures
        total(regrown(g, g, side)) == total(g),
{
    let s = shift_for(hot_box(g, side), side);
    let n = grown_side(side);
    let new = regrown(g, g, side);
    lemma_regrown_total(g, side);
    lemma_regrown_cells(g, g, side);
    lemma_shift_for(g, side);
    let f = |i: int| s.target(i);
    assert forall|i: int| 0 <= i < g.len() && #[trigger] g[i] > 0 implies 0 <= f(i) < new.len()
        && g[i] <= new[f(i)] by {
        lemma_target(s, i);
    }
    assert forall|i: int, j: int|
        0 <= i < j < g.len() && #[trigger] g[i] > 0 && #[trigger] g[j] > 0 implies f(i) != f(j) by {
        lemma_target(s, i);
        lemma_target(s, j);
    }
    lemma_total_le(g, new, f);
}

/// No look at the bounds in the run from `r` drops a grain: whenever the
/// grid grows, every grain lies in the box that moves.
pub open spec fn lossless(r: Run) -> bool
    decreases MAX_ITERATIONS - r.iterations,
{
    if r.iterations >= MAX_ITERATIONS {
        true
    } else {
        let next = swept_run(r);
        if hot_cells(r.sand, r.side) == 0 {
            true
        } else if next.next_check != 0 {
            lossless(next)
        } else {
            keeps(next) && match checked(next) {
                Some(after) => lossless(after),
                None => true,
            }
        }
    }
}

/// A look at the bounds of `r` drops no grain.
pub open spec fn keeps(r: Run) -> bool {
    closest(hot_box(r.sand, r.side), r.side) > 1 || all_in_box(r.sand, r.side)
}

/// Mass conservation for a run: where no look at the bounds drops a grain,
/// the final grid holds what the grid held at the start.
#[verifier::rlimit(50)]
pub proof fn lemma_run_mass(r: Run)
    requires
        run_ok(r),
        lossless(r),
        settle(r) is Settled,
    ensures
        total(settle(r)->sand) == total(r.sand),
    decreases MAX_ITERATIONS - r.iterations,
{
    if r.iterations >= MAX_ITERATIONS {
        lemma_settle_spent(r);
    } else {
        let next = swept_run(r);
        lemma_settle_step(r);
        lemma_swept_total(r.sand, r.side);
        assert(ints(next.sand) =~= swept(r.sand, r.side));
        assert forall|i: int| 0 <= i < next.count.len() implies (#[trigger] next.count[i])
            == r.count[i] + if sheds(r.sand, r.side, i) > 0 {
            1int
        } else {
            0int
        } by {
            assert(r.count[i] <= r.iterations);
        }
        lemma_after_sweep(r, next.sand, next.count);
        if hot_cells(r.sand, r.side) == 0 {
        } else if next.next_check != 0 {
            lemma_run_mass(next);
        } else {
            lemma_checked_ok(next);
            match checked(next) {
                Some(after) => {
                    if closest(hot_box(next.sand, next.side), next.side) <= 1 {
                        lemma_regrown_keeps(next.sand, next.side);
                    }
                    lemma_run_mass(after);
                },
                None => {},
            }
        }
    }
}

/// Cells at distinct positions put all their grains on the seeded grid.
#[verifier::rlimit(50)]
pub proof fn lemma_seeded_grains(cells: Seq<InitialCell>, side: int)
    requires
        distinct(cells),
        extent(cells) < side,
    ensures
        total(seeded(cells, side)) == grains(cells),
    decreases cells.len(),
{
    lemma_extent_floor(cells);
    if cells.len() == 0 {
        lemma_sum_zero(ints(blank(side)));
    } else {
        let rest = cells.drop_last();
        let c = cells.last();
        let n = cells.len() - 1;
        lemma_extent_grows(cells);
        lemma_seeded_grains(rest, side);
        lemma_seeded_len(rest, side);
        lemma_extent(cells, n);
        lemma_cell(side, side, c.x as int, c.y as int);
        let g = seeded(rest, side);
        let i = c.y * side + c.x;
        assert forall|k: int| 0 <= k < rest.len() implies #[trigger] rest[k].y * side + rest[k].x
            != i by {
            lemma_extent(cells, k);
            lemma_cell(side, side, cells[k].x as int, cells[k].y as int);
            assert(cells[k].x != cells[n].x || cells[k].y != cells[n].y);
        }
        lemma_seeded_empty(rest, side, i);
        lemma_sum_update(ints(g), i, c.value as int);
        assert(ints(g.update(i, c.value)) =~= ints(g).update(i, c.value as int));
    }
}

/// The run as it stands before the first look at the bounds.
pub open spec fn first_run(cells: Seq<InitialCell>) -> Run {
    Run {
        side: extent(cells) + 1,
        sand: seeded(cells, extent(cells) + 1),
        count: blank(extent(cells) + 1),
        next_check: 0,
        iterations: 0,
        redistributions: 0,
    }
}

/// Mass conservation: for cells at distinct positions that hold `T` grains in
/// all, the stabilised grid holds `T` grains, provided that no look at the
/// bounds, the first included, finds a grain outside the box that it moves.
#[verifier::rlimit(50)]
pub proof fn lemma_mass_conserved(cells: Seq<InitialCell>)
    requires
        distinct(cells),
        grains(cells) <= u32::MAX,
        outcome(cells) is Settled,
        keeps(first_run(cells)),
        checked(first_run(cells)) is Some ==> lossless(checked(first_run(cells)).unwrap()),
    ensures
        total(outcome(cells)->sand) == grains(cells),
{
    let first = first_run(cells);
    lemma_extent_floor(cells);
    lemma_seeded_grains(cells, first.side);
    lemma_seeded_len(cells, first.side);
    assert(blank(first.side).len() == first.side * first.side) by {
        assert(first.side * first.side >= 0) by (nonlinear_arith);
    }
    lemma_checked_ok(first);
    if closest(hot_box(first.sand, first.side), first.side) <= 1 && grown_side(first.side)
        <= MAX_SIDE {
        lemma_regrown_keeps(first.sand, first.side);
    }
    lemma_run_mass(checked(first).unwrap());
}

/// Cells that hold no more than three grains each are set on a stable grid.
pub proof fn lemma_seeded_stable(cells: Seq<InitialCell>, side: int)
    requires
        extent(cells) < side,
        forall|k: int| 0 <= k < cells.len() ==> (#[trigger] cells[k]).value <= 3,
    ensures
        stable(seeded(cells, side)),
    decreases cells.len(),
{
    lemma_seeded_len(cells, side);
    if cells.len() > 0 {
        let rest = cells.drop_last();
        lemma_extent_grows(cells);
        lemma_seeded_len(rest, side);
        assert forall|k: int| 0 <= k < rest.len() implies (#[trigger] rest[k]).value <= 3 by {
            assert(cells[k].value <= 3);
        }
        lemma_seeded_stable(rest, side);
        lemma_extent(cells, cells.len() - 1);
        lemma_cell(side, side, cells.last().x as int, cells.last().y as int);
        assert(cells[cells.len() - 1].value <= 3);
    }
}

/// A grid without a cell about to topple has its box at the origin.
pub proof fn lemma_cold_box(g: Seq<u32>, side: int)
    requires
        1 <= side,
        g.len() == side * side,
        stable(g),
    ensures
        hot_box(g, side).minx == 0,
        hot_box(g, side).maxx == 0,
        hot_box(g, side).miny == 0,
        hot_box(g, side).maxy == 0,
{
    assert forall|rows: bool, k: int| 0 <= k < side implies !#[trigger] line_hot(
        g,
        side,
        rows,
        k,
    ) by {
        assert forall|t: int| 0 <= t < side implies !hot_at(g, side, rows, k, t) by {
            lemma_cell(side, side, t, k);
            lemma_cell(side, side, k, t);
            assert(g[line_cell(side, rows, k, t)] <= 3);
        }
    }
    lemma_first_line_hot(g, side, true, 0);
    lemma_first_line_hot(g, side, false, 0);
    lemma_last_line_hot(g, side, true, side);
    lemma_last_line_hot(g, side, false, side);
    lemma_hot_box(g, side);
}

/// A pile that needs no toppling: cells that hold no more than three grains
/// each, on a grid that has room to grow once, come back after one sweep,
/// with the cell of the origin in the middle of the first grid that the
/// engine allocates and nothing counted. (All other cells are dropped: the
/// box of a grid without toppling cells is the origin alone.)
pub proof fn lemma_stable_start(cells: Seq<InitialCell>)
    requires
        forall|k: int| 0 <= k < cells.len() ==> (#[trigger] cells[k]).value <= 3,
        grown_side(extent(cells) + 1) <= MAX_SIDE,
    ensures
        outcome(cells) == (Outcome::Settled {
            side: grown_side(extent(cells) + 1),
            sand: regrown(
                seeded(cells, extent(cells) + 1),
                seeded(cells, extent(cells) + 1),
                extent(cells) + 1,
            ),
            count: blank(grown_side(extent(cells) + 1)),
            iterations: 1,
            redistributions: 0,
        }),
{
    let first = first_run(cells);
    let side = first.side;
    lemma_extent_floor(cells);
    lemma_seeded_stable(cells, side);
    lemma_seeded_len(cells, side);
    assert(blank(side).len() == side * side) by {
        assert(side * side >= 0) by (nonlinear_arith);
    }
    lemma_cold_box(first.sand, side);
    lemma_regrown_cells(first.sand, first.sand, side);
    lemma_regrown_cells(first.count, first.sand, side);
    let after = checked(first).unwrap();
    assert(after.count =~= blank(grown_side(side)));
    lemma_idempotent(after);
}

} // verus!
