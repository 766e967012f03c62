//! The driver: the cells are set on a grid, and sweeps and looks at the
//! bounds follow until a sweep topples nothing.

use vstd::prelude::*;
use crate::bounds::{closest, hot_box};
use crate::common::{ComputeError, FractalResult, InitialCell};
use crate::engine::{
    checked, counted, extent, grains, lemma_off_inner, lemma_settle_spent, lemma_settle_step,
    lemma_swept_off, lemma_sweep_zero, next_run, outcome, seeded, settle, stable, swept_grid,
    swept_run, Outcome, Run,
};
use crate::limits::{MAX_ITERATIONS, MAX_SIDE};
use crate::mass::{ints, lemma_sum_update, lemma_sum_zero, lemma_swept_total, swept, total};
use crate::model::{flow, hot_cells, lemma_cell, lemma_phase_in, sheds};
use crate::recentre::{
    blank, copy_data, grown_side, keeps_off, lemma_regrown_cells, lemma_regrown_off,
    lemma_regrown_total, lemma_stays_off, maybe_reallocate,
};
use crate::sweep::sweep;

verus! {

/// The 8-bit grid as a grid of 32-bit cells.
pub open spec fn widened(s: Seq<u8>) -> Seq<u32> {
    Seq::new(s.len(), |i: int| s[i] as u32)
}

/// No cell lies beyond the extent of the cells.
pub proof fn lemma_extent(cells: Seq<InitialCell>, k: int)
    requires
        0 <= k < cells.len(),
    ensures
        cells[k].x <= extent(cells),
        cells[k].y <= extent(cells),
        0 <= extent(cells),
    decreases cells.len(),
{
    if k < cells.len() - 1 {
        lemma_extent(cells.drop_last(), k);
    } else if cells.len() > 1 {
        lemma_extent(cells.drop_last(), 0);
    }
}

/// Setting the cells on an empty grid puts no more grains on it than the
/// cells hold.
pub proof fn lemma_seeded_total(cells: Seq<InitialCell>, side: int)
    requires
        1 <= side,
        extent(cells) < side,
    ensures
        seeded(cells, side).len() == side * side,
        total(seeded(cells, side)) <= grains(cells),
        0 <= grains(cells),
    decreases cells.len(),
{
    assert(side * side >= 0) by (nonlinear_arith);
    if cells.len() == 0 {
        lemma_sum_zero(ints(blank(side)));
    } else {
        let rest = cells.drop_last();
        let c = cells.last();
        lemma_extent(cells, cells.len() - 1);
        lemma_seeded_total(rest, side);
        lemma_cell(side, side, c.x as int, c.y as int);
        let g = seeded(rest, side);
        let i = c.y * side + c.x;
        lemma_sum_update(ints(g), i, c.value as int);
        assert(ints(g.update(i, c.value)) =~= ints(g).update(i, c.value as int));
    }
}

/// Whether the engine takes the cells: there is one at the least, and
/// together they hold no more grains than 32 bits count.
pub fn is_admissible(initial_configuration: &[InitialCell]) -> (ok: bool)
    ensures
        ok == (initial_configuration@.len() > 0 && grains(initial_configuration@) <= u32::MAX),
{
    let n = initial_configuration.len();
    let mut held: u64 = 0;
    let mut k: usize = 0;
    while k < n
        invariant
            n == initial_configuration@.len(),
            k <= n,
            held == grains(initial_configuration@.take(k as int)),
            held <= u32::MAX,
        decreases n - k,
    {
        proof {
            assert(initial_configuration@.take(k + 1).drop_last() =~= initial_configuration@.take(
                k as int,
            ));
            lemma_grains_grow(initial_configuration@, k + 1);
        }
        held = held + initial_configuration[k].value as u64;
        if held > 0xffff_ffff {
            return false;
        }
        k = k + 1;
    }
    proof {
        assert(initial_configuration@.take(n as int) =~= initial_configuration@);
    }
    n > 0
}

/// The first cells of a list hold no more grains than the list.
pub proof fn lemma_grains_grow(cells: Seq<InitialCell>, k: int)
    requires
        0 <= k <= cells.len(),
    ensures
        0 <= grains(cells.take(k)) <= grains(cells),
    decreases cells.len() - k,
{
    if k < cells.len() {
        lemma_grains_grow(cells, k + 1);
        assert(cells.take(k + 1).drop_last() =~= cells.take(k));
    } else {
        assert(cells.take(k) =~= cells);
        lemma_grains_nonneg(cells);
    }
    lemma_grains_nonneg(cells.take(k));
}

pub proof fn lemma_grains_nonneg(cells: Seq<InitialCell>)
    ensures
        0 <= grains(cells),
    decreases cells.len(),
{
    if cells.len() > 0 {
        lemma_grains_nonneg(cells.drop_last());
    }
}

/// The largest coordinate among the cells.
pub fn largest_coordinate(initial_configuration: &[InitialCell]) -> (m: usize)
    ensures
        m == extent(initial_configuration@),
{
    let n = initial_configuration.len();
    let mut m: usize = 0;
    let mut k: usize = 0;
    while k < n
        invariant
            n == initial_configuration@.len(),
            k <= n,
            m == extent(initial_configuration@.take(k as int)),
        decreases n - k,
    {
        proof {
            assert(initial_configuration@.take(k + 1).drop_last() =~= initial_configuration@.take(
                k as int,
            ));
        }
        let entry = initial_configuration[k];
        let larger = if entry.x >= entry.y {
            entry.x
        } else {
            entry.y
        };
        if larger > m {
            m = larger;
        }
        k = k + 1;
    }
    proof {
        assert(initial_configuration@.take(n as int) =~= initial_configuration@);
    }
    m
}

/// An empty grid of the given side with the cells set on it.
pub fn seed(initial_configuration: &[InitialCell], side_length: usize) -> (grid: Vec<u32>)
    requires
        1 <= side_length <= MAX_SIDE,
        extent(initial_configuration@) < side_length,
    ensures
        grid@ == seeded(initial_configuration@, side_length as int),
        grid@.len() == side_length * side_length,
{
    let ghost side = side_length as int;
    assert(side * side <= 32766 * 32766) by (nonlinear_arith)
        requires
            0 <= side <= 32766,
    ;
    let mut grid = vec![0u32; side_length * side_length];
    assert(grid@ =~= blank(side));
    let n = initial_configuration.len();
    let mut k: usize = 0;
    while k < n
        invariant
            n == initial_configuration@.len(),
            k <= n,
            side == side_length,
            1 <= side <= 32766,
            extent(initial_configuration@) < side,
            grid@.len() == side * side,
            side * side <= 32766 * 32766,
            grid@ == seeded(initial_configuration@.take(k as int), side),
        decreases n - k,
    {
        let entry = initial_configuration[k];
        proof {
            assert(initial_configuration@.take(k + 1).drop_last() =~= initial_configuration@.take(
                k as int,
            ));
            lemma_extent(initial_configuration@, k as int);
            lemma_cell(side, side, entry.x as int, entry.y as int);
        }
        grid[entry.y * side_length + entry.x] = entry.value;
        k = k + 1;
    }
    proof {
        assert(initial_configuration@.take(n as int) =~= initial_configuration@);
    }
    grid
}

/// The grid with each cell cut to 8 bits.
pub fn narrow(grid: &Vec<u32>) -> (bytes: Vec<u8>)
    ensures
        bytes@.len() == grid@.len(),
        forall|i: int| 0 <= i < grid@.len() ==> bytes@[i] == grid@[i] as u8,
{
    let n = grid.len();
    let mut bytes: Vec<u8> = Vec::with_capacity(n);
    let mut i: usize = 0;
    while i < n
        invariant
            n == grid@.len(),
            i <= n,
            bytes@.len() == i,
            forall|k: int| 0 <= k < i ==> bytes@[k] == grid@[k] as u8,
        decreases n - i,
    {
        bytes.push(grid[i] as u8);
        i = i + 1;
    }
    bytes
}

/// What holds of a run between two sweeps.
pub open spec fn run_ok(r: Run) -> bool {
    &&& 5 <= r.side <= MAX_SIDE
    &&& r.sand.len() == r.side * r.side
    &&& r.count.len() == r.sand.len()
    &&& total(r.sand) <= u32::MAX
    &&& 1 <= r.next_check
    &&& keeps_off(r.sand, r.side, r.next_check + 1)
    &&& forall|i: int| 0 <= i < r.count.len() ==> #[trigger] r.count[i] <= r.iterations
    &&& 0 <= r.iterations <= MAX_ITERATIONS
    &&& 0 <= r.redistributions <= r.iterations * 0x4000_0000
}

/// A look at the bounds leaves the run in order.
#[verifier::rlimit(50)]
pub proof fn lemma_checked_ok(r: Run)
    requires
        1 <= r.side <= MAX_SIDE,
        r.sand.len() == r.side * r.side,
        r.count.len() == r.sand.len(),
        total(r.sand) <= u32::MAX,
        forall|i: int| 0 <= i < r.count.len() ==> #[trigger] r.count[i] <= r.iterations,
        0 <= r.iterations <= MAX_ITERATIONS,
        0 <= r.redistributions <= r.iterations * 0x4000_0000,
    ensures
        checked(r) is Some ==> run_ok(checked(r).unwrap()),
        0 <= closest(hot_box(r.sand, r.side), r.side) < r.side,
        r.side + 8 <= grown_side(r.side) <= r.side + 125,
{
    let near = closest(hot_box(r.sand, r.side), r.side);
    crate::bounds::lemma_hot_box(r.sand, r.side);
    if near > 1 {
        lemma_stays_off(r.sand, r.side);
        assert(r.side >= 5);
    } else if grown_side(r.side) <= MAX_SIDE {
        lemma_regrown_off(r.sand, r.side);
        lemma_regrown_total(r.sand, r.side);
        lemma_regrown_cells(r.sand, r.sand, r.side);
        lemma_regrown_cells(r.count, r.sand, r.side);
        crate::recentre::lemma_shift_for(r.sand, r.side);
    }
}

/// The buffers and counters of a run between two sweeps.
pub struct Engine {
    /// The grid as the next sweep reads it.
    pub read_array: Vec<u32>,
    /// The grid as the next sweep writes it.
    pub write_array: Vec<u32>,
    /// Number of times each cell has toppled.
    pub counting_array: Vec<u32>,
    /// Side of the grid.
    pub side_length: usize,
    /// Sweeps until the next look at the bounds.
    pub next_check: usize,
    /// Sweeps so far.
    pub total_iterations: usize,
    /// Topplings so far.
    pub total_redistributions: i64,
}

/// What a sweep made of a run.
pub enum Progress {
    /// Cells toppled: the run goes on.
    Running,
    /// Nothing toppled: the grid is final.
    Settled,
    /// The run was given up.
    Failed(ComputeError),
}

impl Engine {
    /// The run as the model sees it.
    pub open spec fn run(&self) -> Run {
        Run {
            side: self.side_length as int,
            sand: self.read_array@,
            count: self.counting_array@,
            next_check: self.next_check as int,
            iterations: self.total_iterations as int,
            redistributions: self.total_redistributions as int,
        }
    }

    /// Both grids are equal and the run is in order.
    pub open spec fn wf(&self) -> bool {
        self.write_array@ == self.read_array@ && run_ok(self.run())
    }

    /// Sets the cells on the smallest grid that holds them and sizes the
    /// grid by a first look at the bounds.
    #[verifier::rlimit(50)]
    pub fn start(initial_configuration: &[InitialCell]) -> (res: Result<Engine, ComputeError>)
        requires
            initial_configuration@.len() > 0,
            grains(initial_configuration@) <= u32::MAX,
        ensures
            match res {
                Ok(e) => e.wf() && settle(e.run()) == outcome(initial_configuration@) && total(
                    e.read_array@,
                ) <= grains(initial_configuration@) && e.total_iterations == 0,
                Err(err) => outcome(initial_configuration@) == Outcome::Failed(err),
            },
    {
        let ghost cells = initial_configuration@;
        let largest = largest_coordinate(initial_configuration);
        if largest >= MAX_SIDE {
            return Err(ComputeError::GridTooLarge);
        }
        let mut side_length = largest + 1;
        let mut write_array = seed(initial_configuration, side_length);
        assert(side_length * side_length <= 32766 * 32766) by (nonlinear_arith)
            requires
                0 <= side_length <= 32766,
        ;
        let mut counting_array = vec![0u32; side_length * side_length];
        let mut read_array = write_array.clone();
        let ghost first = Run {
            side: side_length as int,
            sand: write_array@,
            count: counting_array@,
            next_check: 0,
            iterations: 0,
            redistributions: 0,
        };
        proof {
            assert(counting_array@ =~= blank(side_length as int));
            assert(read_array@ =~= write_array@);
            lemma_seeded_total(cells, side_length as int);
            lemma_checked_ok(first);
            if closest(hot_box(first.sand, first.side), first.side) <= 1 && grown_side(first.side)
                <= MAX_SIDE {
                lemma_regrown_total(first.sand, first.side);
            }
        }
        match maybe_reallocate(
            &mut write_array,
            &mut read_array,
            &mut counting_array,
            &mut side_length,
        ) {
            Some(next_check) => Ok(
                Engine {
                    read_array,
                    write_array,
                    counting_array,
                    side_length,
                    next_check,
                    total_iterations: 0,
                    total_redistributions: 0,
                },
            ),
            None => Err(ComputeError::GridTooLarge),
        }
    }

    /// One iteration: a sweep, and after it a look at the bounds if the
    /// countdown has run out, or else a copy of the grid written to the
    /// grid read.
    #[verifier::rlimit(50)]
    pub fn advance(self) -> (res: (Engine, Progress))
        requires
            self.wf(),
            self.total_iterations < MAX_ITERATIONS,
        ensures
            res.0.total_iterations == self.total_iterations + 1,
            res.1 is Settled <==> hot_cells(self.read_array@, self.side_length as int) == 0,
            res.1 is Failed <==> hot_cells(self.read_array@, self.side_length as int) != 0
                && next_run(self.run()) is None,
            match res.1 {
                Progress::Running => {
                    &&& res.0.wf()
                    &&& Some(res.0.run()) == next_run(self.run())
                    &&& settle(res.0.run()) == settle(self.run())
                    &&& total(res.0.read_array@) <= total(self.read_array@)
                },
                Progress::Settled => {
                    &&& settle(self.run()) == (Outcome::Settled {
                        side: res.0.side_length as int,
                        sand: res.0.write_array@,
                        count: res.0.counting_array@,
                        iterations: res.0.total_iterations as int,
                        redistributions: res.0.total_redistributions as int,
                    })
                    &&& res.0.write_array@ == self.read_array@
                    &&& res.0.write_array@.len() == res.0.side_length * res.0.side_length
                    &&& res.0.counting_array@.len() == res.0.side_length * res.0.side_length
                    &&& stable(res.0.write_array@)
                },
                Progress::Failed(err) => settle(self.run()) == Outcome::Failed(err),
            },
    {
        let ghost before = self.run();
        let Engine {
            mut read_array,
            mut write_array,
            mut counting_array,
            mut side_length,
            mut next_check,
            mut total_iterations,
            mut total_redistributions,
        } = self;
        total_iterations = total_iterations + 1;
        let current_redist = sweep(&read_array, &mut write_array, &mut counting_array, side_length);
        let ghost after = swept_run(before);
        proof {
            lemma_after_sweep(before, write_array@, counting_array@);
            lemma_settle_step(before);
        }
        let mut progress = Progress::Running;
        if current_redist > 0 {
            total_redistributions = total_redistributions + current_redist as i64;
            next_check = next_check - 1;
            if next_check == 0 {
                proof {
                    lemma_checked_ok(after);
                    if closest(hot_box(after.sand, after.side), after.side) <= 1 && grown_side(
                        after.side,
                    ) <= MAX_SIDE {
                        lemma_regrown_total(after.sand, after.side);
                    }
                }
                match maybe_reallocate(
                    &mut write_array,
                    &mut read_array,
                    &mut counting_array,
                    &mut side_length,
                ) {
                    Some(n) => {
                        next_check = n;
                    },
                    None => {
                        progress = Progress::Failed(ComputeError::GridTooLarge);
                    },
                }
            } else {
                proof {
                    assert(before.side * before.side >= 25) by (nonlinear_arith)
                        requires
                            before.side >= 5,
                    ;
                }
                copy_data(write_array.as_slice(), read_array.as_mut_slice());
            }
        } else {
            progress = Progress::Settled;
        }
        (
            Engine {
                read_array,
                write_array,
                counting_array,
                side_length,
                next_check,
                total_iterations,
                total_redistributions,
            },
            progress,
        )
    }
}

/// What a sweep leaves of a run that was in order.
#[verifier::rlimit(50)]
pub proof fn lemma_after_sweep(before: Run, written: Seq<u32>, counts: Seq<u32>)
    requires
        run_ok(before),
        before.iterations < MAX_ITERATIONS,
        written.len() == before.sand.len(),
        counts.len() == before.sand.len(),
        ints(written) == swept(before.sand, before.side),
        total(written) == total(before.sand),
        forall|i: int|
            0 <= i < counts.len() ==> (#[trigger] counts[i]) == before.count[i] + if sheds(
                before.sand,
                before.side,
                i,
            ) > 0 {
                1int
            } else {
                0int
            },
    ensures
        ({
            let hits = hot_cells(before.sand, before.side);
            let after = swept_run(before);
            &&& written == after.sand
            &&& counts == after.count
            &&& 0 <= hits <= 0x4000_0000
            &&& total(after.sand) == total(before.sand)
            &&& keeps_off(after.sand, after.side, before.next_check)
            &&& forall|i: int| 0 <= i < after.count.len() ==> #[trigger] after.count[i] <= after.iterations
            &&& 0 <= after.redistributions <= after.iterations * 0x4000_0000
            &&& after.redistributions <= i64::MAX
            &&& hits == 0 ==> stable(written) && written == before.sand
        }),
{
    let hits = hot_cells(before.sand, before.side);
    let sand = swept_grid(before.sand, before.side);
    lemma_sweep_zero(before.sand, before.side);
    lemma_swept_total(before.sand, before.side);
    assert(written =~= sand) by {
        assert forall|i: int| 0 <= i < written.len() implies written[i] == sand[i] by {
            assert(ints(written)[i] == written[i] as int);
            assert(ints(written)[i] == swept(before.sand, before.side)[i]);
            assert(0 <= swept(before.sand, before.side)[i] <= total(before.sand));
            assert(swept(before.sand, before.side)[i] == before.sand[i] + flow(
                before.sand,
                before.side,
                i,
            ));
        }
    }
    assert(counts =~= counted(before.count, before.sand, before.side));
    lemma_swept_off(before.sand, before.side, before.next_check + 1);
    assert(before.sand.len() <= 0x4000_0000) by (nonlinear_arith)
        requires
            before.sand.len() == before.side * before.side,
            0 <= before.side <= 32766,
    ;
    assert((before.iterations + 1) * 0x4000_0000 == before.iterations * 0x4000_0000 + 0x4000_0000)
        by (nonlinear_arith);
    assert((before.iterations + 1) * 0x4000_0000 <= 0xffff_ffff * 0x4000_0000) by (nonlinear_arith)
        requires
            before.iterations + 1 <= 0xffff_ffff,
    ;
    if hits == 0 {
        assert(written =~= before.sand) by {
            assert forall|i: int| 0 <= i < written.len() implies written[i] == before.sand[i] by {
                assert(ints(written)[i] == swept(before.sand, before.side)[i]);
                lemma_phase_in(before.sand, before.side, i);
            }
        }
        assert forall|i: int| 0 <= i < written.len() implies #[trigger] written[i] <= 3 by {
            if written[i] >= 4 {
                assert(before.sand[i] >= 4);
                lemma_off_inner(before.sand, before.side, i);
            }
        }
    }
}

/// Runs the sandpile on the given cells to its fixed point.
///
/// The cells are set on the smallest grid that holds them, the grid is
/// sized by a first look at the bounds, and sweeps follow until one topples
/// nothing. After each sweep that toppled a cell the countdown to the next
/// look at the bounds goes down by one. The result is that of [`outcome`]:
/// the final grid, in which no cell holds more than three grains, the
/// counters, the side and the totals; or the reason why the run was given
/// up.
pub fn compute_fractal_data(initial_configuration: &[InitialCell]) -> (res: Result<
    FractalResult,
    ComputeError,
>)
    requires
        initial_configuration@.len() > 0,
        grains(initial_configuration@) <= u32::MAX,
    ensures
        match res {
            Ok(r) => {
                &&& outcome(initial_configuration@) == (Outcome::Settled {
                    side: r.side_length as int,
                    sand: widened(r.sand_data@),
                    count: r.count_data@,
                    iterations: r.total_iterations as int,
                    redistributions: r.total_redistributions as int,
                })
                &&& r.initial_configuration@ == initial_configuration@
                &&& r.sand_data@.len() == r.side_length * r.side_length
                &&& r.count_data@.len() == r.side_length * r.side_length
                &&& forall|i: int| 0 <= i < r.sand_data@.len() ==> #[trigger] r.sand_data@[i] <= 3
                &&& total(widened(r.sand_data@)) <= grains(initial_configuration@)
            },
            Err(e) => outcome(initial_configuration@) == Outcome::Failed(e),
        },
{
    let ghost cells = initial_configuration@;
    let mut engine = match Engine::start(initial_configuration) {
        Ok(e) => e,
        Err(err) => {
            return Err(err);
        },
    };
    while engine.total_iterations < MAX_ITERATIONS
        invariant
            cells == initial_configuration@,
            engine.wf(),
            total(engine.read_array@) <= grains(cells),
            settle(engine.run()) == outcome(cells),
        decreases MAX_ITERATIONS - engine.total_iterations,
    {
        let (next, progress) = engine.advance();
        engine = next;
        match progress {
            Progress::Running => {},
            Progress::Settled => {
                let sand_data = narrow(&engine.write_array);
                proof {
                    assert(widened(sand_data@) =~= engine.write_array@);
                }
                return Ok(
                    FractalResult {
                        initial_configuration: vstd::slice::slice_to_vec(initial_configuration),
                        sand_data,
                        count_data: engine.counting_array,
                        side_length: engine.side_length,
                        total_redistributions: engine.total_redistributions,
                        total_iterations: engine.total_iterations,
                    },
                );
            },
            Progress::Failed(err) => {
                return Err(err);
            },
        }
    }
    proof {
        lemma_settle_spent(engine.run());
    }
    Err(ComputeError::TooManyIterations)
}

} // verus!
