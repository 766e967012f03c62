//! The mathematics of one sweep: which cells topple, what each cell gains
//! and loses, and how many grains a grid holds.

use vstd::prelude::*;

verus! {

/// Cell `i` of a grid of `len` cells in rows of `w` lies off the outermost
/// rows and columns.
pub open spec fn inner(len: int, w: int, i: int) -> bool {
    w <= i < len - w && 1 <= i % w <= w - 2
}

/// Grains that cell `i` hands to each of its four neighbours in one sweep:
/// a quarter of its load, rounded down, if it is an inner cell holding four
/// or more, and nothing otherwise.
pub open spec fn sheds(g: Seq<u32>, w: int, i: int) -> int {
    if 0 <= i < g.len() && inner(g.len() as int, w, i) && g[i] >= 4 {
        g[i] as int / 4
    } else {
        0
    }
}

/// Grains that cell `i` receives from its four neighbours in one sweep.
pub open spec fn inflow(g: Seq<u32>, w: int, i: int) -> int {
    sheds(g, w, i - 1) + sheds(g, w, i + 1) + sheds(g, w, i - w) + sheds(g, w, i + w)
}

/// Net change of cell `i` over one sweep.
pub open spec fn flow(g: Seq<u32>, w: int, i: int) -> int {
    inflow(g, w, i) - 4 * sheds(g, w, i)
}

/// What cell `k` sheds, counted only once the walk over the cells has passed it.
pub open spec fn part(g: Seq<u32>, w: int, k: int, c: int) -> int {
    if k < c {
        sheds(g, w, k)
    } else {
        0
    }
}

/// Net change of cell `i` from the topplings of the cells before `c`.
pub open spec fn flow_upto(g: Seq<u32>, w: int, i: int, c: int) -> int {
    part(g, w, i - 1, c) + part(g, w, i + 1, c) + part(g, w, i - w, c) + part(g, w, i + w, c) - 4
        * part(g, w, i, c)
}

/// Number of toppling cells among the first `n`.
pub open spec fn hot_upto(g: Seq<u32>, w: int, n: int) -> int
    decreases n,
{
    if n <= 0 {
        0
    } else {
        hot_upto(g, w, n - 1) + if sheds(g, w, n - 1) > 0 {
            1int
        } else {
            0int
        }
    }
}

/// Number of cells that topple in one sweep of the grid.
pub open spec fn hot_cells(g: Seq<u32>, w: int) -> int {
    hot_upto(g, w, g.len() as int)
}

pub proof fn lemma_hot_bounds(g: Seq<u32>, w: int, n: int)
    requires
        0 <= n,
    ensures
        0 <= hot_upto(g, w, n) <= n,
    decreases n,
{
    if n > 0 {
        lemma_hot_bounds(g, w, n - 1);
    }
}

/// Cells that shed nothing add nothing to the count.
pub proof fn lemma_hot_skip(g: Seq<u32>, w: int, a: int, b: int)
    requires
        0 <= a <= b,
        forall|i: int| a <= i < b ==> sheds(g, w, i) == 0,
    ensures
        hot_upto(g, w, b) == hot_upto(g, w, a),
    decreases b - a,
{
    if a < b {
        lemma_hot_skip(g, w, a, b - 1);
    }
}

/// The count is zero exactly when no cell sheds.
pub proof fn lemma_hot_zero(g: Seq<u32>, w: int, n: int)
    requires
        0 <= n,
    ensures
        hot_upto(g, w, n) == 0 <==> (forall|i: int| 0 <= i < n ==> sheds(g, w, i) == 0),
    decreases n,
{
    if n > 0 {
        lemma_hot_zero(g, w, n - 1);
        lemma_hot_bounds(g, w, n - 1);
        if hot_upto(g, w, n) == 0 {
            assert forall|i: int| 0 <= i < n implies sheds(g, w, i) == 0 by {
                if i < n - 1 {
                }
            }
        }
    }
}

/// Position, row and column of the cell in column `x` of row `y`.
pub proof fn lemma_cell(w: int, rows: int, x: int, y: int)
    requires
        0 <= x < w,
        0 <= y < rows,
    ensures
        0 <= y * w + x < rows * w,
        (y * w + x) % w == x,
        (y * w + x) / w == y,
        (y + 1) * w == y * w + w,
        y * w <= (rows - 1) * w,
        (rows - 1) * w == rows * w - w,
        0 <= y * w,
{
    assert((y + 1) * w == y * w + w) by (nonlinear_arith);
    assert((rows - 1) * w == rows * w - w) by (nonlinear_arith);
    assert(y * w <= (rows - 1) * w) by (nonlinear_arith)
        requires
            0 <= y <= rows - 1,
            0 < w,
    ;
    assert(0 <= y * w) by (nonlinear_arith)
        requires
            0 <= y,
            0 < w,
    ;
    vstd::arithmetic::div_mod::lemma_fundamental_div_mod_converse(y * w + x, w, y, x);
}

/// Where the neighbours of the cell in column `x` of row `y` can topple.
#[verifier::rlimit(50)]
pub proof fn lemma_neighbours(g: Seq<u32>, side: int, x: int, y: int)
    requires
        g.len() == side * side,
        0 <= x < side,
        0 <= y < side,
    ensures
        (y * side + x) / side == y,
        (y * side + x) % side == x,
        0 <= y * side + x < g.len(),
        sheds(g, side, y * side + x) != 0 ==> 1 <= y <= side - 2 && 1 <= x <= side - 2,
        sheds(g, side, y * side + x - 1) != 0 ==> 1 <= y <= side - 2 && 2 <= x,
        sheds(g, side, y * side + x + 1) != 0 ==> 1 <= y <= side - 2 && x <= side - 3,
        sheds(g, side, y * side + x - side) != 0 ==> 2 <= y,
        sheds(g, side, y * side + x + side) != 0 ==> y <= side - 3,
{
    let i = y * side + x;
    lemma_cell(side, side, x, y);
    if y >= 1 {
        lemma_cell(side, side, x, y - 1);
        lemma_cell(side, side, 0, y - 1);
        lemma_cell(side, side, side - 1, y - 1);
    }
    if y + 1 < side {
        lemma_cell(side, side, x, y + 1);
        lemma_cell(side, side, 0, y + 1);
    }
    if x >= 1 {
        lemma_cell(side, side, x - 1, y);
    }
    if x + 1 < side {
        lemma_cell(side, side, x + 1, y);
    }
    lemma_cell(side, side, 0, y);
    lemma_cell(side, side, side - 1, y);
}

/// The three rows of the grid that begin at row `top`.
pub open spec fn band(g: Seq<u32>, side: int, top: int) -> Seq<u32> {
    g.subrange(top * side, top * side + 3 * side)
}

/// Within a band only the middle row topples, and it sheds what the same
/// cells shed in the whole grid.
pub proof fn lemma_band_sheds(g: Seq<u32>, side: int, top: int, j: int)
    requires
        g.len() == side * side,
        3 <= side,
        0 <= top,
        top + 3 <= side,
    ensures
        0 <= top * side,
        top * side + 3 * side <= g.len(),
        band(g, side, top).len() == 3 * side,
        sheds(band(g, side, top), side, j) == if side <= j < 2 * side {
            sheds(g, side, top * side + j)
        } else {
            0
        },
{
    lemma_cell(side, side, 0, top);
    lemma_cell(side, side, 0, top + 2);
    lemma_cell(side, side, 0, top + 1);
    assert(top * side + 3 * side <= side * side);
    if side <= j < 2 * side {
        lemma_cell(side, side, j - side, top + 1);
        lemma_cell(side, 3, j - side, 1);
        assert(1 * side == side);
        assert(band(g, side, top)[j] == g[top * side + j]);
    }
}

/// Position of cell `j` of the `k`-th chunk of `size` cells after `start`.
pub open spec fn slot(start: int, size: int, k: int, j: int) -> int {
    start + k * size + j
}

/// The `k`-th chunk of `size` cells after `start`.
pub open spec fn chunk_of(g: Seq<u32>, start: int, size: int, k: int) -> Seq<u32> {
    g.subrange(start + k * size, start + k * size + size)
}

/// Number of cells that topple in the first `k` chunks, each taken as a
/// band of its own.
pub open spec fn chunk_hits(g: Seq<u32>, w: int, start: int, size: int, k: int) -> int
    decreases k,
{
    if k <= 0 {
        0
    } else {
        chunk_hits(g, w, start, size, k - 1) + hot_cells(chunk_of(g, start, size, k - 1), w)
    }
}

pub proof fn lemma_chunk_hits_bounds(g: Seq<u32>, w: int, start: int, size: int, k: int)
    requires
        0 <= k,
        0 <= size,
        0 <= start,
        start + k * size <= g.len(),
    ensures
        0 <= chunk_hits(g, w, start, size, k) <= k * size,
    decreases k,
{
    if k > 0 {
        assert((k - 1) * size + size == k * size) by (nonlinear_arith);
        assert(0 <= (k - 1) * size) by (nonlinear_arith)
            requires
                k >= 1,
                size >= 0,
        ;
        lemma_chunk_hits_bounds(g, w, start, size, k - 1);
        lemma_hot_bounds(chunk_of(g, start, size, k - 1), w, size);
    } else {
        assert(k * size == 0) by (nonlinear_arith)
            requires
                k == 0,
        ;
    }
}

/// Row of a band, counted from its top, in which row `y` lies during the
/// given phase.
pub open spec fn band_row(phase: int, y: int) -> int {
    (y - phase) % 3
}

/// Net change of cell `i` in one phase of a sweep: the bands of the phase
/// begin at rows `phase`, `phase + 3`, ... and each topples its middle row.
pub open spec fn phase_gain(g: Seq<u32>, side: int, phase: int, i: int) -> int {
    let y = i / side;
    let m = band_row(phase, y);
    if y - m >= 0 && y - m + 3 <= side {
        if m == 0 {
            sheds(g, side, i + side)
        } else if m == 1 {
            sheds(g, side, i - 1) + sheds(g, side, i + 1) - 4 * sheds(g, side, i)
        } else {
            sheds(g, side, i - side)
        }
    } else {
        0
    }
}

/// The three phases of a sweep add up to one toppling of every inner cell.
#[verifier::rlimit(50)]
pub proof fn lemma_phases(g: Seq<u32>, side: int, i: int)
    requires
        g.len() == side * side,
        3 <= side,
        0 <= i < g.len(),
    ensures
        phase_gain(g, side, 0, i) + phase_gain(g, side, 1, i) + phase_gain(g, side, 2, i) == flow(
            g,
            side,
            i,
        ),
        0 <= phase_gain(g, side, 0, i) + 4 * sheds(g, side, i),
        0 <= phase_gain(g, side, 1, i) + 4 * sheds(g, side, i),
        0 <= phase_gain(g, side, 2, i) + 4 * sheds(g, side, i),
        band_row(0, i / side) != 1 ==> 0 <= phase_gain(g, side, 0, i),
        band_row(1, i / side) != 1 ==> 0 <= phase_gain(g, side, 1, i),
        band_row(2, i / side) != 1 ==> 0 <= phase_gain(g, side, 2, i),
{
    let y = i / side;
    let x = i % side;
    lemma_row_col(side, i);
    lemma_neighbours(g, side, x, y);
}

/// Every cell of a square grid has a row and a column.
pub proof fn lemma_row_col(side: int, i: int)
    requires
        0 < side,
        0 <= i < side * side,
    ensures
        i == (i / side) * side + i % side,
        0 <= i / side < side,
        0 <= i % side < side,
{
    vstd::arithmetic::div_mod::lemma_fundamental_div_mod(i, side);
    vstd::arithmetic::div_mod::lemma_mod_bound(i, side);
    let y = i / side;
    let x = i % side;
    assert(side * y == y * side) by (nonlinear_arith);
    assert(0 <= y < side) by (nonlinear_arith)
        requires
            0 <= i < side * side,
            i == y * side + x,
            0 <= x < side,
    ;
}

/// What the kernel needs of a band before it topples it: three rows or more
/// of equal length in all three buffers, no cell that would go below zero or
/// above the 32-bit range, and no counter at its ceiling.
pub open spec fn ready(input: Seq<u32>, output: Seq<u32>, counting: Seq<u32>, w: int) -> bool {
    &&& w >= 1
    &&& input.len() == output.len()
    &&& input.len() == counting.len()
    &&& input.len() as int % w == 0
    &&& input.len() as int / w >= 3
    &&& forall|i: int|
        0 <= i < input.len() ==> 4 * sheds(input, w, i) <= (#[trigger] output[i]) && output[i]
            + inflow(input, w, i) <= u32::MAX
    &&& forall|i: int|
        0 <= i < input.len() && sheds(input, w, i) > 0 ==> (#[trigger] counting[i]) < u32::MAX
}

/// Row `y` is the middle row of a band of the given phase that fits the grid.
pub open spec fn topples_in(side: int, phase: int, y: int) -> bool {
    band_row(phase, y) == 1 && 1 <= y && y + 2 <= side
}

/// Grains that cell `i` receives in one phase of a sweep.
pub open spec fn phase_in(g: Seq<u32>, side: int, phase: int, i: int) -> int {
    phase_gain(g, side, phase, i) + if topples_in(side, phase, i / side) {
        4 * sheds(g, side, i)
    } else {
        0
    }
}

/// Net change of cell `i` over the phases before `phase`.
pub open spec fn gain_upto(g: Seq<u32>, side: int, phase: int, i: int) -> int {
    (if phase > 0 {
        phase_gain(g, side, 0, i)
    } else {
        0
    }) + (if phase > 1 {
        phase_gain(g, side, 1, i)
    } else {
        0
    }) + (if phase > 2 {
        phase_gain(g, side, 2, i)
    } else {
        0
    })
}

/// Whether cell `i` has toppled in a phase before `phase`.
pub open spec fn toppled_upto(g: Seq<u32>, side: int, phase: int, i: int) -> bool {
    sheds(g, side, i) > 0 && band_row(1, i / side) < phase
}

/// What the cells receive phase by phase adds up to what they receive in the
/// sweep, and no phase takes from a cell that another phase topples.
#[verifier::rlimit(50)]
pub proof fn lemma_phase_in(g: Seq<u32>, side: int, i: int)
    requires
        g.len() == side * side,
        3 <= side,
        0 <= i < g.len(),
    ensures
        phase_in(g, side, 0, i) + phase_in(g, side, 1, i) + phase_in(g, side, 2, i) == inflow(
            g,
            side,
            i,
        ),
        0 <= phase_in(g, side, 0, i),
        0 <= phase_in(g, side, 1, i),
        0 <= phase_in(g, side, 2, i),
        sheds(g, side, i) > 0 ==> 1 <= i / side && i / side + 2 <= side,
        4 * sheds(g, side, i) <= g[i],
{
    let y = i / side;
    let x = i % side;
    lemma_row_col(side, i);
    lemma_neighbours(g, side, x, y);
}

/// A band of a phase, seen from the whole grid: its cells, what they shed and
/// what they gain.
#[verifier::rlimit(50)]
pub proof fn lemma_band_cell(g: Seq<u32>, side: int, phase: int, k: int, j: int)
    requires
        g.len() == side * side,
        3 <= side,
        0 <= phase < 3,
        0 <= k,
        phase + 3 * k + 3 <= side,
        0 <= j < 3 * side,
    ensures
        slot(phase * side, 3 * side, k, j) == (phase + 3 * k) * side + j,
        0 <= slot(phase * side, 3 * side, k, j) < g.len(),
        slot(phase * side, 3 * side, k, j) / side - band_row(
            phase,
            slot(phase * side, 3 * side, k, j) / side,
        ) == phase + 3 * k,
        chunk_of(g, phase * side, 3 * side, k) == band(g, side, phase + 3 * k),
        0 <= phase * side + k * (3 * side),
        phase * side + k * (3 * side) + 3 * side <= g.len(),
        sheds(chunk_of(g, phase * side, 3 * side, k), side, j) == if topples_in(
            side,
            phase,
            slot(phase * side, 3 * side, k, j) / side,
        ) {
            sheds(g, side, slot(phase * side, 3 * side, k, j))
        } else {
            0
        },
        inflow(chunk_of(g, phase * side, 3 * side, k), side, j) == phase_in(
            g,
            side,
            phase,
            slot(phase * side, 3 * side, k, j),
        ),
        flow(chunk_of(g, phase * side, 3 * side, k), side, j) == phase_gain(
            g,
            side,
            phase,
            slot(phase * side, 3 * side, k, j),
        ),
{
    let top = phase + 3 * k;
    let i = top * side + j;
    assert((phase + 3 * k) * side == phase * side + k * (3 * side)) by (nonlinear_arith);
    lemma_band_sheds(g, side, top, j);
    lemma_band_sheds(g, side, top, j - 1);
    lemma_band_sheds(g, side, top, j + 1);
    lemma_band_sheds(g, side, top, j - side);
    lemma_band_sheds(g, side, top, j + side);
    let m = if j < side {
        0int
    } else if j < 2 * side {
        1int
    } else {
        2int
    };
    let x = j - m * side;
    assert(m * side == if m == 0 {
        0
    } else if m == 1 {
        side
    } else {
        2 * side
    }) by (nonlinear_arith)
        requires
            0 <= m <= 2,
    ;
    assert((top + m) * side == top * side + m * side) by (nonlinear_arith);
    lemma_neighbours(g, side, x, top + m);
    assert(i == (top + m) * side + x);
    assert(i / side == top + m);
}

/// Number of cells that topple in one sweep, added up band by band and phase
/// by phase.
pub open spec fn sweep_hits(g: Seq<u32>, side: int, phase: int) -> int
    decreases phase,
{
    if phase <= 0 {
        0
    } else {
        sweep_hits(g, side, phase - 1) + chunk_hits(
            g,
            side,
            (phase - 1) * side,
            3 * side,
            (side - (phase - 1)) / 3,
        )
    }
}

/// Along its middle row a band counts the toppling cells that the grid
/// counts along the same row.
pub proof fn lemma_band_row(g: Seq<u32>, side: int, top: int, x: int)
    requires
        g.len() == side * side,
        3 <= side,
        0 <= top,
        top + 3 <= side,
        0 <= x <= side,
    ensures
        hot_upto(band(g, side, top), side, side + x) - hot_upto(band(g, side, top), side, side)
            == hot_upto(g, side, top * side + side + x) - hot_upto(g, side, top * side + side),
    decreases x,
{
    lemma_band_sheds(g, side, top, side + x - 1);
    if x > 0 {
        lemma_band_row(g, side, top, x - 1);
    }
}

/// A band topples as many cells as the grid holds toppling cells in the
/// band's middle row.
#[verifier::rlimit(50)]
pub proof fn lemma_band_count(g: Seq<u32>, side: int, top: int)
    requires
        g.len() == side * side,
        3 <= side,
        0 <= top,
        top + 3 <= side,
    ensures
        0 <= top * side,
        hot_cells(band(g, side, top), side) == hot_upto(g, side, top * side + 2 * side) - hot_upto(
            g,
            side,
            top * side + side,
        ),
{
    let c = band(g, side, top);
    lemma_band_sheds(g, side, top, 0);
    assert forall|j: int| 0 <= j < side implies sheds(c, side, j) == 0 by {
        lemma_band_sheds(g, side, top, j);
    }
    assert forall|j: int| 2 * side <= j < 3 * side implies sheds(c, side, j) == 0 by {
        lemma_band_sheds(g, side, top, j);
    }
    lemma_hot_skip(c, side, 0, side);
    lemma_hot_skip(c, side, 2 * side, 3 * side);
    lemma_band_row(g, side, top, side);
}

/// Number of bands of a phase whose middle row lies above row `n`.
pub open spec fn bands_above(phase: int, n: int) -> int {
    (n - phase + 1) / 3
}

/// The bands whose middle rows lie above row `n` topple, phase by phase,
/// the cells that topple in the rows above row `n`.
#[verifier::rlimit(50)]
pub proof fn lemma_rows(g: Seq<u32>, side: int, n: int)
    requires
        g.len() == side * side,
        3 <= side,
        1 <= n <= side - 1,
    ensures
        chunk_hits(g, side, 0 * side, 3 * side, bands_above(0, n)) + chunk_hits(
            g,
            side,
            1 * side,
            3 * side,
            bands_above(1, n),
        ) + chunk_hits(g, side, 2 * side, 3 * side, bands_above(2, n)) == hot_upto(
            g,
            side,
            n * side,
        ),
    decreases n,
{
    if n == 1 {
        assert(1 * side == side) by (nonlinear_arith);
        assert forall|i: int| 0 <= i < side implies sheds(g, side, i) == 0 by {}
        lemma_hot_skip(g, side, 0, side);
    } else {
        let row = n - 1;
        lemma_rows(g, side, row);
        let p = (row - 1) % 3;
        let k = bands_above(p, row);
        assert(p + 3 * k == row - 1);
        lemma_band_cell(g, side, p, k, 0);
        lemma_band_count(g, side, row - 1);
        assert((row - 1) * side + side == row * side) by (nonlinear_arith);
        assert((row - 1) * side + 2 * side == n * side) by (nonlinear_arith)
            requires
                row == n - 1,
        ;
        assert(chunk_hits(g, side, p * side, 3 * side, k + 1) == chunk_hits(
            g,
            side,
            p * side,
            3 * side,
            k,
        ) + hot_cells(chunk_of(g, p * side, 3 * side, k), side));
    }
}

/// The bands of a sweep topple, between them, every cell of the grid that
/// topples, once.
pub proof fn lemma_sweep_hits(g: Seq<u32>, side: int)
    requires
        g.len() == side * side,
        0 <= side,
    ensures
        sweep_hits(g, side, 3) == hot_cells(g, side),
{
    assert(sweep_hits(g, side, 0) == 0);
    assert(sweep_hits(g, side, 1) == chunk_hits(g, side, 0 * side, 3 * side, (side - 0) / 3));
    assert(sweep_hits(g, side, 2) == sweep_hits(g, side, 1) + chunk_hits(
        g,
        side,
        1 * side,
        3 * side,
        (side - 1) / 3,
    ));
    assert(sweep_hits(g, side, 3) == sweep_hits(g, side, 2) + chunk_hits(
        g,
        side,
        2 * side,
        3 * side,
        (side - 2) / 3,
    ));
    if side >= 3 {
        lemma_rows(g, side, side - 1);
        lemma_cell(side, side, 0, side - 1);
        assert forall|i: int| (side - 1) * side <= i < side * side implies sheds(g, side, i)
            == 0 by {}
        lemma_hot_skip(g, side, (side - 1) * side, side * side);
    } else {
        assert forall|i: int| 0 <= i < side * side implies sheds(g, side, i) == 0 by {}
        assert(side * side >= 0) by (nonlinear_arith);
        lemma_hot_skip(g, side, 0, side * side);
    }
}

} // verus!
