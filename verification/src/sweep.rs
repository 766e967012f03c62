//! The stencil kernel and the band scheduler: one sweep over the grid, three
//! rows to the band, the bands of one phase side by side.

use vstd::prelude::*;
use crate::engine::lemma_sweep_zero;
use crate::limits::{BAND_H, MARGIN, MAX_SIDE, TOPPLE_AMOUNT};
use crate::mass::{ints, lemma_reach, lemma_swept_total, swept, total};
use crate::model::{
    band_row, chunk_hits, chunk_of, flow, flow_upto, gain_upto, hot_cells, hot_upto, inflow, inner,
    lemma_band_cell, lemma_cell, lemma_chunk_hits_bounds, lemma_hot_skip, lemma_phase_in,
    lemma_phases, lemma_row_col, lemma_sweep_hits, phase_gain, ready, sheds, slot, sweep_hits,
    toppled_upto,
};
use rayon::iter::{IndexedParallelIterator, ParallelIterator};
use rayon::slice::{ParallelSlice, ParallelSliceMut};

verus! {

/// Before cell `c` topples, it holds what it is about to give away, and its
/// neighbours have room for what they are about to receive.
#[verifier::rlimit(50)]
pub proof fn lemma_topple_room(g: Seq<u32>, w: int, out0: Seq<u32>, cur: Seq<u32>, c: int)
    requires
        out0.len() == g.len(),
        forall|i: int|
            0 <= i < g.len() ==> 4 * sheds(g, w, i) <= (#[trigger] out0[i]) && out0[i] + inflow(
                g,
                w,
                i,
            ) <= u32::MAX,
        cur.len() == g.len(),
        0 <= c < g.len(),
        sheds(g, w, c) > 0,
        forall|i: int| 0 <= i < g.len() ==> (#[trigger] cur[i]) == out0[i] + flow_upto(g, w, i, c),
    ensures
        3 <= w,
        w <= c < g.len() - w,
        sheds(g, w, c) == g[c] / 4,
        4 * sheds(g, w, c) <= cur[c],
        cur[c - w] + sheds(g, w, c) <= u32::MAX,
        cur[c - 1] + sheds(g, w, c) <= u32::MAX,
        cur[c + 1] + sheds(g, w, c) <= u32::MAX,
        cur[c + w] + sheds(g, w, c) <= u32::MAX,
{
    assert(cur[c] == out0[c] + flow_upto(g, w, c, c));
    assert(cur[c - w] == out0[c - w] + flow_upto(g, w, c - w, c));
    assert(cur[c - 1] == out0[c - 1] + flow_upto(g, w, c - 1, c));
    assert(cur[c + 1] == out0[c + 1] + flow_upto(g, w, c + 1, c));
    assert(cur[c + w] == out0[c + w] + flow_upto(g, w, c + w, c));
}

/// Once the walk has passed cell `c`, every cell holds what it held plus its
/// net gain from the cells up to and including `c`.
#[verifier::rlimit(50)]
pub proof fn lemma_topple_done(
    g: Seq<u32>,
    w: int,
    out0: Seq<u32>,
    before: Seq<u32>,
    after: Seq<u32>,
    c: int,
)
    requires
        before.len() == g.len(),
        after.len() == g.len(),
        0 <= c < g.len(),
        forall|i: int|
            0 <= i < g.len() ==> (#[trigger] before[i]) == out0[i] + flow_upto(g, w, i, c),
        sheds(g, w, c) == 0 ==> after == before,
        sheds(g, w, c) > 0 ==> {
            &&& 3 <= w <= c < g.len() - w
            &&& after[c - w] == before[c - w] + sheds(g, w, c)
            &&& after[c - 1] == before[c - 1] + sheds(g, w, c)
            &&& after[c] == before[c] - 4 * sheds(g, w, c)
            &&& after[c + 1] == before[c + 1] + sheds(g, w, c)
            &&& after[c + w] == before[c + w] + sheds(g, w, c)
            &&& forall|i: int|
                0 <= i < g.len() && i != c - w && i != c - 1 && i != c && i != c + 1 && i != c + w
                    ==> after[i] == before[i]
        },
    ensures
        forall|i: int|
            0 <= i < g.len() ==> (#[trigger] after[i]) == out0[i] + flow_upto(g, w, i, c + 1),
{
    assert forall|i: int| 0 <= i < g.len() implies (#[trigger] after[i]) == out0[i] + flow_upto(
        g,
        w,
        i,
        c + 1,
    ) by {
        assert(before[i] == out0[i] + flow_upto(g, w, i, c));
    }
}

/// Topples every inner cell of one band of rows.
///
/// `input_data` is the band as it stood before the sweep; `output_data` and
/// `counting_data` are the same rows of the grid being written and of the
/// toppling counters. Each inner cell of `input_data` that holds four grains or
/// more hands a quarter of its load to each neighbour in `output_data` and has
/// its counter raised by one. Returns the number of cells that toppled.
#[verifier::rlimit(50)]
pub fn process_row(
    input_data: &[u32],
    output_data: &mut [u32],
    counting_data: &mut [u32],
    width: usize,
) -> (num_redistributions: usize)
    requires
        ready(input_data@, old(output_data)@, old(counting_data)@, width as int),
    ensures
        final(output_data)@.len() == input_data@.len(),
        final(counting_data)@.len() == input_data@.len(),
        forall|i: int|
            0 <= i < input_data@.len() ==> (#[trigger] final(output_data)@[i]) == old(
                output_data,
            )@[i] + flow(input_data@, width as int, i),
        forall|i: int|
            0 <= i < input_data@.len() ==> (#[trigger] final(counting_data)@[i]) == old(
                counting_data,
            )@[i] + if sheds(input_data@, width as int, i) > 0 {
                1int
            } else {
                0int
            },
        num_redistributions == hot_cells(input_data@, width as int),
{
    let len = input_data.len();
    let rows = len / width;
    let ghost w = width as int;
    let ghost g = input_data@;
    let ghost out0 = output_data@;
    let ghost cnt0 = counting_data@;
    proof {
        vstd::arithmetic::div_mod::lemma_fundamental_div_mod(len as int, w);
        assert(w * (len as int / w) == rows * w) by (nonlinear_arith)
            requires
                rows == len as int / w,
        ;
        lemma_cell(w, rows as int, 0, 1);
        lemma_hot_skip(g, w, 0, w);
    }
    let mut num_redistributions: usize = 0;
    let mut y: usize = MARGIN;
    while y + MARGIN < rows
        invariant
            w == width,
            w >= 1,
            g == input_data@,
            len == g.len(),
            rows >= 3,
            rows * w == len,
            1 <= y <= rows - 1,
            output_data@.len() == len,
            counting_data@.len() == len,
            out0.len() == len,
            cnt0.len() == len,
            forall|i: int|
                0 <= i < len ==> 4 * sheds(g, w, i) <= (#[trigger] out0[i]) && out0[i] + inflow(
                    g,
                    w,
                    i,
                ) <= u32::MAX,
            forall|i: int| 0 <= i < len && sheds(g, w, i) > 0 ==> (#[trigger] cnt0[i]) < u32::MAX,
            forall|i: int|
                0 <= i < len ==> (#[trigger] output_data@[i]) == out0[i] + flow_upto(
                    g,
                    w,
                    i,
                    y * w,
                ),
            forall|i: int|
                0 <= i < len ==> (#[trigger] counting_data@[i]) == cnt0[i] + if i < y * w && sheds(
                    g,
                    w,
                    i,
                ) > 0 {
                    1int
                } else {
                    0int
                },
            num_redistributions == hot_upto(g, w, y * w),
            num_redistributions <= y * w,
        decreases rows - y,
    {
        proof {
            lemma_cell(w, rows as int, 0, y as int);
            assert(sheds(g, w, y * w) == 0);
            lemma_hot_skip(g, w, y * w, y * w + 1);
        }
        let mut x: usize = MARGIN;
        while x + MARGIN < width
            invariant
                w == width,
                w >= 1,
                g == input_data@,
                len == g.len(),
                rows >= 3,
                rows * w == len,
                1 <= y < rows - 1,
                1 <= x,
                x <= w - 1 || x == 1,
                output_data@.len() == len,
                counting_data@.len() == len,
                out0.len() == len,
                cnt0.len() == len,
                forall|i: int|
                    0 <= i < len ==> 4 * sheds(g, w, i) <= (#[trigger] out0[i]) && out0[i] + inflow(
                        g,
                        w,
                        i,
                    ) <= u32::MAX,
                forall|i: int|
                    0 <= i < len && sheds(g, w, i) > 0 ==> (#[trigger] cnt0[i]) < u32::MAX,
                forall|i: int|
                    0 <= i < len ==> (#[trigger] output_data@[i]) == out0[i] + flow_upto(
                        g,
                        w,
                        i,
                        y * w + x,
                    ),
                forall|i: int|
                    0 <= i < len ==> (#[trigger] counting_data@[i]) == cnt0[i] + if i < y * w + x
                        && sheds(g, w, i) > 0 {
                        1int
                    } else {
                        0int
                    },
                num_redistributions == hot_upto(g, w, y * w + x),
                num_redistributions <= y * w + x,
            decreases width - x,
        {
            proof {
                lemma_cell(w, rows as int, x as int, y as int);
                lemma_cell(w, rows as int - 1, x as int, y as int);
                lemma_cell(w, rows as int, 0, y as int - 1);
            }
            let index = y * width + x;
            let val = input_data[index];
            let ghost before = output_data@;
            if val >= TOPPLE_AMOUNT {
                let distribute = val / TOPPLE_AMOUNT;
                proof {
                    lemma_topple_room(g, w, out0, before, index as int);
                }
                num_redistributions = num_redistributions + 1;
                counting_data[index] = counting_data[index] + 1;
                output_data[index - width] = output_data[index - width] + distribute;
                output_data[index - 1] = output_data[index - 1] + distribute;
                output_data[index] = output_data[index] - distribute * TOPPLE_AMOUNT;
                output_data[index + 1] = output_data[index + 1] + distribute;
                output_data[index + width] = output_data[index + width] + distribute;
            }
            proof {
                lemma_topple_done(g, w, out0, before, output_data@, index as int);
            }
            x = x + 1;
        }
        proof {
            if w >= 2 {
                lemma_cell(w, rows as int, w - 1, y as int);
                assert(sheds(g, w, y * w + w - 1) == 0);
                if w == 2 {
                    assert(x == 1);
                } else {
                    assert(x == w - 1);
                }
                lemma_hot_skip(g, w, y * w + w - 1, y * w + w);
            } else {
                assert(x == 1);
            }
            assert(y * w + w == (y + 1) * w);
        }
        y = y + 1;
    }
    proof {
        assert(y == rows - 1);
        lemma_cell(w, rows as int, 0, y as int);
        lemma_hot_skip(g, w, y * w, len as int);
    }
    num_redistributions
}

/// Topples `limit` consecutive bands of `chunk` cells each, the first of
/// which begins at cell `start`, and returns how many cells toppled.
///
/// The bands are cut and handed out by rayon (`par_chunks`, `par_chunks_mut`,
/// `take`, `zip`, `map`, `sum`), and each is toppled by [`process_row`]. The
/// contract is taken on trust from rayon's documentation: the chunks are the
/// consecutive, non-overlapping pieces of the given length, the function is
/// applied once to each triple of matching pieces, the cells outside the
/// pieces are left alone, and the results are added up.
#[verifier::external_body]
fn dispatch_bands(
    read: &Vec<u32>,
    write: &mut Vec<u32>,
    counting: &mut Vec<u32>,
    width: usize,
    start: usize,
    chunk: usize,
    limit: usize,
) -> (hits: usize)
    requires
        chunk > 0,
        read@.len() == old(write)@.len(),
        read@.len() == old(counting)@.len(),
        start + limit * chunk <= read@.len(),
        forall|k: int|
            0 <= k < limit ==> ready(
                #[trigger] chunk_of(read@, start as int, chunk as int, k),
                chunk_of(old(write)@, start as int, chunk as int, k),
                chunk_of(old(counting)@, start as int, chunk as int, k),
                width as int,
            ),
    ensures
        final(write)@.len() == old(write)@.len(),
        final(counting)@.len() == old(counting)@.len(),
        forall|k: int, j: int|
            0 <= k < limit && 0 <= j < chunk ==> final(write)@[#[trigger] slot(
                start as int,
                chunk as int,
                k,
                j,
            )] == old(write)@[slot(start as int, chunk as int, k, j)] + flow(
                chunk_of(read@, start as int, chunk as int, k),
                width as int,
                j,
            ),
        forall|k: int, j: int|
            0 <= k < limit && 0 <= j < chunk ==> final(counting)@[#[trigger] slot(
                start as int,
                chunk as int,
                k,
                j,
            )] == old(counting)@[slot(start as int, chunk as int, k, j)] + if sheds(
                chunk_of(read@, start as int, chunk as int, k),
                width as int,
                j,
            ) > 0 {
                1int
            } else {
                0int
            },
        forall|i: int|
            0 <= i < start || start + limit * chunk <= i < read@.len() ==> final(write)@[i] == old(
                write,
            )@[i] && final(counting)@[i] == old(counting)@[i],
        hits == chunk_hits(read@, width as int, start as int, chunk as int, limit as int),
{
    read[start..].par_chunks(chunk).take(limit)
        .zip(write[start..].par_chunks_mut(chunk).take(limit))
        .zip(counting[start..].par_chunks_mut(chunk).take(limit))
        .map(|((input, output), count)| process_row(input, output, count, width))
        .sum()
}

/// Cell `i` lies in a band of the given phase that fits the grid.
pub open spec fn in_phase(side: int, phase: int, i: int) -> bool {
    let t = i / side - band_row(phase, i / side);
    t >= 0 && t + 3 <= side
}

/// Number, within its phase, of the band that holds cell `i`.
pub open spec fn phase_band(side: int, phase: int, i: int) -> int {
    (i / side - band_row(phase, i / side) - phase) / 3
}

/// The bands of a phase lie inside the grid.
pub proof fn lemma_phase_span(side: int, p: int)
    requires
        3 <= side,
        0 <= p < 3,
    ensures
        0 <= p * side,
        p * side + ((side - p) / 3) * (3 * side) <= side * side,
        p * side + ((side - p) / 3) * (3 * side) == (p + 3 * ((side - p) / 3)) * side,
{
    let limit = (side - p) / 3;
    assert((p + 3 * limit) * side <= side * side) by (nonlinear_arith)
        requires
            0 <= p + 3 * limit <= side,
    ;
    assert((p + 3 * limit) * side == p * side + limit * (3 * side)) by (nonlinear_arith);
    assert(0 <= p * side) by (nonlinear_arith)
        requires
            0 <= p,
            0 <= side,
    ;
}

/// Midway through a sweep every band of the next phase can be toppled: the
/// grains that a cell has received so far and those it is about to receive
/// are within what the grid holds.
#[verifier::rlimit(50)]
pub proof fn lemma_band_ready(
    g: Seq<u32>,
    w0: Seq<u32>,
    c0: Seq<u32>,
    cnt0: Seq<u32>,
    side: int,
    p: int,
    k: int,
)
    requires
        3 <= side,
        g.len() == side * side,
        w0.len() == g.len(),
        c0.len() == g.len(),
        cnt0.len() == g.len(),
        0 <= p < 3,
        0 <= k < (side - p) / 3,
        total(g) <= u32::MAX,
        forall|i: int|
            0 <= i < g.len() && sheds(g, side, i) > 0 ==> (#[trigger] cnt0[i]) < u32::MAX,
        forall|i: int| 0 <= i < g.len() ==> (#[trigger] w0[i]) == g[i] + gain_upto(g, side, p, i),
        forall|i: int|
            0 <= i < g.len() ==> (#[trigger] c0[i]) == cnt0[i] + if toppled_upto(g, side, p, i) {
                1int
            } else {
                0int
            },
    ensures
        ready(
            chunk_of(g, p * side, 3 * side, k),
            chunk_of(w0, p * side, 3 * side, k),
            chunk_of(c0, p * side, 3 * side, k),
            side,
        ),
{
    let cr = chunk_of(g, p * side, 3 * side, k);
    let cw = chunk_of(w0, p * side, 3 * side, k);
    let cc = chunk_of(c0, p * side, 3 * side, k);
    lemma_band_cell(g, side, p, k, 0);
    assert((3 * side) % side == 0 && (3 * side) / side == 3) by (nonlinear_arith)
        requires
            side >= 3,
    ;
    assert(cr.len() == 3 * side);
    assert forall|j: int| 0 <= j < cr.len() implies 4 * sheds(cr, side, j) <= (#[trigger] cw[j])
        && cw[j] + inflow(cr, side, j) <= u32::MAX by {
        lemma_band_cell(g, side, p, k, j);
        let i = slot(p * side, 3 * side, k, j);
        assert(cw[j] == w0[i]);
        lemma_phases(g, side, i);
        lemma_phase_in(g, side, i);
        lemma_reach(g, side, i);
    }
    assert forall|j: int| 0 <= j < cr.len() && sheds(cr, side, j) > 0 implies (#[trigger] cc[j])
        < u32::MAX by {
        lemma_band_cell(g, side, p, k, j);
        let i = slot(p * side, 3 * side, k, j);
        assert(cc[j] == c0[i]);
    }
}

/// Where cell `i` stands in a phase: in one of its bands, at a known place,
/// or outside them all, where the phase changes nothing.
#[verifier::rlimit(50)]
pub proof fn lemma_phase_cell(g: Seq<u32>, side: int, p: int, i: int)
    requires
        3 <= side,
        g.len() == side * side,
        0 <= p < 3,
        0 <= i < g.len(),
    ensures
        in_phase(side, p, i) ==> {
            let k = phase_band(side, p, i);
            let j = i - (p + 3 * k) * side;
            &&& 0 <= k < (side - p) / 3
            &&& 0 <= j < 3 * side
            &&& slot(p * side, 3 * side, k, j) == i
            &&& flow(chunk_of(g, p * side, 3 * side, k), side, j) == phase_gain(g, side, p, i)
            &&& (sheds(chunk_of(g, p * side, 3 * side, k), side, j) > 0) == (toppled_upto(
                g,
                side,
                p + 1,
                i,
            ) && !toppled_upto(g, side, p, i))
        },
        !in_phase(side, p, i) ==> {
            &&& (i < p * side || p * side + ((side - p) / 3) * (3 * side) <= i)
            &&& phase_gain(g, side, p, i) == 0
            &&& toppled_upto(g, side, p + 1, i) == toppled_upto(g, side, p, i)
        },
        gain_upto(g, side, p + 1, i) == gain_upto(g, side, p, i) + phase_gain(g, side, p, i),
{
    lemma_row_col(side, i);
    lemma_phase_in(g, side, i);
    lemma_phase_span(side, p);
    let limit = (side - p) / 3;
    let y = i / side;
    let x = i % side;
    let m = band_row(p, y);
    let t = y - m;
    assert((t + m) * side == t * side + m * side) by (nonlinear_arith);
    if t >= 0 && t + 3 <= side {
        let k = (t - p) / 3;
        let j = m * side + x;
        assert(0 <= m * side <= 2 * side) by (nonlinear_arith)
            requires
                0 <= m <= 2,
                0 <= side,
        ;
        assert(t == p + 3 * k);
        lemma_band_cell(g, side, p, k, j);
    } else {
        if t < 0 {
            assert((y + 1) * side <= p * side) by (nonlinear_arith)
                requires
                    y + 1 <= p,
                    0 <= side,
            ;
            assert((y + 1) * side == y * side + side) by (nonlinear_arith);
        } else {
            assert((p + 3 * limit) * side <= y * side) by (nonlinear_arith)
                requires
                    p + 3 * limit <= y,
                    0 <= side,
            ;
        }
    }
}

/// One sweep: every inner cell of `read` that holds four grains or more
/// topples once, into `write`, and has its counter raised.
///
/// The grid is cut into bands of three rows, of which the middle one
/// topples. The bands that begin at rows 0, 3, 6, ... are handed out
/// together, then those that begin at rows 1, 4, 7, ..., then those at
/// 2, 5, 8, ...; a band that would reach past the last row is left out.
/// Returns the number of cells that toppled.
#[verifier::rlimit(50)]
pub fn sweep(
    read: &Vec<u32>,
    write: &mut Vec<u32>,
    counting: &mut Vec<u32>,
    side_length: usize,
) -> (hits: usize)
    requires
        side_length <= MAX_SIDE,
        read@.len() == side_length * side_length,
        old(write)@ == read@,
        old(counting)@.len() == read@.len(),
        total(read@) <= u32::MAX,
        forall|i: int|
            0 <= i < read@.len() && sheds(read@, side_length as int, i) > 0 ==> (#[trigger] old(
                counting,
            )@[i]) < u32::MAX,
    ensures
        final(write)@.len() == read@.len(),
        final(counting)@.len() == read@.len(),
        ints(final(write)@) == swept(read@, side_length as int),
        forall|i: int|
            0 <= i < read@.len() ==> (#[trigger] final(counting)@[i]) == old(counting)@[i] + if sheds(
                read@,
                side_length as int,
                i,
            ) > 0 {
                1int
            } else {
                0int
            },
        hits == hot_cells(read@, side_length as int),
        total(final(write)@) == total(read@),
{
    let ghost g = read@;
    let ghost side = side_length as int;
    let ghost cnt0 = counting@;
    let ghost len = g.len() as int;
    proof {
        lemma_swept_total(g, side);
        lemma_sweep_hits(g, side);
        assert(sweep_hits(g, side, 0) == 0);
    }
    if side_length < 3 {
        proof {
            assert(forall|k: int| !inner(len, side, k));
            assert(ints(write@) =~= swept(g, side));
            lemma_sweep_zero(g, side);
        }
        return 0;
    }
    assert(side * side <= 32766 * 32766) by (nonlinear_arith)
        requires
            0 <= side <= 32766,
    ;
    let chunk = side_length * BAND_H;
    let mut hits: usize = 0;
    let mut phase: usize = 0;
    while phase < 3
        invariant
            g == read@,
            side == side_length,
            3 <= side <= 32766,
            len == g.len(),
            len == side * side,
            len <= 32766 * 32766,
            chunk == 3 * side,
            cnt0.len() == len,
            write@.len() == len,
            counting@.len() == len,
            phase <= 3,
            total(g) <= u32::MAX,
            forall|i: int| 0 <= i < len && sheds(g, side, i) > 0 ==> (#[trigger] cnt0[i]) < u32::MAX,
            forall|i: int|
                0 <= i < len ==> (#[trigger] write@[i]) == g[i] + gain_upto(g, side, phase as int, i),
            forall|i: int|
                0 <= i < len ==> (#[trigger] counting@[i]) == cnt0[i] + if toppled_upto(
                    g,
                    side,
                    phase as int,
                    i,
                ) {
                    1int
                } else {
                    0int
                },
            hits == sweep_hits(g, side, phase as int),
            hits <= phase * len,
        decreases 3 - phase,
    {
        assert(phase * side_length <= 2 * 32766) by (nonlinear_arith)
            requires
                phase <= 2,
                side_length <= 32766,
        ;
        let start = phase * side_length;
        let limit = (side_length - phase) / BAND_H;
        let ghost w0 = write@;
        let ghost c0 = counting@;
        let ghost p = phase as int;
        proof {
            lemma_phase_span(side, p);
            assert forall|k: int| 0 <= k < limit implies ready(
                #[trigger] chunk_of(g, start as int, chunk as int, k),
                chunk_of(w0, start as int, chunk as int, k),
                chunk_of(c0, start as int, chunk as int, k),
                side,
            ) by {
                lemma_band_ready(g, w0, c0, cnt0, side, p, k);
            }
            lemma_chunk_hits_bounds(g, side, start as int, chunk as int, limit as int);
        }
        let h = dispatch_bands(read, write, counting, side_length, start, chunk, limit);
        proof {
            assert forall|i: int| 0 <= i < len implies (#[trigger] write@[i]) == g[i] + gain_upto(
                g,
                side,
                p + 1,
                i,
            ) by {
                lemma_phase_cell(g, side, p, i);
                if in_phase(side, p, i) {
                    let k = phase_band(side, p, i);
                    let j = i - (p + 3 * k) * side;
                    assert(slot(start as int, chunk as int, k, j) == i);
                }
            }
            assert forall|i: int| 0 <= i < len implies (#[trigger] counting@[i]) == cnt0[i] + if toppled_upto(
                g,
                side,
                p + 1,
                i,
            ) {
                1int
            } else {
                0int
            } by {
                lemma_phase_cell(g, side, p, i);
                if in_phase(side, p, i) {
                    let k = phase_band(side, p, i);
                    let j = i - (p + 3 * k) * side;
                    assert(slot(start as int, chunk as int, k, j) == i);
                }
            }
            assert(sweep_hits(g, side, p + 1) == sweep_hits(g, side, p) + chunk_hits(
                g,
                side,
                p * side,
                3 * side,
                (side - p) / 3,
            ));
            assert(limit * chunk <= len);
            assert((phase + 1) * len == phase * len + len) by (nonlinear_arith);
        }
        hits = hits + h;
        phase = phase + 1;
    }
    proof {
        assert forall|i: int| 0 <= i < len implies (#[trigger] write@[i]) as int == swept(g, side)[i] by {
            lemma_phases(g, side, i);
        }
        assert(ints(write@) =~= swept(g, side));
    }
    hits
}

} // verus!
