//! Moving the active region of a grid to the middle of a larger one.

use vstd::prelude::*;
use crate::bounds::{closest, first_hot_line, hot_box, last_hot_line, lemma_hot_box, HotBox};
use crate::limits::{MARGIN, MAX_SIDE};
use crate::mass::{lemma_total_le, total};
use crate::model::{lemma_cell, lemma_row_col};
use rayon::iter::{IndexedParallelIterator, ParallelIterator};
use rayon::slice::{ParallelSlice, ParallelSliceMut};

verus! {

/// Side of the smallest grid that the engine allocates.
pub const MIN_SIZE: usize = 120;

/// Cells by which the side grows at the least.
pub const STANDARD_INCREASE: usize = 8;

/// The side of every allocated grid is a multiple of this, so that bands
/// tile it evenly.
pub const REQUIRED_SIZE_MULTIPLE: usize = 6;

/// A rectangle of a grid of side `side`, with its corner at `(minx, miny)`,
/// and the place in a grid of side `new_side` to which it goes.
#[derive(Clone, Copy)]
pub struct Shift {
    pub side: usize,
    pub new_side: usize,
    pub minx: usize,
    pub miny: usize,
    pub size_x: usize,
    pub size_y: usize,
    pub new_x: usize,
    pub new_y: usize,
}

impl Shift {
    /// The rectangle lies on the old grid and its image on the new one.
    pub open spec fn fits(&self) -> bool {
        &&& 0 < self.side
        &&& 0 < self.new_side
        &&& self.minx + self.size_x <= self.side
        &&& self.miny + self.size_y <= self.side
        &&& self.new_x + self.size_x <= self.new_side
        &&& self.new_y + self.size_y <= self.new_side
    }

    /// Cell `i` of the new grid lies in the image of the rectangle, in one
    /// of its first `r` rows or in the first `c` cells of the row after them.
    pub open spec fn covers_upto(&self, i: int, r: int, c: int) -> bool {
        let x = i % (self.new_side as int);
        let y = i / (self.new_side as int);
        &&& self.new_x <= x < self.new_x + self.size_x
        &&& self.new_y <= y < self.new_y + self.size_y
        &&& (y - self.new_y < r || (y - self.new_y == r && x - self.new_x < c))
    }

    /// Cell `i` of the new grid lies in the image of the rectangle.
    pub open spec fn covers(&self, i: int) -> bool {
        self.covers_upto(i, self.size_y as int, 0)
    }

    /// The cell of the new grid to which cell `i` of the old one goes.
    pub open spec fn target(&self, i: int) -> int {
        let x = i % (self.side as int);
        let y = i / (self.side as int);
        (y - self.miny + self.new_y) * self.new_side + (x - self.minx + self.new_x)
    }

    /// Cell `i` of the old grid lies in the rectangle.
    pub open spec fn holds(&self, i: int) -> bool {
        let x = i % (self.side as int);
        let y = i / (self.side as int);
        self.minx <= x < self.minx + self.size_x && self.miny <= y < self.miny + self.size_y
    }

    /// The cell of the old grid that goes to cell `i` of the new one.
    pub open spec fn source(&self, i: int) -> int {
        let x = i % (self.new_side as int);
        let y = i / (self.new_side as int);
        (y - self.new_y + self.miny) * self.side + (x - self.new_x + self.minx)
    }
}

/// The new grid `base` with the first `r` rows of the rectangle, and the
/// first `c` cells of the next row, copied into it from `src`.
pub open spec fn moved_upto(src: Seq<u32>, base: Seq<u32>, s: Shift, r: int, c: int) -> Seq<u32> {
    Seq::new(
        base.len(),
        |i: int|
            if s.covers_upto(i, r, c) {
                src[s.source(i)]
            } else {
                base[i]
            },
    )
}

/// The new grid `base` with the rectangle copied into it from `src`.
pub open spec fn moved(src: Seq<u32>, base: Seq<u32>, s: Shift) -> Seq<u32> {
    moved_upto(src, base, s, s.size_y as int, 0)
}

/// Copies a rectangle of one grid to its place in another.
#[verifier::rlimit(50)]
pub fn copy_region(src: &Vec<u32>, dst: &mut Vec<u32>, s: Shift)
    requires
        s.fits(),
        src@.len() == s.side * s.side,
        old(dst)@.len() == s.new_side * s.new_side,
    ensures
        final(dst)@ == moved(src@, old(dst)@, s),
{
    let ghost base = dst@;
    let src_len = src.len();
    let dst_len = dst.len();
    let mut r: usize = 0;
    while r < s.size_y
        invariant
            s.fits(),
            src@.len() == s.side * s.side,
            base.len() == s.new_side * s.new_side,
            src@.len() == src_len,
            base.len() == dst_len,
            r <= s.size_y,
            dst@ == moved_upto(src@, base, s, r as int, 0),
        decreases s.size_y - r,
    {
        let mut c: usize = 0;
        while c < s.size_x
            invariant
                s.fits(),
                src@.len() == s.side * s.side,
                base.len() == s.new_side * s.new_side,
                src@.len() == src_len,
                base.len() == dst_len,
                r < s.size_y,
                c <= s.size_x,
                dst@ == moved_upto(src@, base, s, r as int, c as int),
            decreases s.size_x - c,
        {
            proof {
                lemma_cell(s.side as int, s.side as int, s.minx + c, s.miny + r);
                lemma_cell(s.new_side as int, s.new_side as int, s.new_x + c, s.new_y + r);
            }
            let from = (s.miny + r) * s.side + (s.minx + c);
            let to = (s.new_y + r) * s.new_side + (s.new_x + c);
            let ghost before = dst@;
            dst[to] = src[from];
            proof {
                assert forall|i: int| 0 <= i < base.len() implies dst@[i] == moved_upto(
                    src@,
                    base,
                    s,
                    r as int,
                    c + 1,
                )[i] by {
                    lemma_row_col(s.new_side as int, i);
                }
                assert(dst@ =~= moved_upto(src@, base, s, r as int, c + 1));
            }
            c = c + 1;
        }
        proof {
            assert(dst@ =~= moved_upto(src@, base, s, r + 1, 0));
        }
        r = r + 1;
    }
}

/// Copies the same rectangle of the grid and of its counters, each to its
/// place in the new buffers, as two tasks that rayon's `join` may run side
/// by side.
///
/// Taken on trust from rayon's documentation: `join` runs both closures to
/// the end before it returns. Each closure is one call of [`copy_region`].
#[verifier::external_body]
fn copy_both(
    main: &Vec<u32>,
    new_main: &mut Vec<u32>,
    counting: &Vec<u32>,
    new_counting: &mut Vec<u32>,
    s: Shift,
)
    requires
        s.fits(),
        main@.len() == s.side * s.side,
        counting@.len() == s.side * s.side,
        old(new_main)@.len() == s.new_side * s.new_side,
        old(new_counting)@.len() == s.new_side * s.new_side,
    ensures
        final(new_main)@ == moved(main@, old(new_main)@, s),
        final(new_counting)@ == moved(counting@, old(new_counting)@, s),
{
    rayon::join(|| copy_region(main, new_main, s), || copy_region(counting, new_counting, s));
}

/// Copies one piece of a buffer over a piece of equal length.
pub fn copy_chunk<T: Copy>(input: &[T], output: &mut [T])
    requires
        input@.len() == old(output)@.len(),
    ensures
        final(output)@ == input@,
{
    let len = input.len();
    let mut i: usize = 0;
    while i < len
        invariant
            len == input@.len(),
            output@.len() == len,
            i <= len,
            forall|k: int| 0 <= k < i ==> output@[k] == input@[k],
        decreases len - i,
    {
        output[i] = input[i];
        i = i + 1;
    }
    assert(output@ =~= input@);
}

/// Copies `src` over `dst` piece by piece, the pieces of `chunk_size`
/// cells handed out by rayon (`par_chunks`, `par_chunks_mut`, `zip`,
/// `for_each`) and each copied by [`copy_chunk`].
///
/// Taken on trust from rayon's documentation: the pieces of two buffers of
/// one length match in number and length and cover the buffers, and the
/// function is applied to every pair.
#[verifier::external_body]
fn copy_chunks<T: Copy + Sync + Send>(src: &[T], dst: &mut [T], chunk_size: usize)
    requires
        chunk_size > 0,
        src@.len() == old(dst)@.len(),
    ensures
        final(dst)@ == src@,
{
    src.par_chunks(chunk_size).zip(dst.par_chunks_mut(chunk_size)).for_each(
        |(input, output)| copy_chunk(input, output),
    );
}

/// Copies `src` over `dst` in eight parallel pieces.
pub fn copy_data<T: Copy + Sync + Send>(src: &[T], dst: &mut [T])
    requires
        src@.len() == old(dst)@.len(),
        src@.len() >= 8,
    ensures
        final(dst)@ == src@,
{
    let chunk_size = src.len() / 8;
    copy_chunks(src, dst, chunk_size);
}

/// `val` rounded up to a multiple of `multiple`.
pub open spec fn rounded_up(val: int, multiple: int) -> int {
    if val % multiple == 0 {
        val
    } else {
        val + multiple - val % multiple
    }
}

/// The least multiple of `multiple` that is not below `val`.
pub fn next_multiple(val: usize, multiple: usize) -> (next: usize)
    requires
        multiple > 0,
        val + multiple <= usize::MAX,
    ensures
        next == rounded_up(val as int, multiple as int),
        next % multiple == 0,
        val <= next < val + multiple,
{
    let distance = val % multiple;
    proof {
        vstd::arithmetic::div_mod::lemma_fundamental_div_mod(val as int, multiple as int);
        let q = val as int / multiple as int;
        if distance != 0 {
            assert(val + multiple - distance == multiple * (q + 1)) by (nonlinear_arith)
                requires
                    val == multiple * q + distance,
            ;
            vstd::arithmetic::div_mod::lemma_fundamental_div_mod_converse(
                val + multiple - distance,
                multiple as int,
                q + 1,
                0,
            );
        }
    }
    if distance == 0 {
        val
    } else {
        val + multiple - distance
    }
}

/// Side of the grid that takes the place of one of side `side`.
pub open spec fn grown_side(side: int) -> int {
    rounded_up(
        if side + 8 > 120 {
            side + 8
        } else {
            120
        },
        6,
    )
}

/// Where the box `b` of a grid of side `side` goes when the grid grows:
/// to the middle of the new one.
pub open spec fn shift_for(b: HotBox, side: int) -> Shift {
    let new_side = grown_side(side);
    let size_x = b.maxx - b.minx + 1;
    let size_y = b.maxy - b.miny + 1;
    Shift {
        side: side as usize,
        new_side: new_side as usize,
        minx: b.minx as usize,
        miny: b.miny as usize,
        size_x: size_x as usize,
        size_y: size_y as usize,
        new_x: (new_side / 2 - size_x / 2) as usize,
        new_y: (new_side / 2 - size_y / 2) as usize,
    }
}

/// An empty grid of the given side.
pub open spec fn blank(side: int) -> Seq<u32> {
    Seq::new((side * side) as nat, |i: int| 0u32)
}

/// The buffer `src`, laid out like the grid `g` of side `side`, after the
/// grid has grown: what lay in the box around the toppling cells of `g`
/// lies in the middle, and all else is empty.
pub open spec fn regrown(src: Seq<u32>, g: Seq<u32>, side: int) -> Seq<u32> {
    moved(src, blank(grown_side(side)), shift_for(hot_box(g, side), side))
}

/// A cell of the rectangle goes to a cell of its image, and comes from it.
pub proof fn lemma_target(s: Shift, i: int)
    requires
        s.fits(),
        0 <= i < s.side * s.side,
        s.holds(i),
    ensures
        0 <= s.target(i) < s.new_side * s.new_side,
        s.target(i) % (s.new_side as int) == i % (s.side as int) - s.minx + s.new_x,
        s.target(i) / (s.new_side as int) == i / (s.side as int) - s.miny + s.new_y,
        s.covers(s.target(i)),
        s.source(s.target(i)) == i,
{
    let n = s.new_side as int;
    let side = s.side as int;
    lemma_row_col(side, i);
    lemma_cell(n, n, i % side - s.minx + s.new_x, i / side - s.miny + s.new_y);
}

/// The placement of the box of a grid in the grid that takes its place:
/// it fits, and leaves more than a quarter of the added width free on
/// every side.
#[verifier::rlimit(50)]
pub proof fn lemma_shift_for(g: Seq<u32>, side: int)
    requires
        1 <= side,
        g.len() == side * side,
        grown_side(side) <= MAX_SIDE,
    ensures
        ({
            let s = shift_for(hot_box(g, side), side);
            let b = hot_box(g, side);
            let clear = (grown_side(side) - side) / 4 + 1;
            &&& s.fits()
            &&& s.side == side
            &&& s.new_side == grown_side(side)
            &&& s.minx == b.minx
            &&& s.miny == b.miny
            &&& s.size_x == b.maxx - b.minx + 1
            &&& s.size_y == b.maxy - b.miny + 1
            &&& s.new_side % 6 == 0
            &&& side + 8 <= s.new_side
            &&& 120 <= s.new_side
            &&& clear <= s.new_x
            &&& s.new_x + s.size_x + clear <= s.new_side
            &&& clear <= s.new_y
            &&& s.new_y + s.size_y + clear <= s.new_side
        }),
{
    lemma_hot_box(g, side);
}

/// Every cell of the grown grid is empty or holds what one cell of the box
/// held, and no two hold the same cell.
#[verifier::rlimit(50)]
pub proof fn lemma_regrown_cells(src: Seq<u32>, g: Seq<u32>, side: int)
    requires
        1 <= side,
        g.len() == side * side,
        src.len() == g.len(),
        grown_side(side) <= MAX_SIDE,
    ensures
        ({
            let s = shift_for(hot_box(g, side), side);
            let new = regrown(src, g, side);
            &&& new.len() == grown_side(side) * grown_side(side)
            &&& forall|i: int|
                0 <= i < new.len() ==> (#[trigger] new[i]) == if s.covers(i) {
                    src[s.source(i)]
                } else {
                    0
                }
            &&& forall|i: int|
                0 <= i < new.len() && s.covers(i) ==> 0 <= #[trigger] s.source(i) < src.len()
            &&& forall|i: int, j: int|
                0 <= i < j < new.len() && s.covers(i) && s.covers(j) ==> #[trigger] s.source(i)
                    != #[trigger] s.source(j)
        }),
{
    let s = shift_for(hot_box(g, side), side);
    let new = regrown(src, g, side);
    let n = grown_side(side);
    lemma_shift_for(g, side);
    assert(n * n >= 0) by (nonlinear_arith);
    assert(new.len() == n * n);
    assert forall|i: int| 0 <= i < new.len() && s.covers(i) implies 0 <= #[trigger] s.source(i)
        < src.len() by {
        lemma_row_col(n, i);
        lemma_cell(side, side, i % n - s.new_x + s.minx, i / n - s.new_y + s.miny);
    }
    assert forall|i: int, j: int| 0 <= i < j < new.len() && s.covers(i) && s.covers(j) implies #[trigger] s.source(
        i,
    ) != #[trigger] s.source(j) by {
        lemma_row_col(n, i);
        lemma_row_col(n, j);
        lemma_cell(side, side, i % n - s.new_x + s.minx, i / n - s.new_y + s.miny);
        lemma_cell(side, side, j % n - s.new_x + s.minx, j / n - s.new_y + s.miny);
    }
}

/// Growing the grid makes no grains.
pub proof fn lemma_regrown_total(g: Seq<u32>, side: int)
    requires
        1 <= side,
        g.len() == side * side,
        grown_side(side) <= MAX_SIDE,
    ensures
        total(regrown(g, g, side)) <= total(g),
{
    let s = shift_for(hot_box(g, side), side);
    lemma_regrown_cells(g, g, side);
    let f = |i: int| s.source(i);
    let new = regrown(g, g, side);
    assert forall|i: int, j: int|
        0 <= i < j < new.len() && #[trigger] new[i] > 0 && #[trigger] new[j] > 0 implies f(i) != f(
        j,
    ) by {
        assert(s.source(i) != s.source(j));
    }
    lemma_total_le(new, g, f);
}

/// Every cell of the grid that holds four grains or more keeps `d` cells
/// or more from every edge.
pub open spec fn keeps_off(g: Seq<u32>, side: int, d: int) -> bool {
    forall|i: int|
        0 <= i < g.len() && #[trigger] g[i] >= 4 ==> d <= i % side <= side - 1 - d && d <= i / side
            <= side - 1 - d
}

/// Where the grid stays, the toppling cells keep from the edges by the
/// distance found.
pub proof fn lemma_stays_off(g: Seq<u32>, side: int)
    requires
        1 <= side,
        g.len() == side * side,
    ensures
        keeps_off(g, side, closest(hot_box(g, side), side)),
{
    lemma_hot_box(g, side);
    assert forall|i: int| 0 <= i < g.len() && #[trigger] g[i] >= 4 implies closest(
        hot_box(g, side),
        side,
    ) <= i % side <= side - 1 - closest(hot_box(g, side), side) && closest(hot_box(g, side), side)
        <= i / side <= side - 1 - closest(hot_box(g, side), side) by {
        lemma_row_col(side, i);
        assert(g[(i / side) * side + i % side] >= 4);
    }
}

/// In the grown grid the toppling cells keep more than a quarter of the
/// added width from every edge.
pub proof fn lemma_regrown_off(g: Seq<u32>, side: int)
    requires
        1 <= side,
        g.len() == side * side,
        grown_side(side) <= MAX_SIDE,
    ensures
        keeps_off(regrown(g, g, side), grown_side(side), (grown_side(side) - side) / 4 + 1),
{
    lemma_shift_for(g, side);
    lemma_regrown_cells(g, g, side);
}

/// Looks for the cells about to topple and makes room for them.
///
/// Finds the box around the cells of `main_array` that hold four grains or
/// more. Where the box keeps more than [`MARGIN`] cells from every edge, the
/// grid stays, `secondary_array` is made a copy of it, and half the distance
/// is returned: the number of sweeps after which to look again. Otherwise
/// the grid grows: the box, and the same box of the counters, move to the
/// middle of fresh buffers of the larger side, `secondary_array` becomes a
/// copy of the new grid, and a quarter of the added width is returned.
/// Returns `None`, and changes nothing, where the larger side would pass
/// [`MAX_SIDE`].
#[verifier::rlimit(50)]
pub fn maybe_reallocate(
    main_array: &mut Vec<u32>,
    secondary_array: &mut Vec<u32>,
    counting_array: &mut Vec<u32>,
    side_length: &mut usize,
) -> (next_check: Option<usize>)
    requires
        1 <= *old(side_length) <= MAX_SIDE,
        old(main_array)@.len() == *old(side_length) * *old(side_length),
        old(secondary_array)@.len() == old(main_array)@.len(),
        old(counting_array)@.len() == old(main_array)@.len(),
    ensures
        ({
            let side = *old(side_length) as int;
            let g = old(main_array)@;
            let near = closest(hot_box(g, side), side);
            if near > 1 {
                &&& next_check == Some((near / 2) as usize)
                &&& *final(side_length) == side
                &&& final(main_array)@ == g
                &&& final(secondary_array)@ == g
                &&& final(counting_array)@ == old(counting_array)@
            } else if grown_side(side) > MAX_SIDE {
                &&& next_check.is_none()
                &&& *final(side_length) == side
                &&& final(main_array)@ == g
                &&& final(secondary_array)@ == old(secondary_array)@
                &&& final(counting_array)@ == old(counting_array)@
            } else {
                &&& next_check == Some(((grown_side(side) - side) / 4) as usize)
                &&& *final(side_length) == grown_side(side)
                &&& final(main_array)@ == regrown(g, g, side)
                &&& final(secondary_array)@ == regrown(g, g, side)
                &&& final(counting_array)@ == regrown(old(counting_array)@, g, side)
            }
        }),
{
    let side = *side_length;
    let miny = first_hot_line(main_array, side, true);
    let maxy = last_hot_line(main_array, side, true);
    let minx = first_hot_line(main_array, side, false);
    let maxx = last_hot_line(main_array, side, false);
    proof {
        lemma_hot_box(main_array@, side as int);
    }
    let closest_vertical = if miny <= side - maxy - 1 {
        miny
    } else {
        side - maxy - 1
    };
    let closest_horizontal = if minx <= side - maxx - 1 {
        minx
    } else {
        side - maxx - 1
    };
    let closest = if closest_vertical <= closest_horizontal {
        closest_vertical
    } else {
        closest_horizontal
    };
    if closest <= MARGIN {
        let wanted = if side + STANDARD_INCREASE > MIN_SIZE {
            side + STANDARD_INCREASE
        } else {
            MIN_SIZE
        };
        let new_side_length = next_multiple(wanted, REQUIRED_SIZE_MULTIPLE);
        if new_side_length > MAX_SIDE {
            return None;
        }
        let increase = new_side_length - side;
        assert(new_side_length * new_side_length <= 32766 * 32766) by (nonlinear_arith)
            requires
                new_side_length <= 32766,
        ;
        let mut new_main_array = vec![0u32; new_side_length * new_side_length];
        let mut new_counting_array = vec![0u32; new_side_length * new_side_length];
        let size_x = maxx - minx + 1;
        let size_y = maxy - miny + 1;
        let new_x_begin = new_side_length / 2 - size_x / 2;
        let new_y_begin = new_side_length / 2 - size_y / 2;
        let s = Shift {
            side,
            new_side: new_side_length,
            minx,
            miny,
            size_x,
            size_y,
            new_x: new_x_begin,
            new_y: new_y_begin,
        };
        proof {
            assert(s == shift_for(hot_box(main_array@, side as int), side as int));
            assert(new_main_array@ =~= blank(new_side_length as int));
            assert(new_counting_array@ =~= blank(new_side_length as int));
        }
        copy_both(main_array, &mut new_main_array, counting_array, &mut new_counting_array, s);
        *secondary_array = new_main_array.clone();
        *main_array = new_main_array;
        *counting_array = new_counting_array;
        *side_length = new_side_length;
        proof {
            assert(secondary_array@ =~= main_array@);
        }
        Some(increase / 4)
    } else {
        proof {
            assert(side >= 5);
            assert(side * side >= 25) by (nonlinear_arith)
                requires
                    side >= 5,
            ;
        }
        copy_data(main_array.as_slice(), secondary_array.as_mut_slice());
        Some(closest / 2)
    }
}

} // verus!
