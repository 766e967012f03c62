//! The bounding box of the cells that are about to topple.

use vstd::prelude::*;
use crate::model::lemma_cell;

verus! {

/// Flat position of the `t`-th cell of line `k`: of row `k` when `rows`
/// is set, of column `k` when it is not.
pub open spec fn line_cell(side: int, rows: bool, k: int, t: int) -> int {
    if rows {
        k * side + t
    } else {
        t * side + k
    }
}

/// The `t`-th cell of line `k` holds four grains or more.
pub open spec fn hot_at(g: Seq<u32>, side: int, rows: bool, k: int, t: int) -> bool {
    g[line_cell(side, rows, k, t)] >= 4
}

/// Line `k` holds a cell with four grains or more.
pub open spec fn line_hot(g: Seq<u32>, side: int, rows: bool, k: int) -> bool {
    exists|t: int| 0 <= t < side && hot_at(g, side, rows, k, t)
}

/// The first line at or after `from` that holds such a cell, 0 if there is none.
pub open spec fn first_line(g: Seq<u32>, side: int, rows: bool, from: int) -> int
    decreases side - from,
{
    if from >= side {
        0
    } else if line_hot(g, side, rows, from) {
        from
    } else {
        first_line(g, side, rows, from + 1)
    }
}

/// The last line before `upto` that holds such a cell, 0 if there is none.
pub open spec fn last_line(g: Seq<u32>, side: int, rows: bool, upto: int) -> int
    decreases upto,
{
    if upto <= 0 {
        0
    } else if line_hot(g, side, rows, upto - 1) {
        upto - 1
    } else {
        last_line(g, side, rows, upto - 1)
    }
}

/// The box that the four scans find.
pub struct HotBox {
    pub minx: int,
    pub maxx: int,
    pub miny: int,
    pub maxy: int,
}

/// The smallest box around the cells of the grid that hold four grains or
/// more; the single cell at the origin when no cell does.
pub open spec fn hot_box(g: Seq<u32>, side: int) -> HotBox {
    HotBox {
        minx: first_line(g, side, false, 0),
        maxx: last_line(g, side, false, side),
        miny: first_line(g, side, true, 0),
        maxy: last_line(g, side, true, side),
    }
}

/// Least distance from the box to an edge of the grid.
pub open spec fn closest(b: HotBox, side: int) -> int {
    let v = if b.miny <= side - 1 - b.maxy {
        b.miny
    } else {
        side - 1 - b.maxy
    };
    let h = if b.minx <= side - 1 - b.maxx {
        b.minx
    } else {
        side - 1 - b.maxx
    };
    if v <= h {
        v
    } else {
        h
    }
}

pub proof fn lemma_first_line(g: Seq<u32>, side: int, rows: bool, from: int, k: int)
    requires
        0 <= from <= k < side,
        line_hot(g, side, rows, k),
    ensures
        from <= first_line(g, side, rows, from) <= k,
        line_hot(g, side, rows, first_line(g, side, rows, from)),
    decreases k - from,
{
    if !line_hot(g, side, rows, from) {
        lemma_first_line(g, side, rows, from + 1, k);
    }
}

pub proof fn lemma_last_line(g: Seq<u32>, side: int, rows: bool, upto: int, k: int)
    requires
        0 <= k < upto <= side,
        line_hot(g, side, rows, k),
    ensures
        k <= last_line(g, side, rows, upto) < upto,
        line_hot(g, side, rows, last_line(g, side, rows, upto)),
    decreases upto - k,
{
    if !line_hot(g, side, rows, upto - 1) {
        lemma_last_line(g, side, rows, upto - 1, k);
    }
}

pub proof fn lemma_first_line_range(g: Seq<u32>, side: int, rows: bool, k: int)
    requires
        0 <= k <= side,
        0 < side,
    ensures
        0 <= first_line(g, side, rows, k) < side,
    decreases side - k,
{
    if k < side && !line_hot(g, side, rows, k) {
        lemma_first_line_range(g, side, rows, k + 1);
    }
}

pub proof fn lemma_last_line_range(g: Seq<u32>, side: int, rows: bool, k: int)
    requires
        0 <= k <= side,
        0 < side,
    ensures
        0 <= last_line(g, side, rows, k) < side,
    decreases k,
{
    if k > 0 && !line_hot(g, side, rows, k - 1) {
        lemma_last_line_range(g, side, rows, k - 1);
    }
}

pub proof fn lemma_first_line_hot(g: Seq<u32>, side: int, rows: bool, k: int)
    requires
        0 <= k <= side,
    ensures
        first_line(g, side, rows, k) == 0 || line_hot(g, side, rows, first_line(g, side, rows, k)),
    decreases side - k,
{
    if k < side && !line_hot(g, side, rows, k) {
        lemma_first_line_hot(g, side, rows, k + 1);
    }
}

pub proof fn lemma_last_line_hot(g: Seq<u32>, side: int, rows: bool, k: int)
    requires
        0 <= k <= side,
    ensures
        last_line(g, side, rows, k) == 0 || line_hot(g, side, rows, last_line(g, side, rows, k)),
    decreases k,
{
    if k > 0 && !line_hot(g, side, rows, k - 1) {
        lemma_last_line_hot(g, side, rows, k - 1);
    }
}

/// The box lies on the grid and holds every cell with four grains or more.
#[verifier::rlimit(50)]
pub proof fn lemma_hot_box(g: Seq<u32>, side: int)
    requires
        0 < side,
        g.len() == side * side,
    ensures
        0 <= hot_box(g, side).minx < side,
        0 <= hot_box(g, side).maxx < side,
        0 <= hot_box(g, side).miny < side,
        0 <= hot_box(g, side).maxy < side,
        hot_box(g, side).minx <= hot_box(g, side).maxx,
        hot_box(g, side).miny <= hot_box(g, side).maxy,
        forall|x: int, y: int|
            0 <= x < side && 0 <= y < side && #[trigger] g[y * side + x] >= 4 ==> hot_box(
                g,
                side,
            ).minx <= x <= hot_box(g, side).maxx && hot_box(g, side).miny <= y <= hot_box(
                g,
                side,
            ).maxy,
{
    lemma_first_line_range(g, side, true, 0);
    lemma_first_line_range(g, side, false, 0);
    lemma_last_line_range(g, side, true, side);
    lemma_last_line_range(g, side, false, side);
    lemma_first_line_hot(g, side, true, 0);
    lemma_first_line_hot(g, side, false, 0);
    if line_hot(g, side, true, hot_box(g, side).miny) {
        lemma_last_line(g, side, true, side, hot_box(g, side).miny);
    }
    if line_hot(g, side, false, hot_box(g, side).minx) {
        lemma_last_line(g, side, false, side, hot_box(g, side).minx);
    }
    assert forall|x: int, y: int|
        0 <= x < side && 0 <= y < side && #[trigger] g[y * side + x] >= 4 implies hot_box(
        g,
        side,
    ).minx <= x <= hot_box(g, side).maxx && hot_box(g, side).miny <= y <= hot_box(
        g,
        side,
    ).maxy by {
        assert(hot_at(g, side, true, y, x));
        assert(hot_at(g, side, false, x, y));
        lemma_first_line(g, side, true, 0, y);
        lemma_first_line(g, side, false, 0, x);
        lemma_last_line(g, side, true, side, y);
        lemma_last_line(g, side, false, side, x);
    }
}

/// Whether line `k` of the grid holds a cell with four grains or more.
pub fn line_has_hot(g: &Vec<u32>, side: usize, rows: bool, k: usize) -> (found: bool)
    requires
        g@.len() == side * side,
        k < side,
    ensures
        found == line_hot(g@, side as int, rows, k as int),
{
    let len = g.len();
    let mut t: usize = 0;
    while t < side
        invariant
            g@.len() == side * side,
            g@.len() == len,
            k < side,
            t <= side,
            forall|u: int| 0 <= u < t ==> !hot_at(g@, side as int, rows, k as int, u),
        decreases side - t,
    {
        proof {
            lemma_cell(side as int, side as int, t as int, k as int);
            lemma_cell(side as int, side as int, k as int, t as int);
        }
        let index = if rows {
            k * side + t
        } else {
            t * side + k
        };
        if g[index] >= 4 {
            assert(hot_at(g@, side as int, rows, k as int, t as int));
            return true;
        }
        t = t + 1;
    }
    false
}

/// The first line of the grid that holds a cell with four grains or more,
/// 0 if there is none.
pub fn first_hot_line(g: &Vec<u32>, side: usize, rows: bool) -> (line: usize)
    requires
        g@.len() == side * side,
    ensures
        line == first_line(g@, side as int, rows, 0),
{
    let mut k: usize = 0;
    while k < side
        invariant
            g@.len() == side * side,
            k <= side,
            first_line(g@, side as int, rows, 0) == first_line(g@, side as int, rows, k as int),
        decreases side - k,
    {
        if line_has_hot(g, side, rows, k) {
            return k;
        }
        k = k + 1;
    }
    0
}

/// The last line of the grid that holds a cell with four grains or more,
/// 0 if there is none.
pub fn last_hot_line(g: &Vec<u32>, side: usize, rows: bool) -> (line: usize)
    requires
        g@.len() == side * side,
    ensures
        line == last_line(g@, side as int, rows, side as int),
{
    let mut k: usize = side;
    while k > 0
        invariant
            g@.len() == side * side,
            k <= side,
            last_line(g@, side as int, rows, side as int) == last_line(
                g@,
                side as int,
                rows,
                k as int,
            ),
        decreases k,
    {
        if line_has_hot(g, side, rows, k - 1) {
            return k - 1;
        }
        k = k - 1;
    }
    0
}

} // verus!
