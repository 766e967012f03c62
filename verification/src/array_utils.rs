//! In-place tiled transpose of a square buffer stored row by row.

use vstd::prelude::*;

verus! {

/// Side of the square tiles that the transpose works through.
pub const BLOCK_SIZE: usize = 8;

/// Flat position of column `x` in row `y` of a square of the given side.
pub open spec fn at(side: int, x: int, y: int) -> int {
    x + y * side
}

/// `side` is the side of a square of `len` cells that tiles evenly.
pub open spec fn is_tiled_square(len: int, side: int) -> bool {
    0 <= side && side * side == len && side % 8 == 0
}

/// `b` holds the rows of `a` as columns, both read as squares of the given side.
pub open spec fn is_transpose<T>(a: Seq<T>, b: Seq<T>, side: int) -> bool {
    &&& 0 <= side
    &&& a.len() == side * side
    &&& b.len() == side * side
    &&& forall|x: int, y: int|
        0 <= x < side && 0 <= y < side ==> b[#[trigger] at(side, y, x)] == a[at(side, x, y)]
}

/// Cells of tile `(bx, by)` that the walk over the tile has passed when it
/// stands at offset `(ix, iy)`.
pub open spec fn tile_done(bx: int, by: int, ix: int, iy: int, x: int, y: int) -> bool {
    x / 8 == bx && y / 8 == by && (x % 8 < ix || (x % 8 == ix && y % 8 < iy))
}

/// Cells above the diagonal of tile `(d, d)` that the walk has passed.
pub open spec fn diagonal_done(d: int, ix: int, iy: int, x: int, y: int) -> bool {
    x / 8 == d && y / 8 == d && x % 8 < y % 8 && (x % 8 < ix || (x % 8 == ix && y % 8 < iy))
}

/// The pair of tiles that holds `(x, y)` and its mirror image has been
/// exchanged once the tile rows below `yb` and the tiles left of `xb` in tile
/// row `yb` are finished.
pub open spec fn pair_done(yb: int, xb: int, x: int, y: int) -> bool {
    let lo = if x / 8 <= y / 8 { x / 8 } else { y / 8 };
    let hi = if x / 8 <= y / 8 { y / 8 } else { x / 8 };
    lo < yb || (lo == yb && hi < xb)
}

pub proof fn lemma_at_bounds(side: int, x: int, y: int)
    requires
        0 <= x < side,
        0 <= y < side,
    ensures
        0 <= at(side, x, y) < side * side,
        at(side, x, y) <= y * side + side - 1,
{
    assert(y * side <= (side - 1) * side) by (nonlinear_arith)
        requires
            0 <= y <= side - 1,
            0 < side,
    ;
    assert((side - 1) * side == side * side - side) by (nonlinear_arith);
    assert(0 <= y * side) by (nonlinear_arith)
        requires
            0 <= y,
            0 < side,
    ;
}

pub proof fn lemma_at_injective(side: int, x1: int, y1: int, x2: int, y2: int)
    requires
        0 <= x1 < side,
        0 <= x2 < side,
        0 <= y1,
        0 <= y2,
        at(side, x1, y1) == at(side, x2, y2),
    ensures
        x1 == x2,
        y1 == y2,
{
    if y1 < y2 {
        assert(y2 * side >= (y1 + 1) * side) by (nonlinear_arith)
            requires
                y1 + 1 <= y2,
                0 < side,
        ;
        assert((y1 + 1) * side == y1 * side + side) by (nonlinear_arith);
    } else if y2 < y1 {
        assert(y1 * side >= (y2 + 1) * side) by (nonlinear_arith)
            requires
                y2 + 1 <= y1,
                0 < side,
        ;
        assert((y2 + 1) * side == y2 * side + side) by (nonlinear_arith);
    }
}

/// The side of a square is determined by the number of its cells.
pub proof fn lemma_side_unique(len: int, s: int, t: int)
    requires
        0 <= s,
        0 <= t,
        s * s == len,
        t * t == len,
    ensures
        s == t,
{
    if s < t {
        assert(s * s < t * t) by (nonlinear_arith)
            requires
                0 <= s < t,
        ;
    } else if t < s {
        assert(t * t < s * s) by (nonlinear_arith)
            requires
                0 <= t < s,
        ;
    }
}

/// The side of the buffer when it is a square that tiles evenly, `None` for
/// every other length.
pub fn verify_length<T>(buffer: &[T]) -> (side: Option<usize>)
    ensures
        match side {
            Some(s) => is_tiled_square(buffer@.len() as int, s as int),
            None => forall|s: int| !is_tiled_square(buffer@.len() as int, s),
        },
{
    let len: u128 = buffer.len() as u128;
    let mut s: u128 = 0;
    while s * s < len
        invariant
            len == buffer@.len(),
            len <= usize::MAX,
            s % 8 == 0,
            s <= 0x1_0000_0008,
            s * s <= 0x1_0000_0010_0000_0040,
            s == 0 || (s - 8) * (s - 8) < len,
        decreases 0x1_0000_0010 - s,
    {
        proof {
            assert(s < 0x1_0000_0000) by (nonlinear_arith)
                requires
                    s * s < len,
                    len <= 0xffff_ffff_ffff_ffff,
                    0 <= s,
            ;
        }
        s = s + 8;
        proof {
            assert(s * s <= 0x1_0000_0010_0000_0040) by (nonlinear_arith)
                requires
                    0 <= s <= 0x1_0000_0008,
            ;
        }
    }
    if s * s == len {
        proof {
            assert(s <= len) by (nonlinear_arith)
                requires
                    s * s == len,
                    0 <= s,
            ;
        }
        Some(s as usize)
    } else {
        proof {
            assert forall|t: int| !is_tiled_square(len as int, t) by {
                if is_tiled_square(len as int, t) {
                    if t >= s {
                        assert(t * t >= s * s) by (nonlinear_arith)
                            requires
                                0 <= s <= t,
                        ;
                    } else {
                        assert(t <= s - 8);
                        assert(t * t <= (s - 8) * (s - 8)) by (nonlinear_arith)
                            requires
                                0 <= t <= s - 8,
                        ;
                    }
                }
            }
        }
        None
    }
}

/// Exchanges every cell of tile `(block_x, block_y)` with its mirror image in
/// tile `(block_y, block_x)`.
#[verifier::rlimit(50)]
pub fn transpose_block<T: Copy>(
    buffer: &mut [T],
    side_length: usize,
    block_x: usize,
    block_y: usize,
)
    requires
        is_tiled_square(old(buffer)@.len() as int, side_length as int),
        block_x != block_y,
        block_x < side_length / 8,
        block_y < side_length / 8,
    ensures
        final(buffer)@.len() == old(buffer)@.len(),
        forall|x: int, y: int|
            0 <= x < side_length && 0 <= y < side_length ==> final(buffer)@[#[trigger] at(
                side_length as int,
                x,
                y,
            )] == if (x / 8 == block_x && y / 8 == block_y) || (x / 8 == block_y && y / 8
                == block_x) {
                old(buffer)@[at(side_length as int, y, x)]
            } else {
                old(buffer)@[at(side_length as int, x, y)]
            },
{
    let ghost side = side_length as int;
    let ghost bx = block_x as int;
    let ghost by = block_y as int;
    let ghost before = buffer@;
    let len = buffer.len();
    let mut inner_x: usize = 0;
    while inner_x < BLOCK_SIZE
        invariant
            is_tiled_square(before.len() as int, side),
            side == side_length,
            bx == block_x,
            by == block_y,
            bx != by,
            bx < side / 8,
            by < side / 8,
            inner_x <= 8,
            buffer@.len() == before.len(),
            before.len() == len,
            forall|x: int, y: int|
                0 <= x < side && 0 <= y < side ==> buffer@[#[trigger] at(side, x, y)] == if
                    tile_done(bx, by, inner_x as int, 0, x, y) || tile_done(
                    bx,
                    by,
                    inner_x as int,
                    0,
                    y,
                    x,
                ) {
                    before[at(side, y, x)]
                } else {
                    before[at(side, x, y)]
                },
        decreases 8 - inner_x,
    {
        let mut inner_y: usize = 0;
        while inner_y < BLOCK_SIZE
            invariant
                is_tiled_square(before.len() as int, side),
                side == side_length,
                bx == block_x,
                by == block_y,
                bx != by,
                bx < side / 8,
                by < side / 8,
                inner_x < 8,
                inner_y <= 8,
                buffer@.len() == before.len(),
            before.len() == len,
                forall|x: int, y: int|
                    0 <= x < side && 0 <= y < side ==> buffer@[#[trigger] at(side, x, y)] == if
                        tile_done(bx, by, inner_x as int, inner_y as int, x, y) || tile_done(
                        bx,
                        by,
                        inner_x as int,
                        inner_y as int,
                        y,
                        x,
                    ) {
                        before[at(side, y, x)]
                    } else {
                        before[at(side, x, y)]
                    },
            decreases 8 - inner_y,
        {
            let x = block_x * BLOCK_SIZE + inner_x;
            let y = block_y * BLOCK_SIZE + inner_y;
            proof {
                assert(x < side && y < side);
                lemma_at_bounds(side, x as int, y as int);
                lemma_at_bounds(side, y as int, x as int);
                assert(0 <= y * side) by (nonlinear_arith)
                    requires
                        0 <= y,
                        0 <= side,
                ;
                assert(0 <= x * side) by (nonlinear_arith)
                    requires
                        0 <= x,
                        0 <= side,
                ;
            }
            let input_index = x + y * side_length;
            let output_index = y + x * side_length;
            let ghost mid = buffer@;
            let first = buffer[input_index];
            let second = buffer[output_index];
            buffer[input_index] = second;
            buffer[output_index] = first;
            proof {
                assert(input_index == at(side, x as int, y as int));
                assert(output_index == at(side, y as int, x as int));
                assert(mid[at(side, x as int, y as int)] == before[at(side, x as int, y as int)]);
                assert(mid[at(side, y as int, x as int)] == before[at(side, y as int, x as int)]);
                assert forall|u: int, v: int| 0 <= u < side && 0 <= v < side implies buffer@[#[trigger] at(
                    side,
                    u,
                    v,
                )] == if tile_done(bx, by, inner_x as int, inner_y + 1, u, v) || tile_done(
                    bx,
                    by,
                    inner_x as int,
                    inner_y + 1,
                    v,
                    u,
                ) {
                    before[at(side, v, u)]
                } else {
                    before[at(side, u, v)]
                } by {
                    lemma_at_bounds(side, u, v);
                    if at(side, u, v) == at(side, x as int, y as int) {
                        lemma_at_injective(side, u, v, x as int, y as int);
                    }
                    if at(side, u, v) == at(side, y as int, x as int) {
                        lemma_at_injective(side, u, v, y as int, x as int);
                    }
                }
            }
            inner_y = inner_y + 1;
        }
        inner_x = inner_x + 1;
    }
}

/// Mirrors tile `(diagonal_index, diagonal_index)` across its own diagonal.
#[verifier::rlimit(50)]
pub fn transpose_diagonal_block<T: Copy>(
    buffer: &mut [T],
    side_length: usize,
    diagonal_index: usize,
)
    requires
        is_tiled_square(old(buffer)@.len() as int, side_length as int),
        diagonal_index < side_length / 8,
    ensures
        final(buffer)@.len() == old(buffer)@.len(),
        forall|x: int, y: int|
            0 <= x < side_length && 0 <= y < side_length ==> final(buffer)@[#[trigger] at(
                side_length as int,
                x,
                y,
            )] == if x / 8 == diagonal_index && y / 8 == diagonal_index {
                old(buffer)@[at(side_length as int, y, x)]
            } else {
                old(buffer)@[at(side_length as int, x, y)]
            },
{
    let ghost side = side_length as int;
    let ghost d = diagonal_index as int;
    let ghost before = buffer@;
    let len = buffer.len();
    let mut inner_x: usize = 0;
    while inner_x < BLOCK_SIZE
        invariant
            is_tiled_square(before.len() as int, side),
            side == side_length,
            d == diagonal_index,
            d < side / 8,
            inner_x <= 8,
            buffer@.len() == before.len(),
            before.len() == len,
            forall|x: int, y: int|
                0 <= x < side && 0 <= y < side ==> buffer@[#[trigger] at(side, x, y)] == if
                    diagonal_done(d, inner_x as int, 0, x, y) || diagonal_done(
                    d,
                    inner_x as int,
                    0,
                    y,
                    x,
                ) {
                    before[at(side, y, x)]
                } else {
                    before[at(side, x, y)]
                },
        decreases 8 - inner_x,
    {
        let mut inner_y: usize = inner_x + 1;
        while inner_y < BLOCK_SIZE
            invariant
                is_tiled_square(before.len() as int, side),
                side == side_length,
                d == diagonal_index,
                d < side / 8,
                inner_x < 8,
                inner_x < inner_y <= 8,
                buffer@.len() == before.len(),
                before.len() == len,
                forall|x: int, y: int|
                    0 <= x < side && 0 <= y < side ==> buffer@[#[trigger] at(side, x, y)] == if
                        diagonal_done(d, inner_x as int, inner_y as int, x, y) || diagonal_done(
                        d,
                        inner_x as int,
                        inner_y as int,
                        y,
                        x,
                    ) {
                        before[at(side, y, x)]
                    } else {
                        before[at(side, x, y)]
                    },
            decreases 8 - inner_y,
        {
            let x = diagonal_index * BLOCK_SIZE + inner_x;
            let y = diagonal_index * BLOCK_SIZE + inner_y;
            proof {
                assert(x < side && y < side);
                lemma_at_bounds(side, x as int, y as int);
                lemma_at_bounds(side, y as int, x as int);
                assert(0 <= y * side) by (nonlinear_arith)
                    requires
                        0 <= y,
                        0 <= side,
                ;
                assert(0 <= x * side) by (nonlinear_arith)
                    requires
                        0 <= x,
                        0 <= side,
                ;
            }
            let input_index = x + y * side_length;
            let output_index = y + x * side_length;
            let ghost mid = buffer@;
            let first = buffer[input_index];
            let second = buffer[output_index];
            buffer[input_index] = second;
            buffer[output_index] = first;
            proof {
                assert(input_index == at(side, x as int, y as int));
                assert(output_index == at(side, y as int, x as int));
                assert(mid[at(side, x as int, y as int)] == before[at(side, x as int, y as int)]);
                assert(mid[at(side, y as int, x as int)] == before[at(side, y as int, x as int)]);
                assert forall|u: int, v: int| 0 <= u < side && 0 <= v < side implies buffer@[#[trigger] at(
                    side,
                    u,
                    v,
                )] == if diagonal_done(d, inner_x as int, inner_y + 1, u, v) || diagonal_done(
                    d,
                    inner_x as int,
                    inner_y + 1,
                    v,
                    u,
                ) {
                    before[at(side, v, u)]
                } else {
                    before[at(side, u, v)]
                } by {
                    lemma_at_bounds(side, u, v);
                    if at(side, u, v) == at(side, x as int, y as int) {
                        lemma_at_injective(side, u, v, x as int, y as int);
                    }
                    if at(side, u, v) == at(side, y as int, x as int) {
                        lemma_at_injective(side, u, v, y as int, x as int);
                    }
                }
            }
            inner_y = inner_y + 1;
        }
        inner_x = inner_x + 1;
    }
}

/// Transposes, in place and tile by tile, a square buffer stored row by row.
#[verifier::rlimit(50)]
pub fn transpose_square_inplace<T: Copy>(buffer: &mut [T])
    requires
        exists|s: int| is_tiled_square(old(buffer)@.len() as int, s),
    ensures
        forall|s: int|
            is_tiled_square(old(buffer)@.len() as int, s) ==> is_transpose(
                old(buffer)@,
                final(buffer)@,
                s,
            ),
{
    let ghost before = buffer@;
    let side_length = match verify_length(buffer) {
        Some(s) => s,
        None => {
            return ;
        },
    };
    let ghost side = side_length as int;
    let block_count = side_length / BLOCK_SIZE;
    let mut y_block: usize = 0;
    while y_block < block_count
        invariant
            is_tiled_square(before.len() as int, side),
            side == side_length,
            block_count == side / 8,
            y_block <= block_count,
            buffer@.len() == before.len(),
            forall|x: int, y: int|
                0 <= x < side && 0 <= y < side ==> buffer@[#[trigger] at(side, x, y)] == if
                    pair_done(y_block as int, y_block as int, x, y) {
                    before[at(side, y, x)]
                } else {
                    before[at(side, x, y)]
                },
        decreases block_count - y_block,
    {
        transpose_diagonal_block(buffer, side_length, y_block);
        let mut x_block: usize = y_block + 1;
        while x_block < block_count
            invariant
                is_tiled_square(before.len() as int, side),
                side == side_length,
                block_count == side / 8,
                y_block < block_count,
                y_block < x_block <= block_count,
                buffer@.len() == before.len(),
                forall|x: int, y: int|
                    0 <= x < side && 0 <= y < side ==> buffer@[#[trigger] at(side, x, y)] == if
                        pair_done(y_block as int, x_block as int, x, y) {
                        before[at(side, y, x)]
                    } else {
                        before[at(side, x, y)]
                    },
            decreases block_count - x_block,
        {
            transpose_block(buffer, side_length, x_block, y_block);
            x_block = x_block + 1;
        }
        y_block = y_block + 1;
    }
    proof {
        assert forall|s: int| is_tiled_square(before.len() as int, s) implies is_transpose(
            before,
            buffer@,
            s,
        ) by {
            lemma_side_unique(before.len() as int, s, side);
            assert forall|x: int, y: int| 0 <= x < side && 0 <= y < side implies buffer@[#[trigger] at(
                side,
                y,
                x,
            )] == before[at(side, x, y)] by {
                assert(pair_done(block_count as int, block_count as int, y, x));
            }
        }
    }
}

/// Transposing twice gives the buffer back: the transpose of a transpose of
/// `a` is `a` itself.
pub proof fn lemma_transpose_involution<T>(a: Seq<T>, b: Seq<T>, c: Seq<T>, side: int)
    requires
        is_transpose(a, b, side),
        is_transpose(b, c, side),
    ensures
        c == a,
{
    assert forall|i: int| 0 <= i < a.len() implies c[i] == a[i] by {
        let x = i % side;
        let y = i / side;
        assert(0 < side) by (nonlinear_arith)
            requires
                side * side > 0,
                0 <= side,
        ;
        vstd::arithmetic::div_mod::lemma_fundamental_div_mod(i, side);
        vstd::arithmetic::div_mod::lemma_mod_bound(i, side);
        assert(side * y == y * side) by (nonlinear_arith);
        assert(0 <= y < side) by (nonlinear_arith)
            requires
                0 <= i < side * side,
                i == side * y + x,
                0 <= x < side,
        ;
        assert(i == at(side, x, y));
        lemma_at_bounds(side, y, x);
        assert(c[at(side, x, y)] == b[at(side, y, x)]);
        assert(b[at(side, y, x)] == a[at(side, x, y)]);
    }
    assert(c =~= a);
}

} // verus!
