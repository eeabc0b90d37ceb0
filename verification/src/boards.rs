//! The boards drawn from a formula of the pixel position: a centered rectangle, and a crank
//! shaped corridor.

use vstd::prelude::*;

verus! {

/// The absolute value.
pub open spec fn abs(v: int) -> int {
    if v < 0 { -v } else { v }
}

/// A pixel of the rectangle board: within a quarter of the board's size from its center.
pub open spec fn rect_pixel_spec(xs: int, ys: int, x: int, y: int) -> bool {
    let dx = x - xs / 2;
    let dy = y - ys / 2;
    abs(dx) < xs / 4 && abs(dy) < ys / 4
}

/// A pixel of the crank board: a wide, low corridor through the center, with a notch cut
/// from its upper side on the left and from its lower side on the right.
pub open spec fn crank_pixel_spec(xs: int, ys: int, x: int, y: int) -> bool {
    let dx = x - xs / 2;
    let dy = y - ys / 2;
    &&& abs(dx) < xs * 3 / 8
    &&& abs(dy) < ys / 8
    &&& !(-(xs * 3 / 16) < dx && dx < -(xs * 2 / 16) && -(ys / 16) < dy)
    &&& !(xs * 2 / 16 < dx && dx < xs * 3 / 16 && dy < ys / 16)
}

/// The sizes of a board whose pixels fit in memory and whose formulas stay within `i64`.
pub open spec fn drawable(shape: (usize, usize)) -> bool {
    &&& shape.0 * shape.1 <= isize::MAX
    &&& shape.0 <= 0x1000_0000_0000
    &&& shape.1 <= 0x1000_0000_0000
}

fn abs_i64(v: i64) -> (res: i64)
    requires
        v > i64::MIN,
    ensures
        res == abs(v as int),
{
    if v < 0 { -v } else { v }
}

/// Whether the pixel `(x, y)` belongs to the rectangle board of the given shape.
pub fn rect_pixel(shape: (usize, usize), x: usize, y: usize) -> (res: bool)
    requires
        drawable(shape),
        x <= isize::MAX,
        y <= isize::MAX,
    ensures
        res == rect_pixel_spec(shape.0 as int, shape.1 as int, x as int, y as int),
{
    let xs = shape.0 as i64;
    let ys = shape.1 as i64;
    let dx = x as i64 - xs / 2;
    let dy = y as i64 - ys / 2;
    abs_i64(dx) < xs / 4 && abs_i64(dy) < ys / 4
}

/// Whether the pixel `(x, y)` belongs to the crank board of the given shape.
pub fn crank_pixel(shape: (usize, usize), x: usize, y: usize) -> (res: bool)
    requires
        drawable(shape),
        x <= isize::MAX,
        y <= isize::MAX,
    ensures
        res == crank_pixel_spec(shape.0 as int, shape.1 as int, x as int, y as int),
{
    let xs = shape.0 as i64;
    let ys = shape.1 as i64;
    let dx = x as i64 - xs / 2;
    let dy = y as i64 - ys / 2;
    abs_i64(dx) < xs * 3 / 8
        && abs_i64(dy) < ys / 8
        && !(-(xs * 3 / 16) < dx && dx < -(xs * 2 / 16) && -(ys / 16) < dy)
        && !(xs * 2 / 16 < dx && dx < xs * 3 / 16 && dy < ys / 16)
}

/// A board of the given shape, stored row by row, whose pixel `i` is `f(i % shape.0, i / shape.0)`:
/// the column and the row of pixel `i` on a board `shape.0` pixels wide.
pub fn fill_board<F: Fn(usize, usize) -> bool>(shape: (usize, usize), f: &F) -> (board: Vec<bool>)
    requires
        drawable(shape),
        forall|x: usize, y: usize| x <= isize::MAX && y <= isize::MAX ==> #[trigger] f.requires((x, y)),
    ensures
        board.len() == shape.0 * shape.1,
        forall|i: int| 0 <= i < board.len() ==>
            f.ensures(((i % shape.0 as int) as usize, (i / shape.0 as int) as usize), #[trigger] board@[i]),
{
    let n = shape.0 * shape.1;
    let mut board: Vec<bool> = Vec::new();
    let mut i: usize = 0;
    while i < n
        invariant
            n == shape.0 * shape.1,
            drawable(shape),
            forall|x: usize, y: usize| x <= isize::MAX && y <= isize::MAX ==> #[trigger] f.requires((x, y)),
            i <= n,
            board.len() == i,
            forall|j: int| 0 <= j < i ==>
                f.ensures(((j % shape.0 as int) as usize, (j / shape.0 as int) as usize), #[trigger] board@[j]),
        decreases n - i,
    {
        proof {
            assert(shape.0 > 0 && shape.1 > 0) by (nonlinear_arith)
                requires
                    i < n,
                    n == shape.0 * shape.1,
            ;
        }
        proof {
            lemma_index_coords(shape, i as int);
        }
        let x = i % shape.0;
        let y = i / shape.0;
        let b = f(x, y);
        board.push(b);
        i += 1;
    }
    board
}

/// The rectangle board: a free rectangle, half the board's size, in its center.
pub fn rect_board(shape: (usize, usize)) -> (board: Vec<bool>)
    requires
        drawable(shape),
    ensures
        board.len() == shape.0 * shape.1,
        forall|i: int| 0 <= i < board.len() ==> #[trigger] board@[i]
            == rect_pixel_spec(shape.0 as int, shape.1 as int, i % shape.0 as int, i / shape.0 as int),
{
    let f = |x: usize, y: usize| -> (b: bool)
        requires
            drawable(shape),
            x <= isize::MAX,
            y <= isize::MAX,
        ensures
            b == rect_pixel_spec(shape.0 as int, shape.1 as int, x as int, y as int),
    { rect_pixel(shape, x, y) };
    let board = fill_board(shape, &f);
    proof {
        assert forall|i: int| 0 <= i < board.len() implies #[trigger] board@[i]
            == rect_pixel_spec(shape.0 as int, shape.1 as int, i % shape.0 as int, i / shape.0 as int) by {
            lemma_index_coords(shape, i);
        }
    }
    board
}

/// The crank board: a corridor through the center with a notch on each side.
pub fn crank_board(shape: (usize, usize)) -> (board: Vec<bool>)
    requires
        drawable(shape),
    ensures
        board.len() == shape.0 * shape.1,
        forall|i: int| 0 <= i < board.len() ==> #[trigger] board@[i]
            == crank_pixel_spec(shape.0 as int, shape.1 as int, i % shape.0 as int, i / shape.0 as int),
{
    let f = |x: usize, y: usize| -> (b: bool)
        requires
            drawable(shape),
            x <= isize::MAX,
            y <= isize::MAX,
        ensures
            b == crank_pixel_spec(shape.0 as int, shape.1 as int, x as int, y as int),
    { crank_pixel(shape, x, y) };
    let board = fill_board(shape, &f);
    proof {
        assert forall|i: int| 0 <= i < board.len() implies #[trigger] board@[i]
            == crank_pixel_spec(shape.0 as int, shape.1 as int, i % shape.0 as int, i / shape.0 as int) by {
            lemma_index_coords(shape, i);
        }
    }
    board
}

/// The coordinates that `fill_board` gives the pixel `i` fit where the formulas take them.
proof fn lemma_index_coords(shape: (usize, usize), i: int)
    requires
        drawable(shape),
        0 <= i < shape.0 * shape.1,
    ensures
        0 <= i % shape.0 as int <= i,
        0 <= i / shape.0 as int <= i,
        ((i % shape.0 as int) as usize) as int == i % shape.0 as int,
        ((i / shape.0 as int) as usize) as int == i / shape.0 as int,
        i <= isize::MAX,
{
    assert(shape.0 > 0 && shape.1 > 0) by (nonlinear_arith)
        requires
            0 <= i < shape.0 * shape.1,
    ;
    let (m, h) = (shape.0 as int, shape.1 as int);
    vstd::arithmetic::div_mod::lemma_mod_bound(i, m);
    vstd::arithmetic::div_mod::lemma_fundamental_div_mod(i, m);
    vstd::arithmetic::div_mod::lemma_div_pos_is_pos(i, m);
    assert(m * (i / m) >= 0) by (nonlinear_arith)
        requires
            m > 0,
            i / m >= 0,
    ;
    vstd::arithmetic::div_mod::lemma_div_is_ordered_by_denominator(i, 1, h);
    vstd::arithmetic::div_mod::lemma_div_pos_is_pos(i, h);
    assert(i / 1 == i);
    assert(shape.0 * shape.1 <= isize::MAX);
}

} // verus!
