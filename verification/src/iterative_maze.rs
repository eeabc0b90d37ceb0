//! The cellular automaton that turns a random board into caves: a cell becomes a wall where
//! walls crowd its close neighborhood or are scarce in its wide one.

use vstd::prelude::*;

verus! {

/// The number of times the automaton runs over the board.
pub const ITERATIONS: usize = 7;
/// The radius of the close neighborhood.
pub const NARROW_CELL: usize = 2;
/// A cell with at least this many walls in its close neighborhood becomes a wall.
pub const NARROW_THRESHOLD: usize = 12;
/// The radius of the wide neighborhood, and the width of the margin that the automaton leaves
/// alone.
pub const WIDE_CELL: usize = 4;
/// A cell with at most this many walls in its wide neighborhood becomes a wall.
pub const WIDE_THRESHOLD: usize = 8;

/// `(x, y)` lies on a board of the given shape.
pub open spec fn on_shape(shape: (usize, usize), x: int, y: int) -> bool {
    0 <= x < shape.0 && 0 <= y < shape.1
}

/// The walls in row `y` among the columns `x_lo..x_hi`.
pub open spec fn row_walls(b: Seq<bool>, shape: (usize, usize), y: int, x_lo: int, x_hi: int) -> nat
    decreases x_hi - x_lo,
{
    if x_hi <= x_lo {
        0
    } else {
        row_walls(b, shape, y, x_lo, x_hi - 1) + if on_shape(shape, x_hi - 1, y) && !b[y * shape.0 + x_hi - 1] {
            1nat
        } else {
            0nat
        }
    }
}

/// The walls among the columns `x_lo..x_hi` of the rows `y_lo..y_hi`.
pub open spec fn window_walls(b: Seq<bool>, shape: (usize, usize), x_lo: int, x_hi: int, y_lo: int, y_hi: int) -> nat
    decreases y_hi - y_lo,
{
    if y_hi <= y_lo {
        0
    } else {
        window_walls(b, shape, x_lo, x_hi, y_lo, y_hi - 1) + row_walls(b, shape, y_hi - 1, x_lo, x_hi)
    }
}

/// The walls within `radius` of `(x, y)`, the cell itself included.
pub open spec fn walls_around(b: Seq<bool>, shape: (usize, usize), x: int, y: int, radius: int) -> nat {
    window_walls(b, shape, x - radius, x + radius + 1, y - radius, y + radius + 1)
}

/// The cell `(x, y)` lies inside the margin that the automaton leaves alone.
pub open spec fn interior(shape: (usize, usize), x: int, y: int) -> bool {
    WIDE_CELL <= x < shape.0 - WIDE_CELL && WIDE_CELL <= y < shape.1 - WIDE_CELL
}

/// Whether the cell `(x, y)` is free after one run of the automaton.
pub open spec fn next_free(b: Seq<bool>, shape: (usize, usize), x: int, y: int) -> bool {
    !(NARROW_THRESHOLD <= walls_around(b, shape, x, y, NARROW_CELL as int)
        || walls_around(b, shape, x, y, WIDE_CELL as int) <= WIDE_THRESHOLD)
}

proof fn lemma_row_walls_bound(b: Seq<bool>, shape: (usize, usize), y: int, x_lo: int, x_hi: int)
    ensures
        row_walls(b, shape, y, x_lo, x_hi) <= if x_hi > x_lo { x_hi - x_lo } else { 0 },
    decreases x_hi - x_lo,
{
    if x_hi > x_lo {
        lemma_row_walls_bound(b, shape, y, x_lo, x_hi - 1);
    }
}

/// The number of walls within `radius` of the interior cell `(x, y)`.
fn count_walls(board: &Vec<bool>, shape: (usize, usize), x: usize, y: usize, radius: usize) -> (count: usize)
    requires
        board.len() == shape.0 * shape.1,
        shape.0 * shape.1 <= usize::MAX,
        radius <= WIDE_CELL,
        interior(shape, x as int, y as int),
    ensures
        count == walls_around(board@, shape, x as int, y as int, radius as int),
{
    let on_board = |x: usize, y: usize| -> (res: bool)
        ensures res == (x < shape.0 && y < shape.1)
    { x < shape.0 && y < shape.1 };
    let mut count: usize = 0;
    let mut ty = y - radius;
    while ty <= y + radius
        invariant
            board.len() == shape.0 * shape.1,
            interior(shape, x as int, y as int),
            radius <= WIDE_CELL,
            y - radius <= ty <= y + radius + 1,
            count == window_walls(board@, shape, x - radius, x + radius + 1, y - radius, ty as int),
            count <= (ty - (y - radius)) * 9,
            forall|a: usize, b: usize| #[trigger] on_board.requires((a, b)),
            forall|a: usize, b: usize, r: bool| on_board.ensures((a, b), r) ==> r == (a < shape.0 && b < shape.1),
        decreases y + radius + 1 - ty,
    {
        let mut tx = x - radius;
        while tx <= x + radius
            invariant
                board.len() == shape.0 * shape.1,
                interior(shape, x as int, y as int),
                radius <= WIDE_CELL,
                y - radius <= ty <= y + radius,
                x - radius <= tx <= x + radius + 1,
                count == window_walls(board@, shape, x - radius, x + radius + 1, y - radius, ty as int)
                    + row_walls(board@, shape, ty as int, x - radius, tx as int),
                count <= (ty - (y - radius)) * 9 + (tx - (x - radius)),
                forall|a: usize, b: usize| #[trigger] on_board.requires((a, b)),
                forall|a: usize, b: usize, r: bool| on_board.ensures((a, b), r) ==> r == (a < shape.0 && b < shape.1),
            decreases x + radius + 1 - tx,
        {
            proof {
                crate::dijkstra::lemma_rect_index(tx as int, ty as int, shape.0 as int, shape.1 as int);
                assert(ty * shape.0 + tx == tx + ty * shape.0) by (nonlinear_arith);
            }
            if on_board(tx, ty) && !board[ty * shape.0 + tx] {
                count += 1;
            }
            tx += 1;
        }
        ty += 1;
    }
    count
}

/// One run of the automaton over the board: the cells inside the margin of `temp` are set from
/// `board`, and the rest of `temp` is left alone.
pub fn iterate_map(board: &Vec<bool>, temp: &mut Vec<bool>, shape: (usize, usize))
    requires
        board.len() == shape.0 * shape.1,
        old(temp).len() == board.len(),
    ensures
        final(temp).len() == old(temp).len(),
        forall|x: int, y: int| on_shape(shape, x, y) ==> #[trigger] final(temp)@[y * shape.0 + x]
            == if interior(shape, x, y) { next_free(board@, shape, x, y) } else { old(temp)@[y * shape.0 + x] },
{
    if shape.1 < WIDE_CELL * 2 || shape.0 < WIDE_CELL * 2 {
        return;
    }
    let ghost t0 = temp@;
    let mut y = WIDE_CELL;
    while y < shape.1 - WIDE_CELL
        invariant
            board.len() == shape.0 * shape.1,
            temp.len() == board.len(),
            WIDE_CELL * 2 <= shape.1,
            WIDE_CELL * 2 <= shape.0,
            WIDE_CELL <= y <= shape.1 - WIDE_CELL,
            forall|x2: int, y2: int| on_shape(shape, x2, y2) ==> #[trigger] temp@[y2 * shape.0 + x2]
                == if interior(shape, x2, y2) && y2 < y { next_free(board@, shape, x2, y2) } else { t0[y2 * shape.0 + x2] },
        decreases shape.1 - y,
    {
        let mut x = WIDE_CELL;
        while x < shape.0 - WIDE_CELL
            invariant
                board.len() == shape.0 * shape.1,
                temp.len() == board.len(),
                WIDE_CELL * 2 <= shape.1,
                WIDE_CELL * 2 <= shape.0,
                WIDE_CELL <= y < shape.1 - WIDE_CELL,
                WIDE_CELL <= x <= shape.0 - WIDE_CELL,
                forall|x2: int, y2: int| on_shape(shape, x2, y2) ==> #[trigger] temp@[y2 * shape.0 + x2]
                    == if interior(shape, x2, y2) && (y2 < y || (y2 == y && x2 < x)) {
                        next_free(board@, shape, x2, y2)
                    } else {
                        t0[y2 * shape.0 + x2]
                    },
            decreases shape.0 - x,
        {
            let narrow_count = count_walls(board, shape, x, y, NARROW_CELL);
            let wide_count = count_walls(board, shape, x, y, WIDE_CELL);
            let is_wall = NARROW_THRESHOLD <= narrow_count || wide_count <= WIDE_THRESHOLD;
            proof {
                crate::dijkstra::lemma_rect_index(x as int, y as int, shape.0 as int, shape.1 as int);
                assert(y * shape.0 + x == x + y * shape.0) by (nonlinear_arith);
            }
            let ghost before = temp@;
            temp.set(y * shape.0 + x, !is_wall);
            proof {
                assert forall|x2: int, y2: int| on_shape(shape, x2, y2) implies #[trigger] temp@[y2 * shape.0 + x2]
                    == if interior(shape, x2, y2) && (y2 < y || (y2 == y && x2 < x + 1)) {
                        next_free(board@, shape, x2, y2)
                    } else {
                        t0[y2 * shape.0 + x2]
                    } by {
                    crate::dijkstra::lemma_rect_index(x2, y2, shape.0 as int, shape.1 as int);
                    assert(y2 * shape.0 + x2 == x2 + y2 * shape.0) by (nonlinear_arith);
                    if x2 + y2 * shape.0 == x + y * shape.0 {
                        crate::dijkstra::lemma_rect_index_injective(x2, y2, x as int, y as int, shape.0 as int);
                    } else {
                        assert(temp@[y2 * shape.0 + x2] == before[y2 * shape.0 + x2]);
                    }
                }
            }
            x += 1;
        }
        y += 1;
    }
}

/// The board after one run of the automaton: the cells inside the margin follow their
/// neighborhoods, and the others keep their state.
pub open spec fn iterated(b: Seq<bool>, shape: (usize, usize)) -> Seq<bool> {
    Seq::new(b.len(), |i: int| {
        let x = i % shape.0 as int;
        let y = i / shape.0 as int;
        if interior(shape, x, y) { next_free(b, shape, x, y) } else { b[i] }
    })
}

/// The board after `n` runs of the automaton.
pub open spec fn iterated_n(b: Seq<bool>, shape: (usize, usize), n: nat) -> Seq<bool>
    decreases n,
{
    if n == 0 { b } else { iterated(iterated_n(b, shape, (n - 1) as nat), shape) }
}

/// Runs the automaton `ITERATIONS` times over the board. The cells of the margin keep their
/// state throughout.
pub fn iterate_maze(board: Vec<bool>, shape: (usize, usize)) -> (res: Vec<bool>)
    requires
        board.len() == shape.0 * shape.1,
    ensures
        res@ == iterated_n(board@, shape, ITERATIONS as nat),
{
    let ghost b0 = board@;
    let mut board = board;
    let mut temp: Vec<bool> = Vec::new();
    let mut i: usize = 0;
    while i < board.len()
        invariant
            i <= board.len(),
            temp.len() == i,
            forall|j: int| 0 <= j < i ==> temp@[j] == board@[j],
        decreases board.len() - i,
    {
        temp.push(board[i]);
        i += 1;
    }
    proof {
        assert forall|x: int, y: int| on_shape(shape, x, y) && !interior(shape, x, y) implies
            #[trigger] temp@[y * shape.0 + x] == board@[y * shape.0 + x] by {
            crate::dijkstra::lemma_rect_index(x, y, shape.0 as int, shape.1 as int);
            assert(y * shape.0 + x == x + y * shape.0) by (nonlinear_arith);
        }
    }
    let mut n: usize = 0;
    while n < ITERATIONS
        invariant
            board.len() == shape.0 * shape.1,
            temp.len() == board.len(),
            n <= ITERATIONS,
            board@ == iterated_n(b0, shape, n as nat),
            forall|x: int, y: int| on_shape(shape, x, y) && !interior(shape, x, y) ==>
                #[trigger] temp@[y * shape.0 + x] == board@[y * shape.0 + x],
        decreases ITERATIONS - n,
    {
        let ghost prev = board@;
        iterate_map(&board, &mut temp, shape);
        std::mem::swap(&mut board, &mut temp);
        proof {
            assert forall|j: int| 0 <= j < board.len() implies #[trigger] board@[j] == iterated(prev, shape)[j] by {
                let x = j % shape.0 as int;
                let y = j / shape.0 as int;
                assert(shape.0 > 0) by {
                    if shape.0 == 0 { assert(board.len() == 0); }
                }
                crate::maze::lemma_coords_in_grid(j, shape.0 as int, shape.1 as int);
                assert(y * shape.0 + x == j) by (nonlinear_arith) requires x + y * shape.0 == j;
                assert(on_shape(shape, x, y));
            }
            assert(board@ =~= iterated(prev, shape));
            assert forall|x: int, y: int| on_shape(shape, x, y) && !interior(shape, x, y) implies
                #[trigger] temp@[y * shape.0 + x] == board@[y * shape.0 + x] by {
                assert(board@[y * shape.0 + x] == prev[y * shape.0 + x]);
            }
        }
        n += 1;
    }
    board
}

} // verus!
