//! The game's board kinds, settings and bookkeeping, and the integer passability query.

use vstd::prelude::*;
use std::rc::Rc;
use crate::qtree::{CellState, QTreeSearcher, Rect, unit_rect, shape_extent, is_log2ceil};

verus! {

/// The kind of board a game is played on.
#[derive(Debug, Clone, Copy, PartialEq, Eq, Structural)]
pub enum BoardType {
    Rect,
    Crank,
    Perlin,
    Rooms,
    Maze,
    IterativeMaze,
}

/// The state of a game after a step: still running, or won by a team.
#[derive(Debug, Clone, Copy, PartialEq, Eq, Structural)]
pub enum UpdateResult {
    Running,
    TeamWon(usize),
}

/// The planner that agents use to avoid each other.
#[derive(Debug, Clone, Copy, PartialEq, Eq, Structural)]
pub enum AvoidanceMode {
    Kinematic,
    Rrt,
    RrtStar,
}

/// The behavior tree sources of a team.
#[derive(Clone, Debug, Default)]
pub struct TeamConfig {
    pub agent_source: Rc<String>,
    pub spawner_source: Rc<String>,
}

/// What a team has achieved so far.
#[derive(Clone, Copy, Debug, Default)]
pub struct TeamStats {
    pub spawned: usize,
    pub kills: usize,
    pub wins: usize,
}

/// The cell `pos` of a board stored row by row is on the board and passable.
pub open spec fn passable_at(board: Seq<bool>, shape: (usize, usize), pos: [i32; 2]) -> bool {
    &&& 0 <= pos[0] < shape.0
    &&& 0 <= pos[1] < shape.1
    &&& board[pos[0] + shape.0 * pos[1]]
}

/// An integer variant of `is_passable_at`.
pub fn is_passable_at_i(board: &[bool], shape: (usize, usize), pos: [i32; 2]) -> (res: bool)
    requires
        shape.0 <= isize::MAX,
        shape.1 <= isize::MAX,
        shape.0 * shape.1 <= board@.len(),
    ensures
        res == passable_at(board@, shape, pos),
{
    let x = pos[0] as isize;
    let y = pos[1] as isize;
    if x < 0 || shape.0 as isize <= x || y < 0 || shape.1 as isize <= y {
        false
    } else {
        let n: usize = board.len();
        let x = x as usize;
        let y = y as usize;
        proof {
            crate::dijkstra::lemma_rect_index(x as int, y as int, shape.0 as int, shape.1 as int);
            assert(shape.0 * y == y * shape.0) by (nonlinear_arith);
        }
        board[x + shape.0 * y]
    }
}

/// The box `b`, `[x0, y0, x1, y1]` with both ends included, holds the pixel `(x, y)`.
pub open spec fn box_holds(b: [i64; 4], x: int, y: int) -> bool {
    b[0] <= x <= b[2] && b[1] <= y <= b[3]
}

/// The id of the first of the boxes, from the `k`-th on, that holds the pixel `(x, y)`.
pub open spec fn first_box_from(boxes: Seq<(usize, [i64; 4])>, k: int, x: int, y: int) -> Option<usize>
    decreases boxes.len() - k,
{
    if k < 0 || k >= boxes.len() {
        None
    } else if box_holds(boxes[k].1, x, y) {
        Some(boxes[k].0)
    } else {
        first_box_from(boxes, k + 1, x, y)
    }
}

/// The state of the pixel `(x, y)` for the quad tree: an obstacle off the board or where the
/// board is not passable; otherwise occupied by the first entity whose box holds it, or free.
pub open spec fn pixel_state(board: Seq<bool>, shape: (usize, usize), boxes: Seq<(usize, [i64; 4])>, x: i32, y: i32) -> CellState {
    if !passable_at(board, shape, [x, y]) {
        CellState::Obstacle
    } else {
        match first_box_from(boxes, 0, x as int, y as int) {
            Some(id) => CellState::Occupied(id),
            None => CellState::Free,
        }
    }
}

/// The pixel `(x, y)` lies in the rectangle `r`.
pub open spec fn in_rect(r: Rect, x: int, y: int) -> bool {
    r[0] <= x < r[2] && r[1] <= y < r[3]
}

/// The state of a rectangle for the quad tree: `Mixed` when it holds both free and other
/// pixels, `Free` when all are free, the state of its first pixel when none is, and an
/// obstacle when it holds no pixel.
pub open spec fn rect_state(board: Seq<bool>, shape: (usize, usize), boxes: Seq<(usize, [i64; 4])>, r: Rect) -> CellState {
    if r[0] >= r[2] || r[1] >= r[3] {
        CellState::Obstacle
    } else if forall|x: i32, y: i32| in_rect(r, x as int, y as int) ==> #[trigger] pixel_state(board, shape, boxes, x, y) == CellState::Free {
        CellState::Free
    } else if forall|x: i32, y: i32| in_rect(r, x as int, y as int) ==> #[trigger] pixel_state(board, shape, boxes, x, y) != CellState::Free {
        pixel_state(board, shape, boxes, r[0], r[1])
    } else {
        CellState::Mixed
    }
}

/// The state of the pixel `(x, y)` for the quad tree (see `pixel_state`).
pub fn pixel_state_at(board: &[bool], shape: (usize, usize), boxes: &[(usize, [i64; 4])], x: i32, y: i32) -> (res: CellState)
    requires
        shape.0 <= isize::MAX,
        shape.1 <= isize::MAX,
        shape.0 * shape.1 <= board@.len(),
    ensures
        res == pixel_state(board@, shape, boxes@, x, y),
{
    if !is_passable_at_i(board, shape, [x, y]) {
        return CellState::Obstacle;
    }
    let mut k: usize = 0;
    while k < boxes.len()
        invariant
            k <= boxes.len(),
            passable_at(board@, shape, [x, y]),
            first_box_from(boxes@, 0, x as int, y as int) == first_box_from(boxes@, k as int, x as int, y as int),
        decreases boxes.len() - k,
    {
        let (id, b) = boxes[k];
        if b[0] <= x as i64 && x as i64 <= b[2] && b[1] <= y as i64 && y as i64 <= b[3] {
            proof {
                assert(box_holds(boxes@[k as int].1, x as int, y as int));
                assert(first_box_from(boxes@, k as int, x as int, y as int) == Some(id));
            }
            return CellState::Occupied(id);
        }
        k += 1;
    }
    CellState::Free
}

/// The state of the rectangle `rect` for the quad tree (see `rect_state`).
pub fn classify_rect(board: &[bool], shape: (usize, usize), boxes: &[(usize, [i64; 4])], rect: Rect) -> (res: CellState)
    requires
        shape.0 <= isize::MAX,
        shape.1 <= isize::MAX,
        shape.0 * shape.1 <= board@.len(),
    ensures
        res == rect_state(board@, shape, boxes@, rect),
{
    let ghost st = |x: i32, y: i32| pixel_state(board@, shape, boxes@, x, y);
    let ghost first = st(rect[0], rect[1]);
    let mut has_passable = false;
    let mut has_unpassable: Option<CellState> = None;
    let mut x = rect[0];
    while x < rect[2]
        invariant
            shape.0 <= isize::MAX,
            shape.1 <= isize::MAX,
            shape.0 * shape.1 <= board@.len(),
            st == (|x: i32, y: i32| pixel_state(board@, shape, boxes@, x, y)),
            first == st(rect[0], rect[1]),
            rect[0] <= x,
            x <= rect[2] || x == rect[0],
            has_passable <==> exists|x2: i32, y2: i32| in_rect(rect, x2 as int, y2 as int) && x2 < x && #[trigger] st(x2, y2) == CellState::Free,
            has_unpassable == if exists|x2: i32, y2: i32| in_rect(rect, x2 as int, y2 as int) && x2 < x && #[trigger] st(x2, y2) != CellState::Free {
                Some(first)
            } else {
                None::<CellState>
            },
            !(has_passable && has_unpassable is Some),
        decreases rect[2] - x,
    {
        let mut y = rect[1];
        while y < rect[3]
            invariant
                shape.0 <= isize::MAX,
                shape.1 <= isize::MAX,
                shape.0 * shape.1 <= board@.len(),
                st == (|x: i32, y: i32| pixel_state(board@, shape, boxes@, x, y)),
                first == st(rect[0], rect[1]),
                rect[0] <= x < rect[2],
                rect[1] <= y,
                y <= rect[3] || y == rect[1],
                has_passable <==> exists|x2: i32, y2: i32| in_rect(rect, x2 as int, y2 as int) && (x2 < x || (x2 == x && y2 < y))
                    && #[trigger] st(x2, y2) == CellState::Free,
                has_unpassable == if exists|x2: i32, y2: i32| in_rect(rect, x2 as int, y2 as int) && (x2 < x || (x2 == x && y2 < y))
                    && #[trigger] st(x2, y2) != CellState::Free {
                    Some(first)
                } else {
                    None::<CellState>
                },
                !(has_passable && has_unpassable is Some),
            decreases rect[3] - y,
        {
            let local = pixel_state_at(board, shape, boxes, x, y);
            proof {
                assert(in_rect(rect, x as int, y as int));
                if has_passable && local != CellState::Free {
                    let (x2, y2) = choose|x2: i32, y2: i32| in_rect(rect, x2 as int, y2 as int) && (x2 < x || (x2 == x && y2 < y))
                        && #[trigger] st(x2, y2) == CellState::Free;
                    assert(st(x2, y2) == CellState::Free);
                }
                if !has_passable && has_unpassable is None && local != CellState::Free {
                    // nothing was visited before: this is the first pixel
                    if y > rect[1] {
                        assert(in_rect(rect, x as int, rect[1] as int));
                    } else if x > rect[0] {
                        assert(in_rect(rect, rect[0] as int, rect[1] as int));
                    }
                }
            }
            if local == CellState::Free {
                has_passable = true;
            } else if has_unpassable.is_none() {
                has_unpassable = Some(local);
            }
            if has_passable && has_unpassable.is_some() {
                proof {
                    let (xa, ya) = if local == CellState::Free {
                        choose|x2: i32, y2: i32| in_rect(rect, x2 as int, y2 as int) && (x2 < x || (x2 == x && y2 < y))
                            && #[trigger] st(x2, y2) != CellState::Free
                    } else {
                        (x, y)
                    };
                    let (xb, yb) = if local == CellState::Free {
                        (x, y)
                    } else {
                        choose|x2: i32, y2: i32| in_rect(rect, x2 as int, y2 as int) && (x2 < x || (x2 == x && y2 < y))
                            && #[trigger] st(x2, y2) == CellState::Free
                    };
                    assert(st(xa, ya) != CellState::Free && in_rect(rect, xa as int, ya as int));
                    assert(st(xb, yb) == CellState::Free && in_rect(rect, xb as int, yb as int));
                    assert(pixel_state(board@, shape, boxes@, xa, ya) != CellState::Free);
                    assert(pixel_state(board@, shape, boxes@, xb, yb) == CellState::Free);
                }
                return CellState::Mixed;
            }
            y += 1;
        }
        x += 1;
    }
    proof {
        if rect[0] < rect[2] && rect[1] < rect[3] {
            assert(in_rect(rect, rect[0] as int, rect[1] as int));
            assert(x == rect[2]);
            if has_passable {
                assert forall|x2: i32, y2: i32| in_rect(rect, x2 as int, y2 as int) implies #[trigger] pixel_state(board@, shape, boxes@, x2, y2) == CellState::Free by {
                    assert(st(x2, y2) == pixel_state(board@, shape, boxes@, x2, y2));
                }
            } else {
                assert forall|x2: i32, y2: i32| in_rect(rect, x2 as int, y2 as int) implies #[trigger] pixel_state(board@, shape, boxes@, x2, y2) != CellState::Free by {
                    assert(st(x2, y2) == pixel_state(board@, shape, boxes@, x2, y2));
                }
                assert(st(rect[0], rect[1]) != CellState::Free);
            }
        }
    }
    if has_passable {
        CellState::Free
    } else if let Some(state) = has_unpassable {
        state
    } else {
        CellState::Obstacle
    }
}

/// Builds the quad tree searcher of a board, with the boxes of the entities on it: each pixel
/// holds `pixel_state`. The tree is consistent with its cache; a board narrower than 2
/// pixels in both directions leaves the searcher empty. A board with one side 0 and the other
/// at least 2 is left out: its cache would name no state for the pixels off the board, and
/// the first read of one fails. Sides are at most `0x8000`, so that the square cache of
/// `2^30` cells stays addressable.
pub fn new_qtree(shape: (usize, usize), board: &[bool], boxes: &[(usize, [i64; 4])]) -> (res: QTreeSearcher)
    requires
        shape.0 <= 0x8000,
        shape.1 <= 0x8000,
        (shape.0 > 0 && shape.1 > 0) || (shape.0 < 2 && shape.1 < 2),
        shape.0 * shape.1 <= board@.len(),
    ensures
        shape.0 < 2 && shape.1 < 2 ==> res.is_fresh(),
        !(shape.0 < 2 && shape.1 < 2) ==> {
            &&& res.consistent()
            &&& forall|x: int, y: int| 0 <= x < shape.0 && 0 <= y < shape.1 ==>
                #[trigger] res.cache().pixel(x, y) == pixel_state(board@, shape, boxes@, x as i32, y as i32)
        },
{
    let mut qtree = QTreeSearcher::new();
    let f = |rect: Rect| -> (st: CellState)
        requires
            shape.0 <= isize::MAX,
            shape.1 <= isize::MAX,
            shape.0 * shape.1 <= board@.len(),
        ensures
            st == rect_state(board@, shape, boxes@, rect),
    { classify_rect(board, shape, boxes, rect) };
    proof {
        assert forall|r: Rect, st: CellState| unit_rect(r) && #[trigger] f.ensures((r,), st) implies st != CellState::Mixed by {
            assert(in_rect(r, r[0] as int, r[1] as int));
            assert forall|x: i32, y: i32| in_rect(r, x as int, y as int) implies x == r[0] && y == r[1] by {}
            if pixel_state(board@, shape, boxes@, r[0], r[1]) == CellState::Free {
                assert forall|x: i32, y: i32| in_rect(r, x as int, y as int) implies #[trigger] pixel_state(board@, shape, boxes@, x, y) == CellState::Free by {
                    assert(x == r[0] && y == r[1]);
                }
            } else {
                assert forall|x: i32, y: i32| in_rect(r, x as int, y as int) implies #[trigger] pixel_state(board@, shape, boxes@, x, y) != CellState::Free by {
                    assert(x == r[0] && y == r[1]);
                }
            }
        }
    }
    let _ = qtree.initialize(shape, &f);
    proof {
        if !(shape.0 < 2 && shape.1 < 2) {
            assert forall|x: int, y: int| 0 <= x < shape.0 && 0 <= y < shape.1 implies
                #[trigger] qtree.cache().pixel(x, y) == pixel_state(board@, shape, boxes@, x as i32, y as i32) by {
                let r: Rect = [x as i32, y as i32, (x + 1) as i32, (y + 1) as i32];
                assert(f.ensures((r,), qtree.cache().pixel(x, y)));
                assert(in_rect(r, x, y));
                assert forall|x2: i32, y2: i32| in_rect(r, x2 as int, y2 as int) implies x2 == x && y2 == y by {}
                if pixel_state(board@, shape, boxes@, x as i32, y as i32) == CellState::Free {
                    assert forall|x2: i32, y2: i32| in_rect(r, x2 as int, y2 as int) implies #[trigger] pixel_state(board@, shape, boxes@, x2, y2) == CellState::Free by {
                        assert(x2 == x && y2 == y);
                    }
                } else {
                    assert forall|x2: i32, y2: i32| in_rect(r, x2 as int, y2 as int) implies #[trigger] pixel_state(board@, shape, boxes@, x2, y2) != CellState::Free by {
                        assert(x2 == x && y2 == y);
                    }
                }
            }
        }
    }
    qtree
}

/// The state a pixel has with no entity on it: free where the board is passable.
pub open spec fn background_state(board: Seq<bool>, shape: (usize, usize), pos: [i32; 2]) -> CellState {
    if passable_at(board, shape, pos) { CellState::Free } else { CellState::Obstacle }
}

/// The state an entity leaves on a pixel of its box: obstacles stay; a live entity, given by
/// its id, occupies the rest, and a gone one leaves the background.
pub open spec fn entity_pixel_state(board: Seq<bool>, shape: (usize, usize), pos: [i32; 2], occupant: Option<usize>) -> CellState {
    match occupant {
        Some(id) => if passable_at(board, shape, pos) { CellState::Occupied(id) } else { CellState::Obstacle },
        None => background_state(board, shape, pos),
    }
}

/// Writes into the searcher the state that an entity leaves on each pixel of its box `rect`
/// (see `entity_pixel_state`); pixels off the cache are skipped. The tree stays consistent with
/// its cache, and no pixel outside the box changes.
pub fn update_rect(searcher: &mut QTreeSearcher, board: &[bool], shape: (usize, usize), rect: Rect, occupant: Option<usize>)
    requires
        old(searcher).consistent(),
        shape.0 <= isize::MAX,
        shape.1 <= isize::MAX,
        shape.0 * shape.1 <= board@.len(),
    ensures
        final(searcher).consistent(),
        final(searcher).tree().toplevel == old(searcher).tree().toplevel,
        final(searcher).cache().spec_size() == old(searcher).cache().spec_size(),
        forall|x: int, y: int| final(searcher).cache().in_bounds(x, y) ==> #[trigger] final(searcher).cache().pixel(x, y) == if in_rect(rect, x, y) {
            entity_pixel_state(board@, shape, [x as i32, y as i32], occupant)
        } else {
            old(searcher).cache().pixel(x, y)
        },
{
    let ghost c0 = searcher.cache();
    let mut y = rect[1];
    while y < rect[3]
        invariant
            searcher.consistent(),
            shape.0 <= isize::MAX,
            shape.1 <= isize::MAX,
            shape.0 * shape.1 <= board@.len(),
            searcher.tree().toplevel == old(searcher).tree().toplevel,
            searcher.cache().spec_size() == c0.spec_size(),
            c0 == old(searcher).cache(),
            rect[1] <= y,
            y <= rect[3] || y == rect[1],
            forall|x2: int, y2: int| searcher.cache().in_bounds(x2, y2) ==> #[trigger] searcher.cache().pixel(x2, y2) ==
                if in_rect(rect, x2, y2) && y2 < y { entity_pixel_state(board@, shape, [x2 as i32, y2 as i32], occupant) } else { c0.pixel(x2, y2) },
        decreases rect[3] - y,
    {
        let mut x = rect[0];
        while x < rect[2]
            invariant
                searcher.consistent(),
                shape.0 <= isize::MAX,
                shape.1 <= isize::MAX,
                shape.0 * shape.1 <= board@.len(),
                searcher.tree().toplevel == old(searcher).tree().toplevel,
                searcher.cache().spec_size() == c0.spec_size(),
                rect[1] <= y < rect[3],
                rect[0] <= x,
                x <= rect[2] || x == rect[0],
                forall|x2: int, y2: int| searcher.cache().in_bounds(x2, y2) ==> #[trigger] searcher.cache().pixel(x2, y2) ==
                    if in_rect(rect, x2, y2) && (y2 < y || (y2 == y && x2 < x)) {
                        entity_pixel_state(board@, shape, [x2 as i32, y2 as i32], occupant)
                    } else {
                        c0.pixel(x2, y2)
                    },
            decreases rect[2] - x,
        {
            let passable = is_passable_at_i(board, shape, [x, y]);
            let state = match occupant {
                Some(id) => if passable { CellState::Occupied(id) } else { CellState::Obstacle },
                None => if passable { CellState::Free } else { CellState::Obstacle },
            };
            let ghost before = searcher.cache();
            let _ = searcher.update([x, y], state);
            proof {
                assert([x as int as i32, y as int as i32] =~= [x, y]);
                assert forall|x2: int, y2: int| searcher.cache().in_bounds(x2, y2) implies #[trigger] searcher.cache().pixel(x2, y2) ==
                    if in_rect(rect, x2, y2) && (y2 < y || (y2 == y && x2 < x + 1)) {
                        entity_pixel_state(board@, shape, [x2 as i32, y2 as i32], occupant)
                    } else {
                        c0.pixel(x2, y2)
                    } by {
                    if x2 == x && y2 == y {
                        assert([x2 as i32, y2 as i32] =~= [x, y]);
                    } else {
                        assert(before.in_bounds(x2, y2));
                    }
                }
            }
            x += 1;
        }
        y += 1;
    }
}

} // verus!
