//! A bitmap of pixel states that lets the quad tree update only the changed parts of the map.

use vstd::prelude::*;
use vstd::arithmetic::power2::pow2;
use super::{CellState, Rect};

verus! {

/// For how many updates a changed cell stays marked as fresh.
pub const FRESH_TICKS: usize = 8;

/// `x + y * size` lies in `[0, size * size)` for a position inside the square.
pub proof fn lemma_grid_index(x: int, y: int, size: int)
    requires
        0 <= x < size,
        0 <= y < size,
    ensures
        0 <= x + y * size < size * size,
        y * size <= x + y * size,
{
    assert(0 <= y * size) by (nonlinear_arith)
        requires
            0 <= y,
            0 <= size,
    ;
    assert(y * size + size <= size * size) by (nonlinear_arith)
        requires
            y < size,
            0 <= y,
    ;
}

/// Two positions inside the square have the same grid index only if they are equal.
pub proof fn lemma_grid_index_injective(x1: int, y1: int, x2: int, y2: int, size: int)
    requires
        0 <= x1 < size,
        0 <= y1 < size,
        0 <= x2 < size,
        0 <= y2 < size,
        x1 + y1 * size == x2 + y2 * size,
    ensures
        x1 == x2,
        y1 == y2,
{
    if y1 < y2 {
        assert(y1 * size + size <= y2 * size) by (nonlinear_arith)
            requires
                y1 < y2,
                0 <= size,
        ;
    } else if y2 < y1 {
        assert(y2 * size + size <= y1 * size) by (nonlinear_arith)
            requires
                y2 < y1,
                0 <= size,
        ;
    }
}

/// The grid index `i` names the pixel `(i % size, i / size)`.
pub proof fn lemma_grid_index_decompose(i: int, size: int)
    requires
        0 < size,
        0 <= i < size * size,
    ensures
        0 <= i % size < size,
        0 <= i / size < size,
        i == i % size + (i / size) * size,
{
    vstd::arithmetic::div_mod::lemma_fundamental_div_mod(i, size);
    vstd::arithmetic::div_mod::lemma_div_pos_is_pos(i, size);
    vstd::arithmetic::div_mod::lemma_div_by_multiple_is_strongly_ordered(i, size * size, size, size);
    vstd::arithmetic::div_mod::lemma_div_by_multiple(size, size);
    vstd::arithmetic::mul::lemma_mul_is_commutative(i / size, size);
}

/// A bitmap to update quad tree using only changed parts of the map.
///
/// It has array index indirection to reduce the map size: each pixel holds an index into a
/// small table of the distinct cell states seen so far.
#[derive(Debug)]
pub struct CacheMap {
    /// An internal map having the size (2 ^ topbit) ^ 2, indicating indices into `buf`
    map: Vec<usize>,
    /// The distinct cell states that `map` refers to.
    buf: Vec<CellState>,
    topbit: usize,
    size: usize,
    /// For each pixel, for how many more updates it is shown as recently changed (0: not fresh).
    fresh: Vec<usize>,
    prev_map: Option<Vec<usize>>,
}

/// The fresh mark of a pixel after one update: a changed pixel starts a new mark of
/// `FRESH_TICKS` that is aged at once; other marks lose one tick and vanish at zero.
pub open spec fn aged_ticks(ticks: int, changed: bool) -> int {
    let t = if changed { FRESH_TICKS as int } else { ticks };
    if 1 < t { t - 1 } else { 0 }
}

/// The empty rectangle, or the one whose far corner does not lie beyond its near corner.
pub open spec fn rect_is_empty(rect: Rect) -> bool {
    rect[0] >= rect[2] || rect[1] >= rect[3]
}

/// `(x, y)` lies in `rect`.
pub open spec fn in_rect(rect: Rect, x: int, y: int) -> bool {
    rect[0] <= x < rect[2] && rect[1] <= y < rect[3]
}

impl CacheMap {
    /// The side length of the square bitmap.
    pub closed spec fn spec_size(&self) -> int {
        self.size as int
    }

    /// The base 2 logarithm of the side length.
    pub closed spec fn spec_topbit(&self) -> int {
        self.topbit as int
    }

    /// The number of distinct states recorded so far.
    pub closed spec fn buf_len(&self) -> int {
        self.buf.len() as int
    }

    /// The distinct states recorded so far, in order of first appearance.
    pub closed spec fn states(&self) -> Seq<CellState> {
        self.buf@
    }

    /// The state of pixel `(x, y)`.
    pub closed spec fn pixel(&self, x: int, y: int) -> CellState {
        self.buf@[self.map@[x + y * self.size] as int]
    }

    /// For how many more updates pixel `(x, y)` is shown as recently changed.
    pub closed spec fn fresh_ticks(&self, x: int, y: int) -> int {
        self.fresh@[x + y * self.size] as int
    }

    /// The snapshot that `start_update` took, as pixel indices into `states()`.
    pub closed spec fn snapshot(&self) -> Option<Seq<usize>> {
        match self.prev_map {
            Some(p) => Some(p@),
            None => None,
        }
    }

    /// The current pixels, as indices into `states()`.
    pub closed spec fn indices(&self) -> Seq<usize> {
        self.map@
    }

    /// The map is a square of side `2^topbit` (or empty) whose every pixel refers to a known state.
    pub closed spec fn wf(&self) -> bool {
        &&& self.map.len() == self.size * self.size
        &&& self.fresh.len() == self.map.len()
        &&& self.topbit <= 30
        &&& (self.size == 0 || self.size == pow2(self.topbit as nat))
        &&& forall|i: int| 0 <= i < self.map.len() ==> (#[trigger] self.map@[i]) < self.buf.len()
    }

    /// No pixel of the bitmap is `Mixed`.
    pub open spec fn unmixed(&self) -> bool {
        forall|x: int, y: int| self.in_bounds(x, y) ==> #[trigger] self.pixel(x, y) != CellState::Mixed
    }

    /// `(x, y)` is a pixel of the bitmap.
    pub open spec fn in_bounds(&self, x: int, y: int) -> bool {
        0 <= x < self.spec_size() && 0 <= y < self.spec_size()
    }

    /// What `query` answers for `rect`: `Obstacle` for an empty rectangle, `Free` when every pixel
    /// is free, `Mixed` when some are free and some not, and otherwise the state of the first pixel.
    pub open spec fn query_spec(&self, rect: Rect) -> CellState {
        if rect_is_empty(rect) {
            CellState::Obstacle
        } else if forall|x: int, y: int| in_rect(rect, x, y) ==> self.pixel(x, y) == CellState::Free {
            CellState::Free
        } else if exists|x: int, y: int| in_rect(rect, x, y) && self.pixel(x, y) == CellState::Free {
            CellState::Mixed
        } else {
            self.pixel(rect[0] as int, rect[1] as int)
        }
    }

    pub fn new() -> (res: Self)
        ensures
            res.wf(),
            res.spec_size() == 0,
            res.spec_topbit() == 0,
            res.buf_len() == 0,
            res.snapshot() is None,
    {
        Self { map: Vec::new(), buf: Vec::new(), topbit: 0, size: 0, fresh: Vec::new(), prev_map: None }
    }

    /// The side length of the square bitmap.
    pub fn size(&self) -> (res: usize)
        ensures
            res == self.spec_size(),
    {
        self.size
    }

    /// The state of the pixel at `pos`.
    pub fn get(&self, pos: [i32; 2]) -> (res: CellState)
        requires
            self.wf(),
            self.in_bounds(pos[0] as int, pos[1] as int),
        ensures
            res == self.pixel(pos[0] as int, pos[1] as int),
    {
        proof { lemma_grid_index(pos[0] as int, pos[1] as int, self.size as int); }
        self.buf[self.map[pos[0] as usize + pos[1] as usize * self.size]]
    }

    /// For how many more updates the pixel at `pos` is shown as recently changed (0: not fresh).
    pub fn fresh_cell_ticks(&self, pos: [i32; 2]) -> (res: usize)
        requires
            self.wf(),
            self.in_bounds(pos[0] as int, pos[1] as int),
        ensures
            res == self.fresh_ticks(pos[0] as int, pos[1] as int),
    {
        proof { lemma_grid_index(pos[0] as int, pos[1] as int, self.size as int); }
        self.fresh[pos[0] as usize + pos[1] as usize * self.size]
    }

    /// The index of the first entry of `buf` equal to `pix`, if any.
    fn find_state(buf: &Vec<CellState>, pix: CellState) -> (res: Option<usize>)
        ensures
            match res {
                Some(i) => i < buf.len() && buf@[i as int] == pix
                    && forall|j: int| 0 <= j < i ==> buf@[j] != pix,
                None => forall|j: int| 0 <= j < buf.len() ==> buf@[j] != pix,
            },
    {
        let mut i: usize = 0;
        while i < buf.len()
            invariant
                i <= buf.len(),
                forall|j: int| 0 <= j < i ==> buf@[j] != pix,
            decreases buf.len() - i,
        {
            if buf[i] == pix {
                return Some(i);
            }
            i += 1;
        }
        None
    }

    /// The index of `pix` in `buf`, appending it when it is not there yet.
    fn intern(&mut self, pix: CellState) -> (res: usize)
        ensures
            res < final(self).buf.len(),
            final(self).buf@[res as int] == pix,
            final(self).buf@.len() >= old(self).buf@.len(),
            final(self).buf@.len() <= old(self).buf@.len() + 1,
            forall|j: int| 0 <= j < old(self).buf.len() ==> final(self).buf@[j] == old(self).buf@[j],
            final(self).map == old(self).map,
            final(self).fresh == old(self).fresh,
            final(self).prev_map == old(self).prev_map,
            final(self).size == old(self).size,
            final(self).topbit == old(self).topbit,
    {
        match Self::find_state(&self.buf, pix) {
            Some(idx) => idx,
            None => {
                let idx = self.buf.len();
                self.buf.push(pix);
                idx
            },
        }
    }

    /// Records the state of every pixel of a board of the given shape into a fresh square
    /// bitmap of side `2^topbit`. Pixels outside the board refer to the first recorded state,
    /// so a board with no pixel needs a state recorded before: otherwise those pixels would name
    /// a state that does not exist, and the first read of one would fail.
    pub fn cache<F: Fn(Rect) -> CellState>(&mut self, topbit: usize, shape: (usize, usize), f: &F)
        requires
            old(self).wf(),
            topbit <= 30,
            pow2(topbit as nat) * pow2(topbit as nat) <= usize::MAX,
            shape.0 <= pow2(topbit as nat),
            shape.1 <= pow2(topbit as nat),
            old(self).buf_len() > 0 || (shape.0 > 0 && shape.1 > 0),
            forall|r: Rect| f.requires((r,)),
        ensures
            final(self).wf(),
            final(self).spec_size() == pow2(topbit as nat),
            final(self).spec_topbit() == topbit,
            final(self).buf_len() > 0,
            forall|x: int, y: int| 0 <= x < shape.0 && 0 <= y < shape.1 ==>
                f.ensures(([x as i32, y as i32, (x + 1) as i32, (y + 1) as i32],), #[trigger] final(self).pixel(x, y)),
            forall|x: int, y: int| final(self).in_bounds(x, y) && !(x < shape.0 && y < shape.1) ==>
                #[trigger] final(self).pixel(x, y) == final(self).states()[0],
            old(self).states().len() <= final(self).states().len(),
            forall|j: int| 0 <= j < old(self).states().len() ==> final(self).states()[j] == old(self).states()[j],
            final(self).snapshot() == old(self).snapshot(),
            old(self).buf_len() == 0 ==> final(self).pixel(0, 0) == final(self).states()[0],
    {
        self.topbit = topbit;
        let size: usize = 1usize << topbit;
        proof {
            vstd::arithmetic::power2::lemma2_to64();
            if topbit < 30 {
                vstd::arithmetic::power2::lemma_pow2_strictly_increases(topbit as nat, 30);
            }
            vstd::bits::lemma_usize_shl_is_mul(1, topbit);
            vstd::arithmetic::power2::lemma_pow2_pos(topbit as nat);
        }
        self.size = size;
        let total: usize = size * size;
        self.map = vec![0usize; total];
        if self.fresh.len() != total {
            self.fresh = vec![0usize; total];
        }
        let ghost old_buf = self.buf@;
        proof {
            assert forall|px: int, py: int| 0 <= px < size && 0 <= py < size implies
                #[trigger] self.map@[px + py * size] == 0 by {
                lemma_grid_index(px, py, size as int);
            }
        }
        proof {
            assert(self.map@[0 + 0 * size] == 0);
        }
        let mut y: usize = 0;
        while y < shape.1
            invariant
                self.size == size,
                size == pow2(topbit as nat),
                0 < size,
                self.topbit == topbit,
                topbit <= 30,
                total == size * size,
                self.map.len() == total,
                self.fresh.len() == total,
                shape.0 <= size,
                shape.1 <= size,
                y <= shape.1,
                old_buf.len() > 0 || (shape.0 > 0 && shape.1 > 0),
                old_buf.len() <= self.buf.len(),
                y > 0 ==> self.buf.len() > 0,
                forall|j: int| 0 <= j < old_buf.len() ==> self.buf@[j] == old_buf[j],
                forall|i: int| 0 <= i < self.map.len() ==> (#[trigger] self.map@[i]) < self.buf.len() || self.map@[i] == 0,
                forall|i: int| 0 <= i < self.map.len() ==> (#[trigger] self.map@[i]) == 0 || self.map@[i] < self.buf.len(),
                forall|r: Rect| f.requires((r,)),
                forall|px: int, py: int| 0 <= px < shape.0 && 0 <= py < y ==>
                    #[trigger] self.map@[px + py * size] < self.buf.len()
                    && f.ensures(([px as i32, py as i32, (px + 1) as i32, (py + 1) as i32],),
                        self.buf@[self.map@[px + py * size] as int]),
                forall|px: int, py: int| 0 <= px < size && 0 <= py < size && !(px < shape.0 && py < y) ==>
                    #[trigger] self.map@[px + py * size] == 0,
                self.prev_map == old(self).prev_map,
                old_buf.len() == 0 ==> self.map@[0] == 0,
                y == 0 ==> self.buf@ == old_buf,
            decreases shape.1 - y,
        {
            let mut x: usize = 0;
            while x < shape.0
                invariant
                    self.size == size,
                    size == pow2(topbit as nat),
                    0 < size,
                    self.topbit == topbit,
                    topbit <= 30,
                    total == size * size,
                    self.map.len() == total,
                    self.fresh.len() == total,
                    shape.0 <= size,
                    shape.1 <= size,
                    y < shape.1,
                    x <= shape.0,
                    old_buf.len() > 0 || (shape.0 > 0 && shape.1 > 0),
                    old_buf.len() <= self.buf.len(),
                    (y > 0 || x > 0) ==> self.buf.len() > 0,
                    forall|j: int| 0 <= j < old_buf.len() ==> self.buf@[j] == old_buf[j],
                    forall|i: int| 0 <= i < self.map.len() ==> (#[trigger] self.map@[i]) == 0 || self.map@[i] < self.buf.len(),
                    forall|r: Rect| f.requires((r,)),
                    forall|px: int, py: int| 0 <= px < shape.0 && 0 <= py < size && (py < y || (py == y && px < x)) ==>
                        #[trigger] self.map@[px + py * size] < self.buf.len()
                        && f.ensures(([px as i32, py as i32, (px + 1) as i32, (py + 1) as i32],),
                            self.buf@[self.map@[px + py * size] as int]),
                    forall|px: int, py: int| 0 <= px < size && 0 <= py < size
                        && !(px < shape.0 && (py < y || (py == y && px < x))) ==>
                        #[trigger] self.map@[px + py * size] == 0,
                    self.prev_map == old(self).prev_map,
                    old_buf.len() == 0 ==> self.map@[0] == 0,
                    (y == 0 && x == 0) ==> self.buf@ == old_buf,
                decreases shape.0 - x,
            {
                proof {
                    vstd::arithmetic::power2::lemma2_to64();
                    if topbit < 30 {
                        vstd::arithmetic::power2::lemma_pow2_strictly_increases(topbit as nat, 30);
                    }
                }
                let pix = f([x as i32, y as i32, x as i32 + 1, y as i32 + 1]);
                let ghost pre_buf = self.buf@;
                let idx = self.intern(pix);
                proof {
                    if old_buf.len() == 0 && x == 0 && y == 0 {
                        assert(pre_buf.len() == 0);
                        assert(idx == 0);
                    }
                    if y > 0 {
                        assert(y * size >= size) by (nonlinear_arith) requires y >= 1, size >= 0;
                    }
                }
                proof { lemma_grid_index(x as int, y as int, size as int); }
                let i = x + y * size;
                self.map.set(i, idx);
                proof {
                    assert forall|px: int, py: int| 0 <= px < shape.0 && 0 <= py < size
                        && (py < y || (py == y && px < x + 1)) implies
                        #[trigger] self.map@[px + py * size] < self.buf.len()
                        && f.ensures(([px as i32, py as i32, (px + 1) as i32, (py + 1) as i32],),
                            self.buf@[self.map@[px + py * size] as int]) by {
                        lemma_grid_index(px, py, size as int);
                        if px != x || py != y {
                            if px + py * size == x + y * size {
                                lemma_grid_index_injective(px, py, x as int, y as int, size as int);
                            }
                            assert(self.map@[px + py * size] < pre_buf.len());
                        }
                    }
                    assert forall|px: int, py: int| 0 <= px < size && 0 <= py < size
                        && !(px < shape.0 && (py < y || (py == y && px < x + 1))) implies
                        #[trigger] self.map@[px + py * size] == 0 by {
                        lemma_grid_index(px, py, size as int);
                        if px + py * size == x + y * size {
                            lemma_grid_index_injective(px, py, x as int, y as int, size as int);
                        }
                    }
                }
                x += 1;
            }
            y += 1;
        }
        proof {
            assert(self.buf.len() > 0);
            assert forall|i: int| 0 <= i < self.map.len() implies (#[trigger] self.map@[i]) < self.buf.len() by {
                assert(self.map@[i] == 0 || self.map@[i] < self.buf.len());
            }
            assert forall|x: int, y: int| 0 <= x < shape.0 && 0 <= y < shape.1 implies
                f.ensures(([x as i32, y as i32, (x + 1) as i32, (y + 1) as i32],), #[trigger] self.pixel(x, y)) by {
                assert(self.map@[x + y * size] < self.buf.len());
            }
            if old_buf.len() == 0 {
                assert(0 + 0 * size == 0);
            }
            assert forall|x: int, y: int| self.in_bounds(x, y) && !(x < shape.0 && y < shape.1) implies
                #[trigger] self.pixel(x, y) == self.states()[0] by {
                assert(self.map@[x + y * size] == 0);
            }
        }
    }

    /// The state of `rect` as a whole: `Free` if every pixel is free, `Mixed` if it has both
    /// free and other pixels, the first pixel's state if none is free, `Obstacle` if empty.
    pub fn query(&self, rect: Rect) -> (res: CellState)
        requires
            self.wf(),
            rect_is_empty(rect) || (0 <= rect[0] && rect[2] <= self.spec_size() && 0 <= rect[1]
                && rect[3] <= self.spec_size()),
        ensures
            res == self.query_spec(rect),
    {
        let mut has_passable = false;
        let mut has_unpassable: Option<CellState> = None;
        let mut x: i32 = rect[0];
        while x < rect[2]
            invariant
                self.wf(),
                rect_is_empty(rect) || (0 <= rect[0] && rect[2] <= self.spec_size() && 0 <= rect[1]
                    && rect[3] <= self.spec_size()),
                rect[0] <= x,
                x < rect[2] || x == rect[0] || x == rect[2],
                has_passable <==> exists|px: int, py: int|
                    in_rect(rect, px, py) && px < x && #[trigger] self.pixel(px, py) == CellState::Free,
                has_unpassable is Some <==> exists|px: int, py: int|
                    in_rect(rect, px, py) && px < x && #[trigger] self.pixel(px, py) != CellState::Free,
                (x > rect[0] && !rect_is_empty(rect) && self.pixel(rect[0] as int, rect[1] as int) != CellState::Free)
                    ==> has_unpassable == Some(self.pixel(rect[0] as int, rect[1] as int)),
                !(has_passable && has_unpassable is Some),
            decreases rect[2] - x,
        {
            let mut y: i32 = rect[1];
            while y < rect[3]
                invariant
                    self.wf(),
                    rect_is_empty(rect) || (0 <= rect[0] && rect[2] <= self.spec_size() && 0 <= rect[1] && rect[3] <= self.spec_size()),
                    rect[0] <= x < rect[2],
                    rect[1] <= y,
                    y < rect[3] || y == rect[1] || y == rect[3],
                    has_passable <==> exists|px: int, py: int|
                        in_rect(rect, px, py) && (px < x || (px == x && py < y)) && #[trigger] self.pixel(px, py) == CellState::Free,
                    has_unpassable is Some <==> exists|px: int, py: int|
                        in_rect(rect, px, py) && (px < x || (px == x && py < y)) && #[trigger] self.pixel(px, py) != CellState::Free,
                    ((x > rect[0] || y > rect[1]) && !rect_is_empty(rect) && self.pixel(rect[0] as int, rect[1] as int) != CellState::Free)
                        ==> has_unpassable == Some(self.pixel(rect[0] as int, rect[1] as int)),
                    !(has_passable && has_unpassable is Some),
                decreases rect[3] - y,
            {
                let mut has_unpassable_local: Option<CellState> = None;
                proof { lemma_grid_index(x as int, y as int, self.size as int); }
                let pix = self.buf[self.map[x as usize + y as usize * self.size]];
                if !matches!(pix, CellState::Free) {
                    has_unpassable_local = Some(pix);
                }
                if has_unpassable_local.is_none() {
                    has_passable = true;
                }
                if has_unpassable.is_none() {
                    has_unpassable = has_unpassable_local;
                }
                proof {
                    assert(pix == self.pixel(x as int, y as int));
                }
                if has_passable && has_unpassable.is_some() {
                    proof {
                        let (fx, fy) = choose|px: int, py: int| in_rect(rect, px, py) && (px < x || (px == x && py <= y))
                            && #[trigger] self.pixel(px, py) == CellState::Free;
                        let (ux, uy) = choose|px: int, py: int| in_rect(rect, px, py) && (px < x || (px == x && py <= y))
                            && #[trigger] self.pixel(px, py) != CellState::Free;
                        assert(in_rect(rect, ux, uy) && self.pixel(ux, uy) != CellState::Free);
                        assert(!(forall|px: int, py: int| in_rect(rect, px, py) ==> self.pixel(px, py) == CellState::Free));
                    }
                    return CellState::Mixed;
                }
                y += 1;
            }
            x += 1;
        }
        proof {
            if !rect_is_empty(rect) {
                assert(self.pixel(rect[0] as int, rect[1] as int) == CellState::Free
                    || self.pixel(rect[0] as int, rect[1] as int) != CellState::Free);
            }
        }
        if has_passable {
            proof {
                assert forall|px: int, py: int| in_rect(rect, px, py) implies self.pixel(px, py) == CellState::Free by {
                    if self.pixel(px, py) != CellState::Free {
                        assert(has_unpassable is Some);
                    }
                }
            }
            CellState::Free
        } else if let Some(state) = has_unpassable {
            proof {
                assert(in_rect(rect, rect[0] as int, rect[1] as int));
                if self.pixel(rect[0] as int, rect[1] as int) == CellState::Free {
                    assert(has_passable);
                }
                assert(!(exists|px: int, py: int| in_rect(rect, px, py) && self.pixel(px, py) == CellState::Free));
            }
            state
        } else {
            proof {
                if !rect_is_empty(rect) {
                    assert(in_rect(rect, rect[0] as int, rect[1] as int));
                    if self.pixel(rect[0] as int, rect[1] as int) == CellState::Free {
                        assert(has_passable);
                    } else {
                        assert(has_unpassable is Some);
                    }
                }
            }
            CellState::Obstacle
        }
    }

    /// Sets the pixel at `pos` to `pix`. Fails on a position outside the bitmap; otherwise
    /// tells whether the pixel changed.
    pub fn update(&mut self, pos: [i32; 2], pix: CellState) -> (res: Result<bool, String>)
        requires
            old(self).wf(),
        ensures
            final(self).wf(),
            res is Err <==> !old(self).in_bounds(pos[0] as int, pos[1] as int),
            res matches Err(e) ==> e@ == "Out of bounds!"@ && *final(self) == *old(self),
            res matches Ok(changed) ==> {
                &&& changed == (old(self).pixel(pos[0] as int, pos[1] as int) != pix)
                &&& !changed ==> *final(self) == *old(self)
                &&& final(self).pixel(pos[0] as int, pos[1] as int) == pix
                &&& forall|x: int, y: int| final(self).in_bounds(x, y) && !(x == pos[0] && y == pos[1]) ==>
                    #[trigger] final(self).pixel(x, y) == old(self).pixel(x, y)
            },
            final(self).spec_size() == old(self).spec_size(),
            final(self).spec_topbit() == old(self).spec_topbit(),
            final(self).snapshot() == old(self).snapshot(),
            forall|x: int, y: int| #[trigger] final(self).fresh_ticks(x, y) == old(self).fresh_ticks(x, y),
            old(self).states().len() <= final(self).states().len(),
            forall|j: int| 0 <= j < old(self).states().len() ==> final(self).states()[j] == old(self).states()[j],
    {
        proof {
            vstd::arithmetic::power2::lemma2_to64();
            if self.topbit < 30 {
                vstd::arithmetic::power2::lemma_pow2_strictly_increases(self.topbit as nat, 30);
            }
        }
        if pos[0] < 0 || self.size as i32 <= pos[0] || pos[1] < 0 || self.size as i32 <= pos[1] {
            return Err(String::from_str("Out of bounds!"));
        }
        proof { lemma_grid_index(pos[0] as int, pos[1] as int, self.size as int); }
        let i = pos[0] as usize + pos[1] as usize * self.size;
        let existing = self.map[i];
        if self.buf[existing] != pix {
            let ghost old_map = self.map@;
            let idx = self.intern(pix);
            self.map.set(i, idx);
            proof {
                assert forall|x: int, y: int| self.in_bounds(x, y) && !(x == pos[0] && y == pos[1]) implies
                    #[trigger] self.pixel(x, y) == old(self).pixel(x, y) by {
                    lemma_grid_index(x, y, self.size as int);
                    if x + y * self.size == i {
                        lemma_grid_index_injective(x, y, pos[0] as int, pos[1] as int, self.size as int);
                    }
                }
                assert forall|j: int| 0 <= j < self.map.len() implies (#[trigger] self.map@[j]) < self.buf.len() by {
                    if j != i {
                        assert(old_map[j] < old(self).buf.len());
                    }
                }
            }
            Ok(true)
        } else {
            Ok(false)
        }
    }

    /// Takes a snapshot of the bitmap to compare against in `finish_update`, unless a
    /// snapshot of the same size is already there.
    pub fn start_update(&mut self)
        requires
            old(self).wf(),
        ensures
            final(self).wf(),
            final(self).snapshot() == (match old(self).snapshot() {
                Some(p) if p.len() == old(self).indices().len() => Some(p),
                _ => Some(old(self).indices()),
            }),
            final(self).indices() == old(self).indices(),
            final(self).states() == old(self).states(),
            forall|x: int, y: int| #[trigger] final(self).pixel(x, y) == old(self).pixel(x, y),
            forall|x: int, y: int| #[trigger] final(self).fresh_ticks(x, y) == old(self).fresh_ticks(x, y),
            final(self).spec_size() == old(self).spec_size(),
            final(self).spec_topbit() == old(self).spec_topbit(),
    {
        let take_snapshot = match &self.prev_map {
            Some(prev_map) => prev_map.len() != self.map.len(),
            None => true,
        };
        if take_snapshot {
            let copy = self.map.clone();
            proof { assert(copy@ == self.map@); }
            self.prev_map = Some(copy);
        }
    }

    /// Marks the pixels that differ from the snapshot as fresh, brings the snapshot up to date
    /// and ages every fresh mark by one update. Does nothing without a snapshot.
    pub fn finish_update(&mut self)
        requires
            old(self).wf(),
        ensures
            final(self).wf(),
            final(self).indices() == old(self).indices(),
            final(self).states() == old(self).states(),
            forall|x: int, y: int| #[trigger] final(self).pixel(x, y) == old(self).pixel(x, y),
            final(self).spec_size() == old(self).spec_size(),
            final(self).spec_topbit() == old(self).spec_topbit(),
            match old(self).snapshot() {
                None => *final(self) == *old(self),
                Some(prev) => {
                    let n = if prev.len() < old(self).indices().len() { prev.len() } else { old(self).indices().len() };
                    &&& final(self).snapshot() matches Some(next)
                    &&& next.len() == prev.len()
                    &&& forall|i: int| 0 <= i < prev.len() ==>
                        #[trigger] next[i] == if i < n { old(self).indices()[i] } else { prev[i] }
                    &&& forall|x: int, y: int| old(self).in_bounds(x, y) ==>
                        #[trigger] final(self).fresh_ticks(x, y) == aged_ticks(
                            old(self).fresh_ticks(x, y),
                            x + y * old(self).spec_size() < n
                                && prev[x + y * old(self).spec_size()] != old(self).indices()[x + y * old(self).spec_size()],
                        )
                },
            },
    {
        let mut prev_map = match self.prev_map.take() {
            Some(p) => p,
            None => return,
        };
        let ghost prev = prev_map@;
        let ghost old_fresh = self.fresh@;
        let n = if prev_map.len() < self.map.len() { prev_map.len() } else { self.map.len() };
        let mut i: usize = 0;
        while i < self.map.len()
            invariant
                self.map@ == old(self).map@,
                self.buf@ == old(self).buf@,
                self.size == old(self).size,
                self.topbit == old(self).topbit,
                self.prev_map is None,
                self.fresh.len() == self.map.len(),
                prev_map.len() == prev.len(),
                n == if prev.len() < self.map.len() { prev.len() as int } else { self.map.len() as int },
                i <= self.map.len(),
                forall|j: int| 0 <= j < prev.len() ==>
                    #[trigger] prev_map@[j] == if j < n && j < i { self.map@[j] } else { prev[j] },
                forall|j: int| 0 <= j < self.map.len() ==>
                    #[trigger] self.fresh@[j] as int == if j < i {
                        aged_ticks(old_fresh[j] as int, j < n && prev[j] != self.map@[j])
                    } else { old_fresh[j] as int },
            decreases self.map.len() - i,
        {
            let changed = i < n && self.map[i] != prev_map[i];
            if changed {
                let v = self.map[i];
                prev_map.set(i, v);
            }
            let ticks = if changed { FRESH_TICKS } else { self.fresh[i] };
            let aged = if 1 < ticks { ticks - 1 } else { 0 };
            self.fresh.set(i, aged);
            i += 1;
        }
        self.prev_map = Some(prev_map);
        proof {
            assert forall|x: int, y: int| old(self).in_bounds(x, y) implies
                #[trigger] self.fresh_ticks(x, y) == aged_ticks(
                    old(self).fresh_ticks(x, y),
                    x + y * old(self).spec_size() < n
                        && prev[x + y * old(self).spec_size()] != old(self).indices()[x + y * old(self).spec_size()],
                ) by {
                lemma_grid_index(x, y, self.size as int);
            }
        }
    }
}

} // verus!
