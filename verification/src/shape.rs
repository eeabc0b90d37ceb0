//! Index arithmetic for two-dimensional boards.

use vstd::prelude::*;

verus! {

/// Width and height of a board with signed coordinates.
pub type Shape = (isize, isize);

/// Width and height of a board with unsigned coordinates.
pub type Size = (usize, usize);

/// `x` taken around a period of `w`, for `x` no further than one period below zero.
pub open spec fn wrap(x: int, w: int) -> int {
    (x + w) % w
}

/// Indexing of a board stored row by row.
pub trait Idx {
    /// The width of the board.
    spec fn width_spec(&self) -> int;

    /// The height of the board.
    spec fn height_spec(&self) -> int;

    /// The inputs on which `wrapping_idx` computes without overflow.
    spec fn wraps(&self, x: isize, y: isize) -> bool;

    /// Every index of the board fits in the coordinate types.
    spec fn indexable(&self) -> bool;

    /// The index of `(x, y)` taken around the edges of the board.
    fn wrapping_idx(&self, x: isize, y: isize) -> (res: usize)
        requires
            self.wraps(x, y),
        ensures
            res == wrap(x as int, self.width_spec()) + wrap(y as int, self.height_spec()) * self.width_spec(),
    ;

    /// The index of `(x, y)`, or `None` outside the board.
    fn try_idx(&self, x: isize, y: isize) -> (res: Option<usize>)
        requires
            self.indexable(),
        ensures
            res == if 0 <= x < self.width_spec() && 0 <= y < self.height_spec() {
                Some((x + y * self.width_spec()) as usize)
            } else {
                None
            },
    ;

    /// The index of `(x, y)`, which must lie on the board.
    fn idx(&self, x: isize, y: isize) -> (res: usize)
        requires
            self.indexable(),
            0 <= x < self.width_spec(),
            0 <= y < self.height_spec(),
        ensures
            res == x + y * self.width_spec(),
    ;
}

proof fn lemma_index_bound(x: int, y: int, w: int, h: int)
    requires
        0 <= x < w,
        0 <= y < h,
    ensures
        0 <= y * w,
        0 <= x + y * w < w * h,
{
    crate::dijkstra::lemma_rect_index(x, y, w, h);
    assert(0 <= y * w) by (nonlinear_arith) requires 0 <= y, 0 <= w;
}

impl Idx for Shape {
    open spec fn width_spec(&self) -> int {
        self.0 as int
    }

    open spec fn height_spec(&self) -> int {
        self.1 as int
    }

    open spec fn wraps(&self, x: isize, y: isize) -> bool {
        &&& 0 < self.0
        &&& 0 < self.1
        &&& -self.0 <= x
        &&& -self.1 <= y
        &&& x + self.0 <= isize::MAX
        &&& y + self.1 <= isize::MAX
        &&& self.0 * self.1 <= isize::MAX
    }

    open spec fn indexable(&self) -> bool {
        self.0 * self.1 <= isize::MAX
    }

    fn wrapping_idx(&self, x: isize, y: isize) -> (res: usize) {
        let (width, height) = *self;
        let col = (x + width) % width;
        let row = (y + height) % height;
        proof {
            lemma_index_bound(col as int, row as int, width as int, height as int);
        }
        (col + row * width) as usize
    }

    fn try_idx(&self, x: isize, y: isize) -> (res: Option<usize>) {
        let (width, height) = *self;
        if x < 0 || width <= x || y < 0 || height <= y {
            None
        } else {
            proof {
                lemma_index_bound(x as int, y as int, width as int, height as int);
            }
            Some((x + y * width) as usize)
        }
    }

    fn idx(&self, x: isize, y: isize) -> (res: usize) {
        let (width, _height) = *self;
        proof {
            lemma_index_bound(x as int, y as int, width as int, self.1 as int);
        }
        (x + y * width) as usize
    }
}

impl Idx for Size {
    open spec fn width_spec(&self) -> int {
        self.0 as int
    }

    open spec fn height_spec(&self) -> int {
        self.1 as int
    }

    open spec fn wraps(&self, x: isize, y: isize) -> bool {
        &&& 0 < self.0
        &&& 0 < self.1
        &&& 0 <= x
        &&& 0 <= y
        &&& x + self.0 <= usize::MAX
        &&& y + self.1 <= usize::MAX
        &&& self.0 * self.1 <= usize::MAX
    }

    open spec fn indexable(&self) -> bool {
        &&& self.0 <= isize::MAX
        &&& self.1 <= isize::MAX
        &&& self.0 * self.1 <= usize::MAX
    }

    fn wrapping_idx(&self, x: isize, y: isize) -> (res: usize) {
        let (width, height) = *self;
        let col = (x as usize + width) % width;
        let row = (y as usize + height) % height;
        proof {
            lemma_index_bound(col as int, row as int, width as int, height as int);
        }
        col + row * width
    }

    fn try_idx(&self, x: isize, y: isize) -> (res: Option<usize>) {
        let (width, height) = *self;
        if x < 0 || width as isize <= x || y < 0 || height as isize <= y {
            None
        } else {
            proof {
                lemma_index_bound(x as int, y as int, width as int, height as int);
            }
            Some(x as usize + y as usize * width)
        }
    }

    fn idx(&self, x: isize, y: isize) -> (res: usize) {
        let (width, _height) = *self;
        proof {
            lemma_index_bound(x as int, y as int, width as int, self.1 as int);
        }
        x as usize + y as usize * width
    }
}

} // verus!
