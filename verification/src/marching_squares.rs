//! Marching squares implementation
//!
//! We define the directions as below.
//! Note that screen coordinates often invert vertically, but marching squares algorithm
//! does not care. It just works numerically and you need to filp polarity accordingly.
//!
//! ```text
//!      ^ +y
//!  3 --+-- 2
//!  |   |   |
//! -+---+---+-> +x
//!  |   |   |
//!  0---+---1
//!      |
//! ```

use vstd::prelude::*;
use crate::shape::Shape;

verus! {

/// A trait for objects that can behave like a field of booleans.
pub trait AsBoolField {
    /// The field can be read at every position inside its shape.
    spec fn readable(&self) -> bool;

    /// The value at `pos`, for a position inside the shape.
    spec fn value_at(&self, pos: (isize, isize)) -> bool;

    /// The width and height of the field.
    spec fn shape_spec(&self) -> Shape;

    fn get(&self, pos: (isize, isize)) -> (res: bool)
        requires
            self.readable(),
            0 <= pos.0 < self.shape_spec().0,
            0 <= pos.1 < self.shape_spec().1,
        ensures
            res == self.value_at(pos);

    fn shape(&self) -> (res: Shape)
        ensures
            res == self.shape_spec();

    /// The value at `pos`, or `false` outside the field.
    fn get_or_false(&self, pos: Shape) -> (res: bool)
        requires
            self.readable(),
        ensures
            res == (0 <= pos.0 < self.shape_spec().0 && 0 <= pos.1 < self.shape_spec().1 && self.value_at(pos)),
    {
        if pos.0 < 0 || pos.1 < 0 || self.shape().0 <= pos.0 || self.shape().1 <= pos.1 {
            false
        } else {
            self.get(pos)
        }
    }
}

/// The value at `pos`, or `false` outside the field.
pub open spec fn value_or_false<T: AsBoolField + ?Sized>(f: &T, pos: (isize, isize)) -> bool {
    0 <= pos.0 < f.shape_spec().0 && 0 <= pos.1 < f.shape_spec().1 && f.value_at(pos)
}

/// A concrete type of a boolean field.
#[derive(Clone, Copy)]
pub struct BoolField<'a> {
    field: &'a [bool],
    shape: Shape,
}

impl<'a> BoolField<'a> {
    /// The cells, row by row.
    pub closed spec fn cells(&self) -> Seq<bool> {
        self.field@
    }

    pub fn new(field: &'a [bool], shape: Shape) -> (res: Self)
        ensures
            res.cells() == field@,
            res.shape_spec() == shape,
    {
        Self { field, shape }
    }
}

impl<'a> AsBoolField for BoolField<'a> {
    open spec fn readable(&self) -> bool {
        &&& 0 <= self.shape_spec().0
        &&& 0 <= self.shape_spec().1
        &&& self.shape_spec().0 * self.shape_spec().1 <= self.cells().len()
    }

    open spec fn value_at(&self, pos: (isize, isize)) -> bool {
        self.cells()[pos.0 + pos.1 * self.shape_spec().0]
    }

    closed spec fn shape_spec(&self) -> Shape {
        self.shape
    }

    fn get(&self, pos: (isize, isize)) -> (res: bool) {
        proof {
            crate::dijkstra::lemma_rect_index(pos.0 as int, pos.1 as int, self.shape.0 as int, self.shape.1 as int);
            assert(pos.1 * self.shape.0 <= pos.0 + pos.1 * self.shape.0) by (nonlinear_arith)
                requires 0 <= pos.0, 0 <= pos.1, 0 <= self.shape.0;
            assert(0 <= pos.1 * self.shape.0) by (nonlinear_arith)
                requires 0 <= pos.1, 0 <= self.shape.0;
        }
        let n: usize = self.field.len();
        assert(pos.0 + pos.1 * self.shape.0 < n);
        let x: usize = pos.0 as usize;
        let y: usize = pos.1 as usize;
        let w: usize = self.shape.0 as usize;
        let row: usize = y * w;
        self.field[x + row]
    }

    fn shape(&self) -> (res: Shape) {
        self.shape
    }
}

/// The bit of a value in a field: 1 when set, 0 otherwise.
pub open spec fn bit<T: AsBoolField + ?Sized>(f: &T, pos: (isize, isize)) -> int {
    if value_or_false(f, pos) { 1 } else { 0 }
}

/// The marching squares index of the square whose lower left corner is `pos`: bit 0 for
/// `pos`, bit 1 for `pos + (1, 0)`, bit 2 for `pos + (1, 1)` and bit 3 for `pos + (0, 1)`.
pub open spec fn square_bits<T: AsBoolField + ?Sized>(f: &T, pos: (isize, isize)) -> int {
    bit(f, pos) + 2 * bit(f, ((pos.0 + 1) as isize, pos.1))
        + 4 * bit(f, ((pos.0 + 1) as isize, (pos.1 + 1) as isize))
        + 8 * bit(f, (pos.0, (pos.1 + 1) as isize))
}

pub fn pick_bits<T: AsBoolField>(f: &T, pos: (isize, isize)) -> (res: u8)
    requires
        f.readable(),
        pos.0 < isize::MAX,
        pos.1 < isize::MAX,
    ensures
        res == square_bits(f, pos),
{
    let a = f.get_or_false((pos.0, pos.1)) as u8;
    let b = f.get_or_false((pos.0 + 1, pos.1)) as u8;
    let c = f.get_or_false((pos.0 + 1, pos.1 + 1)) as u8;
    let d = f.get_or_false((pos.0, pos.1 + 1)) as u8;
    assert(a <= 1 && b <= 1 && c <= 1 && d <= 1);
    let res = a | (b << 1) | (c << 2) | (d << 3);
    assert(res == a + 2 * b + 4 * c + 8 * d) by (bit_vector)
        requires
            a <= 1,
            b <= 1,
            c <= 1,
            d <= 1,
            res == a | (b << 1) | (c << 2) | (d << 3),
    ;
    res
}

/// The offset into `CELL_POLYGON_BUFFER` of the polygon drawn for a square index.
pub open spec fn cell_polygon_offset(bits: u8) -> i32 {
    if bits == 1 || bits == 14 { 12 }
    else if bits == 2 || bits == 13 { 16 }
    else if bits == 4 || bits == 11 { 20 }
    else if bits == 8 || bits == 7 { 24 }
    else if bits == 3 || bits == 12 { 4 }
    else if bits == 9 || bits == 6 { 8 }
    else { 0 }
}

/// Index into CELL_POLYGON_BUFFER
pub fn cell_polygon_index(bits: u8) -> (res: i32)
    ensures
        res == cell_polygon_offset(bits),
{
    match bits {
        1 | 14 => 12,
        2 | 13 => 16,
        4 | 11 => 20,
        8 | 7 => 24,
        3 | 12 => 4,
        9 | 6 => 8,
        _ => 0,
    }
}

/// Whether the pixel is a border
pub fn _border_pixel(idx: u8) -> (res: bool)
    requires
        idx <= 15,
    ensures
        res == (1 <= idx <= 14),
{
    match idx {
        0 => false,
        15 => false,
        _ => true,
    }
}

} // verus!

verus! {

/// The marching squares index of the square at a cell position.
#[verifier::opaque]
pub open spec fn bits_at<T: AsBoolField + ?Sized>(f: &T, p: [usize; 2]) -> int {
    square_bits(f, (p[0] as isize, p[1] as isize))
}

/// The state that a contour was in before it reached its `i`-th cell: the cell it came from.
pub open spec fn prev_of(line: Seq<[usize; 2]>, i: int) -> Option<[usize; 2]> {
    if i == 0 { None } else { Some(line[i - 1]) }
}

/// The step that a contour takes from the cell `pos` whose square index is `bits`, having come
/// from `last`. The saddles (5 and 10) are resolved by the side the contour came from, and have
/// no step when it came from nowhere.
pub open spec fn step_dir(bits: int, pos: [usize; 2], last: Option<[usize; 2]>) -> Option<(int, int)> {
    if bits == 1 || bits == 9 || bits == 13 {
        Some((0, -1))
    } else if bits == 2 || bits == 3 || bits == 11 {
        Some((1, 0))
    } else if bits == 4 || bits == 6 || bits == 7 {
        Some((0, 1))
    } else if bits == 8 || bits == 12 || bits == 14 {
        Some((-1, 0))
    } else if bits == 5 {
        match last {
            Some(l) => if l[0] < pos[0] { Some((0, 1)) } else { Some((0, -1)) },
            None => None,
        }
    } else if bits == 10 {
        match last {
            Some(l) => if l[1] < pos[1] { Some((-1, 0)) } else { Some((1, 0)) },
            None => None,
        }
    } else {
        None
    }
}

/// The step a contour takes from its `i`-th cell.
pub open spec fn dir_at<T: AsBoolField + ?Sized>(f: &T, line: Seq<[usize; 2]>, i: int) -> Option<(int, int)> {
    step_dir(bits_at(f, line[i]), line[i], prev_of(line, i))
}

/// The point one step `d` away from `p`.
pub open spec fn moved(p: [usize; 2], d: (int, int)) -> (int, int) {
    (p[0] + d.0, p[1] + d.1)
}

/// A contour can start at `start`: its square is a border that is not a saddle.
pub open spec fn starts_trace<T: AsBoolField + ?Sized>(f: &T, start: [usize; 2]) -> bool {
    let b = bits_at(f, start);
    1 <= b <= 14 && b != 5 && b != 10
}

/// `line` follows the contour from `start` without stopping early: every cell is a border with a
/// step, each cell is one step from the one before, and no cell is entered twice from the same
/// cell.
#[verifier::opaque]
pub open spec fn is_partial_trace<T: AsBoolField + ?Sized>(f: &T, start: [usize; 2], line: Seq<[usize; 2]>) -> bool {
    &&& line.len() >= 1
    &&& line[0] == start
    &&& forall|i: int| 0 <= i < line.len() ==> 1 <= #[trigger] bits_at(f, line[i]) <= 14
    &&& forall|i: int| 0 <= i < line.len() ==> (#[trigger] dir_at(f, line, i)) is Some
    &&& forall|i: int| 0 <= i < line.len() - 1 ==>
            moved(line[i], (#[trigger] dir_at(f, line, i))->0) == (line[i + 1][0] as int, line[i + 1][1] as int)
    &&& forall|i: int, j: int| 0 <= i < j < line.len() ==>
            !(#[trigger] line[i] == #[trigger] line[j] && prev_of(line, i) == prev_of(line, j))
}

/// Where the contour goes after its last cell.
pub open spec fn next_after<T: AsBoolField + ?Sized>(f: &T, line: Seq<[usize; 2]>) -> (int, int) {
    moved(line.last(), dir_at(f, line, line.len() - 1)->0)
}

/// The contour stops after the last cell of `line`: the next point is off the board to the
/// negative side, its square is not a border, or it would be entered again from the same cell.
pub open spec fn trace_ends<T: AsBoolField + ?Sized>(f: &T, line: Seq<[usize; 2]>) -> bool {
    let q = next_after(f, line);
    ||| q.0 < 0
    ||| q.1 < 0
    ||| ({
        let b = bits_at(f, [q.0 as usize, q.1 as usize]);
        b == 0 || b == 15
    })
    ||| exists|j: int| 0 <= j < line.len() && line[j] == [q.0 as usize, q.1 as usize]
            && prev_of(line, j) == Some(line.last())
}

/// `line` is the whole contour traced from `start`.
pub open spec fn is_trace<T: AsBoolField + ?Sized>(f: &T, start: [usize; 2], line: Seq<[usize; 2]>) -> bool {
    is_partial_trace(f, start, line) && trace_ends(f, line)
}

} // verus!

verus! {

/// A square index has four bits; a square that is not empty has a corner on the board, so a
/// cell with nonnegative coordinates lies inside the shape.
proof fn lemma_bits_range<T: AsBoolField + ?Sized>(f: &T, p: [usize; 2])
    requires
        p[0] < isize::MAX,
        p[1] < isize::MAX,
    ensures
        0 <= bits_at(f, p) <= 15,
        bits_at(f, p) != 0 ==> p[0] < f.shape_spec().0 && p[1] < f.shape_spec().1,
{
    reveal(bits_at);
    let x = p[0] as isize;
    let y = p[1] as isize;
    assert(x == p[0] && y == p[1]);
    assert((x + 1) as isize == x + 1);
    assert((y + 1) as isize == y + 1);
}

/// The position code of a state of a contour: its cell and the side it came from.
spec fn state_code(w: int, p: [usize; 2], last: Option<[usize; 2]>) -> int {
    let side: int = match last {
        None => 0,
        Some(l) => if l[0] + 1 == p[0] && l[1] == p[1] {
            1
        } else if l[0] == p[0] + 1 && l[1] == p[1] {
            2
        } else if l[1] + 1 == p[1] && l[0] == p[0] {
            3
        } else {
            4
        },
    };
    (p[0] + p[1] * w) * 5 + side
}

/// `l` is one of the four neighbours of `p`.
spec fn adjacent(p: [usize; 2], l: [usize; 2]) -> bool {
    ||| l[0] + 1 == p[0] && l[1] == p[1]
    ||| l[0] == p[0] + 1 && l[1] == p[1]
    ||| l[1] + 1 == p[1] && l[0] == p[0]
    ||| l[1] == p[1] + 1 && l[0] == p[0]
}

spec fn valid_state(w: int, h: int, p: [usize; 2], last: Option<[usize; 2]>) -> bool {
    &&& p[0] < w
    &&& p[1] < h
    &&& match last {
        None => true,
        Some(l) => adjacent(p, l),
    }
}

proof fn lemma_state_code(w: int, h: int, p1: [usize; 2], l1: Option<[usize; 2]>, p2: [usize; 2], l2: Option<[usize; 2]>)
    requires
        valid_state(w, h, p1, l1),
        valid_state(w, h, p2, l2),
    ensures
        0 <= state_code(w, p1, l1) < 5 * w * h,
        state_code(w, p1, l1) == state_code(w, p2, l2) ==> p1 == p2 && l1 == l2,
{
    crate::dijkstra::lemma_rect_index(p1[0] as int, p1[1] as int, w, h);
    assert(5 * (w * h) == 5 * w * h) by (nonlinear_arith);
    if state_code(w, p1, l1) == state_code(w, p2, l2) {
        let i1 = p1[0] + p1[1] * w;
        let i2 = p2[0] + p2[1] * w;
        crate::dijkstra::lemma_rect_index(p2[0] as int, p2[1] as int, w, h);
        assert(i1 == i2);
        crate::dijkstra::lemma_rect_index_injective(p1[0] as int, p1[1] as int, p2[0] as int, p2[1] as int, w);
        assert(p1 =~= p2);
        match l1 {
            Some(a) => {
                let b = l2->0;
                assert(a =~= b);
            },
            None => {},
        }
    }
}

} // verus!

verus! {

proof fn lemma_prev_of_push(line: Seq<[usize; 2]>, p: [usize; 2])
    ensures
        forall|i: int| 0 <= i < line.len() ==> #[trigger] prev_of(line.push(p), i) == prev_of(line, i),
        line.len() > 0 ==> prev_of(line.push(p), line.len() as int) == Some(line.last()),
        line.len() == 0 ==> prev_of(line.push(p), 0) is None,
{
}

/// Every step of a contour is one cell along an axis.
proof fn lemma_step_unit(bits: int, pos: [usize; 2], last: Option<[usize; 2]>)
    requires
        step_dir(bits, pos, last) is Some,
    ensures
        ({
            let d = step_dir(bits, pos, last)->0;
            ||| d == (1int, 0int)
            ||| d == (-1int, 0int)
            ||| d == (0int, 1int)
            ||| d == (0int, -1int)
        }),
{
}

/// Entering `pos` from `last` in a new state extends a contour by one cell.
proof fn lemma_push_state<T: AsBoolField + ?Sized>(
    f: &T,
    start: [usize; 2],
    line: Seq<[usize; 2]>,
    pos: [usize; 2],
    last: Option<[usize; 2]>,
    d: (int, int),
)
    requires
        line.len() == 0 ==> pos == start && last is None,
        line.len() > 0 ==> {
            &&& is_partial_trace(f, start, line)
            &&& starts_trace(f, start)
            &&& last == Some(line.last())
            &&& next_after(f, line) == (pos[0] as int, pos[1] as int)
        },
        1 <= bits_at(f, pos) <= 14,
        step_dir(bits_at(f, pos), pos, last) == Some(d),
        !(exists|i: int| 0 <= i < line.len() && line[i] == pos && prev_of(line, i) == last),
    ensures
        is_partial_trace(f, start, line.push(pos)),
        starts_trace(f, start),
        dir_at(f, line.push(pos), line.len() as int) == Some(d),
        next_after(f, line.push(pos)) == moved(pos, d),
        match last {
            None => true,
            Some(l) => adjacent(pos, l),
        },
{
    reveal(is_partial_trace);
    let s = line.push(pos);
    lemma_prev_of_push(line, pos);
    lemma_push_dirs(f, line, pos);
    assert(prev_of(s, line.len() as int) == last);
    assert(dir_at(f, s, line.len() as int) == Some(d));
    assert forall|i: int| 0 <= i < s.len() implies 1 <= #[trigger] bits_at(f, s[i]) <= 14 by {
        if i < line.len() {
            assert(s[i] == line[i]);
        }
    }
    assert forall|i: int| 0 <= i < s.len() implies (#[trigger] dir_at(f, s, i)) is Some by {
        if i < line.len() {
            assert(dir_at(f, s, i) == dir_at(f, line, i));
        }
    }
    if line.len() > 0 {
        let l = line.last();
        lemma_step_unit(bits_at(f, l), l, prev_of(line, line.len() - 1));
        assert(adjacent(pos, l));
        assert(s[0] == line[0]);
        lemma_push_steps(f, line, pos);
        lemma_push_distinct(line, pos, last);
    } else {
        assert(s[0] == pos);
    }
}

/// Extending a contour keeps the steps of its earlier cells.
proof fn lemma_push_dirs<T: AsBoolField + ?Sized>(f: &T, line: Seq<[usize; 2]>, pos: [usize; 2])
    ensures
        forall|i: int| 0 <= i < line.len() ==> #[trigger] dir_at(f, line.push(pos), i) == dir_at(f, line, i),
{
    assert forall|i: int| 0 <= i < line.len() implies #[trigger] dir_at(f, line.push(pos), i) == dir_at(f, line, i) by {
        lemma_prev_of_push(line, pos);
        assert(line.push(pos)[i] == line[i]);
    }
}

proof fn lemma_push_steps<T: AsBoolField + ?Sized>(f: &T, line: Seq<[usize; 2]>, pos: [usize; 2])
    requires
        line.len() > 0,
        forall|i: int| 0 <= i < line.len() - 1 ==>
            moved(line[i], (#[trigger] dir_at(f, line, i))->0) == (line[i + 1][0] as int, line[i + 1][1] as int),
        next_after(f, line) == (pos[0] as int, pos[1] as int),
    ensures
        forall|i: int| 0 <= i < line.len() ==>
            moved(line.push(pos)[i], (#[trigger] dir_at(f, line.push(pos), i))->0)
                == (line.push(pos)[i + 1][0] as int, line.push(pos)[i + 1][1] as int),
{
    let s = line.push(pos);
    lemma_push_dirs(f, line, pos);
    assert forall|i: int| 0 <= i < line.len() implies
        moved(s[i], (#[trigger] dir_at(f, s, i))->0) == (s[i + 1][0] as int, s[i + 1][1] as int) by {
        assert(dir_at(f, s, i) == dir_at(f, line, i));
        assert(s[i] == line[i]);
        if i + 1 < line.len() {
            assert(s[i + 1] == line[i + 1]);
            assert(moved(line[i], dir_at(f, line, i)->0) == (line[i + 1][0] as int, line[i + 1][1] as int));
        } else {
            assert(s[i + 1] == pos);
        }
    }
}

proof fn lemma_push_distinct(line: Seq<[usize; 2]>, pos: [usize; 2], last: Option<[usize; 2]>)
    requires
        forall|i: int, j: int| 0 <= i < j < line.len() ==>
            !(#[trigger] line[i] == #[trigger] line[j] && prev_of(line, i) == prev_of(line, j)),
        !(exists|i: int| 0 <= i < line.len() && line[i] == pos && prev_of(line, i) == last),
        line.len() > 0 ==> last == Some(line.last()),
        line.len() == 0 ==> last is None,
    ensures
        forall|i: int, j: int| 0 <= i < j < line.len() + 1 ==>
            !(#[trigger] line.push(pos)[i] == #[trigger] line.push(pos)[j]
                && prev_of(line.push(pos), i) == prev_of(line.push(pos), j)),
{
    let s = line.push(pos);
    lemma_prev_of_push(line, pos);
    assert forall|i: int, j: int| 0 <= i < j < s.len() implies
        !(#[trigger] s[i] == #[trigger] s[j] && prev_of(s, i) == prev_of(s, j)) by {
        assert(s[i] == line[i]);
        if j < line.len() {
            assert(s[j] == line[j]);
        } else {
            assert(prev_of(s, j) == last);
        }
    }
}

/// A finite set of codes below `n` has at most `n` elements.
proof fn lemma_codes_bound(codes: Set<int>, n: int)
    requires
        codes.finite(),
        0 <= n,
        forall|c: int| codes.contains(c) ==> 0 <= c < n,
    ensures
        codes.len() <= n,
{
    vstd::set_lib::lemma_int_range(0, n);
    assert(codes.subset_of(vstd::set_lib::set_int_range(0, n)));
    vstd::set_lib::lemma_len_subset(codes, vstd::set_lib::set_int_range(0, n));
}

/// Whether the contour in `line` already entered `pos` from `last`.
fn state_visited(line: &Vec<[usize; 2]>, pos: [usize; 2], last: Option<[usize; 2]>) -> (res: bool)
    ensures
        res == exists|i: int| 0 <= i < line.len() && line@[i] == pos && prev_of(line@, i) == last,
{
    let mut i: usize = 0;
    while i < line.len()
        invariant
            i <= line.len(),
            forall|j: int| 0 <= j < i ==> !(line@[j] == pos && prev_of(line@, j) == last),
        decreases line.len() - i,
    {
        let p = line[i];
        let same_prev = match last {
            None => i == 0,
            Some(l) => i > 0 && line[i - 1][0] == l[0] && line[i - 1][1] == l[1],
        };
        if p[0] == pos[0] && p[1] == pos[1] && same_prev {
            proof {
                assert(p =~= pos);
                if i > 0 {
                    assert(line@[i - 1] =~= last->0);
                }
                assert(line@[i as int] == pos && prev_of(line@, i as int) == last);
            }
            return true;
        }
        i += 1;
    }
    false
}

/// Follows the contour that passes through the square at `pos`, until it leaves the board, meets
/// a square that is not a border, or comes back to a state it was in. `None` where no contour
/// starts at `pos`.
#[verifier::rlimit(30)]
pub fn trace_line_single<T: AsBoolField>(f: &T, pos: [usize; 2]) -> (res: Option<Vec<[usize; 2]>>)
    requires
        f.readable(),
        f.shape_spec().0 < isize::MAX,
        f.shape_spec().1 < isize::MAX,
        pos[0] < isize::MAX,
        pos[1] < isize::MAX,
    ensures
        match res {
            None => !starts_trace(f, pos),
            Some(line) => {
                &&& starts_trace(f, pos)
                &&& is_trace(f, pos, line@)
                &&& forall|i: int| 0 <= i < line.len() ==>
                    (#[trigger] line@[i])[0] < f.shape_spec().0 && line@[i][1] < f.shape_spec().1
            },
        },
{
    let mut cur = pos;
    let mut ret: Vec<[usize; 2]> = Vec::new();
    let mut last_pos: Option<[usize; 2]> = None;
    let ghost w = f.shape_spec().0 as int;
    let ghost h = f.shape_spec().1 as int;
    let ghost mut seen: Set<int> = Set::empty();
    loop
        invariant
            f.readable(),
            w == f.shape_spec().0,
            h == f.shape_spec().1,
            w < isize::MAX,
            h < isize::MAX,
            pos[0] < isize::MAX,
            pos[1] < isize::MAX,
            cur[0] < isize::MAX,
            cur[1] < isize::MAX,
            ret.len() == 0 ==> cur == pos && last_pos is None,
            ret.len() > 0 ==> {
                &&& is_partial_trace(f, pos, ret@)
                &&& starts_trace(f, pos)
                &&& last_pos == Some(ret@.last())
                &&& next_after(f, ret@) == (cur[0] as int, cur[1] as int)
            },
            seen.finite(),
            seen.len() == ret.len(),
            forall|c: int| seen.contains(c) ==> 0 <= c < 5 * w * h,
            forall|c: int| seen.contains(c) ==> exists|i: int| 0 <= i < ret.len()
                && c == #[trigger] state_code(w, ret@[i], prev_of(ret@, i)),
            forall|i: int| 0 <= i < ret.len() ==> valid_state(w, h, #[trigger] ret@[i], prev_of(ret@, i)),
        decreases 5 * w * h - ret.len(),
    {
        let bits = pick_bits(f, (cur[0] as isize, cur[1] as isize));
        assert(bits as int == bits_at(f, cur)) by {
            reveal(bits_at);
        }
        proof {
            lemma_bits_range(f, cur);
        }
        if bits == 0 || bits == 15 {
            if ret.len() == 0 {
                return None;
            }
            proof {
                let q = next_after(f, ret@);
                assert([q.0 as usize, q.1 as usize] =~= cur);
                assert(trace_ends(f, ret@));
            }
            return Some(ret);
        }
        let step: Option<(isize, isize)> = match bits {
            1 | 9 | 13 => Some((0, -1)),
            2 | 3 | 11 => Some((1, 0)),
            4 | 6 | 7 => Some((0, 1)),
            8 | 12 | 14 => Some((-1, 0)),
            5 => match last_pos {
                Some(l) => if l[0] < cur[0] { Some((0, 1)) } else { Some((0, -1)) },
                None => None,
            },
            _ => match last_pos {
                Some(l) => if l[1] < cur[1] { Some((-1, 0)) } else { Some((1, 0)) },
                None => None,
            },
        };
        let (dx, dy) = match step {
            Some(d) => d,
            None => {
                return None;
            },
        };
        assert(step_dir(bits as int, cur, last_pos) == Some((dx as int, dy as int)));
        if state_visited(&ret, cur, last_pos) {
            proof {
                let q = next_after(f, ret@);
                assert([q.0 as usize, q.1 as usize] =~= cur);
                assert(trace_ends(f, ret@));
            }
            return Some(ret);
        }
        let ghost old_ret = ret@;
        let ghost code = state_code(w, cur, last_pos);
        proof {
            lemma_push_state(f, pos, old_ret, cur, last_pos, (dx as int, dy as int));
            lemma_state_code(w, h, cur, last_pos, cur, last_pos);
            if seen.contains(code) {
                let i = choose|i: int| 0 <= i < ret.len() && code == #[trigger] state_code(w, ret@[i], prev_of(ret@, i));
                lemma_state_code(w, h, cur, last_pos, ret@[i], prev_of(ret@, i));
                assert(false);
            }
        }
        ret.push(cur);
        proof {
            seen = seen.insert(code);
            lemma_prev_of_push(old_ret, cur);
            assert forall|c: int| seen.contains(c) implies exists|i: int| 0 <= i < ret.len()
                && c == #[trigger] state_code(w, ret@[i], prev_of(ret@, i)) by {
                if c == code {
                    assert(c == state_code(w, ret@[ret.len() - 1], prev_of(ret@, ret.len() - 1)));
                } else {
                    let i = choose|i: int| 0 <= i < old_ret.len() && c == #[trigger] state_code(w, old_ret[i], prev_of(old_ret, i));
                    assert(c == state_code(w, ret@[i], prev_of(ret@, i)));
                }
            }
            assert(0 <= 5 * w * h) by (nonlinear_arith) requires 0 <= w, 0 <= h;
            lemma_codes_bound(seen, 5 * w * h);
            assert forall|i: int| 0 <= i < ret.len() implies valid_state(w, h, #[trigger] ret@[i], prev_of(ret@, i)) by {
                if i < old_ret.len() {
                    assert(valid_state(w, h, old_ret[i], prev_of(old_ret, i)));
                }
            }
        }
        let x = cur[0] as isize + dx;
        let y = cur[1] as isize + dy;
        assert(next_after(f, ret@) == (x as int, y as int));
        if x < 0 || y < 0 {
            return Some(ret);
        }
        last_pos = Some(cur);
        cur = [x as usize, y as usize];
    }
}

} // verus!

verus! {

/// `line` is a whole contour traced from a cell of the field where a contour starts.
pub open spec fn is_contour<T: AsBoolField + ?Sized>(f: &T, line: Seq<[usize; 2]>) -> bool {
    exists|s: [usize; 2]|
        s[0] < f.shape_spec().0 && s[1] < f.shape_spec().1 && starts_trace(f, s) && #[trigger] is_trace(f, s, line)
}

/// The cell `s` lies on `line`.
pub open spec fn on_line(line: Seq<[usize; 2]>, s: [usize; 2]) -> bool {
    exists|i: int| 0 <= i < line.len() && #[trigger] line[i] == s
}

/// The index of cell `p` on a board of width `w`.
pub open spec fn grid_index(p: [usize; 2], w: int) -> int {
    p[0] + p[1] * w
}

/// What the contour scan keeps true of its lines and of the map from cells to the line slot
/// that last covered them: every cell of a line in `ret` before `slot`'s first `upto` cells is
/// marked; no line is listed twice; and every marked cell lies on some contour no longer than
/// the line now in its slot.
#[verifier::opaque]
pub open spec fn scan_marks<T: AsBoolField + ?Sized>(
    f: &T,
    ret: Seq<Vec<[usize; 2]>>,
    visited: Seq<Option<usize>>,
    w: int,
    h: int,
    slot: int,
    upto: int,
) -> bool {
    &&& forall|k: int, i: int| 0 <= k < ret.len() && 0 <= i < ret[k]@.len() && (k != slot || i < upto) ==>
        (#[trigger] visited[grid_index(ret[k]@[i], w)]) is Some
    &&& forall|k1: int, k2: int| 0 <= k1 < k2 < ret.len() ==> #[trigger] ret[k1]@ != #[trigger] ret[k2]@
    &&& forall|s: [usize; 2]| s[0] < w && s[1] < h && (#[trigger] visited[grid_index(s, w)]) is Some ==>
        exists|line: Seq<[usize; 2]>| #[trigger] is_contour(f, line) && on_line(line, s)
            && line.len() <= ret[visited[grid_index(s, w)]->0 as int]@.len()
}

/// Putting a newly traced line from an unmarked start cell into a slot: a new slot, or the
/// slot of a shorter line.
proof fn lemma_scan_place<T: AsBoolField + ?Sized>(
    f: &T,
    ret0: Seq<Vec<[usize; 2]>>,
    ret1: Seq<Vec<[usize; 2]>>,
    visited: Seq<Option<usize>>,
    w: int,
    h: int,
    slot: int,
    start: [usize; 2],
)
    requires
        1 <= w,
        1 <= h,
        visited.len() == w * h,
        scan_marks(f, ret0, visited, w, h, -1, 0),
        forall|j: int| 0 <= j < visited.len() && (#[trigger] visited[j]) is Some ==> visited[j]->0 < ret0.len(),
        start[0] < w,
        start[1] < h,
        visited[grid_index(start, w)] is None,
        0 <= slot <= ret0.len(),
        ret1.len() == if slot == ret0.len() { ret0.len() + 1 } else { ret0.len() },
        forall|k: int| 0 <= k < ret0.len() && k != slot ==> #[trigger] ret1[k] == ret0[k],
        slot < ret0.len() ==> ret0[slot]@.len() < ret1[slot]@.len(),
        ret1[slot]@.len() >= 1,
        ret1[slot]@[0] == start,
        forall|k: int, i: int| 0 <= k < ret0.len() && 0 <= i < ret0[k]@.len() ==>
            (#[trigger] ret0[k]@[i])[0] < w && ret0[k]@[i][1] < h,
    ensures
        scan_marks(f, ret1, visited, w, h, slot, 0),
{
    reveal(scan_marks);
    crate::dijkstra::lemma_rect_index(start[0] as int, start[1] as int, w, h);
    assert forall|k: int| 0 <= k < ret1.len() && k != slot implies #[trigger] ret1[k]@ != ret1[slot]@ by {
        assert(ret1[k] == ret0[k]);
        if ret1[k]@ == ret1[slot]@ {
            assert(ret0[k]@[0] == start);
            assert(visited[grid_index(ret0[k]@[0], w)] is Some);
        }
    }
    assert forall|k1: int, k2: int| 0 <= k1 < k2 < ret1.len() implies #[trigger] ret1[k1]@ != #[trigger] ret1[k2]@ by {
        if k1 != slot && k2 != slot {
            assert(ret1[k1] == ret0[k1] && ret1[k2] == ret0[k2]);
        } else if k1 == slot {
            assert(ret1[k2]@ != ret1[slot]@);
        } else {
            assert(ret1[k1]@ != ret1[slot]@);
        }
    }
    assert forall|s: [usize; 2]| s[0] < w && s[1] < h && (#[trigger] visited[grid_index(s, w)]) is Some implies
        exists|line: Seq<[usize; 2]>| #[trigger] is_contour(f, line) && on_line(line, s)
            && line.len() <= ret1[visited[grid_index(s, w)]->0 as int]@.len() by {
        crate::dijkstra::lemma_rect_index(s[0] as int, s[1] as int, w, h);
        let k = visited[grid_index(s, w)]->0 as int;
        let line = choose|line: Seq<[usize; 2]>| #[trigger] is_contour(f, line) && on_line(line, s)
            && line.len() <= ret0[k]@.len();
        if k != slot {
            assert(ret1[k] == ret0[k]);
        }
        assert(line.len() <= ret1[k]@.len());
    }
}

/// Marking the `i`-th cell of the line in `slot`.
proof fn lemma_scan_mark<T: AsBoolField + ?Sized>(
    f: &T,
    ret: Seq<Vec<[usize; 2]>>,
    visited: Seq<Option<usize>>,
    w: int,
    h: int,
    slot: usize,
    i: int,
)
    requires
        1 <= w,
        1 <= h,
        visited.len() == w * h,
        scan_marks(f, ret, visited, w, h, slot as int, i),
        slot < ret.len(),
        0 <= i < ret[slot as int]@.len(),
        is_contour(f, ret[slot as int]@),
        forall|k: int, j: int| 0 <= k < ret.len() && 0 <= j < ret[k]@.len() ==>
            (#[trigger] ret[k]@[j])[0] < w && ret[k]@[j][1] < h,
    ensures
        scan_marks(f, ret, visited.update(grid_index(ret[slot as int]@[i], w), Some(slot)), w, h, slot as int, i + 1),
{
    reveal(scan_marks);
    let p = ret[slot as int]@[i];
    let pi = grid_index(p, w);
    let v1 = visited.update(pi, Some(slot));
    crate::dijkstra::lemma_rect_index(p[0] as int, p[1] as int, w, h);
    assert forall|k: int, j: int| 0 <= k < ret.len() && 0 <= j < ret[k]@.len() && (k != slot || j < i + 1) implies
        (#[trigger] v1[grid_index(ret[k]@[j], w)]) is Some by {
        let q = ret[k]@[j];
        crate::dijkstra::lemma_rect_index(q[0] as int, q[1] as int, w, h);
        if grid_index(q, w) != pi {
            if k == slot && j == i {
                assert(q == p);
            }
        }
    }
    assert forall|s: [usize; 2]| s[0] < w && s[1] < h && (#[trigger] v1[grid_index(s, w)]) is Some implies
        exists|line: Seq<[usize; 2]>| #[trigger] is_contour(f, line) && on_line(line, s)
            && line.len() <= ret[v1[grid_index(s, w)]->0 as int]@.len() by {
        crate::dijkstra::lemma_rect_index(s[0] as int, s[1] as int, w, h);
        if grid_index(s, w) == pi {
            crate::dijkstra::lemma_rect_index_injective(s[0] as int, s[1] as int, p[0] as int, p[1] as int, w);
            assert(s =~= p);
            assert(on_line(ret[slot as int]@, s));
        } else {
            assert(v1[grid_index(s, w)] == visited[grid_index(s, w)]);
        }
    }
}

/// Two traces from one start are the same line: each step is fixed by the cell and the cell
/// before it, and both stop at the first point where the contour stops.
proof fn lemma_trace_unique<T: AsBoolField + ?Sized>(f: &T, start: [usize; 2], a: Seq<[usize; 2]>, b: Seq<[usize; 2]>)
    requires
        is_trace(f, start, a),
        is_trace(f, start, b),
    ensures
        a == b,
{
    lemma_trace_prefix(f, start, a, b);
    lemma_trace_prefix(f, start, b, a);
    assert forall|i: int| 0 <= i < a.len() implies a[i] == b[i] by {}
    assert(a =~= b);
}

/// A trace is no longer than another trace from the same start, and agrees with it.
proof fn lemma_trace_prefix<T: AsBoolField + ?Sized>(f: &T, start: [usize; 2], a: Seq<[usize; 2]>, b: Seq<[usize; 2]>)
    requires
        is_trace(f, start, a),
        is_trace(f, start, b),
    ensures
        b.len() <= a.len(),
        forall|i: int| 0 <= i < b.len() ==> #[trigger] a[i] == b[i],
{
    reveal(is_partial_trace);
    let n = if a.len() < b.len() { a.len() as int } else { b.len() as int };
    // the common part agrees, cell by cell
    assert forall|k: int| 0 <= k < n implies #[trigger] a[k] == b[k] by {
        lemma_trace_agree_upto(f, start, a, b, k);
    }
    if a.len() < b.len() {
        let m = a.len() as int;
        lemma_trace_agree_upto(f, start, a, b, m - 1);
        assert(prev_of(a, m - 1) == prev_of(b, m - 1));
        assert(dir_at(f, a, m - 1) == dir_at(f, b, m - 1));
        let q = next_after(f, a);
        assert(q == (b[m][0] as int, b[m][1] as int));
        assert([q.0 as usize, q.1 as usize] =~= b[m]);
        assert(1 <= bits_at(f, b[m]) <= 14);
        if exists|j: int| 0 <= j < a.len() && a[j] == [q.0 as usize, q.1 as usize] && prev_of(a, j) == Some(a.last()) {
            let j = choose|j: int| 0 <= j < a.len() && a[j] == [q.0 as usize, q.1 as usize] && prev_of(a, j) == Some(a.last());
            assert(b[j] == b[m]);
            assert(j > 0);
            assert(prev_of(b, j) == prev_of(b, m));
            assert(false);
        }
    }
    assert forall|i: int| 0 <= i < b.len() implies #[trigger] a[i] == b[i] by {
        assert(i < n);
    }
}

/// Two traces from one start agree on their first `k + 1` cells, as far as both reach.
proof fn lemma_trace_agree_upto<T: AsBoolField + ?Sized>(f: &T, start: [usize; 2], a: Seq<[usize; 2]>, b: Seq<[usize; 2]>, k: int)
    requires
        is_partial_trace(f, start, a),
        is_partial_trace(f, start, b),
        0 <= k < a.len(),
        k < b.len(),
    ensures
        forall|i: int| 0 <= i <= k ==> #[trigger] a[i] == b[i],
    decreases k,
{
    reveal(is_partial_trace);
    if k > 0 {
        lemma_trace_agree_upto(f, start, a, b, k - 1);
        assert(prev_of(a, k - 1) == prev_of(b, k - 1));
        assert(dir_at(f, a, k - 1) == dir_at(f, b, k - 1));
        assert(a[k] =~= b[k]);
        assert forall|i: int| 0 <= i <= k implies #[trigger] a[i] == b[i] by {
            if i < k {
                assert(a[i] == b[i]);
            }
        }
    }
}

/// The contour traced from `s` (see `trace_line_single`).
pub open spec fn traced<T: AsBoolField + ?Sized>(f: &T, s: [usize; 2]) -> Seq<[usize; 2]> {
    choose|line: Seq<[usize; 2]>| is_trace(f, s, line)
}

/// The lines of a list, as sequences.
pub open spec fn line_views(ret: Seq<Vec<[usize; 2]>>) -> Seq<Seq<[usize; 2]>> {
    ret.map_values(|v: Vec<[usize; 2]>| v@)
}

/// The slot that the first `i` cells of a new `line` pick to replace: the last of them that
/// some shorter line already covers, by the slot of that line.
pub open spec fn dup_slot(lines: Seq<Seq<[usize; 2]>>, vis: Seq<Option<usize>>, w: int, line: Seq<[usize; 2]>, i: int) -> Option<usize>
    decreases i,
{
    if i <= 0 {
        None
    } else {
        match vis[grid_index(line[i - 1], w)] {
            Some(e) => if lines[e as int].len() < line.len() { Some(e) } else { dup_slot(lines, vis, w, line, i - 1) },
            None => dup_slot(lines, vis, w, line, i - 1),
        }
    }
}

/// The cell map after the first `i` cells of `line` are marked as covered by `slot`.
pub open spec fn mark_line(vis: Seq<Option<usize>>, line: Seq<[usize; 2]>, w: int, slot: usize, i: int) -> Seq<Option<usize>>
    decreases i,
{
    if i <= 0 {
        vis
    } else {
        mark_line(vis, line, w, slot, i - 1).update(grid_index(line[i - 1], w), Some(slot))
    }
}

/// One step of the contour scan at the square `(x, y)`: a border square that no line covers
/// yet and that starts a contour has its contour traced; the contour takes the slot of the
/// shorter line it passes through last (or a new slot), and its cells are marked as covered by
/// it.
pub open spec fn scan_step<T: AsBoolField + ?Sized>(
    f: &T,
    st: (Seq<Seq<[usize; 2]>>, Seq<Option<usize>>),
    w: int,
    x: int,
    y: int,
) -> (Seq<Seq<[usize; 2]>>, Seq<Option<usize>>) {
    let s = [x as usize, y as usize];
    let b = bits_at(f, s);
    if b == 0 || b == 15 || st.1[grid_index(s, w)] is Some || !starts_trace(f, s) {
        st
    } else {
        let line = traced(f, s);
        let d = dup_slot(st.0, st.1, w, line, line.len() as int);
        let slot: int = match d { Some(k) => k as int, None => st.0.len() as int };
        let lines = match d { Some(k) => st.0.update(k as int, line), None => st.0.push(line) };
        (lines, mark_line(st.1, line, w, slot as usize, line.len() as int))
    }
}

/// The lines and cell map after the scan has passed the first `n` squares, row by row, of a
/// board `w` squares wide and `h` high.
pub open spec fn scan_upto<T: AsBoolField + ?Sized>(f: &T, w: int, h: int, n: nat) -> (Seq<Seq<[usize; 2]>>, Seq<Option<usize>>)
    decreases n,
{
    if n == 0 {
        (Seq::empty(), Seq::new((w * h) as nat, |i: int| None::<usize>))
    } else {
        scan_step(f, scan_upto(f, w, h, (n - 1) as nat), w, (n - 1) % w, (n - 1) / w)
    }
}

/// The contours that the scan of the whole field returns.
pub open spec fn scan_lines<T: AsBoolField + ?Sized>(f: &T) -> Seq<Seq<[usize; 2]>> {
    let w = f.shape_spec().0 as int;
    let h = f.shape_spec().1 as int;
    if w <= 0 || h <= 0 { Seq::empty() } else { scan_upto(f, w, h, (w * h) as nat).0 }
}

/// Every contour of the field. The squares are visited row by row; a border square that no
/// contour found so far passes through starts a new one. Where the new contour passes through a
/// cell of a shorter contour found before, it takes that contour's place. Some contour is found
/// whenever some square of the board starts one; no contour is listed twice; and every square
/// that starts a contour lies on a contour no longer than some returned line (the line itself,
/// or the longer one that took its place). The list is exactly the one `scan_lines` describes:
/// the row-major scan of `scan_step`, with the replacement rule of `dup_slot`.
pub fn trace_lines<T: AsBoolField>(f: &T) -> (res: Vec<Vec<[usize; 2]>>)
    requires
        f.readable(),
        f.shape_spec().0 < isize::MAX,
        f.shape_spec().1 < isize::MAX,
        f.shape_spec().0 * f.shape_spec().1 <= usize::MAX,
    ensures
        forall|k: int| 0 <= k < res.len() ==> is_contour(f, #[trigger] res@[k]@),
        (exists|s: [usize; 2]| s[0] < f.shape_spec().0 && s[1] < f.shape_spec().1 && #[trigger] starts_trace(f, s))
            ==> res.len() > 0,
        forall|k1: int, k2: int| 0 <= k1 < k2 < res.len() ==> #[trigger] res@[k1]@ != #[trigger] res@[k2]@,
        forall|s: [usize; 2]| s[0] < f.shape_spec().0 && s[1] < f.shape_spec().1 && #[trigger] starts_trace(f, s) ==>
            exists|k: int, line: Seq<[usize; 2]>| #![trigger res@[k], is_contour(f, line)]
                0 <= k < res.len() && is_contour(f, line) && on_line(line, s) && line.len() <= res@[k]@.len(),
        line_views(res@) == scan_lines(f),
{
    let shape = f.shape();
    let mut ret: Vec<Vec<[usize; 2]>> = Vec::new();
    if shape.0 <= 0 || shape.1 <= 0 {
        proof {
            assert(line_views(ret@) =~= scan_lines(f));
        }
        return ret;
    }
    let width: usize = shape.0 as usize;
    let height: usize = shape.1 as usize;
    let ghost w = shape.0 as int;
    let ghost h = shape.1 as int;
    let cells: usize = width * height;
    let mut visited: Vec<Option<usize>> = Vec::new();
    while visited.len() < cells
        invariant
            visited.len() <= cells,
            forall|j: int| 0 <= j < visited.len() ==> visited@[j] is None,
        decreases cells - visited.len(),
    {
        visited.push(None);
    }
    proof {
        assert(visited.len() == cells);
        assert((line_views(ret@), visited@) == scan_upto(f, w, h, 0)) by {
            assert(line_views(ret@) =~= Seq::<Seq<[usize; 2]>>::empty());
            assert(visited@ =~= Seq::new((w * h) as nat, |i: int| None::<usize>));
        }
        assert(scan_marks(f, ret@, visited@, w, h, -1, 0)) by {
            reveal(scan_marks);
            assert forall|s: [usize; 2]| s[0] < w && s[1] < h implies (#[trigger] visited@[grid_index(s, w)]) is None by {
                crate::dijkstra::lemma_rect_index(s[0] as int, s[1] as int, w, h);
            }
        }
    }
    let mut y: usize = 0;
    while y < height
        invariant
            f.readable(),
            shape == f.shape_spec(),
            w == shape.0,
            h == shape.1,
            width == w,
            height == h,
            w < isize::MAX,
            h < isize::MAX,
            cells == w * h,
            visited.len() == cells,
            y <= height,
            forall|j: int| 0 <= j < visited.len() && visited@[j] is Some ==> visited@[j]->0 < ret.len(),
            forall|k: int| 0 <= k < ret.len() ==> is_contour(f, #[trigger] ret@[k]@),
            forall|k: int, i: int| 0 <= k < ret.len() && 0 <= i < ret@[k].len() ==>
                (#[trigger] ret@[k]@[i])[0] < w && ret@[k]@[i][1] < h,
            ret.len() == 0 ==> forall|s: [usize; 2]| s[0] < w && s[1] < y ==> !#[trigger] starts_trace(f, s),
            scan_marks(f, ret@, visited@, w, h, -1, 0),
            forall|s: [usize; 2]| s[0] < w && s[1] < y && #[trigger] starts_trace(f, s) ==> visited@[grid_index(s, w)] is Some,
            (line_views(ret@), visited@) == scan_upto(f, w, h, (y * w) as nat),
        decreases height - y,
    {
        let mut x: usize = 0;
        while x < width
            invariant
                f.readable(),
                shape == f.shape_spec(),
                w == shape.0,
                h == shape.1,
                width == w,
                height == h,
                w < isize::MAX,
                h < isize::MAX,
                cells == w * h,
                visited.len() == cells,
                y < height,
                x <= width,
                forall|j: int| 0 <= j < visited.len() && visited@[j] is Some ==> visited@[j]->0 < ret.len(),
                forall|k: int| 0 <= k < ret.len() ==> is_contour(f, #[trigger] ret@[k]@),
                forall|k: int, i: int| 0 <= k < ret.len() && 0 <= i < ret@[k].len() ==>
                    (#[trigger] ret@[k]@[i])[0] < w && ret@[k]@[i][1] < h,
                ret.len() == 0 ==> forall|s: [usize; 2]|
                    s[0] < w && (s[1] < y || (s[1] == y && s[0] < x)) ==> !#[trigger] starts_trace(f, s),
                scan_marks(f, ret@, visited@, w, h, -1, 0),
                forall|s: [usize; 2]| s[0] < w && (s[1] < y || (s[1] == y && s[0] < x)) && #[trigger] starts_trace(f, s)
                    ==> visited@[grid_index(s, w)] is Some,
                (line_views(ret@), visited@) == scan_upto(f, w, h, (y * w + x) as nat),
            decreases width - x,
        {
            proof {
                crate::dijkstra::lemma_rect_index(x as int, y as int, w, h);
            }
            let bits = pick_bits(f, (x as isize, y as isize));
            let here: usize = x + y * width;
            let ghost n = y * w + x;
            let ghost st0 = (line_views(ret@), visited@);
            proof {
                vstd::arithmetic::div_mod::lemma_fundamental_div_mod_converse(n, w, y as int, x as int);
                assert(bits as int == bits_at(f, [x, y])) by { reveal(bits_at); }
                assert(grid_index([x, y], w) == here);
                assert(scan_upto(f, w, h, (n + 1) as nat) == scan_step(f, st0, w, x as int, y as int));
            }
            if bits == 0 || bits == 15 || visited[here].is_some() {
                proof {
                    if ret.len() == 0 {
                        assert forall|s: [usize; 2]|
                            s[0] < w && (s[1] < y || (s[1] == y && s[0] < x)) implies !#[trigger] starts_trace(f, s) by {
                        }
                    }
                    assert forall|s: [usize; 2]| s[0] < w && (s[1] < y || (s[1] == y && s[0] < x + 1)) && #[trigger] starts_trace(f, s)
                        implies visited@[grid_index(s, w)] is Some by {
                        if s[1] == y && s[0] == x {
                            assert(grid_index(s, w) == here);
                            if visited@[here as int] is None {
                                reveal(bits_at);
                                assert((s[0] as isize, s[1] as isize) == (x as isize, y as isize));
                            }
                        }
                    }
                    if ret.len() == 0 {
                        assert forall|s: [usize; 2]|
                            s[0] < w && (s[1] < y || (s[1] == y && s[0] < x + 1)) implies !#[trigger] starts_trace(f, s) by {
                            if s[1] == y && s[0] == x {
                                reveal(bits_at);
                                assert((s[0] as isize, s[1] as isize) == (x as isize, y as isize));
                            }
                        }
                    }
                    assert(scan_step(f, st0, w, x as int, y as int) == st0);
                }
                x += 1;
                continue;
            }
            let found = trace_line_single(f, [x, y]);
            let ghost nothing_traced = found is None;
            let ghost v_scan = visited@;
            if let Some(line) = found {
                let ghost start: [usize; 2] = [x, y];
                proof {
                    reveal(is_partial_trace);
                    assert(line@[0] == start);
                    lemma_trace_unique(f, start, line@, traced(f, start));
                    assert(start =~= [x as usize, y as usize]);
                }
                let mut duplicate: Option<usize> = None;
                let mut i: usize = 0;
                while i < line.len()
                    invariant
                        i <= line.len(),
                        width == w,
                        cells == w * h,
                        visited.len() == cells,
                        forall|j: int| 0 <= j < visited.len() && visited@[j] is Some ==> visited@[j]->0 < ret.len(),
                        forall|j: int| 0 <= j < line.len() ==> (#[trigger] line@[j])[0] < w && line@[j][1] < h,
                        duplicate is Some ==> duplicate->0 < ret.len(),
                        duplicate is Some ==> ret@[duplicate->0 as int]@.len() < line@.len(),
                        duplicate == dup_slot(line_views(ret@), visited@, w, line@, i as int),
                    decreases line.len() - i,
                {
                    let p = line[i];
                    proof {
                        crate::dijkstra::lemma_rect_index(p[0] as int, p[1] as int, w, h);
                        assert((p[0] + p[1] * width) as int == grid_index(line@[i as int], w));
                    }
                    if let Some(existing) = visited[p[0] + p[1] * width] {
                        if ret[existing].len() < line.len() {
                            duplicate = Some(existing);
                        }
                    }
                    i += 1;
                }
                let ghost ret0 = ret@;
                let ghost lv = line@;
                let ghost d = duplicate;
                let slot: usize = match duplicate {
                    Some(d) => {
                        ret.set(d, line);
                        d
                    },
                    None => {
                        ret.push(line);
                        ret.len() - 1
                    },
                };
                proof {
                    assert(ret@[slot as int]@ == lv);
                    assert(is_trace(f, start, ret@[slot as int]@));
                    assert(is_contour(f, ret@[slot as int]@));
                    assert forall|k: int| 0 <= k < ret0.len() && k != slot implies #[trigger] ret@[k] == ret0[k] by {}
                    assert(visited@[grid_index(start, w)] is None);
                    lemma_scan_place(f, ret0, ret@, visited@, w, h, slot as int, start);
                    match d {
                        Some(k) => assert(line_views(ret@) =~= line_views(ret0).update(k as int, lv)),
                        None => assert(line_views(ret@) =~= line_views(ret0).push(lv)),
                    }
                }
                let mut i: usize = 0;
                while i < ret[slot].len()
                    invariant
                        slot < ret.len(),
                        width == w,
                        cells == w * h,
                        visited.len() == cells,
                        forall|j: int| 0 <= j < visited.len() && visited@[j] is Some ==> visited@[j]->0 < ret.len(),
                        forall|k: int, i: int| 0 <= k < ret.len() && 0 <= i < ret@[k].len() ==>
                            (#[trigger] ret@[k]@[i])[0] < w && ret@[k]@[i][1] < h,
                        1 <= w,
                        1 <= h,
                        is_contour(f, ret@[slot as int]@),
                        scan_marks(f, ret@, visited@, w, h, slot as int, i as int),
                        forall|j: int| 0 <= j < visited.len() && (#[trigger] v_scan[j]) is Some ==> visited@[j] is Some,
                        ret@[slot as int]@[0] == start,
                        i > 0 ==> visited@[grid_index(start, w)] is Some,
                        ret@[slot as int]@ == lv,
                        i <= lv.len(),
                        visited@ == mark_line(v_scan, lv, w, slot, i as int),
                    decreases ret@[slot as int].len() - i,
                {
                    let p = ret[slot][i];
                    proof {
                        crate::dijkstra::lemma_rect_index(p[0] as int, p[1] as int, w, h);
                        crate::dijkstra::lemma_rect_index(start[0] as int, start[1] as int, w, h);
                        lemma_scan_mark(f, ret@, visited@, w, h, slot, i as int);
                    }
                    visited.set(p[0] + p[1] * width, Some(slot));
                    proof {
                        assert((p[0] + p[1] * width) as int == grid_index(p, w));
                        assert(visited@ =~= mark_line(v_scan, lv, w, slot, i + 1));
                        if i == 0 {
                            assert(p == start);
                        }
                        assert(visited@[grid_index(start, w)] is Some);
                    }
                    i += 1;
                }
                proof {
                    assert(scan_marks(f, ret@, visited@, w, h, -1, 0)) by { reveal(scan_marks); }
                    let sq = [x as usize, y as usize];
                    assert(sq =~= start);
                    assert(st0.1 == v_scan);
                    assert(st0.1[grid_index(sq, w)] is None);
                    assert(starts_trace(f, sq));
                    assert(traced(f, sq) == lv);
                    assert(d == dup_slot(st0.0, st0.1, w, lv, lv.len() as int));
                    assert(i as int == lv.len());
                    assert(visited@ == mark_line(st0.1, lv, w, slot, lv.len() as int));
                    match d {
                        Some(k) => {
                            assert(slot == k);
                            assert(line_views(ret@) == st0.0.update(k as int, lv));
                        },
                        None => {
                            assert(slot as int == st0.0.len());
                            assert(line_views(ret@) == st0.0.push(lv));
                        },
                    }
                    assert((line_views(ret@), visited@) == scan_step(f, st0, w, x as int, y as int));
                }
            } else {
                proof {
                    assert(scan_step(f, st0, w, x as int, y as int) == st0);
                }
            }
            proof {
                assert forall|s: [usize; 2]| s[0] < w && (s[1] < y || (s[1] == y && s[0] < x + 1)) && #[trigger] starts_trace(f, s)
                    implies visited@[grid_index(s, w)] is Some by {
                    if s[1] == y && s[0] == x {
                        assert(s =~= [x, y]);
                        assert(!nothing_traced);
                    } else {
                        crate::dijkstra::lemma_rect_index(s[0] as int, s[1] as int, w, h);
                        assert(v_scan[grid_index(s, w)] is Some);
                    }
                }
            }
            proof {
                if ret.len() == 0 {
                    assert(nothing_traced);
                    assert forall|s: [usize; 2]|
                        s[0] < w && (s[1] < y || (s[1] == y && s[0] < x + 1)) implies !#[trigger] starts_trace(f, s) by {
                        if s[1] == y && s[0] == x {
                            assert(s =~= [x, y]);
                        }
                    }
                }
            }
            x += 1;
        }
        proof {
            assert((y + 1) * w == y * w + w) by (nonlinear_arith);
        }
        y += 1;
    }
    proof {
        assert(h * w == w * h) by (nonlinear_arith);
    }
    proof {
        reveal(scan_marks);
        assert forall|s: [usize; 2]| s[0] < f.shape_spec().0 && s[1] < f.shape_spec().1 && #[trigger] starts_trace(f, s) implies
            exists|k: int, line: Seq<[usize; 2]>| #![trigger ret@[k], is_contour(f, line)]
                0 <= k < ret.len() && is_contour(f, line) && on_line(line, s) && line.len() <= ret@[k]@.len() by {
            crate::dijkstra::lemma_rect_index(s[0] as int, s[1] as int, w, h);
            let k = visited@[grid_index(s, w)]->0 as int;
            let line = choose|line: Seq<[usize; 2]>| #[trigger] is_contour(f, line) && on_line(line, s)
                && line.len() <= ret@[k]@.len();
            assert(0 <= k < ret.len() && is_contour(f, line) && on_line(line, s) && line.len() <= ret@[k]@.len());
        }
    }
    ret
}

} // verus!
