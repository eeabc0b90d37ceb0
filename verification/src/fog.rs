//! The fog of war: what each team has seen of the board and when, and the picture of the board
//! that it gives.

use vstd::prelude::*;

verus! {

/// How long a seen pixel stays dimmed before it fades to the darkest shade.
pub const FOG_MAX_AGE: i32 = 10000;

/// The gray of an obstacle pixel in the occupancy image.
pub const OBSTACLE_COLOR: u8 = 80;

/// The gray of a free pixel in the occupancy image.
pub const BACKGROUND_COLOR: u8 = 191;

/// `a - b`, clamped to the range of `i32`.
pub open spec fn sat_sub_spec(a: i32, b: i32) -> i32 {
    if a - b > i32::MAX {
        i32::MAX
    } else if a - b < i32::MIN {
        i32::MIN
    } else {
        (a - b) as i32
    }
}

/// `a - b`, clamped to the range of `i32`, as `i32::saturating_sub` computes it.
pub fn sat_sub(a: i32, b: i32) -> (res: i32)
    ensures
        res == sat_sub_spec(a, b),
{
    let d: i64 = a as i64 - b as i64;
    if d > i32::MAX as i64 {
        i32::MAX
    } else if d < i32::MIN as i64 {
        i32::MIN
    } else {
        d as i32
    }
}

/// What a team knows of the board: for each pixel, the last time the team saw it.
pub struct FogOfWar {
    pub fow: Vec<i32>,
}

/// The pixel `pos` lies on a board of the given shape.
pub open spec fn on_board(shape: (usize, usize), pos: [i64; 2]) -> bool {
    0 <= pos[0] < shape.0 && 0 <= pos[1] < shape.1
}

/// The index of the pixel `pos` in a board of the given shape, row by row.
pub open spec fn pixel_index(shape: (usize, usize), pos: [i64; 2]) -> int {
    pos[0] + pos[1] * shape.0
}

proof fn lemma_pixel_index(shape: (usize, usize), pos: [i64; 2])
    requires
        on_board(shape, pos),
    ensures
        0 <= pixel_index(shape, pos) < shape.0 * shape.1,
{
    assert(pos[1] * shape.0 <= (shape.1 - 1) * shape.0) by (nonlinear_arith)
        requires
            0 <= pos[1] < shape.1,
    ;
    assert((shape.1 - 1) * shape.0 == shape.0 * shape.1 - shape.0) by (nonlinear_arith);
    assert(0 <= pos[1] * shape.0) by (nonlinear_arith)
        requires
            0 <= pos[1],
    ;
}

impl FogOfWar {
    /// A fog that has seen nothing of a board of `len` pixels.
    pub fn new(len: usize) -> (res: Self)
        ensures
            res.fow@ == Seq::new(len as nat, |_i: int| i32::MIN),
    {
        let mut fow: Vec<i32> = Vec::new();
        while fow.len() < len
            invariant
                fow.len() <= len,
                forall|i: int| 0 <= i < fow.len() ==> fow@[i] == i32::MIN,
            decreases len - fow.len(),
        {
            fow.push(i32::MIN);
        }
        assert(fow@ =~= Seq::new(len as nat, |_i: int| i32::MIN));
        FogOfWar { fow }
    }

    /// Whether the team sees the pixel `pos` at `global_time`: always, without fog of war;
    /// never off the board; otherwise when the pixel was seen at that time or later.
    pub fn is_clear_at(&self, fow_enabled: bool, shape: (usize, usize), global_time: i32, pos: [i64; 2]) -> (res: bool)
        requires
            shape.0 * shape.1 <= self.fow.len(),
        ensures
            res == if !fow_enabled {
                true
            } else if !on_board(shape, pos) {
                false
            } else {
                global_time <= self.fow@[pixel_index(shape, pos)]
            },
    {
        if !fow_enabled {
            return true;
        }
        if pos[0] < 0 || pos[1] < 0 || pos[0] as u64 >= shape.0 as u64 || pos[1] as u64 >= shape.1 as u64 {
            return false;
        }
        proof {
            lemma_pixel_index(shape, pos);
        }
        let i = pos[0] as usize + pos[1] as usize * shape.0;
        global_time <= self.fow[i]
    }

    /// Whether the team last saw the pixel `pos` at least `age` ticks before `global_time`:
    /// always, without fog of war; never off the board.
    pub fn is_older_than(&self, fow_enabled: bool, shape: (usize, usize), global_time: i32, pos: [i64; 2], age: i32) -> (res: bool)
        requires
            shape.0 * shape.1 <= self.fow.len(),
        ensures
            res == if !fow_enabled {
                true
            } else if !on_board(shape, pos) {
                false
            } else {
                age <= sat_sub_spec(global_time, self.fow@[pixel_index(shape, pos)])
            },
    {
        if !fow_enabled {
            return true;
        }
        if pos[0] < 0 || pos[1] < 0 || pos[0] as u64 >= shape.0 as u64 || pos[1] as u64 >= shape.1 as u64 {
            return false;
        }
        proof {
            lemma_pixel_index(shape, pos);
        }
        let i = pos[0] as usize + pos[1] as usize * shape.0;
        age <= sat_sub(global_time, self.fow[i])
    }
}

/// The gray of a pixel without fog.
pub open spec fn base_color(free: bool) -> u8 {
    if free { BACKGROUND_COLOR } else { OBSTACLE_COLOR }
}

/// The gray `c` dimmed by how long ago, before `global_time`, the pixel was seen at `time`:
/// full when seen now, two thirds when seen within `FOG_MAX_AGE`, half when longer ago.
pub open spec fn age_shade(c: u8, global_time: i32, time: i32) -> u8 {
    let age = sat_sub_spec(global_time, time);
    if age == 0 {
        c
    } else if age < FOG_MAX_AGE {
        (c * 2 / 3) as u8
    } else {
        c / 2
    }
}

fn shade(c: u8, global_time: i32, time: i32) -> (res: u8)
    ensures
        res == age_shade(c, global_time, time),
{
    let age = sat_sub(global_time, time);
    if age == 0 {
        c
    } else if age < FOG_MAX_AGE {
        (c as i32 * 2 / 3) as u8
    } else {
        c / 2
    }
}

/// The color of a pixel in the occupancy image, given whether it is free, when each team last
/// saw it, which teams' fog is shown, and whether each team's fog has a color of its own.
pub open spec fn pixel_rgb(free: bool, f0: i32, f1: i32, global_time: i32, fa0: bool, fa1: bool, colored: bool) -> [u8; 3] {
    let c = base_color(free);
    if !fa0 && !fa1 {
        [c, c, c]
    } else if colored {
        if fa0 && fa1 {
            let c0 = age_shade(c, global_time, f0);
            let c1 = age_shade(c, global_time, f1);
            [c1 / 2, c0 / 2, if c1 < c0 { c0 } else { c1 }]
        } else if fa0 {
            let c0 = age_shade(c, global_time, f0);
            [c / 4, c0 / 2, c0]
        } else {
            let c1 = age_shade(c, global_time, f1);
            [c1 / 2, c / 4, c1]
        }
    } else {
        let time = if fa0 && fa1 {
            if f0 < f1 { f1 } else { f0 }
        } else if fa0 {
            f0
        } else {
            f1
        };
        let cc = age_shade(c, global_time, time);
        [cc / 2, cc / 2, cc]
    }
}

fn pixel_color(free: bool, f0: i32, f1: i32, global_time: i32, fa0: bool, fa1: bool, colored: bool) -> (res: [u8; 3])
    ensures
        res == pixel_rgb(free, f0, f1, global_time, fa0, fa1, colored),
{
    let c = if free { BACKGROUND_COLOR } else { OBSTACLE_COLOR };
    if !fa0 && !fa1 {
        [c, c, c]
    } else if colored {
        if fa0 && fa1 {
            let c0 = shade(c, global_time, f0);
            let c1 = shade(c, global_time, f1);
            [c1 / 2, c0 / 2, if c1 < c0 { c0 } else { c1 }]
        } else if fa0 {
            let c0 = shade(c, global_time, f0);
            [c / 4, c0 / 2, c0]
        } else {
            let c1 = shade(c, global_time, f1);
            [c1 / 2, c / 4, c1]
        }
    } else {
        let time = if fa0 && fa1 {
            if f0 < f1 { f1 } else { f0 }
        } else if fa0 {
            f0
        } else {
            f1
        };
        let cc = shade(c, global_time, time);
        [cc / 2, cc / 2, cc]
    }
}

/// The occupancy image of a board: three bytes, red, green and blue, for each pixel. With fog
/// of war the pixels are dimmed by the fog of the teams that `fog_active` shows, up to the
/// shortest of the board and the two fogs; without it they show only the board.
pub fn occupancy_image(
    board: &[bool],
    shape: (usize, usize),
    fog0: &FogOfWar,
    fog1: &FogOfWar,
    fow_enabled: bool,
    global_time: i32,
    fog_active: &[bool; 2],
    colored_fog: bool,
) -> (res: Option<([usize; 2], Vec<u8>)>)
    requires
        3 * board.len() <= usize::MAX,
    ensures
        res matches Some((s, img)) && s == [shape.0, shape.1] && {
            let n = if !fow_enabled {
                board.len() as int
            } else {
                let m = if fog0.fow.len() < fog1.fow.len() { fog0.fow.len() as int } else { fog1.fow.len() as int };
                if board.len() < m { board.len() as int } else { m }
            };
            &&& img.len() == 3 * n
            &&& forall|i: int, k: int| 0 <= i < n && 0 <= k < 3 ==> #[trigger] img@[3 * i + k] == if fow_enabled {
                pixel_rgb(board@[i], fog0.fow@[i], fog1.fow@[i], global_time, fog_active[0], fog_active[1], colored_fog)[k]
            } else {
                base_color(board@[i])
            }
        },
{
    let n = if !fow_enabled {
        board.len()
    } else {
        let m = if fog0.fow.len() < fog1.fow.len() { fog0.fow.len() } else { fog1.fow.len() };
        if board.len() < m { board.len() } else { m }
    };
    let mut img: Vec<u8> = Vec::new();
    let mut i: usize = 0;
    while i < n
        invariant
            n <= board.len(),
            fow_enabled ==> n <= fog0.fow.len() && n <= fog1.fow.len(),
            3 * board.len() <= usize::MAX,
            i <= n,
            img.len() == 3 * i,
            forall|j: int, k: int| 0 <= j < i && 0 <= k < 3 ==> #[trigger] img@[3 * j + k] == if fow_enabled {
                pixel_rgb(board@[j], fog0.fow@[j], fog1.fow@[j], global_time, fog_active[0], fog_active[1], colored_fog)[k]
            } else {
                base_color(board@[j])
            },
        decreases n - i,
    {
        let rgb = if fow_enabled {
            pixel_color(board[i], fog0.fow[i], fog1.fow[i], global_time, fog_active[0], fog_active[1], colored_fog)
        } else {
            let c = if board[i] { BACKGROUND_COLOR } else { OBSTACLE_COLOR };
            [c, c, c]
        };
        let ghost before = img@;
        img.push(rgb[0]);
        img.push(rgb[1]);
        img.push(rgb[2]);
        proof {
            assert forall|j: int, k: int| 0 <= j <= i && 0 <= k < 3 implies #[trigger] img@[3 * j + k] == if fow_enabled {
                pixel_rgb(board@[j], fog0.fow@[j], fog1.fow@[j], global_time, fog_active[0], fog_active[1], colored_fog)[k]
            } else {
                base_color(board@[j])
            } by {
                if j < i {
                    assert(img@[3 * j + k] == before[3 * j + k]);
                }
            }
        }
        i += 1;
    }
    Some(([shape.0, shape.1], img))
}

} // verus!
