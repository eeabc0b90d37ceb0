//! The pseudo-random generator that board generation draws from: Marsaglia's xorshift with
//! 128 bits of state, started from a seed.

use vstd::prelude::*;

verus! {

/// The generator's state: four 32-bit words.
#[derive(Clone, Copy, Debug, PartialEq, Eq, Structural)]
pub struct Xor128 {
    pub x: u32,
    pub y: u32,
    pub z: u32,
    pub w: u32,
}

/// The state after one draw; the number drawn is its last word.
pub open spec fn xor128_next(g: Xor128) -> Xor128 {
    let t = g.x ^ (g.x << 11u32);
    Xor128 { x: g.y, y: g.z, z: g.w, w: g.w ^ (g.w >> 19u32) ^ (t ^ (t >> 8u32)) }
}

/// The state a generator started from `seed` is in.
pub open spec fn xor128_seeded(seed: u32) -> Xor128 {
    Xor128 { x: 123456789u32 ^ seed, y: 362436069u32, z: 521288629u32, w: 88675123u32 }
}

impl Xor128 {
    /// A generator started from `seed`.
    pub fn new(seed: u32) -> (res: Self)
        ensures
            res == xor128_seeded(seed),
    {
        Xor128 { x: 123456789u32 ^ seed, y: 362436069u32, z: 521288629u32, w: 88675123u32 }
    }

    /// Draws the next number.
    pub fn nexti(&mut self) -> (res: u32)
        ensures
            *final(self) == xor128_next(*old(self)),
            res == final(self).w,
    {
        let t = self.x ^ (self.x << 11u32);
        let w = self.w ^ (self.w >> 19u32) ^ (t ^ (t >> 8u32));
        self.x = self.y;
        self.y = self.z;
        self.z = self.w;
        self.w = w;
        w
    }
}

} // verus!
