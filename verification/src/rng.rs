//! A small deterministic pseudo-random generator.
//!
//! The engine only needs best-effort spread (picking a host offset inside a
//! block, picking a candidate out of a pool), never cryptographic strength,
//! so a self-contained linear congruential generator keeps the whole drawing
//! path inside verified code.

use vstd::prelude::*;

verus! {

/// Multiplier of the linear congruential step (Knuth's MMIX constants).
pub const LCG_MUL: u64 = 6364136223846793005;
/// Increment of the linear congruential step.
pub const LCG_INC: u64 = 1442695040888963407;

/// Deterministic pseudo-random stream: same seed, same draws.
pub struct Lcg {
    pub state: u64,
}

impl Lcg {
    /// Start a stream from a seed.
    pub fn new(seed: u64) -> (r: Lcg)
        ensures
            r.state == seed,
    {
        Lcg { state: seed }
    }

    /// Advance the stream and hand back the new raw word.
    pub fn next_u64(&mut self) -> (r: u64)
        ensures
            r == final(self).state,
    {
        self.state = self.state.wrapping_mul(LCG_MUL).wrapping_add(LCG_INC);
        self.state
    }

    /// Draw a value below `bound`.
    pub fn below(&mut self, bound: u64) -> (r: u64)
        requires
            bound > 0,
        ensures
            r < bound,
    {
        let w = self.next_u64();
        w % bound
    }
}

} // verus!
