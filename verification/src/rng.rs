//! Deterministic pseudo-random source for the stochastic samplers.
//!
//! Scattering consumes entropy; holding the generator in an explicitly
//! passed value keeps every scatter call reproducible under a fixed seed
//! and free of global state. The step and the mapping to a fixed-point
//! sample are pinned down exactly, so two generators with equal states
//! produce equal draws.

use vstd::prelude::*;
use crate::vec3::SCALE;

verus! {

/// Multiplier of the linear congruential step.
pub const LCG_MUL: u64 = 6364136223846793005;

/// Increment of the linear congruential step.
pub const LCG_ADD: u64 = 1442695040888963407;

/// Successor state of the generator.
pub open spec fn spec_lcg_next(s: int) -> int {
    (s * LCG_MUL as int + LCG_ADD as int) % 0x1_0000_0000_0000_0000int
}

/// The fixed-point sample in `[-SCALE, SCALE]` read off a state.
pub open spec fn spec_sample(s: int) -> int {
    (s / 2048) % (2 * SCALE as int + 1) - SCALE as int
}

/// An explicitly seeded, deterministic pseudo-random generator (a linear
/// congruential generator).
pub struct Rng {
    pub state: u64,
}

impl Rng {
    pub fn new(seed: u64) -> (r: Rng)
        ensures
            r.state == seed,
    {
        Rng { state: seed }
    }

    /// Draw one fixed-point scalar, uniformly spread over `[-1, 1]`.
    pub fn next_unit(&mut self) -> (r: i64)
        ensures
            final(self).state as int == spec_lcg_next(old(self).state as int),
            r as int == spec_sample(final(self).state as int),
            -SCALE <= r <= SCALE,
    {
        let ghost s0: int = self.state as int;
        proof {
            assert((s0 * (LCG_MUL as int) + (LCG_ADD as int))
                < 0x1_0000_0000_0000_0000_0000_0000_0000_0000int) by (nonlinear_arith)
                requires
                    0 <= s0 < 0x1_0000_0000_0000_0000int,
            ;
        }
        let next: u128 = ((self.state as u128) * (LCG_MUL as u128) + (LCG_ADD as u128))
            % 0x1_0000_0000_0000_0000u128;
        self.state = next as u64;
        let t: u64 = (self.state / 2048) % (2 * (SCALE as u64) + 1);
        (t as i64) - SCALE
    }
}

} // verus!
