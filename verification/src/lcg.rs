//! The linear congruential generator that the benchmark drivers use to make
//! deterministic input data.

use vstd::prelude::*;

verus! {

/// The multiplier of the generator.
pub const LCG_A: u64 = 6364136223846793005;

/// The increment of the generator.
pub const LCG_C: u64 = 1;

/// The state that follows `seed`: `seed * LCG_A + LCG_C`, wrapping.
pub open spec fn lcg_next_spec(seed: u64) -> u64 {
    vstd::wrapping::u64_specs::wrapping_add(
        vstd::wrapping::u64_specs::wrapping_mul(seed, LCG_A),
        LCG_C,
    )
}

/// Advances the generator by one state.
pub fn lcg_next(seed: u64) -> (r: u64)
    ensures
        r == lcg_next_spec(seed),
{
    seed.wrapping_mul(LCG_A).wrapping_add(LCG_C)
}

} // verus!
