use vstd::prelude::*;
use vstd::wrapping::u64_specs::{wrapping_add, wrapping_mul};

verus! {

/// Increment added to the state on every draw.
pub const GOLDEN_GAMMA: u64 = 0x9E3779B97f4A7C15;

/// First mixing multiplier.
pub const MIX_MUL_1: u64 = 0xBF58476D1CE4E5B9;

/// Second mixing multiplier.
pub const MIX_MUL_2: u64 = 0x94D049BB133111EB;

/// The state after one draw from `state`.
pub open spec fn advance(state: u64) -> u64 {
    wrapping_add(state, GOLDEN_GAMMA)
}

/// The output mixed from an advanced state `z`.
pub open spec fn mix(z: u64) -> u64 {
    let z1 = wrapping_mul(z ^ (z >> 30u64), MIX_MUL_1);
    let z2 = wrapping_mul(z1 ^ (z1 >> 27u64), MIX_MUL_2);
    z2 ^ (z2 >> 31u64)
}

/// A SplitMix64 pseudo-random stream: reproducible from its seed.
pub struct SplitMix64 {
    state: u64,
}

impl SplitMix64 {
    /// The current state.
    pub closed spec fn state(&self) -> u64 {
        self.state
    }

    /// A stream seeded with `seed`.
    pub fn new(seed: u64) -> (r: Self)
        ensures
            r.state() == seed,
    {
        Self { state: seed }
    }

    /// Advances the state and returns the mixed output.
    pub fn next_u64(&mut self) -> (r: u64)
        ensures
            final(self).state() == advance(old(self).state()),
            r == mix(final(self).state()),
    {
        let mut z = self.state.wrapping_add(GOLDEN_GAMMA);
        self.state = z;
        z = (z ^ (z >> 30)).wrapping_mul(MIX_MUL_1);
        z = (z ^ (z >> 27)).wrapping_mul(MIX_MUL_2);
        z ^ (z >> 31)
    }

    /// A draw from `1..=n-1` for `n > 2` (one step of the stream); 1 otherwise,
    /// leaving the stream as it was.
    pub fn gen_range_1_to_n_minus_1(&mut self, n: u64) -> (r: u64)
        ensures
            n <= 2 ==> r == 1 && final(self).state() == old(self).state(),
            n > 2 ==> final(self).state() == advance(old(self).state()) && r as int == mix(
                final(self).state(),
            ) as int % (n - 1) + 1,
            1 <= r,
            n > 2 ==> r <= n - 1,
    {
        if n <= 2 {
            return 1;
        }
        (self.next_u64() % (n - 1)) + 1
    }
}

} // verus!
