//! A small seeded generator of pseudo-random words (SplitMix64).
//!
//! The generator is a value like any other: the same seed gives the same
//! words, on every machine.

use vstd::prelude::*;

verus! {

/// The increment of the state between two words.
pub const GOLDEN_GAMMA: u64 = 0x9E37_79B9_7F4A_7C15;

/// The first multiplier of the output mix.
pub const MIX_ONE: u64 = 0xBF58_476D_1CE4_E5B9;

/// The second multiplier of the output mix.
pub const MIX_TWO: u64 = 0x94D0_49BB_1331_11EB;

/// The state that follows `state`.
pub open spec fn advance(state: u64) -> u64 {
    state.wrapping_add(GOLDEN_GAMMA)
}

/// The word that the generator gives out when its state is `state`.
pub open spec fn mix(state: u64) -> u64 {
    let a = (state ^ (state >> 30)).wrapping_mul(MIX_ONE);
    let b = (a ^ (a >> 27)).wrapping_mul(MIX_TWO);
    b ^ (b >> 31)
}

/// The 128-bit number made of the next two words after `state`, the first
/// word on top.
pub open spec fn wide_draw(state: u64) -> u128 {
    ((mix(advance(state)) as u128) << 64) | (mix(advance(advance(state))) as u128)
}

/// A seeded source of pseudo-random words.
#[derive(Clone, Copy, Debug)]
pub struct Rng {
    state: u64,
}

impl Rng {
    /// The current state.
    pub closed spec fn state(&self) -> u64 {
        self.state
    }

    /// A generator that starts from `seed`.
    pub fn new(seed: u64) -> (rng: Rng)
        ensures
            rng.state() == seed,
    {
        Rng { state: seed }
    }

    /// Advances the state and gives out the next word.
    pub fn next_u64(&mut self) -> (word: u64)
        ensures
            final(self).state() == advance(old(self).state()),
            word == mix(final(self).state()),
    {
        self.state = self.state.wrapping_add(GOLDEN_GAMMA);
        let a: u64 = (self.state ^ (self.state >> 30)).wrapping_mul(MIX_ONE);
        let b: u64 = (a ^ (a >> 27)).wrapping_mul(MIX_TWO);
        b ^ (b >> 31)
    }

    /// Gives out the next two words as one 128-bit number.
    pub fn next_u128(&mut self) -> (wide: u128)
        ensures
            final(self).state() == advance(advance(old(self).state())),
            wide == wide_draw(old(self).state()),
    {
        let high: u64 = self.next_u64();
        let low: u64 = self.next_u64();
        ((high as u128) << 64) | (low as u128)
    }
}

} // verus!
