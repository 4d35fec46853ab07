//! Draws that spread the delays of retries, the same each time for one seed.

use vstd::prelude::*;

verus! {

/// How many draws there are: a draw stands for itself divided by this.
pub const DRAWS: u64 = 0x0020_0000_0000_0000;

/// The step of the generator's state.
pub const STEP: u64 = 0x9E37_79B9_7F4A_7C15;

/// The first multiplier of the generator's mixing.
pub const MIX_ONE: u64 = 0xBF58_476D_1CE4_E5B9;

/// The second multiplier of the generator's mixing.
pub const MIX_TWO: u64 = 0x94D0_49BB_1331_11EB;

/// A source of draws.
pub trait Jitter {
    /// The next draw, out of [`DRAWS`].
    fn next_draw(&mut self) -> (r: u64)
        ensures
            r < DRAWS,
    ;
}

/// A source whose draws are all zero: delays are not spread.
#[derive(Debug, Clone, Copy, PartialEq, Eq, Structural)]
pub struct NoJitter;

impl Default for NoJitter {
    fn default() -> (r: Self)
        ensures
            r == NoJitter,
    {
        NoJitter
    }
}

impl Jitter for NoJitter {
    fn next_draw(&mut self) -> (r: u64)
        ensures
            r == 0,
    {
        0
    }
}

/// A source whose draws follow from its seed.
#[derive(Debug, Clone, Copy, PartialEq, Eq, Structural)]
pub struct SeededJitter {
    state: u64,
}

/// The state after a draw.
pub open spec fn next_state(state: u64) -> u64 {
    state.wrapping_add(STEP)
}

/// The word that a state is mixed into.
pub open spec fn mixed(state: u64) -> u64 {
    let a = (state ^ (state >> 30)).wrapping_mul(MIX_ONE);
    let b = (a ^ (a >> 27)).wrapping_mul(MIX_TWO);
    b ^ (b >> 31)
}

/// The draw that a state gives: the high bits of the mixed word.
pub open spec fn draw_of(state: u64) -> u64 {
    mixed(state) >> 11
}

impl View for SeededJitter {
    type V = u64;

    closed spec fn view(&self) -> u64 {
        self.state
    }
}

impl SeededJitter {
    /// The source of a seed.
    #[must_use]
    pub fn new(seed: u64) -> (r: Self)
        ensures
            r@ == seed,
    {
        SeededJitter { state: seed }
    }
}

impl Jitter for SeededJitter {
    fn next_draw(&mut self) -> (r: u64)
        ensures
            final(self)@ == next_state(old(self)@),
            r == draw_of(final(self)@),
    {
        self.state = self.state.wrapping_add(STEP);
        let z: u64 = self.state;
        let a: u64 = (z ^ (z >> 30)).wrapping_mul(MIX_ONE);
        let b: u64 = (a ^ (a >> 27)).wrapping_mul(MIX_TWO);
        let c: u64 = b ^ (b >> 31);
        assert(c >> 11 < 0x0020_0000_0000_0000u64) by (bit_vector);
        c >> 11
    }
}

} // verus!
