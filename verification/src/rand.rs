//! The xorshiftr+ pseudo-random generator used to place enemies.
use vstd::prelude::*;

verus! {

/// The number one step of xorshiftr+ returns for the state `(s0, s1)`.
pub open spec fn xorshiftr_out(s0: u64, s1: u64) -> u64 {
    let x1 = s0 ^ (s0 << 23u64);
    let x2 = x1 ^ (x1 >> 17u64);
    x2 ^ s1
}

/// The state that follows `(s0, s1)`.
pub open spec fn xorshiftr_next(s0: u64, s1: u64) -> (u64, u64) {
    (s1, vstd::wrapping::u64_specs::wrapping_add(xorshiftr_out(s0, s1), s1))
}

/// The first half of the seed every generator starts from.
pub const SEED_0: u64 = 0x63FE_C530_B8C3_0795;

/// The second half of the seed every generator starts from.
pub const SEED_1: u64 = 0x0B11_1B51_1583_A7A2;

/// One step of the generator on an explicit state: the number it returns
/// and the state it leaves.
fn step(state: &mut [u64; 2]) -> (x: u64)
    ensures
        x == xorshiftr_out(old(state)@[0], old(state)@[1]),
        final(state)@.len() == 2,
        (final(state)@[0], final(state)@[1]) == xorshiftr_next(old(state)@[0], old(state)@[1]),
{
    let mut x = state[0];
    let y = state[1];
    state[0] = y;
    x ^= x << 23u64;
    x ^= x >> 17u64;
    x ^= y;
    state[1] = x.wrapping_add(y);
    x
}

/// A xorshiftr+ generator.
pub struct PRNG {
    state: [u64; 2],
}

impl View for PRNG {
    type V = (u64, u64);

    closed spec fn view(&self) -> (u64, u64) {
        (self.state@[0], self.state@[1])
    }
}

impl Default for PRNG {
    /// The generator at the fixed seed.
    fn default() -> (g: Self)
        ensures
            g@ == (SEED_0, SEED_1),
    {
        PRNG { state: [SEED_0, SEED_1] }
    }
}

impl PRNG {
    /// Returns the next number and advances the state.
    pub fn get_next_number(&mut self) -> (x: u64)
        ensures
            x == xorshiftr_out(old(self)@.0, old(self)@.1),
            final(self)@ == xorshiftr_next(old(self)@.0, old(self)@.1),
    {
        step(&mut self.state)
    }
}

/// The enemy spawner's own xorshiftr+ generator, with the same seed.
pub struct QuickRandState {
    s: [u64; 2],
}

impl View for QuickRandState {
    type V = (u64, u64);

    closed spec fn view(&self) -> (u64, u64) {
        (self.s@[0], self.s@[1])
    }
}

impl Default for QuickRandState {
    /// The generator at the fixed seed.
    fn default() -> (g: Self)
        ensures
            g@ == (SEED_0, SEED_1),
    {
        QuickRandState { s: [SEED_0, SEED_1] }
    }
}

impl QuickRandState {
    /// Returns the next number and advances the state.
    pub fn next(&mut self) -> (x: u64)
        ensures
            x == xorshiftr_out(old(self)@.0, old(self)@.1),
            final(self)@ == xorshiftr_next(old(self)@.0, old(self)@.1),
    {
        step(&mut self.s)
    }
}

} // verus!
