//! The random source threaded through every mutating operation.
//!
//! The generator is a splitmix64 stream, implemented and specified here so
//! that every draw is an exact function of the seed: reproducibility of a
//! run is a theorem, not a convention.

use vstd::prelude::*;

verus! {

/// Additive constant of the splitmix64 state transition.
pub const SM_GAMMA: u64 = 0x9E3779B97F4A7C15;
/// First multiplier of the splitmix64 output mix.
pub const SM_MUL1: u64 = 0xBF58476D1CE4E5B9;
/// Second multiplier of the splitmix64 output mix.
pub const SM_MUL2: u64 = 0x94D049BB133111EB;

/// The successor of a splitmix64 state.
pub open spec fn sm_next(s: u64) -> u64 {
    s.wrapping_add(SM_GAMMA)
}

/// The output word derived from a splitmix64 state.
pub open spec fn sm_mix(z0: u64) -> u64 {
    let z1 = (z0 ^ (z0 >> 30u64)).wrapping_mul(SM_MUL1);
    let z2 = (z1 ^ (z1 >> 27u64)).wrapping_mul(SM_MUL2);
    z2 ^ (z2 >> 31u64)
}

/// A deterministic pseudo-random source. Equal seeds give equal draw
/// sequences; every mutating entry point of the network takes one of these
/// explicitly, so a whole run is a function of its seed and configuration.
pub struct SimRng {
    /// Current splitmix64 state.
    pub state: u64,
}

impl SimRng {
    /// A source that will produce the stream determined by `seed`.
    pub fn new(seed: u64) -> (r: SimRng)
        ensures
            r.state == seed,
    {
        SimRng { state: seed }
    }

    /// Draw the next 64-bit word of the stream.
    pub fn next_u64(&mut self) -> (r: u64)
        ensures
            final(self).state == sm_next(old(self).state),
            r == sm_mix(sm_next(old(self).state)),
    {
        let z0 = self.state.wrapping_add(SM_GAMMA);
        self.state = z0;
        let z1 = (z0 ^ (z0 >> 30u64)).wrapping_mul(SM_MUL1);
        let z2 = (z1 ^ (z1 >> 27u64)).wrapping_mul(SM_MUL2);
        z2 ^ (z2 >> 31u64)
    }

    /// Draw a value below `n`, by reducing the next word of the stream.
    pub fn below(&mut self, n: u64) -> (r: u64)
        requires
            n > 0,
        ensures
            final(self).state == sm_next(old(self).state),
            r == sm_mix(sm_next(old(self).state)) % n,
            r < n,
    {
        let w = self.next_u64();
        w % n
    }

    /// Draw a value below `n`, composing two words of the stream into a
    /// 128-bit draw.
    pub fn below_u128(&mut self, n: u128) -> (r: u128)
        requires
            n > 0,
        ensures
            final(self).state == sm_next(sm_next(old(self).state)),
            r as int == ((sm_mix(sm_next(old(self).state)) as int) * 0x10000000000000000 + (sm_mix(
                sm_next(sm_next(old(self).state)),
            ) as int)) % (n as int),
            r < n,
    {
        let hi = self.next_u64();
        let lo = self.next_u64();
        let w = (hi as u128) * 0x10000000000000000u128 + (lo as u128);
        w % n
    }
}

} // verus!
