//! A small deterministic pseudo-random generator.
//!
//! The life grid's `randomize` operation takes its randomness from the
//! caller through this generator, so a fixed seed reproduces the same
//! grid every time.

use vstd::prelude::*;

verus! {

/// One step of the linear congruential recurrence that drives [`SimpleRng`]:
/// multiply by 1103515245 and add 12345, both modulo 2^64.
pub open spec fn lcg_next(s: u64) -> u64 {
    s.wrapping_mul(1103515245).wrapping_add(12345)
}

/// The generator state after `k` draws starting from seed `s`.
pub open spec fn lcg_stream(s: u64, k: nat) -> u64
    decreases k,
{
    if k == 0 {
        s
    } else {
        lcg_next(lcg_stream(s, (k - 1) as nat))
    }
}

/// A linear congruential pseudo-random generator with 64-bit state.
///
/// Every draw both advances the state and is the value handed out, so the
/// whole output stream is a function of the seed alone.
pub struct SimpleRng {
    seed: u64,
}

impl View for SimpleRng {
    type V = u64;

    closed spec fn view(&self) -> u64 {
        self.seed
    }
}

impl SimpleRng {
    /// Creates a generator whose state is exactly `seed`.
    pub fn new(seed: u64) -> (r: SimpleRng)
        ensures
            r@ == seed,
    {
        SimpleRng { seed }
    }

    /// Draws the next value: advances the state by one step of the
    /// recurrence and returns the new state.
    pub fn next(&mut self) -> (r: u64)
        ensures
            final(self)@ == lcg_next(old(self)@),
            r == final(self)@,
    {
        self.seed = self.seed.wrapping_mul(1103515245).wrapping_add(12345);
        self.seed
    }
}

} // verus!
