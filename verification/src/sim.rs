//! The deterministic pieces of the request-path simulation: the modes it
//! compares and its reproducible xorshift64* generator.

use vstd::prelude::*;

verus! {

/// The request-path variants the simulation compares.
#[derive(Clone, Copy, Debug, PartialEq, Eq)]
pub enum Mode {
    /// Reliable delivery with no fault-tolerance durability.
    ReliableBaseline,
    /// Durability rides the delivery's commit phase and adds no executor time.
    FtOverlap,
    /// Durability is a serial stable-storage write on the executor's path.
    FtFsync,
}

/// One xorshift step of the generator's state.
pub open spec fn xorshift(x: u64) -> u64 {
    let a = x ^ (x >> 12u64);
    let b = a ^ (a << 25u64);
    b ^ (b >> 27u64)
}

/// The output for a state: the state times the xorshift64* multiplier, mod 2^64.
pub open spec fn scramble(x: u64) -> u64 {
    ((x as nat * 0x2545F4914F6CDD1Dnat) % 0x1_0000_0000_0000_0000nat) as u64
}

/// A reproducible xorshift64* generator.
pub struct Rng {
    state: u64,
}

impl Rng {
    pub closed spec fn state(&self) -> u64 {
        self.state
    }

    /// A generator seeded with `seed` (made odd, so never zero).
    pub fn new(seed: u64) -> (r: Self)
        ensures
            r.state() == seed | 1,
    {
        Rng { state: seed | 1 }
    }

    /// Advance the state one xorshift step and return its scrambled value.
    pub fn next_u64(&mut self) -> (r: u64)
        ensures
            final(self).state() == xorshift(old(self).state()),
            r == scramble(final(self).state()),
    {
        let mut x = self.state;
        x = x ^ (x >> 12u64);
        x = x ^ (x << 25u64);
        x = x ^ (x >> 27u64);
        self.state = x;
        x.wrapping_mul(0x2545F4914F6CDD1Du64)
    }
}

} // verus!
