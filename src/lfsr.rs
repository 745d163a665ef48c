//! A 16-bit Fibonacci LFSR that feeds back bits 0, 3, 12 and 14 of its state, and
//! runs until it is back at its seed.

use vstd::prelude::*;

verus! {

/// The state the register starts from and returns to.
pub const SEED: u16 = 0xCA75;

/// The bit fed back into the top of state `x`.
pub open spec fn feedback_bit(x: u16) -> u16 {
    ((x >> 0u16) ^ (x >> 3u16) ^ (x >> 12u16) ^ (x >> 14u16)) & 1u16
}

/// The state after `x`: shifted down one place, with the feedback bit on top.
pub open spec fn next_state(x: u16) -> u16 {
    (x >> 1u16) | (feedback_bit(x) << 15u16)
}

/// The register, with the seed it started from and the last bit it fed back.
pub struct LFSR16 {
    seed: u16,
    lfsr: u16,
    bit: u16,
}

impl LFSR16 {
    /// The current state of the register.
    pub closed spec fn state(self) -> u16 {
        self.lfsr
    }

    /// The state at which the run ends.
    pub closed spec fn seed(self) -> u16 {
        self.seed
    }

    /// Steps the register once. Returns the new state, or `None` once it is back at
    /// the seed.
    pub fn next(&mut self) -> (r: Option<u16>)
        ensures
            final(self).state() == next_state(old(self).state()),
            final(self).seed() == old(self).seed(),
            r == if next_state(old(self).state()) != old(self).seed() {
                Some(next_state(old(self).state()))
            } else {
                None::<u16>
            },
    {
        self.bit = ((self.lfsr >> 0u16) ^ (self.lfsr >> 3u16) ^ (self.lfsr >> 12u16) ^ (self.lfsr >> 14u16)) & 1u16;
        self.lfsr = (self.lfsr >> 1u16) | (self.bit << 15u16);
        if self.lfsr != self.seed {
            Some(self.lfsr)
        } else {
            None
        }
    }
}

impl Default for LFSR16 {
    fn default() -> (r: LFSR16)
        ensures
            r.state() == SEED,
            r.seed() == SEED,
    {
        LFSR16 { seed: SEED, lfsr: SEED, bit: 0 }
    }
}

} // verus!
