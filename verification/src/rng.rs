//! The source of the random choices: a small generator that gives the same
//! numbers again for the same seed.

use vstd::prelude::*;

verus! {

/// The state after `s`: a fixed odd step further, modulo 2^64.
pub open spec fn advanced(s: u64) -> u64 {
    s.wrapping_add(0x9E37_79B9_7F4A_7C15u64)
}

/// The state after `k` draws from state `s`.
pub open spec fn advanced_by(s: u64, k: nat) -> u64
    decreases k,
{
    if k == 0 {
        s
    } else {
        advanced(advanced_by(s, (k - 1) as nat))
    }
}

/// Drawing `a` numbers and then `b` more is drawing `a + b`.
pub proof fn lemma_advanced_on(s: u64, a: nat, b: nat)
    ensures
        advanced_by(advanced_by(s, a), b) == advanced_by(s, a + b),
    decreases b,
{
    if b > 0 {
        lemma_advanced_on(s, a, (b - 1) as nat);
        assert(advanced_by(s, a + b) == advanced(advanced_by(s, (a + b - 1) as nat)));
    }
}

/// The number that is drawn in state `s`: its bits, stirred.
pub open spec fn drawn(s: u64) -> u64 {
    let a = (s ^ (s >> 30u64)).wrapping_mul(0xBF58_476D_1CE4_E5B9u64);
    let b = (a ^ (a >> 27u64)).wrapping_mul(0x94D0_49BB_1331_11EBu64);
    b ^ (b >> 31u64)
}

/// A generator of numbers that look random and depend on the seed alone.
#[derive(Debug)]
pub struct Rng {
    state: u64,
}

impl Rng {
    /// The state that the next number will be drawn after.
    pub closed spec fn state(&self) -> u64 {
        self.state
    }

    /// A generator that starts from `seed`.
    pub fn new(seed: u64) -> (rng: Rng)
        ensures
            rng.state() == seed,
    {
        Rng { state: seed }
    }

    /// Moves the state on and draws a number from it.
    pub fn next_u64(&mut self) -> (v: u64)
        ensures
            final(self).state() == advanced(old(self).state()),
            v == drawn(final(self).state()),
    {
        self.state = self.state.wrapping_add(0x9E37_79B9_7F4A_7C15u64);
        let s: u64 = self.state;
        let a: u64 = (s ^ (s >> 30u64)).wrapping_mul(0xBF58_476D_1CE4_E5B9u64);
        let b: u64 = (a ^ (a >> 27u64)).wrapping_mul(0x94D0_49BB_1331_11EBu64);
        b ^ (b >> 31u64)
    }

    /// Moves the state on and draws a number below `bound`.
    pub fn below(&mut self, bound: usize) -> (v: usize)
        requires
            bound > 0,
        ensures
            final(self).state() == advanced(old(self).state()),
            v == drawn(final(self).state()) % (bound as u64),
            v < bound,
    {
        let d: u64 = self.next_u64();
        let v: u64 = d % (bound as u64);
        v as usize
    }
}

} // verus!
