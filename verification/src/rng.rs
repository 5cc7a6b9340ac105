//! A small seedable pseudo random number generator (SplitMix64) that drives
//! the program and edit generators. The same seed always yields the same
//! sequence of draws.

use vstd::prelude::*;

verus! {

pub struct Rng {
    state: u64,
}

/// The state after one draw.
pub open spec fn step_state(s: u64) -> u64 {
    s.wrapping_add(0x9E37_79B9_7F4A_7C15u64)
}

/// The output of a draw, a bijective scrambling of the new state.
pub open spec fn mix(z: u64) -> u64 {
    let a = (z ^ (z >> 30u64)).wrapping_mul(0xBF58_476D_1CE4_E5B9u64);
    let b = (a ^ (a >> 27u64)).wrapping_mul(0x94D0_49BB_1331_11EBu64);
    b ^ (b >> 31u64)
}

impl Rng {
    pub closed spec fn spec_state(&self) -> u64 {
        self.state
    }

    /// A generator seeded with `seed`.
    pub fn new(seed: u64) -> (r: Rng)
        ensures
            r.spec_state() == seed,
    {
        Rng { state: seed }
    }

    /// The next raw 64 bit draw.
    pub fn next_u64(&mut self) -> (r: u64)
        ensures
            final(self).spec_state() == step_state(old(self).spec_state()),
            r == mix(final(self).spec_state()),
    {
        self.state = self.state.wrapping_add(0x9E37_79B9_7F4A_7C15u64);
        let z = self.state;
        let a = (z ^ (z >> 30u64)).wrapping_mul(0xBF58_476D_1CE4_E5B9u64);
        let b = (a ^ (a >> 27u64)).wrapping_mul(0x94D0_49BB_1331_11EBu64);
        b ^ (b >> 31u64)
    }

    /// A draw in `0..n`.
    pub fn below(&mut self, n: usize) -> (r: usize)
        requires
            n > 0,
        ensures
            final(self).spec_state() == step_state(old(self).spec_state()),
            r == mix(step_state(old(self).spec_state())) % (n as u64),
            r < n,
    {
        let x = self.next_u64();
        (x % (n as u64)) as usize
    }

    /// One of `items`, chosen by a draw in `0..items.len()`.
    pub fn pick<'a, T>(&mut self, items: &'a [T]) -> (r: &'a T)
        requires
            items@.len() > 0,
        ensures
            final(self).spec_state() == step_state(old(self).spec_state()),
            *r == items@[(mix(step_state(old(self).spec_state())) % (items@.len() as u64)) as int],
            exists|k: int| 0 <= k < items@.len() && *r == items@[k],
    {
        let i = self.below(items.len());
        assert(items@[i as int] == items[i as int]);
        &items[i]
    }

    /// True with probability `num / den`: a draw in `0..den` falls below `num`.
    pub fn chance(&mut self, num: usize, den: usize) -> (r: bool)
        requires
            den > 0,
        ensures
            final(self).spec_state() == step_state(old(self).spec_state()),
            r == (mix(step_state(old(self).spec_state())) % (den as u64) < num),
    {
        self.below(den) < num
    }
}

} // verus!
