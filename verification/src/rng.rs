//! The seeded pseudorandom stream that drives eviction choices.
//!
//! Replica convergence hinges on every replica drawing the identical stream,
//! so the generator is a fixed xorshift recurrence whose whole behaviour is
//! spelled out in specification functions: two tables seeded alike and asked
//! the same questions in the same order get the same answers, provably.

use vstd::prelude::*;

verus! {

/// The xorshift successor of a state.
pub open spec fn rng_next(s: u64) -> u64 {
    let a = s ^ (s << 13);
    let b = a ^ (a >> 7);
    b ^ (b << 17)
}

/// The state a seed starts from; a zero seed is displaced to a fixed odd
/// constant, since zero is a fixed point of the recurrence.
pub open spec fn seed_state(seed: u64) -> u64 {
    if seed == 0 {
        0x9E3779B97F4A7C15u64
    } else {
        seed
    }
}

/// The coin drawn from state `s`.
pub open spec fn rng_coin(s: u64) -> bool {
    rng_next(s) & 1 == 1
}

/// The draw from `[0, n)` made from state `s`.
pub open spec fn rng_pick(s: u64, n: int) -> int
    recommends
        n > 0,
{
    rng_next(s) as int % n
}

/// Deterministic seeded source of eviction choices.
#[derive(Debug, Clone, Copy, PartialEq, Eq, Structural)]
pub struct EvictionRng {
    pub state: u64,
}

impl EvictionRng {
    /// A generator seeded with `seed`.
    pub fn seed_from_u64(seed: u64) -> (r: EvictionRng)
        ensures
            r.state == seed_state(seed),
    {
        if seed == 0 {
            EvictionRng { state: 0x9E3779B97F4A7C15u64 }
        } else {
            EvictionRng { state: seed }
        }
    }

    /// Advances the state once and returns it.
    pub fn next_u64(&mut self) -> (r: u64)
        ensures
            final(self).state == rng_next(old(self).state),
            r == rng_next(old(self).state),
    {
        let s = self.state;
        let a = s ^ (s << 13u64);
        let b = a ^ (a >> 7u64);
        let c = b ^ (b << 17u64);
        self.state = c;
        c
    }

    /// Draws one coin.
    pub fn gen_bool(&mut self) -> (r: bool)
        ensures
            final(self).state == rng_next(old(self).state),
            r == rng_coin(old(self).state),
    {
        let v = self.next_u64();
        v & 1 == 1
    }

    /// Draws a slot choice below `n`.
    pub fn gen_range(&mut self, n: usize) -> (r: usize)
        requires
            n > 0,
        ensures
            final(self).state == rng_next(old(self).state),
            r as int == rng_pick(old(self).state, n as int),
            r < n,
    {
        let v = self.next_u64();
        (v % (n as u64)) as usize
    }
}

} // verus!
