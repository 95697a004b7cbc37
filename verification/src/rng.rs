//! The source of random draws.  The solver only ever consumes draws below a
//! bound, and every draw is a function of the source's state, so a run is
//! replayable from its seed; [`RandomSource::from_entropy`] gives a fresh
//! unpredictable seed for ordinary use.
//!
//! The generator is a counter stepped by a fixed increment whose value is
//! scrambled by two multiply-xorshift rounds, so draws are well spread even
//! for adjacent seeds.

use vstd::prelude::*;

verus! {

/// The counter increment between draws.
pub const STATE_INC: u64 = 0x9E3779B97F4A7C15;

/// Multiplier of the first scrambling round.
pub const MIX_MUL_1: u64 = 0xBF58476D1CE4E5B9;

/// Multiplier of the second scrambling round.
pub const MIX_MUL_2: u64 = 0x94D049BB133111EB;

/// 64-bit wrapping addition.
pub open spec fn wrap_add(a: u64, b: u64) -> u64 {
    ((a as int + b as int) % 0x1_0000_0000_0000_0000) as u64
}

/// 64-bit wrapping multiplication.
pub open spec fn wrap_mul(a: u64, b: u64) -> u64 {
    ((a as int * b as int) % 0x1_0000_0000_0000_0000) as u64
}

/// The scrambler: two multiply-xorshift rounds and a final shift.
pub open spec fn mix64(z: u64) -> u64 {
    let z1 = wrap_mul(z ^ (z >> 30), MIX_MUL_1);
    let z2 = wrap_mul(z1 ^ (z1 >> 27), MIX_MUL_2);
    z2 ^ (z2 >> 31)
}

/// The state that follows `s`.
pub open spec fn next_state(s: u64) -> u64 {
    wrap_add(s, STATE_INC)
}

/// The raw 64-bit value drawn when stepping from state `s`.
pub open spec fn draw_of(s: u64) -> u64 {
    mix64(next_state(s))
}

/// The draw below `n` made when stepping from state `s`.
pub open spec fn draw_below(s: u64, n: u64) -> u64 {
    (draw_of(s) as int % n as int) as u64
}

/// A seeded generator of pseudo-random draws.  Equal states yield equal
/// draw sequences, which is what makes a solver run replayable.
#[derive(Clone, Copy, Debug, PartialEq, Eq, Structural)]
pub struct RandomSource {
    pub state: u64,
}

/// Relies on rand::random: a fresh 64-bit seed from the thread-local
/// generator.  Nothing is assumed of its value.
#[verifier::external_body]
fn fresh_seed() -> u64 {
    rand::random::<u64>()
}

/// 64-bit wrapping multiplication.
fn wrap_mul_exec(a: u64, b: u64) -> (r: u64)
    ensures
        r == wrap_mul(a, b),
{
    proof {
        assert((a as int) * (b as int) <= (u64::MAX as int) * (u64::MAX as int))
            by (nonlinear_arith)
            requires
                0 <= a as int <= u64::MAX as int,
                0 <= b as int <= u64::MAX as int,
        ;
    }
    let wide: u128 = (a as u128) * (b as u128);
    (wide % 0x1_0000_0000_0000_0000u128) as u64
}

impl RandomSource {
    /// A source that replays the same draws for the same seed.
    pub fn with_seed(seed: u64) -> (r: RandomSource)
        ensures
            r.state == seed,
    {
        RandomSource { state: seed }
    }

    /// A source seeded unpredictably from the process's entropy.
    pub fn from_entropy() -> (r: RandomSource) {
        RandomSource { state: fresh_seed() }
    }

    /// Advances the state once and returns its draw below `n`.
    pub fn next_below(&mut self, n: u64) -> (r: u64)
        requires
            n > 0,
        ensures
            final(self).state == next_state(old(self).state),
            r == draw_below(old(self).state, n),
            r < n,
    {
        let wide: u128 = (self.state as u128) + (STATE_INC as u128);
        let s = (wide % 0x1_0000_0000_0000_0000u128) as u64;
        self.state = s;
        let z1 = wrap_mul_exec(s ^ (s >> 30), MIX_MUL_1);
        let z2 = wrap_mul_exec(z1 ^ (z1 >> 27), MIX_MUL_2);
        let z = z2 ^ (z2 >> 31);
        z % n
    }
}

} // verus!
