use crate::clock::since_epoch;
use crate::random::{scale, spec_scale};
use std::time::SystemTime;
use vstd::prelude::*;

verus! {

/// The multiplier of the generator.
pub const MULTIPLIER: u128 = 0xF1C47040DE494ACC251D055F00F0A1AB;

/// A multiplicative congruential generator on 128 bits of state, whose
/// output folds the state into 64 bits and rotates them.
pub struct Rand {
    pub seed: u128,
}

/// `x` rotated to the right by `by` bits, for `by` below 64.
pub open spec fn spec_rotate_right(x: u64, by: u32) -> u64 {
    if by == 0 {
        x
    } else {
        (x >> by) | (x << ((64 - by) as u32))
    }
}

/// The state that follows `seed`.
pub open spec fn spec_step(seed: u128) -> u128 {
    seed.wrapping_mul(MULTIPLIER)
}

/// The output that state `seed` yields: its two halves combined by
/// exclusive or, rotated right by the number in its top six bits.
pub open spec fn spec_output(seed: u128) -> u64 {
    spec_rotate_right(((seed >> 64) as u64) ^ (seed as u64), (seed >> 122) as u32)
}

fn rotate_right(x: u64, by: u32) -> (rotated: u64)
    requires
        by < 64,
    ensures
        rotated == spec_rotate_right(x, by),
{
    if by == 0 {
        x
    } else {
        (x >> by) | (x << (64 - by))
    }
}

impl Default for Rand {
    /// A generator seeded from the wall clock: the nanoseconds since the
    /// epoch, made odd. A clock that reads earlier than the epoch seeds with
    /// one.
    fn default() -> (rand: Self)
        ensures
            rand.seed & 1 == 1,
    {
        let nanos = match since_epoch(&SystemTime::now()) {
            Ok(duration) => duration.as_nanos(),
            Err(_) => 0,
        };
        Rand::new(nanos)
    }
}

impl Rand {
    /// A generator seeded with `nanos`, made odd.
    pub fn new(nanos: u128) -> (rand: Self)
        ensures
            rand.seed == nanos | 1,
            rand.seed & 1 == 1,
    {
        assert((nanos | 1) & 1 == 1) by (bit_vector);
        Rand { seed: nanos | 1 }
    }

    /// Steps the generator and returns the output of the new state.
    pub fn random_raw(&mut self) -> (raw: u64)
        ensures
            final(self).seed == spec_step(old(self).seed),
            raw == spec_output(final(self).seed),
    {
        self.seed = self.seed.wrapping_mul(MULTIPLIER);
        let seed = self.seed;
        assert((seed >> 122) < 64) by (bit_vector);
        let rot = (seed >> 122) as u32;
        let xsl = (#[verifier::truncate] ((seed >> 64) as u64)) ^ (#[verifier::truncate] (seed as u64));
        rotate_right(xsl, rot)
    }

    /// A number from `min` up to, but not including, `max`: the generator's
    /// next output, spread evenly over that range. An empty range yields
    /// `min`.
    pub fn random_range(&mut self, min: usize, max: usize) -> (picked: usize)
        requires
            min <= max,
        ensures
            final(self).seed == spec_step(old(self).seed),
            min == max ==> picked == min,
            min < max ==> picked == min + spec_scale(
                spec_output(final(self).seed),
                (max - min) as usize,
            ),
            min < max ==> min <= picked < max,
    {
        let raw = self.random_raw();
        if min == max {
            min
        } else {
            min + scale(raw, max - min)
        }
    }
}

} // verus!
