//! Seeded, repeatable pseudo-random numbers for procedural effects.
//!
//! Every generator is derived from one global seed plus the values mixed
//! into it, so the same identifiers always produce the same "random"
//! outcomes, no matter which part of the simulation asks first. The exact
//! mixing formula is not part of any contract; what the contracts fix is
//! determinism and the range of each drawn value.

use vstd::prelude::*;

verus! {

/// One step of the generator's state transition.
pub open spec fn spec_rng_mix(state: u64, value: u64) -> u64 {
    (((state ^ value) as int * 6364136223846793005 + 1442695040888963407) % 0x1_0000_0000_0000_0000) as u64
}

/// Resource providing pre-seeded generators for procedural effects.
#[derive(Clone, Copy, PartialEq, Eq, Structural, Debug)]
pub struct SeededHasherResource(pub u64);

impl SeededHasherResource {
    pub fn new(seed: u32) -> (r: SeededHasherResource)
        ensures
            r.0 == seed as u64,
    {
        SeededHasherResource(seed as u64)
    }

    /// Derives a generator from the global seed and one extra value, such
    /// as an entity id: the same seed and value give the same generator.
    pub fn with(&self, value: u64) -> (r: HashedRng)
        ensures
            r.0 == spec_rng_mix(self.0, value),
    {
        let mut rng = HashedRng(self.0);
        rng.with(value);
        rng
    }
}

/// A pseudo-random number generator based purely on integer mixing. Two
/// generators built from the same seed and fed the same values return the
/// same sequence of numbers, which keeps procedural effects repeatable.
#[derive(Clone, Copy, PartialEq, Eq, Structural, Debug)]
pub struct HashedRng(pub u64);

impl HashedRng {
    /// Mixes one more value into the generator's state.
    pub fn with(&mut self, value: u64)
        ensures
            final(self).0 == spec_rng_mix(old(self).0, value),
    {
        let mixed = self.0 ^ value;
        self.0 = mixed.wrapping_mul(6364136223846793005).wrapping_add(1442695040888963407);
        proof {
            assert(final(self).0 == spec_rng_mix(old(self).0, value)) by {
                assert(((mixed as int * 6364136223846793005) % 0x1_0000_0000_0000_0000
                    + 1442695040888963407) % 0x1_0000_0000_0000_0000 == (mixed as int
                    * 6364136223846793005 + 1442695040888963407) % 0x1_0000_0000_0000_0000) by {
                    vstd::arithmetic::div_mod::lemma_add_mod_noop(
                        mixed as int * 6364136223846793005,
                        1442695040888963407,
                        0x1_0000_0000_0000_0000,
                    );
                    assert(1442695040888963407int % 0x1_0000_0000_0000_0000
                        == 1442695040888963407int);
                }
            }
        }
    }

    /// Draws the next value and advances the state, so the next draw gives
    /// a different value.
    pub fn value(&mut self) -> (r: u64)
        ensures
            r == old(self).0,
            final(self).0 == spec_rng_mix(old(self).0, 1),
    {
        let value = self.0;
        self.with(1);
        value
    }

    /// Draws a value in `[start, end)`.
    pub fn value_in_range(&mut self, start: usize, end: usize) -> (r: usize)
        requires
            start < end,
        ensures
            start <= r < end,
            r == start + old(self).0 as int % (end - start),
            final(self).0 == spec_rng_mix(old(self).0, 1),
    {
        let range_size = end - start;
        let drawn = self.value();
        start + ((drawn % (range_size as u64)) as usize)
    }
}

} // verus!
