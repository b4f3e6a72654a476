//! A deterministic pseudo-random source used to draw tower heights.
//!
//! The generator is a Lehmer / Park-Miller linear congruential generator
//! over the prime modulus 2^31 - 1 with multiplier 16807.

use vstd::prelude::*;

verus! {

/// A stream of pseudo-random integers, plus derived helpers.
///
/// Implementors only supply `next`; nothing is assumed about the values it
/// yields, so every client must be correct for an arbitrary stream.
pub trait RandomGenerator: Sized {
    fn next(&mut self) -> u32;

    /// A value uniformly distributed in `[0, n-1]`.
    fn uniform(&mut self, n: u32) -> (r: u32)
        requires
            n > 0,
        ensures
            r < n,
    {
        self.next() % n
    }

    /// True roughly one time in `n`.
    fn one_in(&mut self, n: u32) -> (r: bool)
        requires
            n > 0,
    {
        self.next() % n == 0
    }

    /// Picks `base` uniformly from `[0, max_log]` and then returns `base`
    /// random bits, biasing exponentially towards small numbers.
    fn skewed(&mut self, max_log: u32) -> u32
        requires
            max_log < u32::MAX,
    {
        let base = self.uniform(max_log + 1);
        let sh = base % 32;
        assert(1u32 << sh > 0) by (bit_vector)
            requires
                sh < 32,
        ;
        let tmp: u32 = 1u32 << sh;
        self.uniform(tmp)
    }
}

/// The seed transformation applied once at construction: keep the low 31
/// bits, and avoid the two fixed points 0 and 2^31 - 1 of the generator.
pub open spec fn initial_seed(s: u32) -> u32 {
    let m = s & 0x7fff_ffff;
    if m == 0 || m == 0x7fff_ffff {
        1
    } else {
        m
    }
}

/// One Lehmer step: `seed * 16807 mod (2^31 - 1)`, computed the classical
/// way as `hi + lo` of the 46-bit product with one conditional correction.
pub open spec fn lcg_next(s: u32) -> u32 {
    let product = (s as int) * 16807;
    let t = product / 0x8000_0000 + product % 0x8000_0000;
    if t > 0x7fff_ffff {
        (t - 0x7fff_ffff) as u32
    } else {
        t as u32
    }
}

/// The Park-Miller generator.
pub struct Random {
    seed: u32,
}

impl Random {
    /// The state the next drawn value is computed from.
    pub closed spec fn seed_spec(self) -> u32 {
        self.seed
    }

    pub fn new(s: u32) -> (r: Random)
        ensures
            r.seed_spec() == initial_seed(s),
    {
        let mut seed = s & 0x7fff_ffff_u32;
        if seed == 0 || seed == 2_147_483_647 {
            seed = 1;
        }
        Random { seed }
    }
}

impl RandomGenerator for Random {
    /// For this generator the helpers are pinned exactly: each consumes
    /// one Lehmer step and reduces it.
    fn uniform(&mut self, n: u32) -> (r: u32)
        ensures
            r == lcg_next(old(self).seed_spec()) % n,
            final(self).seed_spec() == lcg_next(old(self).seed_spec()),
    {
        self.next() % n
    }

    fn one_in(&mut self, n: u32) -> (r: bool)
        ensures
            r == (lcg_next(old(self).seed_spec()) % n == 0),
            final(self).seed_spec() == lcg_next(old(self).seed_spec()),
    {
        self.next() % n == 0
    }

    fn next(&mut self) -> (r: u32)
        ensures
            r == lcg_next(old(self).seed_spec()),
            final(self).seed_spec() == r,
    {
        let product: u64 = (self.seed as u64) * 16807;
        proof {
            vstd::arithmetic::power2::lemma2_to64();
            vstd::bits::lemma_low_bits_mask_values();
            vstd::bits::lemma_u64_shr_is_div(product, 31);
            vstd::bits::lemma_u64_low_bits_mask_is_mod(product, 31);
        }
        assert((product >> 31) == product as int / 0x8000_0000);
        assert((product & 0x7fff_ffff) == product as int % 0x8000_0000);
        let mut s: u64 = (product >> 31) + (product & 0x7fff_ffff);
        if s > 0x7fff_ffff {
            s = s - 0x7fff_ffff;
        }
        self.seed = s as u32;
        self.seed
    }
}

} // verus!
