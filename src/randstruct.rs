use vstd::prelude::*;

use oorandom::Rand32;

verus! {

#[verifier::external_type_specification]
#[verifier::external_body]
pub struct ExRand32(oorandom::Rand32);

/// Relies on `oorandom::Rand32::new`: a generator seeded with `seed`.
#[verifier::external_body]
fn rand32_new(seed: u64) -> Rand32 {
    Rand32::new(seed)
}

/// Relies on `oorandom::Rand32::rand_u32`: the next 32 random bits.
#[verifier::external_body]
fn rand32_u32(rng: &mut Rand32) -> u32 {
    rng.rand_u32()
}

/// Relies on `oorandom::Rand32::rand_range`: for a non-empty range, a value
/// in `lo..hi`.
#[verifier::external_body]
fn rand32_range(rng: &mut Rand32, lo: u32, hi: u32) -> (r: u32)
    requires
        lo < hi,
    ensures
        lo <= r < hi,
{
    rng.rand_range(lo..hi)
}

/// Seconds added to the clock reading before it seeds the master generator.
pub const SEED_OFFSET_SECS: u64 = 86400;

/// Two generators: a master one, seeded from the clock, that draws map
/// seeds, and the map generator that the generation passes draw from.
pub struct RandStruct {
    god: Rand32,
    map: Rand32,
    map_seed: u64,
}

impl RandStruct {
    /// The seed of the current map generator.
    pub closed spec fn seed(&self) -> u64 {
        self.map_seed
    }

    /// Seeds the master generator from a clock reading (seconds since the
    /// epoch, moved a day ahead, held to `u64`), then draws the first map
    /// seed as the sum of two 32-bit draws.
    pub fn new(now_secs: u64) -> (r: Self)
        ensures
            r.seed() <= 2 * (u32::MAX as int),
    {
        let start = now_secs.saturating_add(SEED_OFFSET_SECS);
        let mut god = rand32_new(start);
        let a = rand32_u32(&mut god);
        let b = rand32_u32(&mut god);
        let map_seed = a as u64 + b as u64;
        let map = rand32_new(map_seed);
        RandStruct { god, map, map_seed }
    }

    /// The next 32 random bits of the map generator.
    pub fn get_map_u32(&mut self) -> (r: u32)
        ensures
            final(self).seed() == old(self).seed(),
    {
        rand32_u32(&mut self.map)
    }

    /// A value of the map generator in `lo..=hi`.
    pub fn get_map_range(&mut self, lo: u32, hi: u32) -> (r: u32)
        requires
            lo <= hi < u32::MAX,
        ensures
            lo <= r <= hi,
            final(self).seed() == old(self).seed(),
    {
        rand32_range(&mut self.map, lo, hi + 1)
    }

    /// Draws a new map seed from the master generator and restarts the map
    /// generator from it.
    pub fn randomize_map(&mut self)
        ensures
            final(self).seed() <= 2 * (u32::MAX as int),
    {
        let a = rand32_u32(&mut self.god);
        let b = rand32_u32(&mut self.god);
        self.map_seed = a as u64 + b as u64;
        self.map = rand32_new(self.map_seed);
    }

    /// The seed of the current map generator.
    pub fn map_seed(&self) -> (r: u64)
        ensures
            r == self.seed(),
    {
        self.map_seed
    }
}

} // verus!
