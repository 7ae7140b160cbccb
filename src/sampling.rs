use vstd::prelude::*;

verus! {

/// Multiplier of one round of the integer hash.
pub const HASH_MULTIPLIER: u32 = 1_936_502_639;

/// Multiplier of the golden-ratio sequence (2^32 divided by the golden ratio).
pub const GOLDEN_RATIO_MULTIPLIER: u32 = 2_654_435_769;

/// Number of Sobol dimensions that the low-discrepancy generator provides.
pub const SOBOL_DIMENSIONS: u32 = 256;

/// Largest sample index (exclusive) for which the Sobol generator is defined.
pub const SOBOL_MAX_SAMPLES: u32 = 65536;

/// One round of the hash: multiply, fold the high half down, mix in the seed.
pub open spec fn hash_round(h: u32, seed: u32) -> u32 {
    let m = h.wrapping_mul(HASH_MULTIPLIER);
    (m ^ (m >> 16u32)) ^ seed
}

/// The seeded integer hash: three rounds of `hash_round`.
pub open spec fn hash_spec(n: u32, seed: u32) -> u32 {
    hash_round(hash_round(hash_round(n, seed), seed), seed)
}

/// Seeded integer hash used to decorrelate samplers.
pub fn hash_u32(n: u32, seed: u32) -> (r: u32)
    ensures
        r == hash_spec(n, seed),
{
    let mut hash: u32 = n;
    let mut i: u32 = 0;
    while i < 3
        invariant
            0 <= i <= 3,
            i == 0 ==> hash == n,
            i == 1 ==> hash == hash_round(n, seed),
            i == 2 ==> hash == hash_round(hash_round(n, seed), seed),
            i == 3 ==> hash == hash_spec(n, seed),
        decreases 3 - i,
    {
        hash = hash.wrapping_mul(HASH_MULTIPLIER);
        hash = hash ^ hash.wrapping_shr(16);
        hash = hash ^ seed;
        i = i + 1;
    }
    hash
}

/// Where the next uniform draw of a sampler comes from.
#[derive(Debug, Copy, Clone, PartialEq, Eq, Structural)]
pub enum Draw {
    /// One dimension of an Owen-scrambled Sobol point.
    Sobol { sample_index: u32, dimension: u32, seed: u32 },
    /// Dimensions past the Sobol table fall back to hashed bits, read as a
    /// fraction of 2^32.
    Hashed { bits: u32 },
}

/// Per-(pixel, sample) source of uniform draws.
///
/// Every draw consumes one dimension; the state is derived from the pixel,
/// the sample index and the global seed alone.
#[derive(Debug, Copy, Clone)]
pub struct Sampler {
    pub scramble: u32,
    pub dimension: u32,
    pub index: u32,
}

/// Scramble value of the sampler of pixel `(x, y)`.
pub open spec fn scramble_of(x: usize, y: usize, seed: u32) -> u32 {
    hash_spec((x as u32) ^ ((y as u32) << 16u32), seed)
}

/// The draw that a sampler in state (`scramble`, `dimension`, `index`) makes.
pub open spec fn draw_of(scramble: u32, dimension: u32, index: u32) -> Draw {
    if dimension < SOBOL_DIMENSIONS && index < SOBOL_MAX_SAMPLES {
        Draw::Sobol { sample_index: index, dimension, seed: hash_spec(dimension, scramble) }
    } else {
        Draw::Hashed { bits: hash_spec(dimension ^ (index << 16u32), scramble) }
    }
}

/// The `k`-th draw of the sampler of pixel `(x, y)` and sample `sample_index`.
pub open spec fn nth_draw(x: usize, y: usize, sample_index: usize, seed: u32, k: u32) -> Draw {
    draw_of(scramble_of(x, y, seed), k, sample_index as u32)
}

impl Sampler {
    /// Sampler of pixel `(x, y)` for sample number `sample_index`.
    pub fn new(x: usize, y: usize, sample_index: usize, seed: u32) -> (r: Sampler)
        ensures
            r.scramble == scramble_of(x, y, seed),
            r.dimension == 0,
            r.index == sample_index as u32,
    {
        let key: u32 = (x as u32) ^ ((y as u32) << 16u32);
        Sampler { scramble: hash_u32(key, seed), dimension: 0, index: sample_index as u32 }
    }

    /// Consumes one dimension and says where its uniform value comes from.
    ///
    /// The dimension counter saturates at `u32::MAX`.
    pub fn next_draw(&mut self) -> (r: Draw)
        ensures
            r == draw_of(old(self).scramble, old(self).dimension, old(self).index),
            final(self).scramble == old(self).scramble,
            final(self).index == old(self).index,
            final(self).dimension == if old(self).dimension < u32::MAX {
                (old(self).dimension + 1) as u32
            } else {
                u32::MAX
            },
    {
        let d = self.dimension;
        let r = if d < SOBOL_DIMENSIONS && self.index < SOBOL_MAX_SAMPLES {
            Draw::Sobol { sample_index: self.index, dimension: d, seed: hash_u32(d, self.scramble) }
        } else {
            Draw::Hashed { bits: hash_u32(d ^ (self.index << 16u32), self.scramble) }
        };
        self.dimension = self.dimension.saturating_add(1);
        r
    }

    /// Bits of the golden-ratio draw of this sample: the sample index offset by
    /// the scramble, times 2^32 divided by the golden ratio (modulo 2^32).
    pub fn golden_ratio_bits(&self) -> (r: u32)
        ensures
            r == self.index.wrapping_add(self.scramble).wrapping_mul(GOLDEN_RATIO_MULTIPLIER),
    {
        self.index.wrapping_add(self.scramble).wrapping_mul(GOLDEN_RATIO_MULTIPLIER)
    }
}

/// Index in `0..len` picked by the uniform fraction `bits / 2^32`.
pub open spec fn index_of_fraction(bits: u32, len: usize) -> int {
    (bits as int * len as int) / 0x1_0000_0000
}

/// Picks an index in `0..len` from uniform bits, each index receiving an equal
/// share (up to rounding) of the 2^32 possible values.
pub fn array_index_from_bits(bits: u32, len: usize) -> (r: usize)
    requires
        len > 0,
    ensures
        r == index_of_fraction(bits, len),
        r < len,
{
    assert(bits as int * len as int <= 0xffff_ffff * 0xffff_ffff_ffff_ffff) by (nonlinear_arith)
        requires
            bits <= 0xffff_ffff,
            len <= 0xffff_ffff_ffff_ffff,
    ;
    let wide: u128 = (bits as u128) * (len as u128);
    assert(bits as int * len as int / 0x1_0000_0000 < len) by (nonlinear_arith)
        requires
            bits < 0x1_0000_0000,
            len > 0,
    ;
    let shifted: u128 = wide >> 32u32;
    assert(shifted == wide / 0x1_0000_0000) by (bit_vector)
        requires
            shifted == wide >> 32u32,
    ;
    shifted as usize
}

/// Two samplers built from the same pixel, sample index and seed make the same
/// draws, whatever thread builds them and in whatever order.
pub proof fn lemma_draws_deterministic(
    a: Sampler,
    b: Sampler,
    x: usize,
    y: usize,
    sample_index: usize,
    seed: u32,
)
    requires
        a.scramble == scramble_of(x, y, seed),
        b.scramble == scramble_of(x, y, seed),
        a.index == sample_index as u32,
        b.index == sample_index as u32,
        a.dimension == b.dimension,
    ensures
        draw_of(a.scramble, a.dimension, a.index) == draw_of(b.scramble, b.dimension, b.index),
        draw_of(a.scramble, a.dimension, a.index) == nth_draw(x, y, sample_index, seed, a.dimension),
{
}

} // verus!
