use vstd::prelude::*;
use crate::sampling::{Sampler, GOLDEN_RATIO_MULTIPLIER};

verus! {

/// Shortest wavelength carried by a path, in picometres (360 nm).
pub const LAMBDA_MIN_PM: u32 = 360_000;

/// Longest wavelength carried by a path, in picometres (830 nm).
pub const LAMBDA_MAX_PM: u32 = 830_000;

/// Width of the sampled band, in picometres.
pub const LAMBDA_RANGE_PM: u32 = 470_000;

/// Spacing between two neighbouring lanes: a quarter of the band.
pub const LAMBDA_QUARTER_PM: u32 = 117_500;

/// Offset of `hero` by `n` quarters of the band, wrapped back into it.
pub open spec fn rotate_spec(hero: int, n: int) -> int {
    let lambda = hero + LAMBDA_QUARTER_PM * (n % 4);
    if lambda >= LAMBDA_MAX_PM {
        lambda - LAMBDA_RANGE_PM
    } else {
        lambda
    }
}

/// Is `lambda` (picometres) inside the sampled band?
pub open spec fn in_band(lambda: int) -> bool {
    LAMBDA_MIN_PM <= lambda <= LAMBDA_MAX_PM
}

/// Offsets a wavelength (picometres) by `n` quarters of the band, wrapping
/// around so that the result stays inside the band.
pub fn rotate_n(hero: u32, n: u32) -> (r: u32)
    requires
        in_band(hero as int),
    ensures
        r == rotate_spec(hero as int, n as int),
        LAMBDA_MIN_PM <= r < LAMBDA_MAX_PM,
{
    let lambda: u32 = hero + LAMBDA_QUARTER_PM * (n % 4);
    if lambda >= LAMBDA_MAX_PM {
        lambda - LAMBDA_RANGE_PM
    } else {
        lambda
    }
}

/// The four wavelengths (picometres) that one path carries: the hero and its
/// three rotations by a quarter of the band.
#[derive(Debug, Copy, Clone, PartialEq, Eq, Structural)]
pub struct Wavelength {
    pub x: u32,
    pub y: u32,
    pub z: u32,
    pub w: u32,
}

impl Wavelength {
    /// The hero lies in the band and the other lanes are its rotations.
    pub open spec fn wf(&self) -> bool {
        &&& in_band(self.x as int)
        &&& self.y == rotate_spec(self.x as int, 1)
        &&& self.z == rotate_spec(self.x as int, 2)
        &&& self.w == rotate_spec(self.x as int, 3)
    }

    /// Lane `i` (0 is the hero).
    pub open spec fn lane_spec(&self, i: int) -> u32 {
        if i == 0 {
            self.x
        } else if i == 1 {
            self.y
        } else if i == 2 {
            self.z
        } else {
            self.w
        }
    }

    /// Derives the four lanes from the hero wavelength.
    pub fn new(hero: u32) -> (r: Wavelength)
        requires
            in_band(hero as int),
        ensures
            r.wf(),
            r.x == hero,
    {
        Wavelength { x: hero, y: rotate_n(hero, 1), z: rotate_n(hero, 2), w: rotate_n(hero, 3) }
    }

    /// Hero wavelength drawn uniformly over the band from the fraction
    /// `bits / 2^32`.
    pub fn sample_from_bits(bits: u32) -> (r: Wavelength)
        ensures
            r.wf(),
            r == Wavelength::sample_spec(bits),
            LAMBDA_MIN_PM <= r.x < LAMBDA_MAX_PM,
    {
        let wide: u64 = (bits as u64) * (LAMBDA_RANGE_PM as u64);
        assert(bits as int * LAMBDA_RANGE_PM / 0x1_0000_0000 < LAMBDA_RANGE_PM) by (nonlinear_arith)
            requires
                bits < 0x1_0000_0000,
        ;
        let offset: u64 = wide / 0x1_0000_0000u64;
        Self::new(LAMBDA_MIN_PM + offset as u32)
    }

    /// Hero wavelength of a path, drawn with the sampler's golden-ratio
    /// sequence so that the samples of a pixel cover the band evenly.
    pub fn sample(sampler: &Sampler) -> (r: Wavelength)
        ensures
            r.wf(),
            r == Wavelength::sample_spec(
                sampler.index.wrapping_add(sampler.scramble).wrapping_mul(GOLDEN_RATIO_MULTIPLIER),
            ),
    {
        Self::sample_from_bits(sampler.golden_ratio_bits())
    }

    /// The wavelengths whose hero is drawn from the fraction `bits / 2^32`.
    pub open spec fn sample_spec(bits: u32) -> Wavelength {
        let hero = LAMBDA_MIN_PM + (bits as int * LAMBDA_RANGE_PM) / 0x1_0000_0000;
        Wavelength {
            x: hero as u32,
            y: rotate_spec(hero, 1) as u32,
            z: rotate_spec(hero, 2) as u32,
            w: rotate_spec(hero, 3) as u32,
        }
    }

    /// The hero wavelength, which drives the path's construction.
    pub fn hero(&self) -> (r: u32)
        ensures
            r == self.x,
    {
        self.x
    }

    /// Lane `i` of the four.
    pub fn lane(&self, i: usize) -> (r: u32)
        requires
            i < 4,
        ensures
            r == self.lane_spec(i as int),
    {
        if i == 0 {
            self.x
        } else if i == 1 {
            self.y
        } else if i == 2 {
            self.z
        } else {
            self.w
        }
    }

    /// The wavelengths whose hero is this one's hero rotated by `n` quarters.
    pub fn rotate_n(&self, n: u32) -> (r: Wavelength)
        requires
            self.wf(),
        ensures
            r.wf(),
            r.x == rotate_spec(self.x as int, n as int),
    {
        Wavelength::new(rotate_n(self.x, n))
    }
}

/// Every lane of a well-formed set of wavelengths lies in the band.
pub proof fn lemma_lanes_in_band(wl: Wavelength, i: int)
    requires
        wl.wf(),
        0 <= i < 4,
    ensures
        in_band(wl.lane_spec(i) as int),
{
}

/// Rotating by a quarter of the band four times gives back the hero, for every
/// hero below the top of the band.
pub proof fn lemma_rotate_round_trip(hero: int)
    requires
        LAMBDA_MIN_PM <= hero < LAMBDA_MAX_PM,
    ensures
        rotate_spec(rotate_spec(rotate_spec(rotate_spec(hero, 1), 1), 1), 1) == hero,
{
}

} // verus!
