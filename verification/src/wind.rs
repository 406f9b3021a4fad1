//! Wind: which of its parts act at a time and a place.
//!
//! The parts themselves are computed by the caller in floating point.

use crate::ieee::Float64;
use vstd::prelude::*;

verus! {

/// The seed of the turbulence.
pub const DEFAULT_SEED: u64 = 0x1234_5678;

/// One.
pub const ONE: u64 = 0x3FF0_0000_0000_0000;

pub const MINUS_ONE: u64 = 0xBFF0_0000_0000_0000;

/// One millionth: below this height there is no shear.
pub const GROUND_LAYER: u64 = 0x3EB0_C6F7_A0B5_ED8D;

/// One thousandth: the least length that the wind is scaled by.
pub const LEAST_LENGTH: u64 = 0x3F50_624D_D2F1_A9FC;

/// Minus nine tenths: the wind never falls further below its mean in space.
pub const LEAST_MODULATION: u64 = 0xBFEC_CCCC_CCCC_CCCD;

/// The parts of the wind.
#[derive(Clone, Copy, Debug, PartialEq, Eq)]
pub struct WindConfig {
    /// The steady wind.
    pub base: [Float64; 3],
    /// The peak of the gusts.
    pub gust_amp: [Float64; 3],
    /// The main frequency of the gusts, in hertz.
    pub gust_freq: Float64,
    /// The strength of the turbulence.
    pub turb_sigma: [Float64; 3],
    /// The time constant of the turbulence, in seconds.
    pub turb_tau: Float64,
    pub seed: u64,
    /// The wavelength over which the wind varies in space; none for zero.
    pub spatial_scale: Float64,
    /// The exponent of the power law of the wind over height; none for zero.
    pub shear_exponent: Float64,
    pub shear_ref_height: Float64,
    /// The peak of a single gust.
    pub gust_burst_amp: [Float64; 3],
    pub gust_burst_t0: Float64,
    pub gust_burst_hw: Float64,
    /// The updraught in the middle of a thermal; none for zero.
    pub thermal_strength: Float64,
    pub thermal_radius: Float64,
    /// The height that a thermal ends at; unlimited for zero.
    pub thermal_height: Float64,
    pub thermal_pos0: [Float64; 2],
    pub thermal_drift: [Float64; 2],
}

impl WindConfig {
    /// No single gust, no thermal, no shear and no variation in space is set up.
    pub open spec fn is_plain(self) -> bool {
        let zero = Float64::from_bits(0);
        &&& self.spatial_scale == zero
        &&& self.shear_exponent == zero
        &&& self.shear_ref_height == Float64::from_bits(0x4024_0000_0000_0000)
        &&& self.gust_burst_amp@ == seq![zero, zero, zero]
        &&& self.gust_burst_t0 == Float64::from_bits(0x3FF0_0000_0000_0000)
        &&& self.gust_burst_hw == Float64::from_bits(0x3FE0_0000_0000_0000)
        &&& self.thermal_strength == zero
        &&& self.thermal_radius == zero
        &&& self.thermal_height == zero
        &&& self.thermal_pos0@ == seq![zero, zero]
        &&& self.thermal_drift@ == seq![zero, zero]
    }
}

impl Default for WindConfig {
    /// No wind.
    fn default() -> (r: Self)
        ensures
            r.is_plain(),
            forall|i: int| 0 <= i < 3 ==> #[trigger] r.base[i] == Float64::from_bits(0),
            forall|i: int| 0 <= i < 3 ==> #[trigger] r.gust_amp[i] == Float64::from_bits(0),
            r.gust_freq == Float64::from_bits(0x3FB9_9999_9999_999A),
            forall|i: int| 0 <= i < 3 ==> #[trigger] r.turb_sigma[i] == Float64::from_bits(0),
            r.turb_tau == Float64::from_bits(0x3FE0_0000_0000_0000),
            r.seed == DEFAULT_SEED,
    {
        let zero: Float64 = Float64::from_bits(0);
        let r: WindConfig = WindConfig {
            base: [zero, zero, zero],
            gust_amp: [zero, zero, zero],
            // 0.1
            gust_freq: Float64::from_bits(0x3FB9_9999_9999_999A),
            turb_sigma: [zero, zero, zero],
            // 0.5
            turb_tau: Float64::from_bits(0x3FE0_0000_0000_0000),
            seed: DEFAULT_SEED,
            spatial_scale: zero,
            shear_exponent: zero,
            // 10.0
            shear_ref_height: Float64::from_bits(0x4024_0000_0000_0000),
            gust_burst_amp: [zero, zero, zero],
            // 1.0
            gust_burst_t0: Float64::from_bits(0x3FF0_0000_0000_0000),
            // 0.5
            gust_burst_hw: Float64::from_bits(0x3FE0_0000_0000_0000),
            thermal_strength: zero,
            thermal_radius: zero,
            thermal_height: zero,
            thermal_pos0: [zero, zero],
            thermal_drift: [zero, zero],
        };
        proof {
            assert(r.gust_burst_amp@ =~= seq![zero, zero, zero]);
            assert(r.thermal_pos0@ =~= seq![zero, zero]);
            assert(r.thermal_drift@ =~= seq![zero, zero]);
        }
        r
    }
}

/// Which parts of the wind act.
#[derive(Clone, Copy, Debug, PartialEq, Eq, Structural)]
pub struct Acting {
    /// The single gust.
    pub burst: bool,
    /// The updraught of the thermal.
    pub thermal: bool,
    /// The growth of the wind with height.
    pub shear: bool,
    /// The variation of the wind in space.
    pub spatial: bool,
}

impl WindConfig {
    /// There is a thermal, so that it drifts.
    pub open spec fn has_thermal_of(self) -> bool {
        Float64::from_bits(0).less(self.thermal_strength) && Float64::from_bits(0).less(
            self.thermal_radius,
        )
    }

    pub fn has_thermal(&self) -> (r: bool)
        ensures
            r == self.has_thermal_of(),
    {
        Float64::from_bits(0).lt(self.thermal_strength) && Float64::from_bits(0).lt(
            self.thermal_radius,
        )
    }

    /// The place is above the top of the thermal.
    pub open spec fn above_thermal(self, z: Float64) -> bool {
        Float64::from_bits(0).less(self.thermal_height) && self.thermal_height.less(z)
    }

    /// What acts, from where the time is in the single gust (from minus one to one), the height, and
    /// the squares of the distance to the middle of the thermal and of its reach.
    pub open spec fn acting_of(
        self,
        burst_phase: Float64,
        z: Float64,
        distance2: Float64,
        reach2: Float64,
    ) -> Acting {
        Acting {
            burst: Float64::from_bits(0).less(self.gust_burst_hw) && Float64::from_bits(
                MINUS_ONE,
            ).less(burst_phase) && burst_phase.less(Float64::from_bits(ONE)),
            thermal: self.has_thermal_of() && !self.above_thermal(z) && distance2.less(reach2),
            shear: Float64::from_bits(0).less(self.shear_exponent) && Float64::from_bits(
                GROUND_LAYER,
            ).less(z),
            spatial: Float64::from_bits(0).less(self.spatial_scale),
        }
    }

    pub fn acting(
        &self,
        burst_phase: Float64,
        z: Float64,
        distance2: Float64,
        reach2: Float64,
    ) -> (r: Acting)
        ensures
            r == self.acting_of(burst_phase, z, distance2, reach2),
    {
        let zero: Float64 = Float64::from_bits(0);
        let capped: bool = zero.lt(self.thermal_height) && self.thermal_height.lt(z);
        Acting {
            burst: zero.lt(self.gust_burst_hw) && Float64::from_bits(MINUS_ONE).lt(burst_phase)
                && burst_phase.lt(Float64::from_bits(ONE)),
            thermal: self.has_thermal() && !capped && distance2.lt(reach2),
            shear: zero.lt(self.shear_exponent) && Float64::from_bits(GROUND_LAYER).lt(z),
            spatial: zero.lt(self.spatial_scale),
        }
    }
}

/// Where a part is not set up it never acts: without a half width no gust, without strength or
/// radius no thermal, without an exponent no shear, and without a wavelength no variation in space.
pub proof fn lemma_absent_parts_never_act(
    cfg: WindConfig,
    burst_phase: Float64,
    z: Float64,
    distance2: Float64,
    reach2: Float64,
)
    ensures
        cfg.gust_burst_hw.rank() <= 0 ==> !cfg.acting_of(burst_phase, z, distance2, reach2).burst,
        cfg.thermal_strength.rank() <= 0 || cfg.thermal_radius.rank() <= 0 ==> !cfg.acting_of(
            burst_phase,
            z,
            distance2,
            reach2,
        ).thermal,
        cfg.shear_exponent.rank() <= 0 ==> !cfg.acting_of(burst_phase, z, distance2, reach2).shear,
        cfg.spatial_scale.rank() <= 0 ==> !cfg.acting_of(burst_phase, z, distance2, reach2).spatial,
{
}

/// A length that the wind is scaled by, not so small that it cannot be divided by.
pub fn scale_length(length: Float64) -> (r: Float64)
    ensures
        r == length.greater_of(Float64::from_bits(LEAST_LENGTH)),
        Float64::from_bits(LEAST_LENGTH).at_most(r),
{
    length.max(Float64::from_bits(LEAST_LENGTH))
}

/// The variation in space, not so low that it turns the wind round.
pub fn modulation(s: Float64) -> (r: Float64)
    ensures
        r == s.greater_of(Float64::from_bits(LEAST_MODULATION)),
        Float64::from_bits(LEAST_MODULATION).at_most(r),
{
    s.max(Float64::from_bits(LEAST_MODULATION))
}

/// A part of the wind that is set up acts where it reaches: the single gust between its ends, the
/// thermal within its reach and, if it has a top, no higher than that, the shear above the ground, and
/// the variation in space everywhere.
pub proof fn lemma_parts_act(
    cfg: WindConfig,
    burst_phase: Float64,
    z: Float64,
    distance2: Float64,
    reach2: Float64,
)
    ensures
        ({
            let acting = cfg.acting_of(burst_phase, z, distance2, reach2);
            let one = crate::ieee::one64();
            let set_up = |x: Float64| !x.nan() && x.value() > 0;
            &&& acting.burst <==> set_up(cfg.gust_burst_hw) && !burst_phase.nan() && -one
                < burst_phase.value() < one
            &&& acting.thermal <==> cfg.has_thermal_of() && (!set_up(cfg.thermal_height) || z.nan()
                || z.value() <= cfg.thermal_height.value()) && !distance2.nan() && !reach2.nan()
                && distance2.value() < reach2.value()
            &&& acting.shear <==> set_up(cfg.shear_exponent) && !z.nan() && z.value()
                > Float64::from_bits(GROUND_LAYER).value()
            &&& acting.spatial <==> set_up(cfg.spatial_scale)
            &&& cfg.has_thermal_of() <==> set_up(cfg.thermal_strength) && set_up(cfg.thermal_radius)
        }),
{
    let zero = Float64::from_bits(0);
    let one = Float64::from_bits(ONE);
    let minus_one = Float64::from_bits(MINUS_ONE);
    assert(one.value() == crate::ieee::one64() && minus_one.value() == -crate::ieee::one64()) by {
        vstd::arithmetic::power2::lemma2_to64_rest();
        crate::ieee::lemma_exact64(one, 1, 1, 52);
        crate::ieee::lemma_exact64(minus_one, -1, 1, 52);
    }
    crate::ieee::lemma_scale64(zero, zero);
    crate::ieee::lemma_order64(zero, cfg.gust_burst_hw);
    crate::ieee::lemma_order64(minus_one, burst_phase);
    crate::ieee::lemma_order64(burst_phase, one);
    crate::ieee::lemma_order64(zero, cfg.thermal_strength);
    crate::ieee::lemma_order64(zero, cfg.thermal_radius);
    crate::ieee::lemma_order64(zero, cfg.thermal_height);
    crate::ieee::lemma_order64(cfg.thermal_height, z);
    crate::ieee::lemma_order64(distance2, reach2);
    crate::ieee::lemma_order64(zero, cfg.shear_exponent);
    crate::ieee::lemma_order64(Float64::from_bits(GROUND_LAYER), z);
    crate::ieee::lemma_order64(zero, cfg.spatial_scale);
}

/// With a plain set-up nothing acts, at any time and place.
pub proof fn lemma_plain_is_still(
    cfg: WindConfig,
    burst_phase: Float64,
    z: Float64,
    distance2: Float64,
    reach2: Float64,
)
    requires
        cfg.is_plain(),
    ensures
        !cfg.acting_of(burst_phase, z, distance2, reach2).thermal,
        !cfg.acting_of(burst_phase, z, distance2, reach2).shear,
        !cfg.acting_of(burst_phase, z, distance2, reach2).spatial,
        forall|k: int| 0 <= k < 3 ==> (#[trigger] cfg.gust_burst_amp[k]).value() == 0,
        cfg.shear_ref_height.value() == 10 * crate::ieee::one64(),
        cfg.gust_burst_t0.value() == crate::ieee::one64(),
        2 * cfg.gust_burst_hw.value() == crate::ieee::one64(),
        cfg.thermal_height.value() == 0,
        cfg.thermal_strength.value() == 0 && cfg.thermal_radius.value() == 0,
        cfg.shear_exponent.value() == 0 && cfg.spatial_scale.value() == 0,
        cfg.thermal_pos0[0].value() == 0 && cfg.thermal_pos0[1].value() == 0,
        cfg.thermal_drift[0].value() == 0 && cfg.thermal_drift[1].value() == 0,
{
    let zero = Float64::from_bits(0);
    crate::ieee::lemma_scale64(zero, zero);
    vstd::arithmetic::power2::lemma2_to64_rest();
    crate::ieee::lemma_exact64(cfg.shear_ref_height, 10, 1, 49);
    crate::ieee::lemma_exact64(cfg.gust_burst_t0, 1, 1, 52);
    crate::ieee::lemma_exact64(cfg.gust_burst_hw, 1, 2, 53);
    assert forall|k: int| 0 <= k < 3 implies (#[trigger] cfg.gust_burst_amp[k]).value() == 0 by {
        assert(cfg.gust_burst_amp@[k] == seq![zero, zero, zero][k]);
    }
    assert(cfg.thermal_pos0[0] == cfg.thermal_pos0@[0] && cfg.thermal_pos0[1] == cfg.thermal_pos0@[1]);
    assert(cfg.thermal_drift[0] == cfg.thermal_drift@[0] && cfg.thermal_drift[1]
        == cfg.thermal_drift@[1]);
}

/// What the constants of this module are worth.
pub proof fn lemma_measures()
    ensures
        crate::ieee::is_ratio64(Float64::from_bits(ONE), 1, 1),
        crate::ieee::is_ratio64(Float64::from_bits(MINUS_ONE), -1, 1),
        crate::ieee::is_ratio64(Float64::from_bits(GROUND_LAYER), 1, 1000000),
        crate::ieee::is_ratio64(Float64::from_bits(LEAST_LENGTH), 1, 1000),
        crate::ieee::is_ratio64(Float64::from_bits(LEAST_MODULATION), -9, 10),
{
    assert(crate::ieee::is_ratio64(Float64::from_bits(ONE), 1, 1)) by {
        vstd::arithmetic::power2::lemma2_to64_rest();
        crate::ieee::lemma_ratio64(Float64::from_bits(ONE), 1, 1, 52);
    }
    assert(crate::ieee::is_ratio64(Float64::from_bits(MINUS_ONE), -1, 1)) by {
        vstd::arithmetic::power2::lemma2_to64_rest();
        crate::ieee::lemma_ratio64(Float64::from_bits(MINUS_ONE), -1, 1, 52);
    }
    assert(crate::ieee::is_ratio64(Float64::from_bits(GROUND_LAYER), 1, 1000000)) by {
        vstd::arithmetic::power2::lemma2_to64();
        crate::ieee::lemma_halvings();
        crate::ieee::lemma_ratio64(Float64::from_bits(GROUND_LAYER), 1, 1000000, 72);
    }
    assert(crate::ieee::is_ratio64(Float64::from_bits(LEAST_LENGTH), 1, 1000)) by {
        vstd::arithmetic::power2::lemma2_to64_rest();
        crate::ieee::lemma_ratio64(Float64::from_bits(LEAST_LENGTH), 1, 1000, 62);
    }
    assert(crate::ieee::is_ratio64(Float64::from_bits(LEAST_MODULATION), -9, 10)) by {
        vstd::arithmetic::power2::lemma2_to64_rest();
        crate::ieee::lemma_ratio64(Float64::from_bits(LEAST_MODULATION), -9, 10, 53);
    }
}

} // verus!
