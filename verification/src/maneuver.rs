//! Prescribed manoeuvres: which signal drives which axis, for how long, and under which name.
//!
//! Attitude and acceleration are prescribed independently of each other. The signals are evaluated
//! by the caller in floating point.

use crate::ieee::Float32;
use vstd::prelude::*;

verus! {

/// The seed of manoeuvres that bring none of their own.
pub const FIXED_SEED: u64 = 0x1234_5678_9ABC_DEF0;

/// One, as a bit pattern. The constants below are bit patterns too.
pub const ONE: u32 = 0x3F80_0000;

pub const TWO: u32 = 0x4000_0000;

pub const HALF: u32 = 0x3F00_0000;

/// Five.
pub const IMPACT_S: u32 = 0x40A0_0000;

/// Six.
pub const SHORT_S: u32 = 0x40C0_0000;

/// Eight.
pub const DESCENT_S: u32 = 0x4100_0000;

/// Ten.
pub const HOVER_S: u32 = 0x4120_0000;

/// Fifteen.
pub const TURBULENCE_S: u32 = 0x4170_0000;

/// Seven tenths.
pub const HOVER_PITCH_HZ: u32 = 0x3F33_3333;

/// Three tenths.
pub const THREE_TENTHS: u32 = 0x3E99_999A;

/// Seventeen tenths.
pub const FALL_PITCH_HZ: u32 = 0x3FD9_999A;

/// Thirty.
pub const PROPWASH_HZ: u32 = 0x41F0_0000;

/// Fifteen hundredths.
pub const SPIKE_HALF_WIDTH: u32 = 0x3E19_999A;

/// A manoeuvre and its parameters.
#[derive(Clone, Copy, Debug, PartialEq, Eq, Structural)]
pub enum Maneuver {
    HoverMicro { amp_deg: Float32 },
    Cruise { tilt_deg: Float32, ramp_s: Float32, hold_s: Float32 },
    BrakeReversal { accel_g: Float32, tilt_deg: Float32, hold_s: Float32 },
    CoordinatedTurn { bank_deg: Float32, rate_dps: Float32 },
    YawWhip { rate_dps: Float32 },
    Roll360 { rate_dps: Float32, thrust_ratio: Float32 },
    SpinTranslate { yaw_dps: Float32, accel_g: Float32 },
    Turbulence { rms_deg: Float32, band_hz: Float32, seed: u64 },
    FreeFall { jitter_deg: Float32 },
    PropwashDescent { descent_mps: Float32, jitter_deg: Float32 },
    LandingImpact { peak_g: Float32 },
    MagDisturbSweep { rate_dps: Float32, bias_gauss: Float32 },
    GyroSatBoundary { rate_dps: Float32 },
    AttitudeSine { axis: usize, amp_deg: Float32, freq_hz: Float32, duration_s: Float32 },
}

/// How long a manoeuvre lasts.
#[derive(Clone, Copy, Debug, PartialEq, Eq, Structural)]
pub enum Duration {
    /// This many seconds.
    Seconds(Float32),
    /// A ramp, a hold and another ramp.
    RampHoldRamp { ramp_s: Float32, hold_s: Float32 },
    /// Four turns at a rate, which is at least one degree per second.
    FourTurns { rate_dps: Float32 },
    /// One turn at a rate, which is at least one degree per second, and four seconds.
    TurnAndPause { rate_dps: Float32 },
}

/// What drives an angle or an acceleration.
#[derive(Clone, Copy, Debug, PartialEq, Eq, Structural)]
pub enum Signal {
    Zero,
    /// `amp · scale · sin(2π·freq·t + phase)`.
    Sine { amp_deg: Float32, scale: Float32, freq_hz: Float32, phase: Float32 },
    /// `rate · t`, without end.
    Spin { rate_dps: Float32 },
    /// A smooth rise over a ramp, a hold, and a smooth fall over a ramp.
    Trapezoid { deg: Float32, ramp_s: Float32, hold_s: Float32 },
    /// An angle that is taken up over the first third of the time, reversed over the second, and
    /// levelled over the last: see [`reversal_legs`].
    TiltReversal { deg: Float32, total_s: Float32 },
    /// An acceleration, in units of gravity, with the course of [`Signal::TiltReversal`].
    PushReversal { accel_g: Float32, total_s: Float32 },
    /// A bank that is entered in the first second and left in the last.
    Bank { deg: Float32 },
    /// The centripetal acceleration of [`Signal::Bank`].
    BankPull { deg: Float32 },
    /// The part of gravity that the thrust does not hold.
    Shortfall { thrust_ratio: Float32 },
    /// An acceleration, in units of gravity, that sets in between half a second and one and a half.
    Onset { accel_g: Float32 },
    /// An axis of twice filtered noise, scaled.
    Noise { rms_deg: Float32, band_hz: Float32, axis: usize, scale: Float32 },
    /// Gravity itself.
    Gravity,
    /// A short deceleration, in units of gravity, around the first second.
    Spike { peak_g: Float32 },
}

/// A smooth change over a part of the time.
#[derive(Clone, Copy, Debug, PartialEq, Eq, Structural)]
pub struct Leg {
    /// When it begins, in thirds of the time.
    pub begin: u8,
    pub end: u8,
    /// What it adds in the end, in units of the amount.
    pub weight: i8,
}

/// The legs of a reversal. They add up.
pub open spec fn reversal_course() -> Seq<Leg> {
    seq![
        Leg { begin: 0, end: 1, weight: 1 },
        Leg { begin: 1, end: 2, weight: (-2) as i8 },
        Leg { begin: 2, end: 3, weight: 1 },
    ]
}

pub fn reversal_legs() -> (r: [Leg; 3])
    ensures
        r@ == reversal_course(),
{
    let r: [Leg; 3] = [
        Leg { begin: 0, end: 1, weight: 1 },
        Leg { begin: 1, end: 2, weight: -2 },
        Leg { begin: 2, end: 3, weight: 1 },
    ];
    assert(r@ =~= reversal_course());
    r
}

/// What legs have added up to once they are all flown.
pub open spec fn flown(legs: Seq<Leg>) -> int
    decreases legs.len(),
{
    if legs.len() == 0 {
        0
    } else {
        flown(legs.drop_last()) + legs.last().weight
    }
}

/// A reversal begins and ends level; after its first third it stands at the whole amount, and after
/// its second at the whole amount to the other side. Each leg takes a third, and begins where the
/// last one ended.
pub proof fn lemma_reversal()
    ensures
        flown(reversal_course().take(0)) == 0,
        flown(reversal_course().take(1)) == 1,
        flown(reversal_course().take(2)) == -1,
        flown(reversal_course().take(3)) == 0,
        forall|i: int|
            0 <= i < 3 ==> (#[trigger] reversal_course()[i]).begin == i && reversal_course()[i].end
                == i + 1,
{
    let c = reversal_course();
    assert(flown(c.take(0)) == 0);
    assert(c.take(1).drop_last() =~= c.take(0));
    assert(c.take(1).last() == c[0]);
    assert(flown(c.take(1)) == 1);
    assert(c.take(2).drop_last() =~= c.take(1));
    assert(c.take(2).last() == c[1]);
    assert(flown(c.take(2)) == -1);
    assert(c.take(3).drop_last() =~= c.take(2));
    assert(c.take(3).last() == c[2]);
}

/// What drives roll, pitch and yaw, and the acceleration to the north, the east and down.
#[derive(Clone, Copy, Debug, PartialEq, Eq)]
pub struct Profile {
    pub angles: [Signal; 3],
    pub accel: [Signal; 3],
}

/// A plain sine.
pub open spec fn sine(amp_deg: Float32, scale: u32, freq_hz: Float32, phase: u32) -> Signal {
    Signal::Sine {
        amp_deg,
        scale: Float32::from_bits(scale),
        freq_hz,
        phase: Float32::from_bits(phase),
    }
}

fn make_sine(amp_deg: Float32, scale: u32, freq_hz: Float32, phase: u32) -> (r: Signal)
    ensures
        r == sine(amp_deg, scale, freq_hz, phase),
{
    Signal::Sine {
        amp_deg,
        scale: Float32::from_bits(scale),
        freq_hz,
        phase: Float32::from_bits(phase),
    }
}

impl Maneuver {
    /// The rate that a duration is computed from.
    pub open spec fn at_least_one(rate: Float32) -> Float32 {
        rate.absolute().greater_of(Float32::from_bits(ONE))
    }

    pub open spec fn duration_of(self) -> Duration {
        match self {
            Maneuver::HoverMicro { .. } => Duration::Seconds(Float32::from_bits(HOVER_S)),
            Maneuver::Cruise { ramp_s, hold_s, .. } => Duration::RampHoldRamp { ramp_s, hold_s },
            Maneuver::BrakeReversal { hold_s, .. } => Duration::Seconds(hold_s),
            Maneuver::CoordinatedTurn { rate_dps, .. } => Duration::FourTurns {
                rate_dps: Self::at_least_one(rate_dps),
            },
            Maneuver::YawWhip { rate_dps } => Duration::FourTurns {
                rate_dps: Self::at_least_one(rate_dps),
            },
            Maneuver::Roll360 { rate_dps, .. } => Duration::FourTurns {
                rate_dps: Self::at_least_one(rate_dps),
            },
            Maneuver::SpinTranslate { yaw_dps, .. } => Duration::FourTurns {
                rate_dps: Self::at_least_one(yaw_dps),
            },
            Maneuver::Turbulence { .. } => Duration::Seconds(Float32::from_bits(TURBULENCE_S)),
            Maneuver::FreeFall { .. } => Duration::Seconds(Float32::from_bits(SHORT_S)),
            Maneuver::PropwashDescent { .. } => Duration::Seconds(Float32::from_bits(DESCENT_S)),
            Maneuver::LandingImpact { .. } => Duration::Seconds(Float32::from_bits(IMPACT_S)),
            Maneuver::MagDisturbSweep { rate_dps, .. } => Duration::TurnAndPause {
                rate_dps: Self::at_least_one(rate_dps),
            },
            Maneuver::GyroSatBoundary { .. } => Duration::Seconds(Float32::from_bits(SHORT_S)),
            Maneuver::AttitudeSine { duration_s, .. } => Duration::Seconds(duration_s),
        }
    }

    fn positive_rate(rate: Float32) -> (r: Float32)
        ensures
            r == Self::at_least_one(rate),
    {
        rate.abs().max(Float32::from_bits(ONE))
    }

    pub fn duration(&self) -> (r: Duration)
        ensures
            r == self.duration_of(),
    {
        match *self {
            Maneuver::HoverMicro { .. } => Duration::Seconds(Float32::from_bits(HOVER_S)),
            Maneuver::Cruise { ramp_s, hold_s, .. } => Duration::RampHoldRamp { ramp_s, hold_s },
            Maneuver::BrakeReversal { hold_s, .. } => Duration::Seconds(hold_s),
            Maneuver::CoordinatedTurn { rate_dps, .. } => Duration::FourTurns {
                rate_dps: Self::positive_rate(rate_dps),
            },
            Maneuver::YawWhip { rate_dps } => Duration::FourTurns {
                rate_dps: Self::positive_rate(rate_dps),
            },
            Maneuver::Roll360 { rate_dps, .. } => Duration::FourTurns {
                rate_dps: Self::positive_rate(rate_dps),
            },
            Maneuver::SpinTranslate { yaw_dps, .. } => Duration::FourTurns {
                rate_dps: Self::positive_rate(yaw_dps),
            },
            Maneuver::Turbulence { .. } => Duration::Seconds(Float32::from_bits(TURBULENCE_S)),
            Maneuver::FreeFall { .. } => Duration::Seconds(Float32::from_bits(SHORT_S)),
            Maneuver::PropwashDescent { .. } => Duration::Seconds(Float32::from_bits(DESCENT_S)),
            Maneuver::LandingImpact { .. } => Duration::Seconds(Float32::from_bits(IMPACT_S)),
            Maneuver::MagDisturbSweep { rate_dps, .. } => Duration::TurnAndPause {
                rate_dps: Self::positive_rate(rate_dps),
            },
            Maneuver::GyroSatBoundary { .. } => Duration::Seconds(Float32::from_bits(SHORT_S)),
            Maneuver::AttitudeSine { duration_s, .. } => Duration::Seconds(duration_s),
        }
    }

    pub open spec fn title_of(self) -> Seq<char> {
        match self {
            Maneuver::HoverMicro { .. } => "A1_hover_micro"@,
            Maneuver::Cruise { .. } => "A2_cruise"@,
            Maneuver::BrakeReversal { .. } => "A3_brake_reversal"@,
            Maneuver::CoordinatedTurn { .. } => "A4_coordinated_turn"@,
            Maneuver::YawWhip { .. } => "A5_yaw_whip"@,
            Maneuver::Roll360 { .. } => "A6_roll360"@,
            Maneuver::SpinTranslate { .. } => "A7_spin_translate"@,
            Maneuver::Turbulence { .. } => "A8_turbulence"@,
            Maneuver::FreeFall { .. } => "A9_free_fall"@,
            Maneuver::PropwashDescent { .. } => "A10_propwash_descent"@,
            Maneuver::LandingImpact { .. } => "A11_landing_impact"@,
            Maneuver::MagDisturbSweep { .. } => "A12_mag_disturb_sweep"@,
            Maneuver::GyroSatBoundary { .. } => "A13_gyro_sat_boundary"@,
            Maneuver::AttitudeSine { .. } => "sine_single_axis"@,
        }
    }

    /// The name of the manoeuvre in reports and files.
    pub fn title(&self) -> (r: &'static str)
        ensures
            r@ == self.title_of(),
            *self is HoverMicro ==> r@ == "A1_hover_micro"@,
            *self is Cruise ==> r@ == "A2_cruise"@,
            *self is BrakeReversal ==> r@ == "A3_brake_reversal"@,
            *self is CoordinatedTurn ==> r@ == "A4_coordinated_turn"@,
            *self is YawWhip ==> r@ == "A5_yaw_whip"@,
            *self is Roll360 ==> r@ == "A6_roll360"@,
            *self is SpinTranslate ==> r@ == "A7_spin_translate"@,
            *self is Turbulence ==> r@ == "A8_turbulence"@,
            *self is FreeFall ==> r@ == "A9_free_fall"@,
            *self is PropwashDescent ==> r@ == "A10_propwash_descent"@,
            *self is LandingImpact ==> r@ == "A11_landing_impact"@,
            *self is MagDisturbSweep ==> r@ == "A12_mag_disturb_sweep"@,
            *self is GyroSatBoundary ==> r@ == "A13_gyro_sat_boundary"@,
            *self is AttitudeSine ==> r@ == "sine_single_axis"@,
    {
        match *self {
            Maneuver::HoverMicro { .. } => "A1_hover_micro",
            Maneuver::Cruise { .. } => "A2_cruise",
            Maneuver::BrakeReversal { .. } => "A3_brake_reversal",
            Maneuver::CoordinatedTurn { .. } => "A4_coordinated_turn",
            Maneuver::YawWhip { .. } => "A5_yaw_whip",
            Maneuver::Roll360 { .. } => "A6_roll360",
            Maneuver::SpinTranslate { .. } => "A7_spin_translate",
            Maneuver::Turbulence { .. } => "A8_turbulence",
            Maneuver::FreeFall { .. } => "A9_free_fall",
            Maneuver::PropwashDescent { .. } => "A10_propwash_descent",
            Maneuver::LandingImpact { .. } => "A11_landing_impact",
            Maneuver::MagDisturbSweep { .. } => "A12_mag_disturb_sweep",
            Maneuver::GyroSatBoundary { .. } => "A13_gyro_sat_boundary",
            Maneuver::AttitudeSine { .. } => "sine_single_axis",
        }
    }

    /// The velocity that a manoeuvre starts with: that of the descent, and none otherwise.
    pub fn initial_vel(&self) -> (r: [Float32; 3])
        ensures
            r[0] == Float32::from_bits(0),
            r[1] == Float32::from_bits(0),
            r[2] == match *self {
                Maneuver::PropwashDescent { descent_mps, .. } => descent_mps,
                _ => Float32::from_bits(0),
            },
    {
        let zero: Float32 = Float32::from_bits(0);
        match *self {
            Maneuver::PropwashDescent { descent_mps, .. } => [zero, zero, descent_mps],
            _ => [zero, zero, zero],
        }
    }

    /// The seed of the manoeuvre's noise: the same manoeuvre always gives the same course.
    pub fn seed(&self) -> (r: u64)
        ensures
            r == match *self {
                Maneuver::Turbulence { seed, .. } => seed,
                _ => FIXED_SEED,
            },
    {
        match *self {
            Maneuver::Turbulence { seed, .. } => seed,
            _ => FIXED_SEED,
        }
    }

    /// What drives an angle: zero for roll, one for pitch, two for yaw.
    pub open spec fn angle_of(self, axis: int) -> Signal {
        match self {
            Maneuver::HoverMicro { amp_deg } => if axis == 0 {
                sine(amp_deg, ONE, Float32::from_bits(HALF), 0)
            } else if axis == 1 {
                sine(amp_deg, ONE, Float32::from_bits(HOVER_PITCH_HZ), ONE)
            } else {
                sine(amp_deg, HALF, Float32::from_bits(THREE_TENTHS), 0)
            },
            Maneuver::Cruise { tilt_deg, ramp_s, hold_s } => if axis == 1 {
                Signal::Trapezoid { deg: tilt_deg, ramp_s, hold_s }
            } else {
                Signal::Zero
            },
            Maneuver::BrakeReversal { tilt_deg, hold_s, .. } => if axis == 1 {
                Signal::TiltReversal { deg: tilt_deg, total_s: hold_s }
            } else {
                Signal::Zero
            },
            Maneuver::CoordinatedTurn { bank_deg, rate_dps } => if axis == 0 {
                Signal::Bank { deg: bank_deg }
            } else if axis == 1 {
                Signal::Zero
            } else {
                Signal::Spin { rate_dps }
            },
            Maneuver::YawWhip { rate_dps } => if axis == 2 {
                Signal::Spin { rate_dps }
            } else {
                Signal::Zero
            },
            Maneuver::Roll360 { rate_dps, .. } => if axis == 0 {
                Signal::Spin { rate_dps }
            } else {
                Signal::Zero
            },
            Maneuver::SpinTranslate { yaw_dps, .. } => if axis == 2 {
                Signal::Spin { rate_dps: yaw_dps }
            } else {
                Signal::Zero
            },
            Maneuver::Turbulence { rms_deg, band_hz, .. } => Signal::Noise {
                rms_deg,
                band_hz,
                axis: axis as usize,
                scale: Float32::from_bits(
                    if axis == 2 {
                        THREE_TENTHS
                    } else {
                        ONE
                    },
                ),
            },
            Maneuver::FreeFall { jitter_deg } => if axis == 0 {
                sine(jitter_deg, ONE, Float32::from_bits(ONE), 0)
            } else if axis == 1 {
                sine(jitter_deg, ONE, Float32::from_bits(FALL_PITCH_HZ), 0)
            } else {
                Signal::Zero
            },
            Maneuver::PropwashDescent { jitter_deg, .. } => if axis == 0 {
                sine(jitter_deg, ONE, Float32::from_bits(PROPWASH_HZ), 0)
            } else if axis == 1 {
                sine(jitter_deg, ONE, Float32::from_bits(PROPWASH_HZ), ONE)
            } else {
                Signal::Zero
            },
            Maneuver::LandingImpact { .. } => Signal::Zero,
            Maneuver::MagDisturbSweep { rate_dps, .. } => if axis == 2 {
                Signal::Spin { rate_dps }
            } else {
                Signal::Zero
            },
            Maneuver::GyroSatBoundary { rate_dps } => if axis == 0 {
                Signal::Spin { rate_dps }
            } else {
                Signal::Zero
            },
            Maneuver::AttitudeSine { axis: a, amp_deg, freq_hz, .. } => if axis == a || (axis == 2
                && a > 2) {
                sine(amp_deg, ONE, freq_hz, 0)
            } else {
                Signal::Zero
            },
        }
    }

    /// What drives an acceleration: zero for north, one for east, two for down.
    pub open spec fn accel_of(self, axis: int) -> Signal {
        match self {
            Maneuver::BrakeReversal { accel_g, hold_s, .. } if axis == 0 => Signal::PushReversal {
                accel_g,
                total_s: hold_s,
            },
            Maneuver::CoordinatedTurn { bank_deg, .. } if axis == 1 => Signal::BankPull {
                deg: bank_deg,
            },
            Maneuver::Roll360 { thrust_ratio, .. } if axis == 2 => Signal::Shortfall {
                thrust_ratio: thrust_ratio.held_between(
                    Float32::from_bits(0),
                    Float32::from_bits(TWO),
                ),
            },
            Maneuver::SpinTranslate { accel_g, .. } if axis == 0 => Signal::Onset { accel_g },
            Maneuver::FreeFall { .. } if axis == 2 => Signal::Gravity,
            Maneuver::LandingImpact { peak_g } if axis == 2 => Signal::Spike { peak_g },
            _ => Signal::Zero,
        }
    }

    /// The signals of the manoeuvre.
    pub fn profile(&self) -> (r: Profile)
        ensures
            forall|k: int| 0 <= k < 3 ==> #[trigger] r.angles[k] == self.angle_of(k),
            forall|k: int| 0 <= k < 3 ==> #[trigger] r.accel[k] == self.accel_of(k),
    {
        let z: Signal = Signal::Zero;
        match *self {
            Maneuver::HoverMicro { amp_deg } => Profile {
                angles: [
                    make_sine(amp_deg, ONE, Float32::from_bits(HALF), 0),
                    make_sine(amp_deg, ONE, Float32::from_bits(HOVER_PITCH_HZ), ONE),
                    make_sine(amp_deg, HALF, Float32::from_bits(THREE_TENTHS), 0),
                ],
                accel: [z, z, z],
            },
            Maneuver::Cruise { tilt_deg, ramp_s, hold_s } => Profile {
                angles: [z, Signal::Trapezoid { deg: tilt_deg, ramp_s, hold_s }, z],
                accel: [z, z, z],
            },
            Maneuver::BrakeReversal { accel_g, tilt_deg, hold_s } => Profile {
                angles: [z, Signal::TiltReversal { deg: tilt_deg, total_s: hold_s }, z],
                accel: [Signal::PushReversal { accel_g, total_s: hold_s }, z, z],
            },
            Maneuver::CoordinatedTurn { bank_deg, rate_dps } => Profile {
                angles: [Signal::Bank { deg: bank_deg }, z, Signal::Spin { rate_dps }],
                accel: [z, Signal::BankPull { deg: bank_deg }, z],
            },
            Maneuver::YawWhip { rate_dps } => Profile {
                angles: [z, z, Signal::Spin { rate_dps }],
                accel: [z, z, z],
            },
            Maneuver::Roll360 { rate_dps, thrust_ratio } => {
                let ratio: Float32 = thrust_ratio.clamp(
                    Float32::from_bits(0),
                    Float32::from_bits(TWO),
                );
                Profile {
                    angles: [Signal::Spin { rate_dps }, z, z],
                    accel: [z, z, Signal::Shortfall { thrust_ratio: ratio }],
                }
            },
            Maneuver::SpinTranslate { yaw_dps, accel_g } => Profile {
                angles: [z, z, Signal::Spin { rate_dps: yaw_dps }],
                accel: [Signal::Onset { accel_g }, z, z],
            },
            Maneuver::Turbulence { rms_deg, band_hz, .. } => {
                let one: Float32 = Float32::from_bits(ONE);
                let less: Float32 = Float32::from_bits(THREE_TENTHS);
                Profile {
                    angles: [
                        Signal::Noise { rms_deg, band_hz, axis: 0, scale: one },
                        Signal::Noise { rms_deg, band_hz, axis: 1, scale: one },
                        Signal::Noise { rms_deg, band_hz, axis: 2, scale: less },
                    ],
                    accel: [z, z, z],
                }
            },
            Maneuver::FreeFall { jitter_deg } => Profile {
                angles: [
                    make_sine(jitter_deg, ONE, Float32::from_bits(ONE), 0),
                    make_sine(jitter_deg, ONE, Float32::from_bits(FALL_PITCH_HZ), 0),
                    z,
                ],
                accel: [z, z, Signal::Gravity],
            },
            Maneuver::PropwashDescent { jitter_deg, .. } => Profile {
                angles: [
                    make_sine(jitter_deg, ONE, Float32::from_bits(PROPWASH_HZ), 0),
                    make_sine(jitter_deg, ONE, Float32::from_bits(PROPWASH_HZ), ONE),
                    z,
                ],
                accel: [z, z, z],
            },
            Maneuver::LandingImpact { peak_g } => Profile {
                angles: [z, z, z],
                accel: [z, z, Signal::Spike { peak_g }],
            },
            Maneuver::MagDisturbSweep { rate_dps, .. } => Profile {
                angles: [z, z, Signal::Spin { rate_dps }],
                accel: [z, z, z],
            },
            Maneuver::GyroSatBoundary { rate_dps } => Profile {
                angles: [Signal::Spin { rate_dps }, z, z],
                accel: [z, z, z],
            },
            Maneuver::AttitudeSine { axis, amp_deg, freq_hz, .. } => {
                let s: Signal = make_sine(amp_deg, ONE, freq_hz, 0);
                Profile {
                    angles: if axis == 0 {
                        [s, z, z]
                    } else if axis == 1 {
                        [z, s, z]
                    } else {
                        [z, z, s]
                    },
                    accel: [z, z, z],
                }
            },
        }
    }
}

/// In free fall the acceleration is gravity, so that nothing is left for an accelerometer; no other
/// manoeuvre prescribes gravity.
pub proof fn lemma_only_free_fall_is_weightless(m: Maneuver, axis: int)
    ensures
        m.accel_of(axis) is Gravity <==> m is FreeFall && axis == 2,
{
}

/// Hovering, cruising, spinning, turbulence, descending and sine sweeps prescribe no acceleration:
/// what an accelerometer measures in them is gravity alone.
pub proof fn lemma_quasi_static_maneuvers(m: Maneuver, axis: int)
    requires
        m is HoverMicro || m is Cruise || m is YawWhip || m is Turbulence || m is PropwashDescent
            || m is MagDisturbSweep || m is GyroSatBoundary || m is AttitudeSine,
    ensures
        m.accel_of(axis) is Zero,
{
}

/// A single-axis sine drives one axis and no other.
pub proof fn lemma_sine_drives_one_axis(m: Maneuver)
    requires
        m is AttitudeSine,
    ensures
        exists|a: int|
            0 <= a < 3 && !((#[trigger] m.angle_of(a)) is Zero) && forall|b: int|
                0 <= b < 3 && b != a ==> (#[trigger] m.angle_of(b)) is Zero,
{
    let a: int = if m->axis < 2 {
        m->axis as int
    } else {
        2
    };
    assert(!(m.angle_of(a) is Zero));
}

/// A rate of a duration is never less than one degree per second, so that no duration is divided by
/// zero.
pub proof fn lemma_duration_rate(rate: Float32)
    ensures
        Float32::from_bits(ONE).at_most(Maneuver::at_least_one(rate)),
{
}

/// The rate that a duration is computed from is the rate without its sense, and one where it is less.
pub proof fn lemma_rate_without_sense(rate: Float32)
    requires
        !rate.nan(),
    ensures
        ({
            let r = Maneuver::at_least_one(rate).value();
            let one = crate::ieee::one32();
            &&& -one <= rate.value() <= one ==> r == one
            &&& rate.value() > one ==> r == rate.value()
            &&& rate.value() < -one ==> r == -rate.value()
        }),
{
    let one = Float32::from_bits(ONE);
    vstd::arithmetic::power2::lemma2_to64();
    crate::ieee::lemma_exact32(one, 1, 1, 23);
    crate::ieee::lemma_signs32(rate);
    crate::ieee::lemma_extremes32(rate.absolute(), one);
}

/// Cruising and braking pitch the vehicle, and do not roll or turn it: cruising up a ramp to the tilt
/// and back, braking to the tilt and to its opposite.
pub proof fn lemma_pitching_maneuvers(m: Maneuver, axis: int)
    requires
        m is Cruise || m is BrakeReversal,
        0 <= axis < 3,
    ensures
        m.angle_of(axis) is Zero <==> axis != 1,
        m matches Maneuver::Cruise { tilt_deg, ramp_s, hold_s } ==> axis == 1 ==> m.angle_of(axis)
            == (Signal::Trapezoid { deg: tilt_deg, ramp_s, hold_s }),
        m matches Maneuver::BrakeReversal { tilt_deg, hold_s, .. } ==> axis == 1 ==> m.angle_of(
            axis,
        ) == (Signal::TiltReversal { deg: tilt_deg, total_s: hold_s }),
{
}

/// A whip, a spin under way and a sweep of the magnetometer turn the vehicle about the vertical, at
/// their rate, and do not roll or pitch it.
pub proof fn lemma_yawing_maneuvers(m: Maneuver, axis: int)
    requires
        m is YawWhip || m is SpinTranslate || m is MagDisturbSweep,
        0 <= axis < 3,
    ensures
        m.angle_of(axis) is Zero <==> axis != 2,
        m matches Maneuver::YawWhip { rate_dps } ==> axis == 2 ==> m.angle_of(axis) == (
        Signal::Spin { rate_dps }),
        m matches Maneuver::SpinTranslate { yaw_dps, .. } ==> axis == 2 ==> m.angle_of(axis) == (
        Signal::Spin { rate_dps: yaw_dps }),
        m matches Maneuver::MagDisturbSweep { rate_dps, .. } ==> axis == 2 ==> m.angle_of(axis) == (
        Signal::Spin { rate_dps }),
{
}

/// A roll, and the spin at the limit of the gyroscope, roll the vehicle at their rate, and do not
/// pitch or turn it.
pub proof fn lemma_rolling_maneuvers(m: Maneuver, axis: int)
    requires
        m is Roll360 || m is GyroSatBoundary,
        0 <= axis < 3,
    ensures
        m.angle_of(axis) is Zero <==> axis != 0,
        m matches Maneuver::Roll360 { rate_dps, .. } ==> axis == 0 ==> m.angle_of(axis) == (
        Signal::Spin { rate_dps }),
        m matches Maneuver::GyroSatBoundary { rate_dps } ==> axis == 0 ==> m.angle_of(axis) == (
        Signal::Spin { rate_dps }),
{
}

/// A coordinated turn banks the vehicle and turns it at its rate, and does not pitch it.
pub proof fn lemma_coordinated_turn(m: Maneuver, axis: int)
    requires
        m is CoordinatedTurn,
        0 <= axis < 3,
    ensures
        m.angle_of(axis) is Zero <==> axis == 1,
        axis == 0 ==> m.angle_of(axis) == (Signal::Bank { deg: m->bank_deg }),
        axis == 2 ==> m.angle_of(axis) == (Signal::Spin { rate_dps: m->CoordinatedTurn_rate_dps }),
{
}

/// A sine along an axis drives the axis that it names, with its amplitude and frequency, and without
/// a phase; an axis that there is none of counts as the vertical one.
pub proof fn lemma_sine_names_its_axis(m: Maneuver, axis: int)
    requires
        m is AttitudeSine,
        0 <= axis < 3,
    ensures
        m.angle_of(axis) is Zero <==> !(axis == m->axis || (axis == 2 && m->axis > 2)),
        m.angle_of(axis) matches Signal::Sine { amp_deg, scale, freq_hz, phase } ==> {
            &&& amp_deg == m->AttitudeSine_amp_deg
            &&& freq_hz == m->freq_hz
            &&& scale.value() == crate::ieee::one32()
            &&& phase.value() == 0
        },
        m.angle_of(axis) is Zero || m.angle_of(axis) is Sine,
{
    vstd::arithmetic::power2::lemma2_to64();
    crate::ieee::lemma_exact32(Float32::from_bits(ONE), 1, 1, 23);
    crate::ieee::lemma_scale32(Float32::from_bits(0), Float32::from_bits(0));
}

/// A hover trembles about every axis with the given amplitude, about the vertical with half of it:
/// at half a hertz in roll, seven tenths in pitch, three tenths in yaw. Pitch is ahead by a radian.
pub proof fn lemma_hover_trembles(m: Maneuver, axis: int)
    requires
        m is HoverMicro,
        0 <= axis < 3,
    ensures
        m.angle_of(axis) matches Signal::Sine { amp_deg, scale, freq_hz, phase } && {
            &&& amp_deg == m->HoverMicro_amp_deg
            &&& 2 * scale.value() == (if axis == 2 {
                1int
            } else {
                2
            }) * crate::ieee::one32()
            &&& crate::ieee::is_ratio32(
                freq_hz,
                if axis == 0 {
                    5
                } else if axis == 1 {
                    7
                } else {
                    3
                },
                10,
            )
            &&& phase.value() == if axis == 1 {
                crate::ieee::one32()
            } else {
                0
            }
        },
{
    vstd::arithmetic::power2::lemma2_to64();
    crate::ieee::lemma_exact32(Float32::from_bits(ONE), 1, 1, 23);
    crate::ieee::lemma_exact32(Float32::from_bits(HALF), 1, 2, 24);
    crate::ieee::lemma_scale32(Float32::from_bits(0), Float32::from_bits(0));
    lemma_measures();
    crate::ieee::lemma_ratio32(Float32::from_bits(HALF), 5, 10, 24);
}

/// Falling and descending tremble about the horizontal axes with the given amplitude: a fall at one
/// hertz in roll and at one and seven tenths in pitch, a descent in its own wash at thirty hertz in
/// both, where pitch is ahead by a radian.
pub proof fn lemma_falls_tremble(m: Maneuver, axis: int)
    requires
        m is FreeFall || m is PropwashDescent,
        0 <= axis < 3,
    ensures
        m.angle_of(axis) is Zero <==> axis == 2,
        axis < 2 ==> (m.angle_of(axis) matches Signal::Sine { amp_deg, scale, freq_hz, phase } && {
            &&& m is FreeFall ==> amp_deg == m->FreeFall_jitter_deg
            &&& m is PropwashDescent ==> amp_deg == m->PropwashDescent_jitter_deg
            &&& scale.value() == crate::ieee::one32()
            &&& crate::ieee::is_ratio32(
                freq_hz,
                if m is PropwashDescent {
                    300
                } else if axis == 0 {
                    10
                } else {
                    17
                },
                10,
            )
            &&& phase.value() == if m is PropwashDescent && axis == 1 {
                crate::ieee::one32()
            } else {
                0
            }
        }),
{
    vstd::arithmetic::power2::lemma2_to64();
    crate::ieee::lemma_exact32(Float32::from_bits(ONE), 1, 1, 23);
    crate::ieee::lemma_scale32(Float32::from_bits(0), Float32::from_bits(0));
    lemma_measures();
    crate::ieee::lemma_ratio32(Float32::from_bits(ONE), 10, 10, 23);
    crate::ieee::lemma_ratio32(Float32::from_bits(PROPWASH_HZ), 300, 10, 19);
}

/// Turbulence shakes every axis with noise of its own, of the given strength and band; the vertical
/// one with three tenths of the strength. A landing leaves the vehicle level.
pub proof fn lemma_turbulence_and_landing(m: Maneuver, axis: int)
    requires
        m is Turbulence || m is LandingImpact,
        0 <= axis < 3,
    ensures
        m is LandingImpact <==> m.angle_of(axis) is Zero,
        m is Turbulence ==> (m.angle_of(axis) matches Signal::Noise {
            rms_deg,
            band_hz,
            axis: a,
            scale,
        } && {
            &&& rms_deg == m->rms_deg
            &&& band_hz == m->band_hz
            &&& a == axis
            &&& crate::ieee::is_ratio32(
                scale,
                if axis == 2 {
                    3
                } else {
                    10
                },
                10,
            )
        }),
{
    vstd::arithmetic::power2::lemma2_to64();
    lemma_measures();
    crate::ieee::lemma_ratio32(Float32::from_bits(ONE), 10, 10, 23);
}

/// What pushes a vehicle: braking back and forth along its course, with the course of the tilt; a turn
/// to its side; a roll, a fall and a landing along the vertical; a spin under way ahead. The amounts
/// are those that the manoeuvre gives, and the thrust of a roll counts from none to twice its weight.
pub proof fn lemma_pushes(m: Maneuver, axis: int)
    requires
        0 <= axis < 3,
    ensures
        m.accel_of(axis) is Zero <==> !((axis == 0 && (m is BrakeReversal || m is SpinTranslate)) || (
        axis == 1 && m is CoordinatedTurn) || (axis == 2 && (m is Roll360 || m is FreeFall
            || m is LandingImpact))),
        axis == 0 ==> (m matches Maneuver::BrakeReversal { accel_g, hold_s, .. } ==> m.accel_of(axis)
            == (Signal::PushReversal { accel_g, total_s: hold_s })),
        axis == 0 ==> (m matches Maneuver::SpinTranslate { accel_g, .. } ==> m.accel_of(axis) == (
        Signal::Onset { accel_g })),
        axis == 1 ==> (m matches Maneuver::CoordinatedTurn { bank_deg, .. } ==> m.accel_of(axis) == (
        Signal::BankPull { deg: bank_deg })),
        axis == 2 ==> (m matches Maneuver::LandingImpact { peak_g } ==> m.accel_of(axis) == (
        Signal::Spike { peak_g })),
        axis == 2 ==> (m matches Maneuver::Roll360 { thrust_ratio, .. } ==> (m.accel_of(
            axis,
        ) matches Signal::Shortfall { thrust_ratio: held } && (!thrust_ratio.nan() ==> {
            &&& thrust_ratio.value() < 0 ==> held.value() == 0
            &&& 0 <= thrust_ratio.value() <= 2 * crate::ieee::one32() ==> held == thrust_ratio
            &&& thrust_ratio.value() > 2 * crate::ieee::one32() ==> held.value() == 2
                * crate::ieee::one32()
        }))),
{
    let zero = Float32::from_bits(0);
    let two = Float32::from_bits(TWO);
    vstd::arithmetic::power2::lemma2_to64();
    crate::ieee::lemma_exact32(two, 2, 1, 22);
    crate::ieee::lemma_scale32(zero, zero);
    if let Maneuver::Roll360 { thrust_ratio, .. } = m {
        crate::ieee::lemma_order32(zero, two);
        crate::ieee::lemma_held32(thrust_ratio, zero, two);
    }
}

/// How long each manoeuvre takes: those that turn, four turns at their rate, or one and a pause for a
/// sweep; those that are given a time, that time; and the rest a number of seconds of their own.
pub proof fn lemma_durations(m: Maneuver)
    ensures
        match m {
            Maneuver::Cruise { ramp_s, hold_s, .. } => m.duration_of() == (Duration::RampHoldRamp {
                ramp_s,
                hold_s,
            }),
            Maneuver::CoordinatedTurn { rate_dps, .. } => m.duration_of() == (Duration::FourTurns {
                rate_dps: Maneuver::at_least_one(rate_dps),
            }),
            Maneuver::YawWhip { rate_dps } => m.duration_of() == (Duration::FourTurns {
                rate_dps: Maneuver::at_least_one(rate_dps),
            }),
            Maneuver::Roll360 { rate_dps, .. } => m.duration_of() == (Duration::FourTurns {
                rate_dps: Maneuver::at_least_one(rate_dps),
            }),
            Maneuver::SpinTranslate { yaw_dps, .. } => m.duration_of() == (Duration::FourTurns {
                rate_dps: Maneuver::at_least_one(yaw_dps),
            }),
            Maneuver::MagDisturbSweep { rate_dps, .. } => m.duration_of() == (
            Duration::TurnAndPause { rate_dps: Maneuver::at_least_one(rate_dps) }),
            Maneuver::BrakeReversal { hold_s, .. } => m.duration_of() == Duration::Seconds(hold_s),
            Maneuver::AttitudeSine { duration_s, .. } => m.duration_of() == Duration::Seconds(
                duration_s,
            ),
            _ => m.duration_of() matches Duration::Seconds(s) && s.value() == crate::ieee::one32()
                * if m is HoverMicro {
                10int
            } else if m is Turbulence {
                15
            } else if m is PropwashDescent {
                8
            } else if m is LandingImpact {
                5
            } else {
                6
            },
        },
{
    vstd::arithmetic::power2::lemma2_to64();
    crate::ieee::lemma_exact32(Float32::from_bits(HOVER_S), 10, 1, 20);
    crate::ieee::lemma_exact32(Float32::from_bits(TURBULENCE_S), 15, 1, 20);
    crate::ieee::lemma_exact32(Float32::from_bits(DESCENT_S), 8, 1, 20);
    crate::ieee::lemma_exact32(Float32::from_bits(IMPACT_S), 5, 1, 21);
    crate::ieee::lemma_exact32(Float32::from_bits(SHORT_S), 6, 1, 21);
}

/// How far a ramp has come.
#[derive(Clone, Copy, Debug, PartialEq, Eq, Structural)]
pub enum Ramp {
    /// A ramp without length: not begun, or complete.
    Step(bool),
    /// A smooth course between the ends.
    Smooth,
}

/// The course of a ramp from `a` to `b` at time `t`.
pub fn ramp_between(t: Float32, a: Float32, b: Float32) -> (r: Ramp)
    ensures
        r == if b.at_most(a) {
            Ramp::Step(a.at_most(t))
        } else {
            Ramp::Smooth
        },
{
    if b.le(a) {
        Ramp::Step(a.le(t))
    } else {
        Ramp::Smooth
    }
}

/// A time, from the middle of a spike, at which it acts.
pub fn in_spike(offset: Float32) -> (r: bool)
    ensures
        r == offset.absolute().less(Float32::from_bits(SPIKE_HALF_WIDTH)),
{
    offset.abs().lt(Float32::from_bits(SPIKE_HALF_WIDTH))
}

/// What the constants of this module are worth.
pub proof fn lemma_measures()
    ensures
        crate::ieee::is_ratio32(Float32::from_bits(ONE), 1, 1),
        crate::ieee::is_ratio32(Float32::from_bits(TWO), 2, 1),
        crate::ieee::is_ratio32(Float32::from_bits(HALF), 1, 2),
        crate::ieee::is_ratio32(Float32::from_bits(IMPACT_S), 5, 1),
        crate::ieee::is_ratio32(Float32::from_bits(SHORT_S), 6, 1),
        crate::ieee::is_ratio32(Float32::from_bits(DESCENT_S), 8, 1),
        crate::ieee::is_ratio32(Float32::from_bits(HOVER_S), 10, 1),
        crate::ieee::is_ratio32(Float32::from_bits(TURBULENCE_S), 15, 1),
        crate::ieee::is_ratio32(Float32::from_bits(HOVER_PITCH_HZ), 7, 10),
        crate::ieee::is_ratio32(Float32::from_bits(THREE_TENTHS), 3, 10),
        crate::ieee::is_ratio32(Float32::from_bits(FALL_PITCH_HZ), 17, 10),
        crate::ieee::is_ratio32(Float32::from_bits(PROPWASH_HZ), 30, 1),
        crate::ieee::is_ratio32(Float32::from_bits(SPIKE_HALF_WIDTH), 3, 20),
{
    assert(crate::ieee::is_ratio32(Float32::from_bits(ONE), 1, 1)) by {
        vstd::arithmetic::power2::lemma2_to64();
        crate::ieee::lemma_ratio32(Float32::from_bits(ONE), 1, 1, 23);
    }
    assert(crate::ieee::is_ratio32(Float32::from_bits(TWO), 2, 1)) by {
        vstd::arithmetic::power2::lemma2_to64();
        crate::ieee::lemma_ratio32(Float32::from_bits(TWO), 2, 1, 22);
    }
    assert(crate::ieee::is_ratio32(Float32::from_bits(HALF), 1, 2)) by {
        vstd::arithmetic::power2::lemma2_to64();
        crate::ieee::lemma_ratio32(Float32::from_bits(HALF), 1, 2, 24);
    }
    assert(crate::ieee::is_ratio32(Float32::from_bits(IMPACT_S), 5, 1)) by {
        vstd::arithmetic::power2::lemma2_to64();
        crate::ieee::lemma_ratio32(Float32::from_bits(IMPACT_S), 5, 1, 21);
    }
    assert(crate::ieee::is_ratio32(Float32::from_bits(SHORT_S), 6, 1)) by {
        vstd::arithmetic::power2::lemma2_to64();
        crate::ieee::lemma_ratio32(Float32::from_bits(SHORT_S), 6, 1, 21);
    }
    assert(crate::ieee::is_ratio32(Float32::from_bits(DESCENT_S), 8, 1)) by {
        vstd::arithmetic::power2::lemma2_to64();
        crate::ieee::lemma_ratio32(Float32::from_bits(DESCENT_S), 8, 1, 20);
    }
    assert(crate::ieee::is_ratio32(Float32::from_bits(HOVER_S), 10, 1)) by {
        vstd::arithmetic::power2::lemma2_to64();
        crate::ieee::lemma_ratio32(Float32::from_bits(HOVER_S), 10, 1, 20);
    }
    assert(crate::ieee::is_ratio32(Float32::from_bits(TURBULENCE_S), 15, 1)) by {
        vstd::arithmetic::power2::lemma2_to64();
        crate::ieee::lemma_ratio32(Float32::from_bits(TURBULENCE_S), 15, 1, 20);
    }
    assert(crate::ieee::is_ratio32(Float32::from_bits(HOVER_PITCH_HZ), 7, 10)) by {
        vstd::arithmetic::power2::lemma2_to64();
        crate::ieee::lemma_ratio32(Float32::from_bits(HOVER_PITCH_HZ), 7, 10, 24);
    }
    assert(crate::ieee::is_ratio32(Float32::from_bits(THREE_TENTHS), 3, 10)) by {
        vstd::arithmetic::power2::lemma2_to64();
        crate::ieee::lemma_ratio32(Float32::from_bits(THREE_TENTHS), 3, 10, 25);
    }
    assert(crate::ieee::is_ratio32(Float32::from_bits(FALL_PITCH_HZ), 17, 10)) by {
        vstd::arithmetic::power2::lemma2_to64();
        crate::ieee::lemma_ratio32(Float32::from_bits(FALL_PITCH_HZ), 17, 10, 23);
    }
    assert(crate::ieee::is_ratio32(Float32::from_bits(PROPWASH_HZ), 30, 1)) by {
        vstd::arithmetic::power2::lemma2_to64();
        crate::ieee::lemma_ratio32(Float32::from_bits(PROPWASH_HZ), 30, 1, 19);
    }
    assert(crate::ieee::is_ratio32(Float32::from_bits(SPIKE_HALF_WIDTH), 3, 20)) by {
        vstd::arithmetic::power2::lemma2_to64();
        crate::ieee::lemma_ratio32(Float32::from_bits(SPIKE_HALF_WIDTH), 3, 20, 26);
    }
}

} // verus!
