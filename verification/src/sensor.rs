//! Sensors between the true state and the estimator: faults, the delayed satellite fix, and the
//! errors that a sensor is set up with.
//!
//! Noise and sums are computed by the caller in floating point.

use crate::ieee::Float64;
use std::collections::VecDeque;
use vstd::prelude::*;

verus! {

/// The seed of the noise.
pub const DEFAULT_SEED: u64 = 0x5EED_1357;

/// 10^-12: the least number that a logarithm is taken of.
pub const LEAST_DRAW: u64 = 0x3D71_9799_812D_EA11;

/// Minus one twentieth, and one twentieth: radians per second.
pub const GYRO_ERROR_LEAST: u64 = 0xBFA9_9999_9999_999A;

pub const GYRO_ERROR_MOST: u64 = 0x3FA9_9999_9999_999A;

/// Minus fifty, and fifty: metres.
pub const BARO_ERROR_LEAST: u64 = 0xC049_0000_0000_0000;

pub const BARO_ERROR_MOST: u64 = 0x4049_0000_0000_0000;

/// The errors of the sensors.
#[derive(Clone, Copy, Debug, PartialEq, Eq)]
pub struct SensorConfig {
    /// The constant error of the accelerometer, in metres per second squared.
    pub accel_bias: [Float64; 3],
    pub accel_noise: Float64,
    /// The constant error of the gyroscope, in radians per second.
    pub gyro_bias: [Float64; 3],
    pub gyro_noise: Float64,
    /// The random walk of the gyroscope's error.
    pub gyro_walk: Float64,
    /// The slow instability of the gyroscope's error.
    pub gyro_bias_inst: Float64,
    pub vib_amp: Float64,
    /// The delay of a fix, in seconds.
    pub gps_delay: Float64,
    /// Fixes per second.
    pub gps_rate: Float64,
    pub gps_pos_noise: Float64,
    pub gps_vel_noise: Float64,
    /// The probability that a fix is lost.
    pub gps_drop_prob: Float64,
    pub mag_hard_iron: [Float64; 3],
    pub mag_soft_iron: [Float64; 3],
    pub mag_noise: Float64,
    pub baro_noise: Float64,
    pub baro_drift: Float64,
    pub seed: u64,
}

impl Default for SensorConfig {
    /// Sensors without errors, and a fix in every step.
    fn default() -> (r: Self)
        ensures
            r.accel_bias@ == seq![
                Float64::from_bits(0),
                Float64::from_bits(0),
                Float64::from_bits(0),
            ],
            r.accel_noise == Float64::from_bits(0),
            r.gyro_bias@ == seq![
                Float64::from_bits(0),
                Float64::from_bits(0),
                Float64::from_bits(0),
            ],
            r.gyro_noise == Float64::from_bits(0),
            r.gyro_walk == Float64::from_bits(0),
            r.gyro_bias_inst == Float64::from_bits(0),
            r.vib_amp == Float64::from_bits(0),
            r.gps_delay == Float64::from_bits(0),
            r.gps_rate == Float64::from_bits(0x408F_4000_0000_0000),
            r.gps_pos_noise == Float64::from_bits(0),
            r.gps_vel_noise == Float64::from_bits(0),
            r.gps_drop_prob == Float64::from_bits(0),
            r.mag_hard_iron@ == seq![
                Float64::from_bits(0),
                Float64::from_bits(0),
                Float64::from_bits(0),
            ],
            r.mag_soft_iron@ == seq![
                Float64::from_bits(0x3FF0_0000_0000_0000),
                Float64::from_bits(0x3FF0_0000_0000_0000),
                Float64::from_bits(0x3FF0_0000_0000_0000),
            ],
            r.mag_noise == Float64::from_bits(0),
            r.baro_noise == Float64::from_bits(0),
            r.baro_drift == Float64::from_bits(0),
            r.seed == DEFAULT_SEED,
    {
        let r: SensorConfig = SensorConfig {
            accel_bias: [
                Float64::from_bits(0),
                Float64::from_bits(0),
                Float64::from_bits(0),
            ],
            accel_noise: Float64::from_bits(0),
            gyro_bias: [
                Float64::from_bits(0),
                Float64::from_bits(0),
                Float64::from_bits(0),
            ],
            gyro_noise: Float64::from_bits(0),
            gyro_walk: Float64::from_bits(0),
            gyro_bias_inst: Float64::from_bits(0),
            vib_amp: Float64::from_bits(0),
            gps_delay: Float64::from_bits(0),
            // 1000.0
            gps_rate: Float64::from_bits(0x408F_4000_0000_0000),
            gps_pos_noise: Float64::from_bits(0),
            gps_vel_noise: Float64::from_bits(0),
            gps_drop_prob: Float64::from_bits(0),
            mag_hard_iron: [
                Float64::from_bits(0),
                Float64::from_bits(0),
                Float64::from_bits(0),
            ],
            // 1.0, 1.0, 1.0
            mag_soft_iron: [
                Float64::from_bits(0x3FF0_0000_0000_0000),
                Float64::from_bits(0x3FF0_0000_0000_0000),
                Float64::from_bits(0x3FF0_0000_0000_0000),
            ],
            mag_noise: Float64::from_bits(0),
            baro_noise: Float64::from_bits(0),
            baro_drift: Float64::from_bits(0),
            seed: DEFAULT_SEED,
        };
        proof {
            assert(r.accel_bias@ =~= seq![
                Float64::from_bits(0),
                Float64::from_bits(0),
                Float64::from_bits(0),
            ]);
            assert(r.gyro_bias@ =~= seq![
                Float64::from_bits(0),
                Float64::from_bits(0),
                Float64::from_bits(0),
            ]);
            assert(r.mag_hard_iron@ =~= seq![
                Float64::from_bits(0),
                Float64::from_bits(0),
                Float64::from_bits(0),
            ]);
            assert(r.mag_soft_iron@ =~= seq![
                Float64::from_bits(0x3FF0_0000_0000_0000),
                Float64::from_bits(0x3FF0_0000_0000_0000),
                Float64::from_bits(0x3FF0_0000_0000_0000),
            ]);
        }
        r
    }
}

impl SensorConfig {
    /// Sensors with the errors of ordinary ones.
    pub fn realistic() -> (r: Self)
        ensures
            r.accel_bias@ == seq![
                Float64::from_bits(0x3F94_7AE1_47AE_147B),
                Float64::from_bits(0xBF84_7AE1_47AE_147B),
                Float64::from_bits(0x3FA9_9999_9999_999A),
            ],
            r.accel_noise == Float64::from_bits(0x3FA9_9999_9999_999A),
            r.gyro_bias@ == seq![
                Float64::from_bits(0x3F50_624D_D2F1_A9FC),
                Float64::from_bits(0xBF40_624D_D2F1_A9FC),
                Float64::from_bits(0x3F60_624D_D2F1_A9FC),
            ],
            r.gyro_noise == Float64::from_bits(0x3F68_9374_BC6A_7EFA),
            r.gyro_walk == Float64::from_bits(0x3F1A_36E2_EB1C_432D),
            r.gyro_bias_inst == Float64::from_bits(0x3F33_A92A_3055_3261),
            r.vib_amp == Float64::from_bits(0x3FB9_9999_9999_999A),
            r.gps_delay == Float64::from_bits(0x3FC3_3333_3333_3333),
            r.gps_rate == Float64::from_bits(0x4034_0000_0000_0000),
            r.gps_pos_noise == Float64::from_bits(0x3FE0_0000_0000_0000),
            r.gps_vel_noise == Float64::from_bits(0x3FB9_9999_9999_999A),
            r.gps_drop_prob == Float64::from_bits(0),
            r.mag_hard_iron@ == seq![
                Float64::from_bits(0x3FD3_3333_3333_3333),
                Float64::from_bits(0xBFC9_9999_9999_999A),
                Float64::from_bits(0x3FD9_9999_9999_999A),
            ],
            r.mag_soft_iron@ == seq![
                Float64::from_bits(0x3FEF_5C28_F5C2_8F5C),
                Float64::from_bits(0x3FF0_7AE1_47AE_147B),
                Float64::from_bits(0x3FEF_AE14_7AE1_47AE),
            ],
            r.mag_noise == Float64::from_bits(0x3FA9_9999_9999_999A),
            r.baro_noise == Float64::from_bits(0x3FD3_3333_3333_3333),
            r.baro_drift == Float64::from_bits(0x3FA9_9999_9999_999A),
            r.seed == DEFAULT_SEED,
    {
        let r: SensorConfig = SensorConfig {
            // 0.02, -0.01, 0.05
            accel_bias: [
                Float64::from_bits(0x3F94_7AE1_47AE_147B),
                Float64::from_bits(0xBF84_7AE1_47AE_147B),
                Float64::from_bits(0x3FA9_9999_9999_999A),
            ],
            // 0.05
            accel_noise: Float64::from_bits(0x3FA9_9999_9999_999A),
            // 0.001, -0.0005, 0.002
            gyro_bias: [
                Float64::from_bits(0x3F50_624D_D2F1_A9FC),
                Float64::from_bits(0xBF40_624D_D2F1_A9FC),
                Float64::from_bits(0x3F60_624D_D2F1_A9FC),
            ],
            // 0.003
            gyro_noise: Float64::from_bits(0x3F68_9374_BC6A_7EFA),
            // 0.0001
            gyro_walk: Float64::from_bits(0x3F1A_36E2_EB1C_432D),
            // 0.0003
            gyro_bias_inst: Float64::from_bits(0x3F33_A92A_3055_3261),
            // 0.1
            vib_amp: Float64::from_bits(0x3FB9_9999_9999_999A),
            // 0.15
            gps_delay: Float64::from_bits(0x3FC3_3333_3333_3333),
            // 20.0
            gps_rate: Float64::from_bits(0x4034_0000_0000_0000),
            // 0.5
            gps_pos_noise: Float64::from_bits(0x3FE0_0000_0000_0000),
            // 0.1
            gps_vel_noise: Float64::from_bits(0x3FB9_9999_9999_999A),
            gps_drop_prob: Float64::from_bits(0),
            // 0.3, -0.2, 0.4
            mag_hard_iron: [
                Float64::from_bits(0x3FD3_3333_3333_3333),
                Float64::from_bits(0xBFC9_9999_9999_999A),
                Float64::from_bits(0x3FD9_9999_9999_999A),
            ],
            // 0.98, 1.03, 0.99
            mag_soft_iron: [
                Float64::from_bits(0x3FEF_5C28_F5C2_8F5C),
                Float64::from_bits(0x3FF0_7AE1_47AE_147B),
                Float64::from_bits(0x3FEF_AE14_7AE1_47AE),
            ],
            // 0.05
            mag_noise: Float64::from_bits(0x3FA9_9999_9999_999A),
            // 0.3
            baro_noise: Float64::from_bits(0x3FD3_3333_3333_3333),
            // 0.05
            baro_drift: Float64::from_bits(0x3FA9_9999_9999_999A),
            seed: DEFAULT_SEED,
        };
        proof {
            assert(r.accel_bias@ =~= seq![
                Float64::from_bits(0x3F94_7AE1_47AE_147B),
                Float64::from_bits(0xBF84_7AE1_47AE_147B),
                Float64::from_bits(0x3FA9_9999_9999_999A),
            ]);
            assert(r.gyro_bias@ =~= seq![
                Float64::from_bits(0x3F50_624D_D2F1_A9FC),
                Float64::from_bits(0xBF40_624D_D2F1_A9FC),
                Float64::from_bits(0x3F60_624D_D2F1_A9FC),
            ]);
            assert(r.mag_hard_iron@ =~= seq![
                Float64::from_bits(0x3FD3_3333_3333_3333),
                Float64::from_bits(0xBFC9_9999_9999_999A),
                Float64::from_bits(0x3FD9_9999_9999_999A),
            ]);
            assert(r.mag_soft_iron@ =~= seq![
                Float64::from_bits(0x3FEF_5C28_F5C2_8F5C),
                Float64::from_bits(0x3FF0_7AE1_47AE_147B),
                Float64::from_bits(0x3FEF_AE14_7AE1_47AE),
            ]);
        }
        r
    }
}

/// A fault of a sensor. A bias is added to what is read, a drift rate lets the bias grow, and a stuck
/// sensor reads the same value until it is freed by `None`.
#[derive(Clone, Copy, Debug, PartialEq, Eq)]
pub enum SensorFault {
    AccelBias([Float64; 3]),
    GyroBias([Float64; 3]),
    AccelDrift([Float64; 3]),
    GyroDrift([Float64; 3]),
    GpsBias([Float64; 3]),
    AccelStuck(Option<[Float64; 3]>),
    GyroStuck(Option<[Float64; 3]>),
    /// Position and velocity.
    GpsStuck(Option<[Float64; 6]>),
}

/// The faults that are in force.
#[derive(Clone, Copy, Debug, PartialEq, Eq)]
pub struct Faults {
    pub accel_bias: [Float64; 3],
    pub gyro_bias: [Float64; 3],
    pub accel_drift: [Float64; 3],
    pub gyro_drift: [Float64; 3],
    pub gps_bias: [Float64; 3],
    pub accel_stuck: Option<[Float64; 3]>,
    pub gyro_stuck: Option<[Float64; 3]>,
    pub gps_stuck: Option<[Float64; 6]>,
}

pub open spec fn all_zero(v: Seq<Float64>) -> bool {
    forall|i: int| 0 <= i < v.len() ==> #[trigger] v[i] == Float64::from_bits(0)
}

/// Two faults are of one kind: they concern the same sensor in the same way.
pub open spec fn same_kind(f: SensorFault, g: SensorFault) -> bool {
    match (f, g) {
        (SensorFault::AccelBias(_), SensorFault::AccelBias(_)) => true,
        (SensorFault::GyroBias(_), SensorFault::GyroBias(_)) => true,
        (SensorFault::AccelDrift(_), SensorFault::AccelDrift(_)) => true,
        (SensorFault::GyroDrift(_), SensorFault::GyroDrift(_)) => true,
        (SensorFault::GpsBias(_), SensorFault::GpsBias(_)) => true,
        (SensorFault::AccelStuck(_), SensorFault::AccelStuck(_)) => true,
        (SensorFault::GyroStuck(_), SensorFault::GyroStuck(_)) => true,
        (SensorFault::GpsStuck(_), SensorFault::GpsStuck(_)) => true,
        _ => false,
    }
}

impl Faults {
    pub fn new() -> (r: Self)
        ensures
            all_zero(r.accel_bias@),
            all_zero(r.gyro_bias@),
            all_zero(r.accel_drift@),
            all_zero(r.gyro_drift@),
            all_zero(r.gps_bias@),
            r.accel_stuck is None,
            r.gyro_stuck is None,
            r.gps_stuck is None,
    {
        let zero: Float64 = Float64::from_bits(0);
        let none: [Float64; 3] = [zero, zero, zero];
        Faults {
            accel_bias: none,
            gyro_bias: none,
            accel_drift: none,
            gyro_drift: none,
            gps_bias: none,
            accel_stuck: None,
            gyro_stuck: None,
            gps_stuck: None,
        }
    }

    /// The faults after another one.
    pub open spec fn with_fault(self, fault: SensorFault) -> Self {
        match fault {
            SensorFault::AccelBias(b) => Faults { accel_bias: b, ..self },
            SensorFault::GyroBias(b) => Faults { gyro_bias: b, ..self },
            SensorFault::AccelDrift(r) => Faults { accel_drift: r, ..self },
            SensorFault::GyroDrift(r) => Faults { gyro_drift: r, ..self },
            SensorFault::GpsBias(b) => Faults { gps_bias: b, ..self },
            SensorFault::AccelStuck(s) => Faults { accel_stuck: s, ..self },
            SensorFault::GyroStuck(s) => Faults { gyro_stuck: s, ..self },
            SensorFault::GpsStuck(s) => Faults { gps_stuck: s, ..self },
        }
    }

    pub fn apply_fault(&mut self, fault: SensorFault)
        ensures
            *final(self) == old(self).with_fault(fault),
    {
        match fault {
            SensorFault::AccelBias(b) => {
                self.accel_bias = b;
            },
            SensorFault::GyroBias(b) => {
                self.gyro_bias = b;
            },
            SensorFault::AccelDrift(r) => {
                self.accel_drift = r;
            },
            SensorFault::GyroDrift(r) => {
                self.gyro_drift = r;
            },
            SensorFault::GpsBias(b) => {
                self.gps_bias = b;
            },
            SensorFault::AccelStuck(s) => {
                self.accel_stuck = s;
            },
            SensorFault::GyroStuck(s) => {
                self.gyro_stuck = s;
            },
            SensorFault::GpsStuck(s) => {
                self.gps_stuck = s;
            },
        }
    }

    /// What the accelerometer reads, from what it would read if it were not stuck.
    pub fn accel_reading(&self, live: [Float64; 3]) -> (r: [Float64; 3])
        ensures
            r == match self.accel_stuck {
                Some(s) => s,
                None => live,
            },
    {
        match self.accel_stuck {
            Some(s) => s,
            None => live,
        }
    }

    /// What the gyroscope reads, from what it would read if it were not stuck.
    pub fn gyro_reading(&self, live: [Float64; 3]) -> (r: [Float64; 3])
        ensures
            r == match self.gyro_stuck {
                Some(s) => s,
                None => live,
            },
    {
        match self.gyro_stuck {
            Some(s) => s,
            None => live,
        }
    }

    /// What the satellite receiver takes in, from what it would take in if it were not stuck; nothing
    /// where the satellites are lost, stuck or not.
    pub fn gps_reading(&self, lost: bool, live: [Float64; 6]) -> (r: Option<[Float64; 6]>)
        ensures
            r == if lost {
                None
            } else {
                match self.gps_stuck {
                    Some(s) => Some(s),
                    None => Some(live),
                }
            },
    {
        if lost {
            None
        } else {
            match self.gps_stuck {
                Some(s) => Some(s),
                None => Some(live),
            }
        }
    }
}

/// A fault takes hold of the sensor that it names, in the way that it names, and of nothing else.
pub proof fn lemma_fault_takes_hold(s: Faults, f: SensorFault)
    ensures
        ({
            let t = s.with_fault(f);
            &&& t.accel_bias == match f {
                SensorFault::AccelBias(b) => b,
                _ => s.accel_bias,
            }
            &&& t.gyro_bias == match f {
                SensorFault::GyroBias(b) => b,
                _ => s.gyro_bias,
            }
            &&& t.accel_drift == match f {
                SensorFault::AccelDrift(r) => r,
                _ => s.accel_drift,
            }
            &&& t.gyro_drift == match f {
                SensorFault::GyroDrift(r) => r,
                _ => s.gyro_drift,
            }
            &&& t.gps_bias == match f {
                SensorFault::GpsBias(b) => b,
                _ => s.gps_bias,
            }
            &&& t.accel_stuck == match f {
                SensorFault::AccelStuck(v) => v,
                _ => s.accel_stuck,
            }
            &&& t.gyro_stuck == match f {
                SensorFault::GyroStuck(v) => v,
                _ => s.gyro_stuck,
            }
            &&& t.gps_stuck == match f {
                SensorFault::GpsStuck(v) => v,
                _ => s.gps_stuck,
            }
        }),
{
}

/// Of two faults of one kind the later counts, as if the earlier had never been; two of different
/// kinds do not affect each other, so that their order is of no importance.
pub proof fn lemma_faults(s: Faults, f: SensorFault, g: SensorFault)
    ensures
        same_kind(f, g) ==> s.with_fault(f).with_fault(g) == s.with_fault(g),
        !same_kind(f, g) ==> s.with_fault(f).with_fault(g) == s.with_fault(g).with_fault(f),
{
}

/// A sensor that was stuck and is freed reads as if it had never been stuck.
pub proof fn lemma_freed_sensor(s: Faults, a: [Float64; 3], g: [Float64; 3], p: [Float64; 6])
    requires
        s.accel_stuck is None,
        s.gyro_stuck is None,
        s.gps_stuck is None,
    ensures
        s.with_fault(SensorFault::AccelStuck(Some(a))).with_fault(SensorFault::AccelStuck(None))
            == s,
        s.with_fault(SensorFault::GyroStuck(Some(g))).with_fault(SensorFault::GyroStuck(None)) == s,
        s.with_fault(SensorFault::GpsStuck(Some(p))).with_fault(SensorFault::GpsStuck(None)) == s,
{
}

/// Satellites are lost in a step, from a number drawn in `[0, 1)`.
pub fn satellites_lost(draw: Float64, drop_prob: Float64) -> (r: bool)
    ensures
        r == draw.less(drop_prob),
{
    draw.lt(drop_prob)
}

/// A drawn number, not so small that its logarithm is out of range.
pub fn positive_draw(draw: Float64) -> (r: Float64)
    ensures
        r == draw.greater_of(Float64::from_bits(LEAST_DRAW)),
        Float64::from_bits(LEAST_DRAW).at_most(r),
{
    draw.max(Float64::from_bits(LEAST_DRAW))
}

/// The last `keep` entries of a history, or all of it.
pub open spec fn newest<T>(history: Seq<T>, keep: int) -> Seq<T> {
    if history.len() <= keep {
        history
    } else {
        history.skip(history.len() - keep)
    }
}

/// A fix that can be used: one that was taken in, and whose first coordinate is a number.
pub open spec fn usable(fix: Option<[Float64; 6]>) -> Option<[Float64; 6]> {
    match fix {
        Some(f) => if f[0].nan() {
            None
        } else {
            Some(f)
        },
        None => None,
    }
}

/// A fix can be used, and is used unchanged, where its first coordinate is any number at all; one
/// without a number there, and one that was not taken in, cannot.
pub proof fn lemma_usable(fix: Option<[Float64; 6]>)
    ensures
        fix matches Some(f) ==> !f[0].nan() ==> usable(fix) == fix,
        fix matches Some(f) ==> f[0].nan() ==> usable(fix) is None,
        fix is None ==> usable(fix) is None,
        usable(usable(fix)) == usable(fix),
{
}

/// The wandering error of the gyroscope, held within its limits.
pub fn held_gyro_error(e: Float64) -> (r: Float64)
    ensures
        r == e.held_between(Float64::from_bits(GYRO_ERROR_LEAST), Float64::from_bits(GYRO_ERROR_MOST)),
{
    e.clamp(Float64::from_bits(GYRO_ERROR_LEAST), Float64::from_bits(GYRO_ERROR_MOST))
}

/// The wandering error of the barometer, held within its limits.
pub fn held_baro_error(e: Float64) -> (r: Float64)
    ensures
        r == e.held_between(Float64::from_bits(BARO_ERROR_LEAST), Float64::from_bits(BARO_ERROR_MOST)),
{
    e.clamp(Float64::from_bits(BARO_ERROR_LEAST), Float64::from_bits(BARO_ERROR_MOST))
}

/// The delay line of the satellite receiver: fixes go in at every step, and come out later and less
/// often.
pub struct GpsDelay {
    delay_steps: usize,
    counter: u64,
    buf: VecDeque<Option<[Float64; 6]>>,
}

impl GpsDelay {
    /// The steps that a fix is held back for.
    pub closed spec fn delay(&self) -> int {
        self.delay_steps as int
    }

    /// The steps so far.
    pub closed spec fn steps(&self) -> int {
        self.counter as int
    }

    /// What is held back, the oldest first.
    pub closed spec fn held(&self) -> Seq<Option<[Float64; 6]>> {
        self.buf@
    }

    /// No more is held back than the delay asks for.
    pub open spec fn wf(&self) -> bool {
        1 <= self.delay() < usize::MAX && self.held().len() <= self.delay() + 1
    }

    /// A delay of at least one step.
    pub fn new(delay_steps: usize) -> (r: Self)
        requires
            delay_steps < usize::MAX,
        ensures
            r.wf(),
            r.delay() == if delay_steps == 0 {
                1
            } else {
                delay_steps as int
            },
            r.steps() == 0,
            r.held() == Seq::<Option<[Float64; 6]>>::empty(),
    {
        GpsDelay {
            delay_steps: if delay_steps == 0 {
                1
            } else {
                delay_steps
            },
            counter: 0,
            buf: VecDeque::new(),
        }
    }

    /// Takes in the fix of a step. Every `period` steps the oldest fix that is held back comes out.
    pub fn step(&mut self, fix: Option<[Float64; 6]>, period: u64) -> (r: Option<[Float64; 6]>)
        requires
            old(self).wf(),
            old(self).steps() < u64::MAX,
        ensures
            final(self).wf(),
            final(self).delay() == old(self).delay(),
            final(self).steps() == old(self).steps() + 1,
            final(self).held() == newest(old(self).held().push(fix), old(self).delay() + 1),
            r == if period <= 1 || final(self).steps() % (period as int) == 0 {
                usable(final(self).held()[0])
            } else {
                None
            },
            (period <= 1 || final(self).steps() % (period as int) == 0) ==> (
            final(self).held()[0] matches Some(f) ==> !f[0].nan() ==> r == Some(f)),
            r matches Some(f) ==> !f[0].nan() && final(self).held()[0] == Some(f),
    {
        self.counter = self.counter + 1;
        let every: u64 = if period == 0 {
            1
        } else {
            period
        };
        let ghost all = self.buf@.push(fix);
        self.buf.push_back(fix);
        if self.buf.len() > self.delay_steps + 1 {
            let gone: Option<Option<[Float64; 6]>> = self.buf.pop_front();
        }
        assert(self.buf@ =~= newest(all, self.delay_steps + 1));
        if self.counter % every == 0 {
            match self.buf[0] {
                Some(f) => if f[0].is_nan() {
                    None
                } else {
                    Some(f)
                },
                None => None,
            }
        } else {
            None
        }
    }
}

/// What is held back is the end of what went in, as much of it as is kept.
pub proof fn lemma_newest<T>(history: Seq<T>, keep: int)
    requires
        keep >= 0,
    ensures
        newest(history, keep).len() == if history.len() < keep {
            history.len() as int
        } else {
            keep
        },
        forall|i: int|
            0 <= i < newest(history, keep).len() ==> #[trigger] newest(history, keep)[i] == history[
            history.len() - newest(history, keep).len() + i],
{
}

/// Vectors without any component are worth nothing on every axis.
pub proof fn lemma_all_zero(v: Seq<Float64>, i: int)
    requires
        all_zero(v),
        0 <= i < v.len(),
    ensures
        v[i].bits == 0,
        v[i].value() == 0,
{
    crate::ieee::lemma_scale64(v[i], v[i]);
}

/// The delay line holds the newest part of all that went in: this is kept by every step.
pub proof fn lemma_held_is_newest<T>(history: Seq<T>, x: T, keep: int)
    requires
        keep >= 1,
    ensures
        newest(newest(history, keep).push(x), keep) == newest(history.push(x), keep),
{
    assert(newest(newest(history, keep).push(x), keep) =~= newest(history.push(x), keep));
}

/// What comes out is what went in as many steps before as the delay says; until so many steps have
/// passed, it is what went in first.
pub proof fn lemma_delayed_by<T>(history: Seq<T>, delay: int)
    requires
        history.len() > 0,
        delay >= 1,
    ensures
        newest(history, delay + 1)[0] == if history.len() > delay {
            history[history.len() - 1 - delay]
        } else {
            history[0]
        },
{
}

/// What the constants of this module are worth.
pub proof fn lemma_measures()
    ensures
        crate::ieee::is_ratio64(Float64::from_bits(LEAST_DRAW), 1, 1000000000000),
        crate::ieee::is_ratio64(Float64::from_bits(GYRO_ERROR_LEAST), -1, 20),
        crate::ieee::is_ratio64(Float64::from_bits(GYRO_ERROR_MOST), 1, 20),
        crate::ieee::is_ratio64(Float64::from_bits(BARO_ERROR_LEAST), -50, 1),
        crate::ieee::is_ratio64(Float64::from_bits(BARO_ERROR_MOST), 50, 1),
{
    assert(crate::ieee::is_ratio64(Float64::from_bits(LEAST_DRAW), 1, 1000000000000)) by {
        vstd::arithmetic::power2::lemma2_to64();
        crate::ieee::lemma_halvings();
        crate::ieee::lemma_ratio64(Float64::from_bits(LEAST_DRAW), 1, 1000000000000, 92);
    }
    assert(crate::ieee::is_ratio64(Float64::from_bits(GYRO_ERROR_LEAST), -1, 20)) by {
        vstd::arithmetic::power2::lemma2_to64_rest();
        crate::ieee::lemma_ratio64(Float64::from_bits(GYRO_ERROR_LEAST), -1, 20, 57);
    }
    assert(crate::ieee::is_ratio64(Float64::from_bits(GYRO_ERROR_MOST), 1, 20)) by {
        vstd::arithmetic::power2::lemma2_to64_rest();
        crate::ieee::lemma_ratio64(Float64::from_bits(GYRO_ERROR_MOST), 1, 20, 57);
    }
    assert(crate::ieee::is_ratio64(Float64::from_bits(BARO_ERROR_LEAST), -50, 1)) by {
        vstd::arithmetic::power2::lemma2_to64_rest();
        crate::ieee::lemma_ratio64(Float64::from_bits(BARO_ERROR_LEAST), -50, 1, 47);
    }
    assert(crate::ieee::is_ratio64(Float64::from_bits(BARO_ERROR_MOST), 50, 1)) by {
        vstd::arithmetic::power2::lemma2_to64_rest();
        crate::ieee::lemma_ratio64(Float64::from_bits(BARO_ERROR_MOST), 50, 1, 47);
    }
}

} // verus!
