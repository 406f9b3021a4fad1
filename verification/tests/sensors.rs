use fly_sim_core::ieee::Float64;
use fly_sim_core::ranger::{
    AvoidanceConfig, RangeFinderFrame, RangeFinderModel, RayOutcome, RayReading,
};
use fly_sim_core::rng::Lcg;
use fly_sim_core::sensor::{
    held_baro_error, held_gyro_error, positive_draw, satellites_lost, Faults, GpsDelay,
    SensorConfig, SensorFault,
};

fn f(x: f64) -> Float64 {
    Float64::from_bits(x.to_bits())
}

fn v(x: f64) -> [Float64; 3] {
    [f(x); 3]
}

fn fix(x: f64) -> Option<[Float64; 6]> {
    Some([f(x); 6])
}

#[test]
fn a_fix_comes_out_after_its_delay() {
    let mut line = GpsDelay::new(3);
    let out: Vec<Option<[Float64; 6]>> = (0..10).map(|i| line.step(fix(i as f64), 1)).collect();
    for (i, o) in out.iter().enumerate() {
        let want = if i >= 3 { i - 3 } else { 0 };
        assert_eq!(*o, fix(want as f64));
    }
}

#[test]
fn a_delay_is_at_least_one_step() {
    let mut line = GpsDelay::new(0);
    assert_eq!(line.step(fix(1.0), 0), fix(1.0));
    assert_eq!(line.step(fix(2.0), 0), fix(1.0));
    assert_eq!(line.step(fix(3.0), 0), fix(2.0));
}

#[test]
fn fixes_come_out_every_period() {
    let mut line = GpsDelay::new(1);
    let out: Vec<bool> = (0..9).map(|i| line.step(fix(i as f64), 3).is_some()).collect();
    assert_eq!(out, vec![false, false, true, false, false, true, false, false, true]);
}

#[test]
fn lost_and_broken_fixes_do_not_come_out() {
    let mut line = GpsDelay::new(1);
    assert_eq!(line.step(None, 1), None);
    assert_eq!(line.step(fix(1.0), 1), None);
    assert_eq!(line.step(fix(f64::NAN), 1), fix(1.0));
    assert_eq!(line.step(fix(2.0), 1), None);
    assert_eq!(line.step(fix(3.0), 1), fix(2.0));
}

#[test]
fn the_later_fault_of_a_kind_counts() {
    let mut s = Faults::new();
    s.apply_fault(SensorFault::AccelBias(v(1.0)));
    s.apply_fault(SensorFault::GyroDrift(v(3.0)));
    s.apply_fault(SensorFault::AccelBias(v(2.0)));
    assert_eq!(s.accel_bias, v(2.0));
    assert_eq!(s.gyro_drift, v(3.0));
    assert_eq!(s.gps_bias, v(0.0));
    let mut t = Faults::new();
    t.apply_fault(SensorFault::AccelBias(v(2.0)));
    t.apply_fault(SensorFault::GyroDrift(v(3.0)));
    assert_eq!(s, t);
}

#[test]
fn a_stuck_sensor_reads_its_value_until_freed() {
    let mut s = Faults::new();
    let clean = s;
    s.apply_fault(SensorFault::AccelStuck(Some(v(9.0))));
    s.apply_fault(SensorFault::GyroStuck(Some(v(8.0))));
    s.apply_fault(SensorFault::GpsStuck(Some([f(7.0); 6])));
    assert_eq!(s.accel_reading(v(1.0)), v(9.0));
    assert_eq!(s.gyro_reading(v(1.0)), v(8.0));
    assert_eq!(s.gps_reading(false, [f(1.0); 6]), fix(7.0));
    assert_eq!(s.gps_reading(true, [f(1.0); 6]), None);
    s.apply_fault(SensorFault::AccelStuck(None));
    s.apply_fault(SensorFault::GyroStuck(None));
    s.apply_fault(SensorFault::GpsStuck(None));
    assert_eq!(s, clean);
    assert_eq!(s.accel_reading(v(1.0)), v(1.0));
    assert_eq!(s.gps_reading(false, [f(1.0); 6]), fix(1.0));
}

#[test]
fn every_fault_has_its_place() {
    let mut s = Faults::new();
    s.apply_fault(SensorFault::GyroBias(v(1.0)));
    s.apply_fault(SensorFault::AccelDrift(v(2.0)));
    s.apply_fault(SensorFault::GpsBias(v(3.0)));
    assert_eq!((s.gyro_bias, s.accel_drift, s.gps_bias), (v(1.0), v(2.0), v(3.0)));
}

#[test]
fn sensors_start_clean_or_realistic() {
    let d = SensorConfig::default();
    assert_eq!(d.gps_rate, f(1000.0));
    assert_eq!(d.mag_soft_iron, v(1.0));
    assert_eq!(d.accel_noise, f(0.0));
    assert_eq!(d.seed, 0x5EED_1357);
    let r = SensorConfig::realistic();
    assert_eq!(r.accel_bias, [f(0.02), f(-0.01), f(0.05)]);
    assert_eq!(r.accel_noise, f(0.05));
    assert_eq!(r.gyro_bias, [f(0.001), f(-0.0005), f(0.002)]);
    assert_eq!(r.gyro_noise, f(0.003));
    assert_eq!(r.gyro_walk, f(0.0001));
    assert_eq!(r.gyro_bias_inst, f(0.0003));
    assert_eq!(r.vib_amp, f(0.1));
    assert_eq!(r.gps_delay, f(0.15));
    assert_eq!(r.gps_rate, f(20.0));
    assert_eq!(r.gps_pos_noise, f(0.5));
    assert_eq!(r.gps_vel_noise, f(0.1));
    assert_eq!(r.gps_drop_prob, f(0.0));
    assert_eq!(r.mag_hard_iron, [f(0.3), f(-0.2), f(0.4)]);
    assert_eq!(r.mag_soft_iron, [f(0.98), f(1.03), f(0.99)]);
    assert_eq!(r.mag_noise, f(0.05));
    assert_eq!(r.baro_noise, f(0.3));
    assert_eq!(r.baro_drift, f(0.05));
}

#[test]
fn draws_are_compared_and_kept_positive() {
    assert!(satellites_lost(f(0.1), f(0.2)));
    assert!(!satellites_lost(f(0.2), f(0.2)));
    assert_eq!(positive_draw(f(0.0)), f(1e-12));
    assert_eq!(positive_draw(f(0.5)), f(0.5));
}

fn finder() -> RangeFinderModel {
    RangeFinderModel::new(f(30.0), f(0.5), f(0.1), f(0.0), f(0.05), f(0.6), 5, 11)
}

#[test]
fn a_ray_is_dropped_unseen_or_seen() {
    let m = finder();
    assert_eq!(m.outcome(f(0.01), Some(f(3.0))), RayOutcome::Dropped);
    assert_eq!(m.outcome(f(0.5), None), RayOutcome::OutOfRange);
    assert_eq!(m.outcome(f(0.5), Some(f(0.4))), RayOutcome::Blind);
    assert_eq!(m.outcome(f(0.5), Some(f(0.5))), RayOutcome::Seen(f(0.5)));
}

#[test]
fn a_ray_sees_nothing_beyond_its_range() {
    let m = RangeFinderModel::new(f(10.0), f(0.5), f(0.0), f(0.0), f(0.0), f(0.5), 1, 1);
    let beyond = m.outcome(f(0.5), Some(f(12.0)));
    assert_eq!(beyond, RayOutcome::OutOfRange);
    let r = m.sample_ray(v(1.0), beyond, f(12.0));
    assert_eq!((r.dir_ned, r.distance, r.valid), (v(1.0), f(10.0), false));
    assert_eq!(m.outcome(f(0.5), Some(f(10.0))), RayOutcome::Seen(f(10.0)));
}

#[test]
fn what_is_not_seen_reads_as_the_greatest_range() {
    let m = finder();
    for o in [RayOutcome::Dropped, RayOutcome::OutOfRange, RayOutcome::Blind] {
        let r = m.sample_ray(v(1.0), o, f(2.0));
        assert_eq!((r.distance, r.valid), (f(30.0), false));
    }
    let seen = m.sample_ray(v(1.0), RayOutcome::Seen(f(2.0)), f(2.1));
    assert_eq!((seen.distance, seen.valid), (f(2.1), true));
    assert_eq!(m.sample_ray(v(1.0), RayOutcome::Seen(f(2.0)), f(-1.0)).distance, f(0.0));
    assert_eq!(m.sample_ray(v(1.0), RayOutcome::Seen(f(2.0)), f(99.0)).distance, f(30.0));
}

#[test]
fn a_fan_has_its_rays() {
    let mut m = finder();
    assert_eq!(m.rays(), 5);
    assert_eq!(m.ray_fraction(0), Some((0, 4)));
    assert_eq!(m.ray_fraction(4), Some((4, 4)));
    m.ray_count = 0;
    assert_eq!(m.rays(), 1);
    assert_eq!(m.ray_fraction(0), None);
    assert_eq!(finder().rng, Lcg::new(11 ^ 0x5EED_F1D3));
}

fn ray(distance: f64, valid: bool) -> RayReading {
    RayReading { dir_ned: v(0.0), distance: f(distance), valid }
}

#[test]
fn near_and_valid_rays_are_a_threat() {
    let a = AvoidanceConfig::new(f(5.0), f(1.0), f(2.0));
    let frame = RangeFinderFrame {
        rays: vec![ray(4.0, true), ray(5.0, true), ray(1.0, false), ray(4.9, true)],
    };
    assert_eq!(a.danger_rays(&frame), vec![0, 3]);
    let calm = RangeFinderFrame { rays: vec![ray(30.0, false), ray(6.0, true)] };
    assert!(a.danger_rays(&calm).is_empty());
    assert_eq!(*frame.center(), ray(1.0, false));
    assert!(a.evades_left(f(-0.1)));
    assert!(!a.evades_left(f(0.0)));
}

#[test]
fn wandering_errors_are_held() {
    assert_eq!(held_gyro_error(f(0.2)), f(0.05));
    assert_eq!(held_gyro_error(f(-0.2)), f(-0.05));
    assert_eq!(held_gyro_error(f(0.01)), f(0.01));
    assert_eq!(held_baro_error(f(51.0)), f(50.0));
    assert_eq!(held_baro_error(f(-51.0)), f(-50.0));
    assert_eq!(held_baro_error(f(-3.0)), f(-3.0));
}
