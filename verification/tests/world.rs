use fly_sim_core::ieee::{Float32, Float64};
use fly_sim_core::plant::{
    air_layer, ground_effect, leading_component, motor_signs, read_body_tf, swap_axis, swap_body,
    swap_rotation, swap_world, unit_or_zero, valid_inertia, AirLayer, GroundEffect, Leading,
};
use fly_sim_core::toy_world::{Motion, ToyWorld};

fn f(x: f64) -> Float64 {
    Float64::from_bits(x.to_bits())
}

fn g(x: f32) -> Float32 {
    Float32::from_bits(x.to_bits())
}

fn num(x: Float64) -> f64 {
    f64::from_bits(x.to_bits())
}

fn air_density_at(rho0: f64, alt_m: f64) -> f64 {
    const L: f64 = 0.0065;
    const T0: f64 = 288.15;
    const G: f64 = 9.80665;
    const R: f64 = 287.05;
    let exp = G / (L * R) - 1.0;
    match air_layer(f(alt_m)) {
        AirLayer::Troposphere(alt) => rho0 * (1.0 - L * num(alt) / T0).powf(exp),
        AirLayer::Above(alt) => {
            let rho_tropo = rho0 * (1.0 - L * 11000.0 / T0).powf(exp);
            let h_tropo = R * (T0 - L * 11000.0) / G;
            rho_tropo * (-(num(alt) - 11000.0) / h_tropo).exp()
        }
    }
}

#[test]
fn air_density_decreases_with_altitude() {
    let rho0 = 1.225;
    let at_sea = air_density_at(rho0, 0.0);
    let at_1k = air_density_at(rho0, 1000.0);
    let at_5k = air_density_at(rho0, 5000.0);
    let at_10k = air_density_at(rho0, 10000.0);
    assert!((at_sea - rho0).abs() < 1e-6);
    assert!(at_1k < at_sea);
    assert!(at_5k < at_1k);
    assert!(at_10k < at_5k);
    assert!((at_1k / rho0 - 0.907).abs() < 0.02);
    assert!((at_5k / rho0 - 0.601).abs() < 0.02);
    assert!((at_10k / rho0 - 0.337).abs() < 0.02);
}

#[test]
fn air_density_handles_tropopause_and_negative() {
    let rho0 = 1.225;
    assert!((air_density_at(rho0, -500.0) - rho0).abs() < 1e-6);
    let at_11k = air_density_at(rho0, 11000.0);
    let at_12k = air_density_at(rho0, 12000.0);
    assert!(at_12k < at_11k);
    let at_30k = air_density_at(rho0, 30000.0);
    assert!(at_30k.is_finite());
    assert!(at_30k > 0.0);
    assert!(at_30k < at_12k);
}

#[test]
fn air_layers_meet_at_the_tropopause() {
    assert_eq!(air_layer(f(-3.0)), AirLayer::Troposphere(f(0.0)));
    assert_eq!(air_layer(f(11000.0)), AirLayer::Troposphere(f(11000.0)));
    assert_eq!(air_layer(f(11000.5)), AirLayer::Above(f(11000.5)));
}

#[test]
fn frames_lead_back() {
    let v = [f(1.0), f(2.0), f(-3.0)];
    assert_eq!(swap_world(v), [f(1.0), f(3.0), f(-2.0)]);
    assert_eq!(swap_world(swap_world(v)), v);
    assert_eq!(swap_body(v), [f(1.0), f(2.0), f(3.0)]);
    assert_eq!(swap_body(swap_body(v)), v);
    assert_eq!(swap_axis(v), [f(-1.0), f(-2.0), f(-3.0)]);
    assert_eq!(swap_axis(swap_axis(v)), v);
}

#[test]
fn a_level_vehicle_is_level_in_both_frames() {
    let level = [1.0, 0.0, 0.0, 0.0, 0.0, 1.0, 0.0, -1.0, 0.0];
    let c = swap_rotation(level.map(f));
    let got: Vec<f64> = c.iter().map(|x| num(*x)).collect();
    assert_eq!(got, vec![1.0, 0.0, 0.0, 0.0, 1.0, 0.0, 0.0, 0.0, 1.0]);
}

#[test]
fn the_greatest_component_leads() {
    assert_eq!(leading_component(f(0.1), f(9.0), f(0.0), f(0.0)), Leading::W);
    assert_eq!(leading_component(f(0.0), f(1.0), f(1.0), f(1.0)), Leading::X);
    assert_eq!(leading_component(f(-1.0), f(-1.0), f(1.0), f(1.0)), Leading::Y);
    assert_eq!(leading_component(f(-1.0), f(-1.0), f(-1.0), f(1.0)), Leading::Z);
}

#[test]
fn the_ground_is_felt_near_it() {
    assert_eq!(ground_effect(f(0.0), f(0.3)), GroundEffect::Full);
    assert_eq!(ground_effect(f(0.1), f(0.3)), GroundEffect::Partial);
    assert_eq!(ground_effect(f(0.3), f(0.3)), GroundEffect::Absent);
}

#[test]
fn inertia_has_to_be_positive() {
    assert!(valid_inertia([g(0.1), g(0.1), g(0.2)]));
    assert!(!valid_inertia([g(0.1), g(0.0), g(0.2)]));
    assert!(!valid_inertia([g(0.1), g(0.1), g(f32::NAN)]));
}

#[test]
fn equal_thrust_is_balanced_and_demands_keep_their_axes() {
    let signs: Vec<(i8, i8, i8)> = (0..4).map(motor_signs).collect();
    assert_eq!(signs, vec![(1, 1, 1), (-1, -1, 1), (1, -1, -1), (-1, 1, -1)]);
    assert_eq!(signs.iter().map(|s| s.0 as i32).sum::<i32>(), 0);
    assert_eq!(signs.iter().map(|s| s.1 as i32).sum::<i32>(), 0);
    assert_eq!(signs.iter().map(|s| s.2 as i32).sum::<i32>(), 0);
    let demand = [7i64, 3, -2, 5];
    let throttle: Vec<i64> = (0..4)
        .map(|m| {
            (0..4).map(|a| fly_sim_core::allocation::mixer_entry(a, m) * demand[a]).sum()
        })
        .collect();
    let along = |pick: fn(&(i8, i8, i8)) -> i8| -> i64 {
        signs.iter().zip(&throttle).map(|(s, t)| pick(s) as i64 * t).sum()
    };
    assert_eq!(along(|s| s.1), 4 * demand[1]);
    assert_eq!(along(|s| s.0), 4 * demand[2]);
    assert_eq!(along(|s| s.2), 4 * demand[3]);
}

#[test]
fn short_vectors_have_no_direction() {
    let u = [f(1.0), f(0.0), f(0.0)];
    assert_eq!(unit_or_zero(f(1e-10), u), [f(0.0); 3]);
    assert_eq!(unit_or_zero(f(1e-9), u), u);
}

fn pos7(x: f64) -> [Float64; 7] {
    [f(x), f(x + 1.0), f(x + 2.0), f(1.0), f(0.0), f(0.0), f(0.0)]
}

fn small_world() -> ToyWorld {
    let mut w = ToyWorld::new(f(9.81));
    assert_eq!(w.add_body(f(1.0), &pos7(0.0), &[f(0.1); 3]), 0);
    assert_eq!(w.add_body(f(0.0), &pos7(10.0), &[f(0.1); 3]), 1);
    w
}

#[test]
fn bodies_are_numbered_as_they_come() {
    let w = small_world();
    assert_eq!(w.body_count(), 2);
    assert_eq!(w.get_body_transform(1), pos7(10.0));
    assert_eq!(w.get_velocity(0), [f(0.0); 3]);
    assert_eq!(w.get_angular_velocity(0), [f(0.0); 3]);
    assert_eq!(w.gravity(), f(9.81));
    assert_eq!(w.time(), f(0.0));
    assert_eq!(w.body(0).mass, f(1.0));
}

#[test]
fn a_fixed_body_stays() {
    let mut w = small_world();
    let before = w.body(1);
    w.apply_impulse(0, [f(1.0); 3]);
    w.apply_impulse(1, [f(1.0); 3]);
    w.apply_torque_impulse(0, [f(2.0); 3]);
    w.apply_torque_impulse(1, [f(2.0); 3]);
    assert_eq!(w.get_velocity(0), [f(1.0); 3]);
    assert_eq!(w.get_angular_velocity(0), [f(2.0); 3]);
    let m = Motion { pos: [f(5.0); 3], quat: [f(0.5); 4], vel: [f(6.0); 3] };
    assert_eq!(w.step(&[m, m], f(0.25)), 0);
    assert_eq!(w.body(1), before);
    assert_eq!(w.body(0).pos, [f(5.0); 3]);
    assert_eq!(w.body(0).quat, [f(0.5); 4]);
    assert_eq!(w.get_velocity(0), [f(6.0); 3]);
    assert_eq!(w.get_angular_velocity(0), [f(2.0); 3]);
    assert_eq!(w.time(), f(0.25));
}

#[test]
fn transforms_are_written_as_far_as_they_fit() {
    let w = small_world();
    let mut buf = vec![f(-1.0); 16];
    assert_eq!(w.get_rigid_transforms(&mut buf), 14);
    assert_eq!(buf[..7].to_vec(), pos7(0.0).to_vec());
    assert_eq!(read_body_tf(&buf, 1), pos7(10.0));
    assert_eq!(buf[14], f(-1.0));
    let mut short = vec![f(-1.0); 9];
    assert_eq!(w.get_rigid_transforms(&mut short), 9);
    assert_eq!(short[..7].to_vec(), pos7(0.0).to_vec());
    assert_eq!(short[7], f(-1.0));
}
