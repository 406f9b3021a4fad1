use fly_sim_core::ieee::Float64;
use fly_sim_core::sim::windy_config;
use fly_sim_core::wind::{modulation, scale_length, Acting, WindConfig};

fn f(x: f64) -> Float64 {
    Float64::from_bits(x.to_bits())
}

#[test]
fn the_default_wind_is_none() {
    let w = WindConfig::default();
    assert_eq!(w.base, [f(0.0); 3]);
    assert_eq!(w.gust_freq, f(0.1));
    assert_eq!(w.turb_tau, f(0.5));
    assert_eq!(w.seed, 0x1234_5678);
    assert_eq!(w.shear_ref_height, f(10.0));
    assert_eq!((w.gust_burst_t0, w.gust_burst_hw), (f(1.0), f(0.5)));
    assert!(!w.has_thermal());
}

#[test]
fn parts_act_where_they_are_set_up() {
    let mut w = WindConfig::default();
    let all = |w: &WindConfig, phase: f64, z: f64, r2: f64| w.acting(f(phase), f(z), f(r2), f(9.0));
    assert_eq!(
        all(&w, 0.0, 5.0, 1.0),
        Acting { burst: true, thermal: false, shear: false, spatial: false }
    );
    w.thermal_strength = f(2.0);
    w.thermal_radius = f(1.0);
    w.thermal_height = f(100.0);
    w.shear_exponent = f(0.2);
    w.spatial_scale = f(50.0);
    w.gust_burst_hw = f(0.0);
    assert_eq!(
        all(&w, 0.0, 5.0, 1.0),
        Acting { burst: false, thermal: true, shear: true, spatial: true }
    );
    assert!(!all(&w, 0.0, 101.0, 1.0).thermal);
    assert!(!all(&w, 0.0, 5.0, 9.0).thermal);
    assert!(!all(&w, 0.0, 0.0, 1.0).shear);
    w.thermal_height = f(0.0);
    assert!(all(&w, 0.0, 1e6, 1.0).thermal);
    w.gust_burst_hw = f(0.5);
    assert!(!all(&w, 1.0, 5.0, 1.0).burst);
    assert!(!all(&w, -1.0, 5.0, 1.0).burst);
    assert!(all(&w, -0.99, 5.0, 1.0).burst);
}

#[test]
fn lengths_and_modulations_are_bounded_below() {
    assert_eq!(scale_length(f(0.0)), f(1e-3));
    assert_eq!(scale_length(f(2.0)), f(2.0));
    assert_eq!(modulation(f(-1.0)), f(-0.9));
    assert_eq!(modulation(f(0.3)), f(0.3));
}

#[test]
fn the_windy_scenario_has_a_side_wind() {
    let w = windy_config();
    assert_eq!(w.base, [f(0.0), f(0.0), f(-0.8)]);
    assert_eq!(w.gust_amp, [f(0.3), f(0.0), f(0.2)]);
    assert_eq!(w.gust_freq, f(0.12));
    assert_eq!(w.turb_sigma, [f(0.1), f(0.1), f(0.15)]);
    assert_eq!(w.turb_tau, f(0.7));
    assert_eq!(w.seed, 0xCAFE_BEEF);
    assert!(!w.has_thermal());
}
