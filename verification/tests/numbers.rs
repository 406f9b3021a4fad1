use fly_sim_core::ieee::{Float32, Float64};
use fly_sim_core::scan::{greatest_index, least_index};

fn f(x: f64) -> Float64 {
    Float64::from_bits(x.to_bits())
}

fn g(x: f32) -> Float32 {
    Float32::from_bits(x.to_bits())
}

const WIDE: [f64; 14] = [
    0.0,
    -0.0,
    1.0,
    -1.0,
    1.5,
    5e-324,
    -5e-324,
    f64::MIN_POSITIVE,
    f64::MAX,
    f64::MIN,
    f64::INFINITY,
    f64::NEG_INFINITY,
    f64::NAN,
    1e-12,
];

const NARROW: [f32; 12] = [
    0.0,
    -0.0,
    1.0,
    -1.0,
    1e-45,
    f32::MIN_POSITIVE,
    f32::MAX,
    f32::MIN,
    f32::INFINITY,
    f32::NEG_INFINITY,
    f32::NAN,
    0.3,
];

#[test]
fn order_agrees_with_the_hardware_on_wide_numbers() {
    for a in WIDE {
        for b in WIDE {
            assert_eq!(f(a).lt(f(b)), a < b, "{a} < {b}");
            assert_eq!(f(a).le(f(b)), a <= b, "{a} <= {b}");
        }
    }
}

#[test]
fn order_agrees_with_the_hardware_on_narrow_numbers() {
    for a in NARROW {
        for b in NARROW {
            assert_eq!(g(a).lt(g(b)), a < b, "{a} < {b}");
            assert_eq!(g(a).le(g(b)), a <= b, "{a} <= {b}");
        }
    }
}

#[test]
fn classification_agrees_with_the_hardware() {
    for a in WIDE {
        assert_eq!(f(a).is_nan(), a.is_nan());
        assert_eq!(f(a).is_finite(), a.is_finite());
        assert_eq!(f(a).to_bits(), a.to_bits());
    }
    for a in NARROW {
        assert_eq!(g(a).is_nan(), a.is_nan());
        assert_eq!(g(a).is_finite(), a.is_finite());
        assert_eq!(g(a).to_bits(), a.to_bits());
    }
}

#[test]
fn sign_operations_agree_with_the_hardware() {
    for a in WIDE {
        assert_eq!(f(a).neg().to_bits(), (-a).to_bits());
        assert_eq!(f(a).abs().to_bits(), a.abs().to_bits());
        assert_eq!(f(a).neg().neg(), f(a));
    }
    for a in NARROW {
        assert_eq!(g(a).neg().to_bits(), (-a).to_bits());
        assert_eq!(g(a).abs().to_bits(), a.abs().to_bits());
        assert_eq!(g(a).neg().neg(), g(a));
    }
}

#[test]
fn extremes_agree_with_the_hardware_up_to_the_sign_of_zero() {
    for a in WIDE {
        for b in WIDE {
            let hi = f64::from_bits(f(a).max(f(b)).to_bits());
            let lo = f64::from_bits(f(a).min(f(b)).to_bits());
            assert!(hi == a.max(b) || (hi.is_nan() && a.max(b).is_nan()));
            assert!(lo == a.min(b) || (lo.is_nan() && a.min(b).is_nan()));
        }
    }
}

#[test]
fn clamping_agrees_with_the_hardware() {
    for a in WIDE {
        let held = f64::from_bits(f(a).clamp(f(-1.0), f(1.5)).to_bits());
        let want = a.clamp(-1.0, 1.5);
        assert!(held == want || (held.is_nan() && want.is_nan()));
    }
    for a in NARROW {
        let held = f32::from_bits(g(a).clamp(g(0.0), g(1.0)).to_bits());
        let want = a.clamp(0.0, 1.0);
        assert!(held == want || (held.is_nan() && want.is_nan()));
    }
}

#[test]
fn a_walk_stops_at_the_first_of_equal_entries() {
    let s = [f(2.0), f(1.0), f(1.0), f(3.0), f(3.0)];
    assert_eq!(least_index(&s), 1);
    assert_eq!(greatest_index(&s), 3);
}

#[test]
fn a_walk_that_starts_on_no_number_stays_there() {
    let s = [f(f64::NAN), f(1.0), f(-1.0)];
    assert_eq!(least_index(&s), 0);
    assert_eq!(greatest_index(&s), 0);
    let t = [f(1.0), f(f64::NAN), f(2.0)];
    assert_eq!(least_index(&t), 0);
    assert_eq!(greatest_index(&t), 2);
}
