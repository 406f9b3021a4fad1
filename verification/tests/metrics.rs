use fly_sim_core::ieee::{Float32, Float64};
use fly_sim_core::metrics::{
    beyond, bottom, first_within, half_angle_cosine, motor_extent, rise_steps, settle_index, step_size, top,
    wrap_degrees, wrap_step, AttError, AttMetrics, PosVelError, PosVelMetrics, RateMetrics, SatMetrics, StepTrace,
    TrackMetrics, WrapStep, TAIL_CAP,
};

fn f(x: f64) -> Float64 {
    Float64::from_bits(x.to_bits())
}

fn g(x: f32) -> Float32 {
    Float32::from_bits(x.to_bits())
}

fn num(x: Float32) -> f32 {
    f32::from_bits(x.to_bits())
}

fn wide(x: Float64) -> f64 {
    f64::from_bits(x.to_bits())
}

fn quat_angle_error_deg(a: [f32; 4], b: [f32; 4]) -> f32 {
    let dot = a[0] * b[0] + a[1] * b[1] + a[2] * b[2] + a[3] * b[3];
    match half_angle_cosine(g(dot)) {
        Some(c) => 2.0 * num(c).acos().to_degrees(),
        None => f32::NAN,
    }
}

fn angle_diff_deg(a: f32, b: f32) -> f32 {
    num(wrap_degrees(g(a - b)).unwrap())
}

fn turn_by_turn(mut d: f32) -> f32 {
    loop {
        match wrap_step(g(d)) {
            WrapStep::Down => d -= 360.0,
            WrapStep::Up => d += 360.0,
            WrapStep::Done => return d,
        }
    }
}

fn push_att(m: &mut AttMetrics, step: u32, a: [f32; 4], b: [f32; 4]) {
    let err = quat_angle_error_deg(a, b);
    let sum_sq = f(wide(m.sum_sq) + (err as f64) * (err as f64));
    m.push(
        step,
        AttError { angle: g(err), axes: [g(0.0); 3], sum_sq, sum_sq_axis: [f(0.0); 3] },
    );
}

fn rmse(sum_sq: Float64, n: u32) -> f32 {
    (wide(sum_sq) / n as f64).sqrt() as f32
}

#[test]
fn quat_double_cover_is_zero() {
    let q = [0.6f32, 0.8, 0.0, 0.0];
    let neg = [-0.6f32, -0.8, 0.0, 0.0];
    assert!(quat_angle_error_deg(q, neg) < 1e-3);
}

#[test]
fn quat_angle_error_measures_ninety_degrees() {
    let q_true = [1.0f32, 0.0, 0.0, 0.0];
    let s = (45.0f32).to_radians().sin();
    let c = (45.0f32).to_radians().cos();
    let q_hat = [c, s, 0.0, 0.0];
    assert!((quat_angle_error_deg(q_hat, q_true) - 90.0).abs() < 1e-2);
}

#[test]
fn yaw_wrap_is_handled() {
    assert!((angle_diff_deg(179.0, -179.0).abs() - 2.0).abs() < 1e-3);
    assert!((angle_diff_deg(-179.0, 179.0).abs() - 2.0).abs() < 1e-3);
    assert!((angle_diff_deg(179.0, -179.0) + angle_diff_deg(-179.0, 179.0)).abs() < 1e-3);
}

#[test]
fn whole_turns_come_off_an_angle() {
    for (d, r) in [
        (0.0f32, 0.0f32),
        (179.5, 179.5),
        (180.0, 180.0),
        (-180.0, -180.0),
        (180.5, -179.5),
        (540.0, 180.0),
        (-540.0, -180.0),
        (360.0, 0.0),
        (-720.0, 0.0),
        (361.25, 1.25),
        (-1000.125, 79.875),
        (999_999.5, -80.5),
        (134_217_720.0, 0.0),
    ] {
        let x = wrap_degrees(g(d)).unwrap();
        assert_eq!(num(x), r, "{d}");
        assert_eq!(num(x).to_bits(), turn_by_turn(d).to_bits(), "{d}");
        assert_eq!(num(wrap_degrees(g(-d)).unwrap()), -r, "{d}");
    }
    for i in 0..2000 {
        let d = (i as f32 - 1000.0) * 37.618_93;
        assert_eq!(num(wrap_degrees(g(d)).unwrap()).to_bits(), turn_by_turn(d).to_bits(), "{d}");
    }
    assert!(num(wrap_degrees(g(f32::NAN)).unwrap()).is_nan());
    assert_eq!(wrap_degrees(g(134_217_728.0)), None);
    assert_eq!(wrap_degrees(g(f32::NEG_INFINITY)), None);
}

#[test]
fn overshoot_is_taken_in_the_direction_of_the_step() {
    let mut up = StepTrace::new(g(0.1), g(0.0), g(1.0), g(0.05));
    assert_eq!(up.overshoot(), None);
    up.push(g(0.5));
    up.push(g(1.25));
    assert_eq!(up.overshoot(), Some((g(1.25), g(1.0))));
    let mut down = StepTrace::new(g(0.1), g(1.0), g(0.0), g(0.05));
    down.push(g(0.5));
    assert_eq!(down.overshoot(), Some((g(0.0), g(0.5))));
    down.push(g(-0.25));
    down.push(g(0.125));
    let (far, near) = down.overshoot().unwrap();
    assert_eq!((far, near), (g(0.0), g(-0.25)));
    assert_eq!(num(beyond(g(num(far) - num(near)))), 0.25);
}

#[test]
fn errors_of_a_position_start_blank() {
    let m = PosVelMetrics::default();
    assert_eq!((m.count(), m.pos_max(), m.vel_max()), (0, g(0.0), g(0.0)));
    assert!(m.tail_ring.is_empty() && !m.diverged());
    let n = PosVelMetrics::new();
    assert_eq!((n.n, n.pos_sq, n.v_sq, n.nonfinite), (m.n, m.pos_sq, m.v_sq, m.nonfinite));
}

#[test]
fn att_metrics_accumulates() {
    let mut m = AttMetrics::default();
    let q = [1.0f32, 0.0, 0.0, 0.0];
    push_att(&mut m, 0, q, q);
    push_att(&mut m, 1, q, q);
    assert_eq!(m.count(), 2);
    assert!(rmse(m.sum_sq, m.count()) < 1e-3);
    assert!(!m.diverged());
}

#[test]
fn nonfinite_is_recorded() {
    let mut m = AttMetrics::default();
    push_att(&mut m, 0, [f32::NAN; 4], [1.0, 0.0, 0.0, 0.0]);
    assert_eq!(m.first_nan_step(), Some(0));
    assert!(m.diverged());
    push_att(&mut m, 5, [f32::NAN; 4], [1.0, 0.0, 0.0, 0.0]);
    assert_eq!(m.first_nan_step(), Some(0));
    assert_eq!(m.count(), 0);
}

#[test]
fn rate_metrics_relative() {
    let mut m = RateMetrics::default();
    let truth = [1.0f32, 0.0, 0.0];
    let est = [1.1f32, 0.0, 0.0];
    let e = ((est[0] - truth[0]) * (est[0] - truth[0])).sqrt();
    m.push(
        [g(est[0]), g(est[1]), g(est[2])],
        [g(truth[0]), g(truth[1]), g(truth[2])],
        g(e),
        g(1.0),
        f((e as f64) * (e as f64)),
        f(1.0),
    );
    let r = rmse(m.sum_sq, m.n);
    assert!((r - 0.1).abs() < 1e-5);
    let denom = rmse(m.sum_sq_truth, m.divisor());
    assert!(RateMetrics::rate_is_measure(g(denom)));
    assert!((r / denom - 0.1).abs() < 1e-5);
    assert_eq!(m.max_truth(), g(1.0));
    assert_eq!(m.max_err(), g(e));
}

#[test]
fn rates_that_are_not_finite_are_passed_over() {
    let mut m = RateMetrics::default();
    let before = m;
    m.push([g(f32::NAN), g(0.0), g(0.0)], [g(0.0); 3], g(1.0), g(1.0), f(1.0), f(1.0));
    m.push([g(0.0); 3], [g(0.0), g(0.0), g(f32::INFINITY)], g(1.0), g(1.0), f(1.0), f(1.0));
    assert_eq!(m, before);
    assert_eq!(m.divisor(), 1);
    assert!(!RateMetrics::rate_is_measure(g(0.0)));
}

#[test]
fn maxima_are_kept() {
    let mut m = AttMetrics::default();
    for (i, (a, ax)) in [(1.0f32, -4.0f32), (3.0, 2.0), (2.0, 1.0)].iter().enumerate() {
        m.push(
            i as u32,
            AttError {
                angle: g(*a),
                axes: [g(*ax), g(0.0), g(-*a)],
                sum_sq: f(i as f64),
                sum_sq_axis: [f(0.0), f(1.0), f(2.0)],
            },
        );
    }
    assert_eq!(m.max_deg(), g(3.0));
    assert_eq!(m.last_deg(), g(2.0));
    assert_eq!(m.axis_max_deg(), [g(4.0), g(0.0), g(3.0)]);
    assert_eq!(m.sum_sq, f(2.0));
    assert_eq!(m.sum_sq_axis, [f(0.0), f(1.0), f(2.0)]);
}

#[test]
fn opposite_dot_products_measure_the_same_angle() {
    for d in [0.0f32, 0.25, 1.0, 7.0] {
        let a = half_angle_cosine(g(d)).unwrap();
        let b = half_angle_cosine(g(-d)).unwrap();
        assert_eq!(num(a), num(b));
        assert!(num(a) >= 0.0 && num(a) <= 1.0);
    }
    assert_eq!(half_angle_cosine(g(f32::INFINITY)), None);
    assert_eq!(half_angle_cosine(g(f32::NAN)), None);
}

#[test]
fn motors_at_a_limit_are_counted() {
    let mut m = SatMetrics::default();
    for (motor, d) in [
        ([0.5f32, 0.5, 0.5, 0.5], 0.0f32),
        ([0.999, 0.5, 0.5, 0.5], 0.499),
        ([0.5, 0.001, 0.5, 0.5], 0.499),
        ([0.9, 0.1, 0.5, 0.5], 0.8),
    ] {
        m.push([g(motor[0]), g(motor[1]), g(motor[2]), g(motor[3])], g(d), f(d as f64));
    }
    assert_eq!((m.n, m.at_limit), (4, 2));
    assert_eq!(m.max_diff(), g(0.8));
    assert_eq!(motor_extent(&[g(0.2), g(0.9), g(0.1), g(0.3)]), (g(0.9), g(0.1)));
}

fn err(pos: f32) -> PosVelError {
    PosVelError {
        pos: g(pos),
        vel: g(2.0 * pos),
        horizontal: g(0.5 * pos),
        vertical: g(-pos),
        pos_sq: f(1.0),
        vel_sq: f(2.0),
        h_sq: f(3.0),
        v_sq: f(4.0),
    }
}

#[test]
fn the_end_of_a_run_is_kept() {
    let mut m: TrackMetrics = PosVelMetrics::new();
    let z = [g(0.0); 3];
    for i in 0..TAIL_CAP + 10 {
        m.push(z, z, z, z, err(i as f32));
    }
    assert_eq!(m.count() as usize, TAIL_CAP + 10);
    assert_eq!(m.tail_ring.len(), TAIL_CAP);
    assert_eq!(m.tail_ring[0], g(10.0));
    assert_eq!(m.tail_pos_peak(), g((TAIL_CAP + 9) as f32));
    assert_eq!(m.pos_max(), g((TAIL_CAP + 9) as f32));
    assert_eq!(m.vel_max(), g(2.0 * (TAIL_CAP + 9) as f32));
    assert_eq!(m.v_max, g((TAIL_CAP + 9) as f32));
    assert_eq!((m.pos_sq, m.vel_sq, m.h_sq, m.v_sq), (f(1.0), f(2.0), f(3.0), f(4.0)));
    assert!(!m.diverged());
    m.push([g(f32::NAN); 3], z, z, z, err(0.0));
    assert_eq!(m.nonfinite, Some((TAIL_CAP + 10) as u32));
    assert!(m.diverged());
    assert_eq!(m.count() as usize, TAIL_CAP + 10);
}

#[test]
fn a_response_settles_where_it_stays() {
    let d: Vec<Float32> = [1.0f32, 0.1, 0.5, 0.1, 0.2, 0.0].iter().map(|x| g(*x)).collect();
    assert_eq!(settle_index(&d, g(0.2)), Some(3));
    assert_eq!(settle_index(&d, g(2.0)), Some(0));
    assert_eq!(settle_index(&d[..3], g(0.2)), None);
    assert_eq!(settle_index(&[], g(1.0)), None);
}

#[test]
fn a_rise_is_counted_forwards() {
    let a: Vec<Float32> = [1.0f32, 0.1, 0.1].iter().map(|x| g(*x)).collect();
    let b: Vec<Float32> = [0.0f32, 0.9, 0.1].iter().map(|x| g(*x)).collect();
    assert_eq!(first_within(&a, g(0.2), &b, g(0.2)), Some(2));
    assert_eq!(first_within(&a, g(0.2), &b, g(0.01)), None);
    assert_eq!(rise_steps(Some(2), Some(7)), Some(5));
    assert_eq!(rise_steps(Some(7), Some(2)), None);
    assert_eq!(rise_steps(None, Some(2)), None);
    assert_eq!(rise_steps(Some(1), None), None);
}

#[test]
fn a_trace_knows_its_peak_and_its_tail() {
    let mut t = StepTrace::new(g(0.1), g(0.0), g(1.0), g(0.05));
    assert_eq!(t.peak(), None);
    assert_eq!(t.tail_extent(), None);
    for y in [0.0f32, 0.5, 1.4, 0.8, 1.1, 0.9, 1.05, 1.0] {
        t.push(g(y));
    }
    assert!(t.is_rising());
    assert_eq!(t.peak(), Some(g(1.4)));
    assert_eq!(t.tail_len(4), 2);
    assert_eq!(t.tail_len(10), 1);
    assert_eq!(t.tail_extent(), Some((g(1.05), g(1.0))));
    assert!(!t.diverged());
    t.push(g(f32::INFINITY));
    t.push(g(f32::NAN));
    assert_eq!(t.first_nonfinite(), Some(8));
    assert!(t.diverged());
    let mut down = StepTrace::new(g(0.1), g(1.0), g(0.0), g(0.05));
    for y in [1.0f32, -0.3, 0.2] {
        down.push(g(y));
    }
    assert!(!down.is_rising());
    assert_eq!(down.peak(), Some(g(-0.3)));
}

#[test]
fn extremes_pass_over_what_is_no_number() {
    let s = [g(f32::NAN), g(2.0), g(-1.0)];
    assert_eq!(top(g(0.0), &s), g(2.0));
    assert_eq!(bottom(g(0.0), &s), g(-1.0));
    assert_eq!(top(g(5.0), &s), g(5.0));
}

#[test]
fn a_step_has_a_size_and_an_excess() {
    assert_eq!(step_size(g(0.0)), g(1e-9));
    assert_eq!(step_size(g(2.0)), g(2.0));
    assert_eq!(beyond(g(-0.5)), g(0.0));
    assert_eq!(beyond(g(0.5)), g(0.5));
}
