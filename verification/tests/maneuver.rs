use fly_sim_core::csv::{read_rows, write_rows, CsvError};
use fly_sim_core::ieee::Float32;
use fly_sim_core::maneuver::{
    in_spike, ramp_between, reversal_legs, Duration, Maneuver, Ramp, Signal,
};
use fly_sim_core::rng::Xorshift64;
use fly_sim_core::trajectory::{
    align_hemisphere, column_precision, nearly_parallel, rate_source, row_numbers, sample_rate, stencil,
    total_time, unit_or_level, Lookup, Stencil, TrajSample, Trajectory,
};

const G: f32 = 9.81;
const PI: f32 = core::f32::consts::PI;

fn g(x: f32) -> Float32 {
    Float32::from_bits(x.to_bits())
}

fn num(x: Float32) -> f32 {
    f32::from_bits(x.to_bits())
}

fn d2r(d: f32) -> f32 {
    d * PI / 180.0
}

fn duration(m: &Maneuver) -> f32 {
    match m.duration() {
        Duration::Seconds(s) => num(s),
        Duration::RampHoldRamp { ramp_s, hold_s } => num(ramp_s) * 2.0 + num(hold_s),
        Duration::FourTurns { rate_dps } => (720.0 / num(rate_dps)) * 2.0,
        Duration::TurnAndPause { rate_dps } => 360.0 / num(rate_dps) + 4.0,
    }
}

fn smoothstep(x: f32) -> f32 {
    let x = x.clamp(0.0, 1.0);
    x * x * (3.0 - 2.0 * x)
}

fn ramp(t: f32, a: f32, b: f32) -> f32 {
    match ramp_between(g(t), g(a), g(b)) {
        Ramp::Step(done) => {
            if done {
                1.0
            } else {
                0.0
            }
        }
        Ramp::Smooth => smoothstep((t - a) / (b - a)),
    }
}

fn bank_at(deg: f32, t: f32, total: f32) -> f32 {
    let phi = d2r(deg);
    phi * smoothstep(t) - phi * smoothstep(t - (total - 1.0))
}

fn reversal(amount: f32, total_s: f32, t: f32) -> f32 {
    let third = total_s / 3.0;
    reversal_legs()
        .iter()
        .map(|l| l.weight as f32 * ramp(t, third * l.begin as f32, third * l.end as f32))
        .sum::<f32>()
        * amount
}

struct Noise {
    rng: Xorshift64,
    st: [f32; 6],
}

fn value(s: Signal, t: f32, total: f32, noise: &Noise) -> f32 {
    match s {
        Signal::Zero => 0.0,
        Signal::Sine { amp_deg, scale, freq_hz, phase } => {
            d2r(num(amp_deg)) * num(scale) * (2.0 * PI * num(freq_hz) * t + num(phase)).sin()
        }
        Signal::Spin { rate_dps } => d2r(num(rate_dps)) * t,
        Signal::Trapezoid { deg, ramp_s, hold_s } => {
            let (r, h) = (num(ramp_s), num(hold_s));
            d2r(num(deg)) * (ramp(t, 0.0, r) - ramp(t, r + h, r * 2.0 + h))
        }
        Signal::TiltReversal { deg, total_s } => reversal(d2r(num(deg)), num(total_s), t),
        Signal::PushReversal { accel_g, total_s } => reversal(num(accel_g) * G, num(total_s), t),
        Signal::Bank { deg } => bank_at(num(deg), t, total),
        Signal::BankPull { deg } => G * bank_at(num(deg), t, total).tan(),
        Signal::Shortfall { thrust_ratio } => G * (1.0 - num(thrust_ratio)),
        Signal::Onset { accel_g } => num(accel_g) * G * ramp(t, 0.5, 1.5),
        Signal::Noise { axis, scale, .. } => noise.st[3 + axis] * num(scale),
        Signal::Gravity => G,
        Signal::Spike { peak_g } => {
            let w = 0.15;
            let at = t - 1.0;
            let spike = if in_spike(g(at)) { 0.5 * (1.0 + (at / w * PI).cos()) } else { 0.0 };
            -num(peak_g) * G * spike
        }
    }
}

fn shake(noise: &mut Noise, rms_deg: f32, band_hz: f32) {
    let a = d2r(rms_deg);
    let alpha = (2.0 * PI * band_hz * 0.001).min(1.0);
    for i in 0..3 {
        let n = noise.rng.next_numerator() as f32 / (1u64 << 53) as f32;
        noise.st[i] += alpha * ((n * 2.0 - 1.0) * a * 6.0 - noise.st[i]);
    }
    for i in 0..3 {
        noise.st[3 + i] += alpha * (noise.st[i] - noise.st[3 + i]);
    }
}

fn from_euler(e: [f32; 3]) -> [f32; 4] {
    let (sr, cr) = (e[0] * 0.5).sin_cos();
    let (sp, cp) = (e[1] * 0.5).sin_cos();
    let (sy, cy) = (e[2] * 0.5).sin_cos();
    [
        cr * cp * cy + sr * sp * sy,
        sr * cp * cy - cr * sp * sy,
        cr * sp * cy + sr * cp * sy,
        cr * cp * sy - sr * sp * cy,
    ]
}

fn bits3(v: [f32; 3]) -> [Float32; 3] {
    [g(v[0]), g(v[1]), g(v[2])]
}

fn from_maneuver(m: &Maneuver, rate_hz: f32) -> Trajectory {
    let rate = num(sample_rate(g(rate_hz)));
    let dt = 1.0 / rate;
    let natural = duration(m);
    let dur = num(total_time(g(natural), g(natural)));
    let n = (dur / dt).round() as usize + 1;
    let p = m.profile();
    let mut noise = Noise { rng: Xorshift64::new(m.seed()), st: [0.0; 6] };
    let mut eulers = Vec::new();
    let mut accels = Vec::new();
    for i in 0..n {
        let t = i as f32 * dt;
        if let Signal::Noise { rms_deg, band_hz, .. } = p.angles[0] {
            shake(&mut noise, num(rms_deg), num(band_hz));
        }
        let mut e = [0.0; 3];
        let mut a = [0.0; 3];
        for k in 0..3 {
            e[k] = value(p.angles[k], t, natural, &noise);
            a[k] = value(p.accel[k], t, natural, &noise);
        }
        eulers.push(e);
        accels.push(a);
    }
    let v0 = m.initial_vel();
    let mut vel = [num(v0[0]), num(v0[1]), num(v0[2])];
    let mut pos = [0.0f32; 3];
    let mut samples = Vec::new();
    for i in 0..n {
        let s = stencil(i, n);
        let h = if s.one_sided { dt } else { 2.0 * dt };
        let e = eulers[i];
        let mut d = [0.0; 3];
        for k in 0..3 {
            d[k] = (eulers[s.next][k] - eulers[s.prev][k]) / h;
        }
        let (sr, cr) = e[0].sin_cos();
        let (sp, cp) = e[1].sin_cos();
        let omega = [
            d[0] - d[2] * sp,
            d[1] * cr + d[2] * cp * sr,
            -d[1] * sr + d[2] * cp * cr,
        ];
        if i > 0 {
            for k in 0..3 {
                vel[k] += 0.5 * (accels[i][k] + accels[i - 1][k]) * dt;
                pos[k] += vel[k] * dt;
            }
        }
        let q = from_euler(e);
        samples.push(TrajSample {
            t: g(i as f32 * dt),
            pos_ned: bits3(pos),
            vel_ned: bits3(vel),
            accel_world: bits3(accels[i]),
            quat: [g(q[0]), g(q[1]), g(q[2]), g(q[3])],
            omega_body: bits3(omega),
        });
    }
    Trajectory { name: m.title().to_string(), rate_hz: g(rate), samples }
}

fn slerp(a: [f32; 4], b: [f32; 4], f: f32) -> [f32; 4] {
    let dot = |a: &[f32; 4], b: &[f32; 4]| a[0] * b[0] + a[1] * b[1] + a[2] * b[2] + a[3] * b[3];
    let aligned = align_hemisphere(g(dot(&a, &b)), [g(b[0]), g(b[1]), g(b[2]), g(b[3])]);
    let b = [num(aligned[0]), num(aligned[1]), num(aligned[2]), num(aligned[3])];
    let theta = dot(&a, &b).clamp(-1.0, 1.0).acos();
    let s = theta.sin();
    let (wa, wb) = if nearly_parallel(g(s)) {
        (1.0 - f, f)
    } else {
        (((1.0 - f) * theta).sin() / s, (f * theta).sin() / s)
    };
    let q = [
        a[0] * wa + b[0] * wb,
        a[1] * wa + b[1] * wb,
        a[2] * wa + b[2] * wb,
        a[3] * wa + b[3] * wb,
    ];
    let n = dot(&q, &q).sqrt();
    let u = unit_or_level(g(n), [g(q[0] / n), g(q[1] / n), g(q[2] / n), g(q[3] / n)]);
    [num(u[0]), num(u[1]), num(u[2]), num(u[3])]
}

struct State {
    accel: [f32; 3],
    quat: [f32; 4],
    omega: [f32; 3],
}

fn nums3(v: [Float32; 3]) -> [f32; 3] {
    [num(v[0]), num(v[1]), num(v[2])]
}

fn state_of(s: &TrajSample) -> State {
    State {
        accel: nums3(s.accel_world),
        quat: [num(s.quat[0]), num(s.quat[1]), num(s.quat[2]), num(s.quat[3])],
        omega: nums3(s.omega_body),
    }
}

fn at(tr: &Trajectory, t: f32) -> State {
    let x = t * num(tr.rate_hz());
    match tr.at(g(t), x.floor() as usize) {
        Lookup::Rest => state_of(&TrajSample::rest(g(t))),
        Lookup::Sample(i) => state_of(&tr.samples()[i]),
        Lookup::Between(i) => {
            let f = (x - i as f32).clamp(0.0, 1.0);
            let (a, b) = (state_of(&tr.samples()[i]), state_of(&tr.samples()[i + 1]));
            let lerp = |p: [f32; 3], q: [f32; 3]| {
                [
                    p[0] + (q[0] - p[0]) * f,
                    p[1] + (q[1] - p[1]) * f,
                    p[2] + (q[2] - p[2]) * f,
                ]
            };
            State {
                accel: lerp(a.accel, b.accel),
                quat: slerp(a.quat, b.quat, f),
                omega: lerp(a.omega, b.omega),
            }
        }
    }
}

fn to_body(q: [f32; 4], v: [f32; 3]) -> [f32; 3] {
    let (w, x, y, z) = (q[0], q[1], q[2], q[3]);
    [
        (1.0 - 2.0 * (y * y + z * z)) * v[0]
            + 2.0 * (x * y + w * z) * v[1]
            + 2.0 * (x * z - w * y) * v[2],
        2.0 * (x * y - w * z) * v[0]
            + (1.0 - 2.0 * (x * x + z * z)) * v[1]
            + 2.0 * (y * z + w * x) * v[2],
        2.0 * (x * z + w * y) * v[0]
            + 2.0 * (y * z - w * x) * v[1]
            + (1.0 - 2.0 * (x * x + y * y)) * v[2],
    ]
}

fn specific_force_body(s: &State) -> [f32; 3] {
    to_body(s.quat, [s.accel[0], s.accel[1], s.accel[2] - G])
}

fn roll(q: [f32; 4]) -> f32 {
    let (w, x, y, z) = (q[0], q[1], q[2], q[3]);
    (2.0 * (w * x + y * z)).atan2(1.0 - 2.0 * (x * x + y * y))
}

#[test]
fn hover_specific_force_is_minus_g() {
    let tr = from_maneuver(&Maneuver::HoverMicro { amp_deg: g(3.0) }, 1000.0);
    let a = specific_force_body(&at(&tr, 2.0));
    assert!(
        (a[0]).abs() < 0.5 && (a[1]).abs() < 0.5 && (a[2] + 9.81).abs() < 0.5,
        "{a:?}"
    );
    let ratio = (a[0] * a[0] + a[1] * a[1] + a[2] * a[2]).sqrt() / 9.81;
    assert!(ratio > 0.9 && ratio < 1.1);
}

#[test]
fn free_fall_specific_force_is_zero() {
    let tr = from_maneuver(&Maneuver::FreeFall { jitter_deg: g(0.5) }, 1000.0);
    let a = specific_force_body(&at(&tr, 2.0));
    let mag = (a[0] * a[0] + a[1] * a[1] + a[2] * a[2]).sqrt();
    assert!(mag < 0.5, "|a|={mag:.3} {a:?}");
}

#[test]
fn coordinated_turn_rates_and_centripetal() {
    let tr = from_maneuver(
        &Maneuver::CoordinatedTurn { bank_deg: g(35.0), rate_dps: g(60.0) },
        1000.0,
    );
    let s = at(&tr, 3.0);
    let e0 = roll(s.quat);
    assert!((e0 - d2r(35.0)).abs() < d2r(2.0), "roll {:.1}", e0.to_degrees());
    let om = (s.omega[0].powi(2) + s.omega[1].powi(2) + s.omega[2].powi(2)).sqrt();
    assert!((om - d2r(60.0)).abs() < d2r(3.0), "rate {:.1}", om.to_degrees());
    let expect_a = 9.81 * d2r(35.0).tan();
    assert!((s.accel[1] - expect_a).abs() < 0.5, "{:.2}", s.accel[1]);
}

#[test]
fn roll360_completes_full_revolution() {
    let tr = from_maneuver(
        &Maneuver::Roll360 { rate_dps: g(360.0), thrust_ratio: g(0.5) },
        1000.0,
    );
    let mid = roll(at(&tr, 0.5).quat).to_degrees();
    let end = roll(at(&tr, 1.0).quat).to_degrees();
    assert!((mid - 180.0).abs() < 5.0 || (mid + 180.0).abs() < 5.0, "{mid:.1}");
    assert!(end.abs() < 5.0 || (end.abs() - 360.0).abs() < 5.0, "{end:.1}");
}

fn printed_by_std(tr: &Trajectory) -> String {
    let rows: Vec<Vec<String>> = tr
        .samples()
        .iter()
        .map(|s| {
            s.columns()
                .iter()
                .enumerate()
                .map(|(k, c)| format!("{:.*}", column_precision(k), num(*c)))
                .collect()
        })
        .collect();
    write_rows(&rows)
}

fn from_csv(name: &str, text: &str) -> Result<Trajectory, CsvError> {
    let rows = read_rows(text);
    let values: Vec<Result<Vec<Float32>, usize>> = rows
        .iter()
        .map(|r| {
            let other: Vec<Option<Float32>> = r
                .fields
                .iter()
                .map(|field| field.iter().collect::<String>().parse::<f32>().ok().map(g))
                .collect();
            row_numbers(&r.fields, &other)
        })
        .collect();
    let times: Vec<f32> = values
        .iter()
        .filter_map(|v| v.as_ref().ok().and_then(|v| v.first()).map(|t| num(*t)))
        .collect();
    let steps: Vec<Float32> = times.windows(2).map(|w| g(w[1] - w[0])).collect();
    let rate = match rate_source(&steps) {
        Some(i) => 1.0 / num(steps[i]),
        None => 1000.0,
    };
    Trajectory::from_csv(name, &rows, &values, g(rate))
}

#[test]
fn csv_roundtrip_preserves_truth() {
    let tr = from_maneuver(&Maneuver::HoverMicro { amp_deg: g(5.0) }, 200.0);
    let csv = tr.to_csv();
    let back = from_csv("rt", &csv).ok().unwrap();
    assert_eq!(back.len(), tr.len());
    assert_eq!(back.name(), "rt");
    for (a, b) in tr.samples().iter().zip(back.samples().iter()) {
        assert!((num(a.t) - num(b.t)).abs() < 1e-4);
        for k in 0..4 {
            assert!((num(a.quat[k]) - num(b.quat[k])).abs() < 1e-5);
        }
        for k in 0..3 {
            assert!((num(a.omega_body[k]) - num(b.omega_body[k])).abs() < 1e-4);
        }
    }
}

#[test]
fn a_file_is_written_as_std_prints_it() {
    for m in [
        Maneuver::HoverMicro { amp_deg: g(5.0) },
        Maneuver::FreeFall { jitter_deg: g(3.0) },
        Maneuver::Turbulence { rms_deg: g(10.0), band_hz: g(3.0), seed: 7 },
    ] {
        let tr = from_maneuver(&m, 50.0);
        assert_eq!(tr.to_csv(), printed_by_std(&tr));
    }
}

#[test]
fn a_file_read_again_agrees_to_the_last_place() {
    let tr = from_maneuver(&Maneuver::Turbulence { rms_deg: g(10.0), band_hz: g(3.0), seed: 7 }, 50.0);
    let back = from_csv("rt", &tr.to_csv()).ok().unwrap();
    assert_eq!(back.len(), tr.len());
    for (a, b) in tr.samples().iter().zip(back.samples()) {
        for (k, (x, y)) in a.columns().iter().zip(b.columns()).enumerate() {
            let gap = (num(*x) as f64 - num(y) as f64).abs();
            assert!(gap <= 10f64.powi(-(column_precision(k) as i32)), "{k}: {gap}");
        }
    }
}

#[test]
fn fields_beyond_plain_decimal_are_taken_from_elsewhere() {
    let fields: Vec<Vec<char>> =
        ["-1.25", "1e3", "x"].iter().map(|s| s.chars().collect()).collect();
    assert_eq!(row_numbers(&fields[..2], &[None, Some(g(1e3))]), Ok(vec![g(-1.25), g(1e3)]));
    assert_eq!(row_numbers(&fields, &[None, Some(g(1e3)), None]), Err(2));
    assert_eq!(row_numbers(&fields, &[None, None, None]), Err(1));
}

#[test]
fn a_refused_file_says_why() {
    let tr = from_maneuver(&Maneuver::FreeFall { jitter_deg: g(0.0) }, 1.0);
    let good = tr.to_csv();
    assert!(from_csv("ok", &good).is_ok());
    let broken = good.replace("2.000000,", "two,");
    assert_eq!(from_csv("x", &broken).err(), Some(CsvError::Unparsable { line: 4, field: 0 }));
    assert_eq!(from_csv("x", "1,2\n3,4").err(), Some(CsvError::TooFewFields { line: 1 }));
    assert_eq!(from_csv("x", "# nothing").err(), Some(CsvError::TooFewSamples));
}

#[test]
fn durations_follow_the_parameters() {
    assert_eq!(duration(&Maneuver::HoverMicro { amp_deg: g(1.0) }), 10.0);
    let cruise = Maneuver::Cruise { tilt_deg: g(10.0), ramp_s: g(2.0), hold_s: g(5.0) };
    assert_eq!(duration(&cruise), 9.0);
    assert_eq!(duration(&Maneuver::YawWhip { rate_dps: g(-360.0) }), 4.0);
    assert_eq!(duration(&Maneuver::YawWhip { rate_dps: g(0.0) }), 1440.0);
    let sweep = Maneuver::MagDisturbSweep { rate_dps: g(90.0), bias_gauss: g(0.1) };
    assert_eq!(duration(&sweep), 8.0);
    assert_eq!(duration(&Maneuver::LandingImpact { peak_g: g(3.0) }), 5.0);
    let t = Maneuver::Turbulence { rms_deg: g(5.0), band_hz: g(3.0), seed: 77 };
    assert_eq!(duration(&t), 15.0);
    assert_eq!(t.seed(), 77);
    assert_eq!(cruise.seed(), 0x1234_5678_9ABC_DEF0);
}

#[test]
fn titles_name_the_maneuvers() {
    assert_eq!(Maneuver::FreeFall { jitter_deg: g(1.0) }.title(), "A9_free_fall");
    let s = Maneuver::AttitudeSine {
        axis: 1,
        amp_deg: g(1.0),
        freq_hz: g(1.0),
        duration_s: g(3.0),
    };
    assert_eq!(s.title(), "sine_single_axis");
    assert_eq!(duration(&s), 3.0);
}

#[test]
fn only_the_descent_starts_with_a_velocity() {
    let d = Maneuver::PropwashDescent { descent_mps: g(3.0), jitter_deg: g(1.0) };
    assert_eq!(d.initial_vel(), [g(0.0), g(0.0), g(3.0)]);
    assert_eq!(Maneuver::YawWhip { rate_dps: g(9.0) }.initial_vel(), [g(0.0); 3]);
}

#[test]
fn a_sine_drives_one_axis() {
    for (axis, want) in [(0usize, 0usize), (1, 1), (2, 2), (9, 2)] {
        let p = Maneuver::AttitudeSine {
            axis,
            amp_deg: g(2.0),
            freq_hz: g(1.0),
            duration_s: g(1.0),
        }
        .profile();
        for k in 0..3 {
            assert_eq!(matches!(p.angles[k], Signal::Zero), k != want);
            assert_eq!(p.accel[k], Signal::Zero);
        }
    }
}

#[test]
fn an_impact_peaks_in_the_middle_of_its_spike() {
    let m = Maneuver::LandingImpact { peak_g: g(2.5) };
    let tr = from_maneuver(&m, 1000.0);
    assert!((at(&tr, 1.0).accel[2] + 2.5 * 9.81).abs() < 1e-2);
    assert_eq!(at(&tr, 2.0).accel[2], 0.0);
}

#[test]
fn turbulence_is_reproducible() {
    let m = Maneuver::Turbulence { rms_deg: g(5.0), band_hz: g(3.0), seed: 5 };
    let a = from_maneuver(&m, 100.0);
    let b = from_maneuver(&m, 100.0);
    assert_eq!(a.samples(), b.samples());
    assert_ne!(a.samples()[10].quat, a.samples()[20].quat);
}

#[test]
fn times_outside_a_trajectory_are_held_at_its_ends() {
    let tr = from_maneuver(&Maneuver::HoverMicro { amp_deg: g(1.0) }, 10.0);
    let last = tr.len() - 1;
    assert_eq!(tr.at(g(-1.0), 0), Lookup::Sample(0));
    assert_eq!(tr.at(g(0.0), 0), Lookup::Sample(0));
    assert_eq!(tr.at(g(99.0), 990), Lookup::Sample(last));
    assert_eq!(tr.at(g(1.05), 10), Lookup::Between(10));
    assert_eq!(tr.at(g(1.05), 10_000), Lookup::Between(last - 1));
    let empty = Trajectory { name: String::new(), rate_hz: g(1.0), samples: Vec::new() };
    assert_eq!(empty.at(g(1.0), 1), Lookup::Rest);
    assert!(empty.is_empty());
    assert_eq!(empty.duration(), g(0.0));
    assert_eq!(tr.duration(), tr.samples()[last].t);
}

#[test]
fn rates_and_times_have_defaults() {
    assert_eq!(sample_rate(g(0.0)), g(1000.0));
    assert_eq!(sample_rate(g(f32::NAN)), g(1000.0));
    assert_eq!(sample_rate(g(250.0)), g(250.0));
    assert_eq!(total_time(g(f32::INFINITY), g(4.0)), g(4.0));
    assert_eq!(total_time(g(-1.0), g(4.0)), g(4.0));
    assert_eq!(total_time(g(60.0), g(4.0)), g(60.0));
    assert_eq!(rate_source(&[g(0.1), g(0.0), g(0.2), g(1e-10)]), Some(2));
    assert_eq!(rate_source(&[g(0.0)]), None);
}

#[test]
fn differences_are_one_sided_at_the_ends() {
    assert_eq!(stencil(0, 5), Stencil { prev: 0, next: 1, one_sided: true });
    assert_eq!(stencil(2, 5), Stencil { prev: 1, next: 3, one_sided: false });
    assert_eq!(stencil(4, 5), Stencil { prev: 3, next: 4, one_sided: true });
    assert_eq!(stencil(0, 1), Stencil { prev: 0, next: 0, one_sided: true });
}

#[test]
fn opposite_quaternions_are_aligned() {
    let q = [g(0.5), g(-0.5), g(0.5), g(0.5)];
    assert_eq!(align_hemisphere(g(-0.1), q), [g(-0.5), g(0.5), g(-0.5), g(-0.5)]);
    assert_eq!(align_hemisphere(g(0.1), q), q);
    assert!(nearly_parallel(g(1e-7)));
    assert!(!nearly_parallel(g(1e-3)));
    assert_eq!(unit_or_level(g(0.0), q), [g(1.0), g(0.0), g(0.0), g(0.0)]);
    assert_eq!(unit_or_level(g(1.0), q), q);
}

#[test]
fn a_ramp_without_length_is_a_step() {
    assert_eq!(ramp_between(g(0.9), g(1.0), g(1.0)), Ramp::Step(false));
    assert_eq!(ramp_between(g(1.0), g(1.0), g(0.5)), Ramp::Step(true));
    assert_eq!(ramp_between(g(0.0), g(1.0), g(2.0)), Ramp::Smooth);
}

#[test]
fn columns_and_samples_determine_each_other() {
    let v: Vec<Float32> = (0..20).map(|i| g(i as f32)).collect();
    let s = TrajSample::from_columns(&v);
    assert_eq!(s.columns().to_vec(), v[..17].to_vec());
    assert_eq!(s.quat, [g(10.0), g(11.0), g(12.0), g(13.0)]);
    assert_eq!(column_precision(9), 6);
    assert_eq!(column_precision(10), 9);
}

#[test]
fn braking_reverses_tilt_and_push_and_ends_level() {
    let m = Maneuver::BrakeReversal { accel_g: g(0.5), tilt_deg: g(30.0), hold_s: g(3.0) };
    let p = m.profile();
    let noise = Noise { rng: Xorshift64::new(1), st: [0.0; 6] };
    let at = |t: f32| (value(p.angles[1], t, 3.0, &noise), value(p.accel[0], t, 3.0, &noise));
    let (tilt, push) = (d2r(30.0), 0.5 * G);
    for (t, share) in [(0.0, 0.0), (1.0, 1.0), (1.5, 0.0), (2.0, -1.0), (3.0, 0.0)] {
        let (angle, accel) = at(t);
        assert!((angle - share * tilt).abs() < 1e-5, "{t}: {angle}");
        assert!((accel - share * push).abs() < 1e-4, "{t}: {accel}");
    }
    assert!(at(1.75).0 < 0.0 && at(1.75).1 < 0.0);
    assert!(at(2.25).0 < 0.0 && at(2.25).1 < 0.0);
}
