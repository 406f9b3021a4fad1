use fly_sim_core::ieee::{Float32, Float64};
use fly_sim_core::sim::{
    degraded_motor, has_path, hover_passed, is_mission_lost, judge_step, locate_segment,
    regular_report_due, report_due, wind_passed, DropWatch, EnergyWatch, FallWatch, Mission,
    MissionEvent, MissionPhase, MissionWatch, Run, StepVerdict,
    SurvivalWatch,
};

fn f(x: f64) -> Float64 {
    Float64::from_bits(x.to_bits())
}

fn g(x: f32) -> Float32 {
    Float32::from_bits(x.to_bits())
}

#[test]
fn the_first_steps_and_every_five_hundredth_are_reported() {
    let due: Vec<u64> = (1..1200).filter(|s| report_due(*s)).collect();
    assert_eq!(due, vec![1, 2, 3, 4, 5, 500, 1000]);
}

#[test]
fn a_state_that_is_not_finite_comes_first() {
    assert_eq!(judge_step(true, true), StepVerdict::Continue);
    assert_eq!(judge_step(false, false), StepVerdict::NotFinite);
    assert_eq!(judge_step(true, false), StepVerdict::OutOfBounds);
}

#[test]
fn a_run_without_faults_takes_all_its_steps() {
    let mut r = Run::new(10, 3);
    let mut n = 0;
    while r.more() {
        r.advance(StepVerdict::Continue);
        n += 1;
    }
    assert_eq!((n, r.steps, r.left, r.ok), (3, 13, 0, true));
}

#[test]
fn a_run_stops_with_its_first_fault() {
    let mut r = Run::new(0, 100);
    r.advance(StepVerdict::Continue);
    r.advance(StepVerdict::OutOfBounds);
    assert!(!r.more());
    assert_eq!((r.steps, r.ok), (2, false));
}

#[test]
fn energy_that_rises_is_noticed() {
    let mut w = EnergyWatch::new();
    w.push(f(10.0), f(0.0));
    assert!(w.monotonic);
    w.push(f(9.0), f(10.001));
    assert!(w.monotonic);
    w.push(f(9.002), f(9.001));
    assert!(!w.monotonic);
    w.push(f(1.0), f(9.003));
    assert!(!w.monotonic);
    assert_eq!(w.prev, Some(f(1.0)));
}

#[test]
fn a_hover_ends_near_its_place() {
    assert!(hover_passed(true, g(0.49), g(0.49)));
    assert!(!hover_passed(true, g(0.5), g(0.0)));
    assert!(!hover_passed(true, g(0.0), g(0.5)));
    assert!(!hover_passed(false, g(0.0), g(0.0)));
    assert!(!hover_passed(true, g(f32::NAN), g(0.0)));
}

#[test]
fn a_fall_falls_and_gains_no_energy() {
    let mut w = FallWatch::new();
    w.push(f(50.0), f(50.5));
    w.push(f(49.0), f(50.5));
    assert_eq!((w.least, w.greatest), (f(49.0), f(50.0)));
    assert!(w.passed(true, g(-5.0), g(3.0)));
    assert!(!w.passed(true, g(-5.0), g(-5.0)));
    assert!(!w.passed(false, g(-5.0), g(3.0)));
    w.push(f(51.0), f(50.5));
    assert!(!w.passed(true, g(-5.0), g(3.0)));
}

#[test]
fn a_drop_is_held_by_the_ground() {
    let mut w = DropWatch::new(g(-5.0));
    w.push(g(5.0), f(3.0));
    w.push(g(4.9), f(-0.1));
    assert_eq!((w.max_down, w.min_down), (g(5.0), g(-5.0)));
    assert!(w.passed(true));
    assert!(!w.passed(false));
    let mut bounced = w;
    bounced.push(g(4.8), f(-0.5));
    assert!(!bounced.passed(true));
    let mut through = w;
    through.push(g(6.5), f(0.0));
    assert!(!through.passed(true));
    let mut high = DropWatch::new(g(-5.0));
    high.push(g(4.0), f(0.0));
    assert!(!high.passed(true));
}

#[test]
fn wind_has_to_move_the_vehicle() {
    assert!(wind_passed(true, f(0.11)));
    assert!(!wind_passed(true, f(0.1)));
    assert!(!wind_passed(false, f(9.0)));
}

#[test]
fn survival_is_counted_until_control_is_lost() {
    let mut w = SurvivalWatch::new();
    assert!(!w.push(f(0.5), true));
    assert!(!w.push(f(1.0), true));
    assert!(w.push(f(1.5), true));
    assert!(!w.push(f(0.1), true));
    assert_eq!((w.survived, w.diverged), (2, true));
    let mut v = SurvivalWatch::new();
    assert!(v.push(f(0.0), false));
    assert_eq!(v.survived, 0);
}

#[test]
fn one_motor_is_degraded() {
    assert_eq!(degraded_motor(2, g(0.6)), [g(1.0), g(1.0), g(0.6), g(1.0)]);
    assert_eq!(degraded_motor(0, g(-2.0)), [g(0.0), g(1.0), g(1.0), g(1.0)]);
}

#[test]
fn an_arc_length_lies_in_its_segment() {
    let cum = [f(0.0), f(1.0), f(1.0), f(3.0)];
    assert_eq!(locate_segment(f(0.0), &cum), Some(0));
    assert_eq!(locate_segment(f(1.0), &cum), Some(0));
    assert_eq!(locate_segment(f(1.5), &cum), Some(2));
    assert_eq!(locate_segment(f(3.0), &cum), Some(2));
    assert_eq!(locate_segment(f(3.1), &cum), None);
}

#[test]
fn a_mission_is_watched() {
    assert!(!has_path(1));
    assert!(has_path(2));
    assert!(is_mission_lost(g(6.1), true));
    assert!(!is_mission_lost(g(6.0), true));
    assert!(is_mission_lost(g(0.0), false));
    let mut w = MissionWatch::new();
    assert!(w.more(f(0.0), f(1.0)));
    w.push(f(2.0), f(4.0), g(1.0), true);
    w.push(f(1.0), f(5.0), g(1.0), true);
    assert_eq!((w.max_err, w.sum_sq, w.n, w.stable), (f(2.0), f(5.0), 2, true));
    assert!(!w.more(f(1.0), f(1.0)));
    w.push(f(0.0), f(5.0), g(7.0), true);
    assert!(!w.stable);
    assert!(!w.more(f(0.0), f(1.0)));
}

#[test]
fn a_mission_hovers_before_it_sets_out() {
    let steady = MissionEvent::Hovered { rate: g(1.0), state_finite: true };
    let mut m = Mission::new(2);
    for left in (1..=500).rev() {
        assert_eq!(m.phase, MissionPhase::Hover { left });
        m.advance(steady);
    }
    assert_eq!(m.phase, MissionPhase::Path);
    m.advance(steady);
    assert_eq!(m.phase, MissionPhase::Path);
    m.advance(MissionEvent::Aimed { s: f(0.0), limit: f(1.0) });
    assert_eq!(m.phase, MissionPhase::Path);
    let step = MissionEvent::Followed {
        err: f(2.0),
        sum_sq: f(4.0),
        rate: g(1.0),
        state_finite: true,
    };
    m.advance(step);
    assert_eq!((m.watch.max_err, m.watch.sum_sq, m.watch.n), (f(2.0), f(4.0), 1));
    m.advance(MissionEvent::Aimed { s: f(1.0), limit: f(1.0) });
    assert_eq!((m.phase, m.watch.stable), (MissionPhase::Over, true));
    m.advance(step);
    assert_eq!(m.watch.n, 1);
}

#[test]
fn a_mission_without_a_path_is_over() {
    let m = Mission::new(1);
    assert_eq!(m.phase, MissionPhase::Over);
    assert_eq!((m.watch.max_err, m.watch.n, m.watch.stable), (f(0.0), 0, true));
}

#[test]
fn a_mission_ends_where_the_vehicle_is_lost() {
    let mut m = Mission::new(3);
    m.advance(MissionEvent::Hovered { rate: g(1.0), state_finite: true });
    m.advance(MissionEvent::Hovered { rate: g(6.5), state_finite: true });
    assert_eq!(m.phase, MissionPhase::Over);
    assert_eq!((m.watch.max_err, m.watch.n, m.watch.stable), (f(0.0), 0, false));

    let mut n = Mission { phase: MissionPhase::Path, watch: MissionWatch::new() };
    n.advance(MissionEvent::Followed {
        err: f(3.0),
        sum_sq: f(9.0),
        rate: g(0.0),
        state_finite: false,
    });
    assert_eq!(n.phase, MissionPhase::Over);
    assert_eq!((n.watch.max_err, n.watch.n, n.watch.stable), (f(3.0), 1, false));
}

#[test]
fn steps_are_reported_regularly() {
    assert!(regular_report_due(0) && regular_report_due(500) && regular_report_due(1000));
    assert!(!regular_report_due(3) && !regular_report_due(501));
}
