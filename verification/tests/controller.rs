use fly_sim_core::controller::{
    actuator_full, throttle, Command, ControllerKind, FlightMode, FlyController, Side,
};
use fly_sim_core::ieee::{Float32, Float64};

fn f(x: f64) -> Float64 {
    Float64::from_bits(x.to_bits())
}

fn g(x: f32) -> Float32 {
    Float32::from_bits(x.to_bits())
}

fn fresh() -> FlyController<u8, u8, u8> {
    FlyController::new()
}

#[test]
fn a_controller_starts_armed_and_manual() {
    let c = fresh();
    assert!(c.is_armed());
    assert_eq!(c.mode(), 0);
    assert_eq!(c.flight_mode(), FlightMode::Manual);
    assert_eq!(c.takeoff_alt(), g(0.0));
    assert_eq!(c.home, [g(0.0), g(0.0), g(-5.0)]);
    assert!(!c.degraded());
    assert_eq!(actuator_full(), [g(1.0); 4]);
}

#[test]
fn laws_have_their_feedback() {
    assert_eq!(ControllerKind::Pid.feedback_gain(), Some(g(0.0)));
    assert_eq!(ControllerKind::Indi.feedback_gain(), Some(g(0.8)));
    assert_eq!(ControllerKind::Lqr.feedback_gain(), Some(g(0.5)));
    assert_eq!(ControllerKind::Tecs.feedback_gain(), None);
}

#[test]
fn mode_codes_lead_back() {
    for code in 0..=255u8 {
        match FlightMode::from_code(code) {
            Some(m) => assert_eq!(m.code(), code),
            None => assert!(code > 6),
        }
    }
    assert_eq!(FlightMode::from_switch(4), FlightMode::Rtl);
    assert_eq!(FlightMode::from_switch(5), FlightMode::Land);
    assert_eq!(FlightMode::from_switch(200), FlightMode::Land);
}

#[test]
fn a_stale_frame_does_not_disarm() {
    let mut c = fresh();
    assert_eq!(c.take_rc(false, false, 3), FlightMode::Position);
    assert!(c.is_armed());
    assert_eq!(c.take_rc(true, false, 0), FlightMode::Manual);
    assert!(!c.is_armed());
}

#[test]
fn a_disarmed_controller_gives_nothing_to_its_motors() {
    let mut c = fresh();
    let cmd = [g(0.1), g(0.2), g(0.3), g(0.4)];
    assert_eq!(c.motor_output(cmd), cmd);
    c.disarm();
    assert_eq!(c.motor_output(cmd), [g(0.0); 4]);
    c.arm();
    assert_eq!(c.motor_output(cmd), cmd);
}

#[test]
fn modes_are_flown_to_their_places() {
    let mut c = fresh();
    c.set_hold_pos(g(1.0), g(2.0), g(-3.0));
    let hold = [g(1.0), g(2.0), g(-3.0)];
    assert_eq!(c.command(), Command::Rates);
    c.sync_mode(FlightMode::Stabilize);
    assert_eq!(c.command(), Command::Attitude);
    for m in [FlightMode::Altitude, FlightMode::Position, FlightMode::Mission] {
        c.sync_mode(m);
        assert_eq!(c.command(), Command::Hold(hold));
    }
    c.sync_mode(FlightMode::Rtl);
    assert_eq!(c.command(), Command::Hold([g(0.0), g(0.0), g(-5.0)]));
    c.sync_mode(FlightMode::Land);
    assert_eq!(c.command(), Command::Hold([g(1.0), g(2.0), g(0.0)]));
    assert_eq!(c.mode(), 5);
}

#[test]
fn motors_fail_and_weaken() {
    let mut c = fresh();
    c.set_motor_failure([false, true, false, false]);
    assert_eq!(c.eff, [g(1.0), g(0.0), g(1.0), g(1.0)]);
    assert!(c.degraded());
    c.set_motor_eff([g(2.0), g(-1.0), g(0.5), g(1.0)]);
    assert_eq!(c.eff, [g(1.0), g(0.0), g(0.5), g(1.0)]);
    c.set_motor_eff([g(1.0); 4]);
    assert!(!c.degraded());
    assert_eq!(throttle(f(1.5)), f(1.0));
    assert_eq!(throttle(f(-0.5)), f(0.0));
    assert_eq!(throttle(f(0.25)), f(0.25));
}

#[test]
fn a_fix_outlasts_the_steps_between_samples() {
    let mut c = fresh();
    assert!(!c.gps.healthy());
    c.sample_sensors(Some(7), None, None);
    assert!(c.gps.healthy());
    c.sample_sensors(None, Some(1), Some(2));
    assert!(c.gps.healthy());
    assert_eq!(c.gps.read(), None);
    assert_eq!((c.vio, c.rtk), (Some(1), Some(2)));
}

#[test]
fn lost_sensors_give_nothing() {
    let mut c = fresh();
    c.sample_sensors(Some(7), Some(1), Some(2));
    c.set_gps_available(false);
    assert!(!c.gps.healthy());
    assert_eq!(c.gps.read(), None);
    c.set_vio_available(false);
    c.set_rtk_available(false);
    c.sample_sensors(Some(8), Some(3), Some(4));
    assert_eq!((c.gps.read(), c.vio, c.rtk), (None, None, None));
    assert!(!c.gps.healthy());
    c.set_gps_available(true);
    c.set_vio_available(true);
    c.set_rtk_available(true);
    c.sample_sensors(Some(9), Some(3), Some(4));
    assert_eq!((c.gps.read(), c.vio, c.rtk), (Some(9), Some(3), Some(4)));
}

#[test]
fn evasion_keeps_to_its_side() {
    let mut c = fresh();
    assert_eq!(c.evade(true, f(0.1)), Some(Side::Right));
    assert_eq!(c.evade(true, f(-0.2)), Some(Side::Right));
    assert_eq!(c.evade(true, f(-0.3)), Some(Side::Left));
    for flicker in [0.2, -0.1, 0.0, 0.25, -0.25] {
        assert_eq!(c.evade(true, f(flicker)), Some(Side::Left));
    }
    assert_eq!(c.evade(false, f(5.0)), None);
    assert_eq!(c.evade(true, f(0.0)), Some(Side::Right));
}

#[test]
fn a_takeoff_is_remembered() {
    let mut c = fresh();
    c.request_takeoff(g(12.5));
    assert_eq!(c.takeoff_alt(), g(12.5));
}
