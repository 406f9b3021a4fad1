//! The controller's own state: arming, flight modes, motor faults, sensor outages and evasion.
//!
//! The control laws, the estimator and the mode governor run outside; what they are given and what
//! becomes of what they return is decided here.

use crate::ieee::{Float32, Float64};
use vstd::prelude::*;

verus! {

/// One, as a bit pattern.
pub const FULL: u32 = 0x3F80_0000;

/// One, as a bit pattern of twice the width.
pub const FULL64: u64 = 0x3FF0_0000_0000_0000;

/// One half.
pub const LQR_GAIN: u32 = 0x3F00_0000;

/// Four fifths.
pub const INDI_GAIN: u32 = 0x3F4C_CCCD;

/// Minus five: five metres above the ground.
pub const START_DOWN: u32 = 0xC0A0_0000;

/// One quarter: a lateral component above it tells the side that an obstacle is on.
pub const CLEAR_SIDE: u64 = 0x3FD0_0000_0000_0000;

/// The command of full throttle on every motor.
pub fn actuator_full() -> (r: [Float32; 4])
    ensures
        forall|i: int| 0 <= i < 4 ==> #[trigger] r[i] == Float32::from_bits(FULL),
{
    let one: Float32 = Float32::from_bits(FULL);
    [one, one, one, one]
}

/// The control law that flies the vehicle.
#[derive(Clone, Copy, Debug, PartialEq, Eq, Structural)]
pub enum ControllerKind {
    Pid,
    /// Incremental inversion around a PID baseline.
    Indi,
    Lqr,
    /// Total energy control.
    Tecs,
}

impl ControllerKind {
    /// The weight of the angular acceleration feedback around the law; none for one that has no such
    /// feedback at all.
    pub fn feedback_gain(self) -> (r: Option<Float32>)
        ensures
            r == match self {
                ControllerKind::Pid => Some(Float32::from_bits(0)),
                ControllerKind::Indi => Some(Float32::from_bits(INDI_GAIN)),
                ControllerKind::Lqr => Some(Float32::from_bits(LQR_GAIN)),
                ControllerKind::Tecs => None,
            },
    {
        match self {
            ControllerKind::Pid => Some(Float32::from_bits(0)),
            ControllerKind::Indi => Some(Float32::from_bits(INDI_GAIN)),
            ControllerKind::Lqr => Some(Float32::from_bits(LQR_GAIN)),
            ControllerKind::Tecs => None,
        }
    }
}

#[derive(Clone, Copy, Debug, PartialEq, Eq, Structural)]
pub enum FlightMode {
    Manual,
    Stabilize,
    Altitude,
    Position,
    Rtl,
    Land,
    Mission,
}

impl FlightMode {
    pub open spec fn code_of(self) -> u8 {
        match self {
            FlightMode::Manual => 0,
            FlightMode::Stabilize => 1,
            FlightMode::Altitude => 2,
            FlightMode::Position => 3,
            FlightMode::Rtl => 4,
            FlightMode::Land => 5,
            FlightMode::Mission => 6,
        }
    }

    /// The code of the mode on the telemetry link.
    pub fn code(self) -> (r: u8)
        ensures
            r == self.code_of(),
    {
        match self {
            FlightMode::Manual => 0,
            FlightMode::Stabilize => 1,
            FlightMode::Altitude => 2,
            FlightMode::Position => 3,
            FlightMode::Rtl => 4,
            FlightMode::Land => 5,
            FlightMode::Mission => 6,
        }
    }

    pub open spec fn of_code(code: u8) -> Option<FlightMode> {
        if code == 0 {
            Some(FlightMode::Manual)
        } else if code == 1 {
            Some(FlightMode::Stabilize)
        } else if code == 2 {
            Some(FlightMode::Altitude)
        } else if code == 3 {
            Some(FlightMode::Position)
        } else if code == 4 {
            Some(FlightMode::Rtl)
        } else if code == 5 {
            Some(FlightMode::Land)
        } else if code == 6 {
            Some(FlightMode::Mission)
        } else {
            None
        }
    }

    /// The mode of a code; an unknown code has none.
    pub fn from_code(code: u8) -> (r: Option<FlightMode>)
        ensures
            r == Self::of_code(code),
    {
        match code {
            0 => Some(FlightMode::Manual),
            1 => Some(FlightMode::Stabilize),
            2 => Some(FlightMode::Altitude),
            3 => Some(FlightMode::Position),
            4 => Some(FlightMode::Rtl),
            5 => Some(FlightMode::Land),
            6 => Some(FlightMode::Mission),
            _ => None,
        }
    }

    /// The mode of a position of the six-way switch of a remote control. Positions beyond the last
    /// count as the last.
    pub fn from_switch(position: u8) -> (r: FlightMode)
        ensures
            Self::of_code(
                if position < 5 {
                    position
                } else {
                    5
                },
            ) == Some(r),
    {
        match position {
            0 => FlightMode::Manual,
            1 => FlightMode::Stabilize,
            2 => FlightMode::Altitude,
            3 => FlightMode::Position,
            4 => FlightMode::Rtl,
            _ => FlightMode::Land,
        }
    }
}

/// Code and mode determine each other.
pub proof fn lemma_mode_codes(m: FlightMode, code: u8)
    ensures
        FlightMode::of_code(m.code_of()) == Some(m),
        FlightMode::of_code(code) matches Some(k) ==> k.code_of() == code,
        FlightMode::of_code(code) is None <==> code > 6,
{
}

/// The modes are numbered from manual flight on, in the order in which they take over more of the
/// pilot's work, with the return, the landing and the mission last; and the positions of the switch
/// have the same numbers.
pub proof fn lemma_modes_in_order(m: FlightMode)
    ensures
        m.code_of() == 0 <==> m is Manual,
        m.code_of() == 1 <==> m is Stabilize,
        m.code_of() == 2 <==> m is Altitude,
        m.code_of() == 3 <==> m is Position,
        m.code_of() == 4 <==> m is Rtl,
        m.code_of() == 5 <==> m is Land,
        m.code_of() == 6 <==> m is Mission,
{
}

/// A receiver whose fix, once had, stays until the receiver is lost: between two samples there may
/// be steps without one.
pub struct SimGps<P> {
    pub last: Option<P>,
    pub has_fix: bool,
}

impl<P: Copy> SimGps<P> {
    pub fn read(&self) -> (r: Option<P>)
        ensures
            r == self.last,
    {
        self.last
    }

    pub fn healthy(&self) -> (r: bool)
        ensures
            r == self.has_fix,
    {
        self.has_fix
    }
}

/// The side that an evasion keeps to.
#[derive(Clone, Copy, Debug, PartialEq, Eq, Structural)]
pub enum Side {
    Left,
    Right,
}

/// The side after a frame: a threat that is clearly on one side decides; one that is not leaves the
/// side as it is, or starts on the right; no threat, no side.
pub open spec fn side_after(side: Option<Side>, triggered: bool, lateral: Float64) -> Option<Side> {
    if !triggered {
        None
    } else if Float64::from_bits(CLEAR_SIDE).less(lateral.absolute()) {
        if Float64::from_bits(0).less(lateral) {
            Some(Side::Right)
        } else {
            Some(Side::Left)
        }
    } else {
        match side {
            Some(s) => Some(s),
            None => Some(Side::Right),
        }
    }
}

/// A push that is clearly to one side decides, whatever the side was before: to the right where it is
/// above the threshold, to the left where it is below the opposite of it. One that is neither leaves
/// a side as it is, and where there is none takes the right; and without a threat there is no side.
pub proof fn lemma_side_follows_push(side: Option<Side>, triggered: bool, lateral: Float64)
    ensures
        ({
            let clear = Float64::from_bits(CLEAR_SIDE).value();
            let after = side_after(side, triggered, lateral);
            &&& !triggered <==> after is None
            &&& triggered && !lateral.nan() && clear < lateral.value() ==> after == Some(
                Side::Right,
            )
            &&& triggered && !lateral.nan() && lateral.value() < -clear ==> after == Some(
                Side::Left,
            )
            &&& triggered && (lateral.nan() || -clear <= lateral.value() <= clear) ==> after
                == Some(side.unwrap_or(Side::Right))
            &&& 4 * clear == crate::ieee::one64()
        }),
{
    let clear = Float64::from_bits(CLEAR_SIDE);
    crate::ieee::lemma_signs64(lateral);
    crate::ieee::lemma_order64(clear, lateral.absolute());
    crate::ieee::lemma_order64(Float64::from_bits(0), lateral);
    crate::ieee::lemma_order64(Float64::from_bits(0), clear);
    crate::ieee::lemma_scale64(Float64::from_bits(0), Float64::from_bits(0));
    vstd::arithmetic::power2::lemma2_to64_rest();
    crate::ieee::lemma_exact64(clear, 1, 4, 54);
}

/// Turning a push that is clearly to one side round turns the side round.
pub proof fn lemma_side_turns_round(side: Option<Side>, lateral: Float64)
    requires
        Float64::from_bits(CLEAR_SIDE).less(lateral.absolute()),
    ensures
        side_after(side, true, lateral) == Some(Side::Right) <==> side_after(
            side,
            true,
            lateral.negated(),
        ) == Some(Side::Left),
        side_after(side, true, lateral) == Some(Side::Left) <==> side_after(
            side,
            true,
            lateral.negated(),
        ) == Some(Side::Right),
{
    lemma_side_follows_push(side, true, lateral);
    lemma_side_follows_push(side, true, lateral.negated());
    crate::ieee::lemma_signs64(lateral);
    crate::ieee::lemma_order64(Float64::from_bits(CLEAR_SIDE), lateral.absolute());
}

/// The side after a run of frames of one threat.
pub open spec fn side_after_all(side: Option<Side>, laterals: Seq<Float64>) -> Option<Side>
    decreases laterals.len(),
{
    if laterals.len() == 0 {
        side
    } else {
        side_after(side_after_all(side, laterals.drop_last()), true, laterals.last())
    }
}

/// Evasion is firm: while an obstacle stays nearly ahead, the side does not change, however its
/// apparent side flickers.
pub proof fn lemma_evasion_is_firm(side: Side, laterals: Seq<Float64>)
    requires
        forall|i: int|
            0 <= i < laterals.len() ==> !Float64::from_bits(CLEAR_SIDE).less(
                (#[trigger] laterals[i]).absolute(),
            ),
    ensures
        side_after_all(Some(side), laterals) == Some(side),
    decreases laterals.len(),
{
    if laterals.len() > 0 {
        let t = laterals.drop_last();
        assert forall|i: int| 0 <= i < t.len() implies !Float64::from_bits(CLEAR_SIDE).less(
            (#[trigger] t[i]).absolute(),
        ) by {
            assert(t[i] == laterals[i]);
        }
        lemma_evasion_is_firm(side, t);
        assert(laterals[laterals.len() - 1] == laterals.last());
    }
}

/// A run of frames ends on the side of the last clear push: the frames before it do not count.
pub proof fn lemma_last_clear_push(side: Option<Side>, before: Seq<Float64>, clear: Float64)
    requires
        Float64::from_bits(CLEAR_SIDE).less(clear.absolute()),
    ensures
        side_after_all(side, before.push(clear)) == Some(
            if clear.value() > 0 {
                Side::Right
            } else {
                Side::Left
            },
        ),
{
    assert(before.push(clear).drop_last() =~= before);
    let s = side_after_all(side, before);
    lemma_side_follows_push(s, true, clear);
    crate::ieee::lemma_signs64(clear);
    crate::ieee::lemma_order64(Float64::from_bits(CLEAR_SIDE), clear.absolute());
}

/// What is to be flown in a step.
#[derive(Clone, Copy, Debug, PartialEq, Eq)]
pub enum Command {
    /// The sticks command angular rates.
    Rates,
    /// The sticks command an attitude.
    Attitude,
    /// Hold this place.
    Hold([Float32; 3]),
}

/// The controller's state. `P`, `V` and `R` are the samples of the satellite receiver, of visual
/// odometry and of the precise receiver.
pub struct FlyController<P, V, R> {
    pub gps: SimGps<P>,
    pub vio: Option<V>,
    pub rtk: Option<R>,
    pub gps_ok: bool,
    pub vio_ok: bool,
    pub rtk_ok: bool,
    pub armed: bool,
    pub mode: FlightMode,
    pub takeoff_alt: Float32,
    pub home: [Float32; 3],
    pub hold_pos: [Float32; 3],
    /// The effectiveness of each motor, from none to full.
    pub eff: [Float32; 4],
    pub side: Option<Side>,
}

/// The place that a vehicle starts at, and returns to.
pub open spec fn is_start(p: [Float32; 3]) -> bool {
    p[0] == Float32::from_bits(0) && p[1] == Float32::from_bits(0) && p[2] == Float32::from_bits(
        START_DOWN,
    )
}

impl<P: Copy, V: Copy, R: Copy> FlyController<P, V, R> {
    pub fn new() -> (r: Self)
        ensures
            r.gps.last is None,
            !r.gps.has_fix,
            r.vio is None,
            r.rtk is None,
            r.gps_ok && r.vio_ok && r.rtk_ok,
            r.armed,
            r.mode == FlightMode::Manual,
            r.takeoff_alt == Float32::from_bits(0),
            is_start(r.home),
            is_start(r.hold_pos),
            forall|i: int| 0 <= i < 4 ==> #[trigger] r.eff[i] == Float32::from_bits(FULL),
            r.side is None,
    {
        let zero: Float32 = Float32::from_bits(0);
        let one: Float32 = Float32::from_bits(FULL);
        let start: [Float32; 3] = [zero, zero, Float32::from_bits(START_DOWN)];
        FlyController {
            gps: SimGps { last: None, has_fix: false },
            vio: None,
            rtk: None,
            gps_ok: true,
            vio_ok: true,
            rtk_ok: true,
            armed: true,
            mode: FlightMode::Manual,
            takeoff_alt: zero,
            home: start,
            hold_pos: start,
            eff: [one, one, one, one],
            side: None,
        }
    }

    pub fn arm(&mut self)
        ensures
            *final(self) == (FlyController { armed: true, ..*old(self) }),
    {
        self.armed = true;
    }

    pub fn disarm(&mut self)
        ensures
            *final(self) == (FlyController { armed: false, ..*old(self) }),
    {
        self.armed = false;
    }

    pub fn is_armed(&self) -> (r: bool)
        ensures
            r == self.armed,
    {
        self.armed
    }

    /// The code of the mode.
    pub fn mode(&self) -> (r: u8)
        ensures
            r == self.mode.code_of(),
    {
        self.mode.code()
    }

    pub fn flight_mode(&self) -> (r: FlightMode)
        ensures
            r == self.mode,
    {
        self.mode
    }

    pub fn takeoff_alt(&self) -> (r: Float32)
        ensures
            r == self.takeoff_alt,
    {
        self.takeoff_alt
    }

    pub fn request_takeoff(&mut self, alt: Float32)
        ensures
            *final(self) == (FlyController { takeoff_alt: alt, ..*old(self) }),
    {
        self.takeoff_alt = alt;
    }

    pub fn set_hold_pos(&mut self, n: Float32, e: Float32, d: Float32)
        ensures
            final(self).hold_pos@ == seq![n, e, d],
            *final(self) == (FlyController { hold_pos: final(self).hold_pos, ..*old(self) }),
    {
        self.hold_pos = [n, e, d];
        assert(self.hold_pos@ =~= seq![n, e, d]);
    }

    /// A failed motor has no effectiveness, and every other one has all of it.
    pub fn set_motor_failure(&mut self, mask: [bool; 4])
        ensures
            forall|i: int|
                0 <= i < 4 ==> #[trigger] final(self).eff[i] == Float32::from_bits(
                    if mask[i] {
                        0
                    } else {
                        FULL
                    },
                ),
            *final(self) == (FlyController { eff: final(self).eff, ..*old(self) }),
    {
        let zero: Float32 = Float32::from_bits(0);
        let one: Float32 = Float32::from_bits(FULL);
        self.eff = [
            if mask[0] {
                zero
            } else {
                one
            },
            if mask[1] {
                zero
            } else {
                one
            },
            if mask[2] {
                zero
            } else {
                one
            },
            if mask[3] {
                zero
            } else {
                one
            },
        ];
    }

    /// Sets the effectiveness of each motor, held between none and all.
    pub fn set_motor_eff(&mut self, eff: [Float32; 4])
        ensures
            forall|i: int|
                0 <= i < 4 ==> #[trigger] final(self).eff[i] == eff[i].held_between(
                    Float32::from_bits(0),
                    Float32::from_bits(FULL),
                ),
            *final(self) == (FlyController { eff: final(self).eff, ..*old(self) }),
    {
        let zero: Float32 = Float32::from_bits(0);
        let one: Float32 = Float32::from_bits(FULL);
        self.eff = [
            eff[0].clamp(zero, one),
            eff[1].clamp(zero, one),
            eff[2].clamp(zero, one),
            eff[3].clamp(zero, one),
        ];
    }

    /// Some motor has less than all of its effectiveness.
    pub open spec fn is_degraded(self) -> bool {
        exists|i: int| 0 <= i < 4 && (#[trigger] self.eff[i]).less(Float32::from_bits(FULL))
    }

    /// The demand has to be shared out anew among the motors, and not only scaled.
    pub fn degraded(&self) -> (r: bool)
        ensures
            r == self.is_degraded(),
    {
        let one: Float32 = Float32::from_bits(FULL);
        let r: bool = self.eff[0].lt(one) || self.eff[1].lt(one) || self.eff[2].lt(one)
            || self.eff[3].lt(one);
        proof {
            if self.is_degraded() {
                let i = choose|i: int|
                    0 <= i < 4 && (#[trigger] self.eff[i]).less(Float32::from_bits(FULL));
                assert(i == 0 || i == 1 || i == 2 || i == 3);
            }
            if r {
                assert(self.eff[0].less(one) || self.eff[1].less(one) || self.eff[2].less(one)
                    || self.eff[3].less(one));
            }
        }
        r
    }

    /// What the motors get of a command: all of it when armed, and nothing otherwise.
    pub fn motor_output(&self, cmd: [Float32; 4]) -> (r: [Float32; 4])
        ensures
            self.armed ==> r == cmd,
            !self.armed ==> forall|i: int| 0 <= i < 4 ==> #[trigger] r[i] == Float32::from_bits(0),
    {
        if self.armed {
            cmd
        } else {
            let zero: Float32 = Float32::from_bits(0);
            [zero, zero, zero, zero]
        }
    }

    /// Loses the satellite receiver, and with it its fix, or finds it again.
    pub fn set_gps_available(&mut self, ok: bool)
        ensures
            *final(self) == (FlyController {
                gps_ok: ok,
                gps: if ok {
                    old(self).gps
                } else {
                    SimGps { last: None, has_fix: false }
                },
                ..*old(self)
            }),
    {
        self.gps_ok = ok;
        if !ok {
            self.gps = SimGps { last: None, has_fix: false };
        }
    }

    pub fn set_vio_available(&mut self, ok: bool)
        ensures
            *final(self) == (FlyController {
                vio_ok: ok,
                vio: if ok {
                    old(self).vio
                } else {
                    None
                },
                ..*old(self)
            }),
    {
        self.vio_ok = ok;
        if !ok {
            self.vio = None;
        }
    }

    pub fn set_rtk_available(&mut self, ok: bool)
        ensures
            *final(self) == (FlyController {
                rtk_ok: ok,
                rtk: if ok {
                    old(self).rtk
                } else {
                    None
                },
                ..*old(self)
            }),
    {
        self.rtk_ok = ok;
        if !ok {
            self.rtk = None;
        }
    }

    /// The state after a step's samples: those of a lost sensor count for nothing, and a sample of the
    /// satellite receiver gives it a fix.
    pub open spec fn sampled(self, pos: Option<P>, vio: Option<V>, rtk: Option<R>) -> Self {
        let seen = if self.gps_ok {
            pos
        } else {
            None
        };
        FlyController {
            gps: SimGps { last: seen, has_fix: self.gps.has_fix || seen is Some },
            vio: if self.vio_ok {
                vio
            } else {
                None
            },
            rtk: if self.rtk_ok {
                rtk
            } else {
                None
            },
            ..self
        }
    }

    pub fn sample_sensors(&mut self, pos: Option<P>, vio: Option<V>, rtk: Option<R>)
        ensures
            *final(self) == old(self).sampled(pos, vio, rtk),
    {
        self.gps.last = if self.gps_ok {
            pos
        } else {
            None
        };
        match self.gps.last {
            Some(_) => {
                self.gps.has_fix = true;
            },
            None => {},
        }
        self.vio = if self.vio_ok {
            vio
        } else {
            None
        };
        self.rtk = if self.rtk_ok {
            rtk
        } else {
            None
        };
    }

    /// Takes in a frame of the remote control: arms or disarms, if the frame is fresh, and returns the
    /// mode that the switch asks for.
    pub fn take_rc(&mut self, fresh: bool, armed: bool, switch: u8) -> (r: FlightMode)
        ensures
            *final(self) == (FlyController {
                armed: if fresh {
                    armed
                } else {
                    old(self).armed
                },
                ..*old(self)
            }),
            FlightMode::of_code(
                if switch < 5 {
                    switch
                } else {
                    5
                },
            ) == Some(r),
    {
        if fresh {
            self.armed = armed;
        }
        FlightMode::from_switch(switch)
    }

    /// Takes over the mode that the governor has settled on.
    pub fn sync_mode(&mut self, governed: FlightMode)
        ensures
            *final(self) == (FlyController { mode: governed, ..*old(self) }),
    {
        self.mode = governed;
    }

    /// What the mode makes of a step: manual and stabilised flight follow the sticks, the return goes
    /// home, landing goes to the ground below the held place, and the rest holds it.
    pub fn command(&self) -> (r: Command)
        ensures
            match self.mode {
                FlightMode::Manual => r == Command::Rates,
                FlightMode::Stabilize => r == Command::Attitude,
                FlightMode::Altitude | FlightMode::Position | FlightMode::Mission => r
                    == Command::Hold(self.hold_pos),
                FlightMode::Rtl => r == Command::Hold(self.home),
                FlightMode::Land => r matches Command::Hold(p) && p[0] == self.hold_pos[0] && p[1]
                    == self.hold_pos[1] && p[2] == Float32::from_bits(0),
            },
    {
        match self.mode {
            FlightMode::Manual => Command::Rates,
            FlightMode::Stabilize => Command::Attitude,
            FlightMode::Altitude | FlightMode::Position | FlightMode::Mission => Command::Hold(
                self.hold_pos,
            ),
            FlightMode::Rtl => Command::Hold(self.home),
            FlightMode::Land => Command::Hold(
                [self.hold_pos[0], self.hold_pos[1], Float32::from_bits(0)],
            ),
        }
    }

    /// Takes in a frame of the avoidance: whether there is a threat, and the lateral component of what
    /// pushes away from it. Returns the side to evade to.
    pub fn evade(&mut self, triggered: bool, lateral: Float64) -> (r: Option<Side>)
        ensures
            r == side_after(old(self).side, triggered, lateral),
            *final(self) == (FlyController { side: r, ..*old(self) }),
            triggered <==> r is Some,
            triggered && !lateral.nan() && Float64::from_bits(CLEAR_SIDE).value()
                < lateral.value() ==> r == Some(Side::Right),
            triggered && !lateral.nan() && lateral.value() < -Float64::from_bits(
                CLEAR_SIDE,
            ).value() ==> r == Some(Side::Left),
    {
        proof {
            lemma_side_follows_push(self.side, triggered, lateral);
        }
        if !triggered {
            self.side = None;
        } else if Float64::from_bits(CLEAR_SIDE).lt(lateral.abs()) {
            self.side = if Float64::from_bits(0).lt(lateral) {
                Some(Side::Right)
            } else {
                Some(Side::Left)
            };
        } else {
            match self.side {
                Some(_) => {},
                None => {
                    self.side = Some(Side::Right);
                },
            }
        }
        self.side
    }
}

/// A fix survives every step until the receiver is lost; and no lost receiver gives a sample or a
/// fix of its own.
pub proof fn lemma_fix_is_kept<P, V, R>(
    c: FlyController<P, V, R>,
    pos: Option<P>,
    vio: Option<V>,
    rtk: Option<R>,
)
    where P: Copy, V: Copy, R: Copy
    ensures
        c.gps.has_fix ==> c.sampled(pos, vio, rtk).gps.has_fix,
        !c.gps_ok ==> c.sampled(pos, vio, rtk).gps.last is None && c.sampled(
            pos,
            vio,
            rtk,
        ).gps.has_fix == c.gps.has_fix,
        !c.vio_ok ==> c.sampled(pos, vio, rtk).vio is None,
        !c.rtk_ok ==> c.sampled(pos, vio, rtk).rtk is None,
        c.sampled(pos, vio, rtk).gps_ok == c.gps_ok,
{
}

/// A sensor that is there is read: what it has is what the step goes on with, and nothing else of the
/// state changes.
pub proof fn lemma_samples_are_taken<P, V, R>(
    c: FlyController<P, V, R>,
    pos: Option<P>,
    vio: Option<V>,
    rtk: Option<R>,
)
    where P: Copy, V: Copy, R: Copy
    ensures
        ({
            let s = c.sampled(pos, vio, rtk);
            &&& c.gps_ok ==> s.gps.last == pos
            &&& c.gps_ok && pos is Some ==> s.gps.has_fix
            &&& s.gps.has_fix ==> c.gps.has_fix || (c.gps_ok && pos is Some)
            &&& c.vio_ok ==> s.vio == vio
            &&& c.rtk_ok ==> s.rtk == rtk
            &&& s.gps_ok == c.gps_ok && s.vio_ok == c.vio_ok && s.rtk_ok == c.rtk_ok
            &&& s.armed == c.armed && s.mode == c.mode && s.takeoff_alt == c.takeoff_alt
            &&& s.home == c.home && s.hold_pos == c.hold_pos
            &&& s.eff == c.eff && s.side == c.side
        }),
{
}

/// A vehicle is degraded where the effectiveness of one of its motors is worth less than one.
pub proof fn lemma_degraded<P, V, R>(c: FlyController<P, V, R>)
    where P: Copy, V: Copy, R: Copy
    ensures
        !c.is_degraded() <==> forall|i: int|
            0 <= i < 4 ==> (#[trigger] c.eff[i]).nan() || crate::ieee::one32() <= c.eff[i].value(),
{
    let one = Float32::from_bits(FULL);
    assert(one.value() == crate::ieee::one32()) by {
        vstd::arithmetic::power2::lemma2_to64();
        crate::ieee::lemma_exact32(one, 1, 1, 23);
    }
    assert forall|i: int| 0 <= i < 4 implies ((#[trigger] c.eff[i]).less(one) <==> !c.eff[i].nan()
        && c.eff[i].value() < crate::ieee::one32()) by {
        crate::ieee::lemma_order32(c.eff[i], one);
    }
}

/// A vehicle starts five metres above the ground, over the origin.
pub proof fn lemma_start(p: [Float32; 3])
    requires
        is_start(p),
    ensures
        p[0].value() == 0 && p[1].value() == 0 && p[2].value() == -5 * crate::ieee::one32(),
{
    crate::ieee::lemma_scale32(Float32::from_bits(0), Float32::from_bits(0));
    vstd::arithmetic::power2::lemma2_to64();
    crate::ieee::lemma_exact32(p[2], -5, 1, 21);
}

/// A throttle, held between none and full.
pub fn throttle(u: Float64) -> (r: Float64)
    ensures
        r == u.held_between(Float64::from_bits(0), Float64::from_bits(FULL64)),
{
    u.clamp(Float64::from_bits(0), Float64::from_bits(FULL64))
}

/// What the constants of this module are worth.
pub proof fn lemma_measures()
    ensures
        crate::ieee::is_ratio32(Float32::from_bits(FULL), 1, 1),
        crate::ieee::is_ratio64(Float64::from_bits(FULL64), 1, 1),
        crate::ieee::is_ratio32(Float32::from_bits(LQR_GAIN), 1, 2),
        crate::ieee::is_ratio32(Float32::from_bits(INDI_GAIN), 4, 5),
        crate::ieee::is_ratio32(Float32::from_bits(START_DOWN), -5, 1),
        crate::ieee::is_ratio64(Float64::from_bits(CLEAR_SIDE), 1, 4),
{
    assert(crate::ieee::is_ratio32(Float32::from_bits(FULL), 1, 1)) by {
        vstd::arithmetic::power2::lemma2_to64();
        crate::ieee::lemma_ratio32(Float32::from_bits(FULL), 1, 1, 23);
    }
    assert(crate::ieee::is_ratio64(Float64::from_bits(FULL64), 1, 1)) by {
        vstd::arithmetic::power2::lemma2_to64_rest();
        crate::ieee::lemma_ratio64(Float64::from_bits(FULL64), 1, 1, 52);
    }
    assert(crate::ieee::is_ratio32(Float32::from_bits(LQR_GAIN), 1, 2)) by {
        vstd::arithmetic::power2::lemma2_to64();
        crate::ieee::lemma_ratio32(Float32::from_bits(LQR_GAIN), 1, 2, 24);
    }
    assert(crate::ieee::is_ratio32(Float32::from_bits(INDI_GAIN), 4, 5)) by {
        vstd::arithmetic::power2::lemma2_to64();
        crate::ieee::lemma_ratio32(Float32::from_bits(INDI_GAIN), 4, 5, 24);
    }
    assert(crate::ieee::is_ratio32(Float32::from_bits(START_DOWN), -5, 1)) by {
        vstd::arithmetic::power2::lemma2_to64();
        crate::ieee::lemma_ratio32(Float32::from_bits(START_DOWN), -5, 1, 21);
    }
    assert(crate::ieee::is_ratio64(Float64::from_bits(CLEAR_SIDE), 1, 4)) by {
        vstd::arithmetic::power2::lemma2_to64_rest();
        crate::ieee::lemma_ratio64(Float64::from_bits(CLEAR_SIDE), 1, 4, 54);
    }
}

} // verus!
