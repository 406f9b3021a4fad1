//! The vehicle between the engine and the flight controller: frames, rotors and the layers of the
//! air.
//!
//! The engine's world points up along its second axis, the controller's down along its third; the
//! bodies differ in the direction of their third axis. The changes of frame are reflections.

use crate::ieee::{Float32, Float64};
use vstd::prelude::*;

verus! {

/// Eleven thousand metres, as a bit pattern.
pub const TROPOPAUSE: u64 = 0x40C5_7C00_0000_0000;

/// One thousand-millionth: a vector shorter than this has no direction.
pub const NO_LENGTH: u64 = 0x3E11_2E0B_E826_D695;

/// A world vector in the other of the two world frames: the same map leads there and back.
pub open spec fn swap_world_of(v: Seq<Float64>) -> Seq<Float64> {
    seq![v[0], v[2].negated(), v[1].negated()]
}

/// From north, east and down to the engine's world, or from there to north, east and down.
pub fn swap_world(v: [Float64; 3]) -> (r: [Float64; 3])
    ensures
        r@ == swap_world_of(v@),
{
    let r: [Float64; 3] = [v[0], v[2].neg(), v[1].neg()];
    assert(r@ =~= swap_world_of(v@));
    r
}

/// A velocity or a force in the other of the two body frames.
pub open spec fn swap_body_of(v: Seq<Float64>) -> Seq<Float64> {
    seq![v[0], v[1], v[2].negated()]
}

pub fn swap_body(v: [Float64; 3]) -> (r: [Float64; 3])
    ensures
        r@ == swap_body_of(v@),
{
    let r: [Float64; 3] = [v[0], v[1], v[2].neg()];
    assert(r@ =~= swap_body_of(v@));
    r
}

/// An angular rate or a torque in the other of the two body frames: what a reflection does to an
/// axis of rotation.
pub open spec fn swap_axis_of(v: Seq<Float64>) -> Seq<Float64> {
    seq![v[0].negated(), v[1].negated(), v[2]]
}

pub fn swap_axis(v: [Float64; 3]) -> (r: [Float64; 3])
    ensures
        r@ == swap_axis_of(v@),
{
    let r: [Float64; 3] = [v[0].neg(), v[1].neg(), v[2]];
    assert(r@ =~= swap_axis_of(v@));
    r
}

/// The changes of frame take themselves back, bit for bit.
pub proof fn lemma_frames_are_involutions(v: Seq<Float64>)
    requires
        v.len() == 3,
    ensures
        swap_world_of(swap_world_of(v)) == v,
        swap_body_of(swap_body_of(v)) == v,
        swap_axis_of(swap_axis_of(v)) == v,
{
    assert(swap_world_of(swap_world_of(v)) =~= v);
    assert(swap_body_of(swap_body_of(v)) =~= v);
    assert(swap_axis_of(swap_axis_of(v)) =~= v);
}

/// An axis of rotation is changed by the opposite of what a velocity is.
pub proof fn lemma_axis_opposes_body(v: Seq<Float64>, k: int)
    requires
        v.len() == 3,
        0 <= k < 3,
    ensures
        swap_axis_of(v)[k] == swap_body_of(v)[k].negated(),
{
}

/// The rotation matrix of the controller, from that of the engine: `r[3 * i + j]` is the entry in row
/// `i` and column `j`. The third column is reversed for the body, and for the world the second and
/// the third row are exchanged and reversed.
pub open spec fn swap_rotation_of(r: Seq<Float64>) -> Seq<Float64> {
    seq![
        r[0],
        r[1],
        r[2].negated(),
        r[6].negated(),
        r[7].negated(),
        r[8],
        r[3].negated(),
        r[4].negated(),
        r[5],
    ]
}

pub fn swap_rotation(r: [Float64; 9]) -> (c: [Float64; 9])
    ensures
        c@ == swap_rotation_of(r@),
{
    let c: [Float64; 9] = [
        r[0],
        r[1],
        r[2].neg(),
        r[6].neg(),
        r[7].neg(),
        r[8],
        r[3].neg(),
        r[4].neg(),
        r[5],
    ];
    assert(c@ =~= swap_rotation_of(r@));
    c
}

/// A column of the controller's matrix is the world vector of the engine's column, reversed where the
/// body axis is.
pub proof fn lemma_rotation_columns(r: Seq<Float64>, j: int)
    requires
        r.len() == 9,
        0 <= j < 3,
    ensures
        ({
            let c = swap_rotation_of(r);
            let column = swap_world_of(seq![r[j], r[3 + j], r[6 + j]]);
            let got = seq![c[j], c[3 + j], c[6 + j]];
            got == if j == 2 {
                seq![column[0].negated(), column[1].negated(), column[2].negated()]
            } else {
                column
            }
        }),
{
    let c = swap_rotation_of(r);
    let column = swap_world_of(seq![r[j], r[3 + j], r[6 + j]]);
    let got = seq![c[j], c[3 + j], c[6 + j]];
    if j == 2 {
        assert(got =~= seq![column[0].negated(), column[1].negated(), column[2].negated()]);
    } else {
        assert(got =~= column);
    }
}

/// North stays ahead, what is down for the one frame is up for the other, and east lies across; a body
/// keeps its front and its side and turns over.
pub proof fn lemma_frames(v: Seq<Float64>)
    requires
        v.len() == 3,
    ensures
        swap_world_of(v).len() == 3 && swap_body_of(v).len() == 3 && swap_axis_of(v).len() == 3,
        swap_world_of(v)[0] == v[0],
        swap_world_of(v)[1].value() == -v[2].value(),
        swap_world_of(v)[2].value() == -v[1].value(),
        swap_body_of(v)[0] == v[0],
        swap_body_of(v)[1] == v[1],
        swap_body_of(v)[2].value() == -v[2].value(),
        swap_axis_of(v)[0].value() == -v[0].value(),
        swap_axis_of(v)[1].value() == -v[1].value(),
        swap_axis_of(v)[2] == v[2],
{
    crate::ieee::lemma_signs64(v[0]);
    crate::ieee::lemma_signs64(v[1]);
    crate::ieee::lemma_signs64(v[2]);
}

/// A change of frame changes no length: every component is found again, as large as it was.
pub proof fn lemma_frames_keep_lengths(v: Seq<Float64>)
    requires
        v.len() == 3,
    ensures
        ({
            let square = |s: Seq<Float64>|
                s[0].value() * s[0].value() + s[1].value() * s[1].value() + s[2].value()
                    * s[2].value();
            &&& square(swap_world_of(v)) == square(v)
            &&& square(swap_body_of(v)) == square(v)
            &&& square(swap_axis_of(v)) == square(v)
        }),
{
    lemma_frames(v);
    let (x, y, z) = (v[0].value(), v[1].value(), v[2].value());
    assert((-x) * (-x) == x * x) by (nonlinear_arith);
    assert((-y) * (-y) == y * y) by (nonlinear_arith);
    assert((-z) * (-z) == z * z) by (nonlinear_arith);
}

/// The component of a quaternion that is computed first, and that the others are divided by.
#[derive(Clone, Copy, Debug, PartialEq, Eq, Structural)]
pub enum Leading {
    W,
    X,
    Y,
    Z,
}

pub open spec fn leading_of(trace: Float64, xx: Float64, yy: Float64, zz: Float64) -> Leading {
    if Float64::from_bits(0).less(trace) {
        Leading::W
    } else if yy.at_most(xx) && zz.at_most(xx) {
        Leading::X
    } else if zz.at_most(yy) {
        Leading::Y
    } else {
        Leading::Z
    }
}

/// The leading component of the quaternion of a rotation matrix, from its trace and its diagonal.
pub fn leading_component(trace: Float64, xx: Float64, yy: Float64, zz: Float64) -> (r: Leading)
    ensures
        r == leading_of(trace, xx, yy, zz),
{
    if Float64::from_bits(0).lt(trace) {
        Leading::W
    } else if yy.le(xx) && zz.le(xx) {
        Leading::X
    } else if zz.le(yy) {
        Leading::Y
    } else {
        Leading::Z
    }
}

/// Where the trace does not lead, the greatest entry of the diagonal does, and of equal ones the first.
pub proof fn lemma_leading_is_greatest(trace: Float64, xx: Float64, yy: Float64, zz: Float64)
    requires
        !trace.nan() && !xx.nan() && !yy.nan() && !zz.nan(),
    ensures
        match leading_of(trace, xx, yy, zz) {
            Leading::W => 0 < trace.rank(),
            Leading::X => trace.rank() <= 0 && yy.rank() <= xx.rank() && zz.rank() <= xx.rank(),
            Leading::Y => trace.rank() <= 0 && xx.rank() < yy.rank() && zz.rank() <= yy.rank(),
            Leading::Z => trace.rank() <= 0 && xx.rank() < zz.rank() && yy.rank() < zz.rank(),
        },
{
}

/// How near the ground a rotor is.
#[derive(Clone, Copy, Debug, PartialEq, Eq, Structural)]
pub enum GroundEffect {
    /// On the ground: the full gain.
    Full,
    /// In between: a part of the gain.
    Partial,
    /// Too high for any.
    Absent,
}

/// The ground effect at a height, from the height that it ends at.
pub fn ground_effect(h: Float64, h0: Float64) -> (r: GroundEffect)
    ensures
        r == if h.at_most(Float64::from_bits(0)) {
            GroundEffect::Full
        } else if h0.at_most(h) {
            GroundEffect::Absent
        } else {
            GroundEffect::Partial
        },
{
    if h.le(Float64::from_bits(0)) {
        GroundEffect::Full
    } else if h0.le(h) {
        GroundEffect::Absent
    } else {
        GroundEffect::Partial
    }
}

/// The layer of the air at an altitude.
#[derive(Clone, Copy, Debug, PartialEq, Eq, Structural)]
pub enum AirLayer {
    /// Below the tropopause, at this altitude.
    Troposphere(Float64),
    /// Above the tropopause, at this altitude.
    Above(Float64),
}

/// The layer at an altitude. Below sea level counts as sea level.
pub fn air_layer(alt: Float64) -> (r: AirLayer)
    ensures
        ({
            let held = alt.greater_of(Float64::from_bits(0));
            r == if held.at_most(Float64::from_bits(TROPOPAUSE)) {
                AirLayer::Troposphere(held)
            } else {
                AirLayer::Above(held)
            }
        }),
{
    let held: Float64 = alt.max(Float64::from_bits(0));
    if held.le(Float64::from_bits(TROPOPAUSE)) {
        AirLayer::Troposphere(held)
    } else {
        AirLayer::Above(held)
    }
}

/// The moments of inertia of a body that can turn: all of them are positive.
pub fn valid_inertia(inertia: [Float32; 3]) -> (r: bool)
    ensures
        r == (Float32::from_bits(0).less(inertia[0]) && Float32::from_bits(0).less(inertia[1])
            && Float32::from_bits(0).less(inertia[2])),
{
    Float32::from_bits(0).lt(inertia[0]) && Float32::from_bits(0).lt(inertia[1])
        && Float32::from_bits(0).lt(inertia[2])
}

/// The side of the body that a motor is on: forward or back, and right or left.
pub open spec fn arm_sign(motor: int, axis: int) -> int {
    if axis == 0 {
        if motor == 0 || motor == 2 {
            1
        } else {
            -1
        }
    } else if motor == 0 || motor == 3 {
        1
    } else {
        -1
    }
}

/// The sense that a motor turns in.
pub open spec fn spin_sign(motor: int) -> int {
    if motor == 0 || motor == 1 {
        1
    } else {
        -1
    }
}

/// The signs of a motor's arm, forward and to the right, and of its spin.
pub fn motor_signs(motor: usize) -> (r: (i8, i8, i8))
    requires
        motor < 4,
    ensures
        r.0 == arm_sign(motor as int, 0),
        r.1 == arm_sign(motor as int, 1),
        r.2 == spin_sign(motor as int),
{
    if motor == 0 {
        (1, 1, 1)
    } else if motor == 1 {
        (-1, -1, 1)
    } else if motor == 2 {
        (1, -1, -1)
    } else {
        (-1, 1, -1)
    }
}

/// Rotors that all pull alike turn the body about no axis.
pub proof fn lemma_equal_thrust_is_balanced()
    ensures
        arm_sign(0, 0) + arm_sign(1, 0) + arm_sign(2, 0) + arm_sign(3, 0) == 0,
        arm_sign(0, 1) + arm_sign(1, 1) + arm_sign(2, 1) + arm_sign(3, 1) == 0,
        spin_sign(0) + spin_sign(1) + spin_sign(2) + spin_sign(3) == 0,
{
}

/// Each axis of a demand drives its own axis of the body and no other: roll the sum over the arms to
/// the right, pitch that over the arms forward, yaw that over the spins, each four times, with the
/// throttles of the mixer taken twice.
pub proof fn lemma_demand_drives_its_axis(demand: Seq<int>)
    requires
        demand.len() == 4,
    ensures
        crate::allocation::sum4(
            |m: int| arm_sign(m, 1) * crate::allocation::doubled_throttle(demand, m),
        ) == 4 * demand[1],
        crate::allocation::sum4(
            |m: int| arm_sign(m, 0) * crate::allocation::doubled_throttle(demand, m),
        ) == 4 * demand[2],
        crate::allocation::sum4(
            |m: int| spin_sign(m) * crate::allocation::doubled_throttle(demand, m),
        ) == 4 * demand[3],
{
    crate::allocation::lemma_mixer_inverse(demand);
    let t0 = crate::allocation::doubled_throttle(demand, 0);
    let t1 = crate::allocation::doubled_throttle(demand, 1);
    let t2 = crate::allocation::doubled_throttle(demand, 2);
    let t3 = crate::allocation::doubled_throttle(demand, 3);
    assert(1 * t0 == t0 && 1 * t1 == t1 && 1 * t2 == t2 && 1 * t3 == t3 && (-1) * t1 == -t1 && (-1)
        * t2 == -t2 && (-1) * t3 == -t3) by (nonlinear_arith);
}

/// The transform of a body among those of all bodies, one after the other.
pub fn read_body_tf(buf: &[Float64], id: usize) -> (r: [Float64; 7])
    requires
        (id + 1) * 7 <= buf@.len(),
    ensures
        forall|k: int| 0 <= k < 7 ==> #[trigger] r[k] == buf@[id * 7 + k],
{
    assert(buf.len() == buf@.len());
    let off: usize = id * 7;
    [
        buf[off],
        buf[off + 1],
        buf[off + 2],
        buf[off + 3],
        buf[off + 4],
        buf[off + 5],
        buf[off + 6],
    ]
}

/// A vector that was divided by its length, or none where the length is too small.
pub fn unit_or_zero(length: Float64, unit: [Float64; 3]) -> (r: [Float64; 3])
    ensures
        !length.less(Float64::from_bits(NO_LENGTH)) ==> r == unit,
        length.less(Float64::from_bits(NO_LENGTH)) ==> forall|k: int|
            0 <= k < 3 ==> #[trigger] r[k] == Float64::from_bits(0),
{
    if length.lt(Float64::from_bits(NO_LENGTH)) {
        let zero: Float64 = Float64::from_bits(0);
        [zero, zero, zero]
    } else {
        unit
    }
}

/// Motors that turn alike stand across from each other; the first stands ahead and to the right.
pub proof fn lemma_motors_across(i: int, j: int)
    requires
        0 <= i < 4,
        0 <= j < 4,
        i != j,
    ensures
        spin_sign(i) == spin_sign(j) <==> arm_sign(i, 0) == -arm_sign(j, 0) && arm_sign(i, 1)
            == -arm_sign(j, 1),
        arm_sign(i, 0) != arm_sign(j, 0) || arm_sign(i, 1) != arm_sign(j, 1),
        i == 0 ==> arm_sign(i, 0) == 1 && arm_sign(i, 1) == 1 && spin_sign(i) == 1,
{
}

/// What the constants of this module are worth.
pub proof fn lemma_measures()
    ensures
        crate::ieee::is_ratio64(Float64::from_bits(TROPOPAUSE), 11000, 1),
        crate::ieee::is_ratio64(Float64::from_bits(NO_LENGTH), 1, 1000000000),
{
    assert(crate::ieee::is_ratio64(Float64::from_bits(TROPOPAUSE), 11000, 1)) by {
        vstd::arithmetic::power2::lemma2_to64_rest();
        crate::ieee::lemma_ratio64(Float64::from_bits(TROPOPAUSE), 11000, 1, 39);
    }
    assert(crate::ieee::is_ratio64(Float64::from_bits(NO_LENGTH), 1, 1000000000)) by {
        vstd::arithmetic::power2::lemma2_to64();
        crate::ieee::lemma_halvings();
        crate::ieee::lemma_ratio64(Float64::from_bits(NO_LENGTH), 1, 1000000000, 82);
    }
}

} // verus!
