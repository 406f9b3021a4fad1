//! Comparing an estimate with the truth: what is counted, what is kept, and when a response has
//! settled.
//!
//! Differences, squares and sums are computed by the caller in floating point; each accumulator is
//! given its next sums and decides whether to take them.

use crate::ieee::{Float32, Float64};
use vstd::prelude::*;

verus! {

/// One, as a bit pattern.
pub const ONE: u32 = 0x3F80_0000;

pub const INFINITY: u32 = 0x7F80_0000;

pub const MINUS_INFINITY: u32 = 0xFF80_0000;

/// One hundred and eighty.
pub const HALF_TURN: u32 = 0x4334_0000;

pub const MINUS_HALF_TURN: u32 = 0xC334_0000;

/// Two to the power of twenty-seven: up to here, whole turns are taken off an angle without any
/// rounding.
pub const GREAT_ANGLE: u32 = 0x4D00_0000;

/// Half a turn, in units of the last place of the least angle beyond it.
const HALF_TURN_UNITS: u64 = 0xB4_0000;

/// A turn, in the same units.
const TURN_UNITS: u64 = 0x168_0000;

/// One millionth: a rate below it is no measure for an error.
pub const LEAST_RATE: u32 = 0x3586_37BD;

/// One billionth: the least size of a step.
pub const LEAST_STEP: u32 = 0x3089_705F;

/// 999 thousandths: a command from here on is at its upper limit.
pub const UPPER_LIMIT: u32 = 0x3F7F_BE77;

/// One thousandth: a command up to here is at its lower limit.
pub const LOWER_LIMIT: u32 = 0x3A83_126F;

/// The errors that [`PosVelMetrics`] keeps for the end of a run.
pub const TAIL_CAP: usize = 2048;

/// The greatest of the entries of `s` and `start`; an entry that is no number counts for nothing.
pub open spec fn top_of(start: Float32, s: Seq<Float32>) -> Float32
    decreases s.len(),
{
    if s.len() == 0 {
        start
    } else {
        top_of(start, s.drop_last()).greater_of(s.last())
    }
}

/// The least of the entries of `s` and `start`; an entry that is no number counts for nothing.
pub open spec fn bottom_of(start: Float32, s: Seq<Float32>) -> Float32
    decreases s.len(),
{
    if s.len() == 0 {
        start
    } else {
        bottom_of(start, s.drop_last()).lesser_of(s.last())
    }
}

/// No entry that is a number is above the top or below the bottom, and each of the two is an entry
/// or what the search started from.
pub proof fn lemma_extent(top: Float32, bottom: Float32, s: Seq<Float32>)
    requires
        !top.nan(),
        !bottom.nan(),
    ensures
        !top_of(top, s).nan(),
        !bottom_of(bottom, s).nan(),
        top.rank() <= top_of(top, s).rank(),
        bottom_of(bottom, s).rank() <= bottom.rank(),
        top_of(top, s) == top || s.contains(top_of(top, s)),
        bottom_of(bottom, s) == bottom || s.contains(bottom_of(bottom, s)),
        forall|i: int|
            0 <= i < s.len() && !(#[trigger] s[i]).nan() ==> s[i].rank() <= top_of(top, s).rank()
                && bottom_of(bottom, s).rank() <= s[i].rank(),
    decreases s.len(),
{
    if s.len() > 0 {
        let t = s.drop_last();
        lemma_extent(top, bottom, t);
        let a = top_of(top, t);
        let b = bottom_of(bottom, t);
        if t.contains(a) {
            let k = choose|k: int| 0 <= k < t.len() && t[k] == a;
            assert(s[k] == a);
        }
        if t.contains(b) {
            let k = choose|k: int| 0 <= k < t.len() && t[k] == b;
            assert(s[k] == b);
        }
        assert(s[s.len() - 1] == s.last());
        assert forall|i: int| 0 <= i < s.len() && !(#[trigger] s[i]).nan() implies s[i].rank()
            <= top_of(top, s).rank() && bottom_of(bottom, s).rank() <= s[i].rank() by {
            if i < t.len() {
                assert(t[i] == s[i]);
            }
        }
    }
}

pub fn top(start: Float32, s: &[Float32]) -> (r: Float32)
    ensures
        r == top_of(start, s@),
{
    let mut best: Float32 = start;
    let mut i: usize = 0;
    while i < s.len()
        invariant
            i <= s@.len(),
            best == top_of(start, s@.take(i as int)),
        decreases s@.len() - i,
    {
        assert(s@.take(i + 1).drop_last() =~= s@.take(i as int));
        best = best.max(s[i]);
        i += 1;
    }
    assert(s@.take(i as int) =~= s@);
    best
}

pub fn bottom(start: Float32, s: &[Float32]) -> (r: Float32)
    ensures
        r == bottom_of(start, s@),
{
    let mut best: Float32 = start;
    let mut i: usize = 0;
    while i < s.len()
        invariant
            i <= s@.len(),
            best == bottom_of(start, s@.take(i as int)),
        decreases s@.len() - i,
    {
        assert(s@.take(i + 1).drop_last() =~= s@.take(i as int));
        best = best.min(s[i]);
        i += 1;
    }
    assert(s@.take(i as int) =~= s@);
    best
}

/// The cosine of half the angle between two attitudes, from the dot product of their quaternions:
/// none where the product is not finite. The two quaternions of an attitude give the same.
pub open spec fn half_angle_cosine_of(dot: Float32) -> Option<Float32> {
    if !dot.finite() {
        None
    } else {
        let folded = if dot.less(Float32::from_bits(0)) {
            dot.negated()
        } else {
            dot
        };
        Some(folded.lesser_of(Float32::from_bits(ONE)))
    }
}

pub fn half_angle_cosine(dot: Float32) -> (r: Option<Float32>)
    ensures
        r == half_angle_cosine_of(dot),
{
    if !dot.is_finite() {
        None
    } else {
        let folded: Float32 = if dot.lt(Float32::from_bits(0)) {
            dot.neg()
        } else {
            dot
        };
        Some(folded.min(Float32::from_bits(ONE)))
    }
}

/// A quaternion and its opposite stand for one attitude: the sign of the dot product makes no
/// difference to the angle; and the cosine is one that an angle can be taken of.
pub proof fn lemma_double_cover(dot: Float32)
    ensures
        half_angle_cosine_of(dot) is Some <==> half_angle_cosine_of(dot.negated()) is Some,
        half_angle_cosine_of(dot) matches Some(c) ==> {
            &&& half_angle_cosine_of(dot.negated()).unwrap().rank() == c.rank()
            &&& Float32::from_bits(0).at_most(c)
            &&& c.at_most(Float32::from_bits(ONE))
        },
{
}

/// What brings an angle, in degrees, closer to the range of half a turn to either side.
#[derive(Clone, Copy, Debug, PartialEq, Eq, Structural)]
pub enum WrapStep {
    /// Take a turn off.
    Down,
    /// Put a turn on.
    Up,
    Done,
}

pub fn wrap_step(d: Float32) -> (r: WrapStep)
    ensures
        r == if Float32::from_bits(HALF_TURN).less(d) {
            WrapStep::Down
        } else if d.less(Float32::from_bits(MINUS_HALF_TURN)) {
            WrapStep::Up
        } else {
            WrapStep::Done
        },
{
    if Float32::from_bits(HALF_TURN).lt(d) {
        WrapStep::Down
    } else if d.lt(Float32::from_bits(MINUS_HALF_TURN)) {
        WrapStep::Up
    } else {
        WrapStep::Done
    }
}

/// `r` is the angle `d`, in degrees, less whole turns, and within half a turn to either side. At
/// exactly half a turn it lies on the side of `d`.
pub open spec fn within_half_turn(d: Float32, r: Float32) -> bool {
    let half = Float32::from_bits(HALF_TURN).value();
    &&& r.finite()
    &&& -half <= r.value() <= half
    &&& (d.value() - r.value()) % (2 * half) == 0
    &&& r.value() == half ==> d.value() > 0
    &&& r.value() == -half ==> d.value() < 0
}

proof fn lemma_units(d: Float32)
    requires
        134 <= d.exponent() <= 153,
    ensures
        d.magnitude() == (0x80_0000 + d.fraction()) * vstd::arithmetic::power2::pow2(
            (d.exponent() - 134) as nat,
        ) * vstd::arithmetic::power2::pow2(133),
        Float32::from_bits(HALF_TURN).value() == HALF_TURN_UNITS
            * vstd::arithmetic::power2::pow2(133),
{
    let m = 0x80_0000 + d.fraction();
    let e = (d.exponent() - 134) as nat;
    let p = vstd::arithmetic::power2::pow2(e) as int;
    let q = vstd::arithmetic::power2::pow2(133) as int;
    vstd::arithmetic::power2::lemma_pow2_adds(e, 133);
    assert(m * (p * q) == m * p * q) by (nonlinear_arith);
    let half = Float32::from_bits(HALF_TURN);
    assert(half.exponent() == 134);
    assert(half.fraction() == 0x34_0000);
}

/// The number of these units, up to half a turn of them, with a sign.
fn from_units(units: u64, minus: bool) -> (r: Float32)
    requires
        units <= HALF_TURN_UNITS,
    ensures
        r.finite(),
        r.value() == (if minus {
            -units
        } else {
            units as int
        }) * vstd::arithmetic::power2::pow2(133),
        units == 0 ==> r == Float32::from_bits(0),
{
    let ghost p133 = vstd::arithmetic::power2::pow2(133) as int;
    if units == 0 {
        assert(Float32::from_bits(0).value() == 0);
        assert(-0 * p133 == 0 && 0 * p133 == 0) by (nonlinear_arith);
        return Float32::from_bits(0);
    }
    let mut m: u32 = units as u32;
    let mut e: u32 = 134;
    proof {
        vstd::arithmetic::power2::lemma2_to64();
        assert(units * 1 == units) by (nonlinear_arith);
    }
    while m < 0x80_0000
        invariant
            0 < m < 0x100_0000,
            0 < units,
            111 <= e <= 134,
            m == units * vstd::arithmetic::power2::pow2((134 - e) as nat),
        decreases 0x100_0000 - m,
    {
        proof {
            let k = (134 - e) as nat;
            let p = vstd::arithmetic::power2::pow2(k) as int;
            vstd::arithmetic::power2::lemma_pow2_pos(k);
            vstd::arithmetic::power2::lemma2_to64();
            assert(p <= units * p) by (nonlinear_arith)
                requires
                    units >= 1,
                    p >= 1,
            ;
            assert(e != 111);
            vstd::arithmetic::power2::lemma_pow2_unfold(k + 1);
            assert(2 * (units * p) == units * (2 * p)) by (nonlinear_arith);
        }
        m = m * 2;
        e = e - 1;
    }
    let payload: u32 = e * 0x80_0000 + (m - 0x80_0000);
    let r: Float32 = if minus {
        Float32::from_bits(0x8000_0000 + payload)
    } else {
        Float32::from_bits(payload)
    };
    proof {
        let k = (134 - e) as nat;
        let p = vstd::arithmetic::power2::pow2(k) as int;
        let q = vstd::arithmetic::power2::pow2((e - 1) as nat) as int;
        assert(r.payload() == payload);
        assert(r.exponent() == e);
        assert(r.fraction() == m - 0x80_0000);
        assert(r.magnitude() == m * q);
        vstd::arithmetic::power2::lemma_pow2_adds(k, (e - 1) as nat);
        assert(units * p * q == units * (p * q)) by (nonlinear_arith);
        assert(-(units * p133) == (-units) * p133) by (nonlinear_arith);
    }
    r
}

/// Takes whole turns off an angle, in degrees, until it lies within half a turn to either side. One
/// that does so already, or that is no number, stays as it is. From [`GREAT_ANGLE`] on there is no
/// result: an angle so great is known no better than to some degrees.
pub fn wrap_degrees(d: Float32) -> (r: Option<Float32>)
    ensures
        match r {
            Some(x) => if Float32::from_bits(HALF_TURN).less(d) || d.less(
                Float32::from_bits(MINUS_HALF_TURN),
            ) {
                &&& d.absolute().less(Float32::from_bits(GREAT_ANGLE))
                &&& within_half_turn(d, x)
                &&& x.value() == 0 ==> x == Float32::from_bits(0)
            } else {
                x == d
            },
            None => Float32::from_bits(GREAT_ANGLE).at_most(d.absolute()),
        },
{
    match wrap_step(d) {
        WrapStep::Done => {
            return Some(d);
        },
        _ => {},
    }
    let payload: u32 = d.bits % 0x8000_0000;
    if payload >= GREAT_ANGLE {
        return None;
    }
    let minus: bool = d.bits >= 0x8000_0000;
    let exponent: u32 = payload / 0x80_0000;
    let m: u64 = (0x80_0000 + payload % 0x80_0000) as u64;
    assert(134 <= d.exponent() <= 153);
    let mut n: u64 = m;
    let mut e: u32 = 134;
    proof {
        vstd::arithmetic::power2::lemma2_to64();
        assert(m * 1 == m) by (nonlinear_arith);
    }
    while e < exponent
        invariant
            134 <= e <= exponent <= 153,
            m < 0x100_0000,
            n == m * vstd::arithmetic::power2::pow2((e - 134) as nat),
        decreases exponent - e,
    {
        proof {
            let k = (e - 134) as nat;
            let p = vstd::arithmetic::power2::pow2(k) as int;
            vstd::arithmetic::power2::lemma2_to64();
            if k < 19 {
                vstd::arithmetic::power2::lemma_pow2_strictly_increases(k, 19);
            }
            assert(m * p < 0x100_0000 * 0x8_0000) by (nonlinear_arith)
                requires
                    0 <= m < 0x100_0000,
                    0 < p <= 0x8_0000,
            ;
            vstd::arithmetic::power2::lemma_pow2_unfold(k + 1);
            assert(2 * (m * p) == m * (2 * p)) by (nonlinear_arith);
        }
        n = n * 2;
        e = e + 1;
    }
    let rest: u64 = n % TURN_UNITS;
    let r: Float32 = if rest <= HALF_TURN_UNITS {
        from_units(rest, minus)
    } else {
        from_units(TURN_UNITS - rest, !minus)
    };
    proof {
        lemma_units(d);
        let unit = vstd::arithmetic::power2::pow2(133) as int;
        vstd::arithmetic::power2::lemma_pow2_pos(133);
        let turns = (n / TURN_UNITS) as int;
        let half = Float32::from_bits(HALF_TURN);
        let minus_half = Float32::from_bits(MINUS_HALF_TURN);
        crate::ieee::lemma_rank32_orders_values(d, half);
        crate::ieee::lemma_rank32_orders_values(d, minus_half);
        assert(minus_half.payload() == half.payload());
        assert(d.magnitude() == n * unit);
        assert(n > HALF_TURN_UNITS) by (nonlinear_arith)
            requires
                n * unit > HALF_TURN_UNITS * unit,
                unit > 0,
        ;
        assert((-n) * unit == -(n * unit)) by (nonlinear_arith);
        lemma_turned(d, r, n as int, rest as int, turns, unit);
        if r.value() == 0 {
            assert(rest == 0) by (nonlinear_arith)
                requires
                    0 <= rest < TURN_UNITS,
                    rest * unit == 0 || (-rest) * unit == 0 || (TURN_UNITS - rest) * unit == 0
                        || (rest - TURN_UNITS) * unit == 0,
                    unit > 0,
            ;
        }
    }
    Some(r)
}

/// Counting in units, an angle less whole turns is within half a turn where the rest is taken from
/// the nearer end of the last turn.
proof fn lemma_turned(d: Float32, r: Float32, n: int, rest: int, turns: int, unit: int)
    requires
        unit > 0,
        n > HALF_TURN_UNITS,
        n == turns * TURN_UNITS + rest,
        0 <= rest < TURN_UNITS,
        d.value() == (if d.negative() {
            -n
        } else {
            n
        }) * unit,
        Float32::from_bits(HALF_TURN).value() == HALF_TURN_UNITS * unit,
        r.finite(),
        rest <= HALF_TURN_UNITS ==> r.value() == (if d.negative() {
            -rest
        } else {
            rest
        }) * unit,
        rest > HALF_TURN_UNITS ==> r.value() == (if d.negative() {
            TURN_UNITS - rest
        } else {
            rest - TURN_UNITS
        }) * unit,
    ensures
        within_half_turn(d, r),
{
    let half = HALF_TURN_UNITS * unit;
    let signed = if d.negative() {
        -n
    } else {
        n
    };
    let size = if rest <= HALF_TURN_UNITS {
        rest
    } else {
        rest - TURN_UNITS
    };
    let left = if d.negative() {
        -size
    } else {
        size
    };
    let taken = if rest <= HALF_TURN_UNITS {
        turns
    } else {
        turns + 1
    };
    let k = if d.negative() {
        -taken
    } else {
        taken
    };
    assert(signed - left == k * TURN_UNITS) by (nonlinear_arith)
        requires
            n == turns * TURN_UNITS + rest,
            size == rest && taken == turns || size == rest - TURN_UNITS && taken == turns + 1,
            signed == n && left == size && k == taken || signed == -n && left == -size && k
                == -taken,
    ;
    assert(signed * unit - left * unit == k * (2 * half)) by (nonlinear_arith)
        requires
            signed - left == k * TURN_UNITS,
            half == HALF_TURN_UNITS * unit,
            TURN_UNITS == 2 * HALF_TURN_UNITS,
    ;
    assert(-half <= left * unit <= half) by (nonlinear_arith)
        requires
            -(HALF_TURN_UNITS as int) <= left <= HALF_TURN_UNITS,
            half == HALF_TURN_UNITS * unit,
            unit > 0,
    ;
    assert(half > 0) by (nonlinear_arith)
        requires
            half == 0xB4_0000 * unit,
            unit > 0,
    ;
    vstd::arithmetic::div_mod::lemma_mod_multiples_basic(k, 2 * half);
    if left * unit == half {
        assert(left == HALF_TURN_UNITS) by (nonlinear_arith)
            requires
                left * unit == HALF_TURN_UNITS * unit,
                unit > 0,
        ;
        assert(n * unit > 0) by (nonlinear_arith)
            requires
                n > 0,
                unit > 0,
        ;
    }
    if left * unit == -half {
        assert(left == -(HALF_TURN_UNITS as int)) by (nonlinear_arith)
            requires
                left * unit == -(HALF_TURN_UNITS * unit),
                unit > 0,
        ;
        assert((-n) * unit < 0) by (nonlinear_arith)
            requires
                n > 0,
                unit > 0,
        ;
    }
}

/// A difference of angles that is taken the other way round gives the same angle within half a turn,
/// to the other side.
pub proof fn lemma_wrap_is_odd(d: Float32, r: Float32, s: Float32)
    requires
        within_half_turn(d, r),
        within_half_turn(d.negated(), s),
    ensures
        s.value() == -r.value(),
{
    let half = Float32::from_bits(HALF_TURN).value();
    let turn = 2 * half;
    assert(d.negated().magnitude() == d.magnitude()) by {
        assert(d.negated().payload() == d.payload());
    }
    crate::ieee::lemma_rank32_orders_values(Float32::from_bits(HALF_TURN), Float32::from_bits(0));
    assert(Float32::from_bits(0).value() == 0);
    assert(half > 0);
    let a = (d.value() - r.value()) / turn;
    let b = (-d.value() - s.value()) / turn;
    vstd::arithmetic::div_mod::lemma_fundamental_div_mod(d.value() - r.value(), turn);
    vstd::arithmetic::div_mod::lemma_fundamental_div_mod(-d.value() - s.value(), turn);
    let k = a + b;
    assert(-(r.value() + s.value()) == turn * k) by (nonlinear_arith)
        requires
            d.value() - r.value() == turn * a,
            -d.value() - s.value() == turn * b,
            k == a + b,
    ;
    assert(-1 <= k <= 1) by (nonlinear_arith)
        requires
            -turn <= turn * k <= turn,
            turn > 0,
    ;
    assert(turn * 1 == turn && turn * -1 == -turn && turn * 0 == 0) by (nonlinear_arith);
    if k == 1 {
        assert(r.value() == -half && s.value() == -half);
    } else if k == -1 {
        assert(r.value() == half && s.value() == half);
    }
}

/// The greater of a maximum so far and a new value; one that is no number changes nothing.
pub open spec fn raised(max: Float32, v: Float32) -> Float32 {
    if max.less(v) {
        v
    } else {
        max
    }
}

fn raise(max: Float32, v: Float32) -> (r: Float32)
    ensures
        r == raised(max, v),
{
    if max.lt(v) {
        v
    } else {
        max
    }
}

/// The error of an attitude.
#[derive(Clone, Copy, Debug, PartialEq, Eq)]
pub struct AttError {
    /// The angle between the two attitudes, in degrees.
    pub angle: Float32,
    /// The differences of roll, pitch and yaw, in degrees.
    pub axes: [Float32; 3],
    /// The sum of squares with this angle.
    pub sum_sq: Float64,
    /// The sums of squares with these differences.
    pub sum_sq_axis: [Float64; 3],
}

/// The errors of an attitude over a run.
#[derive(Clone, Copy, Debug, PartialEq, Eq)]
pub struct AttMetrics {
    pub n: u32,
    pub sum_sq: Float64,
    pub max_deg: Float32,
    pub last_deg: Float32,
    pub first_nan_step: Option<u32>,
    pub sum_sq_axis: [Float64; 3],
    pub max_axis: [Float32; 3],
}

impl Default for AttMetrics {
    fn default() -> (r: Self)
        ensures
            r.n == 0,
            r.sum_sq == Float64::from_bits(0),
            r.max_deg == Float32::from_bits(0),
            r.last_deg == Float32::from_bits(0),
            r.first_nan_step is None,
            forall|k: int| 0 <= k < 3 ==> #[trigger] r.sum_sq_axis[k] == Float64::from_bits(0),
            forall|k: int| 0 <= k < 3 ==> #[trigger] r.max_axis[k] == Float32::from_bits(0),
    {
        let zero: Float32 = Float32::from_bits(0);
        let none: Float64 = Float64::from_bits(0);
        AttMetrics {
            n: 0,
            sum_sq: none,
            max_deg: zero,
            last_deg: zero,
            first_nan_step: None,
            sum_sq_axis: [none, none, none],
            max_axis: [zero, zero, zero],
        }
    }
}

impl AttMetrics {
    /// Takes in the error of a step. One that is not finite is not counted, but the first step with
    /// such an error is remembered.
    pub fn push(&mut self, step: u32, e: AttError)
        requires
            e.angle.finite() ==> old(self).n < u32::MAX,
        ensures
            e.angle.finite() ==> {
                &&& final(self).n == old(self).n + 1
                &&& final(self).sum_sq == e.sum_sq
                &&& final(self).max_deg == raised(old(self).max_deg, e.angle)
                &&& final(self).last_deg == e.angle
                &&& final(self).first_nan_step == old(self).first_nan_step
                &&& final(self).sum_sq_axis == e.sum_sq_axis
                &&& forall|k: int|
                    0 <= k < 3 ==> #[trigger] final(self).max_axis[k] == raised(
                        old(self).max_axis[k],
                        e.axes[k].absolute(),
                    )
            },
            !e.angle.finite() ==> *final(self) == (AttMetrics {
                first_nan_step: if old(self).first_nan_step is None {
                    Some(step)
                } else {
                    old(self).first_nan_step
                },
                ..*old(self)
            }),
    {
        if !e.angle.is_finite() {
            match self.first_nan_step {
                Some(_) => {},
                None => {
                    self.first_nan_step = Some(step);
                },
            }
            return;
        }
        self.n = self.n + 1;
        self.sum_sq = e.sum_sq;
        self.max_deg = raise(self.max_deg, e.angle);
        self.last_deg = e.angle;
        self.sum_sq_axis = e.sum_sq_axis;
        self.max_axis = [
            raise(self.max_axis[0], e.axes[0].abs()),
            raise(self.max_axis[1], e.axes[1].abs()),
            raise(self.max_axis[2], e.axes[2].abs()),
        ];
    }

    pub fn max_deg(&self) -> (r: Float32)
        ensures
            r == self.max_deg,
    {
        self.max_deg
    }

    pub fn last_deg(&self) -> (r: Float32)
        ensures
            r == self.last_deg,
    {
        self.last_deg
    }

    pub fn count(&self) -> (r: u32)
        ensures
            r == self.n,
    {
        self.n
    }

    pub fn axis_max_deg(&self) -> (r: [Float32; 3])
        ensures
            r == self.max_axis,
    {
        self.max_axis
    }

    pub fn first_nan_step(&self) -> (r: Option<u32>)
        ensures
            r == self.first_nan_step,
    {
        self.first_nan_step
    }

    pub fn diverged(&self) -> (r: bool)
        ensures
            r == self.first_nan_step is Some,
    {
        self.first_nan_step.is_some()
    }
}

/// The errors of angular rates over a run.
#[derive(Clone, Copy, Debug, PartialEq, Eq, Structural)]
pub struct RateMetrics {
    pub n: u32,
    pub sum_sq: Float64,
    pub max_err: Float32,
    pub sum_sq_truth: Float64,
    pub max_truth: Float32,
}

/// Every component is finite.
pub open spec fn all_finite(v: Seq<Float32>) -> bool {
    forall|i: int| 0 <= i < v.len() ==> (#[trigger] v[i]).finite()
}

fn finite3(v: [Float32; 3]) -> (r: bool)
    ensures
        r == all_finite(v@),
{
    let r: bool = v[0].is_finite() && v[1].is_finite() && v[2].is_finite();
    assert(all_finite(v@) ==> v@[0].finite() && v@[1].finite() && v@[2].finite());
    r
}

impl Default for RateMetrics {
    fn default() -> (r: Self)
        ensures
            r == (RateMetrics {
                n: 0,
                sum_sq: Float64::from_bits(0),
                max_err: Float32::from_bits(0),
                sum_sq_truth: Float64::from_bits(0),
                max_truth: Float32::from_bits(0),
            }),
    {
        RateMetrics {
            n: 0,
            sum_sq: Float64::from_bits(0),
            max_err: Float32::from_bits(0),
            sum_sq_truth: Float64::from_bits(0),
            max_truth: Float32::from_bits(0),
        }
    }
}

impl RateMetrics {
    /// Takes in the rates of a step, with the magnitudes of their difference and of the true rate and
    /// the sums of squares with these. Rates that are not finite are passed over.
    pub fn push(
        &mut self,
        est: [Float32; 3],
        truth: [Float32; 3],
        err: Float32,
        rate: Float32,
        sum_sq: Float64,
        sum_sq_truth: Float64,
    )
        requires
            all_finite(est@) && all_finite(truth@) ==> old(self).n < u32::MAX,
        ensures
            *final(self) == if all_finite(est@) && all_finite(truth@) {
                RateMetrics {
                    n: (old(self).n + 1) as u32,
                    sum_sq,
                    max_err: raised(old(self).max_err, err),
                    sum_sq_truth,
                    max_truth: raised(old(self).max_truth, rate),
                }
            } else {
                *old(self)
            },
    {
        if !finite3(est) || !finite3(truth) {
            return;
        }
        self.n = self.n + 1;
        self.sum_sq = sum_sq;
        self.sum_sq_truth = sum_sq_truth;
        self.max_err = raise(self.max_err, err);
        self.max_truth = raise(self.max_truth, rate);
    }

    pub fn max_err(&self) -> (r: Float32)
        ensures
            r == self.max_err,
    {
        self.max_err
    }

    pub fn max_truth(&self) -> (r: Float32)
        ensures
            r == self.max_truth,
    {
        self.max_truth
    }

    /// The root mean square of the true rate is large enough to relate an error to it.
    pub fn rate_is_measure(rms_truth: Float32) -> (r: bool)
        ensures
            r == !rms_truth.less(Float32::from_bits(LEAST_RATE)),
    {
        !rms_truth.lt(Float32::from_bits(LEAST_RATE))
    }

    /// What the sum of the squares of the true rate is divided by: the count, but never zero.
    pub fn divisor(&self) -> (r: u32)
        ensures
            r == if self.n == 0 {
                1
            } else {
                self.n
            },
    {
        if self.n == 0 {
            1
        } else {
            self.n
        }
    }
}

/// How often the motors are at their limits.
#[derive(Clone, Copy, Debug, PartialEq, Eq, Structural)]
pub struct SatMetrics {
    pub n: u32,
    pub at_limit: u32,
    pub sum_abs_diff: Float64,
    pub max_abs_diff: Float32,
}

/// The greatest and the least of a list of numbers, with what is no number passed over.
pub open spec fn extent_of(s: Seq<Float32>) -> (Float32, Float32) {
    (
        top_of(Float32::from_bits(MINUS_INFINITY), s),
        bottom_of(Float32::from_bits(INFINITY), s),
    )
}

/// Some command is at a limit.
pub open spec fn saturated(motor: Seq<Float32>) -> bool {
    let (hi, lo) = extent_of(motor);
    Float32::from_bits(UPPER_LIMIT).at_most(hi) || lo.at_most(Float32::from_bits(LOWER_LIMIT))
}

/// The motors are at a limit exactly where one of them is.
pub proof fn lemma_saturated(motor: Seq<Float32>)
    ensures
        saturated(motor) <==> exists|i: int|
            0 <= i < motor.len() && (Float32::from_bits(UPPER_LIMIT).at_most(#[trigger] motor[i])
                || motor[i].at_most(Float32::from_bits(LOWER_LIMIT))),
{
    let top = Float32::from_bits(MINUS_INFINITY);
    let bottom = Float32::from_bits(INFINITY);
    lemma_extent(top, bottom, motor);
    let (hi, lo) = extent_of(motor);
    if Float32::from_bits(UPPER_LIMIT).at_most(hi) {
        let k = choose|k: int| 0 <= k < motor.len() && motor[k] == hi;
        assert(Float32::from_bits(UPPER_LIMIT).at_most(motor[k]));
    }
    if lo.at_most(Float32::from_bits(LOWER_LIMIT)) {
        let k = choose|k: int| 0 <= k < motor.len() && motor[k] == lo;
        assert(motor[k].at_most(Float32::from_bits(LOWER_LIMIT)));
    }
}

/// The greatest and the least of the commands of the motors.
pub fn motor_extent(motor: &[Float32; 4]) -> (r: (Float32, Float32))
    ensures
        r == extent_of(motor@),
{
    (
        top(Float32::from_bits(MINUS_INFINITY), motor),
        bottom(Float32::from_bits(INFINITY), motor),
    )
}

impl Default for SatMetrics {
    fn default() -> (r: Self)
        ensures
            r == (SatMetrics {
                n: 0,
                at_limit: 0,
                sum_abs_diff: Float64::from_bits(0),
                max_abs_diff: Float32::from_bits(0),
            }),
    {
        SatMetrics {
            n: 0,
            at_limit: 0,
            sum_abs_diff: Float64::from_bits(0),
            max_abs_diff: Float32::from_bits(0),
        }
    }
}

impl SatMetrics {
    /// There are no more steps at a limit than there are steps.
    pub open spec fn wf(self) -> bool {
        self.at_limit <= self.n
    }

    /// Takes in the commands of a step, with the difference of their greatest and least and the sum of
    /// such differences with this one.
    pub fn push(&mut self, motor: [Float32; 4], diff: Float32, sum_abs_diff: Float64)
        requires
            old(self).wf(),
            old(self).n < u32::MAX,
        ensures
            final(self).wf(),
            *final(self) == (SatMetrics {
                n: (old(self).n + 1) as u32,
                at_limit: if saturated(motor@) {
                    (old(self).at_limit + 1) as u32
                } else {
                    old(self).at_limit
                },
                sum_abs_diff,
                max_abs_diff: raised(old(self).max_abs_diff, diff),
            }),
    {
        let (hi, lo) = motor_extent(&motor);
        self.n = self.n + 1;
        if Float32::from_bits(UPPER_LIMIT).le(hi) || lo.le(Float32::from_bits(LOWER_LIMIT)) {
            self.at_limit = self.at_limit + 1;
        }
        self.sum_abs_diff = sum_abs_diff;
        self.max_abs_diff = raise(self.max_abs_diff, diff);
    }

    pub fn max_diff(&self) -> (r: Float32)
        ensures
            r == self.max_abs_diff,
    {
        self.max_abs_diff
    }
}

/// The errors of a position and a velocity.
#[derive(Clone, Copy, Debug, PartialEq, Eq, Structural)]
pub struct PosVelError {
    pub pos: Float32,
    pub vel: Float32,
    pub horizontal: Float32,
    /// Signed.
    pub vertical: Float32,
    /// The sums of squares with these errors.
    pub pos_sq: Float64,
    pub vel_sq: Float64,
    pub h_sq: Float64,
    pub v_sq: Float64,
}

/// The errors of position and velocity over a run.
#[derive(Clone, Debug)]
pub struct PosVelMetrics {
    pub n: u32,
    pub pos_sq: Float64,
    pub vel_sq: Float64,
    pub pos_max: Float32,
    pub vel_max: Float32,
    pub h_sq: Float64,
    pub h_max: Float32,
    pub v_sq: Float64,
    pub v_max: Float32,
    pub nonfinite: Option<u32>,
    /// The last errors of position, up to [`TAIL_CAP`] of them.
    pub tail_ring: Vec<Float32>,
}

/// The errors of a controlled quantity against its set point: the same, with another reference.
pub type TrackMetrics = PosVelMetrics;

impl Default for PosVelMetrics {
    fn default() -> (r: Self)
        ensures
            r.blank(),
    {
        PosVelMetrics::new()
    }
}

impl PosVelMetrics {
    /// Nothing has been taken in.
    pub open spec fn blank(self) -> bool {
        &&& self.n == 0
        &&& self.pos_sq == Float64::from_bits(0) && self.vel_sq == Float64::from_bits(0)
        &&& self.h_sq == Float64::from_bits(0) && self.v_sq == Float64::from_bits(0)
        &&& self.pos_max == Float32::from_bits(0) && self.vel_max == Float32::from_bits(0)
        &&& self.h_max == Float32::from_bits(0) && self.v_max == Float32::from_bits(0)
        &&& self.nonfinite is None
        &&& self.tail_ring@ == Seq::<Float32>::empty()
    }

    pub fn new() -> (r: Self)
        ensures
            r.blank(),
    {
        let zero: Float32 = Float32::from_bits(0);
        let none: Float64 = Float64::from_bits(0);
        PosVelMetrics {
            n: 0,
            pos_sq: none,
            vel_sq: none,
            pos_max: zero,
            vel_max: zero,
            h_sq: none,
            h_max: zero,
            v_sq: none,
            v_max: zero,
            nonfinite: None,
            tail_ring: Vec::new(),
        }
    }

    /// No more errors are kept than there is room for.
    pub open spec fn wf(self) -> bool {
        self.tail_ring@.len() <= TAIL_CAP
    }

    /// Takes in the state of a step and its errors. A state that is not finite is passed over, but the
    /// first such step is remembered.
    pub fn push(
        &mut self,
        est_p: [Float32; 3],
        est_v: [Float32; 3],
        true_p: [Float32; 3],
        true_v: [Float32; 3],
        e: PosVelError,
    )
        requires
            old(self).wf(),
            all_finite(est_p@) && all_finite(est_v@) && all_finite(true_p@) && all_finite(true_v@)
                ==> old(self).n < u32::MAX,
        ensures
            final(self).wf(),
            ({
                let ok = all_finite(est_p@) && all_finite(est_v@) && all_finite(true_p@)
                    && all_finite(true_v@);
                &&& ok ==> {
                    &&& final(self).n == old(self).n + 1
                    &&& final(self).pos_sq == e.pos_sq
                    &&& final(self).vel_sq == e.vel_sq
                    &&& final(self).h_sq == e.h_sq
                    &&& final(self).v_sq == e.v_sq
                    &&& final(self).pos_max == raised(old(self).pos_max, e.pos)
                    &&& final(self).vel_max == raised(old(self).vel_max, e.vel)
                    &&& final(self).h_max == raised(old(self).h_max, e.horizontal)
                    &&& final(self).v_max == raised(old(self).v_max, e.vertical.absolute())
                    &&& final(self).nonfinite == old(self).nonfinite
                    &&& final(self).tail_ring@ == crate::sensor::newest(
                        old(self).tail_ring@.push(e.pos),
                        TAIL_CAP as int,
                    )
                }
                &&& !ok ==> *final(self) == (PosVelMetrics {
                    nonfinite: if old(self).nonfinite is None {
                        Some(old(self).n)
                    } else {
                        old(self).nonfinite
                    },
                    ..*old(self)
                })
            }),
    {
        if !finite3(est_p) || !finite3(est_v) || !finite3(true_p) || !finite3(true_v) {
            match self.nonfinite {
                Some(_) => {},
                None => {
                    self.nonfinite = Some(self.n);
                },
            }
            return;
        }
        self.n = self.n + 1;
        self.pos_sq = e.pos_sq;
        self.vel_sq = e.vel_sq;
        self.h_sq = e.h_sq;
        self.v_sq = e.v_sq;
        self.pos_max = raise(self.pos_max, e.pos);
        self.vel_max = raise(self.vel_max, e.vel);
        self.h_max = raise(self.h_max, e.horizontal);
        self.v_max = raise(self.v_max, e.vertical.abs());
        if self.tail_ring.len() >= TAIL_CAP {
            let gone: Float32 = self.tail_ring.remove(0);
        }
        self.tail_ring.push(e.pos);
        assert(self.tail_ring@ =~= crate::sensor::newest(
            old(self).tail_ring@.push(e.pos),
            TAIL_CAP as int,
        ));
    }

    pub fn count(&self) -> (r: u32)
        ensures
            r == self.n,
    {
        self.n
    }

    pub fn pos_max(&self) -> (r: Float32)
        ensures
            r == self.pos_max,
    {
        self.pos_max
    }

    pub fn vel_max(&self) -> (r: Float32)
        ensures
            r == self.vel_max,
    {
        self.vel_max
    }

    /// The greatest of the errors that are kept.
    pub fn tail_pos_peak(&self) -> (r: Float32)
        ensures
            r == top_of(Float32::from_bits(0), self.tail_ring@),
    {
        top(Float32::from_bits(0), self.tail_ring.as_slice())
    }

    pub fn diverged(&self) -> (r: bool)
        ensures
            r == self.nonfinite is Some,
    {
        self.nonfinite.is_some()
    }
}

/// The response of a quantity to a step.
#[derive(Clone, Debug)]
pub struct StepTrace {
    pub dt: Float32,
    pub y0: Float32,
    pub target: Float32,
    /// The width of the band, as a fraction of the step.
    pub tol_frac: Float32,
    pub y: Vec<Float32>,
    pub nonfinite: Option<u32>,
}

/// The last `n / div` of `n` samples, but at least one.
pub open spec fn tail_count(n: int, div: int) -> int {
    if n / div == 0 {
        1
    } else {
        n / div
    }
}

impl StepTrace {
    pub fn new(dt: Float32, y0: Float32, target: Float32, tol_frac: Float32) -> (r: Self)
        ensures
            r.dt == dt,
            r.y0 == y0,
            r.target == target,
            r.tol_frac == tol_frac,
            r.y@ == Seq::<Float32>::empty(),
            r.nonfinite is None,
    {
        StepTrace { dt, y0, target, tol_frac, y: Vec::new(), nonfinite: None }
    }

    /// Takes in a sample. The number of the first one that is not finite is remembered, as far as it
    /// fits into 32 bits.
    pub fn push(&mut self, y: Float32)
        ensures
            final(self).y@ == old(self).y@.push(y),
            final(self).nonfinite == if !y.finite() && old(self).nonfinite is None {
                Some((old(self).y@.len() % 0x1_0000_0000) as u32)
            } else {
                old(self).nonfinite
            },
            final(self).dt == old(self).dt,
            final(self).y0 == old(self).y0,
            final(self).target == old(self).target,
            final(self).tol_frac == old(self).tol_frac,
    {
        if !y.is_finite() {
            match self.nonfinite {
                Some(_) => {},
                None => {
                    let count: u64 = self.y.len() as u64;
                    assert(count as u32 == count % 0x1_0000_0000) by (bit_vector);
                    self.nonfinite = Some(count as u32);
                },
            }
        }
        self.y.push(y);
    }

    /// The step goes up, or nowhere.
    pub open spec fn rising(self) -> bool {
        self.y0.at_most(self.target)
    }

    pub fn is_rising(&self) -> (r: bool)
        ensures
            r == self.rising(),
    {
        self.y0.le(self.target)
    }

    /// The samples, turned so that the step goes up.
    pub open spec fn upward(self) -> Seq<Float32> {
        Seq::new(
            self.y@.len(),
            |i: int|
                if self.rising() {
                    self.y@[i]
                } else {
                    self.y@[i].negated()
                },
        )
    }

    /// The sample that goes furthest in the direction of the step; none without samples.
    pub open spec fn peak_of(self) -> Option<Float32> {
        if self.y@.len() == 0 {
            None
        } else {
            let furthest = top_of(Float32::from_bits(MINUS_INFINITY), self.upward());
            Some(
                if self.rising() {
                    furthest
                } else {
                    furthest.negated()
                },
            )
        }
    }

    pub fn peak(&self) -> (r: Option<Float32>)
        ensures
            r == self.peak_of(),
    {
        if self.y.len() == 0 {
            return None;
        }
        let up: bool = self.is_rising();
        let mut best: Float32 = Float32::from_bits(MINUS_INFINITY);
        let mut i: usize = 0;
        let ghost all = self.upward();
        while i < self.y.len()
            invariant
                i <= self.y@.len(),
                up == self.rising(),
                all == self.upward(),
                best == top_of(Float32::from_bits(MINUS_INFINITY), all.take(i as int)),
            decreases self.y@.len() - i,
        {
            proof {
                assert(all.take(i + 1).drop_last() =~= all.take(i as int));
            }
            let v: Float32 = if up {
                self.y[i]
            } else {
                self.y[i].neg()
            };
            best = best.max(v);
            i += 1;
        }
        assert(all.take(i as int) =~= all);
        Some(
            if up {
                best
            } else {
                best.neg()
            },
        )
    }

    /// What is to be subtracted from what, for how far the response goes beyond its target in the
    /// direction of the step: the target from the peak of a step up, and the peak from the target of a
    /// step down. None without samples.
    pub open spec fn overshoot_of(self) -> Option<(Float32, Float32)> {
        match self.peak_of() {
            None => None,
            Some(peak) => Some(
                if self.rising() {
                    (peak, self.target)
                } else {
                    (self.target, peak)
                },
            ),
        }
    }

    pub fn overshoot(&self) -> (r: Option<(Float32, Float32)>)
        ensures
            r == self.overshoot_of(),
    {
        match self.peak() {
            None => None,
            Some(peak) => Some(
                if self.is_rising() {
                    (peak, self.target)
                } else {
                    (self.target, peak)
                },
            ),
        }
    }

    /// The number of samples at the end of the trace that a mean or an extent of its last part is
    /// taken over.
    pub fn tail_len(&self, div: usize) -> (r: usize)
        requires
            div > 0,
        ensures
            r == tail_count(self.y@.len() as int, div as int),
            self.y@.len() > 0 ==> 1 <= r <= self.y@.len(),
    {
        let k: usize = self.y.len() / div;
        proof {
            let n = self.y@.len() as int;
            let d = div as int;
            assert(n / d <= n) by (nonlinear_arith)
                requires
                    n >= 0,
                    d >= 1,
            ;
        }
        if k == 0 {
            1
        } else {
            k
        }
    }

    /// The extent of the last quarter of the trace; none without samples.
    pub fn tail_extent(&self) -> (r: Option<(Float32, Float32)>)
        ensures
            r == if self.y@.len() == 0 {
                None
            } else {
                let n = self.y@.len() as int;
                Some(extent_of(self.y@.subrange(n - tail_count(n, 4), n)))
            },
    {
        let n: usize = self.y.len();
        if n == 0 {
            return None;
        }
        let k: usize = self.tail_len(4);
        let tail: &[Float32] = vstd::slice::slice_subrange(self.y.as_slice(), n - k, n);
        Some(
            (
                top(Float32::from_bits(MINUS_INFINITY), tail),
                bottom(Float32::from_bits(INFINITY), tail),
            ),
        )
    }

    pub fn diverged(&self) -> (r: bool)
        ensures
            r == self.nonfinite is Some,
    {
        self.nonfinite.is_some()
    }

    pub fn first_nonfinite(&self) -> (r: Option<u32>)
        ensures
            r == self.nonfinite,
    {
        self.nonfinite
    }
}

/// A response overshoots, up or down, where one of its samples lies beyond the target in the
/// direction of the step, and only there.
pub proof fn lemma_overshoot(t: StepTrace)
    requires
        t.y@.len() > 0,
    ensures
        t.overshoot_of() matches Some((far, near)) && (near.less(far) <==> exists|i: int|
            0 <= i < t.y@.len() && (if t.rising() {
                t.target.less(#[trigger] t.y@[i])
            } else {
                t.y@[i].less(t.target)
            })),
{
    let start = Float32::from_bits(MINUS_INFINITY);
    let all = t.upward();
    let furthest = top_of(start, all);
    lemma_extent(start, start, all);
    assert(all.len() == t.y@.len());
    assert forall|i: int|
        0 <= i < t.y@.len() && !(#[trigger] t.y@[i]).nan() implies all[i].rank()
        <= furthest.rank() by {
        assert(!all[i].nan());
    }
    if all.contains(furthest) {
        let k = choose|k: int| 0 <= k < all.len() && all[k] == furthest;
        assert(t.y@[k] == if t.rising() {
            furthest
        } else {
            furthest.negated()
        });
    }
}

/// The size of a step as a divisor: never nothing.
pub fn step_size(distance: Float32) -> (r: Float32)
    ensures
        r == distance.greater_of(Float32::from_bits(LEAST_STEP)),
        Float32::from_bits(LEAST_STEP).at_most(r),
{
    distance.max(Float32::from_bits(LEAST_STEP))
}

/// What a response goes beyond its target by; one that does not reach it goes beyond it by nothing.
pub fn beyond(over: Float32) -> (r: Float32)
    ensures
        r == if over.at_most(Float32::from_bits(0)) {
            Float32::from_bits(0)
        } else {
            over
        },
{
    if over.le(Float32::from_bits(0)) {
        Float32::from_bits(0)
    } else {
        over
    }
}

/// The sample from which on a response stays in its band, from the distances of the samples to the
/// target: where it entered the band and left it no more.
pub fn settle_index(distances: &[Float32], tol: Float32) -> (r: Option<usize>)
    ensures
        match r {
            Some(s) => {
                &&& s < distances@.len()
                &&& forall|i: int| s <= i < distances@.len() ==> (#[trigger] distances@[i]).at_most(
                    tol,
                )
                &&& s > 0 ==> !distances@[s - 1].at_most(tol)
            },
            None => distances@.len() == 0 || !distances@.last().at_most(tol),
        },
{
    let n: usize = distances.len();
    let mut start: usize = n;
    while start > 0 && distances[start - 1].le(tol)
        invariant
            start <= n,
            n == distances@.len(),
            forall|i: int| start <= i < n ==> (#[trigger] distances@[i]).at_most(tol),
        decreases start,
    {
        start -= 1;
    }
    if start == n {
        None
    } else {
        Some(start)
    }
}

/// A response that has settled never leaves its band again, and settles at no earlier sample.
pub proof fn lemma_settled_once(distances: Seq<Float32>, tol: Float32, s: int, u: int)
    requires
        0 <= s < distances.len(),
        forall|i: int| s <= i < distances.len() ==> (#[trigger] distances[i]).at_most(tol),
        s > 0 ==> !distances[s - 1].at_most(tol),
        0 <= u < distances.len(),
        forall|i: int| u <= i < distances.len() ==> (#[trigger] distances[i]).at_most(tol),
    ensures
        s <= u,
{
    if u < s {
        assert(distances[s - 1].at_most(tol));
    }
}

/// The first sample that is within both of two distances.
pub fn first_within(a: &[Float32], tol_a: Float32, b: &[Float32], tol_b: Float32) -> (r: Option<
    usize,
>)
    requires
        a@.len() == b@.len(),
    ensures
        match r {
            Some(i) => {
                &&& i < a@.len()
                &&& a@[i as int].at_most(tol_a) && b@[i as int].at_most(tol_b)
                &&& forall|k: int|
                    0 <= k < i ==> !((#[trigger] a@[k]).at_most(tol_a) && b@[k].at_most(tol_b))
            },
            None => forall|k: int|
                0 <= k < a@.len() ==> !((#[trigger] a@[k]).at_most(tol_a) && b@[k].at_most(tol_b)),
        },
{
    let mut i: usize = 0;
    while i < a.len()
        invariant
            i <= a@.len(),
            a@.len() == b@.len(),
            forall|k: int|
                0 <= k < i ==> !((#[trigger] a@[k]).at_most(tol_a) && b@[k].at_most(tol_b)),
        decreases a@.len() - i,
    {
        if a[i].le(tol_a) && b[i].le(tol_b) {
            return Some(i);
        }
        i += 1;
    }
    None
}

/// The samples between the beginning and the end of a rise; none where one of the two was not
/// reached, or the end before the beginning.
pub fn rise_steps(begin: Option<usize>, end: Option<usize>) -> (r: Option<usize>)
    ensures
        r == match (begin, end) {
            (Some(a), Some(b)) => if a <= b {
                Some((b - a) as usize)
            } else {
                None
            },
            _ => None,
        },
{
    match (begin, end) {
        (Some(a), Some(b)) => if a <= b {
            Some(b - a)
        } else {
            None
        },
        _ => None,
    }
}

/// The cosine is what the dot product is worth without its sign, but never more than one; there is
/// none exactly where the product is not finite.
pub proof fn lemma_half_angle_cosine(dot: Float32)
    ensures
        half_angle_cosine_of(dot) is Some <==> dot.finite(),
        half_angle_cosine_of(dot) matches Some(c) ==> c.value() == if crate::number::size(
            dot.value(),
        ) < crate::ieee::one32() {
            crate::number::size(dot.value())
        } else {
            crate::ieee::one32()
        },
{
    let zero = Float32::from_bits(0);
    let one = Float32::from_bits(ONE);
    vstd::arithmetic::power2::lemma2_to64();
    crate::ieee::lemma_exact32(one, 1, 1, 23);
    crate::ieee::lemma_scale32(zero, zero);
    crate::ieee::lemma_signs32(dot);
    crate::ieee::lemma_order32(dot, zero);
    crate::ieee::lemma_extremes32(dot, one);
    crate::ieee::lemma_extremes32(dot.negated(), one);
}

/// A maximum is raised to what is worth more than it, and by nothing else.
pub proof fn lemma_raised(max: Float32, v: Float32)
    ensures
        raised(max, v) == max || raised(max, v) == v,
        max.nan() || v.nan() ==> raised(max, v) == max,
        !max.nan() && !v.nan() ==> {
            &&& raised(max, v).value() == if max.value() < v.value() {
                v.value()
            } else {
                max.value()
            }
            &&& v.value() <= max.value() ==> raised(max, v) == max
        },
{
    crate::ieee::lemma_order32(max, v);
}

/// Vectors are finite where none of their components is infinite or no number.
pub proof fn lemma_all_finite(v: Seq<Float32>)
    ensures
        all_finite(v) <==> forall|i: int|
            0 <= i < v.len() ==> !(#[trigger] v[i]).nan() && v[i].payload() != INFINITY,
{
    assert forall|i: int| 0 <= i < v.len() implies ((#[trigger] v[i]).finite() <==> !v[i].nan()
        && v[i].payload() != INFINITY) by {
        crate::ieee::lemma_signs32(v[i]);
    }
    if all_finite(v) {
        assert forall|i: int| 0 <= i < v.len() implies !(#[trigger] v[i]).nan() && v[i].payload()
            != INFINITY by {
            assert(v[i].finite());
        }
    }
}

/// The extent of a list with a number in it runs from the least to the greatest of its numbers.
pub proof fn lemma_extent_of(s: Seq<Float32>, k: int)
    requires
        0 <= k < s.len(),
        !s[k].nan(),
    ensures
        forall|i: int|
            0 <= i < s.len() && !(#[trigger] s[i]).nan() ==> extent_of(s).1.value() <= s[i].value()
                <= extent_of(s).0.value(),
        exists|i: int|
            0 <= i < s.len() && !(#[trigger] s[i]).nan() && s[i].value() == extent_of(s).0.value(),
        exists|i: int|
            0 <= i < s.len() && !(#[trigger] s[i]).nan() && s[i].value() == extent_of(s).1.value(),
{
    let least = Float32::from_bits(MINUS_INFINITY);
    let most = Float32::from_bits(INFINITY);
    lemma_extent(least, most, s);
    let (hi, lo) = extent_of(s);
    assert forall|i: int| 0 <= i < s.len() && !(#[trigger] s[i]).nan() implies lo.value()
        <= s[i].value() <= hi.value() by {
        crate::ieee::lemma_rank32_orders_values(s[i], hi);
        crate::ieee::lemma_rank32_orders_values(hi, s[i]);
        crate::ieee::lemma_rank32_orders_values(s[i], lo);
        crate::ieee::lemma_rank32_orders_values(lo, s[i]);
    }
    if s.contains(hi) {
        let i = choose|i: int| 0 <= i < s.len() && s[i] == hi;
        assert(!s[i].nan() && s[i].value() == hi.value());
    } else {
        assert(hi == least);
        assert(least.rank() <= s[k].rank());
        crate::ieee::lemma_rank32_orders_values(s[k], least);
        assert(!s[k].nan() && s[k].value() == hi.value());
    }
    if s.contains(lo) {
        let i = choose|i: int| 0 <= i < s.len() && s[i] == lo;
        assert(!s[i].nan() && s[i].value() == lo.value());
    } else {
        assert(lo == most);
        assert(s[k].rank() <= most.rank());
        crate::ieee::lemma_rank32_orders_values(s[k], most);
        assert(!s[k].nan() && s[k].value() == lo.value());
    }
}

/// A command is at a limit where it is worth no less than the upper one or no more than the lower.
pub proof fn lemma_command_at_limit(motor: Seq<Float32>)
    ensures
        saturated(motor) <==> exists|i: int|
            0 <= i < motor.len() && !(#[trigger] motor[i]).nan() && (motor[i].value()
                >= Float32::from_bits(UPPER_LIMIT).value() || motor[i].value() <= Float32::from_bits(
                LOWER_LIMIT,
            ).value()),
{
    lemma_saturated(motor);
    assert forall|i: int| 0 <= i < motor.len() implies ((Float32::from_bits(UPPER_LIMIT).at_most(
        #[trigger] motor[i],
    ) || motor[i].at_most(Float32::from_bits(LOWER_LIMIT))) <==> !motor[i].nan() && (motor[i].value()
        >= Float32::from_bits(UPPER_LIMIT).value() || motor[i].value() <= Float32::from_bits(
        LOWER_LIMIT,
    ).value())) by {
        crate::ieee::lemma_order32(Float32::from_bits(UPPER_LIMIT), motor[i]);
        crate::ieee::lemma_order32(motor[i], Float32::from_bits(LOWER_LIMIT));
    }
}

/// The last part of a trace is the share that was asked for, rounded down, and at least one sample.
pub proof fn lemma_tail_count(n: int, div: int)
    requires
        n > 0,
        div > 0,
    ensures
        1 <= tail_count(n, div) <= n,
        tail_count(n, div) * div <= n || tail_count(n, div) == 1,
        n < (tail_count(n, div) + 1) * div,
{
    let q = n / div;
    vstd::arithmetic::div_mod::lemma_fundamental_div_mod(n, div);
    assert(div * q == q * div && (q + 1) * div == q * div + div) by (nonlinear_arith);
    assert(q <= n) by (nonlinear_arith)
        requires
            q * div <= n,
            div >= 1,
            n > 0,
    ;
    assert(q >= 0) by (nonlinear_arith)
        requires
            n < (q + 1) * div,
            div > 0,
            n > 0,
    ;
}

/// A step goes up where its target is worth no less than what it starts from. Its peak is then the
/// greatest sample, and otherwise the least.
pub proof fn lemma_peak(t: StepTrace)
    requires
        t.y@.len() > 0,
        forall|i: int| 0 <= i < t.y@.len() ==> !(#[trigger] t.y@[i]).nan(),
    ensures
        t.rising() <==> !t.y0.nan() && !t.target.nan() && t.y0.value() <= t.target.value(),
        t.peak_of() matches Some(p) && {
            &&& exists|i: int| 0 <= i < t.y@.len() && (#[trigger] t.y@[i]).value() == p.value()
            &&& t.rising() ==> forall|i: int|
                0 <= i < t.y@.len() ==> (#[trigger] t.y@[i]).value() <= p.value()
            &&& !t.rising() ==> forall|i: int|
                0 <= i < t.y@.len() ==> p.value() <= (#[trigger] t.y@[i]).value()
        },
{
    crate::ieee::lemma_order32(t.y0, t.target);
    let up = t.upward();
    let (hi, lo) = extent_of(up);
    assert forall|i: int| 0 <= i < up.len() implies !(#[trigger] up[i]).nan() && up[i].value()
        == if t.rising() {
        t.y@[i].value()
    } else {
        -t.y@[i].value()
    } by {
        assert(!t.y@[i].nan());
        crate::ieee::lemma_signs32(t.y@[i]);
    }
    assert(!up[0].nan());
    lemma_extent_of(up, 0);
    crate::ieee::lemma_signs32(hi);
    let k = choose|k: int|
        0 <= k < up.len() && !(#[trigger] up[k]).nan() && up[k].value() == hi.value();
    let p = t.peak_of().unwrap();
    assert(t.y@[k].value() == p.value());
    assert forall|i: int| 0 <= i < t.y@.len() implies (t.rising() ==> (#[trigger] t.y@[i]).value()
        <= p.value()) && (!t.rising() ==> p.value() <= t.y@[i].value()) by {
        assert(!up[i].nan());
    }
}

/// Nothing has been taken in where every count, sum, maximum and error is nothing.
pub proof fn lemma_blank(m: PosVelMetrics)
    requires
        m.blank(),
    ensures
        m.n == 0 && m.nonfinite is None && m.tail_ring@.len() == 0,
        m.pos_sq.bits == 0 && m.vel_sq.bits == 0 && m.h_sq.bits == 0 && m.v_sq.bits == 0,
        m.pos_max.bits == 0 && m.vel_max.bits == 0 && m.h_max.bits == 0 && m.v_max.bits == 0,
{
}

/// The bounds that are counted against: the errors kept of a run, and the greatest angle that turns
/// are taken off.
pub proof fn lemma_bounds()
    ensures
        TAIL_CAP == 2048,
        Float32::from_bits(GREAT_ANGLE).value() == 0x800_0000 * crate::ieee::one32(),
        !Float32::from_bits(INFINITY).nan() && !Float32::from_bits(MINUS_INFINITY).nan(),
        forall|x: Float32|
            !(#[trigger] x.nan()) ==> Float32::from_bits(MINUS_INFINITY).value() <= x.value()
                <= Float32::from_bits(INFINITY).value(),
{
    vstd::arithmetic::power2::lemma2_to64();
    vstd::arithmetic::power2::lemma_pow2_adds(23, 153);
    vstd::arithmetic::power2::lemma_pow2_adds(27, 149);
    assert forall|x: Float32| !(#[trigger] x.nan()) implies Float32::from_bits(
        MINUS_INFINITY,
    ).value() <= x.value() <= Float32::from_bits(INFINITY).value() by {
        crate::ieee::lemma_rank32_orders_values(Float32::from_bits(INFINITY), x);
        crate::ieee::lemma_rank32_orders_values(x, Float32::from_bits(MINUS_INFINITY));
    }
}

/// What the constants of this module are worth.
pub proof fn lemma_measures()
    ensures
        crate::ieee::is_ratio32(Float32::from_bits(ONE), 1, 1),
        crate::ieee::is_ratio32(Float32::from_bits(HALF_TURN), 180, 1),
        crate::ieee::is_ratio32(Float32::from_bits(MINUS_HALF_TURN), -180, 1),
        crate::ieee::is_ratio32(Float32::from_bits(LEAST_RATE), 1, 1000000),
        crate::ieee::is_ratio32(Float32::from_bits(LEAST_STEP), 1, 1000000000),
        crate::ieee::is_ratio32(Float32::from_bits(UPPER_LIMIT), 999, 1000),
        crate::ieee::is_ratio32(Float32::from_bits(LOWER_LIMIT), 1, 1000),
{
    assert(crate::ieee::is_ratio32(Float32::from_bits(ONE), 1, 1)) by {
        vstd::arithmetic::power2::lemma2_to64();
        crate::ieee::lemma_ratio32(Float32::from_bits(ONE), 1, 1, 23);
    }
    assert(crate::ieee::is_ratio32(Float32::from_bits(HALF_TURN), 180, 1)) by {
        vstd::arithmetic::power2::lemma2_to64();
        crate::ieee::lemma_ratio32(Float32::from_bits(HALF_TURN), 180, 1, 16);
    }
    assert(crate::ieee::is_ratio32(Float32::from_bits(MINUS_HALF_TURN), -180, 1)) by {
        vstd::arithmetic::power2::lemma2_to64();
        crate::ieee::lemma_ratio32(Float32::from_bits(MINUS_HALF_TURN), -180, 1, 16);
    }
    assert(crate::ieee::is_ratio32(Float32::from_bits(LEAST_RATE), 1, 1000000)) by {
        vstd::arithmetic::power2::lemma2_to64_rest();
        crate::ieee::lemma_ratio32(Float32::from_bits(LEAST_RATE), 1, 1000000, 43);
    }
    assert(crate::ieee::is_ratio32(Float32::from_bits(LEAST_STEP), 1, 1000000000)) by {
        vstd::arithmetic::power2::lemma2_to64_rest();
        crate::ieee::lemma_ratio32(Float32::from_bits(LEAST_STEP), 1, 1000000000, 53);
    }
    assert(crate::ieee::is_ratio32(Float32::from_bits(UPPER_LIMIT), 999, 1000)) by {
        vstd::arithmetic::power2::lemma2_to64();
        crate::ieee::lemma_ratio32(Float32::from_bits(UPPER_LIMIT), 999, 1000, 24);
    }
    assert(crate::ieee::is_ratio32(Float32::from_bits(LOWER_LIMIT), 1, 1000)) by {
        vstd::arithmetic::power2::lemma2_to64_rest();
        crate::ieee::lemma_ratio32(Float32::from_bits(LOWER_LIMIT), 1, 1000, 33);
    }
}

} // verus!
