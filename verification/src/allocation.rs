//! Control allocation: which motors share a demand, and with what weights.
//!
//! A demand is a vector of thrust, roll, pitch and yaw. With every motor working it goes through a
//! fixed mixer. Where motors have failed it is shared by least squares among the others.

use crate::ieee::{Float32, Float64};
use crate::scan::greatest_index;
use vstd::prelude::*;

verus! {

pub const MOTORS: usize = 4;

/// 10^-12: a pivot below it carries no information.
pub const PIVOT_FLOOR: u64 = 0x3D71_9799_812D_EA11;

/// Twice the entry of the mixer at an axis (thrust, roll, pitch, yaw) and a motor.
pub open spec fn doubled_mixer(axis: int, motor: int) -> int {
    if axis == 0 {
        2
    } else if axis == 1 {
        if motor == 0 || motor == 3 {
            1
        } else {
            -1
        }
    } else if axis == 2 {
        if motor == 0 || motor == 2 {
            1
        } else {
            -1
        }
    } else if motor == 0 || motor == 1 {
        1
    } else {
        -1
    }
}

pub fn mixer_entry(axis: usize, motor: usize) -> (r: i64)
    requires
        axis < MOTORS,
        motor < MOTORS,
    ensures
        r == doubled_mixer(axis as int, motor as int),
{
    if axis == 0 {
        2
    } else if axis == 1 {
        if motor == 0 || motor == 3 {
            1
        } else {
            -1
        }
    } else if axis == 2 {
        if motor == 0 || motor == 2 {
            1
        } else {
            -1
        }
    } else if motor == 0 || motor == 1 {
        1
    } else {
        -1
    }
}

/// The sum of `f` over the four motors, or the four axes.
pub open spec fn sum4(f: spec_fn(int) -> int) -> int {
    f(0) + f(1) + f(2) + f(3)
}

/// Twice the throttle that the mixer gives a motor for a demand.
pub open spec fn doubled_throttle(demand: Seq<int>, motor: int) -> int {
    sum4(|a: int| doubled_mixer(a, motor) * demand[a])
}

/// The axes are independent of each other: the mixer's rows are orthogonal.
pub proof fn lemma_mixer_rows_orthogonal(a: int, b: int)
    requires
        0 <= a < 4,
        0 <= b < 4,
    ensures
        sum4(|m: int| doubled_mixer(a, m) * doubled_mixer(b, m)) == if a != b {
            0
        } else if a == 0 {
            16int
        } else {
            4
        },
{
    lemma_sign_products(a, b, 0);
    lemma_sign_products(a, b, 1);
    lemma_sign_products(a, b, 2);
    lemma_sign_products(a, b, 3);
}

/// The product of two mixer entries of a motor, by cases on the first: a sum or a difference.
proof fn lemma_sign_products(a: int, b: int, m: int)
    ensures
        doubled_mixer(a, m) == 2 ==> doubled_mixer(a, m) * doubled_mixer(b, m) == 2 * doubled_mixer(
            b,
            m,
        ),
        doubled_mixer(a, m) == 1 ==> doubled_mixer(a, m) * doubled_mixer(b, m) == doubled_mixer(
            b,
            m,
        ),
        doubled_mixer(a, m) == -1 ==> doubled_mixer(a, m) * doubled_mixer(b, m) == -doubled_mixer(
            b,
            m,
        ),
{
    let x = doubled_mixer(b, m);
    assert(2 * x == 2 * x && 1 * x == x && (-1) * x == -x) by (nonlinear_arith);
}

/// The demand can be read back from the throttles that the mixer gives for it: four times thrust,
/// and the other three, up to a fixed factor.
pub proof fn lemma_mixer_inverse(demand: Seq<int>)
    requires
        demand.len() == 4,
    ensures
        doubled_throttle(demand, 0) + doubled_throttle(demand, 1) + doubled_throttle(demand, 2)
            + doubled_throttle(demand, 3) == 8 * demand[0],
        doubled_throttle(demand, 0) - doubled_throttle(demand, 1) - doubled_throttle(demand, 2)
            + doubled_throttle(demand, 3) == 4 * demand[1],
        doubled_throttle(demand, 0) - doubled_throttle(demand, 1) + doubled_throttle(demand, 2)
            - doubled_throttle(demand, 3) == 4 * demand[2],
        doubled_throttle(demand, 0) + doubled_throttle(demand, 1) - doubled_throttle(demand, 2)
            - doubled_throttle(demand, 3) == 4 * demand[3],
{
    let (t, p, q, r) = (demand[0], demand[1], demand[2], demand[3]);
    lemma_scale(t);
    lemma_scale(p);
    lemma_scale(q);
    lemma_scale(r);
    assert(doubled_throttle(demand, 0) == 2 * t + p + q + r);
    assert(doubled_throttle(demand, 1) == 2 * t - p - q + r);
    assert(doubled_throttle(demand, 2) == 2 * t - p + q - r);
    assert(doubled_throttle(demand, 3) == 2 * t + p - q - r);
}

proof fn lemma_scale(x: int)
    ensures
        1 * x == x,
        (-1) * x == -x,
{
    assert(1 * x == x && (-1) * x == -x) by (nonlinear_arith);
}

/// A motor takes part where its effectiveness is positive.
pub open spec fn effective(eff: Float32) -> bool {
    Float32::from_bits(0).less(eff)
}

/// The motors that take part, in order.
pub open spec fn active_of(eff: Seq<Float32>) -> Seq<usize>
    decreases eff.len(),
{
    if eff.len() == 0 {
        Seq::empty()
    } else {
        let before = active_of(eff.drop_last());
        if effective(eff.last()) {
            before.push((eff.len() - 1) as usize)
        } else {
            before
        }
    }
}

/// The motors that take part are exactly the effective ones, each once and in order.
pub proof fn lemma_active_of(eff: Seq<Float32>)
    requires
        eff.len() <= 4,
    ensures
        active_of(eff).len() <= eff.len(),
        active_of(eff).len() == eff.len() <==> (forall|i: int|
            0 <= i < eff.len() ==> effective(#[trigger] eff[i])),
        active_of(eff).len() == 0 <==> (forall|i: int|
            0 <= i < eff.len() ==> !effective(#[trigger] eff[i])),
        forall|c: int|
            0 <= c < active_of(eff).len() ==> (#[trigger] active_of(eff)[c]) < eff.len()
                && effective(eff[active_of(eff)[c] as int]),
        forall|c: int, d: int|
            0 <= c < d < active_of(eff).len() ==> (#[trigger] active_of(eff)[c]) < (
            #[trigger] active_of(eff)[d]),
        forall|i: int|
            0 <= i < eff.len() && effective(#[trigger] eff[i]) ==> active_of(eff).contains(
                i as usize,
            ),
    decreases eff.len(),
{
    if eff.len() > 0 {
        let t = eff.drop_last();
        lemma_active_of(t);
        let before = active_of(t);
        let after = active_of(eff);
        let last = eff.len() - 1;
        assert(forall|i: int| 0 <= i < t.len() ==> #[trigger] eff[i] == t[i]);
        assert(eff[last] == eff.last());
        if effective(eff.last()) {
            assert(forall|c: int| 0 <= c < before.len() ==> #[trigger] after[c] == before[c]);
            assert(after[before.len() as int] == last as usize);
            assert forall|i: int| 0 <= i < eff.len() && effective(
                #[trigger] eff[i],
            ) implies after.contains(i as usize) by {
                if i < last {
                    assert(effective(t[i]));
                    let c = choose|c: int| 0 <= c < before.len() && before[c] == i as usize;
                    assert(after[c] == i as usize);
                }
            }
        }
        assert((forall|i: int| 0 <= i < eff.len() ==> effective(#[trigger] eff[i])) <==> ((forall|
            i: int,
        |
            0 <= i < t.len() ==> effective(#[trigger] t[i])) && effective(eff[last])));
        assert((forall|i: int| 0 <= i < eff.len() ==> !effective(#[trigger] eff[i])) <==> ((forall|
            i: int,
        |
            0 <= i < t.len() ==> !effective(#[trigger] t[i])) && !effective(eff[last])));
    }
}

pub fn active_motors(eff: &[Float32; 4]) -> (r: Vec<usize>)
    ensures
        r@ == active_of(eff@),
{
    let mut out: Vec<usize> = Vec::new();
    let mut i: usize = 0;
    while i < 4
        invariant
            i <= 4,
            out@ == active_of(eff@.take(i as int)),
        decreases 4 - i,
    {
        proof {
            assert(eff@.take(i + 1).drop_last() =~= eff@.take(i as int));
        }
        if Float32::from_bits(0).lt(eff[i]) {
            out.push(i);
        }
        i += 1;
    }
    assert(eff@.take(4) =~= eff@);
    out
}

/// The entry, in quarters, of the matrix of the normal equations for two motors.
pub open spec fn normal_entry(i: int, j: int) -> int {
    sum4(|a: int| doubled_mixer(a, i) * doubled_mixer(a, j))
}

/// The matrix of the normal equations has seven quarters on its diagonal and three quarters beside
/// it, whichever motors take part.
pub proof fn lemma_normal_entry(i: int, j: int)
    requires
        0 <= i < 4,
        0 <= j < 4,
    ensures
        normal_entry(i, j) == if i == j {
            7int
        } else {
            3
        },
{
    lemma_entry_products(0, i, j);
    lemma_entry_products(1, i, j);
    lemma_entry_products(2, i, j);
    lemma_entry_products(3, i, j);
}

proof fn lemma_entry_products(a: int, i: int, j: int)
    ensures
        doubled_mixer(a, i) == 2 ==> doubled_mixer(a, i) * doubled_mixer(a, j) == 2 * doubled_mixer(
            a,
            j,
        ),
        doubled_mixer(a, i) == 1 ==> doubled_mixer(a, i) * doubled_mixer(a, j) == doubled_mixer(
            a,
            j,
        ),
        doubled_mixer(a, i) == -1 ==> doubled_mixer(a, i) * doubled_mixer(a, j) == -doubled_mixer(
            a,
            j,
        ),
{
    let x = doubled_mixer(a, j);
    assert(2 * x == 2 * x && 1 * x == x && (-1) * x == -x) by (nonlinear_arith);
}

/// The matrix of the normal equations of the motors that take part, in quarters.
pub fn normal_matrix(active: &[usize]) -> (r: Vec<Vec<i64>>)
    requires
        forall|c: int| 0 <= c < active@.len() ==> (#[trigger] active@[c]) < MOTORS,
    ensures
        r@.len() == active@.len(),
        forall|i: int| 0 <= i < r@.len() ==> (#[trigger] r@[i])@.len() == active@.len(),
        forall|i: int, j: int|
            0 <= i < r@.len() && 0 <= j < r@.len() ==> #[trigger] r@[i]@[j] == normal_entry(
                active@[i] as int,
                active@[j] as int,
            ),
{
    let n: usize = active.len();
    let mut out: Vec<Vec<i64>> = Vec::new();
    let mut i: usize = 0;
    while i < n
        invariant
            i <= n,
            n == active@.len(),
            forall|c: int| 0 <= c < active@.len() ==> (#[trigger] active@[c]) < MOTORS,
            out@.len() == i,
            forall|k: int| 0 <= k < i ==> (#[trigger] out@[k])@.len() == n,
            forall|k: int, j: int|
                0 <= k < i && 0 <= j < n ==> #[trigger] out@[k]@[j] == normal_entry(
                    active@[k] as int,
                    active@[j] as int,
                ),
        decreases n - i,
    {
        let mut row: Vec<i64> = Vec::new();
        let mut j: usize = 0;
        while j < n
            invariant
                i < n,
                j <= n,
                n == active@.len(),
                forall|c: int| 0 <= c < active@.len() ==> (#[trigger] active@[c]) < MOTORS,
                row@.len() == j,
                forall|k: int|
                    0 <= k < j ==> #[trigger] row@[k] == normal_entry(
                        active@[i as int] as int,
                        active@[k] as int,
                    ),
            decreases n - j,
        {
            let mi: usize = active[i];
            let mj: usize = active[j];
            proof {
                lemma_entry_products(0, mi as int, mj as int);
                lemma_entry_products(1, mi as int, mj as int);
                lemma_entry_products(2, mi as int, mj as int);
                lemma_entry_products(3, mi as int, mj as int);
            }
            let s: i64 = mixer_entry(0, mi) * mixer_entry(0, mj) + mixer_entry(1, mi) * mixer_entry(
                1,
                mj,
            ) + mixer_entry(2, mi) * mixer_entry(2, mj) + mixer_entry(3, mi) * mixer_entry(3, mj);
            row.push(s);
            j += 1;
        }
        out.push(row);
        i += 1;
    }
    out
}

/// What throttles miss of a demand on an axis, in units in which the doubled mixer carries the one
/// into the other.
pub open spec fn miss(u: Seq<int>, demand: Seq<int>, axis: int) -> int {
    sum4(|m: int| doubled_mixer(axis, m) * u[m]) - demand[axis]
}

/// The sum over the axes of the squares of what is missed.
pub open spec fn total_miss(u: Seq<int>, demand: Seq<int>) -> int {
    sum4(|a: int| miss(u, demand, a) * miss(u, demand, a))
}

/// The component, along a motor, of what is missed.
pub open spec fn miss_along(u: Seq<int>, demand: Seq<int>, motor: int) -> int {
    sum4(|a: int| doubled_mixer(a, motor) * miss(u, demand, a))
}

/// `u` solves the normal equations of the motors that take part: what it misses has no component
/// along any of them.
pub open spec fn solves(u: Seq<int>, demand: Seq<int>, takes_part: spec_fn(int) -> bool) -> bool {
    forall|m: int|
        0 <= m < 4 && #[trigger] takes_part(m) ==> miss_along(u, demand, m) == 0
}

/// The normal equations are those of [`normal_matrix`]: its row for a motor, applied to the
/// throttles, against the demand seen along that motor.
pub proof fn lemma_normal_equations(u: Seq<int>, demand: Seq<int>, motor: int)
    requires
        u.len() == 4,
        demand.len() == 4,
        0 <= motor < 4,
    ensures
        miss_along(u, demand, motor) == sum4(|k: int| normal_entry(motor, k) * u[k])
            - doubled_throttle(demand, motor),
{
    lemma_normal_entry(motor, 0);
    lemma_normal_entry(motor, 1);
    lemma_normal_entry(motor, 2);
    lemma_normal_entry(motor, 3);
    lemma_scale(u[0]);
    lemma_scale(u[1]);
    lemma_scale(u[2]);
    lemma_scale(u[3]);
    lemma_scale(demand[1]);
    lemma_scale(demand[2]);
    lemma_scale(demand[3]);
    lemma_scale(miss(u, demand, 1));
    lemma_scale(miss(u, demand, 2));
    lemma_scale(miss(u, demand, 3));
    assert(miss(u, demand, 0) == 2 * u[0] + 2 * u[1] + 2 * u[2] + 2 * u[3] - demand[0]);
    assert(miss(u, demand, 1) == u[0] - u[1] - u[2] + u[3] - demand[1]);
    assert(miss(u, demand, 2) == u[0] - u[1] + u[2] - u[3] - demand[2]);
    assert(miss(u, demand, 3) == u[0] + u[1] - u[2] - u[3] - demand[3]);
    assert(motor == 0 || motor == 1 || motor == 2 || motor == 3);
}

/// Least squares: among all throttles that leave the failed motors at rest, those that solve the
/// normal equations miss the demand by the least.
pub proof fn lemma_least_squares(
    u: Seq<int>,
    v: Seq<int>,
    demand: Seq<int>,
    takes_part: spec_fn(int) -> bool,
)
    requires
        u.len() == 4,
        v.len() == 4,
        demand.len() == 4,
        forall|m: int| 0 <= m < 4 && !(#[trigger] takes_part(m)) ==> u[m] == 0 && v[m] == 0,
        solves(u, demand, takes_part),
    ensures
        total_miss(u, demand) <= total_miss(v, demand),
{
    let (r0, r1, r2, r3) = (
        miss(u, demand, 0),
        miss(u, demand, 1),
        miss(u, demand, 2),
        miss(u, demand, 3),
    );
    let (d0, d1, d2, d3) = (v[0] - u[0], v[1] - u[1], v[2] - u[2], v[3] - u[3]);
    let (e0, e1, e2, e3) = (
        2 * d0 + 2 * d1 + 2 * d2 + 2 * d3,
        d0 - d1 - d2 + d3,
        d0 - d1 + d2 - d3,
        d0 + d1 - d2 - d3,
    );
    lemma_scale(u[0]);
    lemma_scale(u[1]);
    lemma_scale(u[2]);
    lemma_scale(u[3]);
    lemma_scale(v[0]);
    lemma_scale(v[1]);
    lemma_scale(v[2]);
    lemma_scale(v[3]);
    lemma_scale(r0);
    lemma_scale(r1);
    lemma_scale(r2);
    lemma_scale(r3);
    assert(miss(v, demand, 0) == r0 + e0);
    assert(miss(v, demand, 1) == r1 + e1);
    assert(miss(v, demand, 2) == r2 + e2);
    assert(miss(v, demand, 3) == r3 + e3);
    let (g0, g1, g2, g3) = (
        2 * r0 + r1 + r2 + r3,
        2 * r0 - r1 - r2 + r3,
        2 * r0 - r1 + r2 - r3,
        2 * r0 + r1 - r2 - r3,
    );
    assert(miss_along(u, demand, 0) == g0);
    assert(takes_part(0) ==> g0 == 0);
    assert(!takes_part(0) ==> d0 == 0);
    assert(miss_along(u, demand, 1) == g1);
    assert(takes_part(1) ==> g1 == 0);
    assert(!takes_part(1) ==> d1 == 0);
    assert(miss_along(u, demand, 2) == g2);
    assert(takes_part(2) ==> g2 == 0);
    assert(!takes_part(2) ==> d2 == 0);
    assert(miss_along(u, demand, 3) == g3);
    assert(takes_part(3) ==> g3 == 0);
    assert(!takes_part(3) ==> d3 == 0);
    assert(d0 * g0 == 0 && d1 * g1 == 0 && d2 * g2 == 0 && d3 * g3 == 0) by (nonlinear_arith)
        requires
            d0 == 0 || g0 == 0,
            d1 == 0 || g1 == 0,
            d2 == 0 || g2 == 0,
            d3 == 0 || g3 == 0,
    ;
    assert(r0 * e0 == 2 * (r0 * d0) + 2 * (r0 * d1) + 2 * (r0 * d2) + 2 * (r0 * d3)) by (nonlinear_arith)
        requires
            e0 == 2 * d0 + 2 * d1 + 2 * d2 + 2 * d3,
    ;
    assert(r1 * e1 == (r1 * d0) - (r1 * d1) - (r1 * d2) + (r1 * d3)) by (nonlinear_arith)
        requires
            e1 == d0 - d1 - d2 + d3,
    ;
    assert(r2 * e2 == (r2 * d0) - (r2 * d1) + (r2 * d2) - (r2 * d3)) by (nonlinear_arith)
        requires
            e2 == d0 - d1 + d2 - d3,
    ;
    assert(r3 * e3 == (r3 * d0) + (r3 * d1) - (r3 * d2) - (r3 * d3)) by (nonlinear_arith)
        requires
            e3 == d0 + d1 - d2 - d3,
    ;
    assert(d0 * g0 == 2 * (r0 * d0) + (r1 * d0) + (r2 * d0) + (r3 * d0)) by (nonlinear_arith)
        requires
            g0 == 2 * r0 + r1 + r2 + r3,
    ;
    assert(d1 * g1 == 2 * (r0 * d1) - (r1 * d1) - (r2 * d1) + (r3 * d1)) by (nonlinear_arith)
        requires
            g1 == 2 * r0 - r1 - r2 + r3,
    ;
    assert(d2 * g2 == 2 * (r0 * d2) - (r1 * d2) + (r2 * d2) - (r3 * d2)) by (nonlinear_arith)
        requires
            g2 == 2 * r0 - r1 + r2 - r3,
    ;
    assert(d3 * g3 == 2 * (r0 * d3) + (r1 * d3) - (r2 * d3) - (r3 * d3)) by (nonlinear_arith)
        requires
            g3 == 2 * r0 + r1 - r2 - r3,
    ;
    lemma_square_of_sum(r0, e0);
    lemma_square_of_sum(r1, e1);
    lemma_square_of_sum(r2, e2);
    lemma_square_of_sum(r3, e3);
}

proof fn lemma_square_of_sum(r: int, e: int)
    ensures
        (r + e) * (r + e) >= r * r + 2 * (r * e),
{
    assert((r + e) * (r + e) == r * r + 2 * (r * e) + e * e) by (nonlinear_arith);
    assert(e * e >= 0) by (nonlinear_arith);
}

/// How a demand is to be shared.
#[derive(Clone, Debug, PartialEq, Eq)]
pub enum Allocation {
    /// No motor works.
    Idle,
    /// Every motor works: the mixer alone decides.
    Full,
    /// These motors share the demand by least squares.
    Reduced(Vec<usize>),
}

pub fn allocation_plan(eff: &[Float32; 4]) -> (r: Allocation)
    ensures
        match r {
            Allocation::Idle => forall|i: int| 0 <= i < 4 ==> !effective(#[trigger] eff[i]),
            Allocation::Full => forall|i: int| 0 <= i < 4 ==> effective(#[trigger] eff[i]),
            Allocation::Reduced(active) => {
                &&& active@ == active_of(eff@)
                &&& 0 < active@.len() < 4
            },
        },
{
    let active: Vec<usize> = active_motors(eff);
    proof {
        lemma_active_of(eff@);
    }
    if active.len() == 0 {
        assert forall|i: int| 0 <= i < 4 implies !effective(#[trigger] eff[i]) by {
            assert(!effective(eff@[i]));
        }
        Allocation::Idle
    } else if active.len() == 4 {
        assert forall|i: int| 0 <= i < 4 implies effective(#[trigger] eff[i]) by {
            assert(effective(eff@[i]));
        }
        Allocation::Full
    } else {
        Allocation::Reduced(active)
    }
}

/// The throttles of a demand: those of the mixer where every motor works; where some do not, those
/// that solve the normal equations, each at its motor. A failed motor stays at rest.
pub fn allocate_eff(eff: &[Float32; 4], mixed: [Float64; 4], solved: &[Float64]) -> (r: [Float64; 4])
    requires
        0 < active_of(eff@).len() < 4 ==> solved@.len() == active_of(eff@).len(),
    ensures
        active_of(eff@).len() == 4 ==> r == mixed,
        active_of(eff@).len() < 4 ==> forall|c: int|
            0 <= c < active_of(eff@).len() ==> r[#[trigger] active_of(eff@)[c] as int]
                == solved@[c],
        forall|i: int|
            0 <= i < 4 && !effective(#[trigger] eff[i]) ==> r[i] == Float64::from_bits(0),
{
    let active: Vec<usize> = active_motors(eff);
    let ghost all = active_of(eff@);
    proof {
        lemma_active_of(eff@);
        assert(forall|i: int| 0 <= i < 4 ==> eff@[i] == #[trigger] eff[i]);
    }
    if active.len() == 4 {
        return mixed;
    }
    let zero: Float64 = Float64::from_bits(0);
    let mut out: [Float64; 4] = [zero, zero, zero, zero];
    let mut c: usize = 0;
    while c < active.len()
        invariant
            c <= active@.len(),
            active@ == all,
            all == active_of(eff@),
            0 < all.len() < 4 ==> solved@.len() == all.len(),
            all.len() < 4,
            forall|k: int| 0 <= k < all.len() ==> (#[trigger] all[k]) < 4 && effective(eff@[all[k] as int]),
            forall|k: int, l: int|
                0 <= k < l < all.len() ==> (#[trigger] all[k]) < (#[trigger] all[l]),
            forall|k: int| 0 <= k < c ==> out[#[trigger] all[k] as int] == solved@[k],
            forall|i: int|
                0 <= i < 4 && !effective(#[trigger] eff@[i]) ==> out[i] == Float64::from_bits(0),
        decreases active@.len() - c,
    {
        let m: usize = active[c];
        let ghost before = out@;
        out[m] = solved[c];
        proof {
            assert(m == all[c as int]);
            assert(out@ == before.update(m as int, solved@[c as int]));
            assert forall|k: int| 0 <= k < c + 1 implies out[#[trigger] all[k] as int]
                == solved@[k] by {
                if k < c {
                    assert(all[k] < all[c as int]);
                }
            }
        }
        c += 1;
    }
    out
}

/// The absolute values of a column, from a row on.
pub open spec fn candidates(column: Seq<Float64>, from: int) -> Seq<Float64> {
    Seq::new((column.len() - from) as nat, |i: int| column[from + i].absolute())
}

/// The row that elimination pivots on: the first of the greatest entries of the column, in absolute
/// value, from the diagonal down.
pub fn pivot_row(column: &[Float64], col: usize) -> (r: usize)
    requires
        col < column@.len(),
    ensures
        col <= r < column@.len(),
        r == col + crate::scan::greatest_of(candidates(column@, col as int)),
{
    let mut abs: Vec<Float64> = Vec::new();
    let mut i: usize = col;
    while i < column.len()
        invariant
            col <= i <= column@.len(),
            abs@ =~= candidates(column@.take(i as int), col as int),
        decreases column@.len() - i,
    {
        abs.push(column[i].abs());
        i += 1;
    }
    assert(column@.take(i as int) =~= column@);
    let k: usize = greatest_index(abs.as_slice());
    col + k
}

/// The pivot is large enough to eliminate its column with.
pub fn pivot_usable(d: Float64) -> (r: bool)
    ensures
        r == !d.absolute().less(Float64::from_bits(PIVOT_FLOOR)),
{
    !d.abs().lt(Float64::from_bits(PIVOT_FLOOR))
}

/// The unknown is determined by its diagonal entry; one that is not is taken to be zero.
pub fn unknown_determined(d: Float64) -> (r: bool)
    ensures
        r == Float64::from_bits(PIVOT_FLOOR).less(d.absolute()),
{
    Float64::from_bits(PIVOT_FLOOR).lt(d.abs())
}

/// A motor takes part where its effectiveness is worth anything at all above nothing.
pub proof fn lemma_effective(eff: Float32)
    ensures
        effective(eff) <==> !eff.nan() && eff.value() > 0,
{
    crate::ieee::lemma_order32(Float32::from_bits(0), eff);
    crate::ieee::lemma_scale32(Float32::from_bits(0), Float32::from_bits(0));
}

/// No entry of the column, from the diagonal down, is farther from zero than the pivot, and the
/// entries between the diagonal and the pivot are nearer.
pub proof fn lemma_pivot(column: Seq<Float64>, col: int, r: int)
    requires
        0 <= col < column.len(),
        r == col + crate::scan::greatest_of(candidates(column, col)),
        forall|i: int| col <= i < column.len() ==> !(#[trigger] column[i]).nan(),
    ensures
        col <= r < column.len(),
        forall|i: int|
            col <= i < column.len() ==> crate::number::size((#[trigger] column[i]).value())
                <= crate::number::size(column[r].value()),
        forall|i: int|
            col <= i < r ==> crate::number::size((#[trigger] column[i]).value())
                < crate::number::size(column[r].value()),
{
    let abs = candidates(column, col);
    assert forall|k: int| 0 <= k < abs.len() implies !(#[trigger] abs[k]).nan() by {
        assert(!column[col + k].nan());
        crate::ieee::lemma_signs64(column[col + k]);
    }
    crate::scan::lemma_greatest_of(abs);
    assert forall|i: int| col <= i < column.len() implies abs[i - col].value()
        == crate::number::size((#[trigger] column[i]).value()) by {
        crate::ieee::lemma_signs64(column[i]);
    }
    let g = crate::scan::greatest_of(abs);
    assert(abs[r - col] == abs[g]);
    assert(abs[g].value() == crate::number::size(column[r].value()));
    assert forall|i: int| col <= i < column.len() implies crate::number::size(
        (#[trigger] column[i]).value(),
    ) <= crate::number::size(column[r].value()) && (i < r ==> crate::number::size(column[i].value())
        < crate::number::size(column[r].value())) by {
        assert(abs[i - col].rank() <= abs[g].rank());
        crate::ieee::lemma_rank64_orders_values(abs[i - col], abs[g]);
        crate::ieee::lemma_rank64_orders_values(abs[g], abs[i - col]);
    }
}

/// What the constants of this module are worth.
pub proof fn lemma_measures()
    ensures
        crate::ieee::is_ratio64(Float64::from_bits(PIVOT_FLOOR), 1, 1000000000000),
{
    assert(crate::ieee::is_ratio64(Float64::from_bits(PIVOT_FLOOR), 1, 1000000000000)) by {
        vstd::arithmetic::power2::lemma2_to64();
        crate::ieee::lemma_halvings();
        crate::ieee::lemma_ratio64(Float64::from_bits(PIVOT_FLOOR), 1, 1000000000000, 92);
    }
}

} // verus!
