//! Drawing: which pixels a quadrilateral covers, which lines the ground has, and which colours the
//! parts of a vehicle get.
//!
//! Projection is done by the caller in floating point.

use crate::ieee::{Float32, Float64};
use vstd::prelude::*;

verus! {

/// How far the grid on the ground reaches, in metres.
pub const GRID_SPAN: i32 = 10;

/// 10^-5: a point whose fourth coordinate is no greater lies behind the camera.
pub const NEAR_CLIP: u32 = 0x3727_C5AC;

pub const ONE: u32 = 0x3F80_0000;

pub const MINUS_ONE: u32 = 0xBF80_0000;

/// One fiftieth.
pub const DEAD_MOTOR: u32 = 0x3CA3_D70A;

/// 49 fiftieths.
pub const WEAK_MOTOR: u32 = 0x3F7A_E148;

/// One twentieth.
pub const TURNING: u32 = 0x3D4C_CCCD;

/// One twentieth, in twice the width.
pub const MOVING: u64 = 0x3FA9_9999_9999_999A;

/// Three.
pub const ARROW_LIMIT: u64 = 0x4008_0000_0000_0000;

/// A point on the screen.
#[derive(Clone, Copy, Debug, PartialEq, Eq, Structural)]
pub struct Pixel {
    pub x: i32,
    pub y: i32,
}

/// On which side of the line from `a` to `b` the point lies: positive, negative, or zero on it.
pub open spec fn side(a: Pixel, b: Pixel, p: Pixel) -> int {
    (b.x - a.x) * (p.y - a.y) - (b.y - a.y) * (p.x - a.x)
}

/// The point lies strictly on opposite sides of no two edges: inside a convex quadrilateral, its
/// edges included.
pub open spec fn inside(p: Pixel, a: Pixel, b: Pixel, c: Pixel, d: Pixel) -> bool {
    !((side(a, b, p) > 0 || side(b, c, p) > 0 || side(c, d, p) > 0 || side(d, a, p) > 0) && (side(
        a,
        b,
        p,
    ) < 0 || side(b, c, p) < 0 || side(c, d, p) < 0 || side(d, a, p) < 0))
}

fn side_sign(a: Pixel, b: Pixel, p: Pixel) -> (r: i128)
    ensures
        r == side(a, b, p),
{
    let ux: i128 = b.x as i128 - a.x as i128;
    let uy: i128 = b.y as i128 - a.y as i128;
    let vx: i128 = p.x as i128 - a.x as i128;
    let vy: i128 = p.y as i128 - a.y as i128;
    let limit: i128 = 0x1_0000_0000;
    proof {
        assert(-0x1_0000_0000_0000_0000 <= ux * vy <= 0x1_0000_0000_0000_0000) by (nonlinear_arith)
            requires
                -limit <= ux <= limit,
                -limit <= vy <= limit,
                limit == 0x1_0000_0000,
        ;
        assert(-0x1_0000_0000_0000_0000 <= uy * vx <= 0x1_0000_0000_0000_0000) by (nonlinear_arith)
            requires
                -limit <= uy <= limit,
                -limit <= vx <= limit,
                limit == 0x1_0000_0000,
        ;
    }
    ux * vy - uy * vx
}

/// Whether a point lies in a quadrilateral, given by its corners in order.
pub fn point_in_quad(p: Pixel, quad: &[Pixel; 4]) -> (r: bool)
    ensures
        r == inside(p, quad[0], quad[1], quad[2], quad[3]),
{
    let ab: i128 = side_sign(quad[0], quad[1], p);
    let bc: i128 = side_sign(quad[1], quad[2], p);
    let cd: i128 = side_sign(quad[2], quad[3], p);
    let da: i128 = side_sign(quad[3], quad[0], p);
    !((ab > 0 || bc > 0 || cd > 0 || da > 0) && (ab < 0 || bc < 0 || cd < 0 || da < 0))
}

/// It makes no difference which corner comes first, nor which way round the corners are given.
pub proof fn lemma_quad_corners(p: Pixel, a: Pixel, b: Pixel, c: Pixel, d: Pixel)
    ensures
        inside(p, a, b, c, d) == inside(p, b, c, d, a),
        inside(p, a, b, c, d) == inside(p, d, c, b, a),
{
    lemma_side_reversed(a, b, p);
    lemma_side_reversed(b, c, p);
    lemma_side_reversed(c, d, p);
    lemma_side_reversed(d, a, p);
}

proof fn lemma_side_reversed(a: Pixel, b: Pixel, p: Pixel)
    ensures
        side(b, a, p) == -side(a, b, p),
{
    let (ax, ay, bx, by, px, py) = (
        a.x as int,
        a.y as int,
        b.x as int,
        b.y as int,
        p.x as int,
        p.y as int,
    );
    assert((ax - bx) * (py - by) - (ay - by) * (px - bx) == -((bx - ax) * (py - ay) - (by - ay) * (px
        - ax))) by (nonlinear_arith);
}

/// A point lies in a quadrilateral exactly where its image lies in the shifted one.
pub proof fn lemma_quad_shift(
    p: Pixel,
    a: Pixel,
    b: Pixel,
    c: Pixel,
    d: Pixel,
    p2: Pixel,
    a2: Pixel,
    b2: Pixel,
    c2: Pixel,
    d2: Pixel,
    dx: int,
    dy: int,
)
    requires
        p2.x == p.x + dx && p2.y == p.y + dy,
        a2.x == a.x + dx && a2.y == a.y + dy,
        b2.x == b.x + dx && b2.y == b.y + dy,
        c2.x == c.x + dx && c2.y == c.y + dy,
        d2.x == d.x + dx && d2.y == d.y + dy,
    ensures
        inside(p2, a2, b2, c2, d2) == inside(p, a, b, c, d),
{
    assert(b2.x - a2.x == b.x - a.x && p2.y - a2.y == p.y - a.y);
    assert(side(a2, b2, p2) == side(a, b, p));
    assert(side(b2, c2, p2) == side(b, c, p));
    assert(side(c2, d2, p2) == side(c, d, p));
    assert(side(d2, a2, p2) == side(d, a, p));
}

/// The least box of whole rows and columns around a quadrilateral.
#[derive(Clone, Copy, Debug, PartialEq, Eq, Structural)]
pub struct PixelBox {
    pub min: Pixel,
    pub max: Pixel,
}

pub open spec fn least4(a: int, b: int, c: int, d: int) -> int {
    let ab = if b < a {
        b
    } else {
        a
    };
    let cd = if d < c {
        d
    } else {
        c
    };
    if cd < ab {
        cd
    } else {
        ab
    }
}

fn min4(a: i32, b: i32, c: i32, d: i32) -> (r: i32)
    ensures
        r == least4(a as int, b as int, c as int, d as int),
{
    let ab: i32 = if b < a {
        b
    } else {
        a
    };
    let cd: i32 = if d < c {
        d
    } else {
        c
    };
    if cd < ab {
        cd
    } else {
        ab
    }
}

fn max4(a: i32, b: i32, c: i32, d: i32) -> (r: i32)
    ensures
        r == -least4(-(a as int), -(b as int), -(c as int), -(d as int)),
{
    let ab: i32 = if b > a {
        b
    } else {
        a
    };
    let cd: i32 = if d > c {
        d
    } else {
        c
    };
    if cd > ab {
        cd
    } else {
        ab
    }
}

pub fn bounding_box(quad: &[Pixel; 4]) -> (r: PixelBox)
    ensures
        forall|i: int|
            0 <= i < 4 ==> r.min.x <= (#[trigger] quad[i]).x <= r.max.x && r.min.y <= quad[i].y
                <= r.max.y,
        exists|i: int| 0 <= i < 4 && (#[trigger] quad[i]).x == r.min.x,
        exists|i: int| 0 <= i < 4 && (#[trigger] quad[i]).x == r.max.x,
        exists|i: int| 0 <= i < 4 && (#[trigger] quad[i]).y == r.min.y,
        exists|i: int| 0 <= i < 4 && (#[trigger] quad[i]).y == r.max.y,
{
    let r: PixelBox = PixelBox {
        min: Pixel {
            x: min4(quad[0].x, quad[1].x, quad[2].x, quad[3].x),
            y: min4(quad[0].y, quad[1].y, quad[2].y, quad[3].y),
        },
        max: Pixel {
            x: max4(quad[0].x, quad[1].x, quad[2].x, quad[3].x),
            y: max4(quad[0].y, quad[1].y, quad[2].y, quad[3].y),
        },
    };
    proof {
        assert(quad[0].x == r.min.x || quad[1].x == r.min.x || quad[2].x == r.min.x || quad[3].x
            == r.min.x);
        assert(quad[0].x == r.max.x || quad[1].x == r.max.x || quad[2].x == r.max.x || quad[3].x
            == r.max.x);
        assert(quad[0].y == r.min.y || quad[1].y == r.min.y || quad[2].y == r.min.y || quad[3].y
            == r.min.y);
        assert(quad[0].y == r.max.y || quad[1].y == r.max.y || quad[2].y == r.max.y || quad[3].y
            == r.max.y);
    }
    r
}

/// The columns of a row, from `from` up to `to`, that a quadrilateral covers.
pub open spec fn covered(quad: [Pixel; 4], y: i32, from: int, to: int) -> Seq<i32>
    decreases to - from + 1,
{
    if to < from {
        Seq::empty()
    } else {
        let before = covered(quad, y, from, to - 1);
        if inside(Pixel { x: to as i32, y }, quad[0], quad[1], quad[2], quad[3]) {
            before.push(to as i32)
        } else {
            before
        }
    }
}

/// The columns that a quadrilateral covers in a row of its box, from left to right.
pub fn fill_row(quad: &[Pixel; 4], y: i32, from: i32, to: i32) -> (r: Vec<i32>)
    ensures
        r@ == covered(*quad, y, from as int, to as int),
{
    let mut out: Vec<i32> = Vec::new();
    let mut x: i64 = from as i64;
    while x <= to as i64
        invariant
            from <= x,
            x <= to + 1 || x == from,
            out@ == covered(*quad, y, from as int, x - 1),
        decreases to + 1 - x,
    {
        let p: Pixel = Pixel { x: x as i32, y };
        if point_in_quad(p, quad) {
            out.push(x as i32);
        }
        x += 1;
    }
    out
}

/// A row holds each covered column once, and nothing else.
pub proof fn lemma_covered(quad: [Pixel; 4], y: i32, from: int, to: int)
    requires
        i32::MIN <= from,
        to <= i32::MAX,
    ensures
        forall|k: int|
            0 <= k < covered(quad, y, from, to).len() ==> from <= (#[trigger] covered(
                quad,
                y,
                from,
                to,
            )[k]) <= to,
        forall|j: int, k: int|
            0 <= j < k < covered(quad, y, from, to).len() ==> (#[trigger] covered(
                quad,
                y,
                from,
                to,
            )[j]) < (#[trigger] covered(quad, y, from, to)[k]),
        forall|x: int|
            from <= x <= to ==> (inside(
                Pixel { x: x as i32, y },
                quad[0],
                quad[1],
                quad[2],
                quad[3],
            ) <==> #[trigger] covered(quad, y, from, to).contains(x as i32)),
    decreases to - from + 1,
{
    if from <= to {
        lemma_covered(quad, y, from, to - 1);
        let before = covered(quad, y, from, to - 1);
        let after = covered(quad, y, from, to);
        let hit = inside(Pixel { x: to as i32, y }, quad[0], quad[1], quad[2], quad[3]);
        assert(forall|k: int| 0 <= k < before.len() ==> #[trigger] after[k] == before[k]);
        assert forall|k: int| 0 <= k < after.len() implies from <= (#[trigger] after[k]) <= to by {
            if k < before.len() {
                assert(before[k] == after[k]);
            }
        }
        assert forall|j: int, k: int| 0 <= j < k < after.len() implies (#[trigger] after[j]) < (
        #[trigger] after[k]) by {
            assert(before[j] == after[j]);
            if k < before.len() {
                assert(before[k] == after[k]);
            }
        }
        assert forall|x: int| from <= x <= to implies (inside(
            Pixel { x: x as i32, y },
            quad[0],
            quad[1],
            quad[2],
            quad[3],
        ) <==> #[trigger] after.contains(x as i32)) by {
            if x < to {
                assert(before.contains(x as i32) <==> inside(
                    Pixel { x: x as i32, y },
                    quad[0],
                    quad[1],
                    quad[2],
                    quad[3],
                ));
                if before.contains(x as i32) {
                    let k = choose|k: int| 0 <= k < before.len() && before[k] == x as i32;
                    assert(after[k] == x as i32);
                }
                if after.contains(x as i32) {
                    let k = choose|k: int| 0 <= k < after.len() && after[k] == x as i32;
                    assert(before[k] == x as i32);
                }
            } else {
                if hit {
                    assert(after[after.len() - 1] == x as i32);
                } else if after.contains(x as i32) {
                    let k = choose|k: int| 0 <= k < after.len() && after[k] == x as i32;
                    assert(before[k] <= to - 1);
                }
            }
        }
    }
}

/// A projected point can be seen: in front of the camera, and between its near and its far plane.
pub fn in_view(w: Float32, depth: Float32) -> (r: bool)
    ensures
        r == (!w.at_most(Float32::from_bits(NEAR_CLIP)) && !depth.less(Float32::from_bits(MINUS_ONE))
            && !Float32::from_bits(ONE).less(depth)),
{
    !w.le(Float32::from_bits(NEAR_CLIP)) && !depth.lt(Float32::from_bits(MINUS_ONE))
        && !Float32::from_bits(ONE).lt(depth)
}

/// A line of the grid on the ground, from one point to another, in whole metres.
#[derive(Clone, Copy, Debug, PartialEq, Eq)]
pub struct GridLine {
    pub from: (i32, i32),
    pub to: (i32, i32),
}

/// The lines of the grid in order: for each whole metre from one end to the other, one along the
/// second axis and one along the first.
pub open spec fn grid_line(j: int) -> GridLine {
    let at = (j / 2 - GRID_SPAN) as i32;
    let end = (-GRID_SPAN) as i32;
    if j % 2 == 0 {
        GridLine { from: (at, end), to: (at, GRID_SPAN) }
    } else {
        GridLine { from: (end, at), to: (GRID_SPAN, at) }
    }
}

pub fn grid_lines() -> (r: Vec<GridLine>)
    ensures
        r@ == Seq::new((2 * (2 * GRID_SPAN + 1)) as nat, |j: int| grid_line(j)),
{
    let mut out: Vec<GridLine> = Vec::new();
    let mut i: i32 = -GRID_SPAN;
    while i <= GRID_SPAN
        invariant
            -GRID_SPAN <= i <= GRID_SPAN + 1,
            out@ =~= Seq::new((2 * (i + GRID_SPAN)) as nat, |j: int| grid_line(j)),
        decreases GRID_SPAN + 1 - i,
    {
        out.push(GridLine { from: (i, -GRID_SPAN), to: (i, GRID_SPAN) });
        out.push(GridLine { from: (-GRID_SPAN, i), to: (GRID_SPAN, i) });
        proof {
            let j = 2 * (i + GRID_SPAN);
            assert(grid_line(j) == out@[j]);
            assert(grid_line(j + 1) == out@[j + 1]);
        }
        i += 1;
    }
    out
}

/// What the colour of a rotor tells.
#[derive(Clone, Copy, Debug, PartialEq, Eq, Structural)]
pub enum RotorState {
    Dead,
    Weak,
    Turning,
    Idle,
}

pub open spec fn rotor_state_of(eff: Float32, throttle: Float32) -> RotorState {
    if eff.at_most(Float32::from_bits(DEAD_MOTOR)) {
        RotorState::Dead
    } else if eff.less(Float32::from_bits(WEAK_MOTOR)) {
        RotorState::Weak
    } else if Float32::from_bits(TURNING).less(throttle) {
        RotorState::Turning
    } else {
        RotorState::Idle
    }
}

/// The state of a rotor that is shown: a failed or a weak motor before anything else.
pub fn rotor_state(eff: Float32, throttle: Float32) -> (r: RotorState)
    ensures
        r == rotor_state_of(eff, throttle),
{
    if eff.le(Float32::from_bits(DEAD_MOTOR)) {
        RotorState::Dead
    } else if eff.lt(Float32::from_bits(WEAK_MOTOR)) {
        RotorState::Weak
    } else if Float32::from_bits(TURNING).lt(throttle) {
        RotorState::Turning
    } else {
        RotorState::Idle
    }
}

/// The colour of a rotor. A dead one blinks.
pub fn rotor_color(state: RotorState, lit: bool) -> (r: [u8; 3])
    ensures
        r@ == match state {
            RotorState::Dead => if lit {
                seq![230u8, 50, 50]
            } else {
                seq![120u8, 30, 30]
            },
            RotorState::Weak => seq![230u8, 150, 40],
            RotorState::Turning => seq![70u8, 200, 120],
            RotorState::Idle => seq![110u8, 110, 110],
        },
{
    let r: [u8; 3] = match state {
        RotorState::Dead => if lit {
            [230, 50, 50]
        } else {
            [120, 30, 30]
        },
        RotorState::Weak => [230, 150, 40],
        RotorState::Turning => [70, 200, 120],
        RotorState::Idle => [110, 110, 110],
    };
    proof {
        assert(seq![r[0], r[1], r[2]] =~= r@);
    }
    r
}

/// An arrow is drawn for this speed.
pub fn is_moving(speed: Float64) -> (r: bool)
    ensures
        r == Float64::from_bits(MOVING).less(speed),
{
    Float64::from_bits(MOVING).lt(speed)
}

/// The length of an arrow, held at its limit.
pub fn arrow_length(length: Float64) -> (r: Float64)
    ensures
        r == length.lesser_of(Float64::from_bits(ARROW_LIMIT)),
        r.at_most(Float64::from_bits(ARROW_LIMIT)),
{
    length.min(Float64::from_bits(ARROW_LIMIT))
}

/// What a row of the background shows. The fraction says how far down the part the row is.
#[derive(Clone, Copy, Debug, PartialEq, Eq, Structural)]
pub enum Backdrop {
    Sky { num: i64, den: i64 },
    Land { num: i64, den: i64 },
    Floor,
}

/// The background of row `y`, from the rows that the horizon and the near ground are in. Rows are
/// compared as unsigned numbers.
pub fn backdrop(y: u32, horizon: i32, ground: i32) -> (r: Backdrop)
    requires
        horizon >= 0,
        ground >= 0,
    ensures
        r == if y < horizon {
            Backdrop::Sky { num: y as i64, den: horizon as i64 }
        } else if y < ground {
            Backdrop::Land { num: (y - horizon) as i64, den: (ground - horizon) as i64 }
        } else {
            Backdrop::Floor
        },
        match r {
            Backdrop::Sky { num, den } => 0 <= num < den,
            Backdrop::Land { num, den } => 0 <= num < den,
            Backdrop::Floor => true,
        },
{
    if (y as i64) < horizon as i64 {
        Backdrop::Sky { num: y as i64, den: horizon as i64 }
    } else if (y as i64) < ground as i64 {
        Backdrop::Land { num: y as i64 - horizon as i64, den: ground as i64 - horizon as i64 }
    } else {
        Backdrop::Floor
    }
}

/// Paints a row of a picture, and nothing else of it.
pub fn paint_row(pixels: &mut Vec<u32>, width: usize, y: usize, color: u32)
    requires
        (y + 1) * width <= old(pixels)@.len(),
    ensures
        final(pixels)@.len() == old(pixels)@.len(),
        forall|k: int|
            0 <= k < old(pixels)@.len() ==> #[trigger] final(pixels)@[k] == if y * width <= k < (y
                + 1) * width {
                color
            } else {
                old(pixels)@[k]
            },
{
    proof {
        assert(pixels.len() == pixels@.len());
        assert((y + 1) * width == y * width + width) by (nonlinear_arith);
        assert(y * width >= 0) by (nonlinear_arith);
    }
    let base: usize = y * width;
    let mut x: usize = 0;
    while x < width
        invariant
            x <= width,
            base == y * width,
            (y + 1) * width == base + width,
            base + width <= pixels@.len(),
            pixels@.len() == old(pixels)@.len(),
            pixels@.len() <= usize::MAX,
            forall|k: int|
                0 <= k < pixels@.len() ==> #[trigger] pixels@[k] == if base <= k < base + x {
                    color
                } else {
                    old(pixels)@[k]
                },
        decreases width - x,
    {
        pixels.set(base + x, color);
        x += 1;
    }
}

/// The position of a vehicle in the picture's world: north, up and east.
pub fn ned_to_render(pos: [Float64; 3]) -> (r: [Float64; 3])
    ensures
        r@ == seq![pos[0], pos[2].negated(), pos[1]],
{
    let r: [Float64; 3] = [pos[0], pos[2].neg(), pos[1]];
    assert(r@ =~= seq![pos[0], pos[2].negated(), pos[1]]);
    r
}

/// Along the sides of a parallelogram, from one of its corners, a point is given by the fractions of
/// the two sides that lead to it; it lies inside exactly where both fractions are from nothing to all.
pub proof fn lemma_parallelogram(p: Pixel, a: Pixel, b: Pixel, c: Pixel, d: Pixel, s: int, t: int)
    requires
        c.x - b.x == d.x - a.x,
        c.y - b.y == d.y - a.y,
        ({
            let whole = (b.x - a.x) * (d.y - a.y) - (b.y - a.y) * (d.x - a.x);
            &&& whole > 0
            &&& whole * (p.x - a.x) == s * (b.x - a.x) + t * (d.x - a.x)
            &&& whole * (p.y - a.y) == s * (b.y - a.y) + t * (d.y - a.y)
        }),
    ensures
        ({
            let whole = (b.x - a.x) * (d.y - a.y) - (b.y - a.y) * (d.x - a.x);
            inside(p, a, b, c, d) <==> 0 <= s <= whole && 0 <= t <= whole
        }),
{
    let (ux, uy) = (b.x - a.x, b.y - a.y);
    let (vx, vy) = (d.x - a.x, d.y - a.y);
    let (wx, wy) = (p.x - a.x, p.y - a.y);
    let whole = ux * vy - uy * vx;
    let across = ux * wy - uy * wx;
    let along = wx * vy - wy * vx;
    assert(whole * across == whole * t) by {
        assert(whole * across == ux * (whole * wy) - uy * (whole * wx)) by (nonlinear_arith)
            requires
                across == ux * wy - uy * wx,
        ;
        assert(ux * (s * uy + t * vy) - uy * (s * ux + t * vx) == whole * t) by (nonlinear_arith)
            requires
                whole == ux * vy - uy * vx,
        ;
    }
    assert(whole * along == whole * s) by {
        assert(whole * along == vy * (whole * wx) - vx * (whole * wy)) by (nonlinear_arith)
            requires
                along == wx * vy - wy * vx,
        ;
        assert(vy * (s * ux + t * vx) - vx * (s * uy + t * vy) == whole * s) by (nonlinear_arith)
            requires
                whole == ux * vy - uy * vx,
        ;
    }
    assert(across == t) by (nonlinear_arith)
        requires
            whole * across == whole * t,
            whole > 0,
    ;
    assert(along == s) by (nonlinear_arith)
        requires
            whole * along == whole * s,
            whole > 0,
    ;
    assert(side(a, b, p) == t);
    assert(side(b, c, p) == whole - s) by (nonlinear_arith)
        requires
            side(b, c, p) == vx * (wy - uy) - vy * (wx - ux),
            whole == ux * vy - uy * vx,
            s == wx * vy - wy * vx,
    ;
    assert(side(c, d, p) == whole - t) by (nonlinear_arith)
        requires
            side(c, d, p) == (-ux) * (wy - uy - vy) - (-uy) * (wx - ux - vx),
            whole == ux * vy - uy * vx,
            t == ux * wy - uy * wx,
    ;
    assert(side(d, a, p) == s) by (nonlinear_arith)
        requires
            side(d, a, p) == (-vx) * (wy - vy) - (-vy) * (wx - vx),
            s == wx * vy - wy * vx,
    ;
}

/// A pixel lies in an upright rectangle exactly where its row and its column do, the edges included.
pub proof fn lemma_rectangle(p: Pixel, a: Pixel, c: Pixel)
    requires
        a.x < c.x,
        a.y < c.y,
    ensures
        inside(p, a, Pixel { x: c.x, y: a.y }, c, Pixel { x: a.x, y: c.y }) <==> a.x <= p.x <= c.x
            && a.y <= p.y <= c.y,
{
    let (w, h) = (c.x - a.x, c.y - a.y);
    let (dx, dy) = (p.x - a.x, p.y - a.y);
    let whole = w * h;
    let b = Pixel { x: c.x, y: a.y };
    let d = Pixel { x: a.x, y: c.y };
    assert(whole > 0) by (nonlinear_arith)
        requires
            whole == w * h,
            w > 0,
            h > 0,
    ;
    assert(w * h - 0 * 0 == whole);
    assert(whole * dx == (dx * h) * w + (w * dy) * 0) by (nonlinear_arith)
        requires
            whole == w * h,
    ;
    assert(whole * dy == (dx * h) * 0 + (w * dy) * h) by (nonlinear_arith)
        requires
            whole == w * h,
    ;
    lemma_parallelogram(p, a, b, c, d, dx * h, w * dy);
    assert(0 <= dx * h <= whole <==> 0 <= dx <= w) by (nonlinear_arith)
        requires
            whole == w * h,
            h > 0,
    ;
    assert(0 <= w * dy <= whole <==> 0 <= dy <= h) by (nonlinear_arith)
        requires
            whole == w * h,
            w > 0,
    ;
}

/// The grid has a line along each axis through every whole metre from ten behind to ten ahead, each
/// from one end to the other.
pub proof fn lemma_grid(at: int)
    requires
        -10 <= at <= 10,
    ensures
        2 * (2 * GRID_SPAN + 1) == 42,
        grid_line(2 * (at + 10)).from.0 == at && grid_line(2 * (at + 10)).to.0 == at,
        grid_line(2 * (at + 10)).from.1 == -10 && grid_line(2 * (at + 10)).to.1 == 10,
        grid_line(2 * (at + 10) + 1).from.1 == at && grid_line(2 * (at + 10) + 1).to.1 == at,
        grid_line(2 * (at + 10) + 1).from.0 == -10 && grid_line(2 * (at + 10) + 1).to.0 == 10,
{
}

/// What is shown of a rotor, by what things are worth: a motor that has lost all but a fiftieth is
/// dead, one that has lost more than a fiftieth is weak, and of the others those turn whose throttle
/// is above a twentieth.
pub proof fn lemma_rotor_state(eff: Float32, throttle: Float32)
    ensures
        ({
            let shown = rotor_state_of(eff, throttle);
            let dead = Float32::from_bits(DEAD_MOTOR).value();
            let weak = Float32::from_bits(WEAK_MOTOR).value();
            let turning = Float32::from_bits(TURNING).value();
            let turns = !throttle.nan() && throttle.value() > turning;
            &&& shown is Dead <==> !eff.nan() && eff.value() <= dead
            &&& shown is Weak <==> !eff.nan() && dead < eff.value() < weak
            &&& shown is Turning <==> (eff.nan() || eff.value() >= weak) && turns
            &&& shown is Idle <==> (eff.nan() || eff.value() >= weak) && !turns
        }),
{
    crate::ieee::lemma_order32(eff, Float32::from_bits(DEAD_MOTOR));
    crate::ieee::lemma_order32(eff, Float32::from_bits(WEAK_MOTOR));
    crate::ieee::lemma_order32(Float32::from_bits(TURNING), throttle);
    crate::ieee::lemma_order32(Float32::from_bits(DEAD_MOTOR), Float32::from_bits(WEAK_MOTOR));
}

/// What the constants of this module are worth.
pub proof fn lemma_measures()
    ensures
        crate::ieee::is_ratio32(Float32::from_bits(NEAR_CLIP), 1, 100000),
        crate::ieee::is_ratio32(Float32::from_bits(ONE), 1, 1),
        crate::ieee::is_ratio32(Float32::from_bits(MINUS_ONE), -1, 1),
        crate::ieee::is_ratio32(Float32::from_bits(DEAD_MOTOR), 1, 50),
        crate::ieee::is_ratio32(Float32::from_bits(WEAK_MOTOR), 49, 50),
        crate::ieee::is_ratio32(Float32::from_bits(TURNING), 1, 20),
        crate::ieee::is_ratio64(Float64::from_bits(MOVING), 1, 20),
        crate::ieee::is_ratio64(Float64::from_bits(ARROW_LIMIT), 3, 1),
{
    assert(crate::ieee::is_ratio32(Float32::from_bits(NEAR_CLIP), 1, 100000)) by {
        vstd::arithmetic::power2::lemma2_to64_rest();
        crate::ieee::lemma_ratio32(Float32::from_bits(NEAR_CLIP), 1, 100000, 40);
    }
    assert(crate::ieee::is_ratio32(Float32::from_bits(ONE), 1, 1)) by {
        vstd::arithmetic::power2::lemma2_to64();
        crate::ieee::lemma_ratio32(Float32::from_bits(ONE), 1, 1, 23);
    }
    assert(crate::ieee::is_ratio32(Float32::from_bits(MINUS_ONE), -1, 1)) by {
        vstd::arithmetic::power2::lemma2_to64();
        crate::ieee::lemma_ratio32(Float32::from_bits(MINUS_ONE), -1, 1, 23);
    }
    assert(crate::ieee::is_ratio32(Float32::from_bits(DEAD_MOTOR), 1, 50)) by {
        vstd::arithmetic::power2::lemma2_to64();
        crate::ieee::lemma_ratio32(Float32::from_bits(DEAD_MOTOR), 1, 50, 29);
    }
    assert(crate::ieee::is_ratio32(Float32::from_bits(WEAK_MOTOR), 49, 50)) by {
        vstd::arithmetic::power2::lemma2_to64();
        crate::ieee::lemma_ratio32(Float32::from_bits(WEAK_MOTOR), 49, 50, 24);
    }
    assert(crate::ieee::is_ratio32(Float32::from_bits(TURNING), 1, 20)) by {
        vstd::arithmetic::power2::lemma2_to64();
        crate::ieee::lemma_ratio32(Float32::from_bits(TURNING), 1, 20, 28);
    }
    assert(crate::ieee::is_ratio64(Float64::from_bits(MOVING), 1, 20)) by {
        vstd::arithmetic::power2::lemma2_to64_rest();
        crate::ieee::lemma_ratio64(Float64::from_bits(MOVING), 1, 20, 57);
    }
    assert(crate::ieee::is_ratio64(Float64::from_bits(ARROW_LIMIT), 3, 1)) by {
        vstd::arithmetic::power2::lemma2_to64_rest();
        crate::ieee::lemma_ratio64(Float64::from_bits(ARROW_LIMIT), 3, 1, 51);
    }
}

} // verus!
