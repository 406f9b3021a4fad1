//! Contact with the ground, with obstacles and with other bodies: which contacts count, and what
//! their summary is.
//!
//! Penetrations, speeds and impulses are computed by the caller in floating point.

use crate::ieee::Float64;
use crate::obstacle::ONE;
use vstd::prelude::*;

verus! {

/// Minus five.
pub const DEFAULT_GROUND_Y: u64 = 0xC014_0000_0000_0000;

/// One fifth.
pub const DEFAULT_RESTITUTION: u64 = 0x3FC9_9999_9999_999A;

/// Four fifths.
pub const DEFAULT_FRICTION: u64 = 0x3FE9_9999_9999_999A;

/// Eight thousand.
pub const DEFAULT_PENALTY_K: u64 = 0x40BF_4000_0000_0000;

/// One tenth.
pub const DEFAULT_HALF_HEIGHT: u64 = 0x3FB9_9999_9999_999A;

/// One millionth of a metre per second: slower, a body does not slide along an obstacle.
pub const OBSTACLE_SLIP: u64 = 0x3EB0_C6F7_A0B5_ED8D;

/// One billionth of a metre per second: slower, a body does not slide along the ground.
pub const GROUND_SLIP: u64 = 0x3E11_2E0B_E826_D695;

/// One thousand-millionth: two centres closer than this have no direction between them.
pub const SAME_PLACE: u64 = 0x3E11_2E0B_E826_D695;

/// The height of the ground over the horizontal plane of the engine.
#[derive(Clone, Debug)]
pub enum TerrainField {
    /// The same height everywhere.
    Flat(Float64),
    /// Heights on a regular grid, row by row.
    HeightMap {
        origin_x: Float64,
        origin_z: Float64,
        spacing: Float64,
        nx: usize,
        nz: usize,
        heights: Vec<Float64>,
    },
}

/// What the height at a place is to be computed from.
#[derive(Clone, Copy, Debug, PartialEq, Eq, Structural)]
pub enum Surface {
    Level(Float64),
    /// The heights at the corners of a grid cell, for bilinear interpolation: the first digit counts
    /// along x, the second along z.
    Cell { h00: Float64, h10: Float64, h01: Float64, h11: Float64 },
}

/// The grid line after `i`, or `i` itself where it is the last of `n`.
pub open spec fn next_line(i: int, n: int) -> int {
    if i + 1 < n {
        i + 1
    } else {
        n - 1
    }
}

impl TerrainField {
    /// A grid without lines, or whose spacing is not positive.
    pub open spec fn degenerate(self) -> bool {
        self matches TerrainField::HeightMap { nx, nz, spacing, .. } && (nx == 0 || nz == 0
            || spacing.at_most(Float64::from_bits(0)))
    }

    /// The grid holds the cell whose lesser corner is on the lines `ix` and `iz`.
    pub open spec fn holds_cell(self, ix: int, iz: int) -> bool {
        self matches TerrainField::HeightMap { nx, nz, heights, .. } ==> {
            &&& 0 <= ix < nx
            &&& 0 <= iz < nz
            &&& next_line(iz, nz as int) * nx + next_line(ix, nx as int) < heights@.len()
        }
    }

    /// The height at the crossing of two grid lines.
    pub open spec fn height(self, ix: int, iz: int) -> Float64 {
        match self {
            TerrainField::Flat(h) => h,
            TerrainField::HeightMap { nx, heights, .. } => heights@[iz * nx + ix],
        }
    }

    /// What the height in the cell at the grid lines `ix0` and `iz0` is computed from.
    pub fn height_at(&self, ix0: usize, iz0: usize) -> (r: Surface)
        requires
            self.degenerate() || self.holds_cell(ix0 as int, iz0 as int),
        ensures
            match *self {
                TerrainField::Flat(h) => r == Surface::Level(h),
                TerrainField::HeightMap { nx, nz, .. } => if self.degenerate() {
                    r == Surface::Level(Float64::from_bits(0))
                } else {
                    let ix1 = next_line(ix0 as int, nx as int);
                    let iz1 = next_line(iz0 as int, nz as int);
                    r == (Surface::Cell {
                        h00: self.height(ix0 as int, iz0 as int),
                        h10: self.height(ix1, iz0 as int),
                        h01: self.height(ix0 as int, iz1),
                        h11: self.height(ix1, iz1),
                    })
                },
            },
    {
        match self {
            TerrainField::Flat(h) => Surface::Level(*h),
            TerrainField::HeightMap { spacing, nx, nz, heights, .. } => {
                if *nx == 0 || *nz == 0 || spacing.le(Float64::from_bits(0)) {
                    return Surface::Level(Float64::from_bits(0));
                }
                let ix1: usize = if ix0 < *nx - 1 {
                    ix0 + 1
                } else {
                    *nx - 1
                };
                let iz1: usize = if iz0 < *nz - 1 {
                    iz0 + 1
                } else {
                    *nz - 1
                };
                proof {
                    let n = *nx as int;
                    assert(iz0 * n <= iz1 * n) by (nonlinear_arith)
                        requires
                            0 <= iz0 <= iz1,
                            n >= 0,
                    ;
                    assert(iz0 * n >= 0) by (nonlinear_arith)
                        requires
                            0 <= iz0,
                            n >= 0,
                    ;
                    assert(heights.len() == heights@.len());
                }
                let row0: usize = iz0 * *nx;
                let row1: usize = iz1 * *nx;
                Surface::Cell {
                    h00: heights[row0 + ix0],
                    h10: heights[row0 + ix1],
                    h01: heights[row1 + ix0],
                    h11: heights[row1 + ix1],
                }
            },
        }
    }

    /// The ground slopes, so that its normal is to be computed from differences of height.
    pub fn has_slope(&self) -> (r: bool)
        ensures
            r == (*self matches TerrainField::HeightMap { spacing, .. } && Float64::from_bits(
                0,
            ).less(spacing)),
    {
        match self {
            TerrainField::Flat(_) => false,
            TerrainField::HeightMap { spacing, .. } => Float64::from_bits(0).lt(*spacing),
        }
    }
}

/// The corners of a cell lie on neighbouring lines, as far as there are any: past the last line there
/// is none, and the cell has no width.
pub proof fn lemma_next_line(i: int, n: int)
    requires
        0 <= i < n,
    ensures
        0 <= next_line(i, n) < n,
        next_line(i, n) == i || next_line(i, n) == i + 1,
        next_line(i, n) == i <==> i == n - 1,
{
}

/// Each height of a grid is that of one crossing of lines: the lines along x are counted through
/// before the next one along z.
pub proof fn lemma_height(field: TerrainField, j: int)
    requires
        field matches TerrainField::HeightMap { nx, heights, .. } && nx > 0 && 0 <= j
            < heights@.len(),
    ensures
        field matches TerrainField::HeightMap { nx, heights, .. } ==> field.height(
            j % (nx as int),
            j / (nx as int),
        ) == heights@[j],
{
    if let TerrainField::HeightMap { nx, .. } = field {
        vstd::arithmetic::div_mod::lemma_fundamental_div_mod(j, nx as int);
        vstd::arithmetic::mul::lemma_mul_is_commutative(j / (nx as int), nx as int);
    }
}

/// A grid gives heights where it has lines both ways and they are apart; level ground always does.
pub proof fn lemma_degenerate(field: TerrainField)
    ensures
        match field {
            TerrainField::Flat(_) => !field.degenerate(),
            TerrainField::HeightMap { nx, nz, spacing, .. } => !field.degenerate() <==> nx > 0 && nz
                > 0 && (spacing.nan() || spacing.value() > 0),
        },
{
    if let TerrainField::HeightMap { spacing, .. } = field {
        crate::ieee::lemma_order64(spacing, Float64::from_bits(0));
        crate::ieee::lemma_scale64(Float64::from_bits(0), Float64::from_bits(0));
    }
}

/// The parameters of a contact.
#[derive(Clone, Debug)]
pub struct ContactModel {
    pub ground_y: Float64,
    pub restitution: Float64,
    pub friction: Float64,
    pub penalty_k: Float64,
    pub contact_half_h: Float64,
    pub terrain: Option<TerrainField>,
}

impl Default for ContactModel {
    fn default() -> (r: Self)
        ensures
            r.ground_y == Float64::from_bits(DEFAULT_GROUND_Y),
            r.restitution == Float64::from_bits(DEFAULT_RESTITUTION),
            r.friction == Float64::from_bits(DEFAULT_FRICTION),
            r.penalty_k == Float64::from_bits(DEFAULT_PENALTY_K),
            r.contact_half_h == Float64::from_bits(DEFAULT_HALF_HEIGHT),
            r.terrain is None,
    {
        ContactModel {
            ground_y: Float64::from_bits(DEFAULT_GROUND_Y),
            restitution: Float64::from_bits(DEFAULT_RESTITUTION),
            friction: Float64::from_bits(DEFAULT_FRICTION),
            penalty_k: Float64::from_bits(DEFAULT_PENALTY_K),
            contact_half_h: Float64::from_bits(DEFAULT_HALF_HEIGHT),
            terrain: None,
        }
    }
}

impl ContactModel {
    /// The damping ratio, from what the restitution alone would give: none for an elastic contact,
    /// and never less than none or more than critical.
    pub fn damping_ratio(&self, derived: Float64) -> (r: Float64)
        ensures
            Float64::from_bits(ONE).at_most(self.restitution) ==> r == Float64::from_bits(0),
            !Float64::from_bits(ONE).at_most(self.restitution) ==> r == derived.held_between(
                Float64::from_bits(0),
                Float64::from_bits(ONE),
            ),
    {
        if Float64::from_bits(ONE).le(self.restitution) {
            Float64::from_bits(0)
        } else {
            derived.clamp(Float64::from_bits(0), Float64::from_bits(ONE))
        }
    }
}

/// A contact pushes and never pulls: an impulse that would pull is none at all.
pub fn push_only(j: Float64) -> (r: Float64)
    ensures
        r == j.greater_of(Float64::from_bits(0)),
        Float64::from_bits(0).at_most(r),
{
    j.max(Float64::from_bits(0))
}

/// The part of a normal speed that damping takes energy from: the approaching part.
pub fn approach_only(vn: Float64) -> (r: Float64)
    ensures
        r == vn.lesser_of(Float64::from_bits(0)),
        r.at_most(Float64::from_bits(0)),
{
    vn.min(Float64::from_bits(0))
}

/// A body slides along a surface: its tangential speed is above the least that friction acts on.
pub fn slides(speed: Float64, least: Float64) -> (r: bool)
    ensures
        r == least.less(speed),
{
    least.lt(speed)
}

/// The part of a tangential velocity that friction takes away, from the part that its budget would
/// suffice for: friction stops a body, and never drives it back.
pub fn friction_share(affordable: Float64) -> (r: Float64)
    ensures
        r == affordable.lesser_of(Float64::from_bits(ONE)),
        r.at_most(Float64::from_bits(ONE)),
{
    affordable.min(Float64::from_bits(ONE))
}

/// The friction between two bodies, from its budget and the impulse that would stop their slip: the
/// lesser of the two, and none without slip or without a normal impulse.
pub fn peer_friction(speed: Float64, normal: Float64, budget: Float64, stopping: Float64) -> (r:
    Float64)
    ensures
        r == if Float64::from_bits(SAME_PLACE).less(speed) && Float64::from_bits(0).less(normal) {
            budget.lesser_of(stopping)
        } else {
            Float64::from_bits(0)
        },
{
    if Float64::from_bits(SAME_PLACE).lt(speed) && Float64::from_bits(0).lt(normal) {
        budget.min(stopping)
    } else {
        Float64::from_bits(0)
    }
}

/// A penetration counts unless it is zero or less.
pub open spec fn touches(penetration: Float64) -> bool {
    !penetration.at_most(Float64::from_bits(0))
}

pub fn is_touching(penetration: Float64) -> (r: bool)
    ensures
        r == touches(penetration),
        r <==> penetration.nan() || penetration.value() > 0,
{
    proof {
        lemma_touches(penetration);
    }
    !penetration.le(Float64::from_bits(0))
}

/// Any depth at all counts as a touch, however small, and nothing that is not deep; a depth that is
/// no number counts.
pub proof fn lemma_touches(penetration: Float64)
    ensures
        !penetration.nan() ==> (touches(penetration) <==> penetration.value() > 0),
        penetration.nan() ==> touches(penetration),
{
    crate::ieee::lemma_order64(penetration, Float64::from_bits(0));
    crate::ieee::lemma_scale64(Float64::from_bits(0), Float64::from_bits(0));
}

/// What is known of the contacts of a body after a step.
#[derive(Clone, Copy, Debug, PartialEq, Eq)]
pub struct ContactInfo {
    pub touching: bool,
    pub penetration: Float64,
    pub normal_force: Float64,
    pub friction_impulse: Float64,
    pub normal: [Float64; 3],
    pub point: [Float64; 3],
    pub impulse: [Float64; 3],
}

impl ContactInfo {
    pub open spec fn is_none(self) -> bool {
        let zero = Float64::from_bits(0);
        &&& !self.touching
        &&& self.penetration == zero
        &&& self.normal_force == zero
        &&& self.friction_impulse == zero
        &&& forall|k: int|
            0 <= k < 3 ==> self.normal[k] == zero && self.point[k] == zero && #[trigger]
            self.impulse[k] == zero
    }

    /// No contact.
    pub fn none() -> (r: Self)
        ensures
            r.is_none(),
            !r.touching,
            r.penetration.bits == 0 && r.normal_force.bits == 0 && r.friction_impulse.bits == 0,
            r.normal[0].bits == 0 && r.normal[1].bits == 0 && r.normal[2].bits == 0,
            r.point[0].bits == 0 && r.point[1].bits == 0 && r.point[2].bits == 0,
            r.impulse[0].bits == 0 && r.impulse[1].bits == 0 && r.impulse[2].bits == 0,
    {
        let zero: Float64 = Float64::from_bits(0);
        ContactInfo {
            touching: false,
            penetration: zero,
            normal_force: zero,
            friction_impulse: zero,
            normal: [zero, zero, zero],
            point: [zero, zero, zero],
            impulse: [zero, zero, zero],
        }
    }
}

/// Where there is no contact, nothing is touched, and every depth, force, place and impulse is nothing.
pub proof fn lemma_no_contact(c: ContactInfo)
    requires
        c.is_none(),
    ensures
        !c.touching,
        c.penetration.bits == 0 && c.normal_force.bits == 0 && c.friction_impulse.bits == 0,
        c.normal[0].bits == 0 && c.normal[1].bits == 0 && c.normal[2].bits == 0,
        c.point[0].bits == 0 && c.point[1].bits == 0 && c.point[2].bits == 0,
        c.impulse[0].bits == 0 && c.impulse[1].bits == 0 && c.impulse[2].bits == 0,
{
    assert(c.impulse[0] == Float64::from_bits(0));
    assert(c.impulse[1] == Float64::from_bits(0));
    assert(c.impulse[2] == Float64::from_bits(0));
}

impl Default for ContactInfo {
    fn default() -> (r: Self)
        ensures
            r.is_none(),
    {
        ContactInfo::none()
    }
}

/// The contact of a body with one surface.
#[derive(Clone, Copy, Debug, PartialEq, Eq)]
pub struct SurfaceContact {
    pub point: [Float64; 3],
    pub normal: [Float64; 3],
    pub penetration: Float64,
    /// What this surface alone adds to the motion of the body.
    pub impulse: [Float64; 3],
}

/// The deepest of the surfaces that a body touches, by their penetrations: one takes the place of
/// another unless that one is at least as deep.
pub open spec fn deepest_of(pens: Seq<Float64>) -> Option<int>
    decreases pens.len(),
{
    if pens.len() == 0 {
        None
    } else {
        let before = deepest_of(pens.drop_last());
        if !touches(pens.last()) {
            before
        } else {
            match before {
                Some(i) => if pens.last().at_most(pens[i]) {
                    Some(i)
                } else {
                    Some(pens.len() - 1)
                },
                None => Some(pens.len() - 1),
            }
        }
    }
}

pub open spec fn penetrations(s: Seq<SurfaceContact>) -> Seq<Float64> {
    Seq::new(s.len(), |i: int| s[i].penetration)
}

/// The penetrations of a list of contacts are theirs, in order.
pub proof fn lemma_penetrations(s: Seq<SurfaceContact>, i: int)
    requires
        0 <= i < s.len(),
    ensures
        penetrations(s).len() == s.len(),
        penetrations(s)[i] == s[i].penetration,
{
}

/// Among numbers, the deepest is the first of the greatest penetrations, and there is one wherever
/// anything is touched.
pub proof fn lemma_deepest_of(pens: Seq<Float64>)
    requires
        crate::scan::all_numbers(pens),
    ensures
        match deepest_of(pens) {
            Some(d) => {
                &&& 0 <= d < pens.len()
                &&& touches(pens[d])
                &&& forall|i: int|
                    0 <= i < pens.len() ==> (#[trigger] pens[i]).rank() <= pens[d].rank()
                &&& forall|i: int| 0 <= i < d ==> (#[trigger] pens[i]).rank() < pens[d].rank()
            },
            None => forall|i: int| 0 <= i < pens.len() ==> !touches(#[trigger] pens[i]),
        },
    decreases pens.len(),
{
    if pens.len() > 0 {
        let t = pens.drop_last();
        assert forall|i: int| 0 <= i < t.len() implies !(#[trigger] t[i]).nan() by {
            assert(t[i] == pens[i]);
        }
        lemma_deepest_of(t);
        assert(forall|i: int| 0 <= i < t.len() ==> t[i] == #[trigger] pens[i]);
        assert(pens[pens.len() - 1] == pens.last());
    }
}

/// A penetration that is no number takes the place of whatever was the deepest before it.
pub proof fn lemma_unknown_depth(pens: Seq<Float64>)
    requires
        pens.len() > 0,
        pens.last().nan(),
    ensures
        deepest_of(pens) == Some(pens.len() - 1),
{
}

/// The indices of the surfaces that a body touches, in order: each of them adds to the impulse.
pub open spec fn touching_of(pens: Seq<Float64>) -> Seq<usize>
    decreases pens.len(),
{
    if pens.len() == 0 {
        Seq::empty()
    } else {
        let before = touching_of(pens.drop_last());
        if touches(pens.last()) {
            before.push((pens.len() - 1) as usize)
        } else {
            before
        }
    }
}

pub fn touching_surfaces(contacts: &[SurfaceContact]) -> (r: Vec<usize>)
    ensures
        r@ == touching_of(penetrations(contacts@)),
{
    let mut out: Vec<usize> = Vec::new();
    let mut i: usize = 0;
    let ghost pens = penetrations(contacts@);
    while i < contacts.len()
        invariant
            i <= contacts.len(),
            pens == penetrations(contacts@),
            out@ == touching_of(pens.take(i as int)),
        decreases contacts.len() - i,
    {
        proof {
            assert(pens.take(i + 1).drop_last() =~= pens.take(i as int));
        }
        if is_touching(contacts[i].penetration) {
            out.push(i);
        }
        i += 1;
    }
    assert(pens.take(i as int) =~= pens);
    out
}

/// Exactly the surfaces that are touched are counted: each once, and in order.
pub proof fn lemma_touching_of(pens: Seq<Float64>)
    requires
        pens.len() <= usize::MAX,
    ensures
        crate::scan::picks(
            touching_of(pens),
            Seq::new(pens.len(), |i: int| touches(pens[i])),
        ),
    decreases pens.len(),
{
    let hits = Seq::new(pens.len(), |i: int| touches(pens[i]));
    if pens.len() > 0 {
        lemma_touching_of(pens.drop_last());
        let before = Seq::new((pens.len() - 1) as nat, |i: int| touches(pens.drop_last()[i]));
        crate::scan::lemma_picks_next(
            touching_of(pens.drop_last()),
            before,
            touches(pens.last()),
        );
        assert(before.push(touches(pens.last())) =~= hits);
    }
}

/// The sum of what each of the listed contacts adds.
pub open spec fn total_of(picked: Seq<usize>, amounts: Seq<int>) -> int
    decreases picked.len(),
{
    if picked.len() == 0 {
        0
    } else {
        total_of(picked.drop_last(), amounts) + amounts[picked.last() as int]
    }
}

/// The places of a list, counted from further on.
pub open spec fn shifted(picked: Seq<usize>, by: nat) -> Seq<usize> {
    Seq::new(picked.len(), |k: int| (picked[k] + by) as usize)
}

/// Two lists of surfaces are touched as the two are, one after the other: which of the second are
/// touched does not depend on the first.
pub proof fn lemma_touching_concat(a: Seq<Float64>, b: Seq<Float64>)
    requires
        a.len() + b.len() <= usize::MAX,
    ensures
        touching_of(a + b) == touching_of(a) + shifted(touching_of(b), a.len()),
    decreases b.len(),
{
    if b.len() == 0 {
        assert(a + b =~= a);
        assert(touching_of(a) + shifted(touching_of(b), a.len()) =~= touching_of(a));
    } else {
        assert((a + b).drop_last() =~= a + b.drop_last());
        lemma_touching_concat(a, b.drop_last());
        assert(touching_of(a + b) =~= touching_of(a) + shifted(touching_of(b), a.len()));
    }
}

proof fn lemma_total_within(picked: Seq<usize>, amounts: Seq<int>, more: Seq<int>)
    requires
        forall|k: int| 0 <= k < picked.len() ==> (#[trigger] picked[k]) < amounts.len(),
    ensures
        total_of(picked, amounts + more) == total_of(picked, amounts),
    decreases picked.len(),
{
    if picked.len() > 0 {
        lemma_total_within(picked.drop_last(), amounts, more);
        assert(picked[picked.len() - 1] < amounts.len());
    }
}

proof fn lemma_total_split(first: Seq<usize>, second: Seq<usize>, a: Seq<int>, b: Seq<int>)
    requires
        a.len() + b.len() <= usize::MAX,
        forall|k: int| 0 <= k < first.len() ==> (#[trigger] first[k]) < a.len(),
        forall|k: int| 0 <= k < second.len() ==> (#[trigger] second[k]) < b.len(),
    ensures
        total_of(first + shifted(second, a.len()), a + b) == total_of(first, a) + total_of(
            second,
            b,
        ),
    decreases second.len(),
{
    let all = first + shifted(second, a.len());
    if second.len() == 0 {
        assert(all =~= first);
        lemma_total_within(first, a, b);
    } else {
        lemma_total_split(first, second.drop_last(), a, b);
        assert(all.drop_last() =~= first + shifted(second.drop_last(), a.len()));
        let last = second[second.len() - 1];
        assert(all.last() == (last + a.len()) as usize);
        assert((a + b)[last + a.len()] == b[last as int]);
    }
}

/// What the surfaces of two lists add together is what those of the one add and what those of the
/// other add, whatever a touched surface adds along an axis.
pub proof fn lemma_contacts_add(
    pens: Seq<Float64>,
    amounts: Seq<int>,
    more_pens: Seq<Float64>,
    more_amounts: Seq<int>,
)
    requires
        pens.len() == amounts.len(),
        more_pens.len() == more_amounts.len(),
        pens.len() + more_pens.len() <= usize::MAX,
    ensures
        total_of(touching_of(pens + more_pens), amounts + more_amounts) == total_of(
            touching_of(pens),
            amounts,
        ) + total_of(touching_of(more_pens), more_amounts),
{
    lemma_touching_concat(pens, more_pens);
    lemma_touching_of(pens);
    lemma_touching_of(more_pens);
    lemma_total_split(touching_of(pens), touching_of(more_pens), amounts, more_amounts);
}

/// The summary of the contacts of a body with a list of surfaces: the force and the friction that the
/// caller summed over [`touching_surfaces`], with the place, the depth and the impulse of the
/// deepest. There is a contact where a surface is touched, and none otherwise.
pub fn summarise_contacts(
    contacts: &[SurfaceContact],
    normal_force: Float64,
    friction_impulse: Float64,
) -> (r: ContactInfo)
    ensures
        r.touching <==> exists|i: int|
            0 <= i < contacts@.len() && touches((#[trigger] contacts@[i]).penetration),
        match deepest_of(penetrations(contacts@)) {
            Some(d) => r == (ContactInfo {
                touching: true,
                penetration: contacts@[d].penetration,
                normal_force,
                friction_impulse,
                normal: contacts@[d].normal,
                point: contacts@[d].point,
                impulse: contacts@[d].impulse,
            }),
            None => r.is_none(),
        },
{
    let mut deepest: Option<usize> = None;
    let mut i: usize = 0;
    let ghost pens = penetrations(contacts@);
    while i < contacts.len()
        invariant
            i <= contacts.len(),
            pens == penetrations(contacts@),
            match deepest {
                Some(d) => d < i && deepest_of(pens.take(i as int)) == Some(d as int) && touches(
                    contacts@[d as int].penetration,
                ),
                None => deepest_of(pens.take(i as int)) is None && forall|k: int|
                    0 <= k < i ==> !touches((#[trigger] contacts@[k]).penetration),
            },
        decreases contacts.len() - i,
    {
        proof {
            assert(pens.take(i + 1).drop_last() =~= pens.take(i as int));
        }
        let pen: Float64 = contacts[i].penetration;
        if is_touching(pen) {
            match deepest {
                Some(d) => {
                    if !pen.le(contacts[d].penetration) {
                        deepest = Some(i);
                    }
                },
                None => {
                    deepest = Some(i);
                },
            }
        }
        i += 1;
    }
    assert(pens.take(i as int) =~= pens);
    match deepest {
        Some(d) => ContactInfo {
            touching: true,
            penetration: contacts[d].penetration,
            normal_force,
            friction_impulse,
            normal: contacts[d].normal,
            point: contacts[d].point,
            impulse: contacts[d].impulse,
        },
        None => ContactInfo::none(),
    }
}

/// What a step leaves behind of its contacts: the one with an obstacle before the one with the
/// ground, and nothing where neither touches.
pub fn merge_contacts(ground: Option<ContactInfo>, obstacle: Option<ContactInfo>) -> (r: Option<
    ContactInfo,
>)
    ensures
        r == if obstacle matches Some(o) && o.touching {
            obstacle
        } else if ground matches Some(g) && g.touching {
            ground
        } else {
            None
        },
{
    match obstacle {
        Some(o) => {
            if o.touching {
                return obstacle;
            }
        },
        None => {},
    }
    match ground {
        Some(g) => if g.touching {
            ground
        } else {
            None
        },
        None => None,
    }
}

/// A body that may collide with others, as a sphere.
#[derive(Clone, Copy, Debug, PartialEq, Eq, Structural)]
pub struct BodyCollider {
    pub id: i64,
    /// Zero for a body that nothing moves.
    pub mass: Float64,
    pub radius: Float64,
}

/// How a body stands to another: the gap between their surfaces and the distance of their centres.
#[derive(Clone, Copy, Debug, PartialEq, Eq, Structural)]
pub struct Separation {
    pub gap: Float64,
    pub distance: Float64,
}

/// Two bodies collide: they are not the same, their surfaces overlap, and their centres are apart.
pub open spec fn collides(me: BodyCollider, peer: BodyCollider, s: Separation) -> bool {
    &&& peer.id != me.id
    &&& !Float64::from_bits(0).at_most(s.gap)
    &&& !s.distance.less(Float64::from_bits(SAME_PLACE))
}

/// Two bodies collide where they are two, the gap between them is below zero, and their centres are
/// not in one place. What is no number speaks against neither.
pub proof fn lemma_collides(me: BodyCollider, peer: BodyCollider, s: Separation)
    ensures
        collides(me, peer, s) <==> me.id != peer.id && (s.gap.nan() || s.gap.value() < 0) && (
        s.distance.nan() || Float64::from_bits(SAME_PLACE).value() <= s.distance.value()),
{
    crate::ieee::lemma_order64(Float64::from_bits(0), s.gap);
    crate::ieee::lemma_order64(s.distance, Float64::from_bits(SAME_PLACE));
    crate::ieee::lemma_scale64(Float64::from_bits(0), Float64::from_bits(0));
}

impl BodyCollider {
    /// The body answers a collision: an impulse on another is answered by the opposite one on it.
    pub fn recoils(&self) -> (r: bool)
        ensures
            r == Float64::from_bits(0).less(self.mass),
    {
        Float64::from_bits(0).lt(self.mass)
    }

    /// The mass that a collision with this body is to be computed with: that of the other body alone
    /// where this one is fixed, and the reduced mass of the two otherwise.
    pub fn effective_mass(&self, other: Float64, reduced: Float64) -> (r: Float64)
        ensures
            r == if self.mass.at_most(Float64::from_bits(0)) {
                other
            } else {
                reduced
            },
    {
        if self.mass.le(Float64::from_bits(0)) {
            other
        } else {
            reduced
        }
    }
}

/// The peers that a body collides with, in order.
pub open spec fn collisions_of(
    me: BodyCollider,
    peers: Seq<BodyCollider>,
    apart: Seq<Separation>,
) -> Seq<usize>
    decreases peers.len(),
{
    if peers.len() == 0 {
        Seq::empty()
    } else {
        let before = collisions_of(me, peers.drop_last(), apart.drop_last());
        if collides(me, peers.last(), apart.last()) {
            before.push((peers.len() - 1) as usize)
        } else {
            before
        }
    }
}

/// The peers listed are exactly those that the body collides with: each once, and in order.
pub proof fn lemma_collisions_of(me: BodyCollider, peers: Seq<BodyCollider>, apart: Seq<Separation>)
    requires
        peers.len() <= usize::MAX,
        peers.len() == apart.len(),
    ensures
        crate::scan::picks(
            collisions_of(me, peers, apart),
            Seq::new(peers.len(), |i: int| collides(me, peers[i], apart[i])),
        ),
    decreases peers.len(),
{
    let hits = Seq::new(peers.len(), |i: int| collides(me, peers[i], apart[i]));
    if peers.len() > 0 {
        let near = apart.drop_last();
        let last = collides(me, peers.last(), apart.last());
        lemma_collisions_of(me, peers.drop_last(), near);
        let before = Seq::new(
            (peers.len() - 1) as nat,
            |i: int| collides(me, peers.drop_last()[i], near[i]),
        );
        crate::scan::lemma_picks_next(
            collisions_of(me, peers.drop_last(), near),
            before,
            last,
        );
        assert(before.push(last) =~= hits);
    }
}

pub fn resolve_body_peer_collisions(
    me: BodyCollider,
    peers: &[BodyCollider],
    apart: &[Separation],
) -> (r: Vec<usize>)
    requires
        peers@.len() == apart@.len(),
    ensures
        r@ == collisions_of(me, peers@, apart@),
{
    let mut out: Vec<usize> = Vec::new();
    let mut i: usize = 0;
    while i < peers.len()
        invariant
            i <= peers.len(),
            peers@.len() == apart@.len(),
            out@ == collisions_of(me, peers@.take(i as int), apart@.take(i as int)),
        decreases peers.len() - i,
    {
        proof {
            assert(peers@.take(i + 1).drop_last() =~= peers@.take(i as int));
            assert(apart@.take(i + 1).drop_last() =~= apart@.take(i as int));
        }
        let s: Separation = apart[i];
        if peers[i].id != me.id && !Float64::from_bits(0).le(s.gap) && !s.distance.lt(
            Float64::from_bits(SAME_PLACE),
        ) {
            out.push(i);
        }
        i += 1;
    }
    assert(peers@.take(i as int) =~= peers@);
    assert(apart@.take(i as int) =~= apart@);
    out
}

/// The impulse that answers another: the same along every axis, in the opposite sense.
pub fn reaction(impulse: [Float64; 3]) -> (r: [Float64; 3])
    ensures
        forall|k: int| 0 <= k < 3 ==> #[trigger] r[k] == impulse[k].negated(),
{
    [impulse[0].neg(), impulse[1].neg(), impulse[2].neg()]
}

/// Action and reaction are equal and opposite: on every axis they stand at opposite places of the
/// scale of numbers, so that what one body gains the other loses; and the reaction to a reaction is
/// the action.
pub proof fn lemma_reaction(impulse: Float64)
    ensures
        impulse.negated().rank() == -impulse.rank(),
        impulse.negated().value() == -impulse.value(),
        impulse.negated().negated() == impulse,
{
    crate::ieee::lemma_negation64(impulse);
    let n = impulse.negated();
    assert(n.payload() == impulse.payload());
    assert(n.magnitude() == impulse.magnitude());
}

/// A body never collides with itself, even where it is listed among its own peers; and whether two
/// bodies collide does not depend on which of them is asked.
pub proof fn lemma_collision_symmetric(a: BodyCollider, b: BodyCollider, s: Separation)
    ensures
        !collides(a, a, s),
        collides(a, b, s) == collides(b, a, s),
{
}

/// What the constants of this module are worth.
pub proof fn lemma_measures()
    ensures
        crate::ieee::is_ratio64(Float64::from_bits(DEFAULT_GROUND_Y), -5, 1),
        crate::ieee::is_ratio64(Float64::from_bits(DEFAULT_RESTITUTION), 1, 5),
        crate::ieee::is_ratio64(Float64::from_bits(DEFAULT_FRICTION), 4, 5),
        crate::ieee::is_ratio64(Float64::from_bits(DEFAULT_PENALTY_K), 8000, 1),
        crate::ieee::is_ratio64(Float64::from_bits(DEFAULT_HALF_HEIGHT), 1, 10),
        crate::ieee::is_ratio64(Float64::from_bits(OBSTACLE_SLIP), 1, 1000000),
        crate::ieee::is_ratio64(Float64::from_bits(GROUND_SLIP), 1, 1000000000),
        crate::ieee::is_ratio64(Float64::from_bits(SAME_PLACE), 1, 1000000000),
{
    assert(crate::ieee::is_ratio64(Float64::from_bits(DEFAULT_GROUND_Y), -5, 1)) by {
        vstd::arithmetic::power2::lemma2_to64_rest();
        crate::ieee::lemma_ratio64(Float64::from_bits(DEFAULT_GROUND_Y), -5, 1, 50);
    }
    assert(crate::ieee::is_ratio64(Float64::from_bits(DEFAULT_RESTITUTION), 1, 5)) by {
        vstd::arithmetic::power2::lemma2_to64_rest();
        crate::ieee::lemma_ratio64(Float64::from_bits(DEFAULT_RESTITUTION), 1, 5, 55);
    }
    assert(crate::ieee::is_ratio64(Float64::from_bits(DEFAULT_FRICTION), 4, 5)) by {
        vstd::arithmetic::power2::lemma2_to64_rest();
        crate::ieee::lemma_ratio64(Float64::from_bits(DEFAULT_FRICTION), 4, 5, 53);
    }
    assert(crate::ieee::is_ratio64(Float64::from_bits(DEFAULT_PENALTY_K), 8000, 1)) by {
        vstd::arithmetic::power2::lemma2_to64_rest();
        crate::ieee::lemma_ratio64(Float64::from_bits(DEFAULT_PENALTY_K), 8000, 1, 40);
    }
    assert(crate::ieee::is_ratio64(Float64::from_bits(DEFAULT_HALF_HEIGHT), 1, 10)) by {
        vstd::arithmetic::power2::lemma2_to64_rest();
        crate::ieee::lemma_ratio64(Float64::from_bits(DEFAULT_HALF_HEIGHT), 1, 10, 56);
    }
    assert(crate::ieee::is_ratio64(Float64::from_bits(OBSTACLE_SLIP), 1, 1000000)) by {
        vstd::arithmetic::power2::lemma2_to64();
        crate::ieee::lemma_halvings();
        crate::ieee::lemma_ratio64(Float64::from_bits(OBSTACLE_SLIP), 1, 1000000, 72);
    }
    assert(crate::ieee::is_ratio64(Float64::from_bits(GROUND_SLIP), 1, 1000000000)) by {
        vstd::arithmetic::power2::lemma2_to64();
        crate::ieee::lemma_halvings();
        crate::ieee::lemma_ratio64(Float64::from_bits(GROUND_SLIP), 1, 1000000000, 82);
    }
    assert(crate::ieee::is_ratio64(Float64::from_bits(SAME_PLACE), 1, 1000000000)) by {
        vstd::arithmetic::power2::lemma2_to64();
        crate::ieee::lemma_halvings();
        crate::ieee::lemma_ratio64(Float64::from_bits(SAME_PLACE), 1, 1000000000, 82);
    }
}

} // verus!
