//! The range finder and the avoidance that follows from it.
//!
//! True distances come from the ray caster, and drawn numbers and sums from the caller.

use crate::ieee::Float64;
use crate::rng::Lcg;
use vstd::prelude::*;

verus! {

/// What the seed of a range finder is changed by, so that its noise differs from that of the other
/// sensors.
pub const SEED_MASK: u64 = 0x5EED_F1D3;

/// What one ray reads.
#[derive(Clone, Copy, Debug, PartialEq, Eq)]
pub struct RayReading {
    pub dir_ned: [Float64; 3],
    /// The distance along the ray; the greatest that can be measured where the reading is not valid.
    pub distance: Float64,
    /// Something was measured. That nothing was does not mean that nothing is there.
    pub valid: bool,
}

/// What the rays of one frame read, from the right to the left.
#[derive(Clone, Debug)]
pub struct RangeFinderFrame {
    pub rays: Vec<RayReading>,
}

impl RangeFinderFrame {
    /// The ray in the middle.
    pub fn center(&self) -> (r: &RayReading)
        requires
            self.rays@.len() > 0,
        ensures
            *r == self.rays@[self.rays@.len() as int / 2],
    {
        &self.rays[self.rays.len() / 2]
    }
}

/// What becomes of a ray.
#[derive(Clone, Copy, Debug, PartialEq, Eq, Structural)]
pub enum RayOutcome {
    /// The sensor gave nothing.
    Dropped,
    /// Nothing within range.
    OutOfRange,
    /// Too near to be seen.
    Blind,
    /// Something at this distance.
    Seen(Float64),
}

/// A range finder with rays in a fan.
#[derive(Clone, Copy, Debug, PartialEq, Eq)]
pub struct RangeFinderModel {
    pub max_range: Float64,
    /// Nearer than this nothing is seen.
    pub blind_min: Float64,
    pub noise: Float64,
    pub bias: Float64,
    pub drop_prob: Float64,
    /// Half the angle of the fan.
    pub fov_half: Float64,
    pub ray_count: usize,
    pub rng: Lcg,
}

impl RangeFinderModel {
    pub fn new(
        max_range: Float64,
        blind_min: Float64,
        noise: Float64,
        bias: Float64,
        drop_prob: Float64,
        fov_half: Float64,
        ray_count: usize,
        seed: u64,
    ) -> (r: Self)
        ensures
            r == (RangeFinderModel {
                max_range,
                blind_min,
                noise,
                bias,
                drop_prob,
                fov_half,
                ray_count,
                rng: r.rng,
            }),
            r.rng.state == ((seed ^ SEED_MASK) + crate::rng::LCG_SEED_OFFSET)
                % 0x1_0000_0000_0000_0000,
    {
        RangeFinderModel {
            max_range,
            blind_min,
            noise,
            bias,
            drop_prob,
            fov_half,
            ray_count,
            rng: Lcg::new(seed ^ SEED_MASK),
        }
    }

    /// The number of rays: at least one.
    pub fn rays(&self) -> (r: usize)
        ensures
            r == if self.ray_count == 0 {
                1
            } else {
                self.ray_count as int
            },
    {
        if self.ray_count == 0 {
            1
        } else {
            self.ray_count
        }
    }

    /// The place of a ray in the fan, as a fraction: from nothing at its right edge to all at its left
    /// edge. A single ray has no place: it looks ahead.
    pub fn ray_fraction(&self, i: usize) -> (r: Option<(usize, usize)>)
        requires
            i < self.ray_count || i == 0,
        ensures
            match r {
                None => self.ray_count <= 1,
                Some((num, den)) => self.ray_count >= 2 && num == i && den == self.ray_count - 1
                    && num <= den,
            },
    {
        if self.ray_count <= 1 {
            None
        } else {
            Some((i, self.ray_count - 1))
        }
    }

    pub open spec fn outcome_of(self, draw: Float64, true_distance: Option<Float64>) -> RayOutcome {
        if draw.less(self.drop_prob) {
            RayOutcome::Dropped
        } else {
            match true_distance {
                None => RayOutcome::OutOfRange,
                Some(d) => if self.max_range.less(d) {
                    RayOutcome::OutOfRange
                } else if d.less(self.blind_min) {
                    RayOutcome::Blind
                } else {
                    RayOutcome::Seen(d)
                },
            }
        }
    }

    /// What becomes of a ray, from a number drawn in `[0, 1)` and the true distance.
    pub fn outcome(&self, draw: Float64, true_distance: Option<Float64>) -> (r: RayOutcome)
        ensures
            r == self.outcome_of(draw, true_distance),
    {
        if draw.lt(self.drop_prob) {
            RayOutcome::Dropped
        } else {
            match true_distance {
                None => RayOutcome::OutOfRange,
                Some(d) => if self.max_range.lt(d) {
                    RayOutcome::OutOfRange
                } else if d.lt(self.blind_min) {
                    RayOutcome::Blind
                } else {
                    RayOutcome::Seen(d)
                },
            }
        }
    }

    /// What a ray reads, from what became of it and the distance with its errors.
    pub fn sample_ray(&self, dir_ned: [Float64; 3], outcome: RayOutcome, measured: Float64) -> (r:
        RayReading)
        requires
            outcome is Seen ==> Float64::from_bits(0).at_most(self.max_range),
        ensures
            r == (RayReading {
                dir_ned,
                distance: if outcome is Seen {
                    measured.held_between(Float64::from_bits(0), self.max_range)
                } else {
                    self.max_range
                },
                valid: outcome is Seen,
            }),
    {
        match outcome {
            RayOutcome::Seen(_) => RayReading {
                dir_ned,
                distance: measured.clamp(Float64::from_bits(0), self.max_range),
                valid: true,
            },
            _ => RayReading { dir_ned, distance: self.max_range, valid: false },
        }
    }
}

/// When to evade, and how hard.
#[derive(Clone, Copy, Debug, PartialEq, Eq, Structural)]
pub struct AvoidanceConfig {
    pub danger_dist: Float64,
    pub brake_gain: Float64,
    pub evade_lateral: Float64,
}

impl AvoidanceConfig {
    pub fn new(danger_dist: Float64, brake_gain: Float64, evade_lateral: Float64) -> (r: Self)
        ensures
            r == (AvoidanceConfig { danger_dist, brake_gain, evade_lateral }),
    {
        AvoidanceConfig { danger_dist, brake_gain, evade_lateral }
    }

    /// A ray pushes away: it is valid, and not at the danger distance or beyond.
    pub open spec fn repels(self, ray: RayReading) -> bool {
        ray.valid && !self.danger_dist.at_most(ray.distance)
    }

    /// The rays of a frame that push away, in order.
    pub open spec fn dangers_of(self, rays: Seq<RayReading>) -> Seq<usize>
        decreases rays.len(),
    {
        if rays.len() == 0 {
            Seq::empty()
        } else {
            let before = self.dangers_of(rays.drop_last());
            if self.repels(rays.last()) {
                before.push((rays.len() - 1) as usize)
            } else {
                before
            }
        }
    }

    /// The rays that avoidance acts on. There is a threat where there is any.
    pub fn danger_rays(&self, frame: &RangeFinderFrame) -> (r: Vec<usize>)
        ensures
            r@ == self.dangers_of(frame.rays@),
            r@.len() > 0 <==> exists|i: int|
                0 <= i < frame.rays@.len() && self.repels(#[trigger] frame.rays@[i]),
    {
        let mut out: Vec<usize> = Vec::new();
        let mut i: usize = 0;
        while i < frame.rays.len()
            invariant
                i <= frame.rays@.len(),
                out@ == self.dangers_of(frame.rays@.take(i as int)),
                out@.len() > 0 <==> exists|k: int|
                    0 <= k < i && self.repels(#[trigger] frame.rays@[k]),
            decreases frame.rays@.len() - i,
        {
            proof {
                assert(frame.rays@.take(i + 1).drop_last() =~= frame.rays@.take(i as int));
            }
            let ghost before = out@;
            let ray: RayReading = frame.rays[i];
            if ray.valid && !self.danger_dist.le(ray.distance) {
                out.push(i);
                assert(self.repels(frame.rays@[i as int]));
            } else {
                assert forall|k: int| 0 <= k < i + 1 && self.repels(
                    #[trigger] frame.rays@[k],
                ) implies 0 <= k < i by {}
            }
            i += 1;
        }
        assert(frame.rays@.take(i as int) =~= frame.rays@);
        out
    }

    /// The evasion goes to the left, from the lateral component of the sum of what pushes away.
    pub fn evades_left(&self, lateral: Float64) -> (r: bool)
        ensures
            r == lateral.less(Float64::from_bits(0)),
    {
        lateral.lt(Float64::from_bits(0))
    }
}

/// A ray that was dropped, that met nothing, that met something beyond its range or that met
/// something too near pushes nothing away: what is not seen is not evaded.
pub proof fn lemma_unseen_is_not_evaded(
    m: RangeFinderModel,
    a: AvoidanceConfig,
    r: RayReading,
    draw: Float64,
    true_distance: Option<Float64>,
)
    requires
        r.valid == (m.outcome_of(draw, true_distance) is Seen),
    ensures
        draw.less(m.drop_prob) ==> !a.repels(r),
        true_distance is None ==> !a.repels(r),
        true_distance matches Some(d) && m.max_range.less(d) ==> !a.repels(r),
        true_distance matches Some(d) && d.less(m.blind_min) ==> !a.repels(r),
{
}

/// The rays that avoidance acts on are exactly those that push away: each once, and in order.
pub proof fn lemma_dangers_of(a: AvoidanceConfig, rays: Seq<RayReading>)
    requires
        rays.len() <= usize::MAX,
    ensures
        crate::scan::picks(
            a.dangers_of(rays),
            Seq::new(rays.len(), |i: int| a.repels(rays[i])),
        ),
    decreases rays.len(),
{
    let hits = Seq::new(rays.len(), |i: int| a.repels(rays[i]));
    if rays.len() > 0 {
        lemma_dangers_of(a, rays.drop_last());
        let before = Seq::new((rays.len() - 1) as nat, |i: int| a.repels(rays.drop_last()[i]));
        crate::scan::lemma_picks_next(
            a.dangers_of(rays.drop_last()),
            before,
            a.repels(rays.last()),
        );
        assert(before.push(a.repels(rays.last())) =~= hits);
    }
}

/// What is farther away than another thing pushes away only where the nearer does too.
pub proof fn lemma_nearer_repels_first(a: AvoidanceConfig, near: RayReading, far: RayReading)
    requires
        near.valid,
        !near.distance.nan(),
        !far.distance.nan(),
        near.distance.rank() <= far.distance.rank(),
    ensures
        a.repels(far) ==> a.repels(near),
{
}

/// What becomes of a ray, by what things are worth: it is dropped where the drawn number is below the
/// probability; otherwise it sees what is neither beyond the range nor nearer than what can be seen,
/// at its true distance.
pub proof fn lemma_outcome(m: RangeFinderModel, draw: Float64, true_distance: Option<Float64>)
    ensures
        ({
            let outcome = m.outcome_of(draw, true_distance);
            let dropped = !draw.nan() && !m.drop_prob.nan() && draw.value() < m.drop_prob.value();
            &&& outcome is Dropped <==> dropped
            &&& true_distance is None && !dropped ==> outcome is OutOfRange
            &&& true_distance matches Some(d) ==> !dropped ==> {
                let beyond = !m.max_range.nan() && !d.nan() && m.max_range.value() < d.value();
                let near = !m.blind_min.nan() && !d.nan() && d.value() < m.blind_min.value();
                &&& outcome is OutOfRange <==> beyond
                &&& outcome is Blind <==> near && !beyond
                &&& outcome == RayOutcome::Seen(d) <==> !near && !beyond
            }
        }),
{
    crate::ieee::lemma_order64(draw, m.drop_prob);
    if let Some(d) = true_distance {
        crate::ieee::lemma_order64(m.max_range, d);
        crate::ieee::lemma_order64(d, m.blind_min);
    }
}

/// A ray pushes away where it measured something, and that is not worth the danger distance or more.
pub proof fn lemma_repels(a: AvoidanceConfig, ray: RayReading)
    ensures
        a.repels(ray) <==> ray.valid && (a.danger_dist.nan() || ray.distance.nan()
            || ray.distance.value() < a.danger_dist.value()),
{
    crate::ieee::lemma_order64(a.danger_dist, ray.distance);
}

} // verus!
