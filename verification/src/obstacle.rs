//! Static obstacles: flattening hulls, the nearest face of a box, and what a ray meets first.
//!
//! Distances and ray parameters are computed by the caller in floating point; which of them counts,
//! and what follows from it, is decided here.

use crate::ieee::Float64;
use crate::scan::least_index;
use vstd::prelude::*;

verus! {

/// One, as a bit pattern.
pub const ONE: u64 = 0x3FF0_0000_0000_0000;

pub const MINUS_ONE: u64 = 0xBFF0_0000_0000_0000;

pub const INFINITY: u64 = 0x7FF0_0000_0000_0000;

pub const MINUS_INFINITY: u64 = 0xFFF0_0000_0000_0000;

/// One millionth: a ray that meets an obstacle closer than this has started on its surface.
pub const RAY_START: u64 = 0x3EB0_C6F7_A0B5_ED8D;

/// One thousand-millionth: a length below it has no direction, and a ray whose component is below
/// it runs parallel to an axis plane.
pub const NO_DIRECTION: u64 = 0x3E11_2E0B_E826_D695;

/// A static obstacle, in the world frame of the engine.
#[derive(Debug)]
pub enum Obstacle {
    Sphere { center: [Float64; 3], radius: Float64 },
    /// An axis-aligned box by its least and its greatest corner.
    Box { min: [Float64; 3], max: [Float64; 3] },
    /// A convex body approximated by the union of its parts.
    ConvexHull { parts: Vec<Obstacle> },
}

/// The spheres and boxes that an obstacle is made of, in order.
pub open spec fn leaves(o: Obstacle) -> Seq<Obstacle>
    decreases o,
{
    match o {
        Obstacle::ConvexHull { parts } => leaves_of_all(parts@),
        _ => seq![o],
    }
}

/// The spheres and boxes that a list of obstacles is made of, in order.
pub open spec fn leaves_of_all(s: Seq<Obstacle>) -> Seq<Obstacle>
    decreases s,
{
    if s.len() == 0 {
        Seq::empty()
    } else {
        leaves(s[0]) + leaves_of_all(s.skip(1))
    }
}

/// Flattening two lists one after the other is flattening them together.
pub proof fn lemma_leaves_concat(a: Seq<Obstacle>, b: Seq<Obstacle>)
    ensures
        leaves_of_all(a + b) == leaves_of_all(a) + leaves_of_all(b),
    decreases a.len(),
{
    if a.len() == 0 {
        assert(a + b =~= b);
        assert(leaves_of_all(a) + leaves_of_all(b) =~= leaves_of_all(b));
    } else {
        assert((a + b).skip(1) =~= a.skip(1) + b);
        lemma_leaves_concat(a.skip(1), b);
        assert(leaves(a[0]) + (leaves_of_all(a.skip(1)) + leaves_of_all(b)) =~= leaves(a[0])
            + leaves_of_all(a.skip(1)) + leaves_of_all(b));
    }
}

/// No hull is left after flattening, at any depth.
pub proof fn lemma_leaves_hold_no_hull(s: Seq<Obstacle>)
    ensures
        forall|i: int|
            0 <= i < leaves_of_all(s).len() ==> !((#[trigger] leaves_of_all(s)[i]) is ConvexHull),
    decreases s,
{
    if s.len() > 0 {
        lemma_leaves_hold_no_hull(s.skip(1));
        let head = leaves(s[0]);
        let tail = leaves_of_all(s.skip(1));
        match s[0] {
            Obstacle::ConvexHull { parts } => {
                lemma_leaves_hold_no_hull(parts@);
                assert(head == leaves_of_all(parts@));
            },
            _ => {},
        }
        assert forall|i: int| 0 <= i < leaves_of_all(s).len() implies !((
        #[trigger] leaves_of_all(s)[i]) is ConvexHull) by {
            if i < head.len() {
                assert(leaves_of_all(s)[i] == head[i]);
            } else {
                assert(leaves_of_all(s)[i] == tail[i - head.len()]);
            }
        }
    }
}

/// A list without hulls is left as it is; so flattening twice is flattening once.
pub proof fn lemma_flat_stays(s: Seq<Obstacle>)
    requires
        forall|i: int| 0 <= i < s.len() ==> !((#[trigger] s[i]) is ConvexHull),
    ensures
        leaves_of_all(s) == s,
    decreases s.len(),
{
    if s.len() > 0 {
        let t = s.skip(1);
        assert forall|i: int| 0 <= i < t.len() implies !((#[trigger] t[i]) is ConvexHull) by {
            assert(t[i] == s[i + 1]);
        }
        lemma_flat_stays(t);
        assert(leaves(s[0]) == seq![s[0]]);
        assert(seq![s[0]] + t =~= s);
    }
}

/// Flattening what is already flattened changes nothing.
pub proof fn lemma_flatten_idempotent(s: Seq<Obstacle>)
    ensures
        leaves_of_all(leaves_of_all(s)) == leaves_of_all(s),
{
    lemma_leaves_hold_no_hull(s);
    lemma_flat_stays(leaves_of_all(s));
}

/// The spheres and boxes of a list of obstacles, hulls replaced by their parts at every depth.
pub fn flatten_obstacles(obstacles: &[Obstacle]) -> (out: Vec<Obstacle>)
    ensures
        out@ == leaves_of_all(obstacles@),
    decreases obstacles@,
{
    let mut out: Vec<Obstacle> = Vec::new();
    let mut i: usize = 0;
    assert(obstacles@.take(0) =~= Seq::<Obstacle>::empty());
    while i < obstacles.len()
        invariant
            i <= obstacles.len(),
            out@ == leaves_of_all(obstacles@.take(i as int)),
        decreases obstacles.len() - i,
    {
        let ghost done = obstacles@.take(i as int);
        let ghost next = obstacles@[i as int];
        proof {
            assert(obstacles@.take(i + 1) =~= done + seq![next]);
            lemma_leaves_concat(done, seq![next]);
            assert(seq![next].skip(1) =~= Seq::<Obstacle>::empty());
            assert(leaves_of_all(seq![next].skip(1)) =~= Seq::<Obstacle>::empty());
            assert(leaves_of_all(seq![next]) =~= leaves(next));
        }
        match &obstacles[i] {
            Obstacle::ConvexHull { parts } => {
                let mut inner: Vec<Obstacle> = flatten_obstacles(parts.as_slice());
                out.append(&mut inner);
            },
            Obstacle::Sphere { center, radius } => {
                out.push(Obstacle::Sphere { center: *center, radius: *radius });
            },
            Obstacle::Box { min, max } => {
                out.push(Obstacle::Box { min: *min, max: *max });
            },
        }
        i += 1;
    }
    assert(obstacles@.take(i as int) =~= obstacles@);
    out
}

/// Two obstacles are built alike: the same hulls around spheres of the same radii and boxes, in the
/// same order.
pub open spec fn same_shape(a: Obstacle, b: Obstacle) -> bool
    decreases a,
{
    match (a, b) {
        (Obstacle::Sphere { radius: r, .. }, Obstacle::Sphere { radius: s, .. }) => r == s,
        (Obstacle::Box { .. }, Obstacle::Box { .. }) => true,
        (Obstacle::ConvexHull { parts: p }, Obstacle::ConvexHull { parts: q }) => {
            p@.len() == q@.len() && forall|i: int|
                0 <= i < p@.len() ==> same_shape(#[trigger] p@[i], q@[i])
        },
        _ => false,
    }
}

/// Each of `moved` can stand in for the sphere or box at its place in `s`: it is of the same kind,
/// and a sphere keeps its radius.
pub open spec fn match_kinds(s: Seq<Obstacle>, moved: Seq<Obstacle>) -> bool {
    s.len() == moved.len() && forall|i: int|
        0 <= i < s.len() ==> same_shape(#[trigger] s[i], moved[i])
}

/// An obstacle that moves at a constant velocity.
#[derive(Debug)]
pub struct DynamicObstacle {
    /// Where the obstacle is at time zero.
    pub base: Obstacle,
    pub velocity: [Float64; 3],
}

impl DynamicObstacle {
    /// The obstacle at another time, from its spheres and boxes at that time.
    pub fn at(&self, moved: &[Obstacle]) -> (r: Obstacle)
        requires
            match_kinds(leaves(self.base), moved@),
        ensures
            same_shape(self.base, r),
            leaves(r) == moved@,
    {
        let (r, next) = translate_obstacle(&self.base, moved, 0);
        assert(moved@.subrange(0, moved@.len() as int) =~= moved@);
        r
    }
}

/// The obstacle with its spheres and boxes replaced, in order, by those of `moved` from `from` on,
/// and where in `moved` those that it takes end.
fn translate_obstacle(o: &Obstacle, moved: &[Obstacle], from: usize) -> (r: (Obstacle, usize))
    requires
        from + leaves(*o).len() <= moved@.len(),
        match_kinds(leaves(*o), moved@.subrange(from as int, from + leaves(*o).len())),
    ensures
        same_shape(*o, r.0),
        r.1 == from + leaves(*o).len(),
        leaves(r.0) == moved@.subrange(from as int, r.1 as int),
    decreases *o,
{
    match o {
        Obstacle::ConvexHull { parts } => {
            let mut new_parts: Vec<Obstacle> = Vec::new();
            let mut at: usize = from;
            let mut i: usize = 0;
            let ghost all = leaves_of_all(parts@);
            proof {
                assert(parts@.skip(0) =~= parts@);
                assert(moved@.subrange(from as int, from as int) =~= Seq::<Obstacle>::empty());
                assert(leaves_of_all(new_parts@) =~= Seq::<Obstacle>::empty());
            }
            while i < parts.len()
                invariant
                    o == (Obstacle::ConvexHull { parts: *parts }),
                    i <= parts.len(),
                    new_parts@.len() == i,
                    forall|k: int| 0 <= k < i ==> same_shape(#[trigger] parts@[k], new_parts@[k]),
                    from <= at <= moved@.len(),
                    all == leaves_of_all(parts@),
                    from + all.len() <= moved@.len(),
                    at + leaves_of_all(parts@.skip(i as int)).len() == from + all.len(),
                    leaves_of_all(new_parts@) == moved@.subrange(from as int, at as int),
                    match_kinds(
                        leaves_of_all(parts@.skip(i as int)),
                        moved@.subrange(at as int, from + all.len()),
                    ),
                decreases parts.len() - i,
            {
                let ghost rest = parts@.skip(i as int);
                let ghost head = leaves(rest[0]);
                let ghost tail = leaves_of_all(rest.skip(1));
                let ghost built = new_parts@;
                let ghost start = at as int;
                let ghost want = moved@.subrange(start, from + all.len());
                proof {
                    assert(rest.skip(1) =~= parts@.skip(i + 1));
                    assert(leaves_of_all(rest) == head + tail);
                    assert(head == leaves(parts@[i as int]));
                    let mine = moved@.subrange(start, start + head.len());
                    assert forall|k: int| 0 <= k < head.len() implies same_shape(
                        #[trigger] head[k],
                        mine[k],
                    ) by {
                        assert((head + tail)[k] == head[k]);
                        assert(want[k] == mine[k]);
                    }
                }
                assert(decreases_to!(*o => o->parts));
                assert(decreases_to!(o->parts => o->parts@));
                assert(o->parts@ == parts@);
                assert(decreases_to!(parts@ => parts@[i as int]));
                let (p, next) = translate_obstacle(&parts[i], moved, at);
                new_parts.push(p);
                at = next;
                proof {
                    let theirs = moved@.subrange(at as int, from + all.len());
                    assert forall|k: int| 0 <= k < tail.len() implies same_shape(
                        #[trigger] tail[k],
                        theirs[k],
                    ) by {
                        assert((head + tail)[head.len() + k] == tail[k]);
                        assert(want[head.len() + k] == theirs[k]);
                    }
                    assert(new_parts@ =~= built + seq![p]);
                    lemma_leaves_concat(built, seq![p]);
                    assert(seq![p].skip(1) =~= Seq::<Obstacle>::empty());
                    assert(leaves_of_all(seq![p].skip(1)) =~= Seq::<Obstacle>::empty());
                    assert(leaves_of_all(seq![p]) =~= leaves(p));
                    assert(moved@.subrange(from as int, start) + moved@.subrange(start, at as int)
                        =~= moved@.subrange(from as int, at as int));
                }
                i += 1;
            }
            proof {
                assert(parts@.skip(i as int) =~= Seq::<Obstacle>::empty());
                assert(leaves_of_all(parts@.skip(i as int)) =~= Seq::<Obstacle>::empty());
            }
            (Obstacle::ConvexHull { parts: new_parts }, at)
        },
        _ => {
            let ghost mine = moved@.subrange(from as int, from + 1);
            proof {
                assert(leaves(*o) == seq![*o]);
                assert(same_shape(leaves(*o)[0], mine[0]));
                assert(mine =~= seq![moved@[from as int]]);
            }
            let r: Obstacle = match &moved[from] {
                Obstacle::Sphere { center, radius } => {
                    Obstacle::Sphere { center: *center, radius: *radius }
                },
                Obstacle::Box { min, max } => Obstacle::Box { min: *min, max: *max },
                Obstacle::ConvexHull { parts } => Obstacle::ConvexHull { parts: Vec::new() },
            };
            assert(leaves(r) =~= mine);
            (r, from + 1)
        },
    }
}

/// `p` lies in the box, its surface included.
pub open spec fn in_box(p: [Float64; 3], min: [Float64; 3], max: [Float64; 3]) -> bool {
    forall|i: int|
        0 <= i < 3 ==> (#[trigger] min[i]).at_most(p[i]) && p[i].at_most(max[i])
}

/// The corners of a box are in order on every axis.
pub open spec fn corners_in_order(min: [Float64; 3], max: [Float64; 3]) -> bool {
    forall|i: int| 0 <= i < 3 ==> (#[trigger] min[i]).at_most(max[i])
}

/// The component, on an axis, of the outward normal of a face. The faces are counted axis by axis,
/// the one towards lesser coordinates first.
pub open spec fn face_component(face: int, axis: int) -> Float64 {
    if face / 2 != axis {
        Float64::from_bits(0)
    } else if face % 2 == 0 {
        Float64::from_bits(MINUS_ONE)
    } else {
        Float64::from_bits(ONE)
    }
}

/// Where a point is relative to a box, and the point of the box that is nearest to it.
#[derive(Clone, Copy, Debug, PartialEq, Eq)]
pub enum BoxContact {
    /// In the box: the way out is along the normal of the nearest face.
    Inside { point: [Float64; 3], normal: [Float64; 3] },
    Outside { point: [Float64; 3] },
}

/// The outward normal of a face of a box.
pub fn face_normal(face: usize) -> (r: [Float64; 3])
    ensures
        forall|k: int| 0 <= k < 3 ==> #[trigger] r[k] == face_component(face as int, k),
{
    let zero: Float64 = Float64::from_bits(0);
    let unit: Float64 = if face % 2 == 0 {
        Float64::from_bits(MINUS_ONE)
    } else {
        Float64::from_bits(ONE)
    };
    if face / 2 == 0 {
        [unit, zero, zero]
    } else if face / 2 == 1 {
        [zero, unit, zero]
    } else if face / 2 == 2 {
        [zero, zero, unit]
    } else {
        [zero, zero, zero]
    }
}

/// The contact of a point with a box. `gaps` are the distances from the point to the faces.
pub fn box_contact(
    p: [Float64; 3],
    min: [Float64; 3],
    max: [Float64; 3],
    gaps: [Float64; 6],
) -> (r: BoxContact)
    requires
        corners_in_order(min, max),
    ensures
        match r {
            BoxContact::Inside { point, normal } => {
                &&& in_box(p, min, max)
                &&& point == p
                &&& forall|k: int|
                    0 <= k < 3 ==> #[trigger] normal[k] == face_component(
                        crate::scan::least_of(gaps@),
                        k,
                    )
            },
            BoxContact::Outside { point } => {
                &&& !in_box(p, min, max)
                &&& forall|k: int|
                    0 <= k < 3 ==> #[trigger] point[k] == p[k].held_between(min[k], max[k])
            },
        },
{
    assert(min[0].at_most(max[0]) && min[1].at_most(max[1]) && min[2].at_most(max[2]));
    let inside: bool = min[0].le(p[0]) && p[0].le(max[0]) && min[1].le(p[1]) && p[1].le(max[1])
        && min[2].le(p[2]) && p[2].le(max[2]);
    if inside {
        let face: usize = least_index(&gaps);
        BoxContact::Inside { point: p, normal: face_normal(face) }
    } else {
        proof {
            assert(!in_box(p, min, max)) by {
                if in_box(p, min, max) {
                    assert(min[0].at_most(p[0]) && min[1].at_most(p[1]) && min[2].at_most(p[2]));
                }
            }
        }
        BoxContact::Outside {
            point: [
                p[0].clamp(min[0], max[0]),
                p[1].clamp(min[1], max[1]),
                p[2].clamp(min[2], max[2]),
            ],
        }
    }
}

/// The point that stands for a box in a contact lies in the box.
pub proof fn lemma_held_point_in_box(
    p: [Float64; 3],
    min: [Float64; 3],
    max: [Float64; 3],
    point: [Float64; 3],
)
    requires
        corners_in_order(min, max),
        !p[0].nan() && !p[1].nan() && !p[2].nan(),
        forall|k: int| 0 <= k < 3 ==> #[trigger] point[k] == p[k].held_between(min[k], max[k]),
    ensures
        in_box(point, min, max),
{
    assert forall|i: int| 0 <= i < 3 implies (#[trigger] min[i]).at_most(point[i])
        && point[i].at_most(max[i]) by {
        assert(point[i] == p[i].held_between(min[i], max[i]));
        assert(i == 0 || i == 1 || i == 2);
    }
}

/// A direction, or straight up where the length that it was divided by is no more than `least`.
pub fn direction_or_up(length: Float64, least: Float64, unit: [Float64; 3]) -> (r: [Float64; 3])
    ensures
        least.less(length) ==> r == unit,
        !least.less(length) ==> r[0] == Float64::from_bits(0) && r[1] == Float64::from_bits(ONE)
            && r[2] == Float64::from_bits(0),
{
    if least.lt(length) {
        unit
    } else {
        [Float64::from_bits(0), Float64::from_bits(ONE), Float64::from_bits(0)]
    }
}

/// The part of a hull that is nearest, from the distances of the parts: the first of the least, or
/// none where no distance is less than infinite.
pub open spec fn nearest_of(dists: Seq<Float64>) -> Option<int>
    decreases dists.len(),
{
    if dists.len() == 0 {
        None
    } else {
        let before = nearest_of(dists.drop_last());
        let bound = match before {
            Some(i) => dists[i],
            None => Float64::from_bits(INFINITY),
        };
        if dists.last().less(bound) {
            Some(dists.len() - 1)
        } else {
            before
        }
    }
}

pub fn nearest_part(dists: &[Float64]) -> (r: Option<usize>)
    ensures
        match r {
            Some(i) => i < dists.len() && nearest_of(dists@) == Some(i as int),
            None => nearest_of(dists@) == None::<int>,
        },
{
    let mut best: Option<usize> = None;
    let mut bound: Float64 = Float64::from_bits(INFINITY);
    let mut i: usize = 0;
    while i < dists.len()
        invariant
            i <= dists.len(),
            match best {
                Some(k) => k < i && nearest_of(dists@.take(i as int)) == Some(k as int) && bound
                    == dists@[k as int],
                None => nearest_of(dists@.take(i as int)) == None::<int> && bound
                    == Float64::from_bits(INFINITY),
            },
        decreases dists.len() - i,
    {
        proof {
            assert(dists@.take(i + 1).drop_last() =~= dists@.take(i as int));
        }
        if dists[i].lt(bound) {
            best = Some(i);
            bound = dists[i];
        }
        i += 1;
    }
    assert(dists@.take(i as int) =~= dists@);
    best
}

/// A ray parameter that counts as a hit: ahead of the start, and within the range.
pub open spec fn in_ray_range(t: Float64, max_range: Float64) -> bool {
    Float64::from_bits(RAY_START).less(t) && t.at_most(max_range)
}

fn filter_range(hit: Option<Float64>, max_range: Float64) -> (r: Option<Float64>)
    ensures
        r == match hit {
            Some(t) => if in_ray_range(t, max_range) {
                Some(t)
            } else {
                None
            },
            None => None,
        },
{
    match hit {
        Some(t) => if Float64::from_bits(RAY_START).lt(t) && t.le(max_range) {
            Some(t)
        } else {
            None
        },
        None => None,
    }
}

/// Where a ray meets a sphere, from the discriminant and the two roots: the nearer root that lies
/// ahead of the start, within the range.
pub open spec fn sphere_hit_of(
    disc: Float64,
    t1: Float64,
    t2: Float64,
    max_range: Float64,
) -> Option<Float64> {
    let start = Float64::from_bits(RAY_START);
    if disc.less(Float64::from_bits(0)) {
        None
    } else if start.less(t1) {
        if t1.at_most(max_range) {
            Some(t1)
        } else {
            None
        }
    } else if in_ray_range(t2, max_range) {
        Some(t2)
    } else {
        None
    }
}

pub fn sphere_hit(disc: Float64, t1: Float64, t2: Float64, max_range: Float64) -> (r: Option<
    Float64,
>)
    ensures
        r == sphere_hit_of(disc, t1, t2, max_range),
{
    let start: Float64 = Float64::from_bits(RAY_START);
    if disc.lt(Float64::from_bits(0)) {
        None
    } else if start.lt(t1) {
        filter_range(Some(t1), max_range)
    } else if start.lt(t2) {
        filter_range(Some(t2), max_range)
    } else {
        None
    }
}

/// A ray and a box. `t1` and `t2` are the parameters at which the ray crosses the planes of the
/// lesser and of the greater coordinate of each axis; they count only where the ray is not parallel
/// to these planes.
#[derive(Clone, Copy, Debug, PartialEq, Eq)]
pub struct BoxRay {
    pub origin: [Float64; 3],
    pub dir: [Float64; 3],
    pub min: [Float64; 3],
    pub max: [Float64; 3],
    pub t1: [Float64; 3],
    pub t2: [Float64; 3],
}

impl BoxRay {
    pub open spec fn parallel(self, i: int) -> bool {
        self.dir[i].absolute().less(Float64::from_bits(NO_DIRECTION))
    }

    /// On a parallel axis, the ray starts, and so stays, beyond one of the planes.
    pub open spec fn misses(self, i: int) -> bool {
        self.origin[i].less(self.min[i]) || self.max[i].less(self.origin[i])
    }

    pub open spec fn enters(self, i: int) -> Float64 {
        if self.t1[i].less(self.t2[i]) {
            self.t1[i]
        } else {
            self.t2[i]
        }
    }

    pub open spec fn leaves(self, i: int) -> Float64 {
        if self.t1[i].less(self.t2[i]) {
            self.t2[i]
        } else {
            self.t1[i]
        }
    }

    /// The stretch of the ray that lies between the planes of each of the first `n` axes, from its
    /// first parameter to its last.
    pub open spec fn stretch(self, n: nat) -> Option<(Float64, Float64)>
        decreases n,
    {
        if n == 0 {
            Some((Float64::from_bits(MINUS_INFINITY), Float64::from_bits(INFINITY)))
        } else {
            let i = n - 1;
            match self.stretch((n - 1) as nat) {
                None => None,
                Some((a, b)) => if self.parallel(i) {
                    if self.misses(i) {
                        None
                    } else {
                        Some((a, b))
                    }
                } else {
                    let first = if a.less(self.enters(i)) {
                        self.enters(i)
                    } else {
                        a
                    };
                    let last = if self.leaves(i).less(b) {
                        self.leaves(i)
                    } else {
                        b
                    };
                    if last.less(first) {
                        None
                    } else {
                        Some((first, last))
                    }
                },
            }
        }
    }

    /// Where the ray meets the box: where it enters, or, where it starts inside, where it leaves.
    pub open spec fn hit_of(self, max_range: Float64) -> Option<Float64> {
        match self.stretch(3) {
            None => None,
            Some((first, last)) => {
                let t = if Float64::from_bits(RAY_START).less(first) {
                    first
                } else {
                    last
                };
                if !last.less(Float64::from_bits(0)) && in_ray_range(t, max_range) {
                    Some(t)
                } else {
                    None
                }
            },
        }
    }

    /// The parameter `t` lies between the planes of an axis.
    pub open spec fn between_planes(self, i: int, t: Float64) -> bool {
        if self.parallel(i) {
            !self.misses(i)
        } else {
            self.enters(i).at_most(t) && t.at_most(self.leaves(i))
        }
    }

    /// Everything that is compared is a number.
    pub open spec fn numeric(self) -> bool {
        forall|i: int|
            #![trigger self.dir[i]]
            0 <= i < 3 ==> {
                &&& !self.dir[i].nan()
                &&& !self.origin[i].nan()
                &&& !self.min[i].nan()
                &&& !self.max[i].nan()
                &&& !self.t1[i].nan()
                &&& !self.t2[i].nan()
            }
    }

    pub fn hit(&self, max_range: Float64) -> (r: Option<Float64>)
        ensures
            r == self.hit_of(max_range),
    {
        let start: Float64 = Float64::from_bits(RAY_START);
        let mut first: Float64 = Float64::from_bits(MINUS_INFINITY);
        let mut last: Float64 = Float64::from_bits(INFINITY);
        let mut i: usize = 0;
        while i < 3
            invariant
                i <= 3,
                self.stretch(i as nat) == Some((first, last)),
            decreases 3 - i,
        {
            proof {
                reveal_with_fuel(BoxRay::stretch, 4);
            }
            if self.dir[i].abs().lt(Float64::from_bits(NO_DIRECTION)) {
                if self.origin[i].lt(self.min[i]) || self.max[i].lt(self.origin[i]) {
                    return None;
                }
            } else {
                let ordered: bool = self.t1[i].lt(self.t2[i]);
                let enter: Float64 = if ordered {
                    self.t1[i]
                } else {
                    self.t2[i]
                };
                let leave: Float64 = if ordered {
                    self.t2[i]
                } else {
                    self.t1[i]
                };
                if first.lt(enter) {
                    first = enter;
                }
                if leave.lt(last) {
                    last = leave;
                }
                if last.lt(first) {
                    return None;
                }
            }
            i += 1;
        }
        if last.lt(Float64::from_bits(0)) {
            return None;
        }
        let t: Float64 = if start.lt(first) {
            first
        } else {
            last
        };
        filter_range(Some(t), max_range)
    }
}

/// The stretch is exactly what lies between the planes of all the axes that were looked at.
pub proof fn lemma_stretch_is_intersection(ray: BoxRay, n: nat, t: Float64)
    requires
        ray.numeric(),
        n <= 3,
        !t.nan(),
    ensures
        ray.stretch(n) matches Some((a, b)) ==> a.at_most(b),
        (forall|i: int| 0 <= i < n ==> #[trigger] ray.between_planes(i, t)) <==> (match ray.stretch(
            n,
        ) {
            Some((a, b)) => a.at_most(t) && t.at_most(b),
            None => false,
        }),
    decreases n,
{
    if n > 0 {
        let m = (n - 1) as nat;
        lemma_stretch_is_intersection(ray, m, t);
        let i = n - 1;
        assert(!ray.dir[i].nan());
        assert((forall|k: int| 0 <= k < n ==> #[trigger] ray.between_planes(k, t)) <==> ((forall|
            k: int,
        |
            0 <= k < m ==> #[trigger] ray.between_planes(k, t)) && ray.between_planes(i, t)));
    }
}

/// A hit lies in the box and within the range; and where the ray starts outside, nothing of the box
/// lies on it between the start and the hit.
pub proof fn lemma_box_hit_is_first(ray: BoxRay, max_range: Float64, t: Float64)
    requires
        ray.numeric(),
        ray.hit_of(max_range) == Some(t),
    ensures
        in_ray_range(t, max_range),
        forall|i: int| 0 <= i < 3 ==> #[trigger] ray.between_planes(i, t),
        forall|u: Float64|
            (#[trigger] u.less(t)) && Float64::from_bits(RAY_START).less(ray.stretch(3).unwrap().0)
                ==> !(ray.between_planes(0, u) && ray.between_planes(1, u) && ray.between_planes(
                2,
                u,
            )),
{
    lemma_stretch_is_intersection(ray, 3, t);
    assert forall|u: Float64|
        (#[trigger] u.less(t)) && Float64::from_bits(RAY_START).less(
            ray.stretch(3).unwrap().0,
        ) implies !(ray.between_planes(0, u) && ray.between_planes(1, u) && ray.between_planes(2, u)) by {
        lemma_stretch_is_intersection(ray, 3, u);
    }
}

/// The parameter lies between the planes of an axis, whichever of the two the ray crosses first. On
/// an axis that the ray does not move along, it is the start that has to lie between them.
pub open spec fn between(ray: BoxRay, i: int, t: Float64) -> bool {
    let along = ray.dir[i].value();
    let least = Float64::from_bits(NO_DIRECTION).value();
    if -least < along < least {
        ray.min[i].value() <= ray.origin[i].value() <= ray.max[i].value()
    } else {
        ||| ray.t1[i].value() <= t.value() <= ray.t2[i].value()
        ||| ray.t2[i].value() <= t.value() <= ray.t1[i].value()
    }
}

/// The point of the ray at the parameter lies in the box.
pub open spec fn point_in_box(ray: BoxRay, t: Float64) -> bool {
    !t.nan() && between(ray, 0, t) && between(ray, 1, t) && between(ray, 2, t)
}

proof fn lemma_between(ray: BoxRay, i: int, t: Float64)
    requires
        ray.numeric(),
        0 <= i < 3,
        !t.nan(),
    ensures
        ray.between_planes(i, t) <==> between(ray, i, t),
{
    assert(!ray.dir[i].nan());
    crate::ieee::lemma_signs64(ray.dir[i]);
    crate::ieee::lemma_order64(ray.dir[i].absolute(), Float64::from_bits(NO_DIRECTION));
    crate::ieee::lemma_order64(ray.origin[i], ray.min[i]);
    crate::ieee::lemma_order64(ray.max[i], ray.origin[i]);
    crate::ieee::lemma_order64(ray.t1[i], ray.t2[i]);
    crate::ieee::lemma_order64(ray.t1[i], t);
    crate::ieee::lemma_order64(ray.t2[i], t);
    crate::ieee::lemma_order64(t, ray.t1[i]);
    crate::ieee::lemma_order64(t, ray.t2[i]);
}

proof fn lemma_point_in_box(ray: BoxRay, t: Float64)
    requires
        ray.numeric(),
        !t.nan(),
    ensures
        point_in_box(ray, t) <==> (ray.stretch(3) matches Some((a, b)) && a.value() <= t.value()
            && t.value() <= b.value()),
        ray.stretch(3) matches Some((a, b)) ==> !a.nan() && !b.nan() && a.value() <= b.value(),
{
    lemma_stretch_is_intersection(ray, 3, t);
    lemma_between(ray, 0, t);
    lemma_between(ray, 1, t);
    lemma_between(ray, 2, t);
    assert((forall|i: int| 0 <= i < 3 ==> #[trigger] ray.between_planes(i, t)) <==> (
    ray.between_planes(0, t) && ray.between_planes(1, t) && ray.between_planes(2, t)));
    match ray.stretch(3) {
        Some((a, b)) => {
            crate::ieee::lemma_order64(a, b);
            crate::ieee::lemma_order64(a, t);
            crate::ieee::lemma_order64(t, b);
        },
        None => {},
    }
}

/// A ray that starts outside a box and has a point of it ahead and within the range hits it, in the
/// first of its points, whichever of its planes it crosses first.
pub proof fn lemma_ray_meets_box(ray: BoxRay, max_range: Float64, t: Float64)
    requires
        ray.numeric(),
        !max_range.nan(),
        point_in_box(ray, t),
        t.value() <= max_range.value(),
        forall|u: Float64| #[trigger]
            point_in_box(ray, u) ==> Float64::from_bits(RAY_START).value() < u.value(),
    ensures
        ray.hit_of(max_range) matches Some(h) && {
            &&& point_in_box(ray, h)
            &&& h.value() <= t.value()
            &&& forall|u: Float64| #[trigger] point_in_box(ray, u) ==> h.value() <= u.value()
        },
{
    let start = Float64::from_bits(RAY_START);
    lemma_point_in_box(ray, t);
    let (a, b) = ray.stretch(3).unwrap();
    lemma_point_in_box(ray, a);
    assert(point_in_box(ray, a));
    crate::ieee::lemma_order64(start, a);
    crate::ieee::lemma_order64(start, b);
    crate::ieee::lemma_order64(a, max_range);
    crate::ieee::lemma_order64(b, Float64::from_bits(0));
    crate::ieee::lemma_order64(Float64::from_bits(0), start);
    assert(ray.hit_of(max_range) == Some(a));
    assert forall|u: Float64| #[trigger] point_in_box(ray, u) implies a.value() <= u.value() by {
        lemma_point_in_box(ray, u);
    }
}

/// A ray that starts in a box, and leaves it ahead and within the range, hits it in the last of its
/// points.
pub proof fn lemma_ray_leaves_box(ray: BoxRay, max_range: Float64, before: Float64, t: Float64)
    requires
        ray.numeric(),
        !max_range.nan(),
        point_in_box(ray, before),
        before.value() <= Float64::from_bits(RAY_START).value(),
        point_in_box(ray, t),
        Float64::from_bits(RAY_START).value() < t.value(),
        forall|u: Float64| #[trigger] point_in_box(ray, u) ==> u.value() <= max_range.value(),
    ensures
        ray.hit_of(max_range) matches Some(h) && {
            &&& point_in_box(ray, h)
            &&& forall|u: Float64| #[trigger] point_in_box(ray, u) ==> u.value() <= h.value()
        },
{
    let start = Float64::from_bits(RAY_START);
    lemma_point_in_box(ray, t);
    lemma_point_in_box(ray, before);
    let (a, b) = ray.stretch(3).unwrap();
    lemma_point_in_box(ray, b);
    assert(point_in_box(ray, b));
    crate::ieee::lemma_order64(start, a);
    crate::ieee::lemma_order64(start, b);
    crate::ieee::lemma_order64(b, max_range);
    crate::ieee::lemma_order64(b, Float64::from_bits(0));
    crate::ieee::lemma_order64(Float64::from_bits(0), start);
    assert(ray.hit_of(max_range) == Some(b));
    assert forall|u: Float64| #[trigger] point_in_box(ray, u) implies u.value() <= b.value() by {
        lemma_point_in_box(ray, u);
    }
}

/// A hit is a point of the box ahead of the start and within the range: the first of them, or, where
/// the ray starts in the box, the last.
pub proof fn lemma_box_hit(ray: BoxRay, max_range: Float64)
    requires
        ray.numeric(),
        !max_range.nan(),
    ensures
        ray.hit_of(max_range) matches Some(h) ==> {
            &&& point_in_box(ray, h)
            &&& Float64::from_bits(RAY_START).value() < h.value() <= max_range.value()
            &&& {
                ||| forall|u: Float64| #[trigger] point_in_box(ray, u) ==> h.value() <= u.value()
                ||| {
                    &&& exists|u: Float64| #[trigger]
                        point_in_box(ray, u) && u.value() <= Float64::from_bits(RAY_START).value()
                    &&& forall|u: Float64| #[trigger]
                        point_in_box(ray, u) ==> u.value() <= h.value()
                }
            }
        },
{
    let start = Float64::from_bits(RAY_START);
    if let Some(h) = ray.hit_of(max_range) {
        let (a, b) = ray.stretch(3).unwrap();
        lemma_point_in_box(ray, start);
        lemma_point_in_box(ray, a);
        lemma_point_in_box(ray, b);
        assert(point_in_box(ray, a) && point_in_box(ray, b));
        crate::ieee::lemma_order64(start, a);
        crate::ieee::lemma_order64(start, h);
        crate::ieee::lemma_order64(h, max_range);
        assert forall|u: Float64| #[trigger] point_in_box(ray, u) implies a.value() <= u.value()
            && u.value() <= b.value() by {
            lemma_point_in_box(ray, u);
        }
    }
}

/// It makes no difference which of the two planes of an axis comes first: with the crossings of any of
/// the axes exchanged, the ray hits where it did.
pub proof fn lemma_planes_in_any_order(ray: BoxRay, other: BoxRay, max_range: Float64)
    requires
        ray.numeric(),
        other.numeric(),
        !max_range.nan(),
        other.origin == ray.origin && other.dir == ray.dir,
        other.min == ray.min && other.max == ray.max,
        forall|i: int|
            #![trigger ray.t1[i]]
            0 <= i < 3 ==> (other.t1[i] == ray.t1[i] && other.t2[i] == ray.t2[i]) || (other.t1[i]
                == ray.t2[i] && other.t2[i] == ray.t1[i]),
    ensures
        match (ray.hit_of(max_range), other.hit_of(max_range)) {
            (Some(h), Some(g)) => h.value() == g.value(),
            (None, None) => true,
            _ => false,
        },
{
    let zero = Float64::from_bits(0);
    let start = Float64::from_bits(RAY_START);
    assert forall|u: Float64| point_in_box(ray, u) == #[trigger] point_in_box(other, u) by {
        assert(between(ray, 0, u) == between(other, 0, u)) by {
            let x = ray.t1[0];
        }
        assert(between(ray, 1, u) == between(other, 1, u)) by {
            let x = ray.t1[1];
        }
        assert(between(ray, 2, u) == between(other, 2, u)) by {
            let x = ray.t1[2];
        }
    }
    lemma_point_in_box(ray, zero);
    lemma_point_in_box(other, zero);
    if let Some((a, b)) = ray.stretch(3) {
        lemma_point_in_box(ray, a);
        lemma_point_in_box(ray, b);
        lemma_point_in_box(other, a);
        lemma_point_in_box(other, b);
        assert(point_in_box(other, a) && point_in_box(other, b));
        let (c, d) = other.stretch(3).unwrap();
        lemma_point_in_box(other, c);
        lemma_point_in_box(other, d);
        assert(point_in_box(other, c) && point_in_box(other, d));
        lemma_point_in_box(ray, c);
        lemma_point_in_box(ray, d);
        assert(a.value() == c.value() && b.value() == d.value());
        crate::ieee::lemma_order64(start, a);
        crate::ieee::lemma_order64(start, c);
        crate::ieee::lemma_order64(start, b);
        crate::ieee::lemma_order64(start, d);
        crate::ieee::lemma_order64(b, zero);
        crate::ieee::lemma_order64(d, zero);
        crate::ieee::lemma_order64(a, max_range);
        crate::ieee::lemma_order64(b, max_range);
        crate::ieee::lemma_order64(c, max_range);
        crate::ieee::lemma_order64(d, max_range);
    } else if let Some((c, d)) = other.stretch(3) {
        lemma_point_in_box(other, c);
        assert(point_in_box(other, c));
        lemma_point_in_box(ray, c);
    }
}

/// A parameter counts where it is worth more than the start and no more than the range.
pub proof fn lemma_ray_range(t: Float64, max_range: Float64)
    ensures
        in_ray_range(t, max_range) <==> !t.nan() && !max_range.nan() && Float64::from_bits(
            RAY_START,
        ).value() < t.value() <= max_range.value(),
{
    crate::ieee::lemma_order64(Float64::from_bits(RAY_START), t);
    crate::ieee::lemma_order64(t, max_range);
}

/// A ray hits a sphere where the discriminant is not below zero and one of the roots counts, and then
/// in the lesser of the roots that count.
pub proof fn lemma_sphere_hit(disc: Float64, t1: Float64, t2: Float64, max_range: Float64)
    requires
        !disc.nan() && !t1.nan() && !t2.nan() && !max_range.nan(),
        t1.value() <= t2.value(),
    ensures
        sphere_hit_of(disc, t1, t2, max_range) is Some <==> disc.value() >= 0 && exists|t: Float64|
            (t == t1 || t == t2) && #[trigger] in_ray_range(t, max_range),
        sphere_hit_of(disc, t1, t2, max_range) matches Some(h) ==> {
            &&& h == t1 || h == t2
            &&& in_ray_range(h, max_range)
            &&& forall|t: Float64|
                (t == t1 || t == t2) && #[trigger] in_ray_range(t, max_range) ==> h.value()
                    <= t.value()
        },
{
    lemma_ray_range(t1, max_range);
    lemma_ray_range(t2, max_range);
    crate::ieee::lemma_order64(disc, Float64::from_bits(0));
    crate::ieee::lemma_order64(Float64::from_bits(RAY_START), t1);
    crate::ieee::lemma_order64(t1, max_range);
    crate::ieee::lemma_scale64(Float64::from_bits(0), Float64::from_bits(0));
}

/// The nearest part is at no greater distance than any other, and nearer than all before it; there is
/// none where every distance is infinite.
pub proof fn lemma_nearest_of(dists: Seq<Float64>)
    requires
        forall|i: int| 0 <= i < dists.len() ==> !(#[trigger] dists[i]).nan(),
    ensures
        match nearest_of(dists) {
            Some(k) => {
                &&& 0 <= k < dists.len()
                &&& dists[k].value() < Float64::from_bits(INFINITY).value()
                &&& forall|i: int|
                    0 <= i < dists.len() ==> dists[k].value() <= (#[trigger] dists[i]).value()
                &&& forall|i: int| 0 <= i < k ==> dists[k].value() < (#[trigger] dists[i]).value()
            },
            None => forall|i: int|
                0 <= i < dists.len() ==> Float64::from_bits(INFINITY).value() <= (
                #[trigger] dists[i]).value(),
        },
    decreases dists.len(),
{
    if dists.len() > 0 {
        let t = dists.drop_last();
        assert forall|i: int| 0 <= i < t.len() implies !(#[trigger] t[i]).nan() by {
            assert(t[i] == dists[i]);
        }
        lemma_nearest_of(t);
        let bound = match nearest_of(t) {
            Some(i) => dists[i],
            None => Float64::from_bits(INFINITY),
        };
        assert(dists[dists.len() - 1] == dists.last());
        crate::ieee::lemma_order64(dists.last(), bound);
        assert forall|i: int| 0 <= i < t.len() implies #[trigger] dists[i] == t[i] by {}
    }
}

/// A point lies in a box where each of its coordinates is worth no less than the lesser one of the
/// box and no more than the greater.
pub proof fn lemma_in_box(p: [Float64; 3], min: [Float64; 3], max: [Float64; 3])
    requires
        forall|i: int| 0 <= i < 3 ==> !(#[trigger] min[i]).nan() && !max[i].nan(),
    ensures
        in_box(p, min, max) <==> forall|i: int|
            0 <= i < 3 ==> !(#[trigger] p[i]).nan() && min[i].value() <= p[i].value()
                <= max[i].value(),
{
    assert forall|i: int| 0 <= i < 3 implies (min[i].at_most(#[trigger] p[i]) && p[i].at_most(
        max[i],
    ) <==> !p[i].nan() && min[i].value() <= p[i].value() <= max[i].value()) by {
        assert(!min[i].nan());
        crate::ieee::lemma_order64(min[i], p[i]);
        crate::ieee::lemma_order64(p[i], max[i]);
    }
    if in_box(p, min, max) {
        assert forall|i: int| 0 <= i < 3 implies !(#[trigger] p[i]).nan() && min[i].value()
            <= p[i].value() <= max[i].value() by {
            assert(min[i].at_most(p[i]));
        }
    }
}

/// The normals of the two faces across an axis are one long, opposite, and along that axis; the one of
/// the face towards lesser coordinates points towards lesser coordinates.
pub proof fn lemma_face_normals(axis: int, k: int)
    requires
        0 <= axis < 3,
        0 <= k < 3,
    ensures
        face_component(2 * axis, k).value() == if k == axis {
            -crate::ieee::one64()
        } else {
            0
        },
        face_component(2 * axis + 1, k).value() == -face_component(2 * axis, k).value(),
{
    crate::ieee::lemma_scale64(Float64::from_bits(0), Float64::from_bits(0));
    vstd::arithmetic::power2::lemma2_to64();
    vstd::arithmetic::power2::lemma2_to64_rest();
    vstd::arithmetic::power2::lemma_pow2_adds(52, 1022);
}

/// A hull may be replaced by its parts, where it stands in a list, without changing what the list is
/// made of.
pub proof fn lemma_hull_is_its_parts(a: Seq<Obstacle>, parts: Vec<Obstacle>, b: Seq<Obstacle>)
    ensures
        leaves_of_all(a + seq![Obstacle::ConvexHull { parts }] + b) == leaves_of_all(
            a + parts@ + b,
        ),
{
    let hull = seq![Obstacle::ConvexHull { parts }];
    lemma_leaves_concat(a, hull);
    lemma_leaves_concat(a + hull, b);
    lemma_leaves_concat(a, parts@);
    lemma_leaves_concat(a + parts@, b);
    assert(hull.skip(1) =~= Seq::empty());
    assert(leaves_of_all(hull) =~= leaves(hull[0]) + leaves_of_all(hull.skip(1)));
    assert(leaves_of_all(hull) =~= leaves_of_all(parts@));
}

/// Obstacles that are built alike are made of as many spheres and boxes, in the same order, and their
/// spheres have the same radii.
pub proof fn lemma_same_shape(a: Obstacle, b: Obstacle)
    requires
        same_shape(a, b),
    ensures
        leaves(a).len() == leaves(b).len(),
        forall|i: int|
            0 <= i < leaves(a).len() ==> match (#[trigger] leaves(a)[i], leaves(b)[i]) {
                (
                    Obstacle::Sphere { radius: r, .. },
                    Obstacle::Sphere { radius: s, .. },
                ) => r == s,
                (Obstacle::Box { .. }, Obstacle::Box { .. }) => true,
                _ => false,
            },
    decreases a, 1nat,
{
    match (a, b) {
        (Obstacle::ConvexHull { parts: p }, Obstacle::ConvexHull { parts: q }) => {
            lemma_same_shapes(p@, q@);
        },
        _ => {},
    }
}

proof fn lemma_same_shapes(p: Seq<Obstacle>, q: Seq<Obstacle>)
    requires
        p.len() == q.len(),
        forall|i: int| 0 <= i < p.len() ==> same_shape(#[trigger] p[i], q[i]),
    ensures
        leaves_of_all(p).len() == leaves_of_all(q).len(),
        forall|i: int|
            0 <= i < leaves_of_all(p).len() ==> match (
                #[trigger] leaves_of_all(p)[i],
                leaves_of_all(q)[i],
            ) {
                (
                    Obstacle::Sphere { radius: r, .. },
                    Obstacle::Sphere { radius: s, .. },
                ) => r == s,
                (Obstacle::Box { .. }, Obstacle::Box { .. }) => true,
                _ => false,
            },
    decreases p, 0nat,
{
    if p.len() > 0 {
        assert(same_shape(p[0], q[0]));
        lemma_same_shape(p[0], q[0]);
        let pt = p.skip(1);
        let qt = q.skip(1);
        assert forall|i: int| 0 <= i < pt.len() implies same_shape(#[trigger] pt[i], qt[i]) by {
            assert(same_shape(p[i + 1], q[i + 1]));
        }
        lemma_same_shapes(pt, qt);
        let n = leaves(p[0]).len();
        assert forall|i: int| 0 <= i < leaves_of_all(p).len() implies match (
            #[trigger] leaves_of_all(p)[i],
            leaves_of_all(q)[i],
        ) {
            (Obstacle::Sphere { radius: r, .. }, Obstacle::Sphere { radius: s, .. }) => r == s,
            (Obstacle::Box { .. }, Obstacle::Box { .. }) => true,
            _ => false,
        } by {
            if i < n {
                assert(leaves_of_all(p)[i] == leaves(p[0])[i]);
                assert(leaves_of_all(q)[i] == leaves(q[0])[i]);
            } else {
                assert(leaves_of_all(p)[i] == leaves_of_all(pt)[i - n]);
                assert(leaves_of_all(q)[i] == leaves_of_all(qt)[i - n]);
            }
        }
    }
}

/// The nearest of the hits of a list of obstacles.
pub open spec fn nearest_hit_of(hits: Seq<Option<Float64>>) -> Option<Float64>
    decreases hits.len(),
{
    if hits.len() == 0 {
        None
    } else {
        match (nearest_hit_of(hits.drop_last()), hits.last()) {
            (before, None) => before,
            (None, Some(t)) => Some(t),
            (Some(b), Some(t)) => Some(b.lesser_of(t)),
        }
    }
}

/// The distance at which a ray meets the first of a list of obstacles, from where it meets each of
/// their spheres and boxes.
pub fn ray_obstacle_distance(hits: &[Option<Float64>]) -> (r: Option<Float64>)
    ensures
        r == nearest_hit_of(hits@),
{
    let mut best: Option<Float64> = None;
    let mut i: usize = 0;
    while i < hits.len()
        invariant
            i <= hits.len(),
            best == nearest_hit_of(hits@.take(i as int)),
        decreases hits.len() - i,
    {
        proof {
            assert(hits@.take(i + 1).drop_last() =~= hits@.take(i as int));
        }
        match hits[i] {
            Some(t) => {
                best = match best {
                    Some(b) => Some(b.min(t)),
                    None => Some(t),
                };
            },
            None => {},
        }
        i += 1;
    }
    assert(hits@.take(i as int) =~= hits@);
    best
}

/// The nearer of two hits, where there are any.
pub open spec fn nearer_of(a: Option<Float64>, b: Option<Float64>) -> Option<Float64> {
    match (a, b) {
        (x, None) => x,
        (None, y) => y,
        (Some(x), Some(y)) => Some(x.lesser_of(y)),
    }
}

/// The nearest hit of two lists of obstacles together is the nearer of the nearest of each.
pub proof fn lemma_nearest_hit_concat(a: Seq<Option<Float64>>, b: Seq<Option<Float64>>)
    ensures
        nearest_hit_of(a + b) == nearer_of(nearest_hit_of(a), nearest_hit_of(b)),
    decreases b.len(),
{
    if b.len() == 0 {
        assert(a + b =~= a);
    } else {
        assert((a + b).drop_last() =~= a + b.drop_last());
        lemma_nearest_hit_concat(a, b.drop_last());
    }
}

/// The distance of the list is a hit of one of its obstacles, and none of them is hit nearer; there
/// is none where no obstacle is hit.
pub proof fn lemma_nearest_hit(hits: Seq<Option<Float64>>)
    requires
        forall|i: int| 0 <= i < hits.len() ==> ((#[trigger] hits[i]) matches Some(t) ==> !t.nan()),
    ensures
        match nearest_hit_of(hits) {
            Some(b) => !b.nan() && hits.contains(Some(b)) && forall|i: int|
                0 <= i < hits.len() ==> ((#[trigger] hits[i]) matches Some(t) ==> b.at_most(t)),
            None => forall|i: int| 0 <= i < hits.len() ==> (#[trigger] hits[i]) is None,
        },
    decreases hits.len(),
{
    if hits.len() > 0 {
        let t = hits.drop_last();
        assert forall|i: int| 0 <= i < t.len() implies ((#[trigger] t[i]) matches Some(
            x,
        ) ==> !x.nan()) by {
            assert(t[i] == hits[i]);
        }
        lemma_nearest_hit(t);
        assert(hits[hits.len() - 1] == hits.last());
        match nearest_hit_of(hits) {
            Some(b) => {
                if nearest_hit_of(t) == Some(b) {
                    let k = choose|k: int| 0 <= k < t.len() && t[k] == Some(b);
                    assert(hits[k] == Some(b));
                }
                assert forall|i: int| 0 <= i < hits.len() implies ((#[trigger] hits[i]) matches Some(
                    x,
                ) ==> b.at_most(x)) by {
                    if i < t.len() {
                        assert(t[i] == hits[i]);
                    }
                }
            },
            None => {
                assert forall|i: int| 0 <= i < hits.len() implies (#[trigger] hits[i]) is None by {
                    if i < t.len() {
                        assert(t[i] == hits[i]);
                    }
                }
            },
        }
    }
}

/// No number lies beyond the two infinities.
pub proof fn lemma_infinities(x: Float64)
    requires
        !x.nan(),
    ensures
        !Float64::from_bits(INFINITY).nan() && !Float64::from_bits(MINUS_INFINITY).nan(),
        Float64::from_bits(MINUS_INFINITY).value() <= x.value() <= Float64::from_bits(
            INFINITY,
        ).value(),
{
    crate::ieee::lemma_rank64_orders_values(Float64::from_bits(INFINITY), x);
    crate::ieee::lemma_rank64_orders_values(x, Float64::from_bits(MINUS_INFINITY));
}

/// What the constants of this module are worth.
pub proof fn lemma_measures()
    ensures
        crate::ieee::is_ratio64(Float64::from_bits(ONE), 1, 1),
        crate::ieee::is_ratio64(Float64::from_bits(MINUS_ONE), -1, 1),
        crate::ieee::is_ratio64(Float64::from_bits(RAY_START), 1, 1000000),
        crate::ieee::is_ratio64(Float64::from_bits(NO_DIRECTION), 1, 1000000000),
{
    assert(crate::ieee::is_ratio64(Float64::from_bits(ONE), 1, 1)) by {
        vstd::arithmetic::power2::lemma2_to64_rest();
        crate::ieee::lemma_ratio64(Float64::from_bits(ONE), 1, 1, 52);
    }
    assert(crate::ieee::is_ratio64(Float64::from_bits(MINUS_ONE), -1, 1)) by {
        vstd::arithmetic::power2::lemma2_to64_rest();
        crate::ieee::lemma_ratio64(Float64::from_bits(MINUS_ONE), -1, 1, 52);
    }
    assert(crate::ieee::is_ratio64(Float64::from_bits(RAY_START), 1, 1000000)) by {
        vstd::arithmetic::power2::lemma2_to64();
        crate::ieee::lemma_halvings();
        crate::ieee::lemma_ratio64(Float64::from_bits(RAY_START), 1, 1000000, 72);
    }
    assert(crate::ieee::is_ratio64(Float64::from_bits(NO_DIRECTION), 1, 1000000000)) by {
        vstd::arithmetic::power2::lemma2_to64();
        crate::ieee::lemma_halvings();
        crate::ieee::lemma_ratio64(Float64::from_bits(NO_DIRECTION), 1, 1000000000, 82);
    }
}

} // verus!
