//! The table of bodies of the small world that stands in for the engine.
//!
//! Integration is done by the caller in floating point; the world decides what of it is taken.

use crate::ieee::Float64;
use vstd::prelude::*;

verus! {

/// The numbers of a transform: a position and a quaternion, scalar part first.
pub const TRANSFORM: usize = 7;

/// A rigid body.
#[derive(Clone, Copy, Debug, PartialEq, Eq)]
pub struct Body {
    pub mass: Float64,
    pub inertia: [Float64; 3],
    pub pos: [Float64; 3],
    pub quat: [Float64; 4],
    pub vel: [Float64; 3],
    pub ang: [Float64; 3],
}

impl Body {
    /// A body that nothing moves.
    pub open spec fn fixed(self) -> bool {
        self.mass.at_most(Float64::from_bits(0))
    }

    /// The numbers of its transform.
    pub open spec fn transform(self, k: int) -> Float64 {
        if k < 3 {
            self.pos[k]
        } else {
            self.quat[k - 3]
        }
    }

    fn is_fixed(&self) -> (r: bool)
        ensures
            r == self.fixed(),
    {
        self.mass.le(Float64::from_bits(0))
    }

    fn component(&self, k: usize) -> (r: Float64)
        requires
            k < TRANSFORM,
        ensures
            r == self.transform(k as int),
    {
        if k < 3 {
            self.pos[k]
        } else {
            self.quat[k - 3]
        }
    }
}

/// Where a step takes a body.
#[derive(Clone, Copy, Debug, PartialEq, Eq)]
pub struct Motion {
    pub pos: [Float64; 3],
    pub quat: [Float64; 4],
    pub vel: [Float64; 3],
}

/// A world of bodies that do not touch.
pub struct ToyWorld {
    bodies: Vec<Body>,
    gravity: Float64,
    time: Float64,
}

impl ToyWorld {
    pub closed spec fn bodies(&self) -> Seq<Body> {
        self.bodies@
    }

    pub closed spec fn gravity_of(&self) -> Float64 {
        self.gravity
    }

    pub closed spec fn time_of(&self) -> Float64 {
        self.time
    }

    /// `id` names a body.
    pub open spec fn has(&self, id: i64) -> bool {
        0 <= id < self.bodies().len()
    }

    /// Nothing but the bodies differs.
    pub open spec fn same_but_bodies(&self, other: &Self) -> bool {
        self.gravity_of() == other.gravity_of() && self.time_of() == other.time_of()
    }

    pub fn new(gravity: Float64) -> (r: Self)
        ensures
            r.bodies() == Seq::<Body>::empty(),
            r.gravity_of() == gravity,
            r.time_of() == Float64::from_bits(0),
    {
        ToyWorld { bodies: Vec::new(), gravity, time: Float64::from_bits(0) }
    }

    pub fn body_count(&self) -> (r: usize)
        ensures
            r == self.bodies().len(),
    {
        self.bodies.len()
    }

    pub fn gravity(&self) -> (r: Float64)
        ensures
            r == self.gravity_of(),
    {
        self.gravity
    }

    pub fn time(&self) -> (r: Float64)
        ensures
            r == self.time_of(),
    {
        self.time
    }

    /// Adds a body at rest. Bodies are numbered in the order in which they come.
    pub fn add_body(&mut self, mass: Float64, pos7: &[Float64; 7], inertia3: &[Float64; 3]) -> (id:
        i64)
        requires
            old(self).bodies().len() < i64::MAX,
        ensures
            id == old(self).bodies().len(),
            final(self).has(id),
            forall|other: i64| old(self).has(other) ==> final(self).has(other),
            final(self).bodies().len() == old(self).bodies().len() + 1,
            final(self).bodies().drop_last() == old(self).bodies(),
            final(self).same_but_bodies(old(self)),
            final(self).gravity_of() == old(self).gravity_of(),
            final(self).time_of() == old(self).time_of(),
            ({
                let b = final(self).bodies().last();
                &&& b.mass == mass
                &&& b.inertia == inertia3
                &&& forall|k: int| 0 <= k < 7 ==> #[trigger] b.transform(k) == pos7[k]
                &&& forall|k: int|
                    0 <= k < 3 ==> #[trigger] b.vel[k] == Float64::from_bits(0) && b.ang[k]
                        == Float64::from_bits(0)
            }),
    {
        let zero: Float64 = Float64::from_bits(0);
        let id: i64 = self.bodies.len() as i64;
        let b: Body = Body {
            mass,
            inertia: *inertia3,
            pos: [pos7[0], pos7[1], pos7[2]],
            quat: [pos7[3], pos7[4], pos7[5], pos7[6]],
            vel: [zero, zero, zero],
            ang: [zero, zero, zero],
        };
        proof {
            assert(b.transform(3) == pos7[3] && b.transform(4) == pos7[4] && b.transform(5)
                == pos7[5] && b.transform(6) == pos7[6]);
        }
        self.bodies.push(b);
        assert(self.bodies@.drop_last() =~= old(self).bodies@);
        id
    }

    fn slot(&self, id: i64) -> (r: usize)
        requires
            self.has(id),
        ensures
            r == id,
    {
        assert(self.bodies.len() == self.bodies@.len());
        id as usize
    }

    /// The body, as it is.
    pub fn body(&self, id: i64) -> (r: Body)
        requires
            self.has(id),
        ensures
            r == self.bodies()[id as int],
    {
        self.bodies[self.slot(id)]
    }

    pub fn get_velocity(&self, id: i64) -> (r: [Float64; 3])
        requires
            self.has(id),
        ensures
            r == self.bodies()[id as int].vel,
    {
        self.bodies[self.slot(id)].vel
    }

    pub fn get_angular_velocity(&self, id: i64) -> (r: [Float64; 3])
        requires
            self.has(id),
        ensures
            r == self.bodies()[id as int].ang,
    {
        self.bodies[self.slot(id)].ang
    }

    /// Gives a body the velocity that an impulse leaves it with. A fixed body keeps its own.
    pub fn apply_impulse(&mut self, id: i64, vel: [Float64; 3])
        requires
            old(self).has(id),
        ensures
            final(self).same_but_bodies(old(self)),
            final(self).gravity_of() == old(self).gravity_of(),
            final(self).time_of() == old(self).time_of(),
            final(self).bodies() == if old(self).bodies()[id as int].fixed() {
                old(self).bodies()
            } else {
                old(self).bodies().update(
                    id as int,
                    Body { vel, ..old(self).bodies()[id as int] },
                )
            },
    {
        let i: usize = self.slot(id);
        let mut b: Body = self.bodies[i];
        if !b.is_fixed() {
            b.vel = vel;
            self.bodies[i] = b;
            assert(self.bodies@ =~= old(self).bodies@.update(i as int, b));
        }
    }

    /// Gives a body the angular velocity that an impulse leaves it with. A fixed body keeps its own.
    pub fn apply_torque_impulse(&mut self, id: i64, ang: [Float64; 3])
        requires
            old(self).has(id),
        ensures
            final(self).same_but_bodies(old(self)),
            final(self).gravity_of() == old(self).gravity_of(),
            final(self).time_of() == old(self).time_of(),
            final(self).bodies() == if old(self).bodies()[id as int].fixed() {
                old(self).bodies()
            } else {
                old(self).bodies().update(
                    id as int,
                    Body { ang, ..old(self).bodies()[id as int] },
                )
            },
    {
        let i: usize = self.slot(id);
        let mut b: Body = self.bodies[i];
        if !b.is_fixed() {
            b.ang = ang;
            self.bodies[i] = b;
            assert(self.bodies@ =~= old(self).bodies@.update(i as int, b));
        }
    }

    pub fn get_body_transform(&self, id: i64) -> (r: [Float64; 7])
        requires
            self.has(id),
        ensures
            forall|k: int|
                0 <= k < 7 ==> #[trigger] r[k] == self.bodies()[id as int].transform(k),
    {
        let b: Body = self.bodies[self.slot(id)];
        [b.pos[0], b.pos[1], b.pos[2], b.quat[0], b.quat[1], b.quat[2], b.quat[3]]
    }

    /// Writes the transforms of the bodies, in order, as far as whole ones fit, and returns the
    /// numbers that there was room for. The rest of the buffer stays as it is.
    pub fn get_rigid_transforms(&self, buf: &mut Vec<Float64>) -> (r: usize)
        requires
            self.bodies().len() * 7 <= usize::MAX,
        ensures
            r == if old(buf)@.len() <= self.bodies().len() * 7 {
                old(buf)@.len()
            } else {
                self.bodies().len() * 7
            },
            final(buf)@.len() == old(buf)@.len(),
            forall|j: int|
                0 <= j < r / 7 * 7 ==> #[trigger] final(buf)@[j] == self.bodies()[j / 7].transform(
                    j % 7,
                ),
            forall|j: int|
                r / 7 * 7 <= j < old(buf)@.len() ==> #[trigger] final(buf)@[j] == old(buf)@[j],
    {
        let n: usize = self.bodies.len();
        let need: usize = n * 7;
        let len: usize = if buf.len() < need {
            buf.len()
        } else {
            need
        };
        let whole: usize = len / 7 * 7;
        let mut j: usize = 0;
        while j < whole
            invariant
                j <= whole,
                whole == len / 7 * 7,
                len <= need,
                need == n * 7,
                n == self.bodies@.len(),
                len <= buf@.len(),
                buf@.len() == old(buf)@.len(),
                forall|k: int|
                    0 <= k < j ==> #[trigger] buf@[k] == self.bodies()[k / 7].transform(k % 7),
                forall|k: int| j <= k < buf@.len() ==> #[trigger] buf@[k] == old(buf)@[k],
            decreases whole - j,
        {
            let v: Float64 = self.bodies[j / 7].component(j % 7);
            buf.set(j, v);
            j += 1;
        }
        len
    }

    /// Takes the bodies to where a step leads them, and the time along. A fixed body stays where it
    /// is. Returns zero: this world never breaks.
    pub fn step(&mut self, motions: &[Motion], time: Float64) -> (r: i32)
        requires
            motions@.len() == old(self).bodies().len(),
        ensures
            r == 0,
            final(self).gravity_of() == old(self).gravity_of(),
            final(self).time_of() == time,
            final(self).bodies().len() == old(self).bodies().len(),
            forall|i: int|
                0 <= i < old(self).bodies().len() ==> #[trigger] final(self).bodies()[i] == if old(
                    self,
                ).bodies()[i].fixed() {
                    old(self).bodies()[i]
                } else {
                    Body {
                        pos: motions@[i].pos,
                        quat: motions@[i].quat,
                        vel: motions@[i].vel,
                        ..old(self).bodies()[i]
                    }
                },
    {
        let n: usize = self.bodies.len();
        let mut i: usize = 0;
        let ghost before = self.bodies@;
        while i < n
            invariant
                i <= n,
                n == before.len(),
                self.bodies@.len() == n,
                motions@.len() == n,
                before == old(self).bodies(),
                self.gravity == old(self).gravity,
                forall|k: int| i <= k < n ==> #[trigger] self.bodies@[k] == before[k],
                forall|k: int|
                    0 <= k < i ==> #[trigger] self.bodies@[k] == if before[k].fixed() {
                        before[k]
                    } else {
                        Body {
                            pos: motions@[k].pos,
                            quat: motions@[k].quat,
                            vel: motions@[k].vel,
                            ..before[k]
                        }
                    },
            decreases n - i,
        {
            let mut b: Body = self.bodies[i];
            if !b.is_fixed() {
                b.pos = motions[i].pos;
                b.quat = motions[i].quat;
                b.vel = motions[i].vel;
                self.bodies[i] = b;
            }
            i += 1;
        }
        self.time = time;
        0
    }
}

/// A body is fixed where its mass is nothing or less, and moves with any mass at all.
pub proof fn lemma_fixed(b: Body)
    ensures
        b.fixed() <==> !b.mass.nan() && b.mass.value() <= 0,
{
    crate::ieee::lemma_order64(b.mass, Float64::from_bits(0));
    crate::ieee::lemma_scale64(Float64::from_bits(0), Float64::from_bits(0));
}

/// A transform is a position followed by an attitude, and says nothing of the motion.
pub proof fn lemma_transform(b: Body, c: Body)
    ensures
        forall|k: int| 0 <= k < 3 ==> b.transform(k) == #[trigger] b.pos[k],
        forall|k: int| 0 <= k < 4 ==> b.transform(3 + k) == #[trigger] b.quat[k],
        b.pos == c.pos && b.quat == c.quat ==> forall|k: int|
            0 <= k < 7 ==> #[trigger] b.transform(k) == c.transform(k),
{
}

/// The numbers from nought up to the count of bodies name them, and no others do.
pub proof fn lemma_names(w: ToyWorld, id: i64)
    ensures
        !w.has(id) <==> id < 0 || id >= w.bodies().len(),
{
}

} // verus!
