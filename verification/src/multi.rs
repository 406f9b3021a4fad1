//! Several vehicles in one world: who hears whom, who resolves which collision, and who gives way.

use crate::contact::BodyCollider;
use crate::ieee::{Float32, Float64};
use vstd::prelude::*;

verus! {

/// One millionth: vehicles closer than this have no direction between them.
pub const SAME_PLACE: u32 = 0x3586_37BD;

/// What a vehicle tells the others.
#[derive(Clone, Copy, Debug, PartialEq, Eq)]
pub struct DroneTelemetry {
    pub id: u8,
    pub pos: [Float32; 3],
    pub vel: [Float32; 3],
    pub t: Float64,
}

impl DroneTelemetry {
    pub fn zero() -> (r: Self)
        ensures
            r.id == 0,
            forall|k: int| 0 <= k < 3 ==> #[trigger] r.pos[k] == Float32::from_bits(0),
            forall|k: int| 0 <= k < 3 ==> #[trigger] r.vel[k] == Float32::from_bits(0),
            r.t == Float64::from_bits(0),
    {
        let z: Float32 = Float32::from_bits(0);
        DroneTelemetry { id: 0, pos: [z, z, z], vel: [z, z, z], t: Float64::from_bits(0) }
    }
}

/// The telemetry of a vehicle in a state, without a time.
pub fn telemetry_from_state(id: u8, pos: [Float32; 3], vel: [Float32; 3]) -> (r: DroneTelemetry)
    ensures
        r == (DroneTelemetry { id, pos, vel, t: Float64::from_bits(0) }),
{
    DroneTelemetry { id, pos, vel, t: Float64::from_bits(0) }
}

/// The telemetry of a fleet at a time. Vehicles are numbered in order; the numbers repeat after 256.
pub fn fleet_telemetry(pos: &[[Float32; 3]], vel: &[[Float32; 3]], t: Float64) -> (r: Vec<
    DroneTelemetry,
>)
    requires
        pos@.len() == vel@.len(),
    ensures
        r@.len() == pos@.len(),
        forall|i: int|
            0 <= i < r@.len() ==> #[trigger] r@[i] == (DroneTelemetry {
                id: (i % 256) as u8,
                pos: pos@[i],
                vel: vel@[i],
                t,
            }),
{
    let mut out: Vec<DroneTelemetry> = Vec::new();
    let mut i: usize = 0;
    while i < pos.len()
        invariant
            i <= pos@.len(),
            pos@.len() == vel@.len(),
            out@.len() == i,
            forall|k: int|
                0 <= k < i ==> #[trigger] out@[k] == (DroneTelemetry {
                    id: (k % 256) as u8,
                    pos: pos@[k],
                    vel: vel@[k],
                    t,
                }),
        decreases pos@.len() - i,
    {
        let id: u8 = (i % 256) as u8;
        out.push(DroneTelemetry { id, pos: pos[i], vel: vel[i], t });
        i += 1;
    }
    out
}

/// What node `i` hears of a broadcast: everything that does not carry its own number, in order.
pub open spec fn heard_by(telem: Seq<DroneTelemetry>, i: int) -> Seq<DroneTelemetry>
    decreases telem.len(),
{
    if telem.len() == 0 {
        Seq::empty()
    } else {
        let before = heard_by(telem.drop_last(), i);
        if telem.last().id != i {
            before.push(telem.last())
        } else {
            before
        }
    }
}

/// No node hears itself, and every node hears every other.
pub proof fn lemma_heard_by(telem: Seq<DroneTelemetry>, i: int)
    ensures
        forall|k: int| 0 <= k < heard_by(telem, i).len() ==> (#[trigger] heard_by(telem, i)[k]).id != i,
        forall|k: int|
            0 <= k < heard_by(telem, i).len() ==> telem.contains(#[trigger] heard_by(telem, i)[k]),
        forall|j: int|
            0 <= j < telem.len() && (#[trigger] telem[j]).id != i ==> heard_by(telem, i).contains(
                telem[j],
            ),
    decreases telem.len(),
{
    if telem.len() > 0 {
        let t = telem.drop_last();
        lemma_heard_by(t, i);
        let before = heard_by(t, i);
        let after = heard_by(telem, i);
        assert(telem[telem.len() - 1] == telem.last());
        assert forall|k: int| 0 <= k < after.len() implies telem.contains(#[trigger] after[k])
            && after[k].id != i by {
            if k < before.len() {
                assert(before[k] == after[k]);
                let j = choose|j: int| 0 <= j < t.len() && t[j] == before[k];
                assert(telem[j] == after[k]);
            }
        }
        assert forall|j: int| 0 <= j < telem.len() && (#[trigger] telem[j]).id
            != i implies after.contains(telem[j]) by {
            if j < t.len() {
                assert(t[j] == telem[j]);
                let k = choose|k: int| 0 <= k < before.len() && before[k] == t[j];
                assert(after[k] == telem[j]);
            } else {
                assert(after[after.len() - 1] == telem[j]);
            }
        }
    }
}

/// In a fleet that is numbered without repetition a vehicle hears all the others and nothing twice.
pub proof fn lemma_fleet_hears_all_others(telem: Seq<DroneTelemetry>, i: int)
    requires
        forall|j: int| 0 <= j < telem.len() ==> (#[trigger] telem[j]).id == j,
    ensures
        heard_by(telem, i).len() == if 0 <= i < telem.len() {
            telem.len() - 1
        } else {
            telem.len() as int
        },
    decreases telem.len(),
{
    if telem.len() > 0 {
        let t = telem.drop_last();
        assert forall|j: int| 0 <= j < t.len() implies (#[trigger] t[j]).id == j by {
            assert(t[j] == telem[j]);
        }
        lemma_fleet_hears_all_others(t, i);
        assert(telem[telem.len() - 1] == telem.last());
    }
}

/// The link between the vehicles. What is broadcast in one frame is read in the next.
#[derive(Clone, Debug)]
pub struct DroneLink {
    rx: Vec<Vec<DroneTelemetry>>,
}

impl DroneLink {
    /// What each node has received.
    pub closed spec fn received(&self) -> Seq<Seq<DroneTelemetry>> {
        Seq::new(self.rx@.len(), |i: int| self.rx@[i]@)
    }

    pub fn new(n: usize) -> (r: Self)
        ensures
            r.received() == Seq::new(n as nat, |i: int| Seq::<DroneTelemetry>::empty()),
    {
        let mut rx: Vec<Vec<DroneTelemetry>> = Vec::new();
        let mut i: usize = 0;
        while i < n
            invariant
                i <= n,
                rx@.len() == i,
                forall|k: int| 0 <= k < i ==> (#[trigger] rx@[k])@ == Seq::<DroneTelemetry>::empty(),
            decreases n - i,
        {
            rx.push(Vec::new());
            i += 1;
        }
        let r: DroneLink = DroneLink { rx };
        assert(r.received() =~= Seq::new(n as nat, |i: int| Seq::<DroneTelemetry>::empty()));
        r
    }

    /// Gives every node what it hears of a broadcast, in place of what it had.
    pub fn broadcast(&mut self, telem: &[DroneTelemetry])
        ensures
            final(self).received() == Seq::new(
                old(self).received().len(),
                |i: int| heard_by(telem@, i),
            ),
    {
        let n: usize = self.rx.len();
        let mut rx: Vec<Vec<DroneTelemetry>> = Vec::new();
        let mut i: usize = 0;
        while i < n
            invariant
                i <= n,
                rx@.len() == i,
                forall|k: int| 0 <= k < i ==> (#[trigger] rx@[k])@ == heard_by(telem@, k),
            decreases n - i,
        {
            let mut heard: Vec<DroneTelemetry> = Vec::new();
            let mut j: usize = 0;
            while j < telem.len()
                invariant
                    j <= telem@.len(),
                    heard@ == heard_by(telem@.take(j as int), i as int),
                decreases telem@.len() - j,
            {
                proof {
                    assert(telem@.take(j + 1).drop_last() =~= telem@.take(j as int));
                }
                if telem[j].id as usize != i {
                    heard.push(telem[j]);
                }
                j += 1;
            }
            assert(telem@.take(j as int) =~= telem@);
            rx.push(heard);
            i += 1;
        }
        self.rx = rx;
        assert(self.received() =~= Seq::new(
            old(self).received().len(),
            |i: int| heard_by(telem@, i),
        ));
    }

    /// What a node has received.
    pub fn neighbors(&self, id: usize) -> (r: &[DroneTelemetry])
        requires
            id < self.received().len(),
        ensures
            r@ == self.received()[id as int],
    {
        self.rx[id].as_slice()
    }
}

/// The peers of each body of a fleet: those behind it, so that each collision is resolved by one of
/// the two bodies alone.
pub fn peer_sets(colliders: &[BodyCollider]) -> (r: Vec<Vec<BodyCollider>>)
    ensures
        r@.len() == colliders@.len(),
        forall|i: int| 0 <= i < r@.len() ==> (#[trigger] r@[i])@ == colliders@.skip(i + 1),
{
    let mut out: Vec<Vec<BodyCollider>> = Vec::new();
    let mut i: usize = 0;
    while i < colliders.len()
        invariant
            i <= colliders@.len(),
            out@.len() == i,
            forall|k: int| 0 <= k < i ==> (#[trigger] out@[k])@ == colliders@.skip(k + 1),
        decreases colliders@.len() - i,
    {
        let mut peers: Vec<BodyCollider> = Vec::new();
        let mut j: usize = i + 1;
        while j < colliders.len()
            invariant
                i < colliders@.len(),
                i + 1 <= j <= colliders@.len(),
                peers@ =~= colliders@.subrange(i + 1, j as int),
            decreases colliders@.len() - j,
        {
            peers.push(colliders[j]);
            j += 1;
        }
        assert(peers@ =~= colliders@.skip(i + 1));
        out.push(peers);
        i += 1;
    }
    out
}

/// Each pair of a fleet is resolved exactly once: the body before has the one behind as a peer, at
/// one place, and the one behind does not have the one before.
pub proof fn lemma_each_pair_once(colliders: Seq<BodyCollider>, i: int, j: int)
    requires
        0 <= i < j < colliders.len(),
        forall|a: int, b: int|
            0 <= a < b < colliders.len() ==> (#[trigger] colliders[a]).id != (
            #[trigger] colliders[b]).id,
    ensures
        colliders.skip(i + 1)[j - i - 1] == colliders[j],
        forall|k: int|
            0 <= k < colliders.skip(i + 1).len() && (#[trigger] colliders.skip(i + 1)[k]).id
                == colliders[j].id ==> k == j - i - 1,
        forall|k: int|
            0 <= k < colliders.skip(j + 1).len() ==> (#[trigger] colliders.skip(j + 1)[k]).id
                != colliders[i].id,
        forall|k: int|
            0 <= k < colliders.skip(i + 1).len() ==> (#[trigger] colliders.skip(i + 1)[k]).id
                != colliders[i].id,
{
    assert forall|k: int|
        0 <= k < colliders.skip(i + 1).len() && (#[trigger] colliders.skip(i + 1)[k]).id
            == colliders[j].id implies k == j - i - 1 by {
        let m = i + 1 + k;
        assert(colliders.skip(i + 1)[k] == colliders[m]);
        if m < j {
            assert(colliders[m].id != colliders[j].id);
        } else if j < m {
            assert(colliders[j].id != colliders[m].id);
        }
    }
    assert forall|k: int|
        0 <= k < colliders.skip(j + 1).len() implies (#[trigger] colliders.skip(j + 1)[k]).id
        != colliders[i].id by {
        assert(colliders.skip(j + 1)[k] == colliders[j + 1 + k]);
        assert(colliders[i].id != colliders[j + 1 + k].id);
    }
    assert forall|k: int|
        0 <= k < colliders.skip(i + 1).len() implies (#[trigger] colliders.skip(i + 1)[k]).id
        != colliders[i].id by {
        assert(colliders.skip(i + 1)[k] == colliders[i + 1 + k]);
        assert(colliders[i].id != colliders[i + 1 + k].id);
    }
}

/// A neighbour at this distance is given way to: nearer than the danger distance, and not in the
/// same place.
pub open spec fn in_conflict(dist: Float32, danger: Float32) -> bool {
    !danger.at_most(dist) && !dist.less(Float32::from_bits(SAME_PLACE))
}

/// The neighbours that are given way to, in order.
pub open spec fn conflicts_of(dists: Seq<Float32>, danger: Float32) -> Seq<usize>
    decreases dists.len(),
{
    if dists.len() == 0 {
        Seq::empty()
    } else {
        let before = conflicts_of(dists.drop_last(), danger);
        if in_conflict(dists.last(), danger) {
            before.push((dists.len() - 1) as usize)
        } else {
            before
        }
    }
}

pub fn conflicts(dists: &[Float32], danger: Float32) -> (r: Vec<usize>)
    ensures
        r@ == conflicts_of(dists@, danger),
{
    let mut out: Vec<usize> = Vec::new();
    let mut i: usize = 0;
    while i < dists.len()
        invariant
            i <= dists@.len(),
            out@ == conflicts_of(dists@.take(i as int), danger),
        decreases dists@.len() - i,
    {
        proof {
            assert(dists@.take(i + 1).drop_last() =~= dists@.take(i as int));
        }
        if !danger.le(dists[i]) && !dists[i].lt(Float32::from_bits(SAME_PLACE)) {
            out.push(i);
        }
        i += 1;
    }
    assert(dists@.take(i as int) =~= dists@);
    out
}

/// Way is given to exactly the neighbours in conflict: to each once, and in order.
pub proof fn lemma_conflicts_of(dists: Seq<Float32>, danger: Float32)
    requires
        dists.len() <= usize::MAX,
    ensures
        crate::scan::picks(
            conflicts_of(dists, danger),
            Seq::new(dists.len(), |i: int| in_conflict(dists[i], danger)),
        ),
    decreases dists.len(),
{
    let hits = Seq::new(dists.len(), |i: int| in_conflict(dists[i], danger));
    if dists.len() > 0 {
        lemma_conflicts_of(dists.drop_last(), danger);
        let before = Seq::new(
            (dists.len() - 1) as nat,
            |i: int| in_conflict(dists.drop_last()[i], danger),
        );
        crate::scan::lemma_picks_next(
            conflicts_of(dists.drop_last(), danger),
            before,
            in_conflict(dists.last(), danger),
        );
        assert(before.push(in_conflict(dists.last(), danger)) =~= hits);
    }
}

/// The neighbour comes nearer, so that giving way starts with braking.
pub fn is_closing(closing: Float32) -> (r: bool)
    ensures
        r == closing.less(Float32::from_bits(0)),
{
    closing.lt(Float32::from_bits(0))
}

/// Way is given to a neighbour that is worth less than the danger distance away, unless it is in the
/// same place. What is no number speaks against neither.
pub proof fn lemma_in_conflict(dist: Float32, danger: Float32)
    ensures
        in_conflict(dist, danger) <==> (dist.nan() || danger.nan() || dist.value() < danger.value())
            && (dist.nan() || Float32::from_bits(SAME_PLACE).value() <= dist.value()),
{
    crate::ieee::lemma_order32(danger, dist);
    crate::ieee::lemma_order32(dist, Float32::from_bits(SAME_PLACE));
}

/// What a node hears is the broadcast without what carries its own number: in the same order, and as
/// often as it was sent.
pub proof fn lemma_heard_in_order(telem: Seq<DroneTelemetry>, i: int)
    ensures
        heard_by(telem, i) == telem.filter(|t: DroneTelemetry| t.id != i),
    decreases telem.len(),
{
    reveal(Seq::filter);
    if telem.len() > 0 {
        lemma_heard_in_order(telem.drop_last(), i);
    }
}

/// What the constants of this module are worth.
pub proof fn lemma_measures()
    ensures
        crate::ieee::is_ratio32(Float32::from_bits(SAME_PLACE), 1, 1000000),
{
    assert(crate::ieee::is_ratio32(Float32::from_bits(SAME_PLACE), 1, 1000000)) by {
        vstd::arithmetic::power2::lemma2_to64_rest();
        crate::ieee::lemma_ratio32(Float32::from_bits(SAME_PLACE), 1, 1000000, 43);
    }
}

} // verus!
