//! Scenarios: how long they run, what stops them, and when they have passed.
//!
//! States, distances and energies are computed by the caller in floating point.

use crate::ieee::{Float32, Float64};
use crate::wind::WindConfig;
use vstd::prelude::*;

verus! {

/// The steps after which a scenario reports regularly.
pub const REPORT_EVERY: u64 = 500;

/// The steps at the beginning of a scenario that are all reported.
pub const REPORT_FIRST: u64 = 5;

/// The steps that a mission hovers for before it sets out.
pub const MISSION_HOVER_STEPS: u64 = 500;

/// One half, as a bit pattern. The constants below are bit patterns too.
pub const HOVER_TOLERANCE: u32 = 0x3F00_0000;

/// Four.
pub const DROP_REACHED: u32 = 0x4080_0000;

/// Six and a half.
pub const DROP_HELD: u32 = 0x40D0_0000;

/// Minus one half.
pub const DROP_SETTLED: u64 = 0xBFE0_0000_0000_0000;

/// One tenth.
pub const WIND_EFFECT: u64 = 0x3FB9_9999_9999_999A;

/// One radian per second.
pub const ATTITUDE_LOST: u64 = 0x3FF0_0000_0000_0000;

/// Six radians per second.
pub const TUMBLING: u32 = 0x40C0_0000;

/// A step is one of those that are reported regularly.
pub fn regular_report_due(step: u64) -> (r: bool)
    ensures
        r == (step % REPORT_EVERY == 0),
{
    step % REPORT_EVERY == 0
}

/// A step is reported: each of the first ones, and every [`REPORT_EVERY`]th after them.
pub fn report_due(step: u64) -> (r: bool)
    ensures
        r == (step <= REPORT_FIRST || step % REPORT_EVERY == 0),
{
    step <= REPORT_FIRST || regular_report_due(step)
}

/// What a step shows of a scenario.
#[derive(Clone, Copy, Debug, PartialEq, Eq, Structural)]
pub enum StepVerdict {
    Continue,
    /// The state is not finite.
    NotFinite,
    /// A motor command is out of bounds.
    OutOfBounds,
}

pub fn judge_step(state_finite: bool, command_bounded: bool) -> (r: StepVerdict)
    ensures
        r == if !state_finite {
            StepVerdict::NotFinite
        } else if !command_bounded {
            StepVerdict::OutOfBounds
        } else {
            StepVerdict::Continue
        },
{
    if !state_finite {
        StepVerdict::NotFinite
    } else if !command_bounded {
        StepVerdict::OutOfBounds
    } else {
        StepVerdict::Continue
    }
}

/// A scenario under way.
#[derive(Clone, Copy, Debug, PartialEq, Eq, Structural)]
pub struct Run {
    /// The steps so far, over all scenarios.
    pub steps: u64,
    /// The steps that are left of this one.
    pub left: u64,
    pub ok: bool,
}

impl Run {
    pub fn new(steps: u64, total: u64) -> (r: Self)
        ensures
            r == (Run { steps, left: total, ok: true }),
    {
        Run { steps, left: total, ok: true }
    }

    /// The scenario goes on.
    pub open spec fn goes_on(self) -> bool {
        self.ok && self.left > 0
    }

    /// The number of the step that the scenario ends with at the latest.
    pub open spec fn end(self) -> int {
        self.steps + self.left
    }

    pub fn more(&self) -> (r: bool)
        ensures
            r == self.goes_on(),
    {
        self.ok && self.left > 0
    }

    /// Counts a step. A step that shows a fault ends the scenario.
    pub fn advance(&mut self, verdict: StepVerdict)
        requires
            old(self).goes_on(),
            old(self).end() <= u64::MAX,
        ensures
            *final(self) == (Run {
                steps: (old(self).steps + 1) as u64,
                left: (old(self).left - 1) as u64,
                ok: verdict is Continue,
            }),
            final(self).end() == old(self).end(),
    {
        self.steps = self.steps + 1;
        self.left = self.left - 1;
        self.ok = matches!(verdict, StepVerdict::Continue);
    }
}

/// The scenario after a list of verdicts, of which it takes as many as it goes on for.
pub open spec fn run_after(run: Run, verdicts: Seq<StepVerdict>) -> Run
    decreases verdicts.len(),
{
    if verdicts.len() == 0 {
        run
    } else {
        let before = run_after(run, verdicts.drop_last());
        if before.goes_on() {
            Run {
                steps: (before.steps + 1) as u64,
                left: (before.left - 1) as u64,
                ok: verdicts.last() is Continue,
            }
        } else {
            before
        }
    }
}

/// A scenario without faults runs for exactly as many steps as it was to; one with a fault stops with
/// the first step that shows it.
pub proof fn lemma_run(run: Run, verdicts: Seq<StepVerdict>)
    requires
        run.ok,
        run.end() <= u64::MAX,
        verdicts.len() == run.left,
    ensures
        run_after(run, verdicts).end() == run.end(),
        run_after(run, verdicts).ok <==> forall|i: int|
            0 <= i < verdicts.len() ==> (#[trigger] verdicts[i]) is Continue,
        run_after(run, verdicts).ok ==> run_after(run, verdicts).left == 0,
        forall|i: int|
            0 <= i < verdicts.len() && !((#[trigger] verdicts[i]) is Continue) && (forall|j: int|
                0 <= j < i ==> (#[trigger] verdicts[j]) is Continue) ==> run_after(
                run,
                verdicts,
            ).steps == run.steps + i + 1,
{
    lemma_run_prefix(run, verdicts);
}

proof fn lemma_run_prefix(run: Run, verdicts: Seq<StepVerdict>)
    requires
        run.ok,
        run.end() <= u64::MAX,
        verdicts.len() <= run.left,
    ensures
        run_after(run, verdicts).end() == run.end(),
        run_after(run, verdicts).ok <==> forall|i: int|
            0 <= i < verdicts.len() ==> (#[trigger] verdicts[i]) is Continue,
        run_after(run, verdicts).ok ==> run_after(run, verdicts).left == run.left - verdicts.len(),
        forall|i: int|
            0 <= i < verdicts.len() && !((#[trigger] verdicts[i]) is Continue) && (forall|j: int|
                0 <= j < i ==> (#[trigger] verdicts[j]) is Continue) ==> run_after(
                run,
                verdicts,
            ).steps == run.steps + i + 1,
    decreases verdicts.len(),
{
    if verdicts.len() > 0 {
        let init = verdicts.drop_last();
        let last = verdicts.len() - 1;
        lemma_run_prefix(run, init);
        let before = run_after(run, init);
        assert(forall|i: int| 0 <= i < init.len() ==> init[i] == #[trigger] verdicts[i]);
        assert(verdicts[last] == verdicts.last());
        assert((forall|i: int| 0 <= i < verdicts.len() ==> (#[trigger] verdicts[i]) is Continue)
            <==> ((forall|i: int| 0 <= i < init.len() ==> (#[trigger] init[i]) is Continue)
            && verdicts[last] is Continue));
        assert forall|i: int|
            0 <= i < verdicts.len() && !((#[trigger] verdicts[i]) is Continue) && (forall|j: int|
                0 <= j < i ==> (#[trigger] verdicts[j]) is Continue) implies run_after(
            run,
            verdicts,
        ).steps == run.steps + i + 1 by {
            if i < last {
                assert(!(init[i] is Continue));
                assert forall|j: int| 0 <= j < i implies (#[trigger] init[j]) is Continue by {
                    assert(verdicts[j] is Continue);
                }
            } else {
                assert forall|j: int| 0 <= j < init.len() implies (#[trigger] init[j]) is Continue by {
                    assert(verdicts[j] is Continue);
                }
            }
        }
    }
}

/// A scenario goes on while it shows no fault and has a step left; one that does not stays as it is,
/// whatever is shown to it.
pub proof fn lemma_run_is_over(run: Run, verdicts: Seq<StepVerdict>)
    ensures
        run.goes_on() <==> run.ok && run.left != 0,
        !run.ok || run.left == 0 ==> run_after(run, verdicts) == run,
    decreases verdicts.len(),
{
    if verdicts.len() > 0 {
        lemma_run_is_over(run, verdicts.drop_last());
    }
}

/// Whether mechanical energy has only fallen.
#[derive(Clone, Copy, Debug, PartialEq, Eq, Structural)]
pub struct EnergyWatch {
    pub prev: Option<Float64>,
    pub monotonic: bool,
}

impl EnergyWatch {
    pub fn new() -> (r: Self)
        ensures
            r == (EnergyWatch { prev: None, monotonic: true }),
    {
        EnergyWatch { prev: None, monotonic: true }
    }

    /// Takes in the energy of a step. `allowed` is the last energy and what may be added to it by
    /// rounding; in the first step it counts for nothing.
    pub fn push(&mut self, energy: Float64, allowed: Float64)
        ensures
            *final(self) == (EnergyWatch {
                prev: Some(energy),
                monotonic: old(self).monotonic && (old(self).prev is None || !allowed.less(energy)),
            }),
    {
        match self.prev {
            Some(_) => {
                if allowed.lt(energy) {
                    self.monotonic = false;
                }
            },
            None => {},
        }
        self.prev = Some(energy);
    }
}

/// A hover has passed: no fault, and the end within half a metre in height and in the plane.
pub fn hover_passed(ok: bool, height_error: Float32, horizontal_error: Float32) -> (r: bool)
    ensures
        r == (ok && height_error.less(Float32::from_bits(HOVER_TOLERANCE))
            && horizontal_error.less(Float32::from_bits(HOVER_TOLERANCE))),
{
    ok && height_error.lt(Float32::from_bits(HOVER_TOLERANCE)) && horizontal_error.lt(
        Float32::from_bits(HOVER_TOLERANCE),
    )
}

/// The energies of a free fall.
#[derive(Clone, Copy, Debug, PartialEq, Eq, Structural)]
pub struct FallWatch {
    pub least: Float64,
    pub greatest: Float64,
    pub non_increasing: bool,
}

impl FallWatch {
    pub fn new() -> (r: Self)
        ensures
            r == (FallWatch {
                least: Float64::from_bits(crate::obstacle::INFINITY),
                greatest: Float64::from_bits(crate::obstacle::MINUS_INFINITY),
                non_increasing: true,
            }),
    {
        FallWatch {
            least: Float64::from_bits(crate::obstacle::INFINITY),
            greatest: Float64::from_bits(crate::obstacle::MINUS_INFINITY),
            non_increasing: true,
        }
    }

    /// Takes in the energy of a step. `limit` is the energy at the start and what may be added to it
    /// by rounding.
    pub fn push(&mut self, energy: Float64, limit: Float64)
        ensures
            *final(self) == (FallWatch {
                least: old(self).least.lesser_of(energy),
                greatest: old(self).greatest.greater_of(energy),
                non_increasing: old(self).non_increasing && !limit.less(energy),
            }),
    {
        self.least = self.least.min(energy);
        self.greatest = self.greatest.max(energy);
        if limit.lt(energy) {
            self.non_increasing = false;
        }
    }

    /// A free fall has passed: no fault, energy never above the limit, and the end lower than the
    /// start.
    pub fn passed(&self, ok: bool, start_down: Float32, end_down: Float32) -> (r: bool)
        ensures
            r == (ok && start_down.less(end_down) && self.non_increasing),
    {
        ok && start_down.lt(end_down) && self.non_increasing
    }
}

/// The course of a drop to the ground.
#[derive(Clone, Copy, Debug, PartialEq, Eq, Structural)]
pub struct DropWatch {
    pub max_down: Float32,
    pub min_down: Float32,
    pub end_speed: Float64,
}

impl DropWatch {
    pub fn new(start_down: Float32) -> (r: Self)
        ensures
            r == (DropWatch {
                max_down: start_down,
                min_down: start_down,
                end_speed: Float64::from_bits(0),
            }),
    {
        DropWatch {
            max_down: start_down,
            min_down: start_down,
            end_speed: Float64::from_bits(0),
        }
    }

    pub fn push(&mut self, down: Float32, speed: Float64)
        ensures
            *final(self) == (DropWatch {
                max_down: old(self).max_down.greater_of(down),
                min_down: old(self).min_down.lesser_of(down),
                end_speed: speed,
            }),
    {
        self.max_down = self.max_down.max(down);
        self.min_down = self.min_down.min(down);
        self.end_speed = speed;
    }

    /// A drop has passed: no fault, the ground reached but not gone through, and no rebound at the
    /// end.
    pub fn passed(&self, ok: bool) -> (r: bool)
        ensures
            r == (ok && Float32::from_bits(DROP_REACHED).less(self.max_down) && self.max_down.less(
                Float32::from_bits(DROP_HELD),
            ) && Float64::from_bits(DROP_SETTLED).less(self.end_speed)),
    {
        ok && Float32::from_bits(DROP_REACHED).lt(self.max_down) && self.max_down.lt(
            Float32::from_bits(DROP_HELD),
        ) && Float64::from_bits(DROP_SETTLED).lt(self.end_speed)
    }
}

/// A hover in wind has passed: no fault, and the wind has moved the vehicle.
pub fn wind_passed(ok: bool, final_horizontal: Float64) -> (r: bool)
    ensures
        r == (ok && Float64::from_bits(WIND_EFFECT).less(final_horizontal)),
{
    ok && Float64::from_bits(WIND_EFFECT).lt(final_horizontal)
}

/// How long attitude control survives a fault.
#[derive(Clone, Copy, Debug, PartialEq, Eq, Structural)]
pub struct SurvivalWatch {
    pub survived: u64,
    pub diverged: bool,
}

impl SurvivalWatch {
    pub fn new() -> (r: Self)
        ensures
            r == (SurvivalWatch { survived: 0, diverged: false }),
    {
        SurvivalWatch { survived: 0, diverged: false }
    }

    /// The step shows that attitude control is lost.
    pub open spec fn lost(rate: Float64, state_finite: bool) -> bool {
        Float64::from_bits(ATTITUDE_LOST).less(rate) || !state_finite
    }

    pub open spec fn after(self, rate: Float64, state_finite: bool) -> Self {
        if self.diverged {
            self
        } else if Self::lost(rate, state_finite) {
            SurvivalWatch { diverged: true, ..self }
        } else {
            SurvivalWatch { survived: (self.survived + 1) as u64, ..self }
        }
    }

    /// Takes in the angular rate of a step. Returns whether control was lost with this step. Once it
    /// is lost, nothing is counted any more.
    pub fn push(&mut self, rate: Float64, state_finite: bool) -> (r: bool)
        requires
            old(self).survived < u64::MAX,
        ensures
            *final(self) == old(self).after(rate, state_finite),
            r == (!old(self).diverged && Self::lost(rate, state_finite)),
    {
        if self.diverged {
            return false;
        }
        if Float64::from_bits(ATTITUDE_LOST).lt(rate) || !state_finite {
            self.diverged = true;
            true
        } else {
            self.survived = self.survived + 1;
            false
        }
    }
}

/// Lost control stays lost, and the count stays where it was.
pub proof fn lemma_divergence_is_final(w: SurvivalWatch, rate: Float64, state_finite: bool)
    requires
        w.diverged,
    ensures
        w.after(rate, state_finite) == w,
{
}

/// The effectiveness of the motors with one of them degraded, held between none and full.
pub fn degraded_motor(motor: usize, eff: Float32) -> (r: [Float32; 4])
    requires
        motor < 4,
    ensures
        forall|i: int|
            0 <= i < 4 ==> #[trigger] r[i] == if i == motor {
                eff.held_between(
                    Float32::from_bits(0),
                    Float32::from_bits(crate::controller::FULL),
                )
            } else {
                Float32::from_bits(crate::controller::FULL)
            },
{
    let one: Float32 = Float32::from_bits(crate::controller::FULL);
    let low: Float32 = eff.clamp(Float32::from_bits(0), one);
    let mut out: [Float32; 4] = [one, one, one, one];
    out[motor] = low;
    out
}

/// The segment of a path that an arc length lies in, from the arc lengths at the way points: the
/// first that ends no sooner. There is none beyond the last way point.
pub fn locate_segment(s: Float64, cum_len: &[Float64]) -> (r: Option<usize>)
    requires
        cum_len@.len() >= 1,
    ensures
        match r {
            Some(seg) => {
                &&& seg + 1 < cum_len@.len()
                &&& !cum_len@[seg + 1].less(s)
                &&& forall|k: int| 0 <= k < seg ==> (#[trigger] cum_len@[k + 1]).less(s)
            },
            None => forall|k: int| 0 <= k < cum_len@.len() - 1 ==> (#[trigger] cum_len@[k + 1]).less(s),
        },
{
    let nseg: usize = cum_len.len() - 1;
    let mut seg: usize = 0;
    while seg < nseg
        invariant
            seg <= nseg,
            nseg == cum_len@.len() - 1,
            forall|k: int| 0 <= k < seg ==> (#[trigger] cum_len@[k + 1]).less(s),
        decreases nseg - seg,
    {
        if !cum_len[seg + 1].lt(s) {
            return Some(seg);
        }
        seg += 1;
    }
    None
}

/// The segment that an arc length is located in holds it: from the start of the path on, the segment
/// begins no later than the arc length and ends no sooner.
pub proof fn lemma_segment_holds(s: Float64, cum_len: Seq<Float64>, seg: int)
    requires
        0 <= seg,
        seg + 1 < cum_len.len(),
        !s.nan(),
        forall|k: int| 0 <= k < cum_len.len() ==> !(#[trigger] cum_len[k]).nan(),
        !cum_len[seg + 1].less(s),
        forall|k: int| 0 <= k < seg ==> (#[trigger] cum_len[k + 1]).less(s),
        cum_len[0].at_most(s),
    ensures
        cum_len[seg].at_most(s),
        s.at_most(cum_len[seg + 1]),
{
    if seg > 0 {
        assert(cum_len[seg - 1 + 1].less(s));
    }
}

/// The errors of a mission.
#[derive(Clone, Copy, Debug, PartialEq, Eq, Structural)]
pub struct MissionWatch {
    pub max_err: Float64,
    pub sum_sq: Float64,
    pub n: u64,
    pub stable: bool,
}

/// The vehicle tumbles, or its state is not finite.
pub open spec fn mission_lost(rate: Float32, state_finite: bool) -> bool {
    Float32::from_bits(TUMBLING).less(rate) || !state_finite
}

/// The mission goes no further after a step with this angular rate.
pub fn is_mission_lost(rate: Float32, state_finite: bool) -> (r: bool)
    ensures
        r == mission_lost(rate, state_finite),
{
    Float32::from_bits(TUMBLING).lt(rate) || !state_finite
}

/// A mission with fewer than two way points has nothing to fly.
pub fn has_path(waypoints: usize) -> (r: bool)
    ensures
        r == (waypoints >= 2),
{
    waypoints >= 2
}

impl MissionWatch {
    pub fn new() -> (r: Self)
        ensures
            r == (MissionWatch {
                max_err: Float64::from_bits(0),
                sum_sq: Float64::from_bits(0),
                n: 0,
                stable: true,
            }),
    {
        MissionWatch {
            max_err: Float64::from_bits(0),
            sum_sq: Float64::from_bits(0),
            n: 0,
            stable: true,
        }
    }

    pub open spec fn after(
        self,
        err: Float64,
        sum_sq: Float64,
        rate: Float32,
        state_finite: bool,
    ) -> Self {
        MissionWatch {
            max_err: if self.max_err.less(err) {
                err
            } else {
                self.max_err
            },
            sum_sq,
            n: (self.n + 1) as u64,
            stable: self.stable && !mission_lost(rate, state_finite),
        }
    }

    /// Takes in the error of a step, with the sum of squares with it, and whether the vehicle is under
    /// control.
    pub fn push(&mut self, err: Float64, sum_sq: Float64, rate: Float32, state_finite: bool)
        requires
            old(self).n < u64::MAX,
        ensures
            *final(self) == old(self).after(err, sum_sq, rate, state_finite),
    {
        if self.max_err.lt(err) {
            self.max_err = err;
        }
        self.sum_sq = sum_sq;
        self.n = self.n + 1;
        if is_mission_lost(rate, state_finite) {
            self.stable = false;
        }
    }

    /// The mission goes on: it is stable, and the arc length is below the limit.
    pub fn more(&self, s: Float64, limit: Float64) -> (r: bool)
        ensures
            r == (self.stable && s.less(limit)),
    {
        self.stable && s.lt(limit)
    }
}

/// What a mission is at.
#[derive(Clone, Copy, Debug, PartialEq, Eq, Structural)]
pub enum MissionPhase {
    /// It hovers over the first way point, for this many more steps.
    Hover { left: u64 },
    /// It follows the path.
    Path,
    Over,
}

/// What a mission is told.
#[derive(Clone, Copy, Debug, PartialEq, Eq, Structural)]
pub enum MissionEvent {
    /// A step over the first way point, with the angular rate after it.
    Hovered { rate: Float32, state_finite: bool },
    /// The arc length that is to be flown to next, and the one that the path ends at.
    Aimed { s: Float64, limit: Float64 },
    /// A step along the path: its error, the sum of squares with it, and the angular rate after it.
    Followed { err: Float64, sum_sq: Float64, rate: Float32, state_finite: bool },
}

/// A mission under way: it hovers for [`MISSION_HOVER_STEPS`] steps, follows the path to its end, and
/// stops as soon as the vehicle is lost.
#[derive(Clone, Copy, Debug, PartialEq, Eq, Structural)]
pub struct Mission {
    pub phase: MissionPhase,
    pub watch: MissionWatch,
}

impl Mission {
    /// A mission that has not begun. Without a path it is over.
    pub open spec fn start(waypoints: int) -> Self {
        Mission {
            phase: if waypoints >= 2 {
                MissionPhase::Hover { left: MISSION_HOVER_STEPS }
            } else {
                MissionPhase::Over
            },
            watch: MissionWatch {
                max_err: Float64::from_bits(0),
                sum_sq: Float64::from_bits(0),
                n: 0,
                stable: true,
            },
        }
    }

    pub fn new(waypoints: usize) -> (r: Self)
        ensures
            r == Self::start(waypoints as int),
    {
        Mission {
            phase: if has_path(waypoints) {
                MissionPhase::Hover { left: MISSION_HOVER_STEPS }
            } else {
                MissionPhase::Over
            },
            watch: MissionWatch::new(),
        }
    }

    /// The mission after an event. One that its phase does not wait for changes nothing.
    pub open spec fn after(self, event: MissionEvent) -> Self {
        match (self.phase, event) {
            (MissionPhase::Hover { left }, MissionEvent::Hovered { rate, state_finite }) => {
                if mission_lost(rate, state_finite) {
                    Mission {
                        phase: MissionPhase::Over,
                        watch: MissionWatch { stable: false, ..self.watch },
                    }
                } else if left <= 1 {
                    Mission { phase: MissionPhase::Path, ..self }
                } else {
                    Mission { phase: MissionPhase::Hover { left: (left - 1) as u64 }, ..self }
                }
            },
            (MissionPhase::Path, MissionEvent::Aimed { s, limit }) => {
                if self.watch.stable && s.less(limit) {
                    self
                } else {
                    Mission { phase: MissionPhase::Over, ..self }
                }
            },
            (
                MissionPhase::Path,
                MissionEvent::Followed { err, sum_sq, rate, state_finite },
            ) => Mission {
                phase: if mission_lost(rate, state_finite) {
                    MissionPhase::Over
                } else {
                    MissionPhase::Path
                },
                watch: self.watch.after(err, sum_sq, rate, state_finite),
            },
            _ => self,
        }
    }

    pub fn advance(&mut self, event: MissionEvent)
        requires
            event is Followed ==> old(self).watch.n < u64::MAX,
        ensures
            *final(self) == old(self).after(event),
    {
        match (self.phase, event) {
            (MissionPhase::Hover { left }, MissionEvent::Hovered { rate, state_finite }) => {
                if is_mission_lost(rate, state_finite) {
                    self.phase = MissionPhase::Over;
                    self.watch.stable = false;
                } else if left <= 1 {
                    self.phase = MissionPhase::Path;
                } else {
                    self.phase = MissionPhase::Hover { left: left - 1 };
                }
            },
            (MissionPhase::Path, MissionEvent::Aimed { s, limit }) => {
                if !self.watch.more(s, limit) {
                    self.phase = MissionPhase::Over;
                }
            },
            (
                MissionPhase::Path,
                MissionEvent::Followed { err, sum_sq, rate, state_finite },
            ) => {
                self.watch.push(err, sum_sq, rate, state_finite);
                if is_mission_lost(rate, state_finite) {
                    self.phase = MissionPhase::Over;
                }
            },
            _ => {},
        }
    }
}

/// A mission after a list of events.
pub open spec fn mission_after(m: Mission, events: Seq<MissionEvent>) -> Mission
    decreases events.len(),
{
    if events.len() == 0 {
        m
    } else {
        mission_after(m, events.drop_last()).after(events.last())
    }
}

/// The event is a step over the first way point with the vehicle under control.
pub open spec fn hovers(event: MissionEvent) -> bool {
    event matches MissionEvent::Hovered { rate, state_finite } && !mission_lost(rate, state_finite)
}

/// A mission with a path hovers for exactly [`MISSION_HOVER_STEPS`] steps before it follows the path,
/// and has no error until then.
pub proof fn lemma_mission_hovers_first(waypoints: int, events: Seq<MissionEvent>)
    requires
        waypoints >= 2,
        events.len() <= MISSION_HOVER_STEPS,
        forall|i: int| 0 <= i < events.len() ==> hovers(#[trigger] events[i]),
    ensures
        mission_after(Mission::start(waypoints), events) == (Mission {
            phase: if events.len() == MISSION_HOVER_STEPS {
                MissionPhase::Path
            } else {
                MissionPhase::Hover { left: (MISSION_HOVER_STEPS - events.len()) as u64 }
            },
            ..Mission::start(waypoints)
        }),
    decreases events.len(),
{
    if events.len() > 0 {
        let init = events.drop_last();
        assert forall|i: int| 0 <= i < init.len() implies hovers(#[trigger] init[i]) by {
            assert(hovers(events[i]));
        }
        lemma_mission_hovers_first(waypoints, init);
        assert(hovers(events[events.len() - 1]));
    }
}

/// A mission that loses the vehicle while it hovers is over: unstable, and without an error.
pub proof fn lemma_mission_lost_in_hover(
    waypoints: int,
    events: Seq<MissionEvent>,
    rate: Float32,
    state_finite: bool,
)
    requires
        waypoints >= 2,
        events.len() < MISSION_HOVER_STEPS,
        forall|i: int| 0 <= i < events.len() ==> hovers(#[trigger] events[i]),
        mission_lost(rate, state_finite),
    ensures
        mission_after(
            Mission::start(waypoints),
            events.push(MissionEvent::Hovered { rate, state_finite }),
        ) == (Mission {
            phase: MissionPhase::Over,
            watch: MissionWatch {
                max_err: Float64::from_bits(0),
                sum_sq: Float64::from_bits(0),
                n: 0,
                stable: false,
            },
        }),
{
    lemma_mission_hovers_first(waypoints, events);
    assert(events.push(MissionEvent::Hovered { rate, state_finite }).drop_last() =~= events);
}

/// A mission that is over stays as it is.
pub proof fn lemma_mission_over_is_final(m: Mission, event: MissionEvent)
    requires
        m.phase is Over,
    ensures
        m.after(event) == m,
{
}

/// A mission that has become unstable is over, and one that is not over is stable, whatever it is
/// told.
pub proof fn lemma_mission_stable(waypoints: int, events: Seq<MissionEvent>)
    ensures
        !mission_after(Mission::start(waypoints), events).watch.stable ==> mission_after(
            Mission::start(waypoints),
            events,
        ).phase is Over,
    decreases events.len(),
{
    if events.len() > 0 {
        lemma_mission_stable(waypoints, events.drop_last());
    }
}

/// The mission followed its path until event `i`, which aimed at an arc length that was not below the
/// limit.
pub open spec fn arrives(waypoints: int, events: Seq<MissionEvent>, i: int) -> bool {
    &&& mission_after(Mission::start(waypoints), events.take(i)).phase is Path
    &&& events[i] matches MissionEvent::Aimed { s, limit } && !s.less(limit)
}

/// A mission with a path that is over and stable has come to the end of its path: it followed the
/// path until the arc length that it aimed at was not below the limit, and has stayed as it was.
pub proof fn lemma_mission_arrives(waypoints: int, events: Seq<MissionEvent>)
    requires
        waypoints >= 2,
        mission_after(Mission::start(waypoints), events).phase is Over,
        mission_after(Mission::start(waypoints), events).watch.stable,
    ensures
        exists|i: int|
            0 <= i < events.len() && #[trigger] arrives(waypoints, events, i) && mission_after(
                Mission::start(waypoints),
                events,
            ).watch == mission_after(Mission::start(waypoints), events.take(i)).watch,
    decreases events.len(),
{
    if events.len() > 0 {
        let init = events.drop_last();
        let before = mission_after(Mission::start(waypoints), init);
        let last = events.len() - 1;
        assert(events.take(last) =~= init);
        if before.phase is Over {
            lemma_mission_arrives(waypoints, init);
            let i = choose|i: int|
                0 <= i < init.len() && #[trigger] arrives(waypoints, init, i) && before.watch
                    == mission_after(Mission::start(waypoints), init.take(i)).watch;
            assert(events.take(i) =~= init.take(i));
            assert(arrives(waypoints, events, i));
        } else {
            lemma_mission_stable(waypoints, init);
            assert(arrives(waypoints, events, last));
        }
    }
}

/// The seed of the wind of the scenario.
pub const WINDY_SEED: u64 = 0xCAFE_BEEF;

/// Minus four fifths of a metre per second: the steady wind from the side.
pub const WINDY_BASE: u64 = 0xBFE9_9999_9999_999A;

/// The wind of the scenario: a light steady wind from the side, gusts and turbulence, and none of the
/// other parts.
pub fn windy_config() -> (r: WindConfig)
    ensures
        r.base@ == seq![
            Float64::from_bits(0),
            Float64::from_bits(0),
            Float64::from_bits(WINDY_BASE),
        ],
        r.gust_amp@ == seq![
            Float64::from_bits(0x3FD3_3333_3333_3333),
            Float64::from_bits(0),
            Float64::from_bits(0x3FC9_9999_9999_999A),
        ],
        r.gust_freq == Float64::from_bits(0x3FBE_B851_EB85_1EB8),
        r.turb_sigma@ == seq![
            Float64::from_bits(0x3FB9_9999_9999_999A),
            Float64::from_bits(0x3FB9_9999_9999_999A),
            Float64::from_bits(0x3FC3_3333_3333_3333),
        ],
        r.turb_tau == Float64::from_bits(0x3FE6_6666_6666_6666),
        r.seed == WINDY_SEED,
        r.is_plain(),
{
    let zero: Float64 = Float64::from_bits(0);
    // 0.1, 0.15, 0.2 and 0.3
    let tenth: Float64 = Float64::from_bits(0x3FB9_9999_9999_999A);
    let more: Float64 = Float64::from_bits(0x3FC3_3333_3333_3333);
    let fifth: Float64 = Float64::from_bits(0x3FC9_9999_9999_999A);
    let most: Float64 = Float64::from_bits(0x3FD3_3333_3333_3333);
    let side: Float64 = Float64::from_bits(WINDY_BASE);
    let mut r: WindConfig = WindConfig::default();
    r.base = [zero, zero, side];
    r.gust_amp = [most, zero, fifth];
    // 0.12
    r.gust_freq = Float64::from_bits(0x3FBE_B851_EB85_1EB8);
    r.turb_sigma = [tenth, tenth, more];
    // 0.7
    r.turb_tau = Float64::from_bits(0x3FE6_6666_6666_6666);
    r.seed = WINDY_SEED;
    proof {
        assert(r.base@ =~= seq![zero, zero, side]);
        assert(r.gust_amp@ =~= seq![most, zero, fifth]);
        assert(r.turb_sigma@ =~= seq![tenth, tenth, more]);
    }
    r
}

/// Control is lost, and a mission with it, where the state is not finite or the vehicle turns faster
/// than is worth: one radian per second for a survey of faults, six for a mission.
pub proof fn lemma_lost(rate: Float64, mission_rate: Float32, state_finite: bool)
    ensures
        SurvivalWatch::lost(rate, state_finite) <==> !state_finite || (!rate.nan() && rate.value()
            > crate::ieee::one64()),
        mission_lost(mission_rate, state_finite) <==> !state_finite || (!mission_rate.nan()
            && mission_rate.value() > 6 * crate::ieee::one32()),
{
    let limit = Float64::from_bits(ATTITUDE_LOST);
    let tumbling = Float32::from_bits(TUMBLING);
    assert(limit.value() == crate::ieee::one64()) by {
        vstd::arithmetic::power2::lemma2_to64_rest();
        crate::ieee::lemma_exact64(limit, 1, 1, 52);
    }
    assert(tumbling.value() == 6 * crate::ieee::one32()) by {
        vstd::arithmetic::power2::lemma2_to64();
        crate::ieee::lemma_exact32(tumbling, 6, 1, 21);
    }
    crate::ieee::lemma_order64(limit, rate);
    crate::ieee::lemma_order32(tumbling, mission_rate);
}

/// The survey of a fault after a list of steps, from the angular rate and the state of each.
pub open spec fn survey_after(w: SurvivalWatch, steps: Seq<(Float64, bool)>) -> SurvivalWatch
    decreases steps.len(),
{
    if steps.len() == 0 {
        w
    } else {
        survey_after(w, steps.drop_last()).after(steps.last().0, steps.last().1)
    }
}

/// What is counted are the steps before the first one in which control is lost; and it is lost exactly
/// where there is such a step.
pub proof fn lemma_survival(steps: Seq<(Float64, bool)>)
    requires
        steps.len() <= u64::MAX,
    ensures
        ({
            let w = survey_after(SurvivalWatch { survived: 0, diverged: false }, steps);
            &&& w.survived <= steps.len()
            &&& forall|i: int|
                0 <= i < w.survived ==> !SurvivalWatch::lost(
                    (#[trigger] steps[i]).0,
                    steps[i].1,
                )
            &&& w.diverged <==> w.survived < steps.len()
            &&& w.diverged ==> SurvivalWatch::lost(
                steps[w.survived as int].0,
                steps[w.survived as int].1,
            )
        }),
    decreases steps.len(),
{
    if steps.len() > 0 {
        let t = steps.drop_last();
        lemma_survival(t);
        let before = survey_after(SurvivalWatch { survived: 0, diverged: false }, t);
        assert forall|i: int| 0 <= i < t.len() implies #[trigger] steps[i] == t[i] by {}
        assert(before.diverged ==> t[before.survived as int] == steps[before.survived as int]);
        assert(steps.last() == steps[steps.len() - 1]);
    }
}

/// A step along the path counts once, raises the greatest error where its own is worth more, takes
/// over the sum, and ends stability exactly where the vehicle is lost.
pub proof fn lemma_mission_watch(
    w: MissionWatch,
    err: Float64,
    sum_sq: Float64,
    rate: Float32,
    state_finite: bool,
)
    requires
        w.n < u64::MAX,
    ensures
        ({
            let after = w.after(err, sum_sq, rate, state_finite);
            &&& after.n == w.n + 1
            &&& after.sum_sq == sum_sq
            &&& after.stable <==> w.stable && !mission_lost(rate, state_finite)
            &&& after.max_err == w.max_err || after.max_err == err
            &&& !w.max_err.nan() && !err.nan() ==> after.max_err.value() == if w.max_err.value()
                < err.value() {
                err.value()
            } else {
                w.max_err.value()
            }
            &&& err.nan() ==> after.max_err == w.max_err
        }),
{
    crate::ieee::lemma_order64(w.max_err, err);
}

/// A stable mission that follows its path goes on while it aims below the limit, is over when it does
/// not, counts every step along the path, and is over with the step that loses the vehicle. What it
/// does not wait for changes nothing.
pub proof fn lemma_mission_follows_path(m: Mission, event: MissionEvent)
    requires
        m.watch.stable,
    ensures
        m.phase is Path ==> match event {
            MissionEvent::Aimed { s, limit } => {
                &&& m.after(event).watch == m.watch
                &&& m.after(event).phase is Path <==> !s.nan() && !limit.nan() && s.value()
                    < limit.value()
                &&& !(m.after(event).phase is Path) ==> m.after(event).phase is Over
            },
            MissionEvent::Followed { err, sum_sq, rate, state_finite } => {
                &&& m.after(event).watch == m.watch.after(err, sum_sq, rate, state_finite)
                &&& m.after(event).phase is Over <==> mission_lost(rate, state_finite)
                &&& m.after(event).phase is Path <==> !mission_lost(rate, state_finite)
            },
            MissionEvent::Hovered { .. } => m.after(event) == m,
        },
        m.phase is Hover && !(event is Hovered) ==> m.after(event) == m,
{
    if let MissionEvent::Aimed { s, limit } = event {
        crate::ieee::lemma_order64(s, limit);
    }
}

/// A mission without a path is over before it begins; one with a path hovers first. Both are stable,
/// and neither has an error yet.
pub proof fn lemma_mission_start(waypoints: int)
    ensures
        Mission::start(waypoints).phase is Over <==> waypoints < 2,
        waypoints >= 2 ==> Mission::start(waypoints).phase == (MissionPhase::Hover { left: 500 }),
        Mission::start(waypoints).watch.stable,
        Mission::start(waypoints).watch.n == 0,
        Mission::start(waypoints).watch.max_err.bits == 0,
        Mission::start(waypoints).watch.sum_sq.bits == 0,
{
}

/// How often a scenario reports, and how many of its first steps.
pub proof fn lemma_reports()
    ensures
        REPORT_EVERY == 500,
        REPORT_FIRST == 5,
{
}

/// What the constants of this module are worth.
pub proof fn lemma_measures()
    ensures
        crate::ieee::is_ratio32(Float32::from_bits(HOVER_TOLERANCE), 1, 2),
        crate::ieee::is_ratio32(Float32::from_bits(DROP_REACHED), 4, 1),
        crate::ieee::is_ratio32(Float32::from_bits(DROP_HELD), 13, 2),
        crate::ieee::is_ratio64(Float64::from_bits(DROP_SETTLED), -1, 2),
        crate::ieee::is_ratio64(Float64::from_bits(WIND_EFFECT), 1, 10),
        crate::ieee::is_ratio64(Float64::from_bits(ATTITUDE_LOST), 1, 1),
        crate::ieee::is_ratio32(Float32::from_bits(TUMBLING), 6, 1),
        crate::ieee::is_ratio64(Float64::from_bits(WINDY_BASE), -4, 5),
{
    assert(crate::ieee::is_ratio32(Float32::from_bits(HOVER_TOLERANCE), 1, 2)) by {
        vstd::arithmetic::power2::lemma2_to64();
        crate::ieee::lemma_ratio32(Float32::from_bits(HOVER_TOLERANCE), 1, 2, 24);
    }
    assert(crate::ieee::is_ratio32(Float32::from_bits(DROP_REACHED), 4, 1)) by {
        vstd::arithmetic::power2::lemma2_to64();
        crate::ieee::lemma_ratio32(Float32::from_bits(DROP_REACHED), 4, 1, 21);
    }
    assert(crate::ieee::is_ratio32(Float32::from_bits(DROP_HELD), 13, 2)) by {
        vstd::arithmetic::power2::lemma2_to64();
        crate::ieee::lemma_ratio32(Float32::from_bits(DROP_HELD), 13, 2, 21);
    }
    assert(crate::ieee::is_ratio64(Float64::from_bits(DROP_SETTLED), -1, 2)) by {
        vstd::arithmetic::power2::lemma2_to64_rest();
        crate::ieee::lemma_ratio64(Float64::from_bits(DROP_SETTLED), -1, 2, 53);
    }
    assert(crate::ieee::is_ratio64(Float64::from_bits(WIND_EFFECT), 1, 10)) by {
        vstd::arithmetic::power2::lemma2_to64_rest();
        crate::ieee::lemma_ratio64(Float64::from_bits(WIND_EFFECT), 1, 10, 56);
    }
    assert(crate::ieee::is_ratio64(Float64::from_bits(ATTITUDE_LOST), 1, 1)) by {
        vstd::arithmetic::power2::lemma2_to64_rest();
        crate::ieee::lemma_ratio64(Float64::from_bits(ATTITUDE_LOST), 1, 1, 52);
    }
    assert(crate::ieee::is_ratio32(Float32::from_bits(TUMBLING), 6, 1)) by {
        vstd::arithmetic::power2::lemma2_to64();
        crate::ieee::lemma_ratio32(Float32::from_bits(TUMBLING), 6, 1, 21);
    }
    assert(crate::ieee::is_ratio64(Float64::from_bits(WINDY_BASE), -4, 5)) by {
        vstd::arithmetic::power2::lemma2_to64_rest();
        crate::ieee::lemma_ratio64(Float64::from_bits(WINDY_BASE), -4, 5, 53);
    }
}

} // verus!
