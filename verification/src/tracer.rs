//! The decisions of a streamline trace. The caller integrates the field
//! and reports each step; the tracer keeps the path, emits seeds, checks
//! the separation from the accepted curves and decides when to stop.

use vstd::prelude::*;
use crate::curve::{
    curves_ok, is_raycast, polylines, raycast_of, raycast_to_curve, HermiteCurve,
};
use crate::point::{
    ceil_sqrt, dist_sq, floor_sqrt, isqrt, lemma_ceil_sqrt, lemma_dist_sq_bound, lemma_floor_sqrt,
    lemma_triangle, on_grid, Point, UNIT,
};

verus! {

/// Squared distance from the origin, in units, within which a path
/// counts as closed: a hundredth of a cell, squared.
pub const CLOSURE_SQUARED: u128 = 10_000;

/// A part of a whole, `num / den`. With `den == 0` it is undefined and
/// compares below nothing.
#[derive(Clone, Copy, Debug, PartialEq, Eq, Structural)]
pub struct Fraction {
    pub num: u64,
    pub den: u64,
}

/// What a trace hands on: the sampled path, and the seeds found along
/// it, each with the fraction of the travelled length at which it lies.
pub struct TraceOutput {
    pub path: Vec<Point>,
    pub new_seeds: Vec<(Point, Fraction)>,
}

/// What the caller reports for one step of the integration.
#[derive(Clone, Copy, Debug, PartialEq, Eq, Structural)]
pub enum TraceEvent {
    /// The field at the current position is degenerate.
    FieldVanished,
    /// The integration moved to `position`, where the required
    /// separation is `separation`.
    Stepped { position: Point, separation: u32 },
}

/// The state of a trace.
pub struct TraceState {
    pub origin: Point,
    pub position: Point,
    pub path: Seq<Point>,
    pub seeds: Seq<(Point, u64)>,
    pub accumulated: int,
    pub sampled_at: int,
    pub since_seed: int,
    pub since_check: int,
    pub margin: Option<int>,
    pub phase: int,
    pub rejected: bool,
    pub running: bool,
    pub step_size: u32,
    pub max_length: u32,
}

/// The distance left before the separation is violated: the distance to
/// the nearest curve less the required separation, unbounded where there
/// is no curve.
pub open spec fn margin_at(nearest: Option<u128>, separation: u32) -> Option<int> {
    match nearest {
        None => None,
        Some(d) => Some(floor_sqrt(d as int) - separation),
    }
}

/// No distance is left.
pub open spec fn blocked(margin: Option<int>) -> bool {
    margin is Some && margin->0 <= 0
}

/// Number of steps between two samples of the path: the steps that make
/// up one cell. With a step of a cell or more every step is sampled.
pub open spec fn sample_interval(step_size: u32) -> int {
    UNIT as int / step_size as int
}

/// The state in which a trace starts at `seed`, where `nearest` is the
/// squared distance from `seed` to the accepted curves. A seed without
/// margin is rejected, and a seed off the grid does not run.
pub open spec fn started(
    seed: Point,
    separation: u32,
    step_size: u32,
    max_length: u32,
    nearest: Option<u128>,
) -> TraceState {
    let margin = margin_at(nearest, separation);
    TraceState {
        origin: seed,
        position: seed,
        path: seq![seed],
        seeds: Seq::empty(),
        accumulated: 0,
        sampled_at: 0,
        since_seed: 0,
        since_check: 0,
        margin,
        phase: 0,
        rejected: blocked(margin),
        running: !blocked(margin) && on_grid(seed),
        step_size,
        max_length,
    }
}

/// The state after a step to `position`, where `nearest` is the squared
/// distance from `position` to the accepted curves.
///
/// The length of the step, rounded up, is added to what the trace has
/// travelled. A step that takes the travel beyond the greatest length
/// ends the trace: the trace moves, but nothing is sampled or emitted.
/// Otherwise a seed is emitted where the travel since the last one
/// reaches the separation; the distance to the curves is measured anew
/// where the travel since the last measurement has used up the margin,
/// and the trace ends there if no margin is left; the position is
/// sampled on every step that begins a cell; and the trace ends where it
/// comes back to its origin or leaves the grid.
pub open spec fn stepped(
    s: TraceState,
    position: Point,
    separation: u32,
    nearest: Option<u128>,
) -> TraceState {
    let dist = ceil_sqrt(dist_sq(s.position, position));
    let accumulated = s.accumulated + dist;
    if accumulated > s.max_length {
        TraceState { position, accumulated, running: false, ..s }
    } else {
        let emit = s.since_seed + dist >= separation;
        let seeds = if emit {
            s.seeds.push((position, accumulated as u64))
        } else {
            s.seeds
        };
        let since_seed = if emit {
            0
        } else {
            s.since_seed + dist
        };
        let recheck = s.margin is Some && s.since_check + dist >= s.margin->0;
        let fresh = margin_at(nearest, separation);
        if recheck && blocked(fresh) {
            TraceState {
                position,
                accumulated,
                seeds,
                since_seed,
                since_check: s.since_check + dist,
                running: false,
                ..s
            }
        } else {
            TraceState {
                position,
                accumulated,
                seeds,
                since_seed,
                since_check: if recheck {
                    0
                } else {
                    s.since_check + dist
                },
                margin: if recheck {
                    fresh
                } else {
                    s.margin
                },
                path: if s.phase == 0 {
                    s.path.push(position)
                } else {
                    s.path
                },
                sampled_at: if s.phase == 0 {
                    accumulated
                } else {
                    s.sampled_at
                },
                phase: if s.phase + 1 >= sample_interval(s.step_size) {
                    0
                } else {
                    s.phase + 1
                },
                running: dist_sq(position, s.origin) > CLOSURE_SQUARED && on_grid(position),
                ..s
            }
        }
    }
}

/// The state after an event. A trace that has stopped stays as it is.
pub open spec fn advanced(s: TraceState, event: TraceEvent, nearest: Option<u128>) -> TraceState {
    if !s.running {
        s
    } else {
        match event {
            TraceEvent::FieldVanished => TraceState { running: false, ..s },
            TraceEvent::Stepped { position, separation } => stepped(
                s,
                position,
                separation,
                nearest,
            ),
        }
    }
}

/// What a trace in state `s` hands on: nothing if the seed was rejected
/// or the path has fewer than two points, else the path and the seeds,
/// each with its arc length over the length travelled.
pub open spec fn finished(s: TraceState) -> (Seq<Point>, Seq<(Point, Fraction)>) {
    if s.rejected || s.path.len() < 2 {
        (Seq::empty(), Seq::empty())
    } else {
        (
            s.path,
            s.seeds.map_values(
                |seed: (Point, u64)| (seed.0, Fraction { num: seed.1, den: s.accumulated as u64 }),
            ),
        )
    }
}

/// A trace in progress.
pub struct Tracer {
    origin: Point,
    position: Point,
    path: Vec<Point>,
    seeds: Vec<(Point, u64)>,
    accumulated: u64,
    sampled_at: u64,
    since_seed: u64,
    since_check: u64,
    margin: Option<i64>,
    phase: u32,
    rejected: bool,
    running: bool,
    step_size: u32,
    max_length: u32,
}

impl View for Tracer {
    type V = TraceState;

    closed spec fn view(&self) -> TraceState {
        TraceState {
            origin: self.origin,
            position: self.position,
            path: self.path@,
            seeds: self.seeds@,
            accumulated: self.accumulated as int,
            sampled_at: self.sampled_at as int,
            since_seed: self.since_seed as int,
            since_check: self.since_check as int,
            margin: match self.margin {
                None => None,
                Some(m) => Some(m as int),
            },
            phase: self.phase as int,
            rejected: self.rejected,
            running: self.running,
            step_size: self.step_size,
            max_length: self.max_length,
        }
    }
}

/// The margin at a position with the given nearest squared distance.
fn margin_of(nearest: Option<u128>, separation: u32) -> (m: Option<i64>)
    requires
        nearest is Some ==> nearest->0 <= 0x2_0000_0000_0000_0000,
    ensures
        match m {
            None => margin_at(nearest, separation) is None,
            Some(v) => margin_at(nearest, separation) == Some(v as int),
        },
        m is Some ==> -0x1_0000_0000 <= m->0 <= 0x2_0000_0000,
{
    match nearest {
        None => None,
        Some(d) => {
            let r = isqrt(d);
            proof {
                lemma_floor_sqrt(d as int, r as int);
                assert(r <= 0x2_0000_0000) by (nonlinear_arith)
                    requires
                        r * r <= 0x2_0000_0000_0000_0000,
                        r >= 0,
                ;
            }
            Some(r as i64 - separation as i64)
        },
    }
}

impl Tracer {
    /// The bounds that keep the counters of a trace in range.
    pub closed spec fn wf(&self) -> bool {
        self.counters_ok() && within_length(self@)
    }

    spec fn counters_ok(&self) -> bool {
        &&& self.step_size > 0
        &&& self.since_seed <= self.accumulated
        &&& self.since_check <= self.accumulated
        &&& self.sampled_at <= self.accumulated
        &&& self.running ==> self.accumulated <= self.max_length
        &&& self.accumulated <= 0x4_0000_0000
        &&& self.margin is Some ==> -0x1_0000_0000 <= self.margin->0 <= 0x2_0000_0000
        &&& self.phase < UNIT
    }

    /// Starts a trace at `seed`, where the required separation is
    /// `separation`, against the curves accepted so far.
    pub fn start(
        seed: Point,
        separation: u32,
        step_size: u32,
        max_length: u32,
        previous_curves: &Vec<HermiteCurve>,
    ) -> (tracer: Tracer)
        requires
            step_size > 0,
            curves_ok(polylines(previous_curves@)),
        ensures
            tracer.wf(),
            tracer@ == started(
                seed,
                separation,
                step_size,
                max_length,
                raycast_of(polylines(previous_curves@), seed),
            ),
            is_raycast(
                polylines(previous_curves@),
                seed,
                raycast_of(polylines(previous_curves@), seed),
            ),
    {
        let nearest = raycast_to_curve(seed, previous_curves);
        let margin = margin_of(nearest, separation);
        let rejected = match margin {
            None => false,
            Some(m) => m <= 0,
        };
        let mut path: Vec<Point> = Vec::new();
        path.push(seed);
        let tracer = Tracer {
            origin: seed,
            position: seed,
            path,
            seeds: Vec::new(),
            accumulated: 0,
            sampled_at: 0,
            since_seed: 0,
            since_check: 0,
            margin,
            phase: 0,
            rejected,
            running: !rejected && seed.is_on_grid(),
            step_size,
            max_length,
        };
        proof {
            assert(tracer@.path =~= seq![seed]);
            assert(tracer@.seeds =~= Seq::<(Point, u64)>::empty());
            lemma_starts_within_length(seed, separation, step_size, max_length, nearest);
        }
        tracer
    }

    /// Whether the trace wants another step.
    pub fn is_running(&self) -> (b: bool)
        ensures
            b == self@.running,
    {
        self.running
    }

    /// Whether the seed was rejected for want of margin.
    pub fn is_rejected(&self) -> (b: bool)
        ensures
            b == self@.rejected,
    {
        self.rejected
    }

    /// The position from which the next step starts.
    pub fn position(&self) -> (p: Point)
        ensures
            p == self@.position,
    {
        self.position
    }

    /// Takes in one event of the integration.
    pub fn advance(&mut self, event: TraceEvent, previous_curves: &Vec<HermiteCurve>)
        requires
            old(self).wf(),
            curves_ok(polylines(previous_curves@)),
        ensures
            final(self).wf(),
            final(self)@ == advanced(
                old(self)@,
                event,
                match event {
                    TraceEvent::FieldVanished => None,
                    TraceEvent::Stepped { position, separation } => raycast_of(
                        polylines(previous_curves@),
                        position,
                    ),
                },
            ),
    {
        let ghost before = self@;
        self.take_in(event, previous_curves);
        proof {
            let nearest = match event {
                TraceEvent::FieldVanished => None,
                TraceEvent::Stepped { position, separation } => raycast_of(
                    polylines(previous_curves@),
                    position,
                ),
            };
            lemma_stays_within_length(before, event, nearest);
        }
    }

    /// Takes in one event and keeps the counters in range.
    fn take_in(&mut self, event: TraceEvent, previous_curves: &Vec<HermiteCurve>)
        requires
            old(self).counters_ok(),
            curves_ok(polylines(previous_curves@)),
        ensures
            final(self).counters_ok(),
            final(self)@ == advanced(
                old(self)@,
                event,
                match event {
                    TraceEvent::FieldVanished => None,
                    TraceEvent::Stepped { position, separation } => raycast_of(
                        polylines(previous_curves@),
                        position,
                    ),
                },
            ),
    {
        if !self.running {
            return ;
        }
        match event {
            TraceEvent::FieldVanished => {
                self.running = false;
            },
            TraceEvent::Stepped { position, separation } => {
                let ghost before = self@;
                let ghost curves = polylines(previous_curves@);
                let ghost nearest_here = raycast_of(curves, position);
                let dist = self.position.distance_up(&position);
                self.accumulated = self.accumulated + dist;
                self.position = position;
                if self.accumulated > self.max_length as u64 {
                    self.running = false;
                    proof {
                        assert(self@ == stepped(before, position, separation, nearest_here));
                    }
                    return ;
                }
                self.since_seed = self.since_seed + dist;
                self.since_check = self.since_check + dist;
                if self.since_seed >= separation as u64 {
                    self.since_seed = 0;
                    self.seeds.push((position, self.accumulated));
                }
                let recheck = match self.margin {
                    None => false,
                    Some(m) => self.since_check as i64 >= m,
                };
                if recheck {
                    let nearest = raycast_to_curve(position, previous_curves);
                    let fresh = margin_of(nearest, separation);
                    let stop = match fresh {
                        None => false,
                        Some(m) => m <= 0,
                    };
                    if stop {
                        self.running = false;
                        proof {
                            assert(self@ == stepped(before, position, separation, nearest_here));
                        }
                        return ;
                    }
                    self.margin = fresh;
                    self.since_check = 0;
                }
                if self.phase == 0 {
                    self.path.push(position);
                    self.sampled_at = self.accumulated;
                }
                let interval = UNIT / self.step_size;
                self.phase = if self.phase + 1 >= interval {
                    0
                } else {
                    self.phase + 1
                };
                let away = position.distance_squared(&self.origin);
                self.running = away > CLOSURE_SQUARED && position.is_on_grid();
                proof {
                    assert(self@ == stepped(before, position, separation, nearest_here));
                }
            },
        }
    }

    /// Ends the trace and hands on what it found.
    pub fn finish(self) -> (out: TraceOutput)
        requires
            self.wf(),
        ensures
            (out.path@, out.new_seeds@) == finished(self@),
            path_length(out.path@, out.path@.len() as int) <= self@.max_length,
    {
        if self.rejected || self.path.len() < 2 {
            return TraceOutput { path: Vec::new(), new_seeds: Vec::new() };
        }
        let mut new_seeds: Vec<(Point, Fraction)> = Vec::new();
        let mut i: usize = 0;
        while i < self.seeds.len()
            invariant
                i <= self.seeds@.len(),
                new_seeds@.len() == i,
                forall|j: int|
                    0 <= j < i ==> #[trigger] new_seeds@[j] == (
                        self.seeds@[j].0,
                        Fraction { num: self.seeds@[j].1, den: self.accumulated },
                    ),
            decreases self.seeds@.len() - i,
        {
            let (position, arc) = self.seeds[i];
            new_seeds.push((position, Fraction { num: arc, den: self.accumulated }));
            i = i + 1;
        }
        proof {
            assert(new_seeds@ =~= finished(self@).1);
        }
        TraceOutput { path: self.path, new_seeds }
    }
}

/// A trace runs only while it has not travelled farther than its
/// greatest length, and what it samples was reached within that length.
pub proof fn lemma_travel_bounded(s: TraceState, event: TraceEvent, nearest: Option<u128>)
    requires
        s.running ==> s.accumulated <= s.max_length,
        s.sampled_at <= s.max_length,
    ensures
        ({
            let t = advanced(s, event, nearest);
            &&& t.running ==> t.accumulated <= t.max_length
            &&& t.sampled_at <= t.max_length
            &&& t.max_length == s.max_length
            &&& t.path.len() > s.path.len() ==> t.sampled_at == t.accumulated
            &&& s.running && event is Stepped ==> t.accumulated == s.accumulated + ceil_sqrt(
                dist_sq(s.position, event->position),
            )
            &&& !(s.running && event is Stepped) ==> t.accumulated == s.accumulated
        }),
{
}

/// Length of the polyline through the first `m` points of a path: the
/// sum of the distances between neighbours, each rounded up to a unit.
pub open spec fn path_length(path: Seq<Point>, m: int) -> int
    decreases m,
{
    if m <= 1 {
        0
    } else {
        path_length(path, m - 1) + ceil_sqrt(dist_sq(path[m - 2], path[m - 1]))
    }
}

/// The sampled path is no longer than the travel at its last sample,
/// which is within the greatest length, and the position lies no
/// farther from the last sample than the trace has travelled since.
pub open spec fn within_length(s: TraceState) -> bool {
    &&& s.path.len() >= 1
    &&& path_length(s.path, s.path.len() as int) <= s.sampled_at <= s.max_length
    &&& s.sampled_at <= s.accumulated
    &&& ceil_sqrt(dist_sq(s.path.last(), s.position)) <= s.accumulated - s.sampled_at
}

/// The length of the first points of a path does not depend on the
/// points behind them.
proof fn lemma_path_length_frame(path: Seq<Point>, longer: Seq<Point>, m: int)
    requires
        0 <= m <= path.len() <= longer.len(),
        forall|i: int| 0 <= i < m ==> path[i] == longer[i],
    ensures
        path_length(path, m) == path_length(longer, m),
    decreases m,
{
    if m > 1 {
        lemma_path_length_frame(path, longer, m - 1);
    }
}

/// A trace starts within its greatest length.
pub proof fn lemma_starts_within_length(
    seed: Point,
    separation: u32,
    step_size: u32,
    max_length: u32,
    nearest: Option<u128>,
)
    ensures
        within_length(started(seed, separation, step_size, max_length, nearest)),
{
    lemma_ceil_sqrt(0, 0);
    let s = started(seed, separation, step_size, max_length, nearest);
    assert(s.path.last() == seed);
    assert(dist_sq(seed, seed) == 0);
}

/// Whatever is reported to a trace, its sampled path stays within the
/// greatest length: the polyline through the samples, with every
/// distance rounded up, is never longer.
pub proof fn lemma_stays_within_length(s: TraceState, event: TraceEvent, nearest: Option<u128>)
    requires
        within_length(s),
    ensures
        within_length(advanced(s, event, nearest)),
        path_length(
            advanced(s, event, nearest).path,
            advanced(s, event, nearest).path.len() as int,
        ) <= s.max_length,
{
    let t = advanced(s, event, nearest);
    if s.running && event is Stepped {
        let position = event->position;
        let last = s.path.last();
        let dist = ceil_sqrt(dist_sq(s.position, position));
        lemma_triangle(last, s.position, position);
        lemma_dist_sq_bound(s.position, position);
        lemma_ceil_sqrt(0, 0);
        assert(dist_sq(position, position) == 0);
        if t.path.len() > s.path.len() {
            let n = s.path.len() as int;
            assert(t.path == s.path.push(position));
            lemma_path_length_frame(s.path, t.path, n);
            assert(t.path[n - 1] == last);
            assert(path_length(t.path, n + 1) == path_length(t.path, n) + ceil_sqrt(
                dist_sq(last, position),
            ));
        }
    }
}

/// Where there are no curves, a trace from a seed on the grid samples
/// its first step, if the step fits the greatest length: it hands on a
/// path from the seed to the end of that step at least.
pub proof fn lemma_first_step_is_sampled(
    seed: Point,
    separation: u32,
    step_size: u32,
    max_length: u32,
    position: Point,
    separation_there: u32,
)
    requires
        on_grid(seed),
        ceil_sqrt(dist_sq(seed, position)) <= max_length,
    ensures
        ({
            let s = started(seed, separation, step_size, max_length, None);
            let t = advanced(
                s,
                TraceEvent::Stepped { position, separation: separation_there },
                None,
            );
            &&& s.running
            &&& t.path == seq![seed, position]
            &&& finished(t).0 == seq![seed, position]
        }),
{
    let s = started(seed, separation, step_size, max_length, None);
    let t = advanced(s, TraceEvent::Stepped { position, separation: separation_there }, None);
    assert(t.path =~= seq![seed, position]);
}

/// What holds of the seed and of every reported position holds of every
/// point of the path: a trace that is reported positions on one line
/// hands on a path on that line.
pub proof fn lemma_path_holds_what_is_reported(
    s: TraceState,
    event: TraceEvent,
    nearest: Option<u128>,
    holds: spec_fn(Point) -> bool,
)
    requires
        forall|i: int| 0 <= i < s.path.len() ==> holds(#[trigger] s.path[i]),
        event is Stepped ==> holds(event->position),
    ensures
        forall|i: int|
            0 <= i < advanced(s, event, nearest).path.len() ==> holds(
                #[trigger] advanced(s, event, nearest).path[i],
            ),
{
    let t = advanced(s, event, nearest);
    assert forall|i: int| 0 <= i < t.path.len() implies holds(#[trigger] t.path[i]) by {
        if i < s.path.len() {
            assert(t.path[i] == s.path[i]);
        }
    }
}

/// The path of a trace starts at its seed and only grows: what was
/// sampled stays as it is.
pub proof fn lemma_path_grows(s: TraceState, event: TraceEvent, nearest: Option<u128>)
    requires
        s.path.len() >= 1,
    ensures
        ({
            let t = advanced(s, event, nearest);
            &&& t.origin == s.origin
            &&& s.path.len() <= t.path.len() <= s.path.len() + 1
            &&& t.path.take(s.path.len() as int) == s.path
            &&& t.seeds.take(s.seeds.len() as int) == s.seeds
        }),
{
    let t = advanced(s, event, nearest);
    assert(t.path.take(s.path.len() as int) =~= s.path);
    assert(t.seeds.take(s.seeds.len() as int) =~= s.seeds);
}

/// A seed that lies on an accepted curve is rejected: the trace does not
/// run and hands on nothing.
pub proof fn lemma_seed_on_curve_is_rejected(
    seed: Point,
    separation: u32,
    step_size: u32,
    max_length: u32,
)
    ensures
        ({
            let s = started(seed, separation, step_size, max_length, Some(0u128));
            &&& s.rejected
            &&& !s.running
            &&& finished(s) == (Seq::<Point>::empty(), Seq::<(Point, Fraction)>::empty())
        }),
{
    lemma_floor_sqrt(0, 0);
}

/// A rejected trace stays rejected whatever is reported to it, and hands
/// on nothing.
pub proof fn lemma_rejected_stays_empty(s: TraceState, event: TraceEvent, nearest: Option<u128>)
    requires
        s.rejected,
        !s.running,
    ensures
        advanced(s, event, nearest) == s,
        finished(s) == (Seq::<Point>::empty(), Seq::<(Point, Fraction)>::empty()),
{
}

/// The position of the last of the first `upto` entries that carries the
/// tag `i`.
pub open spec fn last_tagged(tagged: Seq<(usize, TraceOutput)>, i: int, upto: int) -> Option<int>
    decreases upto,
{
    if upto <= 0 {
        None
    } else if tagged[upto - 1].0 == i {
        Some(upto - 1)
    } else {
        last_tagged(tagged, i, upto - 1)
    }
}

/// Slot `i` of `ordered` holds the last of the first `upto` traces that
/// is tagged `i`, or an empty trace where there is none.
pub open spec fn placed(
    tagged: Seq<(usize, TraceOutput)>,
    ordered: Seq<TraceOutput>,
    i: int,
    upto: int,
) -> bool {
    match last_tagged(tagged, i, upto) {
        Some(k) => ordered[i] == tagged[k].1,
        None => ordered[i].path@.len() == 0 && ordered[i].new_seeds@.len() == 0,
    }
}

/// Puts every trace into the slot named by its tag, so that the traces
/// stand in the order of the seeds that they started from, in whatever
/// order they were finished.
pub fn trace_lanes(unordered: Vec<(usize, TraceOutput)>) -> (ordered: Vec<TraceOutput>)
    requires
        forall|k: int| 0 <= k < unordered@.len() ==> (#[trigger] unordered@[k]).0 < unordered@.len(),
    ensures
        ordered@.len() == unordered@.len(),
        forall|i: int|
            0 <= i < ordered@.len() ==> #[trigger] placed(
                unordered@,
                ordered@,
                i,
                unordered@.len() as int,
            ),
{
    let n = unordered.len();
    let mut ordered: Vec<TraceOutput> = Vec::new();
    let mut i: usize = 0;
    while i < n
        invariant
            i <= n,
            ordered@.len() == i,
            forall|j: int|
                0 <= j < i ==> (#[trigger] ordered@[j]).path@.len() == 0
                    && ordered@[j].new_seeds@.len() == 0,
        decreases n - i,
    {
        ordered.push(TraceOutput { path: Vec::new(), new_seeds: Vec::new() });
        i = i + 1;
    }
    let ghost tagged = unordered@;
    for entry in it: unordered
        invariant
            n == tagged.len(),
            it.seq() == tagged,
            ordered@.len() == n,
            forall|k: int| 0 <= k < n ==> (#[trigger] tagged[k]).0 < n,
            forall|j: int| 0 <= j < n ==> #[trigger] placed(tagged, ordered@, j, it.index() as int),
    {
        let (index, trace_output) = entry;
        let ghost before = ordered@;
        let ghost k = it.index() as int;
        ordered[index] = trace_output;
        proof {
            assert(tagged[k] == (index, trace_output));
            assert forall|j: int| 0 <= j < n implies #[trigger] placed(tagged, ordered@, j, k + 1) by {
                assert(placed(tagged, before, j, k));
            }
        }
    }
    ordered
}

} // verus!
