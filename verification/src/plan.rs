//! The plan of a street network: the seeds still to be traced and the
//! curves accepted so far, pass by pass. The caller traces and smooths
//! the seeds of each pass; the plan clips what comes back and takes up
//! the survivors and their seeds.

use vstd::prelude::*;
use vstd::multiset::Multiset;
use crate::clip::{
    candidates_view, clip_pass, constant_separation, cuts_view, describes, is_pass,
    lemma_cuts_have_two,
};
use crate::present::present;
use crate::smoothing::{are_fitted, paths_ok, smooth_lanes};
use crate::tracer::{Fraction, TraceOutput};
use crate::curve::{curves_ok, polylines, ControlPoint, HermiteCurve};
use crate::point::Point;
use crate::point::UNIT;
use crate::seeding::lattice_point;
use crate::seeds::{
    falling, heap_to_vec, prioritize_points, prioritized, SeedPoint, SeedQueue, TraceSeeds,
};

verus! {

/// Step size of the integration, in units: a fifth of a cell.
pub const STEP_SIZE: u32 = 2_000;

/// Length, in units, after which a trace stops: two hundred cells.
pub const MAX_TRACE_LENGTH: u32 = 2_000_000;

/// Threshold of the first smoothing pass, in ten-thousandths.
pub const ALPHA: u32 = 300;

/// Threshold of the second smoothing pass, in ten-thousandths.
pub const BETA: u32 = 3_000;

/// Number of indices kept between two control points of a curve.
pub const POINT_SIDE_PADDING: usize = 20;

/// Weight of the two-sided difference in the tangents, in
/// ten-thousandths.
pub const BLEND_FACTOR: u16 = 7_000;

/// Priority of a seed that was found along a trace.
pub const FOUND_SEED_PRIORITY: i64 = 0;

/// Number of the fixed starting points.
pub const STARTING_POINT_COUNT: usize = 30;

/// The cells of the fixed starting points.
pub const STARTING_CELLS: [(u32, u32); 30] = [
    (391, 113),
    (10, 470),
    (382, 472),
    (61, 152),
    (413, 291),
    (191, 298),
    (0, 303),
    (147, 0),
    (304, 294),
    (298, 41),
    (230, 509),
    (502, 416),
    (127, 205),
    (285, 162),
    (459, 40),
    (299, 436),
    (121, 472),
    (508, 493),
    (470, 151),
    (214, 413),
    (364, 355),
    (171, 63),
    (355, 191),
    (274, 355),
    (66, 336),
    (230, 65),
    (30, 31),
    (223, 12),
    (193, 146),
    (447, 224),
];

/// The fixed starting points, as positions.
pub open spec fn starting_positions() -> Seq<Point> {
    Seq::new(
        30,
        |i: int| lattice_point(STARTING_CELLS@[i].0 as int, STARTING_CELLS@[i].1 as int),
    )
}

/// The fixed starting points of a plan that is seeded at random.
pub fn starting_points() -> (points: Vec<Point>)
    ensures
        points@ == starting_positions(),
{
    let mut points: Vec<Point> = Vec::new();
    let mut i: usize = 0;
    while i < STARTING_POINT_COUNT
        invariant
            i <= STARTING_POINT_COUNT,
            points@.len() == i,
            forall|k: int| 0 <= k < i ==> #[trigger] points@[k] == starting_positions()[k],
        decreases STARTING_POINT_COUNT - i,
    {
        let (cx, cy) = STARTING_CELLS[i];
        assert(cx < 512 && cy < 512);
        let x: u32 = cx * UNIT;
        let y: u32 = cy * UNIT;
        points.push(Point { x: x as i32, y: y as i32 });
        i = i + 1;
    }
    assert(points@ =~= starting_positions());
    points
}

/// The queue that a plan starts from. Given seeds are queued as they
/// are. A plan that is seeded at random starts from the fixed starting
/// points: `field_norms[i]` is the field magnitude at starting point
/// `i` and `priorities[i]` its rank, and a point at which the field is
/// degenerate is left out.
pub fn initial_seeds(seeds: &TraceSeeds, field_norms: &Vec<u32>, priorities: &Vec<i64>) -> (queue:
    SeedQueue)
    requires
        *seeds is Random ==> field_norms@.len() == STARTING_POINT_COUNT && priorities@.len()
            == STARTING_POINT_COUNT,
    ensures
        queue.wf(),
        queue@ == match *seeds {
            TraceSeeds::Random(_) => prioritized(
                starting_positions(),
                field_norms@,
                priorities@,
                STARTING_POINT_COUNT as int,
            ),
            TraceSeeds::Specific(given) => given@.to_multiset(),
        },
{
    match seeds {
        TraceSeeds::Random(_) => {
            let points = starting_points();
            prioritize_points(&points, field_norms, priorities)
        },
        TraceSeeds::Specific(given) => SeedQueue::from_vec(given),
    }
}

/// What the caller is to trace in one pass.
pub struct Pass {
    /// Whether the traces follow the major eigenvectors.
    pub follow_major_eigenvectors: bool,
    /// The seeds, from the highest priority down.
    pub seeds: Vec<SeedPoint>,
}

/// A street plan in the making.
pub struct StreetPlan {
    seeds: SeedQueue,
    major_curves: Vec<HermiteCurve>,
    minor_curves: Vec<HermiteCurve>,
    prev_major_len: usize,
    prev_minor_len: usize,
    iteration: usize,
    iter_count: usize,
    d_sep: u32,
}

/// The seeds that the cut curves bring, in the order of the curves, each
/// with the priority of a found seed.
pub open spec fn found_seeds(
    cuts: Seq<(Seq<ControlPoint>, Seq<Point>)>,
    follow_major_eigenvectors: bool,
    k: int,
) -> Seq<SeedPoint>
    decreases k,
{
    if k <= 0 {
        Seq::empty()
    } else {
        found_seeds(cuts, follow_major_eigenvectors, k - 1) + cuts[k - 1].1.map_values(
            |seed: Point|
                SeedPoint { seed, priority: FOUND_SEED_PRIORITY, follow_major_eigenvectors },
        )
    }
}

/// The curves of the cuts.
pub open spec fn cut_curves(cuts: Seq<(Seq<ControlPoint>, Seq<Point>)>) -> Seq<Seq<ControlPoint>> {
    cuts.map_values(|cut: (Seq<ControlPoint>, Seq<Point>)| cut.0)
}

/// `cuts` is what a pass makes of the traces: the traces are smoothed
/// and fitted with the settings of a plan, and the candidates are
/// clipped against the family with twice the separation as the least
/// length.
pub open spec fn is_taken_up(
    traces: Seq<TraceOutput>,
    family: Seq<Seq<ControlPoint>>,
    separation: u32,
    cuts: Seq<(Seq<ControlPoint>, Seq<Point>)>,
) -> bool {
    exists|fitted: Seq<Option<(Seq<ControlPoint>, Seq<(Point, Fraction)>)>>| #[trigger]
        are_fitted(traces, ALPHA, BETA, POINT_SIDE_PADDING, STEP_SIZE, BLEND_FACTOR, fitted)
            && is_pass(
            family,
            present(fitted, fitted.len() as int),
            constant_separation(separation),
            (2 * separation) as u64,
            cuts,
        )
}

impl StreetPlan {
    /// The accepted major curves.
    pub closed spec fn major(&self) -> Seq<Seq<ControlPoint>> {
        polylines(self.major_curves@)
    }

    /// The accepted minor curves.
    pub closed spec fn minor(&self) -> Seq<Seq<ControlPoint>> {
        polylines(self.minor_curves@)
    }

    /// The seeds that every later pass traces.
    pub closed spec fn seeds(&self) -> Multiset<SeedPoint> {
        self.seeds@
    }

    /// Number of passes taken up so far.
    pub closed spec fn iteration(&self) -> nat {
        self.iteration as nat
    }

    /// Number of passes that the plan is made of.
    pub closed spec fn iter_count(&self) -> nat {
        self.iter_count as nat
    }

    /// The separation that the plan keeps between curves of a family.
    pub closed spec fn separation(&self) -> u32 {
        self.d_sep
    }

    /// Number of major curves that the plan started with.
    pub closed spec fn given_major(&self) -> nat {
        self.prev_major_len as nat
    }

    /// Number of minor curves that the plan started with.
    pub closed spec fn given_minor(&self) -> nat {
        self.prev_minor_len as nat
    }

    /// Whether the pass in hand follows the major eigenvectors: passes
    /// take turns, and the first follows the major ones.
    pub open spec fn follows_major(&self) -> bool {
        self.iteration() % 2 == 0
    }

    /// The family of the pass in hand.
    pub open spec fn family(&self) -> Seq<Seq<ControlPoint>> {
        if self.follows_major() {
            self.major()
        } else {
            self.minor()
        }
    }

    /// The representation invariant: the queue is in order, every
    /// accepted curve has two control points or more, and the curves
    /// that the plan started with are still there.
    pub closed spec fn wf(&self) -> bool {
        &&& self.seeds.wf()
        &&& curves_ok(polylines(self.major_curves@))
        &&& curves_ok(polylines(self.minor_curves@))
        &&& self.prev_major_len <= self.major_curves@.len()
        &&& self.prev_minor_len <= self.minor_curves@.len()
        &&& self.iteration <= self.iter_count
    }

    /// A plan of `iter_count` passes that starts from the given seeds
    /// and from the curves accepted before.
    pub fn new(
        seeds: SeedQueue,
        d_sep: u32,
        iter_count: usize,
        previous_major_curves: Vec<HermiteCurve>,
        previous_minor_curves: Vec<HermiteCurve>,
    ) -> (plan: StreetPlan)
        requires
            seeds.wf(),
            curves_ok(polylines(previous_major_curves@)),
            curves_ok(polylines(previous_minor_curves@)),
        ensures
            plan.wf(),
            plan.seeds() == seeds@,
            plan.major() == polylines(previous_major_curves@),
            plan.minor() == polylines(previous_minor_curves@),
            plan.given_major() == previous_major_curves@.len(),
            plan.given_minor() == previous_minor_curves@.len(),
            plan.iteration() == 0,
            plan.iter_count() == iter_count,
            plan.separation() == d_sep,
    {
        let prev_major_len = previous_major_curves.len();
        let prev_minor_len = previous_minor_curves.len();
        StreetPlan {
            seeds,
            major_curves: previous_major_curves,
            minor_curves: previous_minor_curves,
            prev_major_len,
            prev_minor_len,
            iteration: 0,
            iter_count,
            d_sep,
        }
    }

    /// The pass that is to be traced next: all the seeds of the plan,
    /// from the highest priority down. `None` once every pass is done.
    pub fn next_pass(&self) -> (pass: Option<Pass>)
        requires
            self.wf(),
        ensures
            pass is Some <==> self.iteration() < self.iter_count(),
            pass is Some ==> {
                &&& pass->0.follow_major_eigenvectors == self.follows_major()
                &&& pass->0.seeds@.to_multiset() == self.seeds()
                &&& falling(pass->0.seeds@)
            },
    {
        if self.iteration >= self.iter_count {
            return None;
        }
        Some(
            Pass {
                follow_major_eigenvectors: self.iteration % 2 == 0,
                seeds: heap_to_vec(&self.seeds),
            },
        )
    }

    /// The curves that the traces of the pass in hand must keep clear of.
    pub fn obstacles(&self) -> (curves: &Vec<HermiteCurve>)
        requires
            self.wf(),
        ensures
            polylines(curves@) == self.family(),
            curves_ok(polylines(curves@)),
    {
        if self.iteration % 2 == 0 {
            &self.major_curves
        } else {
            &self.minor_curves
        }
    }

    /// Takes up the traces of the pass in hand, one for every seed of
    /// the pass and in the order of the seeds: smooths them and fits
    /// them with curves, clips the curves against the family of the pass
    /// with twice the separation as the least length, appends the
    /// survivors to the family, queues the seeds that they bring, and
    /// turns to the next pass.
    pub fn accept(&mut self, traces: Vec<TraceOutput>)
        requires
            old(self).wf(),
            old(self).iteration() < old(self).iter_count(),
            paths_ok(traces@),
        ensures
            final(self).wf(),
            final(self).iteration() == old(self).iteration() + 1,
            final(self).iter_count() == old(self).iter_count(),
            final(self).separation() == old(self).separation(),
            final(self).given_major() == old(self).given_major(),
            final(self).given_minor() == old(self).given_minor(),
            exists|cuts: Seq<(Seq<ControlPoint>, Seq<Point>)>|
                {
                    let major = old(self).follows_major();
                    &&& #[trigger] is_taken_up(
                        traces@,
                        old(self).family(),
                        old(self).separation(),
                        cuts,
                    )
                    &&& final(self).major() == if major {
                        old(self).major() + cut_curves(cuts)
                    } else {
                        old(self).major()
                    }
                    &&& final(self).minor() == if major {
                        old(self).minor()
                    } else {
                        old(self).minor() + cut_curves(cuts)
                    }
                    &&& final(self).seeds() == old(self).seeds().add(
                        found_seeds(cuts, major, cuts.len() as int).to_multiset(),
                    )
                },
    {
        let d = self.d_sep;
        let follow_major = self.iteration % 2 == 0;
        let d_sep = |p: Point| -> (r: u32)
            ensures
                r == d,
            { d };
        let ghost constant = constant_separation(d);
        proof {
            assert(describes(d_sep, constant));
        }
        let min_length: u64 = 2 * (d as u64);
        let batch = smooth_lanes(
            traces,
            ALPHA,
            BETA,
            POINT_SIDE_PADDING,
            STEP_SIZE,
            BLEND_FACTOR,
        );
        let ghost fitted = choose|fitted: Seq<Option<(Seq<ControlPoint>, Seq<(Point, Fraction)>)>>| #[trigger]
            are_fitted(traces@, ALPHA, BETA, POINT_SIDE_PADDING, STEP_SIZE, BLEND_FACTOR, fitted)
                && candidates_view(batch@) == present(fitted, fitted.len() as int);
        let ghost candidates = candidates_view(batch@);
        proof {
            assert forall|c: int| 0 <= c < candidates.len() implies (#[trigger] crate::clip::batch_curves(
                candidates,
            )[c]).len() >= 2 by {
                assert(batch@[c].curve@.len() >= 2);
            }
        }
        let clipped = if follow_major {
            clip_pass(batch, &self.major_curves, d_sep, min_length)
        } else {
            clip_pass(batch, &self.minor_curves, d_sep, min_length)
        };
        let ghost before = *self;
        let ghost cuts = cuts_view(clipped@);
        proof {
            assert(is_pass(before.family(), candidates, constant, min_length, cuts));
            lemma_cuts_have_two(before.family(), candidates, constant, min_length, cuts);
        }
        let mut new_seeds: Vec<SeedPoint> = Vec::new();
        let mut k: usize = 0;
        let ghost family_before = if follow_major {
            self.major_curves@
        } else {
            self.minor_curves@
        };
        proof {
            assert(polylines(family_before) + cut_curves(cuts.take(0)) =~= polylines(
                family_before,
            ));
        }
        for cut in it: clipped
            invariant
                it.seq() == clipped@,
                cuts == cuts_view(clipped@),
                self.seeds == before.seeds,
                self.prev_major_len == before.prev_major_len,
                self.prev_minor_len == before.prev_minor_len,
                self.iteration == before.iteration,
                self.iter_count == before.iter_count,
                self.d_sep == before.d_sep,
                follow_major == (self.iteration % 2 == 0),
                before.wf(),
                curves_ok(polylines(self.major_curves@)),
                curves_ok(polylines(self.minor_curves@)),
                follow_major ==> self.minor_curves == before.minor_curves && polylines(
                    self.major_curves@,
                ) == polylines(before.major_curves@) + cut_curves(cuts.take(it.index() as int)),
                !follow_major ==> self.major_curves == before.major_curves && polylines(
                    self.minor_curves@,
                ) == polylines(before.minor_curves@) + cut_curves(cuts.take(it.index() as int)),
                new_seeds@ == found_seeds(cuts, follow_major, it.index() as int),
                forall|j: int| 0 <= j < cuts.len() ==> (#[trigger] cuts[j]).0.len() >= 2,
        {
            let ghost j = it.index() as int;
            let (curve, seeds) = cut;
            proof {
                assert(clipped@[j] == (curve, seeds));
                assert(cuts[j] == (curve@, seeds@));
            }
            let ghost seeds_before = new_seeds@;
            let mut i: usize = 0;
            while i < seeds.len()
                invariant
                    i <= seeds@.len(),
                    new_seeds@ == seeds_before + seeds@.take(i as int).map_values(
                        |seed: Point|
                            SeedPoint {
                                seed,
                                priority: FOUND_SEED_PRIORITY,
                                follow_major_eigenvectors: follow_major,
                            },
                    ),
                decreases seeds@.len() - i,
            {
                let ghost so_far = new_seeds@;
                new_seeds.push(
                    SeedPoint {
                        seed: seeds[i],
                        priority: FOUND_SEED_PRIORITY,
                        follow_major_eigenvectors: follow_major,
                    },
                );
                proof {
                    let wrap = |seed: Point|
                        SeedPoint {
                            seed,
                            priority: FOUND_SEED_PRIORITY,
                            follow_major_eigenvectors: follow_major,
                        };
                    assert(seeds@.take(i + 1).map_values(wrap) =~= seeds@.take(i as int).map_values(
                        wrap,
                    ).push(wrap(seeds@[i as int])));
                    assert(new_seeds@ =~= seeds_before + seeds@.take(i + 1).map_values(wrap));
                }
                i = i + 1;
            }
            proof {
                assert(seeds@.take(seeds@.len() as int) =~= seeds@);
                assert(cuts.take(j + 1) =~= cuts.take(j).push(cuts[j]));
                assert(cut_curves(cuts.take(j + 1)) =~= cut_curves(cuts.take(j)).push(curve@));
            }
            if follow_major {
                let ghost curves_before = self.major_curves@;
                self.major_curves.push(curve);
                proof {
                    assert(polylines(self.major_curves@) =~= polylines(curves_before).push(curve@));
                    assert(polylines(self.major_curves@) =~= polylines(before.major_curves@)
                        + cut_curves(cuts.take(j + 1)));
                }
            } else {
                let ghost curves_before = self.minor_curves@;
                self.minor_curves.push(curve);
                proof {
                    assert(polylines(self.minor_curves@) =~= polylines(curves_before).push(curve@));
                    assert(polylines(self.minor_curves@) =~= polylines(before.minor_curves@)
                        + cut_curves(cuts.take(j + 1)));
                }
            }
        }
        proof {
            assert(cuts.take(cuts.len() as int) =~= cuts);
        }
        self.seeds.extend(&new_seeds);
        self.iteration = self.iteration + 1;
        proof {
            assert(is_taken_up(traces@, before.family(), before.separation(), cuts));
        }
    }

    /// The curves that the plan added to each family, major first.
    pub fn finish(self) -> (out: (Vec<HermiteCurve>, Vec<HermiteCurve>))
        requires
            self.wf(),
        ensures
            polylines(out.0@) == self.major().skip(self.given_major() as int),
            polylines(out.1@) == self.minor().skip(self.given_minor() as int),
    {
        let mut major = self.major_curves;
        let mut minor = self.minor_curves;
        let new_major = major.split_off(self.prev_major_len);
        let new_minor = minor.split_off(self.prev_minor_len);
        proof {
            assert(polylines(new_major@) =~= polylines(self.major_curves@).skip(
                self.prev_major_len as int,
            ));
            assert(polylines(new_minor@) =~= polylines(self.minor_curves@).skip(
                self.prev_minor_len as int,
            ));
        }
        (new_major, new_minor)
    }
}

} // verus!
