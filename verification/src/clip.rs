//! The clip pass: candidate curves are checked, in the order in which
//! they were traced, against the curves accepted before and against the
//! candidates that came earlier in the same batch, and are cut where
//! they come too close.

use vstd::prelude::*;
use crate::curve::{
    curves_ok, dist_to, is_nearest, is_raycast, is_segment, lemma_segment_within_ends, polylines,
    raycast_to_prefix, ControlPoint, HermiteCurve,
};
use crate::point::{dist_sq, floor_sqrt, lemma_floor_sqrt, Point};
use crate::present::{lemma_present_all, lemma_present_frame, present};
use crate::tracer::Fraction;

verus! {

/// A candidate curve and the seeds found along its trace, each with the
/// fraction of the arc length at which it was found.
pub struct SmoothedCurve {
    pub curve: HermiteCurve,
    pub new_seeds: Vec<(Point, Fraction)>,
}

/// The separation that is `d` everywhere.
pub open spec fn constant_separation(d: u32) -> spec_fn(Point) -> u32 {
    |p: Point| d
}

/// The callable accepts every position.
pub open spec fn accepts_all<F: Fn(Point) -> u32>(f: F) -> bool {
    forall|p: Point| #[trigger] f.requires((p,))
}

/// `sep` gives, for every position, the separation that the callable
/// returns there.
pub open spec fn describes<F: Fn(Point) -> u32>(f: F, sep: spec_fn(Point) -> u32) -> bool {
    forall|p: Point, r: u32| #[trigger] f.ensures((p,), r) ==> r == sep(p)
}

/// Position `p` lies within 0.85 times the squared separation `s` of a
/// segment of an obstacle.
pub open spec fn too_close(obstacles: Seq<Seq<ControlPoint>>, p: Point, s: u32) -> bool {
    exists|c: int, i: int| #[trigger]
        is_segment(obstacles, c, i) && 100 * dist_to(obstacles, p, c, i) < 85 * s * s
}

/// The first control point of the candidate lies within 0.85 times the
/// squared separation of an obstacle.
pub open spec fn violates_first(
    curve: Seq<ControlPoint>,
    obstacles: Seq<Seq<ControlPoint>>,
    sep: spec_fn(Point) -> u32,
) -> bool {
    too_close(obstacles, curve[0].position, sep(curve[0].position))
}

/// Control point `i` of the candidate keeps the separation from every
/// obstacle.
pub open spec fn keeps_clear(
    curve: Seq<ControlPoint>,
    obstacles: Seq<Seq<ControlPoint>>,
    sep: spec_fn(Point) -> u32,
    i: int,
) -> bool {
    clear_with(obstacles, curve[i].position, sep(curve[i].position))
}

/// Position `p` keeps the separation `s` from every segment of every
/// obstacle.
pub open spec fn clear_with(obstacles: Seq<Seq<ControlPoint>>, p: Point, s: u32) -> bool {
    forall|c: int, i: int| #[trigger]
        is_segment(obstacles, c, i) ==> dist_to(obstacles, p, c, i) >= s * s
}

/// The distance to the nearest obstacle decides whether a position is
/// clear and whether it is too close.
pub proof fn lemma_raycast_decides(
    obstacles: Seq<Seq<ControlPoint>>,
    p: Point,
    d: Option<u128>,
    s: u32,
)
    requires
        is_raycast(obstacles, p, d),
    ensures
        clear_with(obstacles, p, s) <==> (d is None || d->0 >= s * s),
        too_close(obstacles, p, s) <==> (d is Some && 100 * d->0 < 85 * s * s),
{
    match d {
        None => {
            assert forall|c: int, i: int| !#[trigger] is_segment(obstacles, c, i) by {}
        },
        Some(v) => {
            let (c, i) = choose|c: int, i: int| #[trigger]
                is_nearest(obstacles, p, c, i) && v == dist_to(obstacles, p, c, i);
            assert(is_segment(obstacles, c, i));
            if v >= s * s {
                assert forall|e: int, j: int| #[trigger] is_segment(obstacles, e, j) implies dist_to(
                    obstacles,
                    p,
                    e,
                    j,
                ) >= s * s by {}
            }
            if too_close(obstacles, p, s) {
                let (e, j) = choose|e: int, j: int| #[trigger]
                    is_segment(obstacles, e, j) && 100 * dist_to(obstacles, p, e, j) < 85 * s * s;
                assert(v <= dist_to(obstacles, p, e, j));
            }
        },
    }
}

/// A position that is clear of the obstacles keeps the separation from
/// every control point of every obstacle.
pub proof fn lemma_clear_of_control_points(
    obstacles: Seq<Seq<ControlPoint>>,
    p: Point,
    s: u32,
    c: int,
    k: int,
)
    requires
        curves_ok(obstacles),
        clear_with(obstacles, p, s),
        0 <= c < obstacles.len(),
        0 <= k < obstacles[c].len(),
    ensures
        dist_sq(p, obstacles[c][k].position) >= s * s,
{
    let i = if k < obstacles[c].len() - 1 {
        k
    } else {
        k - 1
    };
    assert(is_segment(obstacles, c, i));
    lemma_segment_within_ends(p, obstacles[c][i].position, obstacles[c][i + 1].position);
}

/// A candidate that starts nearer than the separation to a control point
/// of an obstacle is dropped whole.
pub proof fn lemma_close_start_drops(
    curve: Seq<ControlPoint>,
    seeds: Seq<(Point, Fraction)>,
    obstacles: Seq<Seq<ControlPoint>>,
    sep: spec_fn(Point) -> u32,
    min_length: u64,
    fate: Option<(Seq<ControlPoint>, Seq<Point>)>,
    c: int,
    k: int,
)
    requires
        curve.len() >= 1,
        curves_ok(obstacles),
        0 <= c < obstacles.len(),
        0 <= k < obstacles[c].len(),
        dist_sq(curve[0].position, obstacles[c][k].position) < sep(curve[0].position) * sep(
            curve[0].position,
        ),
        is_clipped(curve, seeds, obstacles, sep, min_length, fate),
    ensures
        fate is None,
{
    let p = curve[0].position;
    if clear_with(obstacles, p, sep(p)) {
        lemma_clear_of_control_points(obstacles, p, sep(p), c, k);
    }
    assert(!keeps_clear(curve, obstacles, sep, 0));
}

/// `m` is the number of control points before the first one that comes
/// too close.
pub open spec fn is_clear_prefix(
    curve: Seq<ControlPoint>,
    obstacles: Seq<Seq<ControlPoint>>,
    sep: spec_fn(Point) -> u32,
    m: int,
) -> bool {
    &&& 0 <= m <= curve.len()
    &&& forall|i: int| 0 <= i < m ==> #[trigger] keeps_clear(curve, obstacles, sep, i)
    &&& m < curve.len() ==> !keeps_clear(curve, obstacles, sep, m)
}

/// Length of the polyline through the first `m` control points: the sum
/// of the distances between neighbours, each rounded down to a unit.
pub open spec fn polyline_length(curve: Seq<ControlPoint>, m: int) -> int
    decreases m,
{
    if m <= 1 {
        0
    } else {
        polyline_length(curve, m - 1) + floor_sqrt(
            dist_sq(curve[m - 2].position, curve[m - 1].position),
        )
    }
}

/// The seed's fraction lies before the cut at `kept` of `len` control
/// points.
pub open spec fn before_cut(t: Fraction, kept: int, len: int) -> bool {
    t.num * len < kept * t.den
}

/// The positions of the seeds that lie before the cut, in their order.
pub open spec fn surviving_seeds(seeds: Seq<(Point, Fraction)>, kept: int, len: int) -> Seq<Point>
    decreases seeds.len(),
{
    if seeds.len() == 0 {
        Seq::empty()
    } else {
        let rest = surviving_seeds(seeds.drop_last(), kept, len);
        if before_cut(seeds.last().1, kept, len) {
            rest.push(seeds.last().0)
        } else {
            rest
        }
    }
}

/// What the clip pass makes of one candidate, of which the first `kept`
/// control points stay clear: nothing, if its first control point
/// violates the 0.85 rule, if fewer than two control points stay clear,
/// or if what stays is shorter than `min_length`; otherwise the clear
/// control points and the seeds before the cut.
pub open spec fn clip_one(
    curve: Seq<ControlPoint>,
    seeds: Seq<(Point, Fraction)>,
    obstacles: Seq<Seq<ControlPoint>>,
    sep: spec_fn(Point) -> u32,
    min_length: u64,
    kept: int,
) -> Option<(Seq<ControlPoint>, Seq<Point>)> {
    if violates_first(curve, obstacles, sep) || kept < 2 || polyline_length(curve, kept)
        < min_length {
        None
    } else {
        Some((curve.take(kept), surviving_seeds(seeds, kept, curve.len() as int)))
    }
}

/// `fate` is what the clip pass makes of the candidate.
pub open spec fn is_clipped(
    curve: Seq<ControlPoint>,
    seeds: Seq<(Point, Fraction)>,
    obstacles: Seq<Seq<ControlPoint>>,
    sep: spec_fn(Point) -> u32,
    min_length: u64,
    fate: Option<(Seq<ControlPoint>, Seq<Point>)>,
) -> bool {
    exists|kept: int|
        #[trigger] is_clear_prefix(curve, obstacles, sep, kept) && fate == clip_one(
            curve,
            seeds,
            obstacles,
            sep,
            min_length,
            kept,
        )
}

/// `fate` is what the clip pass makes of the candidate under every
/// separation that the callable stands for.
pub open spec fn clipped_under<F: Fn(Point) -> u32>(
    f: F,
    curve: Seq<ControlPoint>,
    seeds: Seq<(Point, Fraction)>,
    obstacles: Seq<Seq<ControlPoint>>,
    min_length: u64,
    fate: Option<(Seq<ControlPoint>, Seq<Point>)>,
) -> bool {
    forall|sep: spec_fn(Point) -> u32| #[trigger]
        describes(f, sep) ==> is_clipped(curve, seeds, obstacles, sep, min_length, fate)
}

/// A cut curve and its seeds as sequences.
pub open spec fn cut_view(cut: (HermiteCurve, Vec<Point>)) -> (Seq<ControlPoint>, Seq<Point>) {
    (cut.0@, cut.1@)
}

/// What became of a candidate, as sequences.
pub open spec fn fate_view(out: Option<(HermiteCurve, Vec<Point>)>) -> Option<
    (Seq<ControlPoint>, Seq<Point>),
> {
    match out {
        None => None,
        Some(cut) => Some(cut_view(cut)),
    }
}

/// The candidates as pairs of sequences: the curve and the seeds.
pub open spec fn candidates_view(batch: Seq<SmoothedCurve>) -> Seq<
    (Seq<ControlPoint>, Seq<(Point, Fraction)>),
> {
    batch.map_values(|s: SmoothedCurve| (s.curve@, s.new_seeds@))
}

/// The curves of the candidates.
pub open spec fn batch_curves(batch: Seq<(Seq<ControlPoint>, Seq<(Point, Fraction)>)>) -> Seq<
    Seq<ControlPoint>,
> {
    batch.map_values(|candidate: (Seq<ControlPoint>, Seq<(Point, Fraction)>)| candidate.0)
}

/// `cuts` is what the clip pass makes of the batch: what is left of the
/// candidates that survive, in the order of the batch.
pub open spec fn is_pass(
    previous: Seq<Seq<ControlPoint>>,
    batch: Seq<(Seq<ControlPoint>, Seq<(Point, Fraction)>)>,
    sep: spec_fn(Point) -> u32,
    min_length: u64,
    cuts: Seq<(Seq<ControlPoint>, Seq<Point>)>,
) -> bool {
    exists|fates: Seq<Option<(Seq<ControlPoint>, Seq<Point>)>>| #[trigger]
        are_fates(previous, batch, sep, min_length, fates) && cuts == present(
            fates,
            fates.len() as int,
        )
}

/// The obstacles of candidate `k`: the curves accepted before, and the
/// candidates that came before it in the batch, cut or not.
pub open spec fn obstacles_of(
    previous: Seq<Seq<ControlPoint>>,
    batch: Seq<(Seq<ControlPoint>, Seq<(Point, Fraction)>)>,
    k: int,
) -> Seq<Seq<ControlPoint>> {
    previous + batch_curves(batch).take(k)
}

/// `fates[k]` is what the clip pass makes of candidate `k`.
pub open spec fn are_fates(
    previous: Seq<Seq<ControlPoint>>,
    batch: Seq<(Seq<ControlPoint>, Seq<(Point, Fraction)>)>,
    sep: spec_fn(Point) -> u32,
    min_length: u64,
    fates: Seq<Option<(Seq<ControlPoint>, Seq<Point>)>>,
) -> bool {
    &&& fates.len() == batch.len()
    &&& forall|k: int|
        0 <= k < batch.len() ==> is_clipped(
            batch[k].0,
            batch[k].1,
            obstacles_of(previous, batch, k),
            sep,
            min_length,
            #[trigger] fates[k],
        )
}

/// Length of the polyline through the first `m` control points.
fn measure(curve: &HermiteCurve, m: usize) -> (total: u128)
    requires
        m <= curve@.len(),
    ensures
        total == polyline_length(curve@, m as int),
{
    let mut total: u128 = 0;
    let mut i: usize = 1;
    if m <= 1 {
        return 0;
    }
    while i < m
        invariant
            1 <= i <= m <= curve@.len(),
            total == polyline_length(curve@, i as int),
            total <= i * 0x1_0000_0000_0000_0000,
        decreases m - i,
    {
        let d = curve[i - 1].position.distance(&curve[i].position);
        proof {
            lemma_floor_sqrt(
                dist_sq(curve@[i - 1].position, curve@[i as int].position),
                d as int,
            );
            assert(polyline_length(curve@, i + 1) == polyline_length(curve@, i as int) + d);
            assert((i + 1) * 0x1_0000_0000_0000_0000 == i * 0x1_0000_0000_0000_0000
                + 0x1_0000_0000_0000_0000) by (nonlinear_arith);
            assert(i * 0x1_0000_0000_0000_0000 <= 0xffff_ffff_ffff_ffff * 0x1_0000_0000_0000_0000)
                by (nonlinear_arith)
                requires
                    i <= 0xffff_ffff_ffff_ffff,
            ;
        }
        total = total + d as u128;
        i = i + 1;
    }
    total
}

/// Decides whether a seed's fraction lies before the cut.
fn lies_before_cut(t: Fraction, kept: usize, len: usize) -> (b: bool)
    ensures
        b == before_cut(t, kept as int, len as int),
{
    assert(t.num * len <= 0xffff_ffff_ffff_ffff * 0xffff_ffff_ffff_ffff) by (nonlinear_arith)
        requires
            0 <= t.num <= 0xffff_ffff_ffff_ffff,
            0 <= len <= 0xffff_ffff_ffff_ffff,
    ;
    assert(kept * t.den <= 0xffff_ffff_ffff_ffff * 0xffff_ffff_ffff_ffff) by (nonlinear_arith)
        requires
            0 <= t.den <= 0xffff_ffff_ffff_ffff,
            0 <= kept <= 0xffff_ffff_ffff_ffff,
    ;
    (t.num as u128) * (len as u128) < (kept as u128) * (t.den as u128)
}

/// Clips one candidate against the first `limit` of the given curves.
pub fn clip_curve<F: Fn(Point) -> u32>(
    candidate: &SmoothedCurve,
    obstacles: &Vec<HermiteCurve>,
    limit: usize,
    d_sep: &F,
    min_length: u64,
) -> (out: Option<(HermiteCurve, Vec<Point>)>)
    requires
        accepts_all(*d_sep),
        candidate.curve@.len() >= 1,
        limit <= obstacles@.len(),
        curves_ok(polylines(obstacles@).take(limit as int)),
    ensures
        clipped_under(
            *d_sep,
            candidate.curve@,
            candidate.new_seeds@,
            polylines(obstacles@).take(limit as int),
            min_length,
            fate_view(out),
        ),
        match out {
            None => true,
            Some(cut) => 2 <= cut.0@.len() <= candidate.curve@.len() && cut.0@
                == candidate.curve@.take(cut.0@.len() as int) && cut.1@.len()
                <= candidate.new_seeds@.len(),
        },
{
    let ghost blocking = polylines(obstacles@).take(limit as int);
    let curve = &candidate.curve;
    let len = curve.len();
    let first = curve[0].position;
    let s0 = d_sep(first);
    let nearest_first = raycast_to_prefix(first, obstacles, limit);
    proof {
        lemma_raycast_decides(blocking, first, nearest_first, s0);
    }
    let rejected = match nearest_first {
        None => false,
        Some(d) => {
            assert(85 * s0 * s0 <= 85 * 0xffff_ffff * 0xffff_ffff) by (nonlinear_arith)
                requires
                    0 <= s0 <= 0xffff_ffff,
            ;
            100 * d < 85 * (s0 as u128) * (s0 as u128)
        },
    };
    let mut kept: usize = 0;
    let ghost mut used: Seq<u32> = Seq::empty();
    while kept < len
        invariant_except_break
            kept <= len,
            used.len() == kept,
        invariant
            len == curve@.len(),
            *curve == candidate.curve,
            accepts_all(*d_sep),
            blocking == polylines(obstacles@).take(limit as int),
            limit <= obstacles@.len(),
            curves_ok(blocking),
            forall|i: int|
                0 <= i < kept ==> d_sep.ensures((curve@[i].position,), #[trigger] used[i])
                    && clear_with(blocking, curve@[i].position, used[i]),
        ensures
            kept <= len,
            used.len() >= kept,
            kept < len ==> used.len() == kept + 1 && d_sep.ensures(
                (curve@[kept as int].position,),
                used[kept as int],
            ) && !clear_with(blocking, curve@[kept as int].position, used[kept as int]),
        decreases len - kept,
    {
        let p = curve[kept].position;
        let s = d_sep(p);
        let nearest = raycast_to_prefix(p, obstacles, limit);
        proof {
            lemma_raycast_decides(blocking, p, nearest, s);
        }
        let clear = match nearest {
            None => true,
            Some(d) => {
                assert(s * s <= 0xffff_ffff * 0xffff_ffff) by (nonlinear_arith)
                    requires
                        0 <= s <= 0xffff_ffff,
                ;
                d >= (s as u128) * (s as u128)
            },
        };
        proof {
            used = used.push(s);
        }
        if !clear {
            break;
        }
        kept = kept + 1;
    }
    let length = if kept >= 2 {
        measure(curve, kept)
    } else {
        0
    };
    let dropped = rejected || kept < 2 || length < min_length as u128;
    let mut filtered: Vec<ControlPoint> = Vec::new();
    let mut surviving: Vec<Point> = Vec::new();
    if !dropped {
        let mut i: usize = 0;
        while i < kept
            invariant
                i <= kept <= curve@.len(),
                filtered@ == curve@.take(i as int),
            decreases kept - i,
        {
            filtered.push(curve[i]);
            proof {
                assert(curve@.take(i + 1) =~= curve@.take(i as int).push(curve@[i as int]));
            }
            i = i + 1;
        }
        let seeds = &candidate.new_seeds;
        let mut j: usize = 0;
        while j < seeds.len()
            invariant
                j <= seeds@.len(),
                surviving@.len() <= j,
                surviving@ == surviving_seeds(seeds@.take(j as int), kept as int, len as int),
            decreases seeds@.len() - j,
        {
            let (position, fraction) = seeds[j];
            proof {
                let upto = seeds@.take(j + 1);
                assert(upto.drop_last() =~= seeds@.take(j as int));
                assert(upto.last() == seeds@[j as int]);
            }
            if lies_before_cut(fraction, kept, len) {
                surviving.push(position);
            }
            j = j + 1;
        }
        proof {
            assert(seeds@.take(seeds@.len() as int) =~= seeds@);
        }
    }
    let out = if dropped {
        None
    } else {
        Some((filtered, surviving))
    };
    proof {
        assert forall|sep: spec_fn(Point) -> u32| #[trigger] describes(*d_sep, sep) implies is_clipped(
            curve@,
            candidate.new_seeds@,
            blocking,
            sep,
            min_length,
            fate_view(out),
        ) by {
            assert(sep(first) == s0);
            assert forall|i: int| 0 <= i < kept implies #[trigger] keeps_clear(
                curve@,
                blocking,
                sep,
                i,
            ) by {
                assert(sep(curve@[i].position) == used[i]);
            }
            if kept < len {
                assert(sep(curve@[kept as int].position) == used[kept as int]);
            }
            assert(is_clear_prefix(curve@, blocking, sep, kept as int));
            assert(fate_view(out) == clip_one(
                curve@,
                candidate.new_seeds@,
                blocking,
                sep,
                min_length,
                kept as int,
            ));
        }
    }
    out
}

/// A copy of the curve.
fn copy_curve(curve: &HermiteCurve) -> (copy: HermiteCurve)
    ensures
        copy@ == curve@,
{
    let mut copy: Vec<ControlPoint> = Vec::new();
    let mut i: usize = 0;
    while i < curve.len()
        invariant
            i <= curve@.len(),
            copy@ == curve@.take(i as int),
        decreases curve@.len() - i,
    {
        copy.push(curve[i]);
        proof {
            assert(curve@.take(i + 1) =~= curve@.take(i as int).push(curve@[i as int]));
        }
        i = i + 1;
    }
    proof {
        assert(curve@.take(curve@.len() as int) =~= curve@);
    }
    copy
}

/// The sequence views of the cut curves.
pub open spec fn cuts_view(out: Seq<(HermiteCurve, Vec<Point>)>) -> Seq<
    (Seq<ControlPoint>, Seq<Point>),
> {
    out.map_values(|cut: (HermiteCurve, Vec<Point>)| cut_view(cut))
}

/// Clips a batch of candidates, in their order. Each candidate is
/// checked against the curves accepted before and against all the
/// candidates that precede it in the batch; the survivors come out in
/// the order of the batch, each with the seeds that lie before its cut.
pub fn clip_pass<F: Fn(Point) -> u32>(
    curve_paths: Vec<SmoothedCurve>,
    previous_curves: &Vec<HermiteCurve>,
    d_sep: F,
    min_length: u64,
) -> (out: Vec<(HermiteCurve, Vec<Point>)>)
    requires
        accepts_all(d_sep),
        curves_ok(polylines(previous_curves@)),
        curves_ok(batch_curves(candidates_view(curve_paths@))),
    ensures
        forall|sep: spec_fn(Point) -> u32| #[trigger]
            describes(d_sep, sep) ==> is_pass(
                polylines(previous_curves@),
                candidates_view(curve_paths@),
                sep,
                min_length,
                cuts_view(out@),
            ),
        out@.len() <= curve_paths@.len(),
        forall|j: int| 0 <= j < out@.len() ==> (#[trigger] out@[j]).0@.len() >= 2,
{
    let ghost previous = polylines(previous_curves@);
    let ghost batch = candidates_view(curve_paths@);
    let mut all: Vec<HermiteCurve> = Vec::new();
    let mut i: usize = 0;
    while i < previous_curves.len()
        invariant
            i <= previous_curves@.len(),
            polylines(all@) == polylines(previous_curves@).take(i as int),
        decreases previous_curves@.len() - i,
    {
        let copy = copy_curve(&previous_curves[i]);
        proof {
            let grown = polylines(all@.push(copy));
            let want = polylines(previous_curves@).take(i + 1);
            assert(polylines(all@).len() == i);
            assert forall|j: int| 0 <= j < i + 1 implies grown[j] == want[j] by {
                if j < i {
                    assert(polylines(all@)[j] == polylines(previous_curves@).take(i as int)[j]);
                }
            }
            assert(grown =~= want);
        }
        all.push(copy);
        i = i + 1;
    }
    let prior = previous_curves.len();
    let n = curve_paths.len();
    proof {
        assert(polylines(previous_curves@).take(prior as int) =~= previous);
    }
    let mut k: usize = 0;
    while k < n
        invariant
            k <= n,
            n == curve_paths@.len(),
            batch == candidates_view(curve_paths@),
            prior == previous.len(),
            polylines(all@) == previous + batch_curves(batch).take(k as int),
        decreases n - k,
    {
        let copy = copy_curve(&curve_paths[k].curve);
        proof {
            let grown = polylines(all@.push(copy));
            let have = previous + batch_curves(batch).take(k as int);
            let want = previous + batch_curves(batch).take(k + 1);
            assert(polylines(all@).len() == prior + k);
            assert forall|j: int| 0 <= j < prior + k + 1 implies grown[j] == want[j] by {
                if j < prior + k {
                    assert(polylines(all@)[j] == have[j]);
                }
            }
            assert(grown =~= want);
        }
        all.push(copy);
        k = k + 1;
    }
    proof {
        assert(batch_curves(batch).take(n as int) =~= batch_curves(batch));
    }
    let total = all.len();
    proof {
        assert(polylines(all@).len() == prior + n);
    }
    let mut out: Vec<(HermiteCurve, Vec<Point>)> = Vec::new();
    let ghost mut fates: Seq<Option<(Seq<ControlPoint>, Seq<Point>)>> = Seq::empty();
    let mut k: usize = 0;
    while k < n
        invariant
            k <= n,
            n == curve_paths@.len(),
            batch == candidates_view(curve_paths@),
            prior == previous.len(),
            previous == polylines(previous_curves@),
            accepts_all(d_sep),
            curves_ok(previous),
            curves_ok(batch_curves(candidates_view(curve_paths@))),
            polylines(all@) == previous + batch_curves(batch),
            all@.len() == prior + n,
            total == prior + n,
            fates.len() == k,
            forall|j: int|
                0 <= j < k ==> clipped_under(
                    d_sep,
                    curve_paths@[j].curve@,
                    curve_paths@[j].new_seeds@,
                    obstacles_of(previous, batch, j),
                    min_length,
                    #[trigger] fates[j],
                ),
            cuts_view(out@) == present(fates, k as int),
            out@.len() <= k,
            forall|j: int| 0 <= j < out@.len() ==> (#[trigger] out@[j]).0@.len() >= 2,
        decreases n - k,
    {
        proof {
            assert(polylines(all@).take(prior + k) =~= obstacles_of(
                previous,
                batch,
                k as int,
            ));
            assert forall|c: int|
                0 <= c < prior + k implies (#[trigger] obstacles_of(
                previous,
                batch,
                k as int,
            )[c]).len() >= 2 by {
                if c >= prior {
                    assert(batch_curves(batch)[c - prior].len() >= 2);
                }
            }
            assert(batch_curves(batch)[k as int].len() >= 2);
        }
        let fate = clip_curve(&curve_paths[k], &all, prior + k, &d_sep, min_length);
        let ghost before = fates;
        let ghost out_before = out@;
        proof {
            fates = fates.push(fate_view(fate));
        }
        match fate {
            None => {},
            Some(cut) => {
                out.push(cut);
                proof {
                    assert(cuts_view(out@) =~= cuts_view(out_before).push(cut_view(cut)));
                }
            },
        }
        proof {
            lemma_present_frame(before, fates, k as int);
        }
        k = k + 1;
    }
    proof {
        assert forall|sep: spec_fn(Point) -> u32| #[trigger] describes(d_sep, sep) implies is_pass(
            previous,
            batch,
            sep,
            min_length,
            cuts_view(out@),
        ) by {
            assert forall|j: int| 0 <= j < curve_paths@.len() implies is_clipped(
                curve_paths@[j].curve@,
                curve_paths@[j].new_seeds@,
                obstacles_of(previous, batch, j),
                sep,
                min_length,
                #[trigger] fates[j],
            ) by {
                assert(clipped_under(
                    d_sep,
                    curve_paths@[j].curve@,
                    curve_paths@[j].new_seeds@,
                    obstacles_of(previous, batch, j),
                    min_length,
                    fates[j],
                ));
            }
            assert(are_fates(previous, batch, sep, min_length, fates));
        }
    }
    out
}

/// A candidate whose first control point violates the 0.85 rule is
/// dropped whole, whatever the rest of it looks like.
pub proof fn lemma_first_violation_drops(
    curve: Seq<ControlPoint>,
    seeds: Seq<(Point, Fraction)>,
    obstacles: Seq<Seq<ControlPoint>>,
    sep: spec_fn(Point) -> u32,
    min_length: u64,
    fate: Option<(Seq<ControlPoint>, Seq<Point>)>,
)
    requires
        violates_first(curve, obstacles, sep),
        is_clipped(curve, seeds, obstacles, sep, min_length, fate),
    ensures
        fate is None,
{
}

/// The fate of a candidate is determined: the clip pass has one result.
pub proof fn lemma_fate_unique(
    curve: Seq<ControlPoint>,
    seeds: Seq<(Point, Fraction)>,
    obstacles: Seq<Seq<ControlPoint>>,
    sep: spec_fn(Point) -> u32,
    min_length: u64,
    a: Option<(Seq<ControlPoint>, Seq<Point>)>,
    b: Option<(Seq<ControlPoint>, Seq<Point>)>,
)
    requires
        is_clipped(curve, seeds, obstacles, sep, min_length, a),
        is_clipped(curve, seeds, obstacles, sep, min_length, b),
    ensures
        a == b,
{
    let ka = choose|kept: int|
        #[trigger] is_clear_prefix(curve, obstacles, sep, kept) && a == clip_one(
            curve,
            seeds,
            obstacles,
            sep,
            min_length,
            kept,
        );
    let kb = choose|kept: int|
        #[trigger] is_clear_prefix(curve, obstacles, sep, kept) && b == clip_one(
            curve,
            seeds,
            obstacles,
            sep,
            min_length,
            kept,
        );
    if ka < kb {
        assert(keeps_clear(curve, obstacles, sep, ka));
    } else if kb < ka {
        assert(keeps_clear(curve, obstacles, sep, kb));
    }
}

/// Every curve that survives the clip pass has two control points or
/// more.
pub proof fn lemma_cuts_have_two(
    previous: Seq<Seq<ControlPoint>>,
    batch: Seq<(Seq<ControlPoint>, Seq<(Point, Fraction)>)>,
    sep: spec_fn(Point) -> u32,
    min_length: u64,
    cuts: Seq<(Seq<ControlPoint>, Seq<Point>)>,
)
    requires
        is_pass(previous, batch, sep, min_length, cuts),
    ensures
        forall|j: int| 0 <= j < cuts.len() ==> (#[trigger] cuts[j]).0.len() >= 2,
{
    let fates = choose|fates: Seq<Option<(Seq<ControlPoint>, Seq<Point>)>>| #[trigger]
        are_fates(previous, batch, sep, min_length, fates) && cuts == present(
            fates,
            fates.len() as int,
        );
    let holds = |cut: (Seq<ControlPoint>, Seq<Point>)| cut.0.len() >= 2;
    assert forall|j: int| 0 <= j < fates.len() && (#[trigger] fates[j]) is Some implies holds(
        fates[j]->0,
    ) by {
        let curve = batch[j].0;
        let obstacles = obstacles_of(previous, batch, j);
        assert(is_clipped(curve, batch[j].1, obstacles, sep, min_length, fates[j]));
        let kept = choose|kept: int|
            #[trigger] is_clear_prefix(curve, obstacles, sep, kept) && fates[j] == clip_one(
                curve,
                batch[j].1,
                obstacles,
                sep,
                min_length,
                kept,
            );
        assert(curve.take(kept).len() == kept);
    }
    lemma_present_all(fates, fates.len() as int, holds);
    assert forall|j: int| 0 <= j < cuts.len() implies (#[trigger] cuts[j]).0.len() >= 2 by {
        assert(holds(cuts[j]));
    }
}

} // verus!
