//! Hermite curves as sequences of control points, and distance queries
//! against their piecewise-linear approximation.

use vstd::prelude::*;
use crate::point::{dist_sq, Point};

verus! {

/// A tangent of a curve, in length units per unit of the curve
/// parameter.
#[derive(Clone, Copy, Debug, PartialEq, Eq, Structural)]
pub struct Velocity {
    pub x: i64,
    pub y: i64,
}

/// A node of a Hermite curve: a position and the tangent there.
#[derive(Clone, Copy, Debug, PartialEq, Eq, Structural)]
pub struct ControlPoint {
    pub position: Point,
    pub velocity: Velocity,
}

/// An ordered sequence of control points.
pub type HermiteCurve = Vec<ControlPoint>;

/// `num / den` rounded toward zero, for a positive `den`.
pub open spec fn div_toward_zero(num: int, den: int) -> int {
    if num >= 0 {
        num / den
    } else {
        -((-num) / den)
    }
}

/// The point of the segment from `a` to `b` at which `q` is met: the
/// projection of `q` onto the line through `a` and `b`, limited to the
/// segment and rounded toward `a`. The distance to the segment is not
/// measured to this rounded point: see `segment_dist_sq`.
pub open spec fn closest_on_segment(q: Point, a: Point, b: Point) -> Point {
    let tx = b.x - a.x;
    let ty = b.y - a.y;
    let dot = (q.x - a.x) * tx + (q.y - a.y) * ty;
    let tt = tx * tx + ty * ty;
    if dot <= 0 {
        a
    } else if dot >= tt {
        b
    } else {
        Point {
            x: (a.x + div_toward_zero(dot * tx, tt)) as i32,
            y: (a.y + div_toward_zero(dot * ty, tt)) as i32,
        }
    }
}

/// Squared distance from `q` to the segment from `a` to `b`, rounded
/// down: the squared distance to the end that the projection of `q`
/// falls beyond, or else the squared distance to the line through `a`
/// and `b`, the square of the cross product over the squared length.
pub open spec fn segment_dist_sq(q: Point, a: Point, b: Point) -> int {
    let tx = b.x - a.x;
    let ty = b.y - a.y;
    let dot = (q.x - a.x) * tx + (q.y - a.y) * ty;
    let tt = tx * tx + ty * ty;
    let cross = (q.x - a.x) * ty - (q.y - a.y) * tx;
    if dot <= 0 {
        dist_sq(q, a)
    } else if dot >= tt {
        dist_sq(q, b)
    } else {
        (cross * cross) / tt
    }
}

/// Every curve has the two control points that one segment needs.
pub open spec fn curves_ok(curves: Seq<Seq<ControlPoint>>) -> bool {
    forall|c: int| 0 <= c < curves.len() ==> (#[trigger] curves[c]).len() >= 2
}

/// The curves as sequences of control points.
pub open spec fn polylines(curves: Seq<Vec<ControlPoint>>) -> Seq<Seq<ControlPoint>> {
    curves.map_values(|c: Vec<ControlPoint>| c@)
}

/// `(c, i)` names segment `i` of curve `c`.
pub open spec fn is_segment(curves: Seq<Seq<ControlPoint>>, c: int, i: int) -> bool {
    0 <= c < curves.len() && 0 <= i < curves[c].len() - 1
}

/// Squared distance from `q` to segment `i` of curve `c`.
pub open spec fn dist_to(curves: Seq<Seq<ControlPoint>>, q: Point, c: int, i: int) -> int {
    segment_dist_sq(q, curves[c][i].position, curves[c][i + 1].position)
}

/// Segment `(c, i)` comes before segment `(d, j)` in the order in which
/// the curves list their segments.
pub open spec fn segment_before(c: int, i: int, d: int, j: int) -> bool {
    c < d || (c == d && i < j)
}

/// `(c, i)` is the first segment that is as close to `q` as any.
pub open spec fn is_nearest(curves: Seq<Seq<ControlPoint>>, q: Point, c: int, i: int) -> bool {
    &&& is_segment(curves, c, i)
    &&& forall|d: int, j: int| #[trigger]
        is_segment(curves, d, j) ==> {
            &&& dist_to(curves, q, c, i) <= dist_to(curves, q, d, j)
            &&& segment_before(d, j, c, i) ==> dist_to(curves, q, c, i) < dist_to(curves, q, d, j)
        }
}

/// `d` is the squared distance from `q` to the nearest of the curves:
/// `None` where there is no curve.
pub open spec fn is_raycast(curves: Seq<Seq<ControlPoint>>, q: Point, d: Option<u128>) -> bool {
    match d {
        None => curves.len() == 0,
        Some(v) => exists|c: int, i: int| #[trigger]
            is_nearest(curves, q, c, i) && v == dist_to(curves, q, c, i),
    }
}

/// Squared distance from `q` to the nearest of the curves: `None` where
/// there is no curve.
pub open spec fn raycast_of(curves: Seq<Seq<ControlPoint>>, q: Point) -> Option<u128> {
    choose|d: Option<u128>| is_raycast(curves, q, d)
}

/// What a distance query found: the squared distance to the nearest
/// segment, rounded down, the point at which that segment is met, and
/// the curve and segment.
#[derive(Clone, Copy, Debug, PartialEq, Eq, Structural)]
pub struct Hit {
    pub distance_squared: u128,
    pub point: Point,
    pub curve: usize,
    pub segment: usize,
}

/// `hit` describes the first nearest segment of the curves.
pub open spec fn is_hit(curves: Seq<Seq<ControlPoint>>, q: Point, hit: Option<Hit>) -> bool {
    match hit {
        None => curves.len() == 0,
        Some(found) => {
            let c = found.curve as int;
            let i = found.segment as int;
            &&& is_nearest(curves, q, c, i)
            &&& found.distance_squared == dist_to(curves, q, c, i)
            &&& found.point == closest_on_segment(
                q,
                curves[c][i].position,
                curves[c][i + 1].position,
            )
        },
    }
}

/// The first nearest segment of the curves to `q`, if there is a curve.
pub open spec fn hit_of(curves: Seq<Seq<ControlPoint>>, q: Point) -> Option<Hit> {
    choose|hit: Option<Hit>| is_hit(curves, q, hit)
}

/// `num / den` rounded toward zero.
pub fn divide_toward_zero(num: i128, den: i128) -> (r: i128)
    requires
        den > 0,
        num > i128::MIN,
    ensures
        r == div_toward_zero(num as int, den as int),
{
    if num >= 0 {
        num / den
    } else {
        let pos: i128 = -num;
        -(pos / den)
    }
}

proof fn lemma_scaled_between(dot: int, t: int, tt: int)
    requires
        0 < dot < tt,
    ensures
        t >= 0 ==> 0 <= div_toward_zero(dot * t, tt) <= t,
        t < 0 ==> t <= div_toward_zero(dot * t, tt) <= 0,
{
    if t >= 0 {
        assert(0 <= dot * t <= tt * t) by (nonlinear_arith)
            requires
                0 < dot < tt,
                t >= 0,
        ;
        vstd::arithmetic::div_mod::lemma_div_is_ordered(dot * t, tt * t, tt);
        vstd::arithmetic::div_mod::lemma_div_multiples_vanish(t, tt);
        assert(tt * t == t * tt) by (nonlinear_arith);
        vstd::arithmetic::div_mod::lemma_div_pos_is_pos(dot * t, tt);
    } else {
        let m = -t;
        assert(0 <= dot * m <= tt * m && -(dot * t) == dot * m) by (nonlinear_arith)
            requires
                0 < dot < tt,
                m == -t,
                m > 0,
        ;
        vstd::arithmetic::div_mod::lemma_div_is_ordered(dot * m, tt * m, tt);
        vstd::arithmetic::div_mod::lemma_div_multiples_vanish(m, tt);
        assert(tt * m == m * tt) by (nonlinear_arith);
        vstd::arithmetic::div_mod::lemma_div_pos_is_pos(dot * m, tt);
        assert(dot * t < 0 || dot * t == 0) by (nonlinear_arith)
            requires
                dot > 0,
                t < 0,
        ;
    }
}

/// The point of the segment from `a` to `b` that is closest to `q`.
pub fn project_vector(q: Point, a: Point, b: Point) -> (r: Point)
    ensures
        r == closest_on_segment(q, a, b),
{
    let tx: i128 = b.x as i128 - a.x as i128;
    let ty: i128 = b.y as i128 - a.y as i128;
    let sx: i128 = q.x as i128 - a.x as i128;
    let sy: i128 = q.y as i128 - a.y as i128;
    assert(-0x1_0000_0000_0000_0000 <= sx * tx <= 0x1_0000_0000_0000_0000) by (nonlinear_arith)
        requires
            -0x1_0000_0000 <= sx <= 0x1_0000_0000,
            -0x1_0000_0000 <= tx <= 0x1_0000_0000,
    ;
    assert(-0x1_0000_0000_0000_0000 <= sy * ty <= 0x1_0000_0000_0000_0000) by (nonlinear_arith)
        requires
            -0x1_0000_0000 <= sy <= 0x1_0000_0000,
            -0x1_0000_0000 <= ty <= 0x1_0000_0000,
    ;
    assert(0 <= tx * tx <= 0x1_0000_0000_0000_0000) by (nonlinear_arith)
        requires
            -0x1_0000_0000 <= tx <= 0x1_0000_0000,
    ;
    assert(0 <= ty * ty <= 0x1_0000_0000_0000_0000) by (nonlinear_arith)
        requires
            -0x1_0000_0000 <= ty <= 0x1_0000_0000,
    ;
    let dot: i128 = sx * tx + sy * ty;
    let tt: i128 = tx * tx + ty * ty;
    if dot <= 0 {
        a
    } else if dot >= tt {
        b
    } else {
        assert(-0x2_0000_0000_0000_0000_0000_0000 <= dot * tx <= 0x2_0000_0000_0000_0000_0000_0000)
            by (nonlinear_arith)
            requires
                0 < dot <= 0x2_0000_0000_0000_0000,
                -0x1_0000_0000 <= tx <= 0x1_0000_0000,
        ;
        assert(-0x2_0000_0000_0000_0000_0000_0000 <= dot * ty <= 0x2_0000_0000_0000_0000_0000_0000)
            by (nonlinear_arith)
            requires
                0 < dot <= 0x2_0000_0000_0000_0000,
                -0x1_0000_0000 <= ty <= 0x1_0000_0000,
        ;
        proof {
            lemma_scaled_between(dot as int, tx as int, tt as int);
            lemma_scaled_between(dot as int, ty as int, tt as int);
        }
        let ox: i128 = divide_toward_zero(dot * tx, tt);
        let oy: i128 = divide_toward_zero(dot * ty, tt);
        Point { x: (a.x as i128 + ox) as i32, y: (a.y as i128 + oy) as i32 }
    }
}

/// The squared distance to a line is no larger than the squared distance
/// to a point of it.
proof fn lemma_line_below_point(sx: int, sy: int, tx: int, ty: int)
    requires
        tx * tx + ty * ty > 0,
    ensures
        0 <= ((sx * ty - sy * tx) * (sx * ty - sy * tx)) / (tx * tx + ty * ty) <= sx * sx + sy
            * sy,
{
    let s = sx * sx + sy * sy;
    let tt = tx * tx + ty * ty;
    let dot = sx * tx + sy * ty;
    let cross = sx * ty - sy * tx;
    crate::point::lemma_products(sx, sy, tx, ty);
    assert(dot * dot >= 0) by (nonlinear_arith);
    assert(cross * cross >= 0) by (nonlinear_arith);
    assert(cross * cross <= s * tt);
    vstd::arithmetic::div_mod::lemma_div_is_ordered(cross * cross, s * tt, tt);
    vstd::arithmetic::div_mod::lemma_div_multiples_vanish(s, tt);
    assert(s * tt == tt * s) by (nonlinear_arith);
    vstd::arithmetic::div_mod::lemma_div_pos_is_pos(cross * cross, tt);
}

/// The distance to a segment is no larger than the distance to either
/// of its ends.
pub proof fn lemma_segment_within_ends(q: Point, a: Point, b: Point)
    ensures
        0 <= segment_dist_sq(q, a, b) <= dist_sq(q, a),
        segment_dist_sq(q, a, b) <= dist_sq(q, b),
{
    let tx = b.x - a.x;
    let ty = b.y - a.y;
    let sx = q.x - a.x;
    let sy = q.y - a.y;
    let dot = sx * tx + sy * ty;
    let tt = tx * tx + ty * ty;
    crate::point::lemma_dist_sq_bound(q, a);
    crate::point::lemma_dist_sq_bound(q, b);
    assert(dist_sq(q, a) == sx * sx + sy * sy);
    // the squared distance to `b` is that to `a`, less twice the dot
    // product, plus the squared length
    assert(dist_sq(q, b) == sx * sx + sy * sy - 2 * dot + tt) by (nonlinear_arith)
        requires
            dist_sq(q, b) == (q.x - b.x) * (q.x - b.x) + (q.y - b.y) * (q.y - b.y),
            tx == b.x - a.x,
            ty == b.y - a.y,
            sx == q.x - a.x,
            sy == q.y - a.y,
            dot == sx * tx + sy * ty,
            tt == tx * tx + ty * ty,
    ;
    assert(tt >= 0) by (nonlinear_arith)
        requires
            tt == tx * tx + ty * ty,
    ;
    if 0 < dot < tt {
        lemma_line_below_point(sx, sy, tx, ty);
        let ux = q.x - b.x;
        let uy = q.y - b.y;
        lemma_line_below_point(ux, uy, tx, ty);
        let cross = sx * ty - sy * tx;
        assert(ux * ty - uy * tx == cross) by (nonlinear_arith)
            requires
                ux == sx - tx,
                uy == sy - ty,
                cross == sx * ty - sy * tx,
        ;
        assert(dist_sq(q, b) == ux * ux + uy * uy);
        assert(segment_dist_sq(q, a, b) == (cross * cross) / tt);
    }
}

/// Squared distance from `q` to the segment from `a` to `b`, rounded
/// down.
pub fn segment_distance_squared(q: Point, a: Point, b: Point) -> (d: u128)
    ensures
        d == segment_dist_sq(q, a, b),
        d <= 0x2_0000_0000_0000_0000,
{
    let tx: i128 = b.x as i128 - a.x as i128;
    let ty: i128 = b.y as i128 - a.y as i128;
    let sx: i128 = q.x as i128 - a.x as i128;
    let sy: i128 = q.y as i128 - a.y as i128;
    assert(-0x1_0000_0000_0000_0000 <= sx * tx <= 0x1_0000_0000_0000_0000) by (nonlinear_arith)
        requires
            -0x1_0000_0000 <= sx <= 0x1_0000_0000,
            -0x1_0000_0000 <= tx <= 0x1_0000_0000,
    ;
    assert(-0x1_0000_0000_0000_0000 <= sy * ty <= 0x1_0000_0000_0000_0000) by (nonlinear_arith)
        requires
            -0x1_0000_0000 <= sy <= 0x1_0000_0000,
            -0x1_0000_0000 <= ty <= 0x1_0000_0000,
    ;
    assert(-0x1_0000_0000_0000_0000 <= sx * ty <= 0x1_0000_0000_0000_0000) by (nonlinear_arith)
        requires
            -0x1_0000_0000 <= sx <= 0x1_0000_0000,
            -0x1_0000_0000 <= ty <= 0x1_0000_0000,
    ;
    assert(-0x1_0000_0000_0000_0000 <= sy * tx <= 0x1_0000_0000_0000_0000) by (nonlinear_arith)
        requires
            -0x1_0000_0000 <= sy <= 0x1_0000_0000,
            -0x1_0000_0000 <= tx <= 0x1_0000_0000,
    ;
    assert(0 <= tx * tx <= 0x1_0000_0000_0000_0000) by (nonlinear_arith)
        requires
            -0x1_0000_0000 <= tx <= 0x1_0000_0000,
    ;
    assert(0 <= ty * ty <= 0x1_0000_0000_0000_0000) by (nonlinear_arith)
        requires
            -0x1_0000_0000 <= ty <= 0x1_0000_0000,
    ;
    let dot: i128 = sx * tx + sy * ty;
    let tt: i128 = tx * tx + ty * ty;
    if dot <= 0 {
        q.distance_squared(&a)
    } else if dot >= tt {
        q.distance_squared(&b)
    } else {
        let cross: i128 = sx * ty - sy * tx;
        let size: u128 = if cross < 0 {
            (-cross) as u128
        } else {
            cross as u128
        };
        proof {
            assert(size * size == cross * cross) by (nonlinear_arith)
                requires
                    size == cross || size == -cross,
            ;
            lemma_line_below_point(sx as int, sy as int, tx as int, ty as int);
            crate::point::lemma_dist_sq_bound(q, a);
        }
        crate::ratio::mul_div(size, size, tt as u128)
    }
}

/// The closest point never leaves the bounding box of the segment.
pub proof fn lemma_closest_in_box(q: Point, a: Point, b: Point)
    ensures
        ({
            let r = closest_on_segment(q, a, b);
            &&& (a.x <= r.x <= b.x || b.x <= r.x <= a.x)
            &&& (a.y <= r.y <= b.y || b.y <= r.y <= a.y)
        }),
{
    let tx = b.x - a.x;
    let ty = b.y - a.y;
    let dot = (q.x - a.x) * tx + (q.y - a.y) * ty;
    let tt = tx * tx + ty * ty;
    if 0 < dot < tt {
        lemma_scaled_between(dot, tx, tt);
        lemma_scaled_between(dot, ty, tt);
    }
}

/// `hit` describes the first nearest segment among those that come
/// before segment `(c, i)`.
spec fn nearest_before(
    curves: Seq<Seq<ControlPoint>>,
    q: Point,
    c: int,
    i: int,
    hit: Option<Hit>,
) -> bool {
    match hit {
        None => c == 0 && i == 0,
        Some(found) => {
            let fc = found.curve as int;
            let fi = found.segment as int;
            &&& is_segment(curves, fc, fi)
            &&& segment_before(fc, fi, c, i)
            &&& found.distance_squared == dist_to(curves, q, fc, fi)
            &&& found.point == closest_on_segment(
                q,
                curves[fc][fi].position,
                curves[fc][fi + 1].position,
            )
            &&& forall|d: int, j: int| #[trigger]
                is_segment(curves, d, j) && segment_before(d, j, c, i) ==> {
                    &&& found.distance_squared <= dist_to(curves, q, d, j)
                    &&& segment_before(d, j, fc, fi) ==> found.distance_squared < dist_to(
                        curves,
                        q,
                        d,
                        j,
                    )
                }
        },
    }
}

/// The first nearest segment among the first `limit` curves.
pub fn nearest_in_prefix(point: Point, curves: &Vec<HermiteCurve>, limit: usize) -> (hit: Option<
    Hit,
>)
    requires
        limit <= curves@.len(),
        curves_ok(polylines(curves@).take(limit as int)),
    ensures
        is_hit(polylines(curves@).take(limit as int), point, hit),
        hit == hit_of(polylines(curves@).take(limit as int), point),
        hit is Some ==> hit->0.distance_squared <= 0x2_0000_0000_0000_0000,
{
    let ghost all = polylines(curves@).take(limit as int);
    let mut best: Option<Hit> = None;
    let mut c: usize = 0;
    while c < limit
        invariant
            c <= limit <= curves@.len(),
            all == polylines(curves@).take(limit as int),
            curves_ok(all),
            nearest_before(all, point, c as int, 0, best),
            best is Some ==> best->0.distance_squared <= 0x2_0000_0000_0000_0000,
        decreases limit - c,
    {
        let curve = &curves[c];
        assert(all[c as int] == curves@[c as int]@);
        let n = curve.len();
        let mut i: usize = 0;
        while i + 1 < n
            invariant
                n == curve@.len(),
                c < limit <= curves@.len(),
                all == polylines(curves@).take(limit as int),
                curves_ok(all),
                curve@ == all[c as int],
                i + 1 <= curve@.len(),
                nearest_before(all, point, c as int, i as int, best),
                best is Some ==> best->0.distance_squared <= 0x2_0000_0000_0000_0000,
            decreases curve@.len() - i,
        {
            let a = curve[i].position;
            let b = curve[i + 1].position;
            let closest = project_vector(point, a, b);
            let d = segment_distance_squared(point, a, b);
            let better = match best {
                None => true,
                Some(found) => d < found.distance_squared,
            };
            let ghost before = best;
            if better {
                best = Some(Hit { distance_squared: d, point: closest, curve: c, segment: i });
            }
            proof {
                assert(is_segment(all, c as int, i as int));
                assert(d == dist_to(all, point, c as int, i as int));
                let found = best->0;
                assert forall|e: int, j: int| #[trigger]
                    is_segment(all, e, j) && segment_before(e, j, c as int, i + 1) implies {
                    &&& found.distance_squared <= dist_to(all, point, e, j)
                    &&& segment_before(e, j, found.curve as int, found.segment as int)
                        ==> found.distance_squared < dist_to(all, point, e, j)
                } by {
                    if segment_before(e, j, c as int, i as int) {
                        assert(before is Some);
                    }
                }
            }
            i = i + 1;
        }
        proof {
            assert(nearest_before(all, point, c + 1, 0, best)) by {
                let found = best->0;
                assert(best is Some);
                assert forall|e: int, j: int| #[trigger]
                    is_segment(all, e, j) && segment_before(e, j, c + 1, 0) implies {
                    &&& found.distance_squared <= dist_to(all, point, e, j)
                    &&& segment_before(e, j, found.curve as int, found.segment as int)
                        ==> found.distance_squared < dist_to(all, point, e, j)
                } by {
                    assert(segment_before(e, j, c as int, i as int));
                }
            }
        }
        c = c + 1;
    }
    proof {
        match best {
            None => {},
            Some(found) => {
                assert forall|e: int, j: int| #[trigger] is_segment(all, e, j) implies {
                    &&& found.distance_squared <= dist_to(all, point, e, j)
                    &&& segment_before(e, j, found.curve as int, found.segment as int)
                        ==> found.distance_squared < dist_to(all, point, e, j)
                } by {
                    assert(segment_before(e, j, limit as int, 0));
                }
            },
        }
        lemma_hit_unique(all, point, best, hit_of(all, point));
    }
    best
}

/// The nearest point of the curves to `point`, with its squared distance
/// and the segment that it lies on; `None` where there is no curve.
pub fn raycast_to_curve_with_more_info(point: Point, other_curves: &Vec<HermiteCurve>) -> (hit:
    Option<Hit>)
    requires
        curves_ok(polylines(other_curves@)),
    ensures
        is_hit(polylines(other_curves@), point, hit),
        hit == hit_of(polylines(other_curves@), point),
{
    assert(polylines(other_curves@).take(other_curves@.len() as int) =~= polylines(other_curves@));
    nearest_in_prefix(point, other_curves, other_curves.len())
}

/// Squared distance from `point` to the nearest of the curves, each
/// taken as the polyline through its control points; `None` where there
/// is no curve.
pub fn raycast_to_curve(point: Point, other_curves: &Vec<HermiteCurve>) -> (d: Option<u128>)
    requires
        curves_ok(polylines(other_curves@)),
    ensures
        is_raycast(polylines(other_curves@), point, d),
        d == raycast_of(polylines(other_curves@), point),
        d is Some ==> d->0 <= 0x2_0000_0000_0000_0000,
{
    assert(polylines(other_curves@).take(other_curves@.len() as int) =~= polylines(other_curves@));
    raycast_to_prefix(point, other_curves, other_curves.len())
}

/// Squared distance from `point` to the nearest of the first `limit`
/// curves.
pub fn raycast_to_prefix(point: Point, curves: &Vec<HermiteCurve>, limit: usize) -> (d: Option<
    u128,
>)
    requires
        limit <= curves@.len(),
        curves_ok(polylines(curves@).take(limit as int)),
    ensures
        is_raycast(polylines(curves@).take(limit as int), point, d),
        d == raycast_of(polylines(curves@).take(limit as int), point),
        d is Some ==> d->0 <= 0x2_0000_0000_0000_0000,
{
    let d = match nearest_in_prefix(point, curves, limit) {
        None => None,
        Some(found) => {
            assert(is_nearest(
                polylines(curves@).take(limit as int),
                point,
                found.curve as int,
                found.segment as int,
            ));
            Some(found.distance_squared)
        },
    };
    proof {
        let all = polylines(curves@).take(limit as int);
        lemma_raycast_unique(all, point, d, raycast_of(all, point));
    }
    d
}

/// A distance query has one answer.
pub proof fn lemma_raycast_unique(
    curves: Seq<Seq<ControlPoint>>,
    q: Point,
    d1: Option<u128>,
    d2: Option<u128>,
)
    requires
        curves_ok(curves),
        is_raycast(curves, q, d1),
        is_raycast(curves, q, d2),
    ensures
        d1 == d2,
{
    if curves.len() > 0 {
        assert(is_segment(curves, 0, 0));
    }
    match (d1, d2) {
        (Some(v1), Some(v2)) => {
            let (c1, i1) = choose|c: int, i: int| #[trigger]
                is_nearest(curves, q, c, i) && v1 == dist_to(curves, q, c, i);
            let (c2, i2) = choose|c: int, i: int| #[trigger]
                is_nearest(curves, q, c, i) && v2 == dist_to(curves, q, c, i);
            assert(is_segment(curves, c1, i1));
            assert(is_segment(curves, c2, i2));
        },
        (Some(v1), None) => {
            let (c1, i1) = choose|c: int, i: int| #[trigger]
                is_nearest(curves, q, c, i) && v1 == dist_to(curves, q, c, i);
            assert(is_segment(curves, c1, i1));
        },
        (None, Some(v2)) => {
            let (c2, i2) = choose|c: int, i: int| #[trigger]
                is_nearest(curves, q, c, i) && v2 == dist_to(curves, q, c, i);
            assert(is_segment(curves, c2, i2));
        },
        (None, None) => {},
    }
}

/// A distance query has one first nearest segment.
pub proof fn lemma_hit_unique(
    curves: Seq<Seq<ControlPoint>>,
    q: Point,
    a: Option<Hit>,
    b: Option<Hit>,
)
    requires
        curves_ok(curves),
        is_hit(curves, q, a),
        is_hit(curves, q, b),
    ensures
        a == b,
{
    if curves.len() > 0 {
        assert(is_segment(curves, 0, 0));
    }
    match (a, b) {
        (Some(x), Some(y)) => {
            let (c, i) = (x.curve as int, x.segment as int);
            let (d, j) = (y.curve as int, y.segment as int);
            assert(is_nearest(curves, q, c, i));
            assert(is_nearest(curves, q, d, j));
            assert(is_segment(curves, c, i));
            assert(is_segment(curves, d, j));
            if segment_before(c, i, d, j) {
            } else if segment_before(d, j, c, i) {
            } else {
                assert(c == d && i == j);
            }
        },
        (Some(x), None) => {
            assert(is_segment(curves, x.curve as int, x.segment as int));
        },
        (None, Some(y)) => {
            assert(is_segment(curves, y.curve as int, y.segment as int));
        },
        (None, None) => {},
    }
}


/// A position that is a control point of one of the curves lies at
/// distance zero from them.
pub proof fn lemma_raycast_at_control_point(
    curves: Seq<Seq<ControlPoint>>,
    q: Point,
    d: Option<u128>,
    c: int,
    k: int,
)
    requires
        curves_ok(curves),
        is_raycast(curves, q, d),
        0 <= c < curves.len(),
        0 <= k < curves[c].len(),
        curves[c][k].position == q,
    ensures
        d == Some(0u128),
{
    let i = if k < curves[c].len() - 1 {
        k
    } else {
        k - 1
    };
    assert(is_segment(curves, c, i));
    lemma_segment_within_ends(q, curves[c][i].position, curves[c][i + 1].position);
    let v = d->0;
    let (e, j) = choose|e: int, j: int| #[trigger]
        is_nearest(curves, q, e, j) && v == dist_to(curves, q, e, j);
    assert(v <= dist_to(curves, q, c, i));
}

} // verus!
