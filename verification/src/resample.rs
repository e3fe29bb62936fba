//! Resampling: a Hermite curve turned back into a dense sequence of
//! points.

use vstd::prelude::*;
use crate::curve::{div_toward_zero, divide_toward_zero, ControlPoint, HermiteCurve};
use crate::point::{clamp_int, Point};

verus! {

/// `v` times `j / n`, rounded toward zero.
pub open spec fn times_fraction(v: int, j: int, n: int) -> int {
    div_toward_zero(v * j, n)
}

/// One coordinate of the cubic Hermite curve from `p0` to `p1` with the
/// tangents `m0` and `m1`, at the parameter `j / n`, evaluated from the
/// highest power down; every product with the parameter is rounded
/// toward zero.
pub open spec fn hermite_coordinate(p0: int, p1: int, m0: int, m1: int, j: int, n: int) -> int {
    let a = 2 * (p0 - p1) + m0 + m1;
    let b = -2 * m0 - m1 - 3 * (p0 - p1);
    p0 + times_fraction(m0 + times_fraction(b + times_fraction(a, j, n), j, n), j, n)
}

/// The point of the Hermite curve between two control points at the
/// parameter `j / n`. A coordinate beyond the range of a coordinate is
/// set to the end of the range.
pub open spec fn hermite_point(from: ControlPoint, to: ControlPoint, j: int, n: int) -> Point {
    Point {
        x: clamp_int(
            hermite_coordinate(
                from.position.x as int,
                to.position.x as int,
                from.velocity.x as int,
                to.velocity.x as int,
                j,
                n,
            ),
            i32::MIN as int,
            i32::MAX as int,
        ) as i32,
        y: clamp_int(
            hermite_coordinate(
                from.position.y as int,
                to.position.y as int,
                from.velocity.y as int,
                to.velocity.y as int,
                j,
                n,
            ),
            i32::MIN as int,
            i32::MAX as int,
        ) as i32,
    }
}

/// A quotient toward zero of a product with a factor between 0 and the
/// divisor is no larger in size than the other factor.
proof fn lemma_times_fraction_bound(v: int, j: int, n: int, bound: int)
    requires
        0 <= j <= n,
        n >= 1,
        -bound <= v <= bound,
    ensures
        -bound <= times_fraction(v, j, n) <= bound,
{
    if v >= 0 {
        assert(0 <= v * j <= bound * n) by (nonlinear_arith)
            requires
                0 <= v <= bound,
                0 <= j <= n,
        ;
        vstd::arithmetic::div_mod::lemma_div_is_ordered(v * j, bound * n, n);
        vstd::arithmetic::div_mod::lemma_div_multiples_vanish(bound, n);
        assert(bound * n == n * bound) by (nonlinear_arith);
        vstd::arithmetic::div_mod::lemma_div_pos_is_pos(v * j, n);
    } else {
        assert(0 <= -(v * j) <= bound * n) by (nonlinear_arith)
            requires
                -bound <= v < 0,
                0 <= j <= n,
        ;
        vstd::arithmetic::div_mod::lemma_div_is_ordered(-(v * j), bound * n, n);
        vstd::arithmetic::div_mod::lemma_div_multiples_vanish(bound, n);
        assert(bound * n == n * bound) by (nonlinear_arith);
        vstd::arithmetic::div_mod::lemma_div_pos_is_pos(-(v * j), n);
        if v * j == 0 {
        }
    }
}

/// A span starts at its first control point and ends at its second.
pub proof fn lemma_span_ends(from: ControlPoint, to: ControlPoint, n: int)
    requires
        n >= 1,
    ensures
        hermite_point(from, to, 0, n) == from.position,
        hermite_point(from, to, n, n) == to.position,
{
    lemma_coordinate_ends(
        from.position.x as int,
        to.position.x as int,
        from.velocity.x as int,
        to.velocity.x as int,
        n,
    );
    lemma_coordinate_ends(
        from.position.y as int,
        to.position.y as int,
        from.velocity.y as int,
        to.velocity.y as int,
        n,
    );
}

proof fn lemma_coordinate_ends(p0: int, p1: int, m0: int, m1: int, n: int)
    requires
        n >= 1,
    ensures
        hermite_coordinate(p0, p1, m0, m1, 0, n) == p0,
        hermite_coordinate(p0, p1, m0, m1, n, n) == p1,
{
    lemma_whole(2 * (p0 - p1) + m0 + m1, n);
    lemma_whole(-m0 - (p0 - p1), n);
    lemma_whole(-(p0 - p1), n);
    lemma_none(2 * (p0 - p1) + m0 + m1, n);
    let b = -2 * m0 - m1 - 3 * (p0 - p1);
    lemma_none(b, n);
    lemma_none(m0, n);
}

/// The whole of `v` is `v`.
proof fn lemma_whole(v: int, n: int)
    requires
        n >= 1,
    ensures
        times_fraction(v, n, n) == v,
{
    if v >= 0 {
        vstd::arithmetic::div_mod::lemma_div_multiples_vanish(v, n);
        assert(v * n == n * v) by (nonlinear_arith);
    } else {
        vstd::arithmetic::div_mod::lemma_div_multiples_vanish(-v, n);
        assert(-(v * n) == n * (-v)) by (nonlinear_arith);
        assert(v * n < 0) by (nonlinear_arith)
            requires
                v < 0,
                n >= 1,
        ;
    }
}

/// Nothing of `v` is nothing.
proof fn lemma_none(v: int, n: int)
    requires
        n >= 1,
    ensures
        times_fraction(v, 0, n) == 0,
{
    assert(v * 0 == 0) by (nonlinear_arith);
}

/// `v` times `j / n`, where `v` is no larger in size than `bound`.
fn scale(v: i128, j: i128, n: i128, Ghost(bound): Ghost<int>) -> (r: i128)
    requires
        0 <= j <= n <= 0x7fff_ffff,
        n >= 1,
        -bound <= v <= bound,
        bound <= 0x100_0000_0000_0000_0000,
    ensures
        r == times_fraction(v as int, j as int, n as int),
        -bound <= r <= bound,
{
    assert(-0x100_0000_0000_0000_0000 * 0x7fff_ffff <= v * j <= 0x100_0000_0000_0000_0000
        * 0x7fff_ffff) by (nonlinear_arith)
        requires
            0 <= j <= 0x7fff_ffff,
            -0x100_0000_0000_0000_0000 <= v <= 0x100_0000_0000_0000_0000,
    ;
    proof {
        lemma_times_fraction_bound(v as int, j as int, n as int, bound);
    }
    divide_toward_zero(v * j, n)
}

/// One coordinate of the Hermite curve at the parameter `j / n`.
fn coordinate(p0: i32, p1: i32, m0: i64, m1: i64, j: i128, n: i128) -> (r: i32)
    requires
        0 <= j <= n <= 0x7fff_ffff,
        n >= 1,
    ensures
        r == clamp_int(
            hermite_coordinate(p0 as int, p1 as int, m0 as int, m1 as int, j as int, n as int),
            i32::MIN as int,
            i32::MAX as int,
        ),
{
    let d: i128 = p0 as i128 - p1 as i128;
    let v0: i128 = m0 as i128;
    let v1: i128 = m1 as i128;
    let a: i128 = 2 * d + v0 + v1;
    let b: i128 = 0 - 2 * v0 - v1 - 3 * d;
    let inner = b + scale(a, j, n, Ghost(0x2_0000_0000_0000_0000));
    let middle = v0 + scale(inner, j, n, Ghost(0x4_0000_0000_0000_0000));
    let h = p0 as i128 + scale(middle, j, n, Ghost(0x8_0000_0000_0000_0000));
    if h < i32::MIN as i128 {
        i32::MIN
    } else if h > i32::MAX as i128 {
        i32::MAX
    } else {
        h as i32
    }
}

/// The point of the Hermite curve between two control points at the
/// parameter `t`, given as `j / n`.
pub fn evaluate_hermite_curve(from: ControlPoint, to: ControlPoint, j: u32, n: u32) -> (p: Point)
    requires
        1 <= n <= 0x7fff_ffff,
        j <= n,
    ensures
        p == hermite_point(from, to, j as int, n as int),
{
    Point {
        x: coordinate(
            from.position.x,
            to.position.x,
            from.velocity.x,
            to.velocity.x,
            j as i128,
            n as i128,
        ),
        y: coordinate(
            from.position.y,
            to.position.y,
            from.velocity.y,
            to.velocity.y,
            j as i128,
            n as i128,
        ),
    }
}

/// Number of samples taken of every span between two control points.
pub open spec fn samples_per_span(points_per_spline: i32) -> int {
    if points_per_spline < 0 {
        0
    } else {
        points_per_spline + 1
    }
}

/// `out` lists, span by span, the samples of the curve: of every span
/// the points at the parameters `0`, `1 / points_per_spline`, and so on
/// up to `1`.
pub open spec fn is_resampled(
    control_points: Seq<ControlPoint>,
    points_per_spline: i32,
    out: Seq<Point>,
) -> bool {
    let per = samples_per_span(points_per_spline);
    &&& out.len() == (control_points.len() - 1) * per
    &&& forall|k: int, j: int|
        0 <= k < control_points.len() - 1 && 0 <= j < per ==> out[k * per + j] == #[trigger] hermite_point(
            control_points[k],
            control_points[k + 1],
            j,
            points_per_spline as int,
        )
}

/// Turns a curve into a dense sequence of points: every span between
/// two control points is sampled at `points_per_spline + 1` evenly
/// spaced parameters, both ends included. A negative count gives no
/// points.
pub fn resample_curve(control_points: &HermiteCurve, points_per_spline: i32) -> (out: Vec<Point>)
    requires
        control_points@.len() >= 1,
        points_per_spline != 0,
    ensures
        is_resampled(control_points@, points_per_spline, out@),
{
    let mut out: Vec<Point> = Vec::new();
    let spans = control_points.len() - 1;
    let ghost per = samples_per_span(points_per_spline);
    if points_per_spline < 0 {
        assert((control_points@.len() - 1) * per == 0) by (nonlinear_arith)
            requires
                per == 0,
        ;
        return out;
    }
    let n: u32 = points_per_spline as u32;
    let mut k: usize = 0;
    while k < spans
        invariant
            k <= spans,
            spans == control_points@.len() - 1,
            1 <= n <= 0x7fff_ffff,
            n == points_per_spline,
            per == n + 1,
            out@.len() == k * per,
            forall|a: int, j: int|
                0 <= a < k && 0 <= j < per ==> out@[a * per + j] == #[trigger] hermite_point(
                    control_points@[a],
                    control_points@[a + 1],
                    j,
                    n as int,
                ),
        decreases spans - k,
    {
        let from = control_points[k];
        let to = control_points[k + 1];
        let mut j: u32 = 0;
        while j <= n
            invariant
                j <= n + 1,
                k < spans,
                spans == control_points@.len() - 1,
                from == control_points@[k as int],
                to == control_points@[k + 1],
                1 <= n <= 0x7fff_ffff,
                per == n + 1,
                out@.len() == k * per + j,
                forall|a: int, i: int|
                    0 <= a < k && 0 <= i < per ==> out@[a * per + i] == #[trigger] hermite_point(
                        control_points@[a],
                        control_points@[a + 1],
                        i,
                        n as int,
                    ),
                forall|i: int|
                    0 <= i < j ==> out@[k * per + i] == #[trigger] hermite_point(
                        from,
                        to,
                        i,
                        n as int,
                    ),
            decreases n + 1 - j,
        {
            let ghost before = out@;
            out.push(evaluate_hermite_curve(from, to, j, n));
            proof {
                assert forall|a: int, i: int| 0 <= a < k && 0 <= i < per implies out@[a * per + i]
                    == #[trigger] hermite_point(
                    control_points@[a],
                    control_points@[a + 1],
                    i,
                    n as int,
                ) by {
                    assert(a * per + i < k * per) by (nonlinear_arith)
                        requires
                            0 <= a < k,
                            0 <= i < per,
                    ;
                    assert(out@[a * per + i] == before[a * per + i]);
                }
                assert forall|i: int| 0 <= i < j + 1 implies out@[k * per + i]
                    == #[trigger] hermite_point(from, to, i, n as int) by {
                    if i < j {
                        assert(out@[k * per + i] == before[k * per + i]);
                    }
                }
            }
            j = j + 1;
        }
        proof {
            assert((k + 1) * per == k * per + per) by (nonlinear_arith);
        }
        k = k + 1;
    }
    out
}

} // verus!
