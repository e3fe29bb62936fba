//! Smoothing of a traced path in two passes. The first pass moves a
//! point where the direction of the path changes, the second averages a
//! point with its neighbours where the path is still sharply bent. The
//! two ends of a path are never moved.

use vstd::prelude::*;
use crate::curve::{div_toward_zero, divide_toward_zero};
use crate::direction::{first_deriv, normalize, point_first_deriv, unit_vector};
use crate::point::{clamp_int, dist_sq, floor_sqrt, isqrt, Point, UNIT};

verus! {

/// The directions `ahead` and `behind`, unit vectors in ten-thousandths,
/// differ so little that one less their cosine stays below `alpha`, a
/// number of ten-thousandths.
pub open spec fn nearly_straight(ahead: Point, behind: Point, alpha: u32) -> bool {
    let dot = ahead.x * behind.x + ahead.y * behind.y;
    let cosine = if dot > UNIT * UNIT {
        UNIT * UNIT
    } else {
        dot
    };
    UNIT * UNIT - cosine < alpha * UNIT
}

/// The directions `ahead` and `behind` differ by `beta` or more, a
/// number of ten-thousandths.
pub open spec fn sharply_bent(ahead: Point, behind: Point, beta: u32) -> bool {
    dist_sq(ahead, behind) >= beta * beta
}

/// Half of `c`, scaled by `length` over `across`; nothing where `across`
/// is nothing.
pub open spec fn nudge_coordinate(c: int, length: int, across: int) -> int {
    if across == 0 {
        0
    } else {
        div_toward_zero(c * length, 2 * across)
    }
}

/// `v` as a coordinate: beyond the range of a coordinate it is set to
/// the end of the range.
pub open spec fn as_coordinate(v: int) -> i32 {
    clamp_int(v, i32::MIN as int, i32::MAX as int) as i32
}

/// Point `i` of the path after the first pass. An end stays, and so
/// does a point at which the path is nearly straight. Any other point is
/// moved by half the change of its step, scaled by the length of the
/// step that leaves it over the size of the change.
pub open spec fn first_pass_point(path: Seq<Point>, i: int, alpha: u32) -> Point {
    if i == 0 || i == path.len() - 1 {
        path[i]
    } else {
        let current = first_deriv(path, i);
        let prev = first_deriv(path, i - 1);
        if nearly_straight(unit_vector(current), unit_vector(prev), alpha) {
            path[i]
        } else {
            let dx = current.x - prev.x;
            let dy = current.y - prev.y;
            let length = floor_sqrt(current.x * current.x + current.y * current.y);
            let across = floor_sqrt(dx * dx + dy * dy);
            Point {
                x: as_coordinate(path[i].x + nudge_coordinate(dx, length, across)),
                y: as_coordinate(path[i].y + nudge_coordinate(dy, length, across)),
            }
        }
    }
}

/// The path after the first pass.
pub open spec fn first_pass(path: Seq<Point>, alpha: u32) -> Seq<Point> {
    Seq::new(path.len(), |i: int| first_pass_point(path, i, alpha))
}

/// Point `i` after the second pass. An end stays; a point at which the
/// path is sharply bent becomes the mean of itself and its neighbours.
pub open spec fn second_pass_point(path: Seq<Point>, i: int, beta: u32) -> Point {
    if i == 0 || i == path.len() - 1 {
        path[i]
    } else if sharply_bent(
        unit_vector(first_deriv(path, i)),
        unit_vector(first_deriv(path, i - 1)),
        beta,
    ) {
        Point {
            x: div_toward_zero(path[i - 1].x + path[i].x + path[i + 1].x, 3) as i32,
            y: div_toward_zero(path[i - 1].y + path[i].y + path[i + 1].y, 3) as i32,
        }
    } else {
        path[i]
    }
}

/// The path after both passes.
pub open spec fn smoothed(path: Seq<Point>, alpha: u32, beta: u32) -> Seq<Point> {
    Seq::new(path.len(), |i: int| second_pass_point(first_pass(path, alpha), i, beta))
}

/// Decides whether two directions are nearly the same.
fn is_nearly_straight(ahead: Point, behind: Point, alpha: u32) -> (b: bool)
    requires
        -(UNIT as int) <= ahead.x <= UNIT as int,
        -(UNIT as int) <= ahead.y <= UNIT as int,
        -(UNIT as int) <= behind.x <= UNIT as int,
        -(UNIT as int) <= behind.y <= UNIT as int,
    ensures
        b == nearly_straight(ahead, behind, alpha),
{
    assert(-100_000_000 <= ahead.x * behind.x <= 100_000_000) by (nonlinear_arith)
        requires
            -10_000 <= ahead.x <= 10_000,
            -10_000 <= behind.x <= 10_000,
    ;
    assert(-100_000_000 <= ahead.y * behind.y <= 100_000_000) by (nonlinear_arith)
        requires
            -10_000 <= ahead.y <= 10_000,
            -10_000 <= behind.y <= 10_000,
    ;
    let dot: i64 = ahead.x as i64 * behind.x as i64 + ahead.y as i64 * behind.y as i64;
    let cosine: i64 = if dot > 100_000_000 {
        100_000_000
    } else {
        dot
    };
    assert(UNIT * UNIT == 100_000_000);
    100_000_000 - cosine < alpha as i64 * 10_000
}

/// Half of `c`, scaled by `length` over `across`.
fn nudge(c: i64, length: u64, across: u64) -> (r: i128)
    requires
        -0x2_0000_0000 <= c <= 0x2_0000_0000,
        length <= 0x2_0000_0000,
        across <= 0x4_0000_0000,
    ensures
        r == nudge_coordinate(c as int, length as int, across as int),
        -0x4_0000_0000_0000_0000 <= r <= 0x4_0000_0000_0000_0000,
{
    if across == 0 {
        return 0;
    }
    assert(-0x4_0000_0000_0000_0000 <= c * length <= 0x4_0000_0000_0000_0000) by (nonlinear_arith)
        requires
            -0x2_0000_0000 <= c <= 0x2_0000_0000,
            0 <= length <= 0x2_0000_0000,
    ;
    let num: i128 = c as i128 * length as i128;
    let den: i128 = 2 * across as i128;
    proof {
        if num >= 0 {
            vstd::arithmetic::div_mod::lemma_div_pos_is_pos(num as int, den as int);
            vstd::arithmetic::div_mod::lemma_div_is_ordered_by_denominator(num as int, 1, den as int);
        } else {
            vstd::arithmetic::div_mod::lemma_div_pos_is_pos(-num, den as int);
            vstd::arithmetic::div_mod::lemma_div_is_ordered_by_denominator(-num, 1, den as int);
        }
    }
    divide_toward_zero(num, den)
}

/// A value as a coordinate.
fn to_coordinate(v: i128) -> (c: i32)
    ensures
        c == as_coordinate(v as int),
{
    if v < i32::MIN as i128 {
        i32::MIN
    } else if v > i32::MAX as i128 {
        i32::MAX
    } else {
        v as i32
    }
}

/// The length of a vector of the given squared length.
fn length_of(x: i64, y: i64) -> (r: u64)
    requires
        -0x2_0000_0000 <= x <= 0x2_0000_0000,
        -0x2_0000_0000 <= y <= 0x2_0000_0000,
    ensures
        r == floor_sqrt(x * x + y * y),
        r <= 0x4_0000_0000,
        (-0x1_0000_0000 <= x <= 0x1_0000_0000 && -0x1_0000_0000 <= y <= 0x1_0000_0000) ==> r
            <= 0x2_0000_0000,
{
    assert(0 <= x * x <= 0x4_0000_0000_0000_0000) by (nonlinear_arith)
        requires
            -0x2_0000_0000 <= x <= 0x2_0000_0000,
    ;
    assert(0 <= y * y <= 0x4_0000_0000_0000_0000) by (nonlinear_arith)
        requires
            -0x2_0000_0000 <= y <= 0x2_0000_0000,
    ;
    let squared: u128 = (x as i128 * x as i128 + y as i128 * y as i128) as u128;
    let r = isqrt(squared);
    assert(r <= 0x4_0000_0000) by (nonlinear_arith)
        requires
            r * r <= 0x8_0000_0000_0000_0000,
            r >= 0,
    ;
    if -0x1_0000_0000 <= x && x <= 0x1_0000_0000 && -0x1_0000_0000 <= y && y <= 0x1_0000_0000 {
        assert(x * x <= 0x1_0000_0000_0000_0000) by (nonlinear_arith)
            requires
                -0x1_0000_0000 <= x <= 0x1_0000_0000,
        ;
        assert(y * y <= 0x1_0000_0000_0000_0000) by (nonlinear_arith)
            requires
                -0x1_0000_0000 <= y <= 0x1_0000_0000,
        ;
        assert(r <= 0x2_0000_0000) by (nonlinear_arith)
            requires
                r * r <= 0x2_0000_0000_0000_0000,
                r >= 0,
        ;
    }
    r
}

/// Point `i` of the path after the first pass.
fn first_pass_at(path: &Vec<Point>, i: usize, alpha: u32) -> (p: Point)
    requires
        i < path@.len(),
    ensures
        p == first_pass_point(path@, i as int, alpha),
{
    if i == 0 || i == path.len() - 1 {
        return path[i];
    }
    let current = point_first_deriv(i, path);
    let prev = point_first_deriv(i - 1, path);
    if is_nearly_straight(normalize(current), normalize(prev), alpha) {
        return path[i];
    }
    let dx: i64 = current.x - prev.x;
    let dy: i64 = current.y - prev.y;
    let length = length_of(current.x, current.y);
    let across = length_of(dx, dy);
    Point {
        x: to_coordinate(path[i].x as i128 + nudge(dx, length, across)),
        y: to_coordinate(path[i].y as i128 + nudge(dy, length, across)),
    }
}

/// Point `i` of the path after the second pass.
fn second_pass_at(path: &Vec<Point>, i: usize, beta: u32) -> (p: Point)
    requires
        i < path@.len(),
    ensures
        p == second_pass_point(path@, i as int, beta),
{
    if i == 0 || i == path.len() - 1 {
        return path[i];
    }
    let ahead = normalize(point_first_deriv(i, path));
    let behind = normalize(point_first_deriv(i - 1, path));
    assert(beta * beta <= 0xffff_ffff * 0xffff_ffff) by (nonlinear_arith)
        requires
            0 <= beta <= 0xffff_ffff,
    ;
    if ahead.distance_squared(&behind) >= (beta as u128) * (beta as u128) {
        let sum_x: i128 = path[i - 1].x as i128 + path[i].x as i128 + path[i + 1].x as i128;
        let sum_y: i128 = path[i - 1].y as i128 + path[i].y as i128 + path[i + 1].y as i128;
        let x = divide_toward_zero(sum_x, 3);
        let y = divide_toward_zero(sum_y, 3);
        assert(i32::MIN <= x <= i32::MAX && i32::MIN <= y <= i32::MAX);
        Point { x: x as i32, y: y as i32 }
    } else {
        path[i]
    }
}

/// Smooths a path in two passes. `alpha` and `beta` are the thresholds
/// of the first and of the second pass, in ten-thousandths. The result
/// has as many points as the path, and the same two ends.
pub fn smooth_path(path: Vec<Point>, alpha: u32, beta: u32) -> (out: Vec<Point>)
    ensures
        out@ == smoothed(path@, alpha, beta),
        out@.len() == path@.len(),
        path@.len() > 0 ==> out@[0] == path@[0] && out@[out@.len() - 1] == path@[path@.len() - 1],
{
    let mut first: Vec<Point> = Vec::new();
    let mut i: usize = 0;
    while i < path.len()
        invariant
            i <= path@.len(),
            first@.len() == i,
            forall|j: int| 0 <= j < i ==> #[trigger] first@[j] == first_pass_point(path@, j, alpha),
        decreases path@.len() - i,
    {
        first.push(first_pass_at(&path, i, alpha));
        i = i + 1;
    }
    assert(first@ =~= first_pass(path@, alpha));
    let mut out: Vec<Point> = Vec::new();
    let mut i: usize = 0;
    while i < first.len()
        invariant
            i <= first@.len(),
            out@.len() == i,
            forall|j: int| 0 <= j < i ==> #[trigger] out@[j] == second_pass_point(first@, j, beta),
        decreases first@.len() - i,
    {
        out.push(second_pass_at(&first, i, beta));
        i = i + 1;
    }
    assert(out@ =~= smoothed(path@, alpha, beta));
    out
}

} // verus!
