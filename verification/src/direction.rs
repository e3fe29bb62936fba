//! Directions along a path: differences of neighbouring points, unit
//! vectors in ten-thousandths, and the curvature measured from them.

use vstd::prelude::*;
use crate::curve::{div_toward_zero, divide_toward_zero, Velocity};
use crate::point::{
    clamp_int, dist_sq, floor_sqrt, is_floor_sqrt, isqrt, lemma_floor_sqrt, lemma_sqrt_exists,
    Point, UNIT,
};

verus! {

/// The step from point `i` of the path to the next.
pub open spec fn first_deriv(path: Seq<Point>, i: int) -> Velocity {
    Velocity { x: (path[i + 1].x - path[i].x) as i64, y: (path[i + 1].y - path[i].y) as i64 }
}

/// The length of `d`, in ten-thousandths of a unit, rounded down.
pub open spec fn fine_length(d: Velocity) -> int {
    floor_sqrt((d.x * d.x + d.y * d.y) * (UNIT * UNIT))
}

/// One coordinate of the unit vector along a vector of the given fine
/// length: zero for a vector without length, and never beyond one.
pub open spec fn unit_coordinate(c: int, length: int) -> int {
    if length == 0 {
        0
    } else {
        clamp_int(div_toward_zero(c * (UNIT * UNIT), length), -(UNIT as int), UNIT as int)
    }
}

/// The unit vector along `d`, in ten-thousandths; the zero vector for a
/// `d` without length.
pub open spec fn unit_vector(d: Velocity) -> Point {
    Point {
        x: unit_coordinate(d.x as int, fine_length(d)) as i32,
        y: unit_coordinate(d.y as int, fine_length(d)) as i32,
    }
}

/// The change of direction at point `i` of the path: the unit vector of
/// the step that leaves it less the unit vector of the step that
/// reaches it.
pub open spec fn second_deriv(path: Seq<Point>, i: int) -> Point {
    let ahead = unit_vector(first_deriv(path, i));
    let behind = unit_vector(first_deriv(path, i - 1));
    Point { x: (ahead.x - behind.x) as i32, y: (ahead.y - behind.y) as i32 }
}

/// The curvature at point `i` of the path: the squared size of the
/// change of direction.
pub open spec fn curvature_at(path: Seq<Point>, i: int) -> int {
    dist_sq(unit_vector(first_deriv(path, i)), unit_vector(first_deriv(path, i - 1)))
}

/// The vector is small enough for its direction to be taken: twice a
/// difference of two positions at most.
pub open spec fn is_step(d: Velocity) -> bool {
    -0x2_0000_0000 <= d.x <= 0x2_0000_0000 && -0x2_0000_0000 <= d.y <= 0x2_0000_0000
}

/// The step from point `point_index` of the path to the next.
pub fn point_first_deriv(point_index: usize, path: &Vec<Point>) -> (d: Velocity)
    requires
        point_index + 1 < path@.len(),
    ensures
        d == first_deriv(path@, point_index as int),
        is_step(d),
{
    let n = path.len();
    let next = path[point_index + 1];
    let here = path[point_index];
    Velocity { x: next.x as i64 - here.x as i64, y: next.y as i64 - here.y as i64 }
}

/// One coordinate of a unit vector.
fn normalize_coordinate(c: i64, length: u64) -> (u: i32)
    requires
        -0x2_0000_0000 <= c <= 0x2_0000_0000,
    ensures
        u == unit_coordinate(c as int, length as int),
        -(UNIT as int) <= u <= UNIT as int,
{
    if length == 0 {
        return 0;
    }
    let scaled: i128 = c as i128 * 100_000_000;
    let q = divide_toward_zero(scaled, length as i128);
    assert(c * (UNIT * UNIT) == scaled);
    if q < -(UNIT as i128) {
        -(UNIT as i32)
    } else if q > UNIT as i128 {
        UNIT as i32
    } else {
        q as i32
    }
}

/// The unit vector along `d`, in ten-thousandths.
pub fn normalize(d: Velocity) -> (u: Point)
    requires
        is_step(d),
    ensures
        u == unit_vector(d),
        -(UNIT as int) <= u.x <= UNIT as int,
        -(UNIT as int) <= u.y <= UNIT as int,
{
    assert(0 <= d.x * d.x <= 0x2_0000_0000 * 0x2_0000_0000) by (nonlinear_arith)
        requires
            -0x2_0000_0000 <= d.x <= 0x2_0000_0000,
    ;
    assert(0 <= d.y * d.y <= 0x2_0000_0000 * 0x2_0000_0000) by (nonlinear_arith)
        requires
            -0x2_0000_0000 <= d.y <= 0x2_0000_0000,
    ;
    let squared: u128 = (d.x as i128 * d.x as i128 + d.y as i128 * d.y as i128) as u128;
    let length = isqrt(squared * 100_000_000);
    proof {
        assert(UNIT * UNIT == 100_000_000);
        lemma_floor_sqrt((d.x * d.x + d.y * d.y) * (UNIT * UNIT), length as int);
    }
    Point { x: normalize_coordinate(d.x, length), y: normalize_coordinate(d.y, length) }
}

/// The change of direction at point `point_index` of the path.
pub fn point_second_deriv(point_index: usize, path: &Vec<Point>) -> (change: Point)
    requires
        0 < point_index,
        point_index + 1 < path@.len(),
    ensures
        change == second_deriv(path@, point_index as int),
{
    let ahead = normalize(point_first_deriv(point_index, path));
    let behind = normalize(point_first_deriv(point_index - 1, path));
    Point { x: ahead.x - behind.x, y: ahead.y - behind.y }
}

/// The curvature at point `point_index` of the path.
pub fn curvature(point_index: usize, path: &Vec<Point>) -> (k: u64)
    requires
        0 < point_index,
        point_index + 1 < path@.len(),
    ensures
        k == curvature_at(path@, point_index as int),
{
    let ahead = normalize(point_first_deriv(point_index, path));
    let behind = normalize(point_first_deriv(point_index - 1, path));
    let k = ahead.distance_squared(&behind);
    assert(k <= 800_000_000) by (nonlinear_arith)
        requires
            k == (ahead.x - behind.x) * (ahead.x - behind.x) + (ahead.y - behind.y) * (ahead.y
                - behind.y),
            -10_000 <= ahead.x <= 10_000,
            -10_000 <= ahead.y <= 10_000,
            -10_000 <= behind.x <= 10_000,
            -10_000 <= behind.y <= 10_000,
    ;
    k as u64
}

/// The size of `v`.
pub open spec fn abs(v: int) -> int {
    if v < 0 {
        -v
    } else {
        v
    }
}

/// A quotient toward zero, times the divisor, is no larger in size than
/// what was divided, and less than a divisor smaller.
proof fn lemma_quotient_brackets(num: int, den: int)
    requires
        den > 0,
    ensures
        abs(div_toward_zero(num, den)) * den <= abs(num) < (abs(div_toward_zero(num, den)) + 1)
            * den,
{
    let n = abs(num);
    let q = n / den;
    assert(abs(div_toward_zero(num, den)) == q) by {
        vstd::arithmetic::div_mod::lemma_div_pos_is_pos(n, den);
    }
    vstd::arithmetic::div_mod::lemma_fundamental_div_mod(n, den);
    vstd::arithmetic::div_mod::lemma_mod_bound(n, den);
    assert(q * den == den * q) by (nonlinear_arith);
    assert((q + 1) * den == den * q + den) by (nonlinear_arith);
}

/// The unit vector along a vector with length is a unit vector up to
/// rounding: it is shorter than one and a ten-thousandth, and it comes to
/// more than one when both of its coordinates grow by a ten-thousandth.
pub proof fn lemma_unit_vector_is_unit(d: Velocity)
    requires
        is_step(d),
        d.x != 0 || d.y != 0,
    ensures
        ({
            let u = unit_vector(d);
            &&& u.x * u.x + u.y * u.y < (UNIT + 1) * (UNIT + 1)
            &&& (abs(u.x as int) + 1) * (abs(u.x as int) + 1) + (abs(u.y as int) + 1) * (abs(
                u.y as int,
            ) + 1) > UNIT * UNIT
            &&& (d.x >= 0 ==> u.x >= 0) && (d.x <= 0 ==> u.x <= 0)
            &&& (d.y >= 0 ==> u.y >= 0) && (d.y <= 0 ==> u.y <= 0)
        }),
{
    let unit = UNIT as int;
    let s = d.x * d.x + d.y * d.y;
    let scale = unit * unit;
    let length = fine_length(d);
    // the fine length brackets the true length
    assert(s >= 1) by (nonlinear_arith)
        requires
            s == d.x * d.x + d.y * d.y,
            d.x != 0 || d.y != 0,
    ;
    assert(s * scale >= 0) by (nonlinear_arith)
        requires
            s >= 1,
            scale == 100_000_000,
    ;
    lemma_sqrt_exists(s * scale);
    assert(is_floor_sqrt(s * scale, length));
    assert(length >= unit) by (nonlinear_arith)
        requires
            (length + 1) * (length + 1) > s * scale,
            s >= 1,
            scale == unit * unit,
            unit == 10_000,
            length >= 0,
    ;
    let qx = div_toward_zero(d.x * scale, length);
    let qy = div_toward_zero(d.y * scale, length);
    lemma_quotient_brackets(d.x * scale, length);
    lemma_quotient_brackets(d.y * scale, length);
    let ax = abs(qx);
    let ay = abs(qy);
    let mx = abs(d.x as int);
    let my = abs(d.y as int);
    assert(abs(d.x * scale) == mx * scale && abs(d.y * scale) == my * scale) by (nonlinear_arith)
        requires
            scale == 100_000_000,
            mx == abs(d.x as int),
            my == abs(d.y as int),
    ;
    assert(mx * mx + my * my == s) by (nonlinear_arith)
        requires
            mx == abs(d.x as int),
            my == abs(d.y as int),
            s == d.x * d.x + d.y * d.y,
    ;
    // upper bound: (ax^2 + ay^2) * length^2 <= s * scale^2 < (length + 1)^2 * unit^2
    lemma_square_le(ax * length, mx * scale);
    lemma_square_le(ay * length, my * scale);
    lemma_square_of_product(ax, length);
    lemma_square_of_product(ay, length);
    lemma_square_of_product(mx, scale);
    lemma_square_of_product(my, scale);
    lemma_distribute(ax * ax, ay * ay, length * length);
    lemma_distribute(mx * mx, my * my, scale * scale);
    assert((ax * ax + ay * ay) * (length * length) <= s * (scale * scale));
    assert(ax * ax + ay * ay < (unit + 1) * (unit + 1)) by (nonlinear_arith)
        requires
            (ax * ax + ay * ay) * (length * length) <= s * (scale * scale),
            s * scale < (length + 1) * (length + 1),
            scale == unit * unit,
            length >= unit,
            unit == 10_000,
            ax >= 0,
            ay >= 0,
    {
        // s * scale^2 < (length + 1)^2 * unit^2 <= (unit + 1)^2 * length^2
        assert(s * (scale * scale) < ((length + 1) * (length + 1)) * (unit * unit));
        assert((length + 1) * unit <= (unit + 1) * length);
        assert(((length + 1) * unit) * ((length + 1) * unit) <= ((unit + 1) * length) * ((unit + 1)
            * length));
        assert((ax * ax + ay * ay) * (length * length) < ((unit + 1) * (unit + 1)) * (length
            * length));
    }
    // so neither coordinate is clamped
    assert(ax <= unit && ay <= unit) by (nonlinear_arith)
        requires
            ax * ax + ay * ay < (unit + 1) * (unit + 1),
            ax >= 0,
            ay >= 0,
            unit == 10_000,
    ;
    let u = unit_vector(d);
    assert(u.x == qx && u.y == qy);
    assert(u.x * u.x == ax * ax && u.y * u.y == ay * ay) by (nonlinear_arith)
        requires
            ax == abs(u.x as int),
            ay == abs(u.y as int),
    ;
    // lower bound: ((ax + 1)^2 + (ay + 1)^2) * length^2 > s * scale^2 >= length^2 * unit^2
    assert(mx * scale >= 0 && my * scale >= 0) by (nonlinear_arith)
        requires
            mx >= 0,
            my >= 0,
            scale == 100_000_000,
    ;
    lemma_square_lt(mx * scale, (ax + 1) * length);
    lemma_square_lt(my * scale, (ay + 1) * length);
    lemma_square_of_product(ax + 1, length);
    lemma_square_of_product(ay + 1, length);
    lemma_distribute((ax + 1) * (ax + 1), (ay + 1) * (ay + 1), length * length);
    assert(((ax + 1) * (ax + 1) + (ay + 1) * (ay + 1)) * (length * length) > s * (scale * scale));
    assert((ax + 1) * (ax + 1) + (ay + 1) * (ay + 1) > unit * unit) by (nonlinear_arith)
        requires
            ((ax + 1) * (ax + 1) + (ay + 1) * (ay + 1)) * (length * length) > s * (scale * scale),
            length * length <= s * scale,
            scale == unit * unit,
            length > 0,
            s >= 1,
            unit == 10_000,
    {
        assert(s * (scale * scale) >= (length * length) * (unit * unit));
    }
    // signs
    assert(d.x >= 0 ==> d.x * scale >= 0) by (nonlinear_arith)
        requires
            scale == 100_000_000,
    ;
    assert(d.x <= 0 ==> d.x * scale <= 0) by (nonlinear_arith)
        requires
            scale == 100_000_000,
    ;
    assert(d.y >= 0 ==> d.y * scale >= 0) by (nonlinear_arith)
        requires
            scale == 100_000_000,
    ;
    assert(d.y <= 0 ==> d.y * scale <= 0) by (nonlinear_arith)
        requires
            scale == 100_000_000,
    ;
    if d.x * scale >= 0 {
        vstd::arithmetic::div_mod::lemma_div_pos_is_pos(d.x * scale, length);
    } else {
        vstd::arithmetic::div_mod::lemma_div_pos_is_pos(-(d.x * scale), length);
    }
    if d.y * scale >= 0 {
        vstd::arithmetic::div_mod::lemma_div_pos_is_pos(d.y * scale, length);
    } else {
        vstd::arithmetic::div_mod::lemma_div_pos_is_pos(-(d.y * scale), length);
    }
}

proof fn lemma_square_le(a: int, b: int)
    requires
        0 <= a <= b,
    ensures
        a * a <= b * b,
{
    assert(a * a <= b * b) by (nonlinear_arith)
        requires
            0 <= a <= b,
    ;
}

proof fn lemma_square_lt(a: int, b: int)
    requires
        0 <= a < b,
    ensures
        a * a < b * b,
{
    assert(a * a < b * b) by (nonlinear_arith)
        requires
            0 <= a < b,
    ;
}

proof fn lemma_square_of_product(a: int, b: int)
    ensures
        (a * b) * (a * b) == (a * a) * (b * b),
{
    assert((a * b) * (a * b) == (a * a) * (b * b)) by (nonlinear_arith);
}

proof fn lemma_distribute(a: int, b: int, c: int)
    ensures
        (a + b) * c == a * c + b * c,
{
    assert((a + b) * c == a * c + b * c) by (nonlinear_arith);
}

} // verus!
