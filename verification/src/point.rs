//! Fixed-point points and the elementary measures on them.

use vstd::prelude::*;

verus! {

/// Number of length units in one grid cell.
pub const UNIT: u32 = 10_000;

/// Side length of the square grid, in cells.
pub const GRID_SIZE: u32 = 512;

/// Side length of the square grid, in length units.
pub const GRID_EXTENT: i32 = 5_120_000;

/// A position or displacement in the plane, in length units.
#[derive(Clone, Copy, Debug, PartialEq, Eq, Structural)]
pub struct Point {
    pub x: i32,
    pub y: i32,
}

/// Squared Euclidean distance between two positions.
pub open spec fn dist_sq(a: Point, b: Point) -> int {
    (a.x - b.x) * (a.x - b.x) + (a.y - b.y) * (a.y - b.y)
}

/// A squared distance between two positions is no larger than twice the
/// square of the coordinate range.
pub proof fn lemma_dist_sq_bound(a: Point, b: Point)
    ensures
        0 <= dist_sq(a, b) <= 0x2_0000_0000_0000_0000,
{
    let dx = a.x - b.x;
    let dy = a.y - b.y;
    assert(0 <= dx * dx <= 0x1_0000_0000_0000_0000) by (nonlinear_arith)
        requires
            -0x1_0000_0000 <= dx <= 0x1_0000_0000,
    ;
    assert(0 <= dy * dy <= 0x1_0000_0000_0000_0000) by (nonlinear_arith)
        requires
            -0x1_0000_0000 <= dy <= 0x1_0000_0000,
    ;
}

/// `r` is the integer part of the square root of `n`.
pub open spec fn is_floor_sqrt(n: int, r: int) -> bool {
    0 <= r && r * r <= n < (r + 1) * (r + 1)
}

/// The integer part of the square root of `n`.
pub open spec fn floor_sqrt(n: int) -> int {
    choose|r: int| is_floor_sqrt(n, r)
}

/// A number has one integer square root.
pub proof fn lemma_floor_sqrt(n: int, r: int)
    requires
        is_floor_sqrt(n, r),
    ensures
        floor_sqrt(n) == r,
{
    let s = floor_sqrt(n);
    assert(is_floor_sqrt(n, s));
    if s < r {
        assert((s + 1) * (s + 1) <= r * r) by (nonlinear_arith)
            requires
                0 <= s,
                s + 1 <= r,
        ;
    } else if r < s {
        assert((r + 1) * (r + 1) <= s * s) by (nonlinear_arith)
            requires
                0 <= r,
                r + 1 <= s,
        ;
    }
}

/// Every number that is not negative has an integer square root.
pub proof fn lemma_sqrt_exists(n: int)
    requires
        n >= 0,
    ensures
        is_floor_sqrt(n, floor_sqrt(n)),
    decreases n,
{
    if n == 0 {
        assert(is_floor_sqrt(0, 0));
    } else {
        lemma_sqrt_exists(n - 1);
        let r = floor_sqrt(n - 1);
        if (r + 1) * (r + 1) <= n {
            assert((r + 1) * (r + 1) == n);
            assert((r + 2) * (r + 2) > n) by (nonlinear_arith)
                requires
                    (r + 1) * (r + 1) == n,
                    r >= 0,
            ;
            assert(is_floor_sqrt(n, r + 1));
        } else {
            assert(is_floor_sqrt(n, r));
        }
    }
}

/// The square root of `n`, rounded up.
pub open spec fn ceil_sqrt(n: int) -> int {
    if floor_sqrt(n) * floor_sqrt(n) == n {
        floor_sqrt(n)
    } else {
        floor_sqrt(n) + 1
    }
}

/// The rounded-up square root of `n` is the least number whose square
/// reaches `n`.
pub proof fn lemma_ceil_sqrt(n: int, r: int)
    requires
        n >= 0,
        r >= 0,
        r * r >= n,
    ensures
        0 <= ceil_sqrt(n) <= r,
        ceil_sqrt(n) * ceil_sqrt(n) >= n,
{
    lemma_sqrt_exists(n);
    let f = floor_sqrt(n);
    if f * f != n {
        assert((f + 1) * (f + 1) > n);
        if r <= f {
            assert(r * r <= f * f) by (nonlinear_arith)
                requires
                    0 <= r <= f,
            ;
        }
    } else if r < f {
        assert(r * r < f * f) by (nonlinear_arith)
            requires
                0 <= r < f,
        ;
    }
}

/// The way from `a` to `c` is no longer than the way over `b`, with every
/// distance rounded up.
pub proof fn lemma_triangle(a: Point, b: Point, c: Point)
    ensures
        0 <= ceil_sqrt(dist_sq(a, c)) <= ceil_sqrt(dist_sq(a, b)) + ceil_sqrt(dist_sq(b, c)),
{
    let (x1, y1) = (b.x - a.x, b.y - a.y);
    let (x2, y2) = (c.x - b.x, c.y - b.y);
    let n1 = x1 * x1 + y1 * y1;
    let n2 = x2 * x2 + y2 * y2;
    let n3 = dist_sq(a, c);
    lemma_dist_sq_bound(a, b);
    lemma_dist_sq_bound(b, c);
    lemma_dist_sq_bound(a, c);
    assert(dist_sq(a, b) == n1) by (nonlinear_arith)
        requires
            dist_sq(a, b) == (a.x - b.x) * (a.x - b.x) + (a.y - b.y) * (a.y - b.y),
            n1 == x1 * x1 + y1 * y1,
            x1 == b.x - a.x,
            y1 == b.y - a.y,
    ;
    assert(dist_sq(b, c) == n2) by (nonlinear_arith)
        requires
            dist_sq(b, c) == (b.x - c.x) * (b.x - c.x) + (b.y - c.y) * (b.y - c.y),
            n2 == x2 * x2 + y2 * y2,
            x2 == c.x - b.x,
            y2 == c.y - b.y,
    ;
    lemma_sqrt_exists(n1);
    lemma_sqrt_exists(n2);
    let r1 = ceil_sqrt(n1);
    let r2 = ceil_sqrt(n2);
    assert(r1 >= 0 && r1 * r1 >= n1) by {
        let f = floor_sqrt(n1);
        if f * f != n1 {
            assert((f + 1) * (f + 1) > n1);
        }
    }
    assert(r2 >= 0 && r2 * r2 >= n2) by {
        let f = floor_sqrt(n2);
        if f * f != n2 {
            assert((f + 1) * (f + 1) > n2);
        }
    }
    let dot = x1 * x2 + y1 * y2;
    let cross = x1 * y2 - y1 * x2;
    // the squared way from `a` to `c`
    assert(n3 == n1 + n2 + 2 * dot) by (nonlinear_arith)
        requires
            n3 == (a.x - c.x) * (a.x - c.x) + (a.y - c.y) * (a.y - c.y),
            a.x - c.x == -(x1 + x2),
            a.y - c.y == -(y1 + y2),
            n1 == x1 * x1 + y1 * y1,
            n2 == x2 * x2 + y2 * y2,
            dot == x1 * x2 + y1 * y2,
    ;
    // the dot product is no larger than the product of the lengths
    let rr = r1 * r2;
    assert(rr >= 0) by (nonlinear_arith)
        requires
            rr == r1 * r2,
            r1 >= 0,
            r2 >= 0,
    ;
    if dot > rr {
        lemma_products(x1, y1, x2, y2);
        assert(cross * cross >= 0) by (nonlinear_arith);
        assert(dot * dot <= n1 * n2);
        assert(n1 * n2 <= (r1 * r1) * (r2 * r2)) by (nonlinear_arith)
            requires
                0 <= n1 <= r1 * r1,
                0 <= n2 <= r2 * r2,
        ;
        assert((r1 * r1) * (r2 * r2) == rr * rr) by (nonlinear_arith)
            requires
                rr == r1 * r2,
        ;
        assert(dot * dot > rr * rr) by (nonlinear_arith)
            requires
                dot > rr,
                rr >= 0,
        ;
    }
    assert((r1 + r2) * (r1 + r2) == r1 * r1 + 2 * rr + r2 * r2) by (nonlinear_arith)
        requires
            rr == r1 * r2,
    ;
    lemma_ceil_sqrt(n3, r1 + r2);
}

/// The squares of two vectors multiply to the squares of their dot and
/// cross products.
pub proof fn lemma_products(sx: int, sy: int, tx: int, ty: int)
    ensures
        (sx * sx + sy * sy) * (tx * tx + ty * ty) == (sx * tx + sy * ty) * (sx * tx + sy * ty) + (sx
            * ty - sy * tx) * (sx * ty - sy * tx),
{
    let (a, b, c, d) = (sx * sx, sy * sy, tx * tx, ty * ty);
    let (p, r, u, v) = (sx * tx, sy * ty, sx * ty, sy * tx);
    assert(p * p == a * c) by (nonlinear_arith)
        requires
            p == sx * tx,
            a == sx * sx,
            c == tx * tx,
    ;
    assert(r * r == b * d) by (nonlinear_arith)
        requires
            r == sy * ty,
            b == sy * sy,
            d == ty * ty,
    ;
    assert(u * u == a * d) by (nonlinear_arith)
        requires
            u == sx * ty,
            a == sx * sx,
            d == ty * ty,
    ;
    assert(v * v == b * c) by (nonlinear_arith)
        requires
            v == sy * tx,
            b == sy * sy,
            c == tx * tx,
    ;
    assert(p * r == u * v) by (nonlinear_arith)
        requires
            p == sx * tx,
            r == sy * ty,
            u == sx * ty,
            v == sy * tx,
    ;
    assert((p + r) * (p + r) == p * p + 2 * (p * r) + r * r) by (nonlinear_arith);
    assert((u - v) * (u - v) == u * u - 2 * (u * v) + v * v) by (nonlinear_arith);
    assert((a + b) * (c + d) == a * c + a * d + b * c + b * d) by (nonlinear_arith);
}

/// `v` limited to the closed range from `lo` to `hi`.
pub open spec fn clamp_int(v: int, lo: int, hi: int) -> int {
    if v < lo {
        lo
    } else if v > hi {
        hi
    } else {
        v
    }
}

/// `subject` moved, coordinate by coordinate, into the bounding box of
/// `p_0` and `p_1`.
pub open spec fn clamped_between(p_0: Point, p_1: Point, subject: Point) -> Point {
    Point {
        x: clamp_int(
            subject.x as int,
            if p_0.x <= p_1.x { p_0.x as int } else { p_1.x as int },
            if p_0.x <= p_1.x { p_1.x as int } else { p_0.x as int },
        ) as i32,
        y: clamp_int(
            subject.y as int,
            if p_0.y <= p_1.y { p_0.y as int } else { p_1.y as int },
            if p_0.y <= p_1.y { p_1.y as int } else { p_0.y as int },
        ) as i32,
    }
}

/// Whether the position lies on the grid, borders included.
pub open spec fn on_grid(p: Point) -> bool {
    0 <= p.x <= GRID_EXTENT && 0 <= p.y <= GRID_EXTENT
}

/// The integer part of the square root of `n`.
pub fn isqrt(n: u128) -> (r: u64)
    ensures
        is_floor_sqrt(n as int, r as int),
        r == floor_sqrt(n as int),
{
    let mut lo: u128 = 0;
    let mut hi: u128 = 0x1_0000_0000_0000_0000;
    assert(hi * hi > n) by (nonlinear_arith)
        requires
            hi == 0x1_0000_0000_0000_0000,
            n <= 0xffff_ffff_ffff_ffff_ffff_ffff_ffff_ffff,
    ;
    while hi - lo > 1
        invariant
            lo < hi <= 0x1_0000_0000_0000_0000,
            lo * lo <= n,
            n < hi * hi,
        decreases hi - lo,
    {
        let mid: u128 = lo + (hi - lo) / 2;
        assert(mid * mid <= 0xffff_ffff_ffff_ffff * 0xffff_ffff_ffff_ffff) by (nonlinear_arith)
            requires
                0 <= mid <= 0xffff_ffff_ffff_ffff,
        ;
        if mid * mid <= n {
            lo = mid;
        } else {
            hi = mid;
        }
    }
    proof {
        lemma_floor_sqrt(n as int, lo as int);
    }
    lo as u64
}

impl Point {
    pub fn new(x: i32, y: i32) -> (p: Point)
        ensures
            p == (Point { x, y }),
    {
        Point { x, y }
    }

    /// Squared distance to `other`.
    pub fn distance_squared(&self, other: &Point) -> (d: u128)
        ensures
            d == dist_sq(*self, *other),
            d <= 0x2_0000_0000_0000_0000,
    {
        let dx: i64 = self.x as i64 - other.x as i64;
        let dy: i64 = self.y as i64 - other.y as i64;
        assert(0 <= dx * dx <= 0x1_0000_0000_0000_0000) by (nonlinear_arith)
            requires
                -0x1_0000_0000 <= dx <= 0x1_0000_0000,
        ;
        assert(0 <= dy * dy <= 0x1_0000_0000_0000_0000) by (nonlinear_arith)
            requires
                -0x1_0000_0000 <= dy <= 0x1_0000_0000,
        ;
        let sx: i128 = dx as i128 * dx as i128;
        let sy: i128 = dy as i128 * dy as i128;
        (sx + sy) as u128
    }

    /// Distance to `other`, rounded down to a whole unit.
    pub fn distance(&self, other: &Point) -> (d: u64)
        ensures
            d == floor_sqrt(dist_sq(*self, *other)),
            is_floor_sqrt(dist_sq(*self, *other), d as int),
    {
        isqrt(self.distance_squared(other))
    }

    /// Distance to `other`, rounded up to a whole unit.
    pub fn distance_up(&self, other: &Point) -> (d: u64)
        ensures
            d == ceil_sqrt(dist_sq(*self, *other)),
            d <= 0x2_0000_0000,
    {
        let squared = self.distance_squared(other);
        let r = isqrt(squared);
        assert(r < 0x2_0000_0000) by (nonlinear_arith)
            requires
                r * r <= 0x2_0000_0000_0000_0000,
                r >= 0,
        ;
        assert(r * r <= 0x2_0000_0000 * 0x2_0000_0000) by (nonlinear_arith)
            requires
                0 <= r < 0x2_0000_0000,
        ;
        if (r as u128) * (r as u128) == squared {
            r
        } else {
            r + 1
        }
    }

    /// Whether the position lies on the grid, borders included.
    pub fn is_on_grid(&self) -> (b: bool)
        ensures
            b == on_grid(*self),
    {
        0 <= self.x && self.x <= GRID_EXTENT && 0 <= self.y && self.y <= GRID_EXTENT
    }
}

/// Moves `subject`, coordinate by coordinate, into the bounding box of
/// `p_0` and `p_1`.
pub fn clamp_vector_between_points(p_0: Point, p_1: Point, subject: Point) -> (r: Point)
    ensures
        r == clamped_between(p_0, p_1, subject),
{
    let (min_x, max_x) = if p_0.x <= p_1.x { (p_0.x, p_1.x) } else { (p_1.x, p_0.x) };
    let (min_y, max_y) = if p_0.y <= p_1.y { (p_0.y, p_1.y) } else { (p_1.y, p_0.y) };
    let x = if subject.x < min_x { min_x } else if subject.x > max_x { max_x } else { subject.x };
    let y = if subject.y < min_y { min_y } else if subject.y > max_y { max_y } else { subject.y };
    Point { x, y }
}

/// Moves `vec` onto the grid, coordinate by coordinate.
pub fn clamp_vec_to_grid(vec: Point) -> (r: Point)
    ensures
        r == clamped_between(Point { x: 0, y: 0 }, Point { x: GRID_EXTENT, y: GRID_EXTENT }, vec),
        on_grid(r),
{
    clamp_vector_between_points(
        Point { x: 0, y: 0 },
        Point { x: GRID_EXTENT, y: GRID_EXTENT },
        vec,
    )
}

} // verus!
