//! The tensor of the field at a point: a symmetric two-by-two matrix
//! without trace, composed of the contributions of the design elements,
//! and its principal directions.

use vstd::prelude::*;
use crate::curve::{div_toward_zero, divide_toward_zero, Velocity};
use crate::direction::{
    abs, is_step, lemma_unit_vector_is_unit, normalize, unit_vector,
};
use crate::point::{
    clamp_int, floor_sqrt, is_floor_sqrt, isqrt, lemma_floor_sqrt, lemma_sqrt_exists, Point, UNIT,
};
use crate::seeds::{is_degenerate, DEGENERATE_NORM};

verus! {

/// The matrix with the rows `(a, b)` and `(b, -a)`.
#[derive(Clone, Copy, Debug, PartialEq, Eq, Structural)]
pub struct Tensor {
    pub a: i32,
    pub b: i32,
}

/// The principal directions of a tensor, as unit vectors in
/// ten-thousandths.
#[derive(Clone, Copy, Debug, PartialEq, Eq, Structural)]
pub struct Eigenvectors {
    pub major: Point,
    pub minor: Point,
}

/// The tensor of one design element at a point, and the weight with
/// which it counts there, in ten-thousandths.
#[derive(Clone, Copy, Debug, PartialEq, Eq, Structural)]
pub struct Contribution {
    pub tensor: Tensor,
    pub weight: u32,
}

/// The entry of the tensor in the given row and column, each 0 or 1.
pub open spec fn entry(t: Tensor, row: int, column: int) -> int {
    if row != column {
        t.b as int
    } else if row == 0 {
        t.a as int
    } else {
        -t.a
    }
}

/// The size of the tensor, rounded down: the square root of the sum of
/// the squares of one of its rows.
pub open spec fn norm_of(t: Tensor) -> int {
    floor_sqrt(t.a * t.a + t.b * t.b)
}

/// A vector along the major eigenvector of the tensor: the eigenvector
/// of the eigenvalue that is not negative. It is the zero vector for the
/// zero tensor only.
pub open spec fn principal(t: Tensor) -> Velocity {
    if t.a >= 0 {
        Velocity { x: (norm_of(t) + t.a) as i64, y: t.b as i64 }
    } else {
        Velocity { x: t.b as i64, y: (norm_of(t) - t.a) as i64 }
    }
}

/// The major unit eigenvector.
pub open spec fn major_of(t: Tensor) -> Point {
    unit_vector(principal(t))
}

/// The minor unit eigenvector: the major one turned by a right angle.
pub open spec fn minor_of(t: Tensor) -> Point {
    Point { x: (-major_of(t).y) as i32, y: major_of(t).x }
}

/// The sum of the first `k` contributions, each entry weighted and
/// rounded toward zero.
pub open spec fn weighted_sum(contributions: Seq<Contribution>, k: int) -> (int, int)
    decreases k,
{
    if k <= 0 {
        (0, 0)
    } else {
        let before = weighted_sum(contributions, k - 1);
        let c = contributions[k - 1];
        (
            before.0 + div_toward_zero(c.tensor.a * c.weight, UNIT as int),
            before.1 + div_toward_zero(c.tensor.b * c.weight, UNIT as int),
        )
    }
}

/// The tensor that the contributions compose: their weighted sum, with
/// an entry beyond the range of an entry set to the end of the range.
pub open spec fn composed(contributions: Seq<Contribution>) -> Tensor {
    let sum = weighted_sum(contributions, contributions.len() as int);
    Tensor {
        a: clamp_int(sum.0, -(i32::MAX as int), i32::MAX as int) as i32,
        b: clamp_int(sum.1, -(i32::MAX as int), i32::MAX as int) as i32,
    }
}

/// One entry, weighted.
fn weigh(entry: i32, weight: u32) -> (r: i128)
    ensures
        r == div_toward_zero(entry * weight, UNIT as int),
        -0x8000_0000_0000_0000 <= r <= 0x8000_0000_0000_0000,
{
    assert(-0x8000_0000_0000_0000 <= entry * weight <= 0x8000_0000_0000_0000) by (nonlinear_arith)
        requires
            -0x8000_0000 <= entry <= 0x8000_0000,
            0 <= weight <= 0x1_0000_0000,
    ;
    let product: i128 = entry as i128 * weight as i128;
    proof {
        if product >= 0 {
            vstd::arithmetic::div_mod::lemma_div_pos_is_pos(product as int, 10_000);
            vstd::arithmetic::div_mod::lemma_div_is_ordered_by_denominator(product as int, 1, 10_000);
        } else {
            vstd::arithmetic::div_mod::lemma_div_pos_is_pos(-product, 10_000);
            vstd::arithmetic::div_mod::lemma_div_is_ordered_by_denominator(-product, 1, 10_000);
        }
    }
    divide_toward_zero(product, UNIT as i128)
}

/// A sum as an entry of a tensor.
fn to_entry(v: i128) -> (e: i32)
    ensures
        e == clamp_int(v as int, -(i32::MAX as int), i32::MAX as int),
{
    if v < -(i32::MAX as i128) {
        -i32::MAX
    } else if v > i32::MAX as i128 {
        i32::MAX
    } else {
        v as i32
    }
}

impl Tensor {
    /// The tensor that the contributions of the design elements compose
    /// at a point.
    pub fn compose(contributions: &Vec<Contribution>) -> (t: Tensor)
        ensures
            t == composed(contributions@),
    {
        let n = contributions.len();
        let mut a: i128 = 0;
        let mut b: i128 = 0;
        let mut k: usize = 0;
        while k < n
            invariant
                k <= n,
                n == contributions@.len(),
                (a as int, b as int) == weighted_sum(contributions@, k as int),
                -k * 0x8000_0000_0000_0000 <= a <= k * 0x8000_0000_0000_0000,
                -k * 0x8000_0000_0000_0000 <= b <= k * 0x8000_0000_0000_0000,
            decreases n - k,
        {
            let c = contributions[k];
            proof {
                assert(k * 0x8000_0000_0000_0000 <= 0xffff_ffff_ffff_ffff * 0x8000_0000_0000_0000)
                    by (nonlinear_arith)
                    requires
                        k <= 0xffff_ffff_ffff_ffff,
                ;
                assert((k + 1) * 0x8000_0000_0000_0000 == k * 0x8000_0000_0000_0000
                    + 0x8000_0000_0000_0000) by (nonlinear_arith);
            }
            a = a + weigh(c.tensor.a, c.weight);
            b = b + weigh(c.tensor.b, c.weight);
            k = k + 1;
        }
        Tensor { a: to_entry(a), b: to_entry(b) }
    }

    /// The rows of the matrix.
    pub fn rows(&self) -> (m: ((i64, i64), (i64, i64)))
        ensures
            m.0.0 == entry(*self, 0, 0),
            m.0.1 == entry(*self, 0, 1),
            m.1.0 == entry(*self, 1, 0),
            m.1.1 == entry(*self, 1, 1),
    {
        ((self.a as i64, self.b as i64), (self.b as i64, -(self.a as i64)))
    }

    /// The size of the tensor, rounded down.
    pub fn norm(&self) -> (n: u64)
        ensures
            n == norm_of(*self),
            n <= 0xb504_f334,
    {
        assert(0 <= self.a * self.a <= 0x4000_0000_0000_0000) by (nonlinear_arith)
            requires
                -0x8000_0000 <= self.a <= 0x8000_0000,
        ;
        assert(0 <= self.b * self.b <= 0x4000_0000_0000_0000) by (nonlinear_arith)
            requires
                -0x8000_0000 <= self.b <= 0x8000_0000,
        ;
        let a: i128 = self.a as i128;
        let b: i128 = self.b as i128;
        let squared: u128 = (a * a + b * b) as u128;
        let n = isqrt(squared);
        assert(n <= 0xb504_f334) by (nonlinear_arith)
            requires
                n * n <= 0x8000_0000_0000_0000,
                n >= 0,
        ;
        n
    }

    /// Whether the field is degenerate where this tensor is its value:
    /// the size of the tensor is a ten-thousandth or less, and the
    /// principal directions mean nothing.
    pub fn is_degenerate(&self) -> (b: bool)
        ensures
            b == is_degenerate(norm_of(*self) as u32),
    {
        self.norm() <= DEGENERATE_NORM as u64
    }

    /// The principal directions of the tensor. For the zero tensor both
    /// are the zero vector.
    pub fn eigenvectors(&self) -> (e: Eigenvectors)
        ensures
            e.major == major_of(*self),
            e.minor == minor_of(*self),
    {
        let lambda = self.norm() as i64;
        let along = if self.a >= 0 {
            Velocity { x: lambda + self.a as i64, y: self.b as i64 }
        } else {
            Velocity { x: self.b as i64, y: lambda - self.a as i64 }
        };
        let major = normalize(along);
        Eigenvectors { major, minor: Point { x: -major.y, y: major.x } }
    }
}

/// A tensor equals its transpose, and its size is not negative.
pub proof fn lemma_tensor_symmetric(t: Tensor)
    ensures
        entry(t, 0, 1) == entry(t, 1, 0),
        entry(t, 0, 0) + entry(t, 1, 1) == 0,
        norm_of(t) >= 0,
{
    assert(t.a * t.a + t.b * t.b >= 0) by (nonlinear_arith);
    lemma_sqrt_exists(t.a * t.a + t.b * t.b);
}

/// A tensor along the first axis has the axes as its directions,
/// whatever its size: the major direction of a grid that is not turned
/// is the first axis.
pub proof fn lemma_axis_directions(t: Tensor)
    requires
        t.a > 0,
        t.b == 0,
    ensures
        major_of(t) == (Point { x: 10_000, y: 0 }),
        minor_of(t) == (Point { x: 0, y: 10_000 }),
{
    let a = t.a as int;
    assert(is_floor_sqrt(a * a + 0 * 0, a)) by (nonlinear_arith)
        requires
            a > 0,
    ;
    lemma_floor_sqrt(t.a * t.a + t.b * t.b, a);
    let along = principal(t);
    assert(along.x == 2 * a && along.y == 0);
    let length = 2 * a * 10_000;
    let square = (along.x * along.x + along.y * along.y) * (UNIT * UNIT);
    assert(is_floor_sqrt(square, length)) by (nonlinear_arith)
        requires
            square == ((2 * a) * (2 * a) + 0 * 0) * (10_000 * 10_000),
            length == 2 * a * 10_000,
            a > 0,
    ;
    lemma_floor_sqrt(square, length);
    assert(along.x * (UNIT * UNIT) == length * 10_000) by (nonlinear_arith)
        requires
            along.x == 2 * a,
            length == 2 * a * 10_000,
            UNIT == 10_000,
    ;
    vstd::arithmetic::div_mod::lemma_div_multiples_vanish(10_000, length);
    assert(along.x * (UNIT * UNIT) >= 0);
    assert(along.y * (UNIT * UNIT) == 0);
    assert(0int / length == 0) by {
        vstd::arithmetic::div_mod::lemma_div_multiples_vanish(0, length);
        assert(length * 0 == 0) by (nonlinear_arith);
    }
}

/// The principal vector of a tensor that is not zero has length.
proof fn lemma_principal_has_length(t: Tensor)
    requires
        t.a != 0 || t.b != 0,
    ensures
        principal(t).x != 0 || principal(t).y != 0,
        is_step(principal(t)),
{
    let s = t.a * t.a + t.b * t.b;
    assert(0 <= t.a * t.a <= 0x4000_0000_0000_0000) by (nonlinear_arith)
        requires
            -0x8000_0000 <= t.a <= 0x8000_0000,
    ;
    assert(0 <= t.b * t.b <= 0x4000_0000_0000_0000) by (nonlinear_arith)
        requires
            -0x8000_0000 <= t.b <= 0x8000_0000,
    ;
    lemma_sqrt_exists(s);
    let n = norm_of(t);
    assert(is_floor_sqrt(s, n));
    assert(n <= 0xb504_f334) by (nonlinear_arith)
        requires
            n * n <= 0x8000_0000_0000_0000,
            n >= 0,
    ;
    if t.a == 0 {
        assert(t.b != 0);
    }
}

/// The principal directions of a tensor that is not zero are at right
/// angles, and each is a unit vector up to rounding: shorter than one
/// and a ten-thousandth, and longer than one once both of its
/// coordinates grow by a ten-thousandth.
pub proof fn lemma_eigenvectors_orthonormal(t: Tensor)
    requires
        t.a != 0 || t.b != 0,
    ensures
        ({
            let major = major_of(t);
            let minor = minor_of(t);
            &&& major.x * minor.x + major.y * minor.y == 0
            &&& major.x * major.x + major.y * major.y < (UNIT + 1) * (UNIT + 1)
            &&& minor.x * minor.x + minor.y * minor.y < (UNIT + 1) * (UNIT + 1)
            &&& (abs(major.x as int) + 1) * (abs(major.x as int) + 1) + (abs(major.y as int) + 1) * (
            abs(major.y as int) + 1) > UNIT * UNIT
            &&& (abs(minor.x as int) + 1) * (abs(minor.x as int) + 1) + (abs(minor.y as int) + 1) * (
            abs(minor.y as int) + 1) > UNIT * UNIT
        }),
{
    lemma_principal_has_length(t);
    lemma_unit_vector_is_unit(principal(t));
    let major = major_of(t);
    let minor = minor_of(t);
    assert(major.x * major.x + major.y * major.y < 100_020_001);
    assert(-10_001 < major.y < 10_001) by (nonlinear_arith)
        requires
            major.x * major.x + major.y * major.y < 100_020_001,
    ;
    assert(minor.x == -major.y && minor.y == major.x);
    assert(major.x * minor.x + major.y * minor.y == 0) by (nonlinear_arith)
        requires
            minor.x == -major.y,
            minor.y == major.x,
    ;
    assert(minor.x * minor.x == major.y * major.y) by (nonlinear_arith)
        requires
            minor.x == -major.y,
    ;
}

} // verus!
