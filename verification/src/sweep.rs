//! The height-dependent order of segments under a horizontal sweep line.
//!
//! A segment's key at a sweep height is the x-coordinate at which the line
//! through the segment crosses that height. The key is an exact rational;
//! a horizontal segment has no key.

use vstd::prelude::*;
use crate::point::Point;

verus! {

/// One edge of a curve or graph: a pair of end points.
#[derive(Clone, Copy, Debug, PartialEq, Eq, Structural)]
pub struct Segment {
    pub start: Point,
    pub end: Point,
}

/// Result of comparing two entries of the sweep structure.
#[derive(Clone, Copy, Debug, PartialEq, Eq, Structural)]
pub enum SweepOrder {
    Less,
    Equal,
    Greater,
}

/// Whether the segment crosses every sweep height at a single x-coordinate.
pub open spec fn crossing_defined(s: Segment) -> bool {
    s.start.y != s.end.y
}

/// Denominator of the crossing x-coordinate, made positive.
pub open spec fn crossing_den(s: Segment) -> int {
    if s.end.y >= s.start.y {
        s.end.y - s.start.y
    } else {
        s.start.y - s.end.y
    }
}

/// Numerator of the crossing x-coordinate over `crossing_den`:
/// `x = start.x + (h - start.y) * (end.x - start.x) / (end.y - start.y)`.
pub open spec fn crossing_num(s: Segment, h: int) -> int {
    let raw = s.start.x * (s.end.y - s.start.y) + (h - s.start.y) * (s.end.x - s.start.x);
    if s.end.y >= s.start.y {
        raw
    } else {
        -raw
    }
}

/// `a` crosses the sweep height `h` strictly to the left of `b`.
/// False whenever either crossing is undefined.
pub open spec fn crosses_left_of(a: Segment, b: Segment, h: int) -> bool {
    &&& crossing_defined(a)
    &&& crossing_defined(b)
    &&& crossing_num(a, h) * crossing_den(b) < crossing_num(b, h) * crossing_den(a)
}

/// Numerator and positive denominator of the crossing, for a segment that
/// is not horizontal.
fn crossing(s: &Segment, height: i32) -> (r: (i128, i128))
    requires
        crossing_defined(*s),
    ensures
        r.0 == crossing_num(*s, height as int),
        r.1 == crossing_den(*s),
        0 < r.1 <= 0xffff_ffff,
        -0x3_0000_0000_0000_0000 <= r.0 <= 0x3_0000_0000_0000_0000,
{
    let dy: i128 = s.end.y as i128 - s.start.y as i128;
    let dx: i128 = s.end.x as i128 - s.start.x as i128;
    let rise: i128 = height as i128 - s.start.y as i128;
    let x0: i128 = s.start.x as i128;
    assert(-0x8000_0000_0000_0000 <= x0 * dy <= 0x8000_0000_0000_0000) by (nonlinear_arith)
        requires
            -0x8000_0000 <= x0 <= 0x8000_0000,
            -0x1_0000_0000 <= dy <= 0x1_0000_0000,
    ;
    assert(-0x1_0000_0000_0000_0000 <= rise * dx <= 0x1_0000_0000_0000_0000) by (nonlinear_arith)
        requires
            -0x1_0000_0000 <= rise <= 0x1_0000_0000,
            -0x1_0000_0000 <= dx <= 0x1_0000_0000,
    ;
    let raw: i128 = x0 * dy + rise * dx;
    if dy >= 0 {
        (raw, dy)
    } else {
        (-raw, -dy)
    }
}

/// Decides whether `a` crosses the sweep height strictly left of `b`.
pub fn crosses_left(a: &Segment, b: &Segment, height: i32) -> (left: bool)
    ensures
        left == crosses_left_of(*a, *b, height as int),
{
    if a.start.y == a.end.y || b.start.y == b.end.y {
        return false;
    }
    let (na, da) = crossing(a, height);
    let (nb, db) = crossing(b, height);
    assert(-0x3_0000_0000_0000_0000_0000_0000 <= na * db <= 0x3_0000_0000_0000_0000_0000_0000)
        by (nonlinear_arith)
        requires
            -0x3_0000_0000_0000_0000 <= na <= 0x3_0000_0000_0000_0000,
            0 < db <= 0xffff_ffff,
    ;
    assert(-0x3_0000_0000_0000_0000_0000_0000 <= nb * da <= 0x3_0000_0000_0000_0000_0000_0000)
        by (nonlinear_arith)
        requires
            -0x3_0000_0000_0000_0000 <= nb <= 0x3_0000_0000_0000_0000,
            0 < da <= 0xffff_ffff,
    ;
    na * db < nb * da
}

/// The order on crossings is transitive: if `a` does not cross right of
/// `b`, nor `b` right of `c`, then `a` does not cross right of `c`, and
/// it crosses strictly left of `c` if either step is strict.
pub proof fn lemma_crossing_transitive(a: Segment, b: Segment, c: Segment, h: int)
    requires
        crossing_defined(a),
        crossing_defined(b),
        crossing_defined(c),
        !crosses_left_of(b, a, h),
        !crosses_left_of(c, b, h),
    ensures
        !crosses_left_of(c, a, h),
        crosses_left_of(a, b, h) || crosses_left_of(b, c, h) ==> crosses_left_of(a, c, h),
{
    let (na, da) = (crossing_num(a, h), crossing_den(a));
    let (nb, db) = (crossing_num(b, h), crossing_den(b));
    let (nc, dc) = (crossing_num(c, h), crossing_den(c));
    assert(na * dc <= nc * da && ((na * db < nb * da || nb * dc < nc * db) ==> na * dc < nc * da))
        by (nonlinear_arith)
        requires
            da > 0,
            db > 0,
            dc > 0,
            na * db <= nb * da,
            nb * dc <= nc * db,
    {
        assert((na * db) * dc <= (nb * da) * dc);
        assert((nb * dc) * da <= (nc * db) * da);
        assert((na * dc) * db <= (nc * da) * db);
        if na * db < nb * da {
            assert((na * db) * dc < (nb * da) * dc);
            assert((na * dc) * db < (nc * da) * db);
        }
        if nb * dc < nc * db {
            assert((nb * dc) * da < (nc * db) * da);
            assert((na * dc) * db < (nc * da) * db);
        }
    }
}

} // verus!
