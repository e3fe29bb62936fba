//! Control-point reduction: of a smoothed path only the points of
//! highest curvature are kept, spaced apart, and fitted with tangents.

use vstd::prelude::*;
use vstd::seq_lib::to_multiset_insert;
use crate::clip::{candidates_view, SmoothedCurve};
use crate::curve::{div_toward_zero, divide_toward_zero, ControlPoint, HermiteCurve, Velocity};
use crate::direction::{curvature, curvature_at};
use crate::point::{Point, UNIT};
use crate::present::{lemma_present_frame, present};
use crate::smooth::{smooth_path, smoothed};
use crate::tracer::{Fraction, TraceOutput};

verus! {

/// The curvature at every point of the path; the two ends have none.
pub open spec fn curvatures_of(path: Seq<Point>) -> Seq<u64> {
    Seq::new(
        path.len(),
        |i: int|
            if 0 < i < path.len() - 1 {
                curvature_at(path, i) as u64
            } else {
                0u64
            },
    )
}

/// The curvature at every point of the path.
fn measure_curvatures(path: &Vec<Point>) -> (curvatures: Vec<u64>)
    ensures
        curvatures@ == curvatures_of(path@),
{
    let n = path.len();
    let mut curvatures: Vec<u64> = Vec::new();
    let mut i: usize = 0;
    while i < n
        invariant
            i <= n,
            n == path@.len(),
            curvatures@.len() == i,
            forall|j: int| 0 <= j < i ==> #[trigger] curvatures@[j] == curvatures_of(path@)[j],
        decreases n - i,
    {
        let k = if 0 < i && i < n - 1 {
            curvature(i, path)
        } else {
            0
        };
        curvatures.push(k);
        i = i + 1;
    }
    assert(curvatures@ =~= curvatures_of(path@));
    curvatures
}

/// Point `a` ranks before point `b`: its curvature is higher, or it is
/// the same and `a` comes first on the path.
pub open spec fn ranks_before(curvatures: Seq<u64>, a: usize, b: usize) -> bool {
    curvatures[a as int] > curvatures[b as int] || (curvatures[a as int] == curvatures[b as int]
        && a < b)
}

/// `ranked` lists the interior points `1..upto` of the path, each once,
/// from the highest curvature down.
pub open spec fn is_ranking(curvatures: Seq<u64>, ranked: Seq<usize>, upto: int) -> bool {
    &&& ranked.len() == if upto >= 1 { upto - 1 } else { 0 }
    &&& forall|k: int| 0 <= k < ranked.len() ==> 1 <= #[trigger] ranked[k] < upto
    &&& forall|i: int| 1 <= i < upto ==> #[trigger] ranked.contains(i as usize)
    &&& forall|k: int, m: int|
        0 <= k < m < ranked.len() ==> ranks_before(
            curvatures,
            #[trigger] ranked[k],
            #[trigger] ranked[m],
        )
}

/// Distance between two indices.
pub open spec fn gap(a: usize, b: usize) -> int {
    if a >= b {
        a - b
    } else {
        b - a
    }
}

/// `index` keeps a gap of `padding` or more from every picked index.
pub open spec fn spaced_from(picked: Seq<usize>, index: usize, padding: usize) -> bool {
    forall|a: int| 0 <= a < picked.len() ==> gap(#[trigger] picked[a], index) >= padding
}

/// The indices picked after the first `k` ranked points were tried: the
/// two ends of the path, and every tried point that kept its gap from
/// all that were picked before it.
pub open spec fn picks(ranked: Seq<usize>, last: usize, padding: usize, k: int) -> Seq<usize>
    decreases k,
{
    if k <= 0 {
        seq![0usize, last]
    } else {
        let before = picks(ranked, last, padding, k - 1);
        if spaced_from(before, ranked[k - 1], padding) {
            before.push(ranked[k - 1])
        } else {
            before
        }
    }
}

/// What the selection returns for a path that ends at index `last`: the
/// picked interior points in rank order, then the two ends.
pub open spec fn selection(ranked: Seq<usize>, last: usize, padding: usize) -> Seq<usize> {
    picks(ranked, last, padding, ranked.len() as int).skip(2) + seq![0usize, last]
}

/// Ranks the interior points of a path by curvature.
fn rank_by_curvature(curvatures: &Vec<u64>) -> (ranked: Vec<usize>)
    requires
        curvatures@.len() >= 1,
    ensures
        is_ranking(curvatures@, ranked@, curvatures@.len() - 1),
{
    let n = curvatures.len();
    let mut ranked: Vec<usize> = Vec::new();
    if n < 3 {
        return ranked;
    }
    let mut i: usize = 1;
    while i < n - 1
        invariant
            n == curvatures@.len(),
            1 <= i <= n - 1,
            is_ranking(curvatures@, ranked@, i as int),
        decreases n - i,
    {
        let mut pos: usize = 0;
        while pos < ranked.len() && curvatures[ranked[pos]] >= curvatures[i]
            invariant
                n == curvatures@.len(),
                i < n - 1,
                pos <= ranked@.len(),
                is_ranking(curvatures@, ranked@, i as int),
                forall|k: int| 0 <= k < pos ==> curvatures@[#[trigger] ranked@[k] as int]
                    >= curvatures@[i as int],
            decreases ranked@.len() - pos,
        {
            pos = pos + 1;
        }
        let ghost before = ranked@;
        ranked.insert(pos, i);
        proof {
            let after = ranked@;
            assert(after == before.insert(pos as int, i));
            assert forall|k: int| 0 <= k < after.len() implies 1 <= #[trigger] after[k] < i + 1 by {
                if k < pos {
                    assert(after[k] == before[k]);
                } else if k > pos {
                    assert(after[k] == before[k - 1]);
                }
            }
            assert forall|j: int| 1 <= j < i + 1 implies #[trigger] after.contains(j as usize) by {
                if j == i {
                    assert(after[pos as int] == i);
                } else {
                    assert(before.contains(j as usize));
                    let k = choose|k: int| 0 <= k < before.len() && before[k] == j as usize;
                    if k < pos {
                        assert(after[k] == j as usize);
                    } else {
                        assert(after[k + 1] == j as usize);
                    }
                }
            }
            assert forall|k: int, m: int| 0 <= k < m < after.len() implies ranks_before(
                curvatures@,
                #[trigger] after[k],
                #[trigger] after[m],
            ) by {
                if m < pos {
                    assert(after[k] == before[k] && after[m] == before[m]);
                } else if m == pos {
                    assert(after[k] == before[k]);
                } else if k < pos {
                    assert(after[k] == before[k] && after[m] == before[m - 1]);
                } else if k == pos {
                    assert(after[m] == before[m - 1]);
                    if m - 1 > pos {
                        assert(ranks_before(curvatures@, before[pos as int], before[m - 1]));
                    }
                } else {
                    assert(after[k] == before[k - 1] && after[m] == before[m - 1]);
                }
            }
        }
        i = i + 1;
    }
    ranked
}

/// Decides whether `index` keeps its gap from every picked index.
fn is_spaced(picked: &Vec<usize>, index: usize, padding: usize) -> (b: bool)
    ensures
        b == spaced_from(picked@, index, padding),
{
    let mut a: usize = 0;
    while a < picked.len()
        invariant
            a <= picked@.len(),
            forall|j: int| 0 <= j < a ==> gap(#[trigger] picked@[j], index) >= padding,
        decreases picked@.len() - a,
    {
        let other = picked[a];
        let distance = if other >= index {
            other - index
        } else {
            index - other
        };
        if distance < padding {
            return false;
        }
        a = a + 1;
    }
    true
}

/// Selects the control points of a path: the interior points are tried
/// from the highest curvature down, and a point is picked if it lies
/// `point_padding_per_side` or more indices away from both ends and from
/// every point picked before it. Returns the picked interior points in
/// that order, followed by the first and the last index.
pub fn highest_curvature_points(path: &Vec<Point>, point_padding_per_side: usize) -> (out: Vec<
    usize,
>)
    requires
        path@.len() >= 1,
    ensures
        exists|ranked: Seq<usize>| #[trigger]
            is_ranking(curvatures_of(path@), ranked, path@.len() - 1) && out@ == selection(
                ranked,
                (path@.len() - 1) as usize,
                point_padding_per_side,
            ),
{
    let curvatures = measure_curvatures(path);
    select_by_curvature(&curvatures, point_padding_per_side)
}

/// Selects control points from the curvature at each point of a path.
fn select_by_curvature(curvatures: &Vec<u64>, point_padding_per_side: usize) -> (out: Vec<usize>)
    requires
        curvatures@.len() >= 1,
    ensures
        exists|ranked: Seq<usize>| #[trigger]
            is_ranking(curvatures@, ranked, curvatures@.len() - 1) && out@ == selection(
                ranked,
                (curvatures@.len() - 1) as usize,
                point_padding_per_side,
            ),
{
    let ranked = rank_by_curvature(curvatures);
    let last = curvatures.len() - 1;
    let mut picked: Vec<usize> = Vec::new();
    picked.push(0);
    picked.push(last);
    let mut k: usize = 0;
    proof {
        assert(picked@ =~= picks(ranked@, last, point_padding_per_side, 0));
    }
    while k < ranked.len()
        invariant
            k <= ranked@.len(),
            picked@ == picks(ranked@, last, point_padding_per_side, k as int),
            picked@.len() >= 2,
        decreases ranked@.len() - k,
    {
        let index = ranked[k];
        if is_spaced(&picked, index, point_padding_per_side) {
            picked.push(index);
        }
        k = k + 1;
    }
    let mut out: Vec<usize> = Vec::new();
    let mut j: usize = 2;
    while j < picked.len()
        invariant
            2 <= j <= picked@.len(),
            out@ == picked@.subrange(2, j as int),
        decreases picked@.len() - j,
    {
        out.push(picked[j]);
        proof {
            assert(picked@.subrange(2, j + 1) =~= picked@.subrange(2, j as int).push(
                picked@[j as int],
            ));
        }
        j = j + 1;
    }
    proof {
        assert(picked@.subrange(2, picked@.len() as int) =~= picked@.skip(2));
    }
    out.push(0);
    out.push(last);
    proof {
        assert(out@ =~= selection(ranked@, last, point_padding_per_side));
    }
    out
}

/// The selection holds the first and the last index, and apart from
/// these two no two picked indices lie closer than the padding.
pub proof fn lemma_picks_spaced(ranked: Seq<usize>, last: usize, padding: usize, k: int)
    requires
        0 <= k <= ranked.len(),
    ensures
        ({
            let picked = picks(ranked, last, padding, k);
            &&& picked.len() >= 2
            &&& picked[0] == 0
            &&& picked[1] == last
            &&& forall|a: int, b: int|
                0 <= a < b < picked.len() && b >= 2 ==> gap(picked[a], picked[b]) >= padding
        }),
    decreases k,
{
    if k > 0 {
        lemma_picks_spaced(ranked, last, padding, k - 1);
        let before = picks(ranked, last, padding, k - 1);
        let picked = picks(ranked, last, padding, k);
        if spaced_from(before, ranked[k - 1], padding) {
            assert forall|a: int, b: int|
                0 <= a < b < picked.len() && b >= 2 implies gap(picked[a], picked[b])
                >= padding by {
                if b == picked.len() - 1 {
                    assert(gap(before[a], ranked[k - 1]) >= padding);
                }
            }
        }
    }
}

/// Two rankings of the same path agree on their first `k` places.
proof fn lemma_rankings_agree(
    curvatures: Seq<u64>,
    first: Seq<usize>,
    second: Seq<usize>,
    upto: int,
    k: int,
)
    requires
        is_ranking(curvatures, first, upto),
        is_ranking(curvatures, second, upto),
        0 <= k <= first.len(),
    ensures
        forall|j: int| 0 <= j < k ==> first[j] == second[j],
    decreases k,
{
    if k > 0 {
        lemma_rankings_agree(curvatures, first, second, upto, k - 1);
        let at = k - 1;
        let v = first[at];
        assert(1 <= first[at] < upto);
        assert(second.contains((v as int) as usize));
        let p = choose|p: int| 0 <= p < second.len() && second[p] == v;
        if p < at {
            assert(ranks_before(curvatures, first[p], first[at]));
        } else if p > at {
            let w = second[at];
            assert(ranks_before(curvatures, second[at], second[p]));
            assert(1 <= second[at] < upto);
            assert(first.contains((w as int) as usize));
            let q = choose|q: int| 0 <= q < first.len() && first[q] == w;
            if q < at {
                assert(ranks_before(curvatures, second[q], second[at]));
            } else if q > at {
                assert(ranks_before(curvatures, first[at], first[q]));
            }
        }
    }
}

/// A path has one ranking of its interior points, so the selection is
/// determined by the curvatures and the padding.
pub proof fn lemma_ranking_unique(
    curvatures: Seq<u64>,
    first: Seq<usize>,
    second: Seq<usize>,
    upto: int,
)
    requires
        is_ranking(curvatures, first, upto),
        is_ranking(curvatures, second, upto),
    ensures
        first == second,
{
    lemma_rankings_agree(curvatures, first, second, upto, first.len() as int);
    assert(first =~= second);
}

/// The returned selection always includes index 0 and the last index,
/// and of its interior indices no two, and none and an end, lie closer
/// than the padding.
pub proof fn lemma_selection_spaced(ranked: Seq<usize>, last: usize, padding: usize)
    ensures
        ({
            let out = selection(ranked, last, padding);
            let interior = out.len() - 2;
            &&& out.len() >= 2
            &&& out[interior] == 0
            &&& out[interior + 1] == last
            &&& forall|a: int, b: int|
                0 <= a < out.len() && 0 <= b < interior && a != b ==> gap(out[a], out[b])
                    >= padding
        }),
{
    let picked = picks(ranked, last, padding, ranked.len() as int);
    lemma_picks_spaced(ranked, last, padding, ranked.len() as int);
    let out = selection(ranked, last, padding);
    let interior = out.len() - 2;
    assert(picked.skip(2).len() == picked.len() - 2);
    assert(interior == picked.len() - 2);
    assert(out[interior] == seq![0usize, last][0]);
    assert(out[interior + 1] == seq![0usize, last][1]);
    assert forall|a: int, b: int|
        0 <= a < out.len() && 0 <= b < interior && a != b implies gap(out[a], out[b])
        >= padding by {
        assert(out[b] == picked[b + 2]);
        if a < interior {
            assert(out[a] == picked[a + 2]);
            if a < b {
                assert(gap(picked[a + 2], picked[b + 2]) >= padding);
            } else {
                assert(gap(picked[b + 2], picked[a + 2]) >= padding);
            }
        } else {
            assert(out[a] == picked[a - interior]);
            assert(gap(picked[a - interior], picked[b + 2]) >= padding);
        }
    }
}

/// `sorted` holds what `indices` holds, in ascending order.
pub open spec fn is_ascending_order(indices: Seq<usize>, sorted: Seq<usize>) -> bool {
    &&& sorted.to_multiset() == indices.to_multiset()
    &&& forall|a: int, b: int| 0 <= a < b < sorted.len() ==> sorted[a] <= sorted[b]
}

/// The indices in ascending order.
pub fn sort_ascending(indices: &Vec<usize>) -> (sorted: Vec<usize>)
    ensures
        is_ascending_order(indices@, sorted@),
{
    let mut sorted: Vec<usize> = Vec::new();
    let mut i: usize = 0;
    proof {
        assert(indices@.take(0) =~= sorted@);
    }
    while i < indices.len()
        invariant
            i <= indices@.len(),
            is_ascending_order(indices@.take(i as int), sorted@),
        decreases indices@.len() - i,
    {
        let value = indices[i];
        let mut pos: usize = 0;
        while pos < sorted.len() && sorted[pos] <= value
            invariant
                pos <= sorted@.len(),
                forall|k: int| 0 <= k < pos ==> sorted@[k] <= value,
            decreases sorted@.len() - pos,
        {
            pos = pos + 1;
        }
        let ghost before = sorted@;
        sorted.insert(pos, value);
        proof {
            let after = sorted@;
            to_multiset_insert(before, pos as int, value);
            assert(indices@.take(i + 1) =~= indices@.take(i as int).push(value));
            vstd::seq_lib::to_multiset_build(indices@.take(i as int), value);
            assert forall|a: int, b: int| 0 <= a < b < after.len() implies after[a] <= after[b] by {
                if b < pos {
                    assert(after[a] == before[a] && after[b] == before[b]);
                } else if b == pos {
                    assert(after[a] == before[a]);
                } else if a < pos {
                    assert(after[a] == before[a] && after[b] == before[b - 1]);
                } else if a == pos {
                    assert(after[b] == before[b - 1]);
                    if b - 1 > pos {
                        assert(before[pos as int] <= before[b - 1]);
                    }
                } else {
                    assert(after[a] == before[a - 1] && after[b] == before[b - 1]);
                }
            }
        }
        i = i + 1;
    }
    proof {
        assert(indices@.take(indices@.len() as int) =~= indices@);
    }
    sorted
}

/// A displacement of `d` units per step, as a velocity: `d` over the
/// square of the step size taken in cells.
pub open spec fn over_step_squared(d: int, step_size: u32) -> int {
    div_toward_zero(d * UNIT * UNIT, step_size * step_size)
}

/// The difference from point `i` of the path to the next, as a velocity.
pub open spec fn forward_difference(path: Seq<Point>, i: int, step_size: u32) -> (int, int) {
    (
        over_step_squared(path[i + 1].x - path[i].x, step_size),
        over_step_squared(path[i + 1].y - path[i].y, step_size),
    )
}

/// `blend_factor`, in ten-thousandths, times `v`.
pub open spec fn blended(v: int, blend_factor: u16) -> int {
    div_toward_zero(blend_factor * v, UNIT as int)
}

/// The tangent at path point `i`: the forward difference at the first
/// point, the backward difference at the last, and between them the
/// sum of both, weighted by the blend factor.
pub open spec fn velocity_at(path: Seq<Point>, i: int, step_size: u32, blend_factor: u16) -> (
    int,
    int,
) {
    if i == 0 {
        forward_difference(path, 0, step_size)
    } else if i == path.len() - 1 {
        forward_difference(path, path.len() - 2, step_size)
    } else {
        let ahead = forward_difference(path, i, step_size);
        let behind = forward_difference(path, i - 1, step_size);
        (blended(ahead.0 + behind.0, blend_factor), blended(ahead.1 + behind.1, blend_factor))
    }
}

/// The control point at path point `i`.
pub open spec fn control_point_at(
    path: Seq<Point>,
    i: int,
    step_size: u32,
    blend_factor: u16,
) -> ControlPoint {
    let v = velocity_at(path, i, step_size, blend_factor);
    ControlPoint { position: path[i], velocity: Velocity { x: v.0 as i64, y: v.1 as i64 } }
}

/// A displacement per step as a velocity.
fn scale_by_step(d: i64, step_size: u32) -> (v: i128)
    requires
        step_size > 0,
        -0x1_0000_0000 <= d <= 0x1_0000_0000,
    ensures
        v == over_step_squared(d as int, step_size),
        -430_000_000_000_000_000 <= v <= 430_000_000_000_000_000,
{
    let unit: i128 = UNIT as i128;
    let step: i128 = step_size as i128;
    assert(1 <= step * step <= 0xffff_ffff * 0xffff_ffff) by (nonlinear_arith)
        requires
            1 <= step <= 0xffff_ffff,
    ;
    let scaled: i128 = d as i128 * unit * unit;
    let den: i128 = step * step;
    let v = divide_toward_zero(scaled, den);
    proof {
        assert(d * UNIT * UNIT == scaled);
        lemma_quotient_bound(scaled as int, den as int, 430_000_000_000_000_000);
    }
    v
}

/// A quotient toward zero is no larger in size than what is divided.
proof fn lemma_quotient_bound(num: int, den: int, bound: int)
    requires
        den >= 1,
        -bound <= num <= bound,
    ensures
        -bound <= div_toward_zero(num, den) <= bound,
{
    if num >= 0 {
        vstd::arithmetic::div_mod::lemma_div_pos_is_pos(num, den);
        vstd::arithmetic::div_mod::lemma_div_is_ordered_by_denominator(num, 1, den);
    } else {
        vstd::arithmetic::div_mod::lemma_div_pos_is_pos(-num, den);
        vstd::arithmetic::div_mod::lemma_div_is_ordered_by_denominator(-num, 1, den);
    }
}

/// The difference from point `i` to the next, as a velocity.
fn difference(path: &Vec<Point>, i: usize, step_size: u32) -> (v: (i128, i128))
    requires
        step_size > 0,
        i + 1 < path@.len(),
    ensures
        (v.0 as int, v.1 as int) == forward_difference(path@, i as int, step_size),
        -430_000_000_000_000_000 <= v.0 <= 430_000_000_000_000_000,
        -430_000_000_000_000_000 <= v.1 <= 430_000_000_000_000_000,
{
    let n = path.len();
    let next = path[i + 1];
    let dx: i64 = next.x as i64 - path[i].x as i64;
    let dy: i64 = next.y as i64 - path[i].y as i64;
    (scale_by_step(dx, step_size), scale_by_step(dy, step_size))
}

/// The blend factor times `v`.
fn blend(v: i128, blend_factor: u16) -> (r: i128)
    requires
        -860_000_000_000_000_000 <= v <= 860_000_000_000_000_000,
    ensures
        r == blended(v as int, blend_factor),
        -0x7fff_ffff_ffff_ffff <= r <= 0x7fff_ffff_ffff_ffff,
{
    let factor: i128 = blend_factor as i128;
    assert(-56_360_100_000_000_000_000_000 <= factor * v <= 56_360_100_000_000_000_000_000)
        by (nonlinear_arith)
        requires
            0 <= factor <= 65535,
            -860_000_000_000_000_000 <= v <= 860_000_000_000_000_000,
    ;
    let r = divide_toward_zero(factor * v, UNIT as i128);
    proof {
        let num = (factor * v) as int;
        if num >= 0 {
            vstd::arithmetic::div_mod::lemma_div_is_ordered(num, 56_360_100_000_000_000_000_000, 10_000);
            vstd::arithmetic::div_mod::lemma_div_pos_is_pos(num, 10_000);
        } else {
            vstd::arithmetic::div_mod::lemma_div_is_ordered(-num, 56_360_100_000_000_000_000_000, 10_000);
            vstd::arithmetic::div_mod::lemma_div_pos_is_pos(-num, 10_000);
        }
        vstd::arithmetic::div_mod::lemma_div_multiples_vanish(5_636_010_000_000_000_000, 10_000);
        assert(10_000 * 5_636_010_000_000_000_000int == 56_360_100_000_000_000_000_000);
    }
    r
}

/// The control point at path point `i`.
pub fn control_point(path: &Vec<Point>, i: usize, step_size: u32, blend_factor: u16) -> (cp:
    ControlPoint)
    requires
        step_size > 0,
        path@.len() >= 2,
        i < path@.len(),
    ensures
        cp == control_point_at(path@, i as int, step_size, blend_factor),
{
    let last = path.len() - 1;
    let (vx, vy) = if i == 0 {
        difference(path, 0, step_size)
    } else if i == last {
        difference(path, last - 1, step_size)
    } else {
        let ahead = difference(path, i, step_size);
        let behind = difference(path, i - 1, step_size);
        (blend(ahead.0 + behind.0, blend_factor), blend(ahead.1 + behind.1, blend_factor))
    };
    ControlPoint { position: path[i], velocity: Velocity { x: vx as i64, y: vy as i64 } }
}

/// `curve` is the Hermite curve fitted to the path: the control points
/// at the selected indices, in the order of the path.
pub open spec fn is_fitted(
    path: Seq<Point>,
    padding: usize,
    step_size: u32,
    blend_factor: u16,
    curve: Seq<ControlPoint>,
) -> bool {
    exists|ranked: Seq<usize>, sorted: Seq<usize>|
        {
            &&& #[trigger] is_ranking(curvatures_of(path), ranked, path.len() - 1)
            &&& #[trigger] is_ascending_order(
                selection(ranked, (path.len() - 1) as usize, padding),
                sorted,
            )
            &&& curve == sorted.map_values(
                |i: usize| control_point_at(path, i as int, step_size, blend_factor),
            )
        }
}

/// The selected indices all lie on the path.
proof fn lemma_picks_on_path(ranked: Seq<usize>, last: usize, padding: usize, k: int, upto: int)
    requires
        0 <= k <= ranked.len(),
        forall|j: int| 0 <= j < ranked.len() ==> 1 <= #[trigger] ranked[j] < upto,
        upto <= last || ranked.len() == 0,
    ensures
        forall|a: int|
            0 <= a < picks(ranked, last, padding, k).len() ==> #[trigger] picks(
                ranked,
                last,
                padding,
                k,
            )[a] <= last,
    decreases k,
{
    if k > 0 {
        lemma_picks_on_path(ranked, last, padding, k - 1, upto);
        let before = picks(ranked, last, padding, k - 1);
        let picked = picks(ranked, last, padding, k);
        assert forall|a: int| 0 <= a < picked.len() implies #[trigger] picked[a] <= last by {
            if a < before.len() {
                assert(picked[a] == before[a]);
            } else {
                assert(picked[a] == ranked[k - 1]);
            }
        }
    }
}

/// Fits a Hermite curve to a smoothed path of two points or more.
pub fn fit_curve(
    path: &Vec<Point>,
    point_side_padding: usize,
    step_size: u32,
    blend_factor: u16,
) -> (curve: HermiteCurve)
    requires
        step_size > 0,
        path@.len() >= 2,
    ensures
        is_fitted(path@, point_side_padding, step_size, blend_factor, curve@),
        curve@.len() >= 2,
{
    let indices = highest_curvature_points(path, point_side_padding);
    let sorted = sort_ascending(&indices);
    let last = path.len() - 1;
    let ghost ranked = choose|ranked: Seq<usize>| #[trigger]
        is_ranking(curvatures_of(path@), ranked, path@.len() - 1) && indices@ == selection(
            ranked,
            last,
            point_side_padding,
        );
    proof {
        lemma_picks_on_path(
            ranked,
            last,
            point_side_padding,
            ranked.len() as int,
            path@.len() - 1,
        );
        vstd::seq_lib::to_multiset_len(sorted@);
        vstd::seq_lib::to_multiset_len(indices@);
        let picked = picks(ranked, last, point_side_padding, ranked.len() as int);
        lemma_picks_spaced(ranked, last, point_side_padding, ranked.len() as int);
        assert forall|k: int| 0 <= k < sorted@.len() implies #[trigger] sorted@[k] <= last by {
            let v = sorted@[k];
            assert(sorted@.contains(v));
            vstd::seq_lib::to_multiset_contains(sorted@, v);
            vstd::seq_lib::to_multiset_contains(indices@, v);
            assert(indices@.contains(v));
            let j = choose|j: int| 0 <= j < indices@.len() && indices@[j] == v;
            let ends = seq![0usize, last];
            assert(indices@ == picked.skip(2) + ends);
            assert(picked.skip(2).len() == picked.len() - 2);
            if j < picked.len() - 2 {
                assert(indices@[j] == picked[j + 2]);
            } else {
                assert(indices@[j] == ends[j - (picked.len() - 2)]);
            }
        }
    }
    let mut curve: Vec<ControlPoint> = Vec::new();
    let mut k: usize = 0;
    while k < sorted.len()
        invariant
            k <= sorted@.len(),
            step_size > 0,
            path@.len() >= 2,
            last == path@.len() - 1,
            forall|j: int| 0 <= j < sorted@.len() ==> #[trigger] sorted@[j] <= last,
            curve@.len() == k,
            forall|j: int|
                0 <= j < k ==> #[trigger] curve@[j] == control_point_at(
                    path@,
                    sorted@[j] as int,
                    step_size,
                    blend_factor,
                ),
        decreases sorted@.len() - k,
    {
        curve.push(control_point(path, sorted[k], step_size, blend_factor));
        k = k + 1;
    }
    proof {
        assert(curve@ =~= sorted@.map_values(
            |i: usize| control_point_at(path@, i as int, step_size, blend_factor),
        ));
    }
    curve
}

/// Every path is empty or has two points or more.
pub open spec fn paths_ok(traces: Seq<TraceOutput>) -> bool {
    forall|k: int| 0 <= k < traces.len() ==> (#[trigger] traces[k]).path@.len() != 1
}

/// `fates[k]` is the curve fitted to the smoothed path of trace `k`
/// with the seeds of the trace, or nothing where the path is empty.
pub open spec fn are_fitted(
    traces: Seq<TraceOutput>,
    alpha: u32,
    beta: u32,
    padding: usize,
    step_size: u32,
    blend_factor: u16,
    fates: Seq<Option<(Seq<ControlPoint>, Seq<(Point, Fraction)>)>>,
) -> bool {
    &&& fates.len() == traces.len()
    &&& forall|k: int|
        0 <= k < traces.len() ==> match #[trigger] fates[k] {
            None => traces[k].path@.len() == 0,
            Some(fitted) => {
                &&& traces[k].path@.len() > 0
                &&& is_fitted(
                    smoothed(traces[k].path@, alpha, beta),
                    padding,
                    step_size,
                    blend_factor,
                    fitted.0,
                )
                &&& fitted.1 == traces[k].new_seeds@
            },
        }
}

/// Turns traces into candidate curves. Empty traces are left out; the
/// path of every other trace is smoothed with the thresholds `alpha`
/// and `beta`, reduced to its points of highest curvature, kept
/// `point_side_padding` apart, and fitted with tangents for the step
/// size `h`. The candidates come out in the order of the traces, each
/// with the seeds of its trace and with two control points or more.
pub fn smooth_lanes(
    traces: Vec<TraceOutput>,
    alpha: u32,
    beta: u32,
    point_side_padding: usize,
    h: u32,
    blend_factor: u16,
) -> (out: Vec<SmoothedCurve>)
    requires
        h > 0,
        paths_ok(traces@),
    ensures
        exists|fates: Seq<Option<(Seq<ControlPoint>, Seq<(Point, Fraction)>)>>| #[trigger]
            are_fitted(traces@, alpha, beta, point_side_padding, h, blend_factor, fates)
                && candidates_view(out@) == present(fates, fates.len() as int),
        forall|k: int| 0 <= k < out@.len() ==> (#[trigger] out@[k]).curve@.len() >= 2,
{
    let ghost all = traces@;
    let ghost mut fates: Seq<Option<(Seq<ControlPoint>, Seq<(Point, Fraction)>)>> = Seq::empty();
    let mut out: Vec<SmoothedCurve> = Vec::new();
    for trace in it: traces
        invariant
            it.seq() == all,
            h > 0,
            paths_ok(all),
            fates.len() == it.index(),
            are_fitted(
                all.take(it.index() as int),
                alpha,
                beta,
                point_side_padding,
                h,
                blend_factor,
                fates,
            ),
            candidates_view(out@) == present(fates, it.index() as int),
            forall|k: int| 0 <= k < out@.len() ==> (#[trigger] out@[k]).curve@.len() >= 2,
    {
        let ghost k = it.index() as int;
        let ghost before = fates;
        let ghost out_before = out@;
        proof {
            assert(all[k] == trace);
        }
        if trace.path.len() == 0 {
            proof {
                fates = fates.push(None);
            }
        } else {
            let smoothed_path = smooth_path(trace.path, alpha, beta);
            let curve = fit_curve(&smoothed_path, point_side_padding, h, blend_factor);
            proof {
                fates = fates.push(Some((curve@, trace.new_seeds@)));
            }
            let candidate = SmoothedCurve { curve, new_seeds: trace.new_seeds };
            out.push(candidate);
            proof {
                assert(candidates_view(out@) =~= candidates_view(out_before).push(
                    (candidate.curve@, candidate.new_seeds@),
                ));
            }
        }
        proof {
            lemma_present_frame(before, fates, k);
            assert forall|j: int| 0 <= j < k + 1 implies match #[trigger] fates[j] {
                None => all.take(k + 1)[j].path@.len() == 0,
                Some(fitted) => {
                    &&& all.take(k + 1)[j].path@.len() > 0
                    &&& is_fitted(
                        smoothed(all.take(k + 1)[j].path@, alpha, beta),
                        point_side_padding,
                        h,
                        blend_factor,
                        fitted.0,
                    )
                    &&& fitted.1 == all.take(k + 1)[j].new_seeds@
                },
            } by {
                if j < k {
                    assert(fates[j] == before[j]);
                    assert(all.take(k + 1)[j] == all.take(k)[j]);
                }
            }
        }
    }
    proof {
        assert(all.take(all.len() as int) =~= all);
    }
    out
}

} // verus!
