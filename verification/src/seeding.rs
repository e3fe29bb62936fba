//! Where seeds come from: points spread over the grid, and the distance
//! from a point to the nearest degenerate region of the field.

use vstd::prelude::*;
use crate::chance::{random_below, thread_generator};
use crate::point::{dist_sq, floor_sqrt, Point, GRID_SIZE, UNIT};
use crate::seeds::{field_is_degenerate, is_degenerate};

verus! {

/// Number of sectors along each side of the grid.
pub const SECTOR_COUNT: u32 = 16;

/// Side length of a sector, in cells.
pub const SECTOR_SIZE: u32 = 32;

/// Number of candidates drawn for every point that is placed.
pub const CANDIDATE_COUNT: usize = 10;

/// The field magnitude sampled at every lattice point of the grid, in
/// ten-thousandths.
pub struct FieldSamples {
    norms: Vec<u32>,
}

impl FieldSamples {
    /// There is one sample for every lattice point.
    pub closed spec fn wf(&self) -> bool {
        self.norms@.len() == GRID_SIZE * GRID_SIZE
    }

    /// The sample at the lattice point `(x, y)`.
    pub closed spec fn norm_at(&self, x: int, y: int) -> u32 {
        self.norms@[x * GRID_SIZE + y]
    }

    /// Takes the samples in column order: the sample at `(x, y)` stands
    /// at `x * GRID_SIZE + y`. Returns `None` unless there is one sample
    /// for every lattice point.
    pub fn new(norms: Vec<u32>) -> (field: Option<FieldSamples>)
        ensures
            field is Some <==> norms@.len() == GRID_SIZE * GRID_SIZE,
            field is Some ==> field->0.wf() && forall|x: int, y: int|
                0 <= x < GRID_SIZE && 0 <= y < GRID_SIZE ==> #[trigger] field->0.norm_at(x, y)
                    == norms@[x * GRID_SIZE + y],
    {
        if norms.len() == (GRID_SIZE as usize) * (GRID_SIZE as usize) {
            Some(FieldSamples { norms })
        } else {
            None
        }
    }

    /// The sample at the lattice point `(x, y)`.
    pub fn norm(&self, x: u32, y: u32) -> (n: u32)
        requires
            self.wf(),
            x < GRID_SIZE,
            y < GRID_SIZE,
        ensures
            n == self.norm_at(x as int, y as int),
    {
        assert(x * GRID_SIZE + y < GRID_SIZE * GRID_SIZE) by (nonlinear_arith)
            requires
                0 <= x < GRID_SIZE,
                0 <= y < GRID_SIZE,
        ;
        self.norms[(x as usize) * (GRID_SIZE as usize) + (y as usize)]
    }
}

/// The field is degenerate at the lattice point `(dx, dy)` of the
/// sector.
pub open spec fn degenerate_in_sector(
    field: FieldSamples,
    x_sector: u32,
    y_sector: u32,
    horizontal_sector_size: u32,
    vertical_sector_size: u32,
    dx: int,
    dy: int,
) -> bool {
    &&& 0 <= dx < horizontal_sector_size
    &&& 0 <= dy < vertical_sector_size
    &&& is_degenerate(
        field.norm_at(dx + x_sector * horizontal_sector_size, dy + y_sector * vertical_sector_size),
    )
}

/// The sector holds a lattice point at which the field is degenerate.
pub open spec fn sector_is_degenerate(
    field: FieldSamples,
    x_sector: u32,
    y_sector: u32,
    horizontal_sector_size: u32,
    vertical_sector_size: u32,
) -> bool {
    exists|dx: int, dy: int| #[trigger]
        degenerate_in_sector(
            field,
            x_sector,
            y_sector,
            horizontal_sector_size,
            vertical_sector_size,
            dx,
            dy,
        )
}

/// Decides whether the sector holds a lattice point at which the field
/// is degenerate.
pub fn sector_has_degenerate_point(
    x_sector: u32,
    y_sector: u32,
    horizontal_sector_size: u32,
    vertical_sector_size: u32,
    field: &FieldSamples,
) -> (found: bool)
    requires
        field.wf(),
        (x_sector + 1) * horizontal_sector_size <= GRID_SIZE,
        (y_sector + 1) * vertical_sector_size <= GRID_SIZE,
    ensures
        found == sector_is_degenerate(
            *field,
            x_sector,
            y_sector,
            horizontal_sector_size,
            vertical_sector_size,
        ),
{
    assert(x_sector * horizontal_sector_size + horizontal_sector_size <= GRID_SIZE
        && y_sector * vertical_sector_size + vertical_sector_size <= GRID_SIZE) by (nonlinear_arith)
        requires
            (x_sector + 1) * horizontal_sector_size <= GRID_SIZE,
            (y_sector + 1) * vertical_sector_size <= GRID_SIZE,
    ;
    assert(x_sector * horizontal_sector_size >= 0 && y_sector * vertical_sector_size >= 0)
        by (nonlinear_arith)
        requires
            x_sector >= 0,
            horizontal_sector_size >= 0,
            y_sector >= 0,
            vertical_sector_size >= 0,
    ;
    let x_base: u32 = x_sector * horizontal_sector_size;
    let y_base: u32 = y_sector * vertical_sector_size;
    let mut x_in: u32 = 0;
    while x_in < horizontal_sector_size
        invariant
            field.wf(),
            x_in <= horizontal_sector_size,
            x_base == x_sector * horizontal_sector_size,
            y_base == y_sector * vertical_sector_size,
            x_base + horizontal_sector_size <= GRID_SIZE,
            y_base + vertical_sector_size <= GRID_SIZE,
            forall|dx: int, dy: int|
                0 <= dx < x_in ==> !#[trigger] degenerate_in_sector(
                    *field,
                    x_sector,
                    y_sector,
                    horizontal_sector_size,
                    vertical_sector_size,
                    dx,
                    dy,
                ),
        decreases horizontal_sector_size - x_in,
    {
        let mut y_in: u32 = 0;
        while y_in < vertical_sector_size
            invariant
                field.wf(),
                x_in < horizontal_sector_size,
                y_in <= vertical_sector_size,
                x_base == x_sector * horizontal_sector_size,
                y_base == y_sector * vertical_sector_size,
                x_base + horizontal_sector_size <= GRID_SIZE,
                y_base + vertical_sector_size <= GRID_SIZE,
                forall|dy: int|
                    0 <= dy < y_in ==> !#[trigger] degenerate_in_sector(
                        *field,
                        x_sector,
                        y_sector,
                        horizontal_sector_size,
                        vertical_sector_size,
                        x_in as int,
                        dy,
                    ),
            decreases vertical_sector_size - y_in,
        {
            if field_is_degenerate(field.norm(x_in + x_base, y_in + y_base)) {
                assert(degenerate_in_sector(
                    *field,
                    x_sector,
                    y_sector,
                    horizontal_sector_size,
                    vertical_sector_size,
                    x_in as int,
                    y_in as int,
                ));
                return true;
            }
            y_in = y_in + 1;
        }
        x_in = x_in + 1;
    }
    false
}

/// The centre of sector `(sx, sy)`.
pub open spec fn sector_center(sx: int, sy: int) -> Point {
    Point {
        x: ((sx * SECTOR_SIZE + SECTOR_SIZE / 2) * UNIT) as i32,
        y: ((sy * SECTOR_SIZE + SECTOR_SIZE / 2) * UNIT) as i32,
    }
}

/// Sector `(sx, sy)` of the grid holds a degenerate lattice point.
pub open spec fn flagged(field: FieldSamples, sx: int, sy: int) -> bool {
    &&& 0 <= sx < SECTOR_COUNT
    &&& 0 <= sy < SECTOR_COUNT
    &&& sector_is_degenerate(field, sx as u32, sy as u32, SECTOR_SIZE, SECTOR_SIZE)
}

/// `d` is the distance from `point` to the centre of the nearest
/// sector that holds a degenerate lattice point, rounded down to a
/// whole unit; `None` where no sector does.
pub open spec fn is_degenerate_distance(
    field: FieldSamples,
    point: Point,
    d: Option<u64>,
) -> bool {
    match d {
        None => forall|sx: int, sy: int| !#[trigger] flagged(field, sx, sy),
        Some(v) => {
            &&& exists|sx: int, sy: int| #[trigger]
                flagged(field, sx, sy) && v == floor_sqrt(dist_sq(point, sector_center(sx, sy)))
            &&& forall|sx: int, sy: int| #[trigger]
                flagged(field, sx, sy) ==> v <= floor_sqrt(dist_sq(point, sector_center(sx, sy)))
        },
    }
}

/// The centre of a sector.
fn center_of(sx: u32, sy: u32) -> (c: Point)
    requires
        sx < SECTOR_COUNT,
        sy < SECTOR_COUNT,
    ensures
        c == sector_center(sx as int, sy as int),
{
    let x: u32 = (sx * SECTOR_SIZE + SECTOR_SIZE / 2) * UNIT;
    let y: u32 = (sy * SECTOR_SIZE + SECTOR_SIZE / 2) * UNIT;
    Point { x: x as i32, y: y as i32 }
}

/// Distance from `point` to the centre of the nearest sector in which
/// the field is degenerate somewhere, rounded down to a whole unit. The
/// grid is cut into sixteen by sixteen sectors, so the answer is exact
/// to a sector, not to a point.
pub fn closest_degenerate_point_distance(point: Point, field: &FieldSamples) -> (d: Option<u64>)
    requires
        field.wf(),
    ensures
        is_degenerate_distance(*field, point, d),
{
    let mut best: Option<u64> = None;
    let mut sx: u32 = 0;
    while sx < SECTOR_COUNT
        invariant
            field.wf(),
            sx <= SECTOR_COUNT,
            match best {
                None => forall|ax: int, ay: int| 0 <= ax < sx ==> !#[trigger] flagged(*field, ax, ay),
                Some(v) => {
                    &&& exists|ax: int, ay: int| #[trigger]
                        flagged(*field, ax, ay) && v == floor_sqrt(dist_sq(point, sector_center(ax, ay)))
                    &&& forall|ax: int, ay: int| #[trigger]
                        flagged(*field, ax, ay) && ax < sx ==> v <= floor_sqrt(
                            dist_sq(point, sector_center(ax, ay)),
                        )
                },
            },
        decreases SECTOR_COUNT - sx,
    {
        let mut sy: u32 = 0;
        while sy < SECTOR_COUNT
            invariant
                field.wf(),
                sx < SECTOR_COUNT,
                sy <= SECTOR_COUNT,
                match best {
                    None => forall|ax: int, ay: int|
                        0 <= ax < sx || (ax == sx && 0 <= ay < sy) ==> !#[trigger] flagged(
                            *field,
                            ax,
                            ay,
                        ),
                    Some(v) => {
                        &&& exists|ax: int, ay: int| #[trigger]
                            flagged(*field, ax, ay) && v == floor_sqrt(dist_sq(point, sector_center(ax, ay)))
                        &&& forall|ax: int, ay: int| #[trigger]
                            flagged(*field, ax, ay) && (ax < sx || (ax == sx && ay < sy)) ==> v
                                <= floor_sqrt(dist_sq(point, sector_center(ax, ay)))
                    },
                },
            decreases SECTOR_COUNT - sy,
        {
            if sector_has_degenerate_point(sx, sy, SECTOR_SIZE, SECTOR_SIZE, field) {
                let center = center_of(sx, sy);
                let d = point.distance(&center);
                assert(flagged(*field, sx as int, sy as int));
                let closer = match best {
                    None => true,
                    Some(v) => d < v,
                };
                if closer {
                    best = Some(d);
                }
            }
            sy = sy + 1;
        }
        sx = sx + 1;
    }
    best
}

/// Squared distance from `candidate` to the nearest of the points:
/// `None` where there is no point.
pub open spec fn is_clearance(candidate: Point, points: Seq<Point>, d: Option<u128>) -> bool {
    match d {
        None => points.len() == 0,
        Some(v) => {
            &&& exists|k: int| 0 <= k < points.len() && v == dist_sq(#[trigger] points[k], candidate)
            &&& forall|k: int| 0 <= k < points.len() ==> v <= dist_sq(#[trigger] points[k], candidate)
        },
    }
}

/// Squared distance from `candidate` to the nearest of the points.
pub fn closest_distance_to_points(candidate: Point, points: &Vec<Point>) -> (d: Option<u128>)
    ensures
        is_clearance(candidate, points@, d),
{
    let mut best: Option<u128> = None;
    let mut k: usize = 0;
    while k < points.len()
        invariant
            k <= points@.len(),
            is_clearance(candidate, points@.take(k as int), best),
        decreases points@.len() - k,
    {
        let d = points[k].distance_squared(&candidate);
        let closer = match best {
            None => true,
            Some(v) => d < v,
        };
        let ghost before = best;
        if closer {
            best = Some(d);
        }
        proof {
            let upto = points@.take(k + 1);
            assert(upto[k as int] == points@[k as int]);
            assert forall|j: int| 0 <= j < upto.len() implies best->0 <= dist_sq(
                #[trigger] upto[j],
                candidate,
            ) by {
                if j < k {
                    assert(points@.take(k as int)[j] == upto[j]);
                }
            }
            if !closer {
                let w = choose|j: int|
                    0 <= j < points@.take(k as int).len() && before->0 == dist_sq(
                        #[trigger] points@.take(k as int)[j],
                        candidate,
                    );
                assert(upto[w] == points@.take(k as int)[w]);
            }
        }
        k = k + 1;
    }
    proof {
        assert(points@.take(points@.len() as int) =~= points@);
    }
    best
}

/// Clearance `a` is larger than clearance `b`, where `None` stands for
/// a clearance without bound.
pub open spec fn clearer(a: Option<u128>, b: Option<u128>) -> bool {
    match (a, b) {
        (None, None) => false,
        (None, Some(_)) => true,
        (Some(_), None) => false,
        (Some(x), Some(y)) => x > y,
    }
}

/// The clearance of a candidate from the points.
pub open spec fn clearance_of(candidate: Point, points: Seq<Point>) -> Option<u128> {
    choose|d: Option<u128>| is_clearance(candidate, points, d)
}

/// Candidate `i` is the first whose clearance no other exceeds.
pub open spec fn is_farthest(candidates: Seq<Point>, points: Seq<Point>, i: int) -> bool {
    &&& 0 <= i < candidates.len()
    &&& forall|j: int|
        0 <= j < candidates.len() ==> !clearer(
            clearance_of(#[trigger] candidates[j], points),
            clearance_of(candidates[i], points),
        )
    &&& forall|j: int|
        0 <= j < i ==> clearer(
            clearance_of(candidates[i], points),
            clearance_of(#[trigger] candidates[j], points),
        )
}

/// A clearance query has one answer.
pub proof fn lemma_clearance_unique(
    candidate: Point,
    points: Seq<Point>,
    a: Option<u128>,
    b: Option<u128>,
)
    requires
        is_clearance(candidate, points, a),
        is_clearance(candidate, points, b),
    ensures
        a == b,
{
    match (a, b) {
        (Some(x), Some(y)) => {
            let i = choose|k: int| 0 <= k < points.len() && x == dist_sq(#[trigger] points[k], candidate);
            let j = choose|k: int| 0 <= k < points.len() && y == dist_sq(#[trigger] points[k], candidate);
            assert(x <= dist_sq(points[j], candidate));
            assert(y <= dist_sq(points[i], candidate));
        },
        (Some(x), None) => {
            let i = choose|k: int| 0 <= k < points.len() && x == dist_sq(#[trigger] points[k], candidate);
        },
        (None, Some(y)) => {
            let j = choose|k: int| 0 <= k < points.len() && y == dist_sq(#[trigger] points[k], candidate);
        },
        (None, None) => {},
    }
}

/// The candidate that lies farthest from all the points; of several,
/// the first.
pub fn farthest_candidate(candidates: &Vec<Point>, points: &Vec<Point>) -> (index: usize)
    requires
        candidates@.len() > 0,
    ensures
        is_farthest(candidates@, points@, index as int),
{
    let mut index: usize = 0;
    let mut best = closest_distance_to_points(candidates[0], points);
    proof {
        lemma_clearance_unique(candidates@[0], points@, best, clearance_of(candidates@[0], points@));
    }
    let mut j: usize = 1;
    while j < candidates.len()
        invariant
            1 <= j <= candidates@.len(),
            index < j,
            best == clearance_of(candidates@[index as int], points@),
            forall|k: int|
                0 <= k < j ==> !clearer(
                    clearance_of(#[trigger] candidates@[k], points@),
                    best,
                ),
            forall|k: int|
                0 <= k < index ==> clearer(best, clearance_of(#[trigger] candidates@[k], points@)),
        decreases candidates@.len() - j,
    {
        let d = closest_distance_to_points(candidates[j], points);
        proof {
            lemma_clearance_unique(
                candidates@[j as int],
                points@,
                d,
                clearance_of(candidates@[j as int], points@),
            );
        }
        let better = match (d, best) {
            (None, None) => false,
            (None, Some(_)) => true,
            (Some(_), None) => false,
            (Some(x), Some(y)) => x > y,
        };
        if better {
            index = j;
            best = d;
        }
        j = j + 1;
    }
    index
}

/// The point is a lattice point of the grid.
pub open spec fn on_lattice(p: Point) -> bool {
    exists|cx: int, cy: int|
        0 <= cx < GRID_SIZE && 0 <= cy < GRID_SIZE && #[trigger] lattice_point(cx, cy) == p
}

/// The lattice point in cell `(cx, cy)`.
pub open spec fn lattice_point(cx: int, cy: int) -> Point {
    Point { x: (cx * UNIT) as i32, y: (cy * UNIT) as i32 }
}

/// Point `k` is the best of ten lattice points: the one that lies
/// farthest from the points before it.
pub open spec fn is_best_of_draws(points: Seq<Point>, k: int) -> bool {
    exists|candidates: Seq<Point>, i: int|
        {
            &&& candidates.len() == CANDIDATE_COUNT
            &&& forall|j: int| 0 <= j < candidates.len() ==> on_lattice(#[trigger] candidates[j])
            &&& #[trigger] is_farthest(candidates, points.take(k), i)
            &&& points[k] == candidates[i]
        }
}

/// Spreads `point_count` points over the lattice of the grid. Each point
/// is the best of ten candidates drawn at random: the one that lies
/// farthest from the points placed before it.
pub fn distribute_points(point_count: u32) -> (points: Vec<Point>)
    ensures
        points@.len() == point_count,
        forall|k: int| 0 <= k < points@.len() ==> on_lattice(#[trigger] points@[k]),
        forall|k: int| 0 <= k < points@.len() ==> #[trigger] is_best_of_draws(points@, k),
{
    let mut rng = thread_generator();
    let mut points: Vec<Point> = Vec::new();
    while points.len() < point_count as usize
        invariant
            points@.len() <= point_count,
            forall|k: int| 0 <= k < points@.len() ==> on_lattice(#[trigger] points@[k]),
            forall|k: int| 0 <= k < points@.len() ==> #[trigger] is_best_of_draws(points@, k),
        decreases point_count - points@.len(),
    {
        let mut candidates: Vec<Point> = Vec::new();
        let mut c: usize = 0;
        while c < CANDIDATE_COUNT
            invariant
                c <= CANDIDATE_COUNT,
                candidates@.len() == c,
                forall|k: int| 0 <= k < candidates@.len() ==> on_lattice(#[trigger] candidates@[k]),
            decreases CANDIDATE_COUNT - c,
        {
            let cx = random_below(&mut rng, GRID_SIZE as usize);
            let cy = random_below(&mut rng, GRID_SIZE as usize);
            let x: u32 = (cx as u32) * UNIT;
            let y: u32 = (cy as u32) * UNIT;
            let candidate = Point { x: x as i32, y: y as i32 };
            assert(lattice_point(cx as int, cy as int) == candidate);
            candidates.push(candidate);
            c = c + 1;
        }
        let farthest = farthest_candidate(&candidates, &points);
        let ghost placed = points@;
        points.push(candidates[farthest]);
        proof {
            let n = placed.len() as int;
            assert(points@.take(n) =~= placed);
            assert(is_farthest(candidates@, points@.take(n), farthest as int));
            assert(is_best_of_draws(points@, n));
            assert forall|k: int| 0 <= k < n implies #[trigger] is_best_of_draws(points@, k) by {
                assert(is_best_of_draws(placed, k));
                assert(points@.take(k) =~= placed.take(k));
                assert(points@[k] == placed[k]);
            }
        }
    }
    points
}

} // verus!
