//! Endpoint merging: the ends of finished curves that stop a little
//! short of a target network are moved onto it.

use vstd::prelude::*;
use crate::curve::{
    curves_ok, hit_of, polylines, raycast_to_curve_with_more_info, ControlPoint, HermiteCurve, Hit,
};
use crate::point::Point;

verus! {

/// Squared distance, in units, below which an end already lies on the
/// target: a thousandth of a cell, squared.
pub const TOUCHING_SQUARED: u128 = 100;

/// An end with this hit is moved: its nearest point is farther than a
/// thousandth of a cell and nearer than `connection_distance`.
pub open spec fn snaps(hit: Option<Hit>, connection_distance: u32) -> bool {
    match hit {
        None => false,
        Some(found) => TOUCHING_SQUARED < found.distance_squared < connection_distance
            * connection_distance,
    }
}

/// The control point `at` moved to the nearest point of the targets if
/// it snaps, with its velocity kept.
pub open spec fn snapped(
    at: ControlPoint,
    targets: Seq<Seq<ControlPoint>>,
    connection_distance: u32,
) -> ControlPoint {
    let hit = hit_of(targets, at.position);
    if snaps(hit, connection_distance) {
        ControlPoint { position: hit->0.point, velocity: at.velocity }
    } else {
        at
    }
}

/// The curve with its first and its last control point snapped, each on
/// its own; the interior is untouched.
pub open spec fn merged(
    curve: Seq<ControlPoint>,
    targets: Seq<Seq<ControlPoint>>,
    connection_distance: u32,
) -> Seq<ControlPoint> {
    curve.update(0, snapped(curve[0], targets, connection_distance)).update(
        curve.len() - 1,
        snapped(curve[curve.len() - 1], targets, connection_distance),
    )
}

/// Snaps one control point onto the targets if it qualifies.
fn snap(at: ControlPoint, targets: &Vec<HermiteCurve>, connection_distance: u32) -> (r:
    ControlPoint)
    requires
        curves_ok(polylines(targets@)),
    ensures
        r == snapped(at, polylines(targets@), connection_distance),
{
    let hit = raycast_to_curve_with_more_info(at.position, targets);
    match hit {
        None => at,
        Some(found) => {
            assert(connection_distance * connection_distance <= 0xffff_ffff * 0xffff_ffff)
                by (nonlinear_arith)
                requires
                    0 <= connection_distance <= 0xffff_ffff,
            ;
            let reach: u128 = (connection_distance as u128) * (connection_distance as u128);
            if found.distance_squared > TOUCHING_SQUARED && found.distance_squared < reach {
                ControlPoint { position: found.point, velocity: at.velocity }
            } else {
                at
            }
        },
    }
}

/// Moves the ends of each curve onto the nearest point of the target
/// curves, where that point is farther than a thousandth of a cell and
/// nearer than `connection_distance`. Interior control points and all
/// velocities stay as they are.
pub fn merge_road_endings(
    curves: &Vec<HermiteCurve>,
    curves_to_project_onto: &Vec<HermiteCurve>,
    connection_distance: u32,
) -> (out: Vec<HermiteCurve>)
    requires
        curves_ok(polylines(curves_to_project_onto@)),
        forall|k: int| 0 <= k < curves@.len() ==> (#[trigger] curves@[k])@.len() >= 1,
    ensures
        out@.len() == curves@.len(),
        forall|k: int|
            0 <= k < out@.len() ==> (#[trigger] out@[k])@ == merged(
                curves@[k]@,
                polylines(curves_to_project_onto@),
                connection_distance,
            ),
{
    let ghost targets = polylines(curves_to_project_onto@);
    let mut out: Vec<HermiteCurve> = Vec::new();
    let mut k: usize = 0;
    while k < curves.len()
        invariant
            k <= curves@.len(),
            targets == polylines(curves_to_project_onto@),
            curves_ok(targets),
            forall|j: int|
                0 <= j < curves@.len() ==> (#[trigger] curves@[j])@.len() >= 1,
            out@.len() == k,
            forall|j: int|
                0 <= j < k ==> (#[trigger] out@[j])@ == merged(
                    curves@[j]@,
                    targets,
                    connection_distance,
                ),
        decreases curves@.len() - k,
    {
        let curve = &curves[k];
        let last = curve.len() - 1;
        let start = snap(curve[0], curves_to_project_onto, connection_distance);
        let end = snap(curve[last], curves_to_project_onto, connection_distance);
        let mut new_curve: Vec<ControlPoint> = Vec::new();
        let mut i: usize = 0;
        while i < curve.len()
            invariant
                i <= curve@.len(),
                last == curve@.len() - 1,
                new_curve@.len() == i,
                forall|j: int|
                    0 <= j < i ==> #[trigger] new_curve@[j] == merged(
                        curve@,
                        targets,
                        connection_distance,
                    )[j],
                start == snapped(curve@[0], targets, connection_distance),
                end == snapped(curve@[last as int], targets, connection_distance),
            decreases curve@.len() - i,
        {
            let point = if i == last {
                end
            } else if i == 0 {
                start
            } else {
                curve[i]
            };
            new_curve.push(point);
            i = i + 1;
        }
        proof {
            assert(new_curve@ =~= merged(curve@, targets, connection_distance));
        }
        out.push(new_curve);
        k = k + 1;
    }
    out
}

/// Merging moves nothing but the two ends, and keeps every velocity.
pub proof fn lemma_merge_keeps_interior(
    curve: Seq<ControlPoint>,
    targets: Seq<Seq<ControlPoint>>,
    connection_distance: u32,
)
    requires
        curve.len() >= 1,
    ensures
        merged(curve, targets, connection_distance).len() == curve.len(),
        forall|i: int|
            0 < i < curve.len() - 1 ==> #[trigger] merged(curve, targets, connection_distance)[i]
                == curve[i],
        forall|i: int|
            0 <= i < curve.len() ==> (#[trigger] merged(
                curve,
                targets,
                connection_distance,
            )[i]).velocity == curve[i].velocity,
{
}

} // verus!
