use street_plan::curve::{
    project_vector, raycast_to_curve, raycast_to_curve_with_more_info, segment_distance_squared,
    ControlPoint, Hit, Velocity,
};
use street_plan::ratio::mul_div;
use street_plan::point::{
    clamp_vec_to_grid, clamp_vector_between_points, isqrt, Point, GRID_EXTENT, GRID_SIZE, UNIT,
};

fn p(x: i32, y: i32) -> Point {
    Point { x, y }
}

fn curve(points: &[(i32, i32)]) -> Vec<ControlPoint> {
    points
        .iter()
        .map(|(x, y)| ControlPoint { position: p(*x, *y), velocity: Velocity { x: 0, y: 0 } })
        .collect()
}

#[test]
fn isqrt_rounds_down() {
    assert_eq!(isqrt(0), 0);
    assert_eq!(isqrt(1), 1);
    assert_eq!(isqrt(3), 1);
    assert_eq!(isqrt(4), 2);
    assert_eq!(isqrt(99), 9);
    assert_eq!(isqrt(100), 10);
    assert_eq!(isqrt(101), 10);
    assert_eq!(isqrt(1 << 64), 1 << 32);
    assert_eq!(isqrt((1 << 64) - 1), (1 << 32) - 1);
    assert_eq!(isqrt(u128::MAX), u64::MAX);
}

#[test]
fn the_grid_extent_is_the_grid_size_in_units() {
    assert_eq!(GRID_EXTENT as u32, GRID_SIZE * UNIT);
}

#[test]
fn distance_squared_is_exact() {
    assert_eq!(p(0, 0).distance_squared(&p(3, 4)), 25);
    assert_eq!(p(3, 4).distance_squared(&p(0, 0)), 25);
    assert_eq!(p(-2, 7).distance_squared(&p(-2, 7)), 0);
    assert_eq!(
        p(i32::MIN, i32::MIN).distance_squared(&p(i32::MAX, i32::MAX)),
        36893488130239234050
    );
}

#[test]
fn distance_rounds_down() {
    assert_eq!(p(0, 0).distance(&p(3, 4)), 5);
    assert_eq!(p(0, 0).distance(&p(1, 1)), 1);
    assert_eq!(p(0, 0).distance(&p(2, 2)), 2);
    assert_eq!(p(0, 0).distance(&p(10000, 10000)), 14142);
}

#[test]
fn new_point_holds_its_coordinates() {
    assert_eq!(Point::new(3, -4), p(3, -4));
}

#[test]
fn on_grid_includes_the_borders() {
    assert!(p(0, 0).is_on_grid());
    assert!(p(GRID_EXTENT, GRID_EXTENT).is_on_grid());
    assert!(!p(-1, 0).is_on_grid());
    assert!(!p(0, -1).is_on_grid());
    assert!(!p(GRID_EXTENT + 1, 0).is_on_grid());
    assert!(!p(0, GRID_EXTENT + 1).is_on_grid());
}

#[test]
fn clamp_between_points_uses_the_bounding_box() {
    assert_eq!(clamp_vector_between_points(p(0, 0), p(10, 5), p(20, -3)), p(10, 0));
    assert_eq!(clamp_vector_between_points(p(10, 5), p(0, 0), p(20, -3)), p(10, 0));
    assert_eq!(clamp_vector_between_points(p(0, 5), p(10, 0), p(-4, 9)), p(0, 5));
    assert_eq!(clamp_vector_between_points(p(0, 0), p(10, 5), p(4, 3)), p(4, 3));
}

#[test]
fn clamp_to_grid_moves_points_onto_the_grid() {
    assert_eq!(clamp_vec_to_grid(p(-5, 6_000_000)), p(0, 5_120_000));
    assert_eq!(clamp_vec_to_grid(p(17, 23)), p(17, 23));
    assert_eq!(clamp_vec_to_grid(p(i32::MAX, i32::MIN)), p(5_120_000, 0));
}

#[test]
fn projection_falls_on_the_segment() {
    assert_eq!(project_vector(p(3, 7), p(0, 0), p(10, 0)), p(3, 0));
    assert_eq!(project_vector(p(3, -7), p(10, 0), p(0, 0)), p(3, 0));
}

#[test]
fn projection_is_limited_to_the_ends() {
    assert_eq!(project_vector(p(-4, 2), p(0, 0), p(10, 0)), p(0, 0));
    assert_eq!(project_vector(p(15, 1), p(0, 0), p(10, 0)), p(10, 0));
    assert_eq!(project_vector(p(0, 0), p(0, 0), p(10, 0)), p(0, 0));
    assert_eq!(project_vector(p(10, 0), p(0, 0), p(10, 0)), p(10, 0));
}

#[test]
fn projection_onto_a_point_is_the_point() {
    assert_eq!(project_vector(p(15, 1), p(4, 4), p(4, 4)), p(4, 4));
}

#[test]
fn projection_rounds_toward_the_start() {
    assert_eq!(project_vector(p(1, 0), p(0, 0), p(3, 3)), p(0, 0));
    assert_eq!(project_vector(p(2, 0), p(0, 0), p(3, 3)), p(1, 1));
    assert_eq!(project_vector(p(-1, 0), p(0, 0), p(-3, -3)), p(0, 0));
    assert_eq!(project_vector(p(-2, 0), p(0, 0), p(-3, -3)), p(-1, -1));
    assert_eq!(project_vector(p(5, 0), p(0, 0), p(3, 3)), p(2, 2));
}

#[test]
fn projection_works_at_the_ends_of_the_coordinate_range() {
    let a = p(i32::MIN, i32::MIN);
    let b = p(i32::MAX, i32::MAX);
    // the projection lies 2^31 of the 2^32 - 1 units along either axis
    assert_eq!(project_vector(p(0, 0), a, b), p(0, 0));
    assert_eq!(project_vector(p(1, 0), a, b), p(0, 0));
    assert_eq!(project_vector(p(1, 1), a, b), p(1, 1));
    assert_eq!(project_vector(b, a, b), b);
    assert_eq!(project_vector(a, a, b), a);
}

#[test]
fn quotients_of_wide_products_are_exact() {
    assert_eq!(mul_div(7, 9, 4), 15);
    assert_eq!(mul_div(0, 9, 4), 0);
    assert_eq!(mul_div(9, 0, 4), 0);
    assert_eq!(mul_div(1, 1, 2), 0);
    let wide: u128 = 1 << 66;
    assert_eq!(mul_div(wide, wide, wide), wide);
    assert_eq!(mul_div(wide, wide - 1, wide), wide - 1);
    assert_eq!(mul_div(wide - 1, wide - 1, wide), wide - 2);
    // (2^65 + 1)^2 / (2^65 + 3) = 2^65 - 1, rest 4
    assert_eq!(mul_div((1 << 65) + 1, (1 << 65) + 1, (1 << 65) + 3), (1 << 65) - 1);
    assert_eq!(mul_div(281_518_288, 281_518_288, 3_095_809), 25_599_947_050);
}

#[test]
fn the_distance_to_a_segment_is_rounded_down() {
    // the line through (0, 0) and (3, 3): the squared distance of (1, 0) is a half
    assert_eq!(segment_distance_squared(p(1, 0), p(0, 0), p(3, 3)), 0);
    assert_eq!(segment_distance_squared(p(2, 0), p(0, 0), p(3, 3)), 2);
    assert_eq!(segment_distance_squared(p(3, 0), p(0, 0), p(3, 3)), 4);
    assert_eq!(segment_distance_squared(p(5, 0), p(0, 0), p(3, 3)), 12);
    // beyond the ends the distance goes to the end
    assert_eq!(segment_distance_squared(p(7, 0), p(0, 0), p(3, 3)), 25);
    assert_eq!(segment_distance_squared(p(-3, -4), p(0, 0), p(3, 3)), 25);
    assert_eq!(segment_distance_squared(p(5, 5), p(4, 4), p(4, 4)), 2);
}

#[test]
fn the_distance_to_a_segment_is_not_measured_to_the_rounded_foot() {
    let (a, b) = (p(1_000_000, 1_000_000), p(1_001_695, 1_000_472));
    let q = p(957_081, 1_154_136);
    // the foot lies 4487 / 3095809 of the way along the segment and is rounded to `a`
    assert_eq!(project_vector(q, a, b), p(1_000_002, 1_000_000));
    assert_eq!(q.distance_squared(&a), 25_599_947_057);
    assert_eq!(segment_distance_squared(q, a, b), 25_599_947_050);
    let curves = vec![curve(&[(1_000_000, 1_000_000), (1_001_695, 1_000_472)])];
    assert_eq!(raycast_to_curve(q, &curves), Some(25_599_947_050));
}

#[test]
fn no_end_of_a_segment_is_nearer_than_the_segment() {
    let mut state: u32 = 7;
    let mut draw = |range: i32| {
        state = state.wrapping_mul(1_103_515_245).wrapping_add(12_345);
        ((state >> 8) % (2 * range as u32 + 1)) as i32 - range
    };
    for _ in 0..5_000 {
        let a = p(draw(2_000), draw(2_000));
        let b = p(a.x + draw(50), a.y + draw(50));
        let q = p(draw(300_000), draw(300_000));
        let d = segment_distance_squared(q, a, b);
        assert!(d <= q.distance_squared(&a));
        assert!(d <= q.distance_squared(&b));
        // and it is the true distance rounded down: the rounded foot is no nearer, less rounding
        let foot = project_vector(q, a, b);
        let around = q.distance(&foot) as u128 + 2;
        assert!(d <= around * around);
    }
}

#[test]
fn the_distance_at_the_ends_of_the_coordinate_range_does_not_overflow() {
    let a = p(i32::MIN, i32::MIN);
    let b = p(i32::MAX, i32::MAX);
    // the far corner lies 2^32 - 1 from the centre of the diagonal along either axis
    assert_eq!(segment_distance_squared(p(i32::MIN, i32::MAX), a, b), 9_223_372_032_559_808_512);
    assert_eq!(segment_distance_squared(p(0, 0), a, b), 0);
    assert_eq!(segment_distance_squared(p(i32::MAX, i32::MIN), b, a), 9_223_372_032_559_808_512);
}

#[test]
fn raycast_without_curves_finds_nothing() {
    assert_eq!(raycast_to_curve(p(5, 5), &Vec::new()), None);
    assert_eq!(raycast_to_curve_with_more_info(p(5, 5), &Vec::new()), None);
}

#[test]
fn raycast_measures_to_the_nearest_segment() {
    let curves = vec![curve(&[(0, 0), (10, 0), (10, 10)]), curve(&[(0, 20), (10, 20)])];
    assert_eq!(raycast_to_curve(p(5, 3), &curves), Some(9));
    assert_eq!(raycast_to_curve(p(13, 5), &curves), Some(9));
    assert_eq!(raycast_to_curve(p(5, 18), &curves), Some(4));
    assert_eq!(raycast_to_curve(p(10, 0), &curves), Some(0));
    assert_eq!(raycast_to_curve(p(-3, -4), &curves), Some(25));
}

#[test]
fn raycast_reports_the_first_nearest_segment() {
    let curves = vec![curve(&[(0, 0), (10, 0), (10, 10)]), curve(&[(0, 20), (10, 20)])];
    assert_eq!(
        raycast_to_curve_with_more_info(p(5, 3), &curves),
        Some(Hit { distance_squared: 9, point: p(5, 0), curve: 0, segment: 0 })
    );
    assert_eq!(
        raycast_to_curve_with_more_info(p(13, 5), &curves),
        Some(Hit { distance_squared: 9, point: p(10, 5), curve: 0, segment: 1 })
    );
    assert_eq!(
        raycast_to_curve_with_more_info(p(5, 18), &curves),
        Some(Hit { distance_squared: 4, point: p(5, 20), curve: 1, segment: 0 })
    );
    // the corner belongs to both segments of the first curve: the first one is named
    assert_eq!(
        raycast_to_curve_with_more_info(p(12, -2), &curves),
        Some(Hit { distance_squared: 8, point: p(10, 0), curve: 0, segment: 0 })
    );
    // halfway between the two curves the first curve is named
    assert_eq!(
        raycast_to_curve_with_more_info(p(5, 10), &curves),
        Some(Hit { distance_squared: 25, point: p(10, 10), curve: 0, segment: 1 })
    );
}
