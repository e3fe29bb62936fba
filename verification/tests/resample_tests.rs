use street_plan::curve::{ControlPoint, Velocity};
use street_plan::point::Point;
use street_plan::resample::{evaluate_hermite_curve, resample_curve};

fn p(x: i32, y: i32) -> Point {
    Point { x, y }
}

fn cp(x: i32, y: i32, vx: i64, vy: i64) -> ControlPoint {
    ControlPoint { position: p(x, y), velocity: Velocity { x: vx, y: vy } }
}

#[test]
fn a_span_starts_and_ends_at_its_control_points() {
    let from = cp(100, -200, 5_000, 7_000);
    let to = cp(4_000, 9_000, -300, 12_345);
    assert_eq!(evaluate_hermite_curve(from, to, 0, 7), p(100, -200));
    assert_eq!(evaluate_hermite_curve(from, to, 7, 7), p(4_000, 9_000));
    assert_eq!(evaluate_hermite_curve(from, to, 1, 1), p(4_000, 9_000));
}

#[test]
fn a_span_with_matching_tangents_is_a_straight_line() {
    let from = cp(0, 0, 10_000, -20_000);
    let to = cp(10_000, -20_000, 10_000, -20_000);
    assert_eq!(evaluate_hermite_curve(from, to, 1, 4), p(2_500, -5_000));
    assert_eq!(evaluate_hermite_curve(from, to, 2, 4), p(5_000, -10_000));
    assert_eq!(evaluate_hermite_curve(from, to, 3, 4), p(7_500, -15_000));
}

#[test]
fn a_span_at_rest_at_both_ends_eases_in_and_out() {
    // x(t) = t^2 (300 - 200 t)
    let from = cp(0, 0, 0, 0);
    let to = cp(100, 0, 0, 0);
    assert_eq!(evaluate_hermite_curve(from, to, 1, 2), p(50, 0));
    assert_eq!(evaluate_hermite_curve(from, to, 1, 4), p(15, 0));
    assert_eq!(evaluate_hermite_curve(from, to, 3, 4), p(84, 0));
}

#[test]
fn every_product_with_the_parameter_rounds_toward_zero() {
    let from = cp(0, 0, 0, 0);
    let to = cp(100, -100, 0, 0);
    // -200 / 3 = -66; (300 - 66) / 3 = 78; 78 / 3 = 26
    assert_eq!(evaluate_hermite_curve(from, to, 1, 3), p(26, -26));
    // -400 / 3 = -133; (300 - 133) * 2 / 3 = 111; 111 * 2 / 3 = 74
    assert_eq!(evaluate_hermite_curve(from, to, 2, 3), p(74, -74));
}

#[test]
fn a_point_beyond_the_coordinate_range_is_held_at_its_end() {
    let from = cp(0, 0, i64::MAX, i64::MIN);
    let to = cp(0, 0, 0, 0);
    assert_eq!(evaluate_hermite_curve(from, to, 1, 2), p(i32::MAX, i32::MIN));
    assert_eq!(evaluate_hermite_curve(from, to, 0, 2), p(0, 0));
    assert_eq!(evaluate_hermite_curve(from, to, 2, 2), p(0, 0));
}

#[test]
fn the_finest_parameter_grid_does_not_overflow() {
    let from = cp(i32::MIN, i32::MAX, i64::MIN, i64::MAX);
    let to = cp(i32::MAX, i32::MIN, i64::MAX, i64::MIN);
    let n = i32::MAX as u32;
    assert_eq!(evaluate_hermite_curve(from, to, 0, n), p(i32::MIN, i32::MAX));
    assert_eq!(evaluate_hermite_curve(from, to, n, n), p(i32::MAX, i32::MIN));
}

#[test]
fn every_span_is_sampled_at_both_ends_and_between() {
    let curve = vec![cp(0, 0, 10_000, 0), cp(10_000, 0, 10_000, 0), cp(10_000, 100, 0, 0)];
    let points = resample_curve(&curve, 2);
    assert_eq!(
        points,
        vec![
            p(0, 0),
            p(5_000, 0),
            p(10_000, 0),
            p(10_000, 0),
            // x(t) = 10000 + t (10000 + t (-20000 + 10000 t)), y(t) = t^2 (300 - 200 t)
            p(11_250, 50),
            p(10_000, 100),
        ]
    );
}

#[test]
fn one_subdivision_gives_the_control_points_twice_over() {
    let curve = vec![cp(0, 0, 1, 2), cp(10, 20, 3, 4), cp(30, 40, 5, 6)];
    assert_eq!(resample_curve(&curve, 1), vec![p(0, 0), p(10, 20), p(10, 20), p(30, 40)]);
}

#[test]
fn a_negative_count_gives_no_points() {
    let curve = vec![cp(0, 0, 1, 2), cp(10, 20, 3, 4)];
    assert!(resample_curve(&curve, -1).is_empty());
    assert!(resample_curve(&curve, i32::MIN).is_empty());
}

#[test]
fn a_curve_of_one_control_point_has_no_span() {
    assert!(resample_curve(&vec![cp(5, 5, 1, 1)], 10).is_empty());
}

#[test]
fn the_number_of_points_is_spans_times_samples() {
    let curve: Vec<ControlPoint> = (0..6).map(|i| cp(i * 1_000, 0, 1_000, 0)).collect();
    assert_eq!(resample_curve(&curve, 10).len(), 55);
}
