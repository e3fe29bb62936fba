use street_plan::clip::{clip_curve, clip_pass, SmoothedCurve};
use street_plan::tracer::Fraction;
use street_plan::curve::{ControlPoint, Velocity};
use street_plan::point::Point;

fn p(x: i32, y: i32) -> Point {
    Point { x, y }
}

fn cp(x: i32, y: i32) -> ControlPoint {
    ControlPoint { position: p(x, y), velocity: Velocity { x: 1, y: 2 } }
}

fn curve(points: &[(i32, i32)]) -> Vec<ControlPoint> {
    points.iter().map(|(x, y)| cp(*x, *y)).collect()
}

fn candidate(points: &[(i32, i32)]) -> SmoothedCurve {
    SmoothedCurve { curve: curve(points), new_seeds: Vec::new() }
}

fn horizontal(y: i32, from: i32, count: i32, spacing: i32) -> Vec<(i32, i32)> {
    (0..count).map(|k| (from + k * spacing, y)).collect()
}

#[test]
fn a_first_point_inside_the_reduced_separation_drops_the_curve() {
    let previous = vec![curve(&[(0, 0), (100_000, 0)])];
    // only the first control point is near the obstacle
    let mut points = vec![(50_000, 10)];
    points.extend(horizontal(900_000, 50_000, 50, 10_000));
    let batch = vec![candidate(&points)];
    let out = clip_pass(batch, &previous, |_p: Point| 1_000, 0);
    assert!(out.is_empty());
}

#[test]
fn a_first_point_on_an_obstacle_drops_the_curve() {
    let previous = vec![curve(&[(0, 0), (100_000, 0)])];
    let batch = vec![candidate(&[(50_000, 0), (50_000, 500_000), (50_000, 900_000)])];
    assert!(clip_pass(batch, &previous, |_p: Point| 1, 0).is_empty());
}

#[test]
fn the_reduced_separation_is_eighty_five_hundredths_of_the_square() {
    // the first control point lies at squared distance 340 from the obstacle
    let obstacles = vec![curve(&[(0, 0), (-1_000, 0)])];
    let far = candidate(&[(18, 4), (5_000, 4), (9_000, 4)]);
    // 100 * 340 = 85 * 20 * 20: not inside the reduced separation, but not clear either
    assert_eq!(clip_curve(&far, &obstacles, 1, &|_p: Point| 20, 0), None);
    // with a separation of 18 the first point is clear: 340 >= 324
    let kept = clip_curve(&far, &obstacles, 1, &|_p: Point| 18, 0);
    assert_eq!(kept.map(|cut| cut.0.len()), Some(3));
    // with a separation of 19 it is not clear (340 < 361) though outside the reduced one
    assert_eq!(clip_curve(&far, &obstacles, 1, &|_p: Point| 19, 0), None);
}

#[test]
fn a_curve_is_cut_at_the_first_violation() {
    let previous = vec![curve(&[(0, 0), (0, 100_000)])];
    let points = [(50_000, 0), (40_000, 0), (30_000, 0), (20_000, 0), (10_000, 0), (5_000, 0)];
    let batch = vec![candidate(&points)];
    let out = clip_pass(batch, &previous, |_p: Point| 15_000, 20_000);
    assert_eq!(out.len(), 1);
    assert_eq!(out[0].0, curve(&points[..4]));
    assert!(out[0].1.is_empty());
}

#[test]
fn control_points_behind_the_first_violation_are_not_looked_at() {
    let previous = vec![curve(&[(0, 0), (0, 100_000)])];
    // the fourth point violates, the later ones are clear again
    let points = [(50_000, 0), (40_000, 0), (30_000, 0), (10_000, 0), (60_000, 0), (70_000, 0)];
    let out = clip_pass(vec![candidate(&points)], &previous, |_p: Point| 15_000, 0);
    assert_eq!(out.len(), 1);
    assert_eq!(out[0].0, curve(&points[..3]));
}

#[test]
fn a_cut_shorter_than_the_least_length_is_dropped() {
    let previous = vec![curve(&[(0, 0), (0, 100_000)])];
    let points = [(50_000, 0), (40_000, 0), (30_000, 0), (20_000, 0), (10_000, 0), (5_000, 0)];
    // the cut is 30000 units long
    assert_eq!(clip_pass(vec![candidate(&points)], &previous, |_p: Point| 15_000, 30_000).len(), 1);
    assert!(clip_pass(vec![candidate(&points)], &previous, |_p: Point| 15_000, 30_001).is_empty());
}

#[test]
fn the_length_is_the_sum_of_the_rounded_down_distances() {
    // two spans of length sqrt(2) * 10000 = 14142.1...: 28284 in all
    let points = [(0, 0), (10_000, 10_000), (20_000, 0)];
    assert_eq!(clip_pass(vec![candidate(&points)], &Vec::new(), |_p: Point| 1, 28_284).len(), 1);
    assert!(clip_pass(vec![candidate(&points)], &Vec::new(), |_p: Point| 1, 28_285).is_empty());
}

#[test]
fn a_cut_of_fewer_than_two_control_points_is_dropped() {
    let previous = vec![curve(&[(0, 0), (0, 100_000)])];
    let points = [(50_000, 0), (10_000, 0), (5_000, 0)];
    assert!(clip_pass(vec![candidate(&points)], &previous, |_p: Point| 15_000, 0).is_empty());
}

#[test]
fn seeds_survive_only_before_the_cut() {
    let previous = vec![curve(&[(0, 0), (0, 100_000)])];
    let points = [(50_000, 0), (40_000, 0), (30_000, 0), (20_000, 0), (10_000, 0), (5_000, 0)];
    let seeds = vec![
        (p(1, 1), Fraction { num: 1, den: 2 }),
        (p(2, 2), Fraction { num: 2, den: 3 }),
        (p(3, 3), Fraction { num: 0, den: 7 }),
        (p(4, 4), Fraction { num: 3, den: 4 }),
        (p(5, 5), Fraction { num: 0, den: 0 }),
        (p(6, 6), Fraction { num: 1999, den: 3000 }),
    ];
    let batch = vec![SmoothedCurve { curve: curve(&points), new_seeds: seeds }];
    // four of six control points stay: a seed stays if its fraction is below two thirds
    let out = clip_pass(batch, &previous, |_p: Point| 15_000, 0);
    assert_eq!(out.len(), 1);
    assert_eq!(out[0].1, vec![p(1, 1), p(3, 3), p(6, 6)]);
}

#[test]
fn an_uncut_curve_keeps_every_seed_before_its_end() {
    let points = horizontal(0, 0, 5, 10_000);
    let seeds = vec![
        (p(1, 1), Fraction { num: 99, den: 100 }),
        (p(2, 2), Fraction { num: 100, den: 100 }),
    ];
    let batch = vec![SmoothedCurve { curve: curve(&points), new_seeds: seeds }];
    let out = clip_pass(batch, &Vec::new(), |_p: Point| 1_000, 0);
    assert_eq!(out.len(), 1);
    assert_eq!(out[0].0, curve(&points));
    assert_eq!(out[0].1, vec![p(1, 1)]);
}

#[test]
fn the_first_candidate_of_a_batch_is_checked_like_the_others() {
    let points = horizontal(0, 0, 5, 10_000);
    let out = clip_pass(vec![candidate(&points)], &Vec::new(), |_p: Point| 1_000, 0);
    assert_eq!(out.len(), 1);
    assert_eq!(out[0].0, curve(&points));
}

#[test]
fn two_seeds_closer_than_the_separation_leave_one_curve() {
    let first = horizontal(1_000_000, 1_000_000, 40, 10_000);
    let second = horizontal(1_010_000, 1_000_000, 40, 10_000);
    let batch = vec![candidate(&first), candidate(&second)];
    let out = clip_pass(batch, &Vec::new(), |_p: Point| 160_000, 320_000);
    assert_eq!(out.len(), 1);
    assert_eq!(out[0].0, curve(&first));
}

#[test]
fn a_start_nearer_than_the_separation_to_an_end_drops_the_curve() {
    // the second candidate starts 159999.8 units from the first end of the first
    let first = [(1_000_000, 1_000_000), (1_001_695, 1_000_472)];
    let second = [(957_081, 1_154_136), (757_081, 1_354_136)];
    let out = clip_pass(
        vec![candidate(&first), candidate(&second)],
        &Vec::new(),
        |_p: Point| 160_000,
        0,
    );
    assert_eq!(out.len(), 1);
    assert_eq!(out[0].0, curve(&first));
}

#[test]
fn no_more_curves_come_out_than_go_in() {
    let batch: Vec<SmoothedCurve> =
        (0..7).map(|k| candidate(&horizontal(k * 90_000, 0, 6, 10_000))).collect();
    for separation in [0u32, 50_000, 100_000, 500_000] {
        let copy: Vec<SmoothedCurve> = batch
            .iter()
            .map(|c| SmoothedCurve { curve: c.curve.clone(), new_seeds: Vec::new() })
            .collect();
        let out = clip_pass(copy, &Vec::new(), |_p: Point| separation, 0);
        assert!(out.len() <= 7);
        assert!(out.iter().all(|cut| cut.0.len() >= 2));
    }
}

#[test]
fn dropped_candidates_still_block_later_ones() {
    let previous = vec![curve(&[(0, 0), (0, 100_000)])];
    // the first candidate starts on the previous curve and is dropped
    let first = horizontal(50_000, 0, 30, 10_000);
    // the second would be clear of the previous curve, but not of the first candidate
    let second = horizontal(51_000, 100_000, 30, 10_000);
    let out = clip_pass(
        vec![candidate(&first), candidate(&second)],
        &previous,
        |_p: Point| 20_000,
        0,
    );
    assert!(out.is_empty());
    let alone = clip_pass(vec![candidate(&second)], &previous, |_p: Point| 20_000, 0);
    assert_eq!(alone.len(), 1);
}

#[test]
fn survivors_come_out_in_the_order_of_the_batch() {
    let a = horizontal(0, 0, 10, 10_000);
    let b = horizontal(1_000, 0, 10, 10_000);
    let c = horizontal(500_000, 0, 10, 10_000);
    let d = horizontal(1_000_000, 0, 10, 10_000);
    let out = clip_pass(
        vec![candidate(&a), candidate(&b), candidate(&c), candidate(&d)],
        &Vec::new(),
        |_p: Point| 100_000,
        0,
    );
    assert_eq!(out.len(), 3);
    assert_eq!(out[0].0, curve(&a));
    assert_eq!(out[1].0, curve(&c));
    assert_eq!(out[2].0, curve(&d));
}

#[test]
fn the_separation_may_vary_with_the_position() {
    let previous = vec![curve(&[(0, 0), (0, 1_000_000)])];
    let points = [(50_000, 0), (50_000, 100_000), (50_000, 200_000), (50_000, 300_000)];
    // the separation grows with y and exceeds the distance of 50000 at the third point
    let out = clip_pass(vec![candidate(&points)], &previous, |q: Point| (q.y / 3) as u32, 0);
    assert_eq!(out.len(), 1);
    assert_eq!(out[0].0, curve(&points[..2]));
}

#[test]
fn clip_curve_looks_only_at_the_first_curves() {
    let obstacles = vec![curve(&[(0, 0), (0, 100_000)]), curve(&[(60_000, 0), (60_000, 100_000)])];
    let one = candidate(&[(50_000, 0), (50_000, 50_000), (50_000, 90_000)]);
    let kept = clip_curve(&one, &obstacles, 1, &|_p: Point| 20_000, 0);
    assert_eq!(kept.map(|cut| cut.0.len()), Some(3));
    assert_eq!(clip_curve(&one, &obstacles, 2, &|_p: Point| 20_000, 0), None);
}
