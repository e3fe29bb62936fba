use street_plan::curve::{ControlPoint, Velocity};
use street_plan::plan::{
    initial_seeds, starting_points, StreetPlan, ALPHA, BETA, BLEND_FACTOR, FOUND_SEED_PRIORITY,
    MAX_TRACE_LENGTH, POINT_SIDE_PADDING, STARTING_POINT_COUNT, STEP_SIZE,
};
use street_plan::point::Point;
use street_plan::seeds::{heap_to_vec, SeedPoint, SeedQueue, TraceSeeds};
use street_plan::tracer::{Fraction, TraceOutput};

fn p(x: i32, y: i32) -> Point {
    Point { x, y }
}

fn seed(x: i32, priority: i64) -> SeedPoint {
    SeedPoint { seed: p(x, 0), priority, follow_major_eigenvectors: true }
}

/// A straight trace of forty cells along the x-axis at height `y`.
fn trace(y: i32, seeds: Vec<(Point, Fraction)>) -> TraceOutput {
    TraceOutput { path: (0..41).map(|k| p(k * 10_000, y)).collect(), new_seeds: seeds }
}

/// The curve that is fitted to `trace(y, ..)`.
fn fitted(y: i32) -> Vec<ControlPoint> {
    vec![
        ControlPoint { position: p(0, y), velocity: Velocity { x: 250_000, y: 0 } },
        ControlPoint { position: p(200_000, y), velocity: Velocity { x: 350_000, y: 0 } },
        ControlPoint { position: p(400_000, y), velocity: Velocity { x: 250_000, y: 0 } },
    ]
}

#[test]
fn the_settings_of_a_plan() {
    assert_eq!(STEP_SIZE, 2_000);
    assert_eq!(MAX_TRACE_LENGTH, 2_000_000);
    assert_eq!(ALPHA, 300);
    assert_eq!(BETA, 3_000);
    assert_eq!(POINT_SIDE_PADDING, 20);
    assert_eq!(BLEND_FACTOR, 7_000);
    assert_eq!(FOUND_SEED_PRIORITY, 0);
}

#[test]
fn there_are_thirty_starting_points_on_the_grid() {
    let points = starting_points();
    assert_eq!(points.len(), STARTING_POINT_COUNT);
    assert_eq!(points[0], p(3_910_000, 1_130_000));
    assert_eq!(points[6], p(0, 3_030_000));
    assert_eq!(points[7], p(1_470_000, 0));
    assert_eq!(points[29], p(4_470_000, 2_240_000));
    for point in points {
        assert!(point.is_on_grid());
    }
}

#[test]
fn given_seeds_are_queued_as_they_are() {
    let given = vec![seed(1, 4), seed(2, 9)];
    let queue = initial_seeds(&TraceSeeds::Specific(given), &Vec::new(), &Vec::new());
    assert_eq!(heap_to_vec(&queue), vec![seed(2, 9), seed(1, 4)]);
}

#[test]
fn a_random_plan_starts_from_the_fixed_points() {
    let mut norms = vec![100u32; 30];
    norms[3] = 0;
    norms[4] = 1;
    let priorities: Vec<i64> = (0..30).collect();
    let queue = initial_seeds(&TraceSeeds::Random(5), &norms, &priorities);
    let listed = heap_to_vec(&queue);
    assert_eq!(listed.len(), 28);
    assert_eq!(
        listed[0],
        SeedPoint { seed: p(4_470_000, 2_240_000), priority: 29, follow_major_eigenvectors: true }
    );
    assert_eq!(
        listed[27],
        SeedPoint { seed: p(3_910_000, 1_130_000), priority: 0, follow_major_eigenvectors: true }
    );
    assert!(listed.iter().all(|s| s.priority != 3 && s.priority != 4));
}

#[test]
fn passes_take_turns_between_the_families() {
    let queue = SeedQueue::from_vec(&vec![seed(1, 4), seed(2, 9)]);
    let mut plan = StreetPlan::new(queue, 160_000, 3, Vec::new(), Vec::new());
    let first = plan.next_pass().unwrap();
    assert!(first.follow_major_eigenvectors);
    assert_eq!(first.seeds, vec![seed(2, 9), seed(1, 4)]);
    plan.accept(Vec::new());
    let second = plan.next_pass().unwrap();
    assert!(!second.follow_major_eigenvectors);
    assert_eq!(second.seeds, vec![seed(2, 9), seed(1, 4)]);
    plan.accept(Vec::new());
    assert!(plan.next_pass().unwrap().follow_major_eigenvectors);
    plan.accept(Vec::new());
    assert!(plan.next_pass().is_none());
}

#[test]
fn a_plan_of_no_passes_is_done_at_once() {
    let plan = StreetPlan::new(SeedQueue::new(), 160_000, 0, vec![fitted(0)], Vec::new());
    assert!(plan.next_pass().is_none());
    let (major, minor) = plan.finish();
    assert!(major.is_empty());
    assert!(minor.is_empty());
}

#[test]
fn accepted_curves_join_the_family_of_the_pass() {
    let given_major = vec![fitted(0)];
    let given_minor = vec![fitted(5_000_000), fitted(4_000_000)];
    let mut plan = StreetPlan::new(SeedQueue::new(), 160_000, 2, given_major.clone(), given_minor.clone());
    assert_eq!(plan.obstacles(), &given_major);
    // the second trace lies within the separation of the first, the third of the given curve
    plan.accept(vec![
        trace(1_000_000, Vec::new()),
        trace(1_100_000, Vec::new()),
        trace(100_000, Vec::new()),
        trace(2_000_000, Vec::new()),
    ]);
    assert_eq!(plan.obstacles(), &given_minor);
    // the family of the second pass does not hold the major curves
    plan.accept(vec![trace(1_000_000, Vec::new()), trace(4_100_000, Vec::new())]);
    let (major, minor) = plan.finish();
    assert_eq!(major, vec![fitted(1_000_000), fitted(2_000_000)]);
    assert_eq!(minor, vec![fitted(1_000_000)]);
}

fn two_points(from: (i32, i32), to: (i32, i32)) -> TraceOutput {
    TraceOutput { path: vec![p(from.0, from.1), p(to.0, to.1)], new_seeds: Vec::new() }
}

#[test]
fn traces_that_start_nearer_than_the_separation_leave_one_curve() {
    let mut plan = StreetPlan::new(SeedQueue::new(), 160_000, 1, Vec::new(), Vec::new());
    plan.accept(vec![
        two_points((2_000_000, 2_000_000), (2_281_993, 2_186_759)),
        two_points((1_911_655, 2_133_398), (1_723_918, 2_416_867)),
    ]);
    let (major, minor) = plan.finish();
    assert_eq!(major.len(), 1);
    assert_eq!(major[0][0].position, p(2_000_000, 2_000_000));
    assert_eq!(major[0][1].position, p(2_281_993, 2_186_759));
    assert!(minor.is_empty());
}

#[test]
fn accepted_curves_keep_the_separation_from_the_given_ones() {
    let given = vec![vec![
        ControlPoint { position: p(2_000_000, 2_000_000), velocity: Velocity { x: 0, y: 0 } },
        ControlPoint { position: p(2_281_993, 2_186_759), velocity: Velocity { x: 0, y: 0 } },
    ]];
    let mut plan = StreetPlan::new(SeedQueue::new(), 160_000, 1, given.clone(), Vec::new());
    plan.accept(vec![
        two_points((1_911_655, 2_133_398), (1_723_918, 2_416_867)),
        two_points((1_000_000, 3_000_000), (1_000_000, 3_400_000)),
    ]);
    let (major, _) = plan.finish();
    assert_eq!(major.len(), 1);
    for control_point in &major[0] {
        for fixed in &given[0] {
            assert!(control_point.position.distance_squared(&fixed.position) >= 160_000 * 160_000);
        }
    }
}

#[test]
fn empty_traces_bring_nothing() {
    let mut plan = StreetPlan::new(SeedQueue::new(), 160_000, 1, Vec::new(), Vec::new());
    plan.accept(vec![
        TraceOutput { path: Vec::new(), new_seeds: Vec::new() },
        trace(1_000_000, Vec::new()),
        TraceOutput { path: Vec::new(), new_seeds: Vec::new() },
    ]);
    assert_eq!(plan.finish().0, vec![fitted(1_000_000)]);
}

#[test]
fn a_curve_shorter_than_twice_the_separation_is_not_accepted() {
    // the fitted curve is 400000 units long
    let mut plan = StreetPlan::new(SeedQueue::new(), 200_001, 1, Vec::new(), Vec::new());
    plan.accept(vec![trace(0, Vec::new())]);
    assert!(plan.finish().0.is_empty());
    let mut plan = StreetPlan::new(SeedQueue::new(), 200_000, 1, Vec::new(), Vec::new());
    plan.accept(vec![trace(0, Vec::new())]);
    assert_eq!(plan.finish().0, vec![fitted(0)]);
}

#[test]
fn seeds_of_accepted_curves_are_traced_in_later_passes() {
    let queue = SeedQueue::from_vec(&vec![seed(1, 4), seed(2, -9)]);
    let mut plan = StreetPlan::new(queue, 160_000, 2, Vec::new(), Vec::new());
    plan.accept(vec![
        trace(1_000_000, vec![(p(7, 7), Fraction { num: 1, den: 2 }), (p(8, 8), Fraction { num: 3, den: 2 })]),
        trace(1_000_001, vec![(p(9, 9), Fraction { num: 1, den: 2 })]),
        trace(3_000_000, vec![(p(5, 5), Fraction { num: 0, den: 1 })]),
    ]);
    let pass = plan.next_pass().unwrap();
    assert!(!pass.follow_major_eigenvectors);
    assert_eq!(pass.seeds.len(), 4);
    assert_eq!(pass.seeds[0], seed(1, 4));
    assert_eq!(pass.seeds[3], seed(2, -9));
    let found = |at: Point| SeedPoint { seed: at, priority: 0, follow_major_eigenvectors: true };
    assert!(pass.seeds[1..3].contains(&found(p(7, 7))));
    assert!(pass.seeds[1..3].contains(&found(p(5, 5))));
}

#[test]
fn seeds_found_in_a_minor_pass_follow_the_minor_eigenvectors() {
    let mut plan = StreetPlan::new(SeedQueue::new(), 160_000, 3, Vec::new(), Vec::new());
    plan.accept(Vec::new());
    plan.accept(vec![trace(1_000_000, vec![(p(7, 7), Fraction { num: 1, den: 2 })])]);
    let pass = plan.next_pass().unwrap();
    assert_eq!(
        pass.seeds,
        vec![SeedPoint { seed: p(7, 7), priority: 0, follow_major_eigenvectors: false }]
    );
}

#[test]
fn finish_hands_back_only_what_the_plan_added() {
    let given_major = vec![fitted(0), fitted(500_000)];
    let given_minor = vec![fitted(250_000)];
    let mut plan = StreetPlan::new(SeedQueue::new(), 160_000, 2, given_major, given_minor);
    plan.accept(vec![trace(1_000_000, Vec::new())]);
    plan.accept(vec![trace(2_000_000, Vec::new()), trace(3_000_000, Vec::new())]);
    let (major, minor) = plan.finish();
    assert_eq!(major, vec![fitted(1_000_000)]);
    assert_eq!(minor, vec![fitted(2_000_000), fitted(3_000_000)]);
}
