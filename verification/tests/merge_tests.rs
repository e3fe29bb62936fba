use street_plan::curve::{ControlPoint, Velocity};
use street_plan::merge::merge_road_endings;
use street_plan::point::Point;

fn cp(x: i32, y: i32, vx: i64, vy: i64) -> ControlPoint {
    ControlPoint { position: Point { x, y }, velocity: Velocity { x: vx, y: vy } }
}

fn target() -> Vec<Vec<ControlPoint>> {
    vec![vec![cp(0, 0, 0, 0), cp(100_000, 0, 0, 0)]]
}

#[test]
fn an_end_within_reach_is_moved_onto_the_target() {
    let curves = vec![vec![cp(50_000, 500, 7, 8), cp(50_000, 40_000, 1, 2), cp(50_000, 90_000, 3, 4)]];
    let out = merge_road_endings(&curves, &target(), 1_000);
    assert_eq!(
        out,
        vec![vec![cp(50_000, 0, 7, 8), cp(50_000, 40_000, 1, 2), cp(50_000, 90_000, 3, 4)]]
    );
}

#[test]
fn both_ends_are_moved_each_on_its_own() {
    let curves = vec![vec![cp(20_000, 500, 7, 8), cp(50_000, 40_000, 1, 2), cp(80_000, -300, 3, 4)]];
    let out = merge_road_endings(&curves, &target(), 1_000);
    assert_eq!(
        out,
        vec![vec![cp(20_000, 0, 7, 8), cp(50_000, 40_000, 1, 2), cp(80_000, 0, 3, 4)]]
    );
    let only_end = vec![vec![cp(20_000, 5_000, 7, 8), cp(80_000, -300, 3, 4)]];
    assert_eq!(
        merge_road_endings(&only_end, &target(), 1_000),
        vec![vec![cp(20_000, 5_000, 7, 8), cp(80_000, 0, 3, 4)]]
    );
}

#[test]
fn an_end_that_touches_the_target_stays() {
    // a thousandth of a cell is ten units
    let touching = vec![vec![cp(50_000, 10, 7, 8), cp(50_000, 90_000, 3, 4)]];
    assert_eq!(merge_road_endings(&touching, &target(), 1_000), touching);
    let on_it = vec![vec![cp(50_000, 0, 7, 8), cp(50_000, 90_000, 3, 4)]];
    assert_eq!(merge_road_endings(&on_it, &target(), 1_000), on_it);
    let just_off = vec![vec![cp(50_000, 11, 7, 8), cp(50_000, 90_000, 3, 4)]];
    assert_eq!(
        merge_road_endings(&just_off, &target(), 1_000),
        vec![vec![cp(50_000, 0, 7, 8), cp(50_000, 90_000, 3, 4)]]
    );
}

#[test]
fn an_end_at_the_connection_distance_stays() {
    let at = vec![vec![cp(50_000, 1_000, 7, 8), cp(50_000, 90_000, 3, 4)]];
    assert_eq!(merge_road_endings(&at, &target(), 1_000), at);
    let inside = vec![vec![cp(50_000, 999, 7, 8), cp(50_000, 90_000, 3, 4)]];
    assert_eq!(
        merge_road_endings(&inside, &target(), 1_000),
        vec![vec![cp(50_000, 0, 7, 8), cp(50_000, 90_000, 3, 4)]]
    );
}

#[test]
fn without_targets_nothing_moves() {
    let curves = vec![vec![cp(50_000, 500, 7, 8), cp(50_000, 90_000, 3, 4)]];
    assert_eq!(merge_road_endings(&curves, &Vec::new(), 1_000), curves);
    assert_eq!(merge_road_endings(&Vec::new(), &target(), 1_000), Vec::<Vec<ControlPoint>>::new());
}

#[test]
fn an_end_beyond_the_target_moves_to_its_end() {
    let curves = vec![vec![cp(100_300, 400, 7, 8), cp(150_000, 90_000, 3, 4)]];
    assert_eq!(
        merge_road_endings(&curves, &target(), 1_000),
        vec![vec![cp(100_000, 0, 7, 8), cp(150_000, 90_000, 3, 4)]]
    );
}

#[test]
fn a_curve_of_one_point_is_moved_as_its_own_end() {
    let curves = vec![vec![cp(50_000, 500, 7, 8)]];
    assert_eq!(merge_road_endings(&curves, &target(), 1_000), vec![vec![cp(50_000, 0, 7, 8)]]);
}

#[test]
fn every_curve_is_merged() {
    let curves = vec![
        vec![cp(10_000, 500, 1, 1), cp(10_000, 90_000, 1, 1)],
        vec![cp(20_000, 50_000, 2, 2), cp(20_000, 90_000, 2, 2)],
        vec![cp(30_000, 90_000, 3, 3), cp(30_000, -20, 3, 3)],
    ];
    assert_eq!(
        merge_road_endings(&curves, &target(), 1_000),
        vec![
            vec![cp(10_000, 0, 1, 1), cp(10_000, 90_000, 1, 1)],
            vec![cp(20_000, 50_000, 2, 2), cp(20_000, 90_000, 2, 2)],
            vec![cp(30_000, 90_000, 3, 3), cp(30_000, 0, 3, 3)],
        ]
    );
}
