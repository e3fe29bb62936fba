use street_plan::curve::{ControlPoint, Velocity};
use street_plan::point::Point;
use street_plan::tensor::{Contribution, Tensor};
use street_plan::tracer::{Fraction, trace_lanes, TraceEvent, TraceOutput, Tracer};

fn p(x: i32, y: i32) -> Point {
    Point { x, y }
}

fn curve(points: &[(i32, i32)]) -> Vec<ControlPoint> {
    points
        .iter()
        .map(|(x, y)| ControlPoint { position: p(*x, *y), velocity: Velocity { x: 0, y: 0 } })
        .collect()
}

fn output(tag: i32) -> TraceOutput {
    TraceOutput { path: vec![p(tag, 0), p(tag, 1)], new_seeds: Vec::new() }
}

/// Runs a trace that moves by `step` at every step, for at most `limit` steps.
fn run(tracer: &mut Tracer, step: (i32, i32), separation: u32, curves: &Vec<Vec<ControlPoint>>, limit: usize) -> usize {
    let mut steps = 0;
    while tracer.is_running() && steps < limit {
        let at = tracer.position();
        let position = p(at.x + step.0, at.y + step.1);
        tracer.advance(TraceEvent::Stepped { position, separation }, curves);
        steps += 1;
    }
    steps
}

#[test]
fn a_seed_on_a_curve_is_rejected() {
    let curves = vec![curve(&[(0, 0), (100_000, 0)])];
    let tracer = Tracer::start(p(50_000, 0), 1_000, 2_000, 2_000_000, &curves);
    assert!(tracer.is_rejected());
    assert!(!tracer.is_running());
    let out = tracer.finish();
    assert!(out.path.is_empty());
    assert!(out.new_seeds.is_empty());
}

#[test]
fn a_seed_on_a_curve_is_rejected_whatever_the_separation() {
    let curves = vec![curve(&[(0, 0), (100_000, 0)])];
    for separation in [0, 1, 160_000, u32::MAX] {
        let tracer = Tracer::start(p(100_000, 0), separation, 2_000, 2_000_000, &curves);
        assert!(tracer.is_rejected());
        assert!(tracer.finish().path.is_empty());
    }
}

#[test]
fn a_rejected_trace_takes_no_step() {
    let curves = vec![curve(&[(0, 0), (100_000, 0)])];
    let mut tracer = Tracer::start(p(50_000, 0), 1_000, 2_000, 2_000_000, &curves);
    tracer.advance(TraceEvent::Stepped { position: p(50_000, 900_000), separation: 1_000 }, &curves);
    tracer.advance(TraceEvent::Stepped { position: p(50_000, 990_000), separation: 1_000 }, &curves);
    assert_eq!(tracer.position(), p(50_000, 0));
    assert!(tracer.is_rejected());
    assert!(tracer.finish().path.is_empty());
}

#[test]
fn a_seed_within_the_separation_is_rejected() {
    let curves = vec![curve(&[(0, 0), (100_000, 0)])];
    assert!(Tracer::start(p(50_000, 999), 1_000, 2_000, 2_000_000, &curves).is_rejected());
    assert!(Tracer::start(p(50_000, 1_000), 1_000, 2_000, 2_000_000, &curves).is_rejected());
    let clear = Tracer::start(p(50_000, 1_001), 1_000, 2_000, 2_000_000, &curves);
    assert!(!clear.is_rejected());
    assert!(clear.is_running());
}

#[test]
fn a_seed_off_the_grid_does_not_run() {
    let tracer = Tracer::start(p(-1, 5), 1_000, 2_000, 2_000_000, &Vec::new());
    assert!(!tracer.is_rejected());
    assert!(!tracer.is_running());
    assert!(tracer.finish().path.is_empty());
}

#[test]
fn a_straight_run_stops_at_the_greatest_length() {
    let mut tracer = Tracer::start(p(1_000_000, 1_000_000), 160_000, 2_000, 2_000_000, &Vec::new());
    let steps = run(&mut tracer, (2_000, 0), 160_000, &Vec::new(), 10_000);
    // the trace stops with the first step that takes it beyond two hundred cells
    assert_eq!(steps, 1_001);
    assert_eq!(tracer.position(), p(3_002_000, 1_000_000));
    let out = tracer.finish();
    // the seed, and every fifth step from the first on; the last step is not sampled
    assert_eq!(out.path.len(), 201);
    assert_eq!(out.path[0], p(1_000_000, 1_000_000));
    assert_eq!(out.path[1], p(1_002_000, 1_000_000));
    assert_eq!(out.path[2], p(1_012_000, 1_000_000));
    assert_eq!(out.path[200], p(2_992_000, 1_000_000));
    let first = out.path[0];
    let last = out.path[out.path.len() - 1];
    assert!(first.distance(&last) >= 2_000);
    let length: u64 = out.path.windows(2).map(|pair| pair[0].distance_up(&pair[1])).sum();
    assert!(length <= 2_000_000);
    // a seed after every 160000 units of travel
    assert_eq!(out.new_seeds.len(), 12);
    assert_eq!(out.new_seeds[0], (p(1_160_000, 1_000_000), Fraction { num: 160_000, den: 2_002_000 }));
    assert_eq!(
        out.new_seeds[11],
        (p(2_920_000, 1_000_000), Fraction { num: 1_920_000, den: 2_002_000 })
    );
}

#[test]
fn the_path_is_never_longer_than_the_greatest_length() {
    // six steps of a fifth of a cell, and a greatest length of one cell
    let mut tracer = Tracer::start(p(2_560_000, 2_560_000), 160_000, 2_000, 10_000, &Vec::new());
    let steps = run(&mut tracer, (2_000, 0), 160_000, &Vec::new(), 100);
    assert_eq!(steps, 6);
    let out = tracer.finish();
    assert_eq!(out.path, vec![p(2_560_000, 2_560_000), p(2_562_000, 2_560_000)]);
}

#[test]
fn a_step_that_ends_just_at_the_greatest_length_is_sampled() {
    let mut tracer = Tracer::start(p(2_560_000, 2_560_000), 160_000, 10_000, 10_000, &Vec::new());
    let steps = run(&mut tracer, (10_000, 0), 160_000, &Vec::new(), 100);
    assert_eq!(steps, 2);
    let out = tracer.finish();
    assert_eq!(out.path, vec![p(2_560_000, 2_560_000), p(2_570_000, 2_560_000)]);
}

#[test]
fn the_length_of_a_slanted_step_is_rounded_up() {
    // a step of (10001, 10001) is 14143.4... units long and counts as 14144:
    // three of them do not fit into 42431 units
    let mut tracer = Tracer::start(p(2_560_000, 2_560_000), 160_000, 10_000, 42_431, &Vec::new());
    let steps = run(&mut tracer, (10_001, 10_001), 160_000, &Vec::new(), 100);
    assert_eq!(steps, 3);
    let out = tracer.finish();
    assert_eq!(out.path.len(), 3);
    let length: u64 = out.path.windows(2).map(|pair| pair[0].distance_up(&pair[1])).sum();
    assert_eq!(length, 28_288);
    let mut longer = Tracer::start(p(2_560_000, 2_560_000), 160_000, 10_000, 42_432, &Vec::new());
    assert_eq!(run(&mut longer, (10_001, 10_001), 160_000, &Vec::new(), 100), 4);
    assert_eq!(longer.finish().path.len(), 4);
}

#[test]
fn a_grid_field_is_traced_along_a_straight_line() {
    // one grid element without rotation: the same tensor everywhere
    let field = Tensor::compose(&vec![Contribution { tensor: Tensor { a: 10_000, b: 0 }, weight: 8_000 }]);
    assert!(!field.is_degenerate());
    let major = field.eigenvectors().major;
    let center = p(2_560_000, 2_560_000);
    let mut tracer = Tracer::start(center, 160_000, 2_000, u32::MAX, &Vec::new());
    let mut steps = 0;
    while tracer.is_running() {
        let at = tracer.position();
        // a step of a fifth of a cell along the major direction
        let position = p(at.x + major.x / 5, at.y + major.y / 5);
        tracer.advance(TraceEvent::Stepped { position, separation: 160_000 }, &Vec::new());
        steps += 1;
    }
    assert_eq!(steps, 1_281);
    assert!(!tracer.position().is_on_grid());
    let out = tracer.finish();
    assert_eq!(out.path[0], center);
    assert!(out.path.iter().all(|point| point.y == center.y));
    assert!(out.path.windows(2).all(|pair| pair[0].x < pair[1].x));
    assert_eq!(out.path[out.path.len() - 1], p(5_122_000, 2_560_000));
}

#[test]
fn a_run_ends_where_it_leaves_the_grid() {
    let mut tracer = Tracer::start(p(5_110_000, 1_000_000), 160_000, 2_000, 2_000_000, &Vec::new());
    let steps = run(&mut tracer, (2_000, 0), 160_000, &Vec::new(), 10_000);
    // the border itself is on the grid
    assert_eq!(steps, 6);
    assert_eq!(tracer.position(), p(5_122_000, 1_000_000));
    let out = tracer.finish();
    assert_eq!(out.path, vec![p(5_110_000, 1_000_000), p(5_112_000, 1_000_000), p(5_122_000, 1_000_000)]);
}

#[test]
fn a_vanished_field_ends_the_trace() {
    let mut tracer = Tracer::start(p(1_000_000, 1_000_000), 160_000, 2_000, 2_000_000, &Vec::new());
    run(&mut tracer, (0, 2_000), 160_000, &Vec::new(), 7);
    assert!(tracer.is_running());
    tracer.advance(TraceEvent::FieldVanished, &Vec::new());
    assert!(!tracer.is_running());
    assert!(!tracer.is_rejected());
    let out = tracer.finish();
    assert_eq!(out.path, vec![p(1_000_000, 1_000_000), p(1_000_000, 1_002_000), p(1_000_000, 1_012_000)]);
}

#[test]
fn a_field_that_vanishes_at_the_seed_leaves_nothing() {
    let mut tracer = Tracer::start(p(1_000_000, 1_000_000), 160_000, 2_000, 2_000_000, &Vec::new());
    tracer.advance(TraceEvent::FieldVanished, &Vec::new());
    let out = tracer.finish();
    assert!(out.path.is_empty());
    assert!(out.new_seeds.is_empty());
}

#[test]
fn a_path_that_comes_back_to_its_origin_is_closed() {
    let mut tracer = Tracer::start(p(1_000_000, 1_000_000), 160_000, 2_000, 2_000_000, &Vec::new());
    tracer.advance(TraceEvent::Stepped { position: p(1_000_000, 1_002_000), separation: 160_000 }, &Vec::new());
    assert!(tracer.is_running());
    // a hundredth of a cell from the origin
    tracer.advance(TraceEvent::Stepped { position: p(1_000_100, 1_000_000), separation: 160_000 }, &Vec::new());
    assert!(!tracer.is_running());
    let mut other = Tracer::start(p(1_000_000, 1_000_000), 160_000, 2_000, 2_000_000, &Vec::new());
    other.advance(TraceEvent::Stepped { position: p(1_000_101, 1_000_000), separation: 160_000 }, &Vec::new());
    assert!(other.is_running());
}

#[test]
fn the_distance_to_the_curves_is_checked_when_the_margin_is_used_up() {
    let curves = vec![curve(&[(0, 0), (0, 5_000_000)])];
    // the seed lies 100000 units from the curve: a margin of 80000
    let mut tracer = Tracer::start(p(100_000, 2_000_000), 20_000, 2_000, 2_000_000, &curves);
    assert!(tracer.is_running());
    let steps = run(&mut tracer, (-2_000, 0), 20_000, &curves, 1_000);
    // after forty steps the margin is used up, and the trace is 20000 from the curve
    assert_eq!(steps, 40);
    assert_eq!(tracer.position(), p(20_000, 2_000_000));
    let out = tracer.finish();
    assert_eq!(out.path.len(), 9);
    assert_eq!(out.path[8], p(28_000, 2_000_000));
}

#[test]
fn a_check_that_finds_margin_lets_the_trace_go_on() {
    let curves = vec![curve(&[(0, 0), (0, 5_000_000)])];
    let mut tracer = Tracer::start(p(100_000, 2_000_000), 20_000, 2_000, 2_000_000, &curves);
    // moving along the curve: every check finds the same margin
    let steps = run(&mut tracer, (0, 2_000), 20_000, &curves, 100);
    assert_eq!(steps, 100);
    assert!(tracer.is_running());
}

#[test]
fn a_step_of_a_cell_or_more_is_sampled_every_time() {
    let mut tracer = Tracer::start(p(1_000_000, 1_000_000), 160_000, 10_000, 2_000_000, &Vec::new());
    run(&mut tracer, (10_000, 0), 160_000, &Vec::new(), 50);
    let out = tracer.finish();
    assert_eq!(out.path.len(), 51);
    assert_eq!(out.path[50], p(1_500_000, 1_000_000));
    assert_eq!(out.new_seeds.len(), 3);
    let mut long = Tracer::start(p(1_000_000, 1_000_000), 160_000, 25_000, 2_000_000, &Vec::new());
    run(&mut long, (25_000, 0), 160_000, &Vec::new(), 4);
    assert_eq!(long.finish().path.len(), 5);
}

#[test]
fn half_cell_steps_are_sampled_every_other_step() {
    let mut tracer = Tracer::start(p(1_000_000, 1_000_000), 160_000, 5_000, 2_000_000, &Vec::new());
    run(&mut tracer, (5_000, 0), 160_000, &Vec::new(), 6);
    let out = tracer.finish();
    assert_eq!(
        out.path,
        vec![p(1_000_000, 1_000_000), p(1_005_000, 1_000_000), p(1_015_000, 1_000_000), p(1_025_000, 1_000_000)]
    );
}

#[test]
fn traces_are_put_in_the_order_of_their_tags() {
    let ordered = trace_lanes(vec![(2, output(20)), (0, output(0)), (1, output(10))]);
    assert_eq!(ordered.len(), 3);
    assert_eq!(ordered[0].path[0], p(0, 0));
    assert_eq!(ordered[1].path[0], p(10, 0));
    assert_eq!(ordered[2].path[0], p(20, 0));
}

#[test]
fn a_tag_that_comes_twice_keeps_the_later_trace() {
    let ordered = trace_lanes(vec![(1, output(5)), (1, output(6)), (1, output(7))]);
    assert_eq!(ordered.len(), 3);
    assert!(ordered[0].path.is_empty());
    assert_eq!(ordered[1].path[0], p(7, 0));
    assert!(ordered[2].path.is_empty());
    assert!(ordered[2].new_seeds.is_empty());
}

#[test]
fn no_traces_give_no_lanes() {
    assert!(trace_lanes(Vec::new()).is_empty());
}
