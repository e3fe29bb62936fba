use street_plan::point::Point;
use street_plan::seeding::{
    closest_degenerate_point_distance, closest_distance_to_points, distribute_points,
    farthest_candidate, sector_has_degenerate_point, FieldSamples,
};
use street_plan::seeds::{
    field_has_vanished, field_is_degenerate, heap_to_vec, prioritize_points, SeedPoint, SeedQueue,
};

fn p(x: i32, y: i32) -> Point {
    Point { x, y }
}

fn seed(x: i32, priority: i64) -> SeedPoint {
    SeedPoint { seed: p(x, 0), priority, follow_major_eigenvectors: true }
}

fn field_with(degenerate: &[(usize, usize)]) -> FieldSamples {
    let mut norms = vec![100u32; 512 * 512];
    for (x, y) in degenerate {
        norms[x * 512 + y] = 0;
    }
    FieldSamples::new(norms).unwrap()
}

#[test]
fn the_queue_hands_out_the_highest_priority_first() {
    let mut queue = SeedQueue::new();
    for (x, priority) in [(1, 5), (2, -3), (3, 9), (4, 0), (5, 7)] {
        queue.push(seed(x, priority));
    }
    assert_eq!(queue.len(), 5);
    assert_eq!(queue.pop(), Some(seed(3, 9)));
    assert_eq!(queue.pop(), Some(seed(5, 7)));
    assert_eq!(queue.pop(), Some(seed(1, 5)));
    assert_eq!(queue.pop(), Some(seed(4, 0)));
    assert_eq!(queue.pop(), Some(seed(2, -3)));
    assert_eq!(queue.pop(), None);
    assert_eq!(queue.len(), 0);
}

#[test]
fn an_empty_queue_hands_out_nothing() {
    let mut queue = SeedQueue::new();
    assert_eq!(queue.len(), 0);
    assert_eq!(queue.pop(), None);
    assert!(heap_to_vec(&queue).is_empty());
}

#[test]
fn heap_to_vec_lists_the_seeds_from_the_highest_priority_down() {
    let queue = SeedQueue::from_vec(&vec![seed(1, 5), seed(2, -3), seed(3, 9), seed(4, 0)]);
    assert_eq!(heap_to_vec(&queue), vec![seed(3, 9), seed(1, 5), seed(4, 0), seed(2, -3)]);
    // the queue is still full
    assert_eq!(queue.len(), 4);
}

#[test]
fn heap_to_vec_keeps_equal_seeds() {
    let queue = SeedQueue::from_vec(&vec![seed(1, 5), seed(1, 5), seed(2, 5)]);
    let listed = heap_to_vec(&queue);
    assert_eq!(listed.len(), 3);
    assert_eq!(listed.iter().filter(|s| **s == seed(1, 5)).count(), 2);
    assert_eq!(listed.iter().filter(|s| **s == seed(2, 5)).count(), 1);
}

#[test]
fn extend_adds_every_seed() {
    let mut queue = SeedQueue::from_vec(&vec![seed(1, 5)]);
    queue.extend(&vec![seed(2, 8), seed(3, 1)]);
    queue.extend(&Vec::new());
    assert_eq!(heap_to_vec(&queue), vec![seed(2, 8), seed(1, 5), seed(3, 1)]);
}

#[test]
fn the_priorities_cover_the_whole_range() {
    let queue = SeedQueue::from_vec(&vec![seed(1, i64::MIN), seed(2, i64::MAX), seed(3, 0)]);
    assert_eq!(heap_to_vec(&queue), vec![seed(2, i64::MAX), seed(3, 0), seed(1, i64::MIN)]);
}

#[test]
fn a_magnitude_of_a_ten_thousandth_is_degenerate() {
    assert!(field_is_degenerate(0));
    assert!(field_is_degenerate(1));
    assert!(!field_is_degenerate(2));
    assert!(field_has_vanished(0));
    assert!(!field_has_vanished(1));
    assert!(!field_has_vanished(2));
}

#[test]
fn points_in_a_degenerate_field_are_not_queued() {
    let points = vec![p(1, 1), p(2, 2), p(3, 3), p(4, 4)];
    let queue = prioritize_points(&points, &vec![50, 1, 2, 0], &vec![10, 99, 30, 98]);
    assert_eq!(
        heap_to_vec(&queue),
        vec![
            SeedPoint { seed: p(3, 3), priority: 30, follow_major_eigenvectors: true },
            SeedPoint { seed: p(1, 1), priority: 10, follow_major_eigenvectors: true },
        ]
    );
}

#[test]
fn no_points_give_an_empty_queue() {
    assert_eq!(prioritize_points(&Vec::new(), &Vec::new(), &Vec::new()).len(), 0);
}

#[test]
fn field_samples_need_one_sample_for_every_lattice_point() {
    assert!(FieldSamples::new(vec![0; 512 * 512]).is_some());
    assert!(FieldSamples::new(vec![0; 512 * 512 - 1]).is_none());
    assert!(FieldSamples::new(vec![0; 512 * 512 + 1]).is_none());
    assert!(FieldSamples::new(Vec::new()).is_none());
}

#[test]
fn samples_stand_in_column_order() {
    let mut norms = vec![100u32; 512 * 512];
    norms[3 * 512 + 7] = 42;
    norms[511 * 512 + 511] = 43;
    let field = FieldSamples::new(norms).unwrap();
    assert_eq!(field.norm(3, 7), 42);
    assert_eq!(field.norm(7, 3), 100);
    assert_eq!(field.norm(511, 511), 43);
    assert_eq!(field.norm(0, 0), 100);
}

#[test]
fn a_sector_is_degenerate_if_one_of_its_samples_is() {
    let field = field_with(&[(40, 70)]);
    assert!(sector_has_degenerate_point(1, 2, 32, 32, &field));
    assert!(!sector_has_degenerate_point(2, 1, 32, 32, &field));
    assert!(!sector_has_degenerate_point(0, 0, 32, 32, &field));
    assert!(!sector_has_degenerate_point(15, 15, 32, 32, &field));
    // sectors of another size
    assert!(sector_has_degenerate_point(0, 0, 64, 128, &field));
    assert!(sector_has_degenerate_point(40, 70, 1, 1, &field));
    assert!(!sector_has_degenerate_point(41, 70, 1, 1, &field));
    assert!(!sector_has_degenerate_point(3, 3, 0, 0, &field));
}

#[test]
fn the_last_sample_of_a_sector_counts() {
    let field = field_with(&[(63, 95)]);
    assert!(sector_has_degenerate_point(1, 2, 32, 32, &field));
    assert!(!sector_has_degenerate_point(2, 3, 32, 32, &field));
    let corner = field_with(&[(511, 511)]);
    assert!(sector_has_degenerate_point(15, 15, 32, 32, &corner));
}

#[test]
fn a_magnitude_of_one_makes_a_sector_degenerate() {
    let mut norms = vec![2u32; 512 * 512];
    let field = FieldSamples::new(norms.clone()).unwrap();
    assert!(!sector_has_degenerate_point(0, 0, 32, 32, &field));
    norms[5] = 1;
    let field = FieldSamples::new(norms).unwrap();
    assert!(sector_has_degenerate_point(0, 0, 32, 32, &field));
}

#[test]
fn the_distance_goes_to_the_centre_of_the_nearest_degenerate_sector() {
    let field = field_with(&[(40, 70)]);
    // the centre of sector (1, 2) is the cell (48, 80): sqrt(48^2 + 80^2) = 93.2952... cells
    assert_eq!(closest_degenerate_point_distance(p(0, 0), &field), Some(932_952));
    assert_eq!(closest_degenerate_point_distance(p(480_000, 800_000), &field), Some(0));
    assert_eq!(closest_degenerate_point_distance(p(480_003, 799_996), &field), Some(5));
    assert_eq!(closest_degenerate_point_distance(p(480_000, 0), &field), Some(800_000));
}

#[test]
fn the_distance_is_not_squared() {
    let field = field_with(&[(40, 70), (500, 500)]);
    let found = closest_degenerate_point_distance(p(0, 0), &field).unwrap();
    // no farther than the centre of either flagged sector
    for centre in [p(480_000, 800_000), p(4_960_000, 4_960_000)] {
        assert!(found <= p(0, 0).distance(&centre));
    }
}

#[test]
fn of_several_degenerate_sectors_the_nearest_counts() {
    let field = field_with(&[(40, 70), (500, 500), (10, 300)]);
    // centres: (48, 80), (496, 496), (16, 304)
    assert_eq!(closest_degenerate_point_distance(p(0, 0), &field), Some(932_952));
    // sqrt(2) * 40000 = 56568.5...
    assert_eq!(closest_degenerate_point_distance(p(5_000_000, 5_000_000), &field), Some(56_568));
    assert_eq!(closest_degenerate_point_distance(p(160_000, 3_000_000), &field), Some(40_000));
}

#[test]
fn without_a_degenerate_sector_there_is_no_distance() {
    assert_eq!(closest_degenerate_point_distance(p(5, 5), &field_with(&[])), None);
}

#[test]
fn the_clearance_is_the_squared_distance_to_the_nearest_point() {
    assert_eq!(closest_distance_to_points(p(0, 5), &Vec::new()), None);
    assert_eq!(closest_distance_to_points(p(0, 5), &vec![p(0, 0), p(3, 4)]), Some(10));
    assert_eq!(closest_distance_to_points(p(0, 5), &vec![p(3, 4), p(0, 0)]), Some(10));
    assert_eq!(closest_distance_to_points(p(0, 5), &vec![p(0, 5)]), Some(0));
}

#[test]
fn the_farthest_candidate_is_the_first_of_the_clearest() {
    let candidates = vec![p(0, 0), p(10, 0), p(5, 0), p(-10, 0)];
    assert_eq!(farthest_candidate(&candidates, &vec![p(0, 0)]), 1);
    assert_eq!(farthest_candidate(&candidates, &vec![p(10, 0)]), 3);
    assert_eq!(farthest_candidate(&candidates, &vec![p(0, 0), p(10, 0), p(-10, 0)]), 2);
    assert_eq!(farthest_candidate(&candidates, &Vec::new()), 0);
    assert_eq!(farthest_candidate(&vec![p(7, 7)], &vec![p(7, 7)]), 0);
}

#[test]
fn distributed_points_lie_on_the_lattice_of_the_grid() {
    for count in [0u32, 1, 25, 200] {
        let points = distribute_points(count);
        assert_eq!(points.len(), count as usize);
        for point in points {
            assert_eq!(point.x % 10_000, 0);
            assert_eq!(point.y % 10_000, 0);
            assert!(0 <= point.x && point.x < 5_120_000);
            assert!(0 <= point.y && point.y < 5_120_000);
        }
    }
}

#[test]
fn distributed_points_are_spread() {
    // each point is the best of ten draws, so some two draws differ
    let points = distribute_points(50);
    assert!(points.iter().any(|point| *point != points[0]));
}
