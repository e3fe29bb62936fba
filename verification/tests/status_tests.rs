use street_plan::point::Point;
use street_plan::status::{NodeType, SkipList};
use street_plan::sweep::{crosses_left, Segment, SweepOrder};

fn vertical(x: i32) -> Segment {
    Segment { start: Point { x, y: 0 }, end: Point { x, y: 1000 } }
}

fn verticals(xs: &[i32]) -> Vec<Segment> {
    xs.iter().map(|x| vertical(*x)).collect()
}

fn walk(list: &SkipList, level: usize) -> Vec<NodeType> {
    let mut it = list.iter(level);
    let mut out = Vec::new();
    while let Some(node) = it.next() {
        out.push(node);
    }
    out
}

#[test]
fn new_list_is_empty() {
    let list = SkipList::new();
    assert_eq!(list.len(), 0);
    assert_eq!(list.height(), 1);
    assert_eq!(list.to_vec(), Vec::<usize>::new());
}

#[test]
fn insert_orders_handles_by_crossing() {
    let segments = verticals(&[50, 10, 30, 20, 40]);
    let mut list = SkipList::new();
    for element in 0..segments.len() {
        list.insert(element, &segments, 500);
    }
    assert_eq!(list.to_vec(), vec![1, 3, 2, 4, 0]);
    assert_eq!(list.len(), 5);
}

#[test]
fn insert_reports_the_neighbours() {
    let segments = verticals(&[10, 30, 20]);
    let mut list = SkipList::new();
    assert_eq!(list.insert(0, &segments, 500), (None, None));
    assert_eq!(list.insert(1, &segments, 500), (Some(0), None));
    assert_eq!(list.insert(2, &segments, 500), (Some(0), Some(1)));
    assert_eq!(list.to_vec(), vec![0, 2, 1]);
}

#[test]
fn insert_before_everything_has_no_left_neighbour() {
    let segments = verticals(&[10, 5]);
    let mut list = SkipList::new();
    list.insert(0, &segments, 0);
    assert_eq!(list.insert(1, &segments, 0), (None, Some(0)));
}

#[test]
fn remove_of_a_missing_handle_returns_false() {
    let segments = verticals(&[10, 30, 20]);
    let mut list = SkipList::new();
    list.insert(0, &segments, 500);
    list.insert(1, &segments, 500);
    assert!(!list.remove(2, &segments, 500));
    assert_eq!(list.to_vec(), vec![0, 1]);
    assert_eq!(list.len(), 2);
}

#[test]
fn remove_on_an_empty_list_returns_false() {
    let segments = verticals(&[10]);
    let mut list = SkipList::new();
    assert!(!list.remove(0, &segments, 500));
    assert_eq!(list.len(), 0);
}

#[test]
fn remove_of_a_stored_handle_returns_true() {
    let segments = verticals(&[10, 30, 20]);
    let mut list = SkipList::new();
    for element in 0..3 {
        list.insert(element, &segments, 500);
    }
    assert!(list.remove(2, &segments, 500));
    assert_eq!(list.to_vec(), vec![0, 1]);
    assert!(!list.remove(2, &segments, 500));
}

#[test]
fn round_trip_leaves_the_list_empty() {
    let xs: Vec<i32> = (0..64).map(|i| (i * 37) % 101).collect();
    let segments = verticals(&xs);
    let mut list = SkipList::new();
    for element in 0..segments.len() {
        list.insert(element, &segments, 250);
    }
    assert_eq!(list.len(), 64);
    let order: Vec<usize> = (0..64).map(|i| (i * 29 + 7) % 64).collect();
    for element in order {
        assert!(list.remove(element, &segments, 250));
    }
    assert_eq!(list.len(), 0);
    assert_eq!(list.to_vec(), Vec::<usize>::new());
    assert_eq!(walk(&list, 0), vec![NodeType::Start, NodeType::End]);
}

#[test]
fn level_zero_stays_ascending_under_inserts_and_removals() {
    let xs: Vec<i32> = (0..200).map(|i| (i * 7919) % 10007).collect();
    let segments = verticals(&xs);
    let mut list = SkipList::new();
    for element in 0..200 {
        list.insert(element, &segments, 10);
        if element % 3 == 2 {
            assert!(list.remove(element - 1, &segments, 10));
        }
        let stored = list.to_vec();
        for pair in stored.windows(2) {
            assert!(xs[pair[0]] <= xs[pair[1]]);
        }
        assert_eq!(stored.len(), list.len());
    }
}

#[test]
fn every_level_is_an_ascending_part_of_the_bottom_level() {
    let xs: Vec<i32> = (0..300).map(|i| (i * 7919) % 10007).collect();
    let segments = verticals(&xs);
    let mut list = SkipList::new();
    for element in 0..300 {
        list.insert(element, &segments, 10);
    }
    let bottom = list.to_vec();
    for level in 0..list.height() {
        let nodes = walk(&list, level);
        assert_eq!(nodes.first(), Some(&NodeType::Start));
        assert_eq!(nodes.last(), Some(&NodeType::End));
        let mut previous: Option<usize> = None;
        for node in &nodes[1..nodes.len() - 1] {
            let handle = match node {
                NodeType::Value(v) => *v,
                _ => panic!("a sentinel inside a level"),
            };
            assert!(bottom.contains(&handle));
            if let Some(before) = previous {
                assert!(xs[before] < xs[handle]);
            }
            previous = Some(handle);
        }
    }
}

#[test]
fn random_towers_stay_within_the_height() {
    let xs: Vec<i32> = (0..500).collect();
    let segments = verticals(&xs);
    let mut list = SkipList::new();
    let mut height = list.height();
    for element in 0..500 {
        list.insert(element, &segments, 0);
        let now = list.height();
        assert!(now == height || now == height + 1);
        height = now;
    }
    assert_eq!(list.to_vec(), (0..500).collect::<Vec<usize>>());
    for element in 0..500 {
        assert!(list.remove(element, &segments, 0));
        assert_eq!(list.height(), height);
    }
    assert_eq!(list.len(), 0);
}

#[test]
fn iter_yields_the_sentinels_around_the_values() {
    let segments = verticals(&[20, 10]);
    let mut list = SkipList::new();
    list.insert(0, &segments, 0);
    list.insert(1, &segments, 0);
    assert_eq!(
        walk(&list, 0),
        vec![NodeType::Start, NodeType::Value(1), NodeType::Value(0), NodeType::End]
    );
}

#[test]
fn iter_can_be_restarted() {
    let segments = verticals(&[20, 10]);
    let mut list = SkipList::new();
    list.insert(0, &segments, 0);
    list.insert(1, &segments, 0);
    assert_eq!(walk(&list, 0), walk(&list, 0));
    let mut it = list.iter(0);
    while it.next().is_some() {}
    assert_eq!(it.next(), None);
}

#[test]
fn iter_above_the_top_level_yields_start_only() {
    let segments = verticals(&[20]);
    let mut list = SkipList::new();
    list.insert_with_draw(0, &segments, 0, 1, false);
    assert_eq!(list.height(), 1);
    assert_eq!(walk(&list, 1), vec![NodeType::Start]);
    assert_eq!(walk(&list, 7), vec![NodeType::Start]);
}

#[test]
fn a_full_tower_with_a_set_flag_opens_a_level() {
    let segments = verticals(&[20, 10, 30]);
    let mut list = SkipList::new();
    list.insert_with_draw(0, &segments, 0, 1, true);
    assert_eq!(list.height(), 2);
    assert_eq!(walk(&list, 1), vec![NodeType::Start, NodeType::Value(0), NodeType::End]);
    list.insert_with_draw(1, &segments, 0, 1, true);
    assert_eq!(list.height(), 2);
    assert_eq!(walk(&list, 1), vec![NodeType::Start, NodeType::Value(0), NodeType::End]);
    list.insert_with_draw(2, &segments, 0, 2, false);
    assert_eq!(list.height(), 2);
    assert_eq!(
        walk(&list, 1),
        vec![NodeType::Start, NodeType::Value(0), NodeType::Value(2), NodeType::End]
    );
    assert_eq!(list.to_vec(), vec![1, 0, 2]);
}

#[test]
fn removal_takes_a_handle_out_of_every_level() {
    let segments = verticals(&[20, 10, 30]);
    let mut list = SkipList::new();
    list.insert_with_draw(0, &segments, 0, 1, true);
    list.insert_with_draw(1, &segments, 0, 2, true);
    assert_eq!(list.height(), 3);
    assert!(list.remove(1, &segments, 0));
    assert_eq!(list.height(), 3);
    assert_eq!(walk(&list, 0), vec![NodeType::Start, NodeType::Value(0), NodeType::End]);
    assert_eq!(walk(&list, 1), vec![NodeType::Start, NodeType::Value(0), NodeType::End]);
    assert_eq!(walk(&list, 2), vec![NodeType::Start, NodeType::End]);
}

#[test]
fn vacated_slots_are_used_again() {
    let segments = verticals(&[20, 10, 30, 5]);
    let mut list = SkipList::new();
    for round in 0..50 {
        for element in 0..4 {
            list.insert(element, &segments, 0);
        }
        assert_eq!(list.to_vec(), vec![3, 1, 0, 2]);
        for element in 0..4 {
            assert!(list.remove((element + round) % 4, &segments, 0));
        }
        assert_eq!(list.len(), 0);
    }
}

#[test]
fn a_tie_counts_as_less() {
    let segments = verticals(&[10, 10]);
    let mut list = SkipList::new();
    list.insert(0, &segments, 0);
    // handle 0 does not sort after handle 1, so 1 goes behind it
    assert_eq!(list.insert(1, &segments, 0), (Some(0), None));
    assert_eq!(list.to_vec(), vec![0, 1]);
    assert_eq!(
        NodeType::Value(0).compare(&NodeType::Value(1), &segments, 0),
        SweepOrder::Less
    );
    assert_eq!(
        NodeType::Value(1).compare(&NodeType::Value(0), &segments, 0),
        SweepOrder::Less
    );
}

#[test]
fn an_undefined_crossing_counts_as_less() {
    let segments = vec![
        vertical(10),
        Segment { start: Point { x: 0, y: 5 }, end: Point { x: 100, y: 5 } },
    ];
    assert_eq!(
        NodeType::Value(0).compare(&NodeType::Value(1), &segments, 5),
        SweepOrder::Less
    );
    assert_eq!(
        NodeType::Value(1).compare(&NodeType::Value(0), &segments, 5),
        SweepOrder::Less
    );
    let mut list = SkipList::new();
    list.insert(0, &segments, 5);
    list.insert(1, &segments, 5);
    assert_eq!(list.to_vec(), vec![0, 1]);
}

#[test]
fn the_same_handle_compares_equal() {
    let segments = verticals(&[10]);
    assert_eq!(
        NodeType::Value(0).compare(&NodeType::Value(0), &segments, 0),
        SweepOrder::Equal
    );
}

#[test]
fn sentinels_bound_every_value() {
    let segments = verticals(&[10]);
    let value = NodeType::Value(0);
    assert_eq!(NodeType::Start.compare(&value, &segments, 0), SweepOrder::Less);
    assert_eq!(NodeType::End.compare(&value, &segments, 0), SweepOrder::Greater);
    assert_eq!(value.compare(&NodeType::Start, &segments, 0), SweepOrder::Greater);
    assert_eq!(value.compare(&NodeType::End, &segments, 0), SweepOrder::Less);
    assert_eq!(NodeType::Start.compare(&NodeType::Start, &segments, 0), SweepOrder::Less);
    assert_eq!(NodeType::End.compare(&NodeType::End, &segments, 0), SweepOrder::Greater);
}

#[test]
fn the_order_follows_the_sweep_height() {
    // two segments that cross at height 50
    let segments = vec![
        Segment { start: Point { x: 0, y: 0 }, end: Point { x: 100, y: 100 } },
        Segment { start: Point { x: 100, y: 0 }, end: Point { x: 0, y: 100 } },
    ];
    assert!(crosses_left(&segments[0], &segments[1], 10));
    assert!(!crosses_left(&segments[1], &segments[0], 10));
    assert!(crosses_left(&segments[1], &segments[0], 90));
    assert!(!crosses_left(&segments[0], &segments[1], 50));
    assert!(!crosses_left(&segments[1], &segments[0], 50));
    let mut low = SkipList::new();
    low.insert(0, &segments, 10);
    low.insert(1, &segments, 10);
    assert_eq!(low.to_vec(), vec![0, 1]);
    let mut high = SkipList::new();
    high.insert(0, &segments, 90);
    high.insert(1, &segments, 90);
    assert_eq!(high.to_vec(), vec![1, 0]);
}

#[test]
fn crossings_compare_as_exact_fractions() {
    // x = 1 + (h - 0) * 2 / 3 and x = 1 + (h - 0) * 5 / 7 at h = 1: 5/3 and 12/7
    let a = Segment { start: Point { x: 1, y: 0 }, end: Point { x: 3, y: 3 } };
    let b = Segment { start: Point { x: 1, y: 0 }, end: Point { x: 6, y: 7 } };
    assert!(crosses_left(&a, &b, 1));
    assert!(!crosses_left(&b, &a, 1));
    // a segment given from top to bottom crosses where the reversed one does
    let reversed = Segment { start: a.end, end: a.start };
    assert!(crosses_left(&reversed, &b, 1));
    assert!(!crosses_left(&a, &reversed, 1));
    assert!(!crosses_left(&reversed, &a, 1));
}

#[test]
fn crossings_at_the_ends_of_the_coordinate_range_do_not_overflow() {
    let a = Segment {
        start: Point { x: i32::MIN, y: i32::MIN },
        end: Point { x: i32::MAX, y: i32::MAX },
    };
    let b = Segment {
        start: Point { x: i32::MAX, y: i32::MIN },
        end: Point { x: i32::MIN, y: i32::MAX },
    };
    assert!(crosses_left(&a, &b, i32::MIN));
    assert!(crosses_left(&b, &a, i32::MAX));
}
