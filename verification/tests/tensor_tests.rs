use street_plan::point::Point;
use street_plan::tensor::{Contribution, Eigenvectors, Tensor};

fn p(x: i32, y: i32) -> Point {
    Point { x, y }
}

fn t(a: i32, b: i32) -> Tensor {
    Tensor { a, b }
}

#[test]
fn a_tensor_equals_its_transpose() {
    for (a, b) in [(0, 0), (3, -4), (-7, 9), (i32::MAX, i32::MIN), (i32::MIN, i32::MAX)] {
        let rows = t(a, b).rows();
        assert_eq!(rows.0 .1, rows.1 .0);
        assert_eq!(rows.0 .0 + rows.1 .1, 0);
        assert_eq!(rows, ((a as i64, b as i64), (b as i64, -(a as i64))));
    }
}

#[test]
fn a_composed_tensor_equals_its_transpose() {
    let contributions = vec![
        Contribution { tensor: t(10_000, 0), weight: 5_000 },
        Contribution { tensor: t(-3_000, 7_000), weight: 9_999 },
    ];
    let rows = Tensor::compose(&contributions).rows();
    assert_eq!(rows.0 .1, rows.1 .0);
}

#[test]
fn the_norm_is_the_length_of_a_row() {
    assert_eq!(t(3, 4).norm(), 5);
    assert_eq!(t(-3, 4).norm(), 5);
    assert_eq!(t(0, 0).norm(), 0);
    assert_eq!(t(1, 1).norm(), 1);
    assert_eq!(t(i32::MIN, i32::MIN).norm(), 3_037_000_499);
}

#[test]
fn a_tensor_of_a_ten_thousandth_is_degenerate() {
    assert!(t(0, 0).is_degenerate());
    assert!(t(1, 0).is_degenerate());
    assert!(t(0, -1).is_degenerate());
    assert!(t(1, 1).is_degenerate());
    assert!(!t(2, 0).is_degenerate());
    assert!(!t(-2, 1).is_degenerate());
}

#[test]
fn the_axes_are_the_directions_of_a_diagonal_tensor() {
    assert_eq!(t(5, 0).eigenvectors(), Eigenvectors { major: p(10_000, 0), minor: p(0, 10_000) });
    assert_eq!(t(-5, 0).eigenvectors(), Eigenvectors { major: p(0, 10_000), minor: p(-10_000, 0) });
}

#[test]
fn the_diagonals_are_the_directions_of_an_off_diagonal_tensor() {
    assert_eq!(t(0, 7).eigenvectors(), Eigenvectors { major: p(7_071, 7_071), minor: p(-7_071, 7_071) });
    assert_eq!(t(0, -7).eigenvectors(), Eigenvectors { major: p(7_071, -7_071), minor: p(7_071, 7_071) });
}

#[test]
fn the_major_direction_has_half_the_angle_of_the_tensor() {
    // the tensor (cos 60, sin 60): the major direction is (cos 30, sin 30)
    let e = t(500_000, 866_025).eigenvectors();
    assert_eq!(e.major, p(8_660, 5_000));
    assert_eq!(e.minor, p(-5_000, 8_660));
    // the tensor (cos 120, sin 120): the major direction is (cos 60, sin 60)
    let e = t(-500_000, 866_025).eigenvectors();
    assert_eq!(e.major, p(5_000, 8_660));
    assert_eq!(e.minor, p(-8_660, 5_000));
}

#[test]
fn the_zero_tensor_has_no_directions() {
    assert_eq!(t(0, 0).eigenvectors(), Eigenvectors { major: p(0, 0), minor: p(0, 0) });
}

#[test]
fn the_directions_are_unit_vectors_at_right_angles() {
    let mut state: u32 = 99;
    for round in 0..2_000 {
        state = state.wrapping_mul(1_103_515_245).wrapping_add(12_345);
        let a = (state >> 8) as i32 - (1 << 23);
        state = state.wrapping_mul(1_103_515_245).wrapping_add(12_345);
        let b = (state >> 8) as i32 - (1 << 23);
        // small tensors as well as large ones
        let shift = round % 20;
        let tensor = t(a >> shift, b >> shift);
        if tensor.a == 0 && tensor.b == 0 {
            continue;
        }
        let e = tensor.eigenvectors();
        let dot = e.major.x as i64 * e.minor.x as i64 + e.major.y as i64 * e.minor.y as i64;
        assert_eq!(dot, 0);
        for v in [e.major, e.minor] {
            let (x, y) = (v.x.abs() as i64, v.y.abs() as i64);
            assert!(x * x + y * y < 10_001 * 10_001);
            assert!((x + 1) * (x + 1) + (y + 1) * (y + 1) > 10_000 * 10_000);
        }
    }
}

#[test]
fn the_directions_of_the_largest_tensors_do_not_overflow() {
    for (a, b) in [(i32::MAX, i32::MAX), (i32::MIN, i32::MIN), (i32::MIN, i32::MAX), (i32::MAX, i32::MIN)] {
        let e = t(a, b).eigenvectors();
        let dot = e.major.x as i64 * e.minor.x as i64 + e.major.y as i64 * e.minor.y as i64;
        assert_eq!(dot, 0);
    }
    // a tensor along (1, 1): the major direction lies at 22.5 degrees
    assert_eq!(t(i32::MAX, i32::MAX).eigenvectors().major, p(9_238, 3_826));
}

#[test]
fn contributions_are_weighted_and_summed() {
    let contributions = vec![
        Contribution { tensor: t(10_000, 0), weight: 5_000 },
        Contribution { tensor: t(0, 10_000), weight: 2_500 },
        Contribution { tensor: t(-4_000, 4_000), weight: 10_000 },
    ];
    assert_eq!(Tensor::compose(&contributions), t(1_000, 6_500));
    assert_eq!(Tensor::compose(&Vec::new()), t(0, 0));
}

#[test]
fn weighted_entries_round_toward_zero() {
    let contributions = vec![
        Contribution { tensor: t(3, -3), weight: 3_334 },
        Contribution { tensor: t(3, -3), weight: 3_334 },
    ];
    // 3 * 3334 / 10000 = 1.0002
    assert_eq!(Tensor::compose(&contributions), t(2, -2));
    let small = vec![Contribution { tensor: t(9_999, -9_999), weight: 1 }];
    assert_eq!(Tensor::compose(&small), t(0, 0));
}

#[test]
fn a_sum_beyond_the_range_of_an_entry_is_held_at_its_end() {
    let contributions = vec![
        Contribution { tensor: t(i32::MAX, i32::MIN), weight: u32::MAX },
        Contribution { tensor: t(i32::MAX, i32::MIN), weight: u32::MAX },
    ];
    assert_eq!(Tensor::compose(&contributions), t(i32::MAX, -i32::MAX));
}
