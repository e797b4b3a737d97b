use common::bezier::get_bezier_points;
use common::transform::scale_polygon;

/// The single-precision computation that `get_bezier_points` reproduces.
fn casteljau_f32(pts: &Vec<(i32, i32)>, pos: f32) -> (i32, i32) {
    let n = pts.len();
    let mut points = pts.clone();
    for r in 1..n {
        for i in 0..(n - r) {
            let this = points[i];
            let next = points[i + 1];
            points[i] = (
                ((1.0 - pos) * this.0 as f32 + pos * next.0 as f32) as i32,
                ((1.0 - pos) * this.1 as f32 + pos * next.1 as f32) as i32,
            );
        }
    }
    points[0]
}

fn bezier_f32(pts: &Vec<(i32, i32)>, prc: u32) -> Vec<(i32, i32)> {
    if pts.len() < 3 || prc < 1 {
        return Vec::new();
    }
    (0..prc + 1).map(|i| casteljau_f32(pts, (i as f32) / prc as f32)).collect()
}

#[test]
fn bezier_needs_three_points_and_a_step() {
    assert!(get_bezier_points(&vec![(0, 0), (5, 5)], 10).is_empty());
    assert!(get_bezier_points(&vec![(0, 0), (5, 5), (9, 0)], 0).is_empty());
}

#[test]
fn bezier_samples_the_curve() {
    let pts = vec![(0, 0), (10, 0), (10, 10)];
    let curve = get_bezier_points(&pts, 2);
    // (5, 0), (10, 5) -> (7.5, 2.5), truncated
    assert_eq!(curve, vec![(0, 0), (7, 2), (10, 10)]);
    let fine = get_bezier_points(&pts, 20);
    assert_eq!(fine.len(), 21);
    assert_eq!(fine[0], (0, 0));
    assert_eq!(fine[20], (10, 10));
}

#[test]
fn bezier_rounds_like_single_precision() {
    // 1 - 1/3 is 0.6666666 in single precision, so 3 * (1 - 1/3) truncates to 1
    let curve = get_bezier_points(&vec![(3, 0), (0, 0), (0, 0)], 3);
    assert_eq!(curve[1], (0, 0));
    assert_eq!(curve, bezier_f32(&vec![(3, 0), (0, 0), (0, 0)], 3));
}

#[test]
fn bezier_rounds_towards_zero() {
    let pts = vec![(0, 0), (-5, -5), (-5, -5)];
    assert_eq!(get_bezier_points(&pts, 2)[1], bezier_f32(&pts, 2)[1]);
    assert_eq!(get_bezier_points(&pts, 2)[1], (-3, -3));
}

#[test]
fn bezier_matches_single_precision_on_many_curves() {
    let mut seed: u64 = 0x2545_f491_4f6c_dd1d;
    let mut next = || {
        seed ^= seed << 13;
        seed ^= seed >> 7;
        seed ^= seed << 17;
        seed
    };
    for round in 0..300 {
        let n = 3 + (next() % 5) as usize;
        let range: i64 = if round % 3 == 0 { 2_000 } else if round % 3 == 1 { 40_000_000 } else { 2_000_000_000 };
        let pts: Vec<(i32, i32)> = (0..n)
            .map(|_| {
                let x = (next() as i64).rem_euclid(2 * range + 1) - range;
                let y = (next() as i64).rem_euclid(2 * range + 1) - range;
                (x as i32, y as i32)
            })
            .collect();
        let prc = 1 + (next() % 40) as u32;
        assert_eq!(get_bezier_points(&pts, prc), bezier_f32(&pts, prc), "{:?} {}", pts, prc);
    }
}

#[test]
fn bezier_extreme_coordinates_saturate_like_single_precision() {
    let pts = vec![(i32::MAX, i32::MIN), (i32::MAX, i32::MAX), (i32::MIN, i32::MAX)];
    assert_eq!(get_bezier_points(&pts, 7), bezier_f32(&pts, 7));
    let pts = vec![(16_777_217, -16_777_217), (3, 5), (33_554_435, 7)];
    assert_eq!(get_bezier_points(&pts, 11), bezier_f32(&pts, 11));
}

#[test]
fn scale_about_first_point() {
    let mut tri = [(25, 25), (85, 85), (25, 165)];
    scale_polygon(&mut tri, 2, 3);
    assert_eq!(tri, [(25, 25), (145, 205), (25, 445)]);
}

#[test]
fn scale_by_one_keeps_polygon() {
    let mut tri = [(25, 25), (85, 85), (25, 165)];
    scale_polygon(&mut tri, 1, 1);
    assert_eq!(tri, [(25, 25), (85, 85), (25, 165)]);
}

#[test]
fn scaling_twice_multiplies_factors() {
    let mut a = [(2, 3), (5, -1), (-4, 7)];
    let mut b = a;
    scale_polygon(&mut a, 2, -3);
    scale_polygon(&mut a, -1, 2);
    scale_polygon(&mut b, -2, -6);
    assert_eq!(a, b);
}

#[test]
fn scale_of_empty_polygon() {
    let mut empty: [(i32, i32); 0] = [];
    scale_polygon(&mut empty, 5, 5);
    assert_eq!(empty.len(), 0);
}
