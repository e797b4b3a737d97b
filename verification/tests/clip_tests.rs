use common::clip::{get_clipped_line, get_outcode, BOTTOM, INSIDE, LEFT, RIGHT, TOP};
use common::random::get_rng_point;

const RECT: ((i32, i32), (i32, i32)) = ((0, 0), (10, 10));

#[test]
fn outcodes_of_the_nine_regions() {
    assert_eq!(get_outcode(&(5, 5), &RECT), INSIDE);
    assert_eq!(get_outcode(&(0, 10), &RECT), INSIDE);
    assert_eq!(get_outcode(&(-1, 5), &RECT), LEFT);
    assert_eq!(get_outcode(&(11, 5), &RECT), RIGHT);
    assert_eq!(get_outcode(&(5, -1), &RECT), BOTTOM);
    assert_eq!(get_outcode(&(5, 11), &RECT), TOP);
    assert_eq!(get_outcode(&(-1, -1), &RECT), LEFT | BOTTOM);
    assert_eq!(get_outcode(&(11, 11), &RECT), RIGHT | TOP);
    assert_eq!(get_outcode(&(-1, 11), &RECT), LEFT | TOP);
    assert_eq!(get_outcode(&(11, -1), &RECT), RIGHT | BOTTOM);
}

#[test]
fn line_inside_comes_back_whole() {
    let line = ((1, 2), (9, 8));
    assert_eq!(get_clipped_line(&line, &RECT), Some(line));
}

#[test]
fn line_beyond_one_side_is_rejected() {
    assert_eq!(get_clipped_line(&((-5, 1), (-1, 9)), &RECT), None);
    assert_eq!(get_clipped_line(&((2, 12), (30, 11)), &RECT), None);
}

#[test]
fn horizontal_line_is_cut_at_both_sides() {
    assert_eq!(get_clipped_line(&((-5, 5), (15, 5)), &RECT), Some(((0, 5), (10, 5))));
}

#[test]
fn diagonal_line_is_cut_at_bottom_then_right() {
    assert_eq!(get_clipped_line(&((-10, -5), (20, 10)), &RECT), Some(((0, 0), (10, 5))));
}

#[test]
fn intercepts_round_towards_zero() {
    // cut at the bottom first: x = 5 + 15 * (-5) / (-10) = 5 + 7 (7.5 rounded down),
    // then at the right: y = 5 + (-5) * 5 / 7 = 5 - 3 (-3.57 rounded towards zero)
    assert_eq!(get_clipped_line(&((5, 5), (20, -5)), &RECT), Some(((5, 5), (10, 2))));
}

#[test]
fn line_missing_a_corner_is_rejected() {
    assert_eq!(get_clipped_line(&((-5, 8), (3, 16)), &RECT), None);
}

#[test]
fn clipped_ends_lie_in_the_rectangle() {
    let rect = ((200, 100), (600, 500));
    let lines = [((10, 10), (790, 590)), ((700, 20), (20, 580)), ((300, 50), (350, 550))];
    for l in lines {
        if let Some((a, b)) = get_clipped_line(&l, &rect) {
            for p in [a, b] {
                assert!(200 <= p.0 && p.0 <= 600 && 100 <= p.1 && p.1 <= 500);
            }
        } else {
            panic!("line crosses the rectangle");
        }
    }
}

#[test]
fn random_points_stay_in_range() {
    for _ in 0..200 {
        let p = get_rng_point(800, 600);
        assert!(10 <= p.0 && p.0 < 800);
        assert!(10 <= p.1 && p.1 < 600);
    }
    for _ in 0..20 {
        assert_eq!(get_rng_point(11, 11), (10, 10));
    }
}

#[test]
fn clipped_segment_stays_within_the_original_box() {
    let rect = ((2, 3), (12, 9));
    let ends = [(-5, -4), (0, 6), (7, 20), (15, 1), (20, 20), (6, 6), (13, -2), (-3, 12)];
    let between = |v: i32, a: i32, b: i32| (a <= v && v <= b) || (b <= v && v <= a);
    for &a in &ends {
        for &b in &ends {
            if let Some((c0, c1)) = get_clipped_line(&(a, b), &rect) {
                for c in [c0, c1] {
                    assert!(between(c.0, a.0, b.0) && between(c.1, a.1, b.1), "{:?} {:?} -> {:?}", a, b, c);
                }
            }
        }
    }
}
