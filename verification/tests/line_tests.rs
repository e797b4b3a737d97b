use common::canvas::{color_to_u32, Point2D, Size, BLACK, BLUE, RED};
use common::line::{draw_line, draw_line_slope};
use common::polyline::{draw_connect, draw_origin, draw_polygon, draw_segments};

const BG: u32 = 0x0012_3456;

fn blank(w: u32, h: u32) -> (Vec<u32>, Size) {
    (vec![BG; (w * h) as usize], Size { width: w, height: h })
}

fn painted(buf: &[u32], dim: &Size) -> Vec<Point2D> {
    let mut out = Vec::new();
    for y in 0..dim.height as i32 {
        for x in 0..dim.width as i32 {
            if buf[(y * dim.width as i32 + x) as usize] != BG {
                out.push((x, y));
            }
        }
    }
    out
}

fn sorted(mut v: Vec<Point2D>) -> Vec<Point2D> {
    v.sort_by_key(|p| (p.1, p.0));
    v
}

#[test]
fn horizontal_line_includes_both_ends() {
    let (mut buf, dim) = blank(8, 3);
    draw_line(&mut buf, &dim, &(0, 1), &(5, 1), &RED);
    assert_eq!(painted(&buf, &dim), vec![(0, 1), (1, 1), (2, 1), (3, 1), (4, 1), (5, 1)]);
}

#[test]
fn shallow_line_rounds_to_nearest_pixel() {
    let (mut buf, dim) = blank(8, 8);
    draw_line(&mut buf, &dim, &(0, 0), &(4, 2), &RED);
    assert_eq!(painted(&buf, &dim), vec![(0, 0), (1, 0), (2, 1), (3, 1), (4, 2)]);
}

#[test]
fn steep_line_walks_down_rows() {
    let (mut buf, dim) = blank(8, 8);
    draw_line(&mut buf, &dim, &(0, 0), &(1, 3), &RED);
    assert_eq!(painted(&buf, &dim), vec![(0, 0), (0, 1), (1, 2), (1, 3)]);
}

#[test]
fn line_rising_to_the_right() {
    let (mut buf, dim) = blank(8, 8);
    draw_line(&mut buf, &dim, &(0, 4), &(6, 1), &RED);
    // a = 3, b = 6: offsets 0, 0, 1, 1, 2, 2, 3 (halves round down)
    assert_eq!(
        sorted(painted(&buf, &dim)),
        sorted(vec![(0, 4), (1, 4), (2, 3), (3, 3), (4, 2), (5, 2), (6, 1)])
    );
}

#[test]
fn line_is_the_same_both_ways() {
    for (p0, p1) in [((0, 0), (7, 3)), ((6, 1), (1, 7)), ((2, 2), (2, 6)), ((0, 5), (5, 0))] {
        let (mut a, dim) = blank(9, 9);
        let (mut b, _) = blank(9, 9);
        draw_line(&mut a, &dim, &p0, &p1, &BLUE);
        draw_line(&mut b, &dim, &p1, &p0, &BLUE);
        assert_eq!(a, b);
    }
}

#[test]
fn single_point_line_draws_that_point() {
    let (mut buf, dim) = blank(4, 4);
    draw_line(&mut buf, &dim, &(2, 2), &(2, 2), &RED);
    assert_eq!(painted(&buf, &dim), vec![(2, 2)]);
}

#[test]
fn line_reaches_its_far_endpoint() {
    for (p0, p1) in [((0, 0), (7, 3)), ((6, 1), (1, 7)), ((2, 2), (2, 6)), ((0, 5), (5, 0)), ((8, 8), (0, 0))] {
        let (mut buf, dim) = blank(9, 9);
        draw_line(&mut buf, &dim, &p0, &p1, &RED);
        let got = painted(&buf, &dim);
        assert!(got.contains(&p0) && got.contains(&p1));
    }
}

#[test]
fn slope_mode_on_a_steep_run_climbs_every_step() {
    let (mut buf, dim) = blank(8, 8);
    draw_line_slope(&mut buf, &dim, &(0, 0), &(2, 5), &RED, true);
    assert_eq!(painted(&buf, &dim), vec![(0, 0), (1, 1), (2, 2)]);
}

#[test]
fn slope_mode_with_reversed_ends_draws_nothing() {
    let (mut buf, dim) = blank(8, 8);
    draw_line_slope(&mut buf, &dim, &(5, 0), &(0, 3), &RED, true);
    draw_line_slope(&mut buf, &dim, &(0, 5), &(3, 0), &RED, false);
    assert!(painted(&buf, &dim).is_empty());
}

#[test]
fn line_off_the_canvas_is_clipped_per_pixel() {
    let (mut buf, dim) = blank(4, 4);
    draw_line(&mut buf, &dim, &(-2, 1), &(6, 1), &RED);
    assert_eq!(painted(&buf, &dim), vec![(0, 1), (1, 1), (2, 1), (3, 1)]);
}

#[test]
fn polyline_connects_consecutive_points() {
    let (mut buf, dim) = blank(8, 8);
    draw_connect(&mut buf, &dim, &[(0, 0), (3, 0), (3, 3)], &RED);
    assert_eq!(
        sorted(painted(&buf, &dim)),
        sorted(vec![(0, 0), (1, 0), (2, 0), (3, 0), (3, 1), (3, 2), (3, 3)])
    );
}

#[test]
fn polyline_of_fewer_than_two_points_draws_nothing() {
    let (mut buf, dim) = blank(4, 4);
    draw_connect(&mut buf, &dim, &[(1, 1)], &RED);
    draw_connect(&mut buf, &dim, &[], &RED);
    draw_polygon(&mut buf, &dim, &[(1, 1)], &RED);
    assert!(painted(&buf, &dim).is_empty());
}

#[test]
fn polygon_closes_the_polyline() {
    let pts = [(1, 1), (6, 2), (3, 6)];
    let (mut a, dim) = blank(8, 8);
    let (mut b, _) = blank(8, 8);
    draw_polygon(&mut a, &dim, &pts, &RED);
    draw_connect(&mut b, &dim, &[(1, 1), (6, 2), (3, 6), (1, 1)], &RED);
    assert_eq!(a, b);
}

#[test]
fn polygon_square_outline() {
    let (mut buf, dim) = blank(6, 6);
    draw_polygon(&mut buf, &dim, &[(1, 1), (4, 1), (4, 4), (1, 4)], &BLACK);
    let got = sorted(painted(&buf, &dim));
    let mut want = Vec::new();
    for i in 1..5 {
        for j in 1..5 {
            if i == 1 || i == 4 || j == 1 || j == 4 {
                want.push((i, j));
            }
        }
    }
    assert_eq!(got, sorted(want));
}

#[test]
fn segments_are_drawn_independently() {
    let (mut a, dim) = blank(8, 8);
    let (mut b, _) = blank(8, 8);
    draw_segments(&mut a, &dim, &[((0, 0), (4, 0)), ((2, 2), (2, 6))], &RED);
    draw_line(&mut b, &dim, &(0, 0), &(4, 0), &RED);
    draw_line(&mut b, &dim, &(2, 2), &(2, 6), &RED);
    assert_eq!(a, b);
}

#[test]
fn origin_axes_span_the_canvas() {
    let (mut buf, dim) = blank(5, 4);
    draw_origin(&mut buf, &dim, &(2, 1), &RED);
    let got = sorted(painted(&buf, &dim));
    // the column runs from y = 0 to height - 1 and the row from x = 0 to width - 1
    let want = sorted(vec![(2, 0), (2, 1), (2, 2), (2, 3), (0, 1), (1, 1), (3, 1), (4, 1)]);
    assert_eq!(got, want);
    assert_eq!(buf[(1 * 5 + 2) as usize], color_to_u32(&RED));
}

#[test]
fn polygon_same_from_any_start_and_either_way() {
    let pts = vec![(1, 1), (9, 2), (7, 8), (2, 6)];
    let (mut base, dim) = blank(12, 12);
    draw_polygon(&mut base, &dim, &pts, &RED);
    for k in 0..pts.len() {
        let mut rotated: Vec<Point2D> = pts[k..].to_vec();
        rotated.extend_from_slice(&pts[..k]);
        let (mut a, _) = blank(12, 12);
        draw_polygon(&mut a, &dim, &rotated, &RED);
        assert_eq!(a, base);
        rotated.reverse();
        let (mut b, _) = blank(12, 12);
        draw_polygon(&mut b, &dim, &rotated, &RED);
        assert_eq!(b, base);
    }
}

#[test]
fn polyline_same_walked_backwards() {
    let pts = vec![(0, 0), (7, 3), (2, 9), (9, 9)];
    let mut back = pts.clone();
    back.reverse();
    let (mut a, dim) = blank(12, 12);
    let (mut b, _) = blank(12, 12);
    draw_connect(&mut a, &dim, &pts, &BLUE);
    draw_connect(&mut b, &dim, &back, &BLUE);
    assert_eq!(a, b);
}

#[test]
fn line_fills_a_one_row_canvas() {
    let mut buf = vec![0u32; 5];
    let dim = Size { width: 5, height: 1 };
    draw_line(&mut buf, &dim, &(0, 0), &(4, 0), &BLUE);
    assert_eq!(buf, vec![0x3584e4; 5]);
}
