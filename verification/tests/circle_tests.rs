use common::canvas::{Point2D, Size, GREEN, RED};
use common::circle::{draw_circle, draw_points};

const BG: u32 = 0x0012_3456;

fn blank(w: u32, h: u32) -> (Vec<u32>, Size) {
    (vec![BG; (w * h) as usize], Size { width: w, height: h })
}

fn painted(buf: &[u32], dim: &Size) -> Vec<Point2D> {
    let mut out = Vec::new();
    for y in 0..dim.height as i32 {
        for x in 0..dim.width as i32 {
            if buf[(y * dim.width as i32 + x) as usize] != BG {
                out.push((x, y));
            }
        }
    }
    out
}

fn reflections(org: Point2D, octant: &[(i32, i32)]) -> Vec<Point2D> {
    let mut v = Vec::new();
    for &(x, y) in octant {
        for p in [
            (org.0 + x, org.1 + y),
            (org.0 - x, org.1 + y),
            (org.0 + x, org.1 - y),
            (org.0 - x, org.1 - y),
            (org.0 + y, org.1 + x),
            (org.0 - y, org.1 + x),
            (org.0 + y, org.1 - x),
            (org.0 - y, org.1 - x),
        ] {
            if !v.contains(&p) {
                v.push(p);
            }
        }
    }
    v.sort_by_key(|p| (p.1, p.0));
    v
}

#[test]
fn small_radius_draws_the_centre() {
    for rad in [-3, 0, 1] {
        let (mut buf, dim) = blank(5, 5);
        draw_circle(&mut buf, &dim, &(2, 3), rad, &RED);
        assert_eq!(painted(&buf, &dim), vec![(2, 3)]);
    }
}

#[test]
fn circle_of_radius_three() {
    let (mut buf, dim) = blank(12, 12);
    draw_circle(&mut buf, &dim, &(5, 5), 3, &RED);
    // octant offsets: (0, 3), (1, 3), (2, 2)
    assert_eq!(painted(&buf, &dim), reflections((5, 5), &[(0, 3), (1, 3), (2, 2)]));
}

#[test]
fn circle_of_radius_two() {
    let (mut buf, dim) = blank(9, 9);
    draw_circle(&mut buf, &dim, &(4, 4), 2, &RED);
    // d = -1 at (0, 2); then d = 5 at (1, 2): y steps down and the loop ends
    assert_eq!(painted(&buf, &dim), reflections((4, 4), &[(0, 2), (1, 2)]));
}

#[test]
fn circle_passes_through_its_axis_points() {
    let (mut buf, dim) = blank(30, 30);
    draw_circle(&mut buf, &dim, &(15, 15), 9, &RED);
    let got = painted(&buf, &dim);
    for p in [(24, 15), (6, 15), (15, 24), (15, 6)] {
        assert!(got.contains(&p));
    }
    assert!(!got.contains(&(15, 15)));
}

#[test]
fn markers_are_circles_of_radius_four() {
    let pts = vec![(5, 5), (12, 6)];
    let (mut a, dim) = blank(20, 14);
    let (mut b, _) = blank(20, 14);
    draw_points(&mut a, &dim, &pts, &GREEN);
    draw_circle(&mut b, &dim, &(5, 5), 4, &GREEN);
    draw_circle(&mut b, &dim, &(12, 6), 4, &GREEN);
    assert_eq!(a, b);
}

#[test]
fn circle_is_symmetric_about_its_centre_lines() {
    let (mut buf, dim) = blank(40, 40);
    draw_circle(&mut buf, &dim, &(20, 19), 11, &RED);
    let got = painted(&buf, &dim);
    for &(x, y) in &got {
        assert!(got.contains(&(40 - x, y)));
        assert!(got.contains(&(x, 38 - y)));
        assert!(got.contains(&(20 + (y - 19), 19 + (x - 20))));
    }
}

#[test]
fn circle_of_radius_ten_reaches_the_diagonal() {
    let (mut buf, dim) = blank(21, 21);
    draw_circle(&mut buf, &dim, &(10, 10), 10, &GREEN);
    let octant = [(0, 10), (1, 10), (2, 10), (3, 10), (4, 9), (5, 9), (6, 8), (7, 7)];
    assert_eq!(painted(&buf, &dim), reflections((10, 10), &octant));
    // (6, 8) lies exactly on the circle: 36 + 64 == 100
    assert_eq!(buf[18 * 21 + 16], 0x2ec27e);
}

#[test]
fn circle_pixels_lie_within_one_pixel_of_the_circle() {
    for rad in 2..40 {
        let n = (2 * rad + 3) as u32;
        let org = (rad + 1, rad + 1);
        let (mut buf, dim) = blank(n, n);
        draw_circle(&mut buf, &dim, &org, rad, &RED);
        for (x, y) in painted(&buf, &dim) {
            let (dx, dy) = (x - org.0, y - org.1);
            let d2 = dx * dx + dy * dy;
            assert!((rad - 1) * (rad - 1) < d2 && d2 < (rad + 1) * (rad + 1));
        }
    }
}
