//! Bresenham (midpoint) circles and point markers.
use vstd::prelude::*;
use crate::canvas::{
    color_value, draw_pixel, lemma_paint_empty, lemma_paint_union, lemma_pixels_fit_subset, paint,
    pixels_fit, ColorRGB, Point2D, Size,
};
use crate::line::{fits_i32, small_point};

verus! {

/// The decision value that the circle algorithm holds at the octant point
/// `(x, y)` of a circle of radius `r`: how far the two candidates for the
/// next pixel, `(x + 1, y)` and `(x + 1, y - 1)`, lie outside the circle
/// together (`x^2 + y^2 - r^2` summed over both). `y` steps down after
/// `(x, y)` when it is positive, that is when the lower candidate is the
/// nearer one.
pub open spec fn circle_decision(r: int, x: int, y: int) -> int {
    2 * (x + 1) * (x + 1) + y * y + (y - 1) * (y - 1) - 2 * r * r
}

/// The octant point that follows `(x, y)`.
pub open spec fn octant_next(r: int, x: int, y: int) -> (int, int) {
    (x + 1, if circle_decision(r, x, y) > 0 {
        y - 1
    } else {
        y
    })
}

/// The octant points from `(x, y)` on, while `x <= y`.
pub open spec fn octant_from(r: int, x: int, y: int) -> Seq<(int, int)>
    decreases y - x + 2,
{
    if x > y {
        Seq::empty()
    } else {
        let n = octant_next(r, x, y);
        seq![(x, y)].add(octant_from(r, n.0, n.1))
    }
}

/// The offsets `(x, y)`, `x <= y`, of the second octant of a circle of
/// radius `r`, starting at `(0, r)` with `x` rising by one each step.
pub open spec fn octant(r: int) -> Seq<(int, int)> {
    octant_from(r, 0, r)
}

/// The eight reflections of the offset `q` around `org`.
pub open spec fn eight(org: Point2D, q: (int, int)) -> Set<Point2D> {
    let (x, y) = q;
    set![
        ((org.0 + x) as i32, (org.1 + y) as i32),
        ((org.0 - x) as i32, (org.1 + y) as i32),
        ((org.0 + x) as i32, (org.1 - y) as i32),
        ((org.0 - x) as i32, (org.1 - y) as i32),
        ((org.0 + y) as i32, (org.1 + x) as i32),
        ((org.0 - y) as i32, (org.1 + x) as i32),
        ((org.0 + y) as i32, (org.1 - x) as i32),
        ((org.0 - y) as i32, (org.1 - x) as i32),
    ]
}

/// The reflections of all the offsets `qs` around `org`.
pub open spec fn octants_shape(org: Point2D, qs: Seq<(int, int)>) -> Set<Point2D>
    decreases qs.len(),
{
    if qs.len() == 0 {
        Set::empty()
    } else {
        octants_shape(org, qs.drop_last()).union(eight(org, qs.last()))
    }
}

/// The pixels that `draw_circle(org, rad)` draws.
pub open spec fn circle_shape(org: Point2D, rad: i32) -> Set<Point2D> {
    if rad < 2 {
        set![org]
    } else {
        octants_shape(org, octant(rad as int))
    }
}

/// The step of the circle algorithm at offset `(x, y)` keeps its values in `i32`.
pub open spec fn circle_step_fits(org: Point2D, r: int, q: (int, int)) -> bool {
    let (x, y) = q;
    let n = octant_next(r, x, y);
    &&& fits_i32(org.0 + x)
    &&& fits_i32(org.0 - x)
    &&& fits_i32(org.1 + y)
    &&& fits_i32(org.1 - y)
    &&& fits_i32(org.0 + y)
    &&& fits_i32(org.0 - y)
    &&& fits_i32(org.1 + x)
    &&& fits_i32(org.1 - x)
    &&& fits_i32(circle_decision(r, n.0, n.1))
    &&& circle_decision(r, x, y) > 0 ==> fits_i32(4 * (x - y)) && fits_i32(4 * (x - y) + 10)
    &&& circle_decision(r, x, y) <= 0 ==> fits_i32(4 * x) && fits_i32(4 * x + 6)
}

/// Every value that `draw_circle(org, rad)` computes fits in `i32`.
pub open spec fn circle_fits(org: Point2D, rad: i32) -> bool {
    rad >= 2 ==> {
        &&& fits_i32(2 * rad)
        &&& forall|i: int|
            0 <= i < octant(rad as int).len() ==> #[trigger] circle_step_fits(
                org,
                rad as int,
                octant(rad as int)[i],
            )
    }
}

/// One step of the decision value, as the drawing code updates it from the
/// point just drawn.
proof fn lemma_decision_step(r: int, x: int, y: int)
    ensures
        circle_decision(r, x + 1, y) == circle_decision(r, x, y) + 4 * x + 6,
        circle_decision(r, x + 1, y - 1) == circle_decision(r, x, y) + 4 * (x - y) + 10,
{
    assert(circle_decision(r, x + 1, y) == circle_decision(r, x, y) + 4 * x + 6)
        by (nonlinear_arith);
    assert(circle_decision(r, x + 1, y - 1) == circle_decision(r, x, y) + 4 * (x - y) + 10)
        by (nonlinear_arith);
}

/// Drawing one more octant point adds its reflections to the shape.
proof fn lemma_octants_step(org: Point2D, done: Seq<(int, int)>, q: (int, int))
    ensures
        octants_shape(org, done.push(q)) == octants_shape(org, done).union(eight(org, q)),
{
    assert(done.push(q).drop_last() =~= done);
}

/// Every octant point's reflections belong to the shape.
proof fn lemma_eight_in_shape(org: Point2D, qs: Seq<(int, int)>, i: int)
    requires
        0 <= i < qs.len(),
    ensures
        eight(org, qs[i]).subset_of(octants_shape(org, qs)),
    decreases qs.len(),
{
    if i < qs.len() - 1 {
        lemma_eight_in_shape(org, qs.drop_last(), i);
    }
}

/// Bresenham's algorithm for circle generation
pub fn draw_circle(buf: &mut [u32], dim: &Size, org: &Point2D, rad: i32, col: &ColorRGB)
    requires
        circle_fits(*org, rad),
        pixels_fit(old(buf)@.len() as int, *dim, circle_shape(*org, rad)),
    ensures
        final(buf)@ == paint(old(buf)@, *dim, circle_shape(*org, rad), color_value(*col)),
{
    if rad < 2 {
        draw_pixel(buf, dim, org, col);
        return ;
    }
    let ghost start = buf@;
    let ghost c = color_value(*col);
    let ghost r = rad as int;
    let ghost oct = octant(r);
    let ghost mut done: Seq<(int, int)> = Seq::empty();

    let mut x: i32 = 0;
    let mut y: i32 = rad;
    let mut d: i32 = 3 - 2 * rad;
    proof {
        lemma_paint_empty(start, *dim, c);
        assert(oct =~= done + octant_from(r, x as int, y as int));
        assert(circle_decision(r, 0, r) == 3 - 2 * r) by (nonlinear_arith);
    }

    while x <= y
        invariant
            rad >= 2,
            r == rad,
            oct == octant(r),
            circle_fits(*org, rad),
            pixels_fit(start.len() as int, *dim, octants_shape(*org, oct)),
            c == color_value(*col),
            0 <= x,
            y <= rad,
            oct == done + octant_from(r, x as int, y as int),
            d == circle_decision(r, x as int, y as int),
            buf@ == paint(start, *dim, octants_shape(*org, done), c),
        decreases y - x + 2,
    {
        let ghost q = (x as int, y as int);
        let ghost i = done.len() as int;
        proof {
            assert(octant_from(r, x as int, y as int)[0] == q);
            assert(oct[i] == q);
            assert(circle_step_fits(*org, r, oct[i]));
            lemma_eight_in_shape(*org, oct, i);
            lemma_pixels_fit_subset(start.len() as int, *dim, octants_shape(*org, oct), eight(*org, q));
            lemma_octants_step(*org, done, q);
        }
        let ghost shape0 = octants_shape(*org, done);
        let ghost s8 = eight(*org, q);
        let p1 = (org.0 + x, org.1 + y);
        let p2 = (org.0 - x, org.1 + y);
        let p3 = (org.0 + x, org.1 - y);
        let p4 = (org.0 - x, org.1 - y);
        let p5 = (org.0 + y, org.1 + x);
        let p6 = (org.0 - y, org.1 + x);
        let p7 = (org.0 + y, org.1 - x);
        let p8 = (org.0 - y, org.1 - x);
        proof {
            assert(s8.contains(p1) && s8.contains(p2) && s8.contains(p3) && s8.contains(p4));
            assert(s8.contains(p5) && s8.contains(p6) && s8.contains(p7) && s8.contains(p8));
            assert(s8 =~= set![p1].union(set![p2]).union(set![p3]).union(set![p4]).union(
                set![p5],
            ).union(set![p6]).union(set![p7]).union(set![p8]));
        }
        let ghost mut drawn = shape0;
        proof {
            lemma_pixels_fit_subset(start.len() as int, *dim, s8, set![p1]);
        }
        draw_pixel(buf, dim, &p1, col);
        proof {
            lemma_paint_union(start, *dim, drawn, set![p1], c);
            drawn = drawn.union(set![p1]);
            lemma_pixels_fit_subset(start.len() as int, *dim, s8, set![p2]);
        }
        draw_pixel(buf, dim, &p2, col);
        proof {
            lemma_paint_union(start, *dim, drawn, set![p2], c);
            drawn = drawn.union(set![p2]);
            lemma_pixels_fit_subset(start.len() as int, *dim, s8, set![p3]);
        }
        draw_pixel(buf, dim, &p3, col);
        proof {
            lemma_paint_union(start, *dim, drawn, set![p3], c);
            drawn = drawn.union(set![p3]);
            lemma_pixels_fit_subset(start.len() as int, *dim, s8, set![p4]);
        }
        draw_pixel(buf, dim, &p4, col);
        proof {
            lemma_paint_union(start, *dim, drawn, set![p4], c);
            drawn = drawn.union(set![p4]);
            lemma_pixels_fit_subset(start.len() as int, *dim, s8, set![p5]);
        }
        draw_pixel(buf, dim, &p5, col);
        proof {
            lemma_paint_union(start, *dim, drawn, set![p5], c);
            drawn = drawn.union(set![p5]);
            lemma_pixels_fit_subset(start.len() as int, *dim, s8, set![p6]);
        }
        draw_pixel(buf, dim, &p6, col);
        proof {
            lemma_paint_union(start, *dim, drawn, set![p6], c);
            drawn = drawn.union(set![p6]);
            lemma_pixels_fit_subset(start.len() as int, *dim, s8, set![p7]);
        }
        draw_pixel(buf, dim, &p7, col);
        proof {
            lemma_paint_union(start, *dim, drawn, set![p7], c);
            drawn = drawn.union(set![p7]);
            lemma_pixels_fit_subset(start.len() as int, *dim, s8, set![p8]);
        }
        draw_pixel(buf, dim, &p8, col);
        proof {
            lemma_paint_union(start, *dim, drawn, set![p8], c);
            drawn = drawn.union(set![p8]);
            assert(drawn =~= shape0.union(s8));
            lemma_decision_step(r, x as int, y as int);
            let n = octant_next(r, x as int, y as int);
            assert(octant_from(r, x as int, y as int) =~= seq![q] + octant_from(r, n.0, n.1));
            assert(oct =~= done.push(q) + octant_from(r, n.0, n.1));
            done = done.push(q);
        }

        if d > 0 {
            d += 4 * (x - y) + 10;
            y -= 1;
        } else {
            d += 4 * x + 6;
        }
        x += 1;
    }
    proof {
        assert(octant_from(r, x as int, y as int) =~= Seq::empty());
        assert(oct =~= done);
    }
}

/// Draws circles around points
pub fn draw_points(buf: &mut [u32], dim: &Size, pts: &Vec<Point2D>, col: &ColorRGB)
    requires
        forall|i: int| 0 <= i < pts@.len() ==> #[trigger] circle_fits(pts@[i], 4),
        pixels_fit(old(buf)@.len() as int, *dim, markers_shape(pts@, 4)),
    ensures
        final(buf)@ == paint(old(buf)@, *dim, markers_shape(pts@, 4), color_value(*col)),
{
    let ghost start = buf@;
    let ghost c = color_value(*col);
    proof {
        lemma_paint_empty(start, *dim, c);
        assert(pts@.take(0) =~= Seq::empty());
    }
    let n = pts.len();
    for i in 0..n
        invariant
            n == pts@.len(),
            forall|i: int| 0 <= i < pts@.len() ==> #[trigger] circle_fits(pts@[i], 4),
            pixels_fit(start.len() as int, *dim, markers_shape(pts@, 4)),
            c == color_value(*col),
            buf@ == paint(start, *dim, markers_shape(pts@.take(i as int), 4), c),
    {
        proof {
            lemma_marker_in_shape(pts@, 4, i as int);
            lemma_pixels_fit_subset(start.len() as int, *dim, markers_shape(pts@, 4), circle_shape(pts@[i as int], 4));
            assert(circle_fits(pts@[i as int], 4));
        }
        draw_circle(buf, dim, &pts[i], 4, col);
        proof {
            lemma_markers_step(pts@, 4, i as int);
            lemma_paint_union(start, *dim, markers_shape(pts@.take(i as int), 4), circle_shape(pts@[i as int], 4), c);
        }
    }
    proof {
        assert(pts@.take(n as int) =~= pts@);
    }
}

/// The circles of radius `rad` around all the points `pts`.
pub open spec fn markers_shape(pts: Seq<Point2D>, rad: i32) -> Set<Point2D>
    decreases pts.len(),
{
    if pts.len() == 0 {
        Set::empty()
    } else {
        markers_shape(pts.drop_last(), rad).union(circle_shape(pts.last(), rad))
    }
}

/// Every marker's pixels belong to the shape.
pub proof fn lemma_marker_in_shape(pts: Seq<Point2D>, rad: i32, i: int)
    requires
        0 <= i < pts.len(),
    ensures
        circle_shape(pts[i], rad).subset_of(markers_shape(pts, rad)),
    decreases pts.len(),
{
    if i < pts.len() - 1 {
        lemma_marker_in_shape(pts.drop_last(), rad, i);
    }
}

/// Drawing one more marker adds its circle to the shape.
pub proof fn lemma_markers_step(pts: Seq<Point2D>, rad: i32, i: int)
    requires
        0 <= i < pts.len(),
    ensures
        markers_shape(pts.take(i + 1), rad) == markers_shape(pts.take(i), rad).union(
            circle_shape(pts[i], rad),
        ),
{
    assert(pts.take(i + 1).drop_last() =~= pts.take(i));
}

/// A circle passes through the four points at distance `rad` straight
/// above, below, left and right of its centre.
pub proof fn lemma_circle_axis_points(org: Point2D, rad: i32)
    requires
        rad >= 2,
        circle_fits(org, rad),
    ensures
        circle_shape(org, rad).contains(((org.0 + rad) as i32, org.1)),
        circle_shape(org, rad).contains(((org.0 - rad) as i32, org.1)),
        circle_shape(org, rad).contains((org.0, (org.1 + rad) as i32)),
        circle_shape(org, rad).contains((org.0, (org.1 - rad) as i32)),
{
    let r = rad as int;
    let oct = octant(r);
    let n = octant_next(r, 0, r);
    assert(oct == seq![(0int, r)].add(octant_from(r, n.0, n.1)));
    assert(oct[0] == (0int, r));
    lemma_eight_in_shape(org, oct, 0);
    let e = eight(org, (0int, r));
    assert(e.contains(((org.0 + 0) as i32, (org.1 + r) as i32)));
    assert(e.contains(((org.0 + 0) as i32, (org.1 - r) as i32)));
    assert(e.contains(((org.0 + r) as i32, (org.1 + 0) as i32)));
    assert(e.contains(((org.0 - r) as i32, (org.1 + 0) as i32)));
}

/// The octant points from `(x, y)` on stay within `x <= x' <= y' <= y`.
proof fn lemma_octant_from_bounds(r: int, x: int, y: int)
    ensures
        forall|i: int|
            0 <= i < octant_from(r, x, y).len() ==> x <= (#[trigger] octant_from(r, x, y)[i]).0
                <= octant_from(r, x, y)[i].1 <= y,
    decreases y - x + 2,
{
    if x <= y {
        let n = octant_next(r, x, y);
        lemma_octant_from_bounds(r, n.0, n.1);
        let rest = octant_from(r, n.0, n.1);
        assert(octant_from(r, x, y) == seq![(x, y)].add(rest));
        assert forall|i: int| 0 <= i < octant_from(r, x, y).len() implies x <= (
        #[trigger] octant_from(r, x, y)[i]).0 <= octant_from(r, x, y)[i].1 <= y by {
            if i > 0 {
                assert(octant_from(r, x, y)[i] == rest[i - 1]);
            }
        }
    }
}

/// How far the offset `(x, y)` lies outside the circle of radius `r`, in
/// squared units: `x^2 + y^2 - r^2`.
pub open spec fn circle_excess(r: int, x: int, y: int) -> int {
    x * x + y * y - r * r
}

/// From a point within `y` of the circle (in squared units, `-y` up to
/// `y - 1`), every octant point that follows stays so.
proof fn lemma_octant_from_near(r: int, x: int, y: int)
    requires
        0 <= x,
        -y <= circle_excess(r, x, y) <= y - 1,
    ensures
        forall|i: int|
            0 <= i < octant_from(r, x, y).len() ==> -(#[trigger] octant_from(r, x, y)[i]).1
                <= circle_excess(r, octant_from(r, x, y)[i].0, octant_from(r, x, y)[i].1)
                <= octant_from(r, x, y)[i].1 - 1,
    decreases y - x + 2,
{
    if x <= y {
        let n = octant_next(r, x, y);
        assert(circle_excess(r, x + 1, y) == circle_excess(r, x, y) + 2 * x + 1)
            by (nonlinear_arith);
        assert(circle_excess(r, x + 1, y - 1) == circle_excess(r, x + 1, y) - 2 * y + 1)
            by (nonlinear_arith);
        assert(circle_decision(r, x, y) == circle_excess(r, x + 1, y) + circle_excess(
            r,
            x + 1,
            y - 1,
        )) by (nonlinear_arith);
        let rest = octant_from(r, n.0, n.1);
        if n.0 <= n.1 {
            lemma_octant_from_near(r, n.0, n.1);
        } else {
            assert(rest.len() == 0);
        }
        assert(octant_from(r, x, y) == seq![(x, y)].add(rest));
        assert forall|i: int| 0 <= i < octant_from(r, x, y).len() implies -(
        #[trigger] octant_from(r, x, y)[i]).1 <= circle_excess(
            r,
            octant_from(r, x, y)[i].0,
            octant_from(r, x, y)[i].1,
        ) <= octant_from(r, x, y)[i].1 - 1 by {
            if i > 0 {
                assert(octant_from(r, x, y)[i] == rest[i - 1]);
            }
        }
    }
}

/// Every octant point of a circle of radius `r` lies within one pixel of
/// it: its squared distance from the centre is between `r^2 - y` and
/// `r^2 + y - 1`, hence strictly between `(r - 1)^2` and `(r + 1)^2`.
pub proof fn lemma_octant_near_circle(r: int, i: int)
    requires
        r >= 2,
        0 <= i < octant(r).len(),
    ensures
        ({
            let (x, y) = octant(r)[i];
            &&& r * r - y <= x * x + y * y <= r * r + y - 1
            &&& (r - 1) * (r - 1) < x * x + y * y < (r + 1) * (r + 1)
        }),
{
    assert(circle_excess(r, 0, r) == 0) by (nonlinear_arith);
    lemma_octant_from_near(r, 0, r);
    lemma_octant_from_bounds(r, 0, r);
    let (x, y) = octant(r)[i];
    assert(octant(r)[i] == octant_from(r, 0, r)[i]);
    assert(0 <= x <= y <= r);
    assert((r - 1) * (r - 1) < r * r - y) by (nonlinear_arith)
        requires
            y <= r,
            r >= 2,
    ;
    assert(r * r + y - 1 < (r + 1) * (r + 1)) by (nonlinear_arith)
        requires
            y <= r,
            r >= 2,
    ;
}

/// Every pixel of a circle drawn with radius `rad >= 2` lies within one
/// pixel of the exact circle: its squared distance from the centre is
/// strictly between `(rad - 1)^2` and `(rad + 1)^2`.
pub proof fn lemma_circle_near(org: Point2D, rad: i32, p: Point2D)
    requires
        rad >= 2,
        circle_fits(org, rad),
        circle_shape(org, rad).contains(p),
    ensures
        ({
            let dx = p.0 - org.0;
            let dy = p.1 - org.1;
            (rad - 1) * (rad - 1) < dx * dx + dy * dy < (rad + 1) * (rad + 1)
        }),
{
    let r = rad as int;
    let oct = octant(r);
    lemma_octants_contains(org, oct, p);
    let i = choose|i: int| 0 <= i < oct.len() && #[trigger] eight(org, oct[i]).contains(p);
    assert(circle_step_fits(org, r, oct[i]));
    lemma_octant_near_circle(r, i);
    let (x, y) = oct[i];
    let dx = p.0 - org.0;
    let dy = p.1 - org.1;
    assert((-x) * (-x) == x * x) by (nonlinear_arith);
    assert((-y) * (-y) == y * y) by (nonlinear_arith);
    assert(eight(org, oct[i]).contains(p));
    assert(dx * dx + dy * dy == x * x + y * y);
}

/// Circles of radius up to `2^13` around points near the origin can always
/// be drawn.
pub proof fn lemma_small_circle_fits(org: Point2D, rad: i32)
    requires
        small_point(org),
        rad <= 0x2000,
    ensures
        circle_fits(org, rad),
{
    if rad >= 2 {
        let r = rad as int;
        lemma_octant_from_bounds(r, 0, r);
        assert forall|i: int| 0 <= i < octant(r).len() implies #[trigger] circle_step_fits(
            org,
            r,
            octant(r)[i],
        ) by {
            let (x, y) = octant(r)[i];
            let n = octant_next(r, x, y);
            let nx = n.0;
            let ny = n.1;
            assert(0 <= x <= y <= r);
            assert(circle_decision(r, nx, ny) < 0x4000_0000 && circle_decision(r, nx, ny) > -0x4000_0000)
                by (nonlinear_arith)
                requires
                    0 <= nx <= r + 1,
                    -1 <= ny <= r,
                    2 <= r <= 0x2000,
            ;
        }
    }
}

/// A point belongs to the reflections of some offsets exactly when it
/// belongs to the reflections of one of them.
proof fn lemma_octants_contains(org: Point2D, qs: Seq<(int, int)>, p: Point2D)
    ensures
        octants_shape(org, qs).contains(p) <==> exists|i: int|
            0 <= i < qs.len() && #[trigger] eight(org, qs[i]).contains(p),
    decreases qs.len(),
{
    if qs.len() > 0 {
        let init = qs.drop_last();
        lemma_octants_contains(org, init, p);
        if octants_shape(org, qs).contains(p) && octants_shape(org, init).contains(p) {
            let i = choose|i: int| 0 <= i < init.len() && #[trigger] eight(org, init[i]).contains(p);
            assert(qs[i] == init[i]);
        }
        if exists|i: int| 0 <= i < qs.len() && #[trigger] eight(org, qs[i]).contains(p) {
            let i = choose|i: int| 0 <= i < qs.len() && #[trigger] eight(org, qs[i]).contains(p);
            if i < qs.len() - 1 {
                assert(init[i] == qs[i]);
            }
        }
    }
}

/// A circle is symmetric about the vertical and horizontal lines through
/// its centre and about the diagonal through it.
pub proof fn lemma_circle_symmetric(org: Point2D, rad: i32, p: Point2D)
    requires
        rad >= 2,
        circle_fits(org, rad),
        circle_shape(org, rad).contains(p),
    ensures
        circle_shape(org, rad).contains(((2 * org.0 - p.0) as i32, p.1)),
        circle_shape(org, rad).contains((p.0, (2 * org.1 - p.1) as i32)),
        circle_shape(org, rad).contains(((org.0 + (p.1 - org.1)) as i32, (org.1 + (p.0 - org.0)) as i32)),
{
    let oct = octant(rad as int);
    lemma_octants_contains(org, oct, p);
    let i = choose|i: int| 0 <= i < oct.len() && #[trigger] eight(org, oct[i]).contains(p);
    assert(circle_step_fits(org, rad as int, oct[i]));
    let e = eight(org, oct[i]);
    let mx = ((2 * org.0 - p.0) as i32, p.1);
    let my = (p.0, (2 * org.1 - p.1) as i32);
    let sw = ((org.0 + (p.1 - org.1)) as i32, (org.1 + (p.0 - org.0)) as i32);
    assert(e.contains(mx) && e.contains(my) && e.contains(sw));
    lemma_eight_in_shape(org, oct, i);
}

} // verus!
