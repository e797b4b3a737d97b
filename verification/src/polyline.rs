//! Shapes made of several lines: polylines, polygons, loose segments and
//! coordinate axes.
use vstd::prelude::*;
use crate::canvas::{
    color_value, lemma_paint_empty, lemma_paint_union, lemma_pixels_fit_subset, paint, pixels_fit,
    ColorRGB, Point2D, Size,
};
use crate::line::{
    draw_line, lemma_horizontal_line, lemma_line_symmetric, lemma_vertical_line, line_fits,
    line_path,
};

verus! {

/// The pixels of all the lines of `segs`.
pub open spec fn segments_shape(segs: Seq<(Point2D, Point2D)>) -> Set<Point2D>
    decreases segs.len(),
{
    if segs.len() == 0 {
        Set::empty()
    } else {
        segments_shape(segs.drop_last()).union(line_path(segs.last().0, segs.last().1).to_set())
    }
}

/// Every line of `segs` can be drawn without leaving `i32`.
pub open spec fn segments_fit(segs: Seq<(Point2D, Point2D)>) -> bool {
    forall|i: int| 0 <= i < segs.len() ==> #[trigger] line_fits(segs[i].0, segs[i].1)
}

/// The lines between consecutive points of `pts`.
pub open spec fn polyline_segments(pts: Seq<Point2D>) -> Seq<(Point2D, Point2D)> {
    if pts.len() < 2 {
        Seq::empty()
    } else {
        Seq::new((pts.len() - 1) as nat, |i: int| (pts[i], pts[i + 1]))
    }
}

/// The lines between consecutive points of `pts`, and from the last point
/// back to the first.
pub open spec fn polygon_segments(pts: Seq<Point2D>) -> Seq<(Point2D, Point2D)> {
    if pts.len() < 2 {
        Seq::empty()
    } else {
        polyline_segments(pts).push((pts.last(), pts[0]))
    }
}

/// The two axes through `org`: the full column and the full row of the canvas.
pub open spec fn origin_segments(dim: Size, org: Point2D) -> Seq<(Point2D, Point2D)> {
    seq![
        ((org.0, 0i32), (org.0, ((dim.height as i32) - 1) as i32)),
        ((0i32, org.1), (((dim.width as i32) - 1) as i32, org.1)),
    ]
}

/// Drawing one more line adds its pixels to the shape.
pub proof fn lemma_segments_step(segs: Seq<(Point2D, Point2D)>, i: int)
    requires
        0 <= i < segs.len(),
    ensures
        segments_shape(segs.take(i + 1)) == segments_shape(segs.take(i)).union(
            line_path(segs[i].0, segs[i].1).to_set(),
        ),
{
    assert(segs.take(i + 1).drop_last() =~= segs.take(i));
}

/// Every line's pixels belong to the shape.
pub proof fn lemma_segment_in_shape(segs: Seq<(Point2D, Point2D)>, i: int)
    requires
        0 <= i < segs.len(),
    ensures
        line_path(segs[i].0, segs[i].1).to_set().subset_of(segments_shape(segs)),
    decreases segs.len(),
{
    if i < segs.len() - 1 {
        lemma_segment_in_shape(segs.drop_last(), i);
    }
}

/// Draws line segments
pub fn draw_segments(buf: &mut [u32], dim: &Size, segs: &[(Point2D, Point2D)], col: &ColorRGB)
    requires
        segments_fit(segs@),
        pixels_fit(old(buf)@.len() as int, *dim, segments_shape(segs@)),
    ensures
        final(buf)@ == paint(old(buf)@, *dim, segments_shape(segs@), color_value(*col)),
{
    let ghost start = buf@;
    let ghost c = color_value(*col);
    proof {
        lemma_paint_empty(start, *dim, c);
        assert(segs@.take(0) =~= Seq::empty());
    }
    let n = segs.len();
    for i in 0..n
        invariant
            n == segs@.len(),
            segments_fit(segs@),
            pixels_fit(start.len() as int, *dim, segments_shape(segs@)),
            c == color_value(*col),
            buf@ == paint(start, *dim, segments_shape(segs@.take(i as int)), c),
    {
        proof {
            lemma_segment_in_shape(segs@, i as int);
            lemma_pixels_fit_subset(
                start.len() as int,
                *dim,
                segments_shape(segs@),
                line_path(segs@[i as int].0, segs@[i as int].1).to_set(),
            );
            assert(line_fits(segs@[i as int].0, segs@[i as int].1));
        }
        draw_line(buf, dim, &segs[i].0, &segs[i].1, col);
        proof {
            lemma_segments_step(segs@, i as int);
            lemma_paint_union(
                start,
                *dim,
                segments_shape(segs@.take(i as int)),
                line_path(segs@[i as int].0, segs@[i as int].1).to_set(),
                c,
            );
        }
    }
    proof {
        assert(segs@.take(n as int) =~= segs@);
    }
}

/// Draw a line between all given points
pub fn draw_connect(buf: &mut [u32], dim: &Size, pts: &[Point2D], col: &ColorRGB)
    requires
        segments_fit(polyline_segments(pts@)),
        pixels_fit(old(buf)@.len() as int, *dim, segments_shape(polyline_segments(pts@))),
    ensures
        final(buf)@ == paint(
            old(buf)@,
            *dim,
            segments_shape(polyline_segments(pts@)),
            color_value(*col),
        ),
{
    let ghost start = buf@;
    let ghost c = color_value(*col);
    let ghost segs = polyline_segments(pts@);
    let len: usize = pts.len();

    if len < 2 {
        proof {
            lemma_paint_empty(start, *dim, c);
        }
        return ;
    }
    proof {
        lemma_paint_empty(start, *dim, c);
        assert(segs.take(0) =~= Seq::empty());
    }
    for i in 0..len - 1
        invariant
            len == pts@.len(),
            len >= 2,
            segs == polyline_segments(pts@),
            segments_fit(segs),
            pixels_fit(start.len() as int, *dim, segments_shape(segs)),
            c == color_value(*col),
            buf@ == paint(start, *dim, segments_shape(segs.take(i as int)), c),
    {
        proof {
            assert(segs[i as int] == (pts@[i as int], pts@[i + 1]));
            lemma_segment_in_shape(segs, i as int);
            lemma_pixels_fit_subset(
                start.len() as int,
                *dim,
                segments_shape(segs),
                line_path(pts@[i as int], pts@[i + 1]).to_set(),
            );
            assert(line_fits(segs[i as int].0, segs[i as int].1));
        }
        draw_line(buf, dim, &pts[i], &pts[i + 1], col);
        proof {
            lemma_segments_step(segs, i as int);
            lemma_paint_union(
                start,
                *dim,
                segments_shape(segs.take(i as int)),
                line_path(pts@[i as int], pts@[i + 1]).to_set(),
                c,
            );
        }
    }
    proof {
        assert(segs.take(len - 1) =~= segs);
    }
}

/// Draw a line between all given points and connect the ends
pub fn draw_polygon(buf: &mut [u32], dim: &Size, poly: &[Point2D], col: &ColorRGB)
    requires
        segments_fit(polygon_segments(poly@)),
        pixels_fit(old(buf)@.len() as int, *dim, segments_shape(polygon_segments(poly@))),
    ensures
        final(buf)@ == paint(
            old(buf)@,
            *dim,
            segments_shape(polygon_segments(poly@)),
            color_value(*col),
        ),
{
    let ghost start = buf@;
    let ghost c = color_value(*col);
    let ghost segs = polygon_segments(poly@);
    let len: usize = poly.len();

    if len < 2 {
        proof {
            lemma_paint_empty(start, *dim, c);
        }
        return ;
    }
    proof {
        lemma_paint_empty(start, *dim, c);
        assert(segs.take(0) =~= Seq::empty());
    }
    for i in 0..len - 1
        invariant
            len == poly@.len(),
            len >= 2,
            segs == polygon_segments(poly@),
            segments_fit(segs),
            pixels_fit(start.len() as int, *dim, segments_shape(segs)),
            c == color_value(*col),
            buf@ == paint(start, *dim, segments_shape(segs.take(i as int)), c),
    {
        proof {
            assert(segs[i as int] == (poly@[i as int], poly@[i + 1]));
            lemma_segment_in_shape(segs, i as int);
            lemma_pixels_fit_subset(
                start.len() as int,
                *dim,
                segments_shape(segs),
                line_path(poly@[i as int], poly@[i + 1]).to_set(),
            );
            assert(line_fits(segs[i as int].0, segs[i as int].1));
        }
        draw_line(buf, dim, &poly[i], &poly[i + 1], col);
        proof {
            lemma_segments_step(segs, i as int);
            lemma_paint_union(
                start,
                *dim,
                segments_shape(segs.take(i as int)),
                line_path(poly@[i as int], poly@[i + 1]).to_set(),
                c,
            );
        }
    }
    let ghost last = (len - 1) as int;
    proof {
        assert(segs[last] == (poly@[last], poly@[0]));
        lemma_segment_in_shape(segs, last);
        lemma_pixels_fit_subset(
            start.len() as int,
            *dim,
            segments_shape(segs),
            line_path(poly@[last], poly@[0]).to_set(),
        );
        assert(line_fits(segs[last].0, segs[last].1));
    }
    draw_line(buf, dim, &poly[len - 1], &poly[0], col);
    proof {
        lemma_segments_step(segs, last);
        lemma_paint_union(
            start,
            *dim,
            segments_shape(segs.take(last)),
            line_path(poly@[last], poly@[0]).to_set(),
            c,
        );
        assert(segs.take(len as int) =~= segs);
    }
}

/// Draw coordinate axes from given point
pub fn draw_origin(buf: &mut [u32], dim: &Size, org: &Point2D, col: &ColorRGB)
    requires
        (dim.width as i32) > i32::MIN,
        (dim.height as i32) > i32::MIN,
        segments_fit(origin_segments(*dim, *org)),
        pixels_fit(old(buf)@.len() as int, *dim, segments_shape(origin_segments(*dim, *org))),
    ensures
        final(buf)@ == paint(
            old(buf)@,
            *dim,
            segments_shape(origin_segments(*dim, *org)),
            color_value(*col),
        ),
{
    let ghost start = buf@;
    let ghost c = color_value(*col);
    let ghost segs = origin_segments(*dim, *org);
    proof {
        lemma_segment_in_shape(segs, 0);
        lemma_segment_in_shape(segs, 1);
        lemma_pixels_fit_subset(start.len() as int, *dim, segments_shape(segs), line_path(segs[0].0, segs[0].1).to_set());
        lemma_pixels_fit_subset(start.len() as int, *dim, segments_shape(segs), line_path(segs[1].0, segs[1].1).to_set());
        assert(line_fits(segs[0].0, segs[0].1));
        assert(line_fits(segs[1].0, segs[1].1));
    }
    draw_line(buf, dim, &(org.0, 0), &(org.0, dim.height as i32 - 1), col);
    draw_line(buf, dim, &(0, org.1), &(dim.width as i32 - 1, org.1), col);
    proof {
        let l0 = line_path(segs[0].0, segs[0].1).to_set();
        let l1 = line_path(segs[1].0, segs[1].1).to_set();
        lemma_paint_union(start, *dim, l0, l1, c);
        let first = segs.drop_last();
        assert(first.drop_last() =~= Seq::empty());
        assert(segments_shape(first) == segments_shape(first.drop_last()).union(l0));
        assert(segments_shape(first) =~= l0);
        assert(segments_shape(segs) == l0.union(l1));
    }
}

/// The axes span the canvas: a pixel belongs to them exactly when it lies
/// in the column of `org` between the top and bottom rows, or in the row of
/// `org` between the left and right columns.
pub proof fn lemma_origin_axes(dim: Size, org: Point2D, p: Point2D)
    requires
        1 <= dim.width <= i32::MAX,
        1 <= dim.height <= i32::MAX,
        segments_fit(origin_segments(dim, org)),
    ensures
        segments_shape(origin_segments(dim, org)).contains(p) <==> ((p.0 == org.0 && 0 <= p.1
            < dim.height) || (p.1 == org.1 && 0 <= p.0 < dim.width)),
{
    let segs = origin_segments(dim, org);
    assert(line_fits(segs[0].0, segs[0].1));
    assert(line_fits(segs[1].0, segs[1].1));
    let l0 = line_path(segs[0].0, segs[0].1).to_set();
    let l1 = line_path(segs[1].0, segs[1].1).to_set();
    let first = segs.drop_last();
    assert(first.drop_last() =~= Seq::empty());
    assert(segments_shape(first) == segments_shape(first.drop_last()).union(l0));
    assert(segments_shape(first) =~= l0);
    assert(segments_shape(segs) == l0.union(l1));
    assert(segs[0] == ((org.0, 0i32), (org.0, (dim.height - 1) as i32)));
    assert(segs[1] == ((0i32, org.1), ((dim.width - 1) as i32, org.1)));
    lemma_vertical_line(segs[0].0, segs[0].1, p);
    lemma_horizontal_line(segs[1].0, segs[1].1, p);
}

/// A polygon is the polyline through its points and back to the first one.
pub proof fn lemma_polygon_closes_polyline(pts: Seq<Point2D>)
    requires
        pts.len() >= 2,
    ensures
        polygon_segments(pts) == polyline_segments(pts.push(pts[0])),
{
    assert(polygon_segments(pts) =~= polyline_segments(pts.push(pts[0])));
}

/// A point belongs to the shape exactly when it belongs to one of its lines.
pub proof fn lemma_segments_shape_contains(segs: Seq<(Point2D, Point2D)>, p: Point2D)
    ensures
        segments_shape(segs).contains(p) <==> exists|i: int|
            0 <= i < segs.len() && #[trigger] line_path(segs[i].0, segs[i].1).to_set().contains(p),
    decreases segs.len(),
{
    if segs.len() > 0 {
        let init = segs.drop_last();
        lemma_segments_shape_contains(init, p);
        if segments_shape(segs).contains(p) {
            if segments_shape(init).contains(p) {
                let i = choose|i: int|
                    0 <= i < init.len() && #[trigger] line_path(init[i].0, init[i].1).to_set().contains(p);
                assert(segs[i] == init[i]);
            } else {
                assert(line_path(segs[segs.len() - 1].0, segs[segs.len() - 1].1).to_set().contains(p));
            }
        }
        if exists|i: int|
            0 <= i < segs.len() && #[trigger] line_path(segs[i].0, segs[i].1).to_set().contains(p) {
            let i = choose|i: int|
                0 <= i < segs.len() && #[trigger] line_path(segs[i].0, segs[i].1).to_set().contains(p);
            if i < segs.len() - 1 {
                assert(init[i] == segs[i]);
                assert(line_path(init[i].0, init[i].1).to_set().contains(p));
            }
        }
    }
}

/// Two lists of lines draw the same shape when each line of one draws the
/// same pixels as some line of the other (`f` and `g` pick those lines).
proof fn lemma_same_lines(
    a: Seq<(Point2D, Point2D)>,
    b: Seq<(Point2D, Point2D)>,
    f: spec_fn(int) -> int,
    g: spec_fn(int) -> int,
)
    requires
        forall|i: int|
            0 <= i < a.len() ==> 0 <= #[trigger] f(i) < b.len() && line_path(a[i].0, a[i].1)
                == line_path(b[f(i)].0, b[f(i)].1),
        forall|j: int|
            0 <= j < b.len() ==> 0 <= #[trigger] g(j) < a.len() && line_path(a[g(j)].0, a[g(j)].1)
                == line_path(b[j].0, b[j].1),
    ensures
        segments_shape(a) == segments_shape(b),
{
    assert forall|p: Point2D| segments_shape(a).contains(p) <==> segments_shape(b).contains(p) by {
        lemma_segments_shape_contains(a, p);
        lemma_segments_shape_contains(b, p);
        if segments_shape(a).contains(p) {
            let i = choose|i: int|
                0 <= i < a.len() && #[trigger] line_path(a[i].0, a[i].1).to_set().contains(p);
            let j = f(i);
            assert(line_path(b[j].0, b[j].1).to_set().contains(p));
        }
        if segments_shape(b).contains(p) {
            let j = choose|j: int|
                0 <= j < b.len() && #[trigger] line_path(b[j].0, b[j].1).to_set().contains(p);
            let i = g(j);
            assert(line_path(a[i].0, a[i].1).to_set().contains(p));
        }
    }
    assert(segments_shape(a) =~= segments_shape(b));
}

/// The `i`-th side of a polygon runs from point `i` to the next point,
/// the last side back to the first point.
proof fn lemma_polygon_side(pts: Seq<Point2D>, i: int)
    requires
        pts.len() >= 2,
        0 <= i < pts.len(),
    ensures
        polygon_segments(pts).len() == pts.len(),
        polygon_segments(pts)[i] == (pts[i], if i + 1 < pts.len() {
            pts[i + 1]
        } else {
            pts[0]
        }),
{
}

/// Walking a polyline backwards draws the same pixels.
pub proof fn lemma_polyline_reversal(pts: Seq<Point2D>)
    ensures
        segments_shape(polyline_segments(pts.reverse())) == segments_shape(polyline_segments(pts)),
{
    let n = pts.len() as int;
    let r = pts.reverse();
    if n >= 2 {
        let a = polyline_segments(r);
        let b = polyline_segments(pts);
        let f = |i: int| n - 2 - i;
        assert forall|i: int| 0 <= i < a.len() implies 0 <= #[trigger] f(i) < b.len() && line_path(
            a[i].0,
            a[i].1,
        ) == line_path(b[f(i)].0, b[f(i)].1) by {
            lemma_line_symmetric(b[f(i)].0, b[f(i)].1);
            assert(a[i] == (b[f(i)].1, b[f(i)].0));
        }
        lemma_same_lines(a, b, f, f);
    } else {
        assert(polyline_segments(r) =~= polyline_segments(pts));
    }
}

/// A polygon draws the same pixels whichever point it starts from.
pub proof fn lemma_polygon_rotation(pts: Seq<Point2D>, k: int)
    requires
        0 <= k < pts.len(),
    ensures
        segments_shape(polygon_segments(pts.skip(k) + pts.take(k))) == segments_shape(
            polygon_segments(pts),
        ),
{
    let n = pts.len() as int;
    let q = pts.skip(k) + pts.take(k);
    assert(q.len() == n);
    assert forall|i: int| 0 <= i < n implies #[trigger] q[i] == (if i + k < n {
        pts[i + k]
    } else {
        pts[i + k - n]
    }) by {}
    if n >= 2 {
        let a = polygon_segments(q);
        let b = polygon_segments(pts);
        let f = |i: int| if i + k < n { i + k } else { i + k - n };
        let g = |j: int| if j >= k { j - k } else { j + n - k };
        assert forall|i: int| 0 <= i < a.len() implies 0 <= #[trigger] f(i) < b.len() && line_path(
            a[i].0,
            a[i].1,
        ) == line_path(b[f(i)].0, b[f(i)].1) by {
            lemma_polygon_side(q, i);
            lemma_polygon_side(pts, f(i));
            assert(a[i] == b[f(i)]);
        }
        assert forall|j: int| 0 <= j < b.len() implies 0 <= #[trigger] g(j) < a.len() && line_path(
            a[g(j)].0,
            a[g(j)].1,
        ) == line_path(b[j].0, b[j].1) by {
            assert(f(g(j)) == j);
            lemma_polygon_side(q, g(j));
            lemma_polygon_side(pts, j);
            assert(a[g(j)] == b[j]);
        }
        lemma_same_lines(a, b, f, g);
    } else {
        assert(q =~= pts);
    }
}

/// A polygon draws the same pixels walked the other way round.
pub proof fn lemma_polygon_reversal(pts: Seq<Point2D>)
    ensures
        segments_shape(polygon_segments(pts.reverse())) == segments_shape(polygon_segments(pts)),
{
    let n = pts.len() as int;
    let r = pts.reverse();
    if n >= 2 {
        let a = polygon_segments(r);
        let b = polygon_segments(pts);
        let f = |i: int| if i < n - 1 { n - 2 - i } else { n - 1 };
        assert forall|i: int| 0 <= i < a.len() implies 0 <= #[trigger] f(i) < b.len() && line_path(
            a[i].0,
            a[i].1,
        ) == line_path(b[f(i)].0, b[f(i)].1) by {
            lemma_polygon_side(r, i);
            lemma_polygon_side(pts, f(i));
            lemma_line_symmetric(b[f(i)].0, b[f(i)].1);
            assert(a[i] == (b[f(i)].1, b[f(i)].0));
        }
        lemma_same_lines(a, b, f, f);
    } else {
        assert(polygon_segments(r) =~= polygon_segments(pts));
    }
}

} // verus!
