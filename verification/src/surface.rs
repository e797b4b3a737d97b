//! A bilinear surface drawn as a grid of lines with a marker at each node.
use vstd::prelude::*;
use crate::canvas::{
    color_value, lemma_paint_empty, lemma_paint_union, lemma_pixels_fit_subset, paint, pixels_fit,
    Point2D, Size, BLUE, GRAY,
};
use crate::circle::{
    circle_fits, circle_shape, draw_circle, lemma_marker_in_shape, lemma_markers_step,
    markers_shape,
};
use crate::line::{draw_line, line_fits, line_path};
use crate::polyline::{
    lemma_segment_in_shape, lemma_segments_shape_contains, lemma_segments_step, segments_fit,
    segments_shape,
};

verus! {

/// The `k`-th line that `draw_bilinear_surface` draws: for each row `i` of
/// the grid but the last and each column `j`, first the line from node
/// `(i, j)` down to node `(i + 1, j)`, then the line from node `(j, i)`
/// across to node `(j, i + 1)`.
pub open spec fn grid_segment(surf: [[Point2D; 6]; 6], k: int) -> (Point2D, Point2D) {
    let i = k / 12;
    let j = (k % 12) / 2;
    if k % 2 == 0 {
        (surf@[i]@[j], surf@[i + 1]@[j])
    } else {
        (surf@[j]@[i], surf@[j]@[i + 1])
    }
}

/// The lines of the grid, in drawing order.
pub open spec fn grid_segments(surf: [[Point2D; 6]; 6]) -> Seq<(Point2D, Point2D)> {
    Seq::new(60, |k: int| grid_segment(surf, k))
}

/// The nodes of the grid, row by row.
pub open spec fn grid_points(surf: [[Point2D; 6]; 6]) -> Seq<Point2D> {
    Seq::new(36, |k: int| surf@[k / 6]@[k % 6])
}

/// The horizontal grid line from node `(r, c)` to node `(r, c + 1)`.
pub open spec fn row_link(surf: [[Point2D; 6]; 6], r: int, c: int) -> Set<Point2D> {
    line_path(surf@[r]@[c], surf@[r]@[c + 1]).to_set()
}

/// The vertical grid line from node `(r, c)` to node `(r + 1, c)`.
pub open spec fn column_link(surf: [[Point2D; 6]; 6], r: int, c: int) -> Set<Point2D> {
    line_path(surf@[r]@[c], surf@[r + 1]@[c]).to_set()
}

/// Where the two lines joining the neighbours of node `(c, r)` and of node
/// `(r, c)` stand among the grid's lines.
proof fn lemma_grid_index(surf: [[Point2D; 6]; 6], r: int, c: int)
    requires
        0 <= r < 6,
        0 <= c < 5,
    ensures
        grid_segments(surf)[12 * c + 2 * r] == (surf@[c]@[r], surf@[c + 1]@[r]),
        grid_segments(surf)[12 * c + 2 * r + 1] == (surf@[r]@[c], surf@[r]@[c + 1]),
{
    let k = 12 * c + 2 * r;
    vstd::arithmetic::div_mod::lemma_fundamental_div_mod_converse(k, 12, c, 2 * r);
    vstd::arithmetic::div_mod::lemma_fundamental_div_mod_converse(k + 1, 12, c, 2 * r + 1);
    vstd::arithmetic::div_mod::lemma_fundamental_div_mod_converse(2 * r, 2, r, 0);
    vstd::arithmetic::div_mod::lemma_fundamental_div_mod_converse(2 * r + 1, 2, r, 1);
    vstd::arithmetic::div_mod::lemma_fundamental_div_mod_converse(k, 2, 6 * c + r, 0);
    vstd::arithmetic::div_mod::lemma_fundamental_div_mod_converse(k + 1, 2, 6 * c + r, 1);
}

/// A pixel on the links of node `(r, c)` lies on the links of some node.
proof fn lemma_link_witness(surf: [[Point2D; 6]; 6], p: Point2D, r: int, c: int)
    requires
        0 <= r < 6,
        0 <= c < 5,
        row_link(surf, r, c).contains(p) || column_link(surf, c, r).contains(p),
    ensures
        exists|r2: int, c2: int|
            #![trigger row_link(surf, r2, c2)]
            0 <= r2 < 6 && 0 <= c2 < 5 && (row_link(surf, r2, c2).contains(p) || column_link(
                surf,
                c2,
                r2,
            ).contains(p)),
{
}

/// The grid joins every node to its right and lower neighbours, and draws
/// nothing else: a pixel is gray exactly when it lies on the line between
/// two nodes next to each other in a row or in a column.
pub proof fn lemma_grid_joins_neighbours(surf: [[Point2D; 6]; 6], p: Point2D)
    ensures
        forall|r: int, c: int|
            0 <= r < 6 && 0 <= c < 5 ==> (#[trigger] row_link(surf, r, c)).subset_of(
                segments_shape(grid_segments(surf)),
            ),
        forall|r: int, c: int|
            0 <= r < 5 && 0 <= c < 6 ==> (#[trigger] column_link(surf, r, c)).subset_of(
                segments_shape(grid_segments(surf)),
            ),
        segments_shape(grid_segments(surf)).contains(p) ==> exists|r: int, c: int|
            #![trigger row_link(surf, r, c)]
            0 <= r < 6 && 0 <= c < 5 && (row_link(surf, r, c).contains(p) || column_link(
                surf,
                c,
                r,
            ).contains(p)),
{
    let segs = grid_segments(surf);
    assert forall|r: int, c: int| 0 <= r < 6 && 0 <= c < 5 implies (#[trigger] row_link(
        surf,
        r,
        c,
    )).subset_of(segments_shape(segs)) by {
        lemma_grid_index(surf, r, c);
        lemma_segment_in_shape(segs, 12 * c + 2 * r + 1);
    }
    assert forall|r: int, c: int| 0 <= r < 5 && 0 <= c < 6 implies (#[trigger] column_link(
        surf,
        r,
        c,
    )).subset_of(segments_shape(segs)) by {
        lemma_grid_index(surf, c, r);
        lemma_segment_in_shape(segs, 12 * r + 2 * c);
    }
    if segments_shape(segs).contains(p) {
        lemma_segments_shape_contains(segs, p);
        let k = choose|k: int|
            0 <= k < segs.len() && #[trigger] line_path(segs[k].0, segs[k].1).to_set().contains(p);
        let c = k / 12;
        let r = (k % 12) / 2;
        assert(0 <= c < 5);
        assert(0 <= r < 6);
        lemma_grid_index(surf, r, c);
        assert(k == 12 * c + 2 * r || k == 12 * c + 2 * r + 1);
        if k == 12 * c + 2 * r {
            assert(column_link(surf, c, r).contains(p));
        } else {
            assert(row_link(surf, r, c).contains(p));
        }
        lemma_link_witness(surf, p, r, c);
    }
}

/// Draws the surface
pub fn draw_bilinear_surface(buf: &mut [u32], dim: &Size, surf: &[[Point2D; 6]; 6])
    requires
        segments_fit(grid_segments(*surf)),
        forall|k: int| 0 <= k < 36 ==> #[trigger] circle_fits(grid_points(*surf)[k], 2),
        pixels_fit(old(buf)@.len() as int, *dim, segments_shape(grid_segments(*surf))),
        pixels_fit(old(buf)@.len() as int, *dim, markers_shape(grid_points(*surf), 2)),
    ensures
        final(buf)@ == paint(
            paint(old(buf)@, *dim, segments_shape(grid_segments(*surf)), color_value(GRAY)),
            *dim,
            markers_shape(grid_points(*surf), 2),
            color_value(BLUE),
        ),
{
    let ghost start = buf@;
    let ghost segs = grid_segments(*surf);
    let ghost gray = color_value(GRAY);
    proof {
        lemma_paint_empty(start, *dim, gray);
        assert(segs.take(0) =~= Seq::empty());
    }
    for i in 0..5usize
        invariant
            segs == grid_segments(*surf),
            segments_fit(segs),
            pixels_fit(start.len() as int, *dim, segments_shape(segs)),
            gray == color_value(GRAY),
            buf@ == paint(start, *dim, segments_shape(segs.take(12 * i as int)), gray),
    {
        for j in 0..6usize
            invariant
                i < 5,
                segs == grid_segments(*surf),
                segments_fit(segs),
                pixels_fit(start.len() as int, *dim, segments_shape(segs)),
                gray == color_value(GRAY),
                buf@ == paint(start, *dim, segments_shape(segs.take(12 * i + 2 * j)), gray),
        {
            let ghost k = 12 * i + 2 * j;
            proof {
                vstd::arithmetic::div_mod::lemma_fundamental_div_mod_converse(k, 12, i as int, 2 * j as int);
                vstd::arithmetic::div_mod::lemma_fundamental_div_mod_converse(k + 1, 12, i as int, 2 * j + 1);
                vstd::arithmetic::div_mod::lemma_fundamental_div_mod_converse(2 * j as int, 2, j as int, 0);
                vstd::arithmetic::div_mod::lemma_fundamental_div_mod_converse(2 * j + 1, 2, j as int, 1);
                vstd::arithmetic::div_mod::lemma_fundamental_div_mod_converse(k, 2, 6 * i + j, 0);
                vstd::arithmetic::div_mod::lemma_fundamental_div_mod_converse(k + 1, 2, 6 * i + j, 1);
                assert(segs[k] == (surf@[i as int]@[j as int], surf@[i + 1]@[j as int]));
                assert(segs[k + 1] == (surf@[j as int]@[i as int], surf@[j as int]@[i + 1]));
                lemma_segment_in_shape(segs, k);
                lemma_pixels_fit_subset(start.len() as int, *dim, segments_shape(segs), line_path(segs[k].0, segs[k].1).to_set());
                assert(line_fits(segs[k].0, segs[k].1));
            }
            draw_line(buf, dim, &surf[i][j], &surf[i + 1][j], &GRAY);
            proof {
                lemma_segments_step(segs, k);
                lemma_paint_union(start, *dim, segments_shape(segs.take(k)), line_path(segs[k].0, segs[k].1).to_set(), gray);
                lemma_segment_in_shape(segs, k + 1);
                lemma_pixels_fit_subset(start.len() as int, *dim, segments_shape(segs), line_path(segs[k + 1].0, segs[k + 1].1).to_set());
                assert(line_fits(segs[k + 1].0, segs[k + 1].1));
            }
            draw_line(buf, dim, &surf[j][i], &surf[j][i + 1], &GRAY);
            proof {
                lemma_segments_step(segs, k + 1);
                lemma_paint_union(start, *dim, segments_shape(segs.take(k + 1)), line_path(segs[k + 1].0, segs[k + 1].1).to_set(), gray);
            }
        }
    }
    proof {
        assert(segs.take(60) =~= segs);
    }

    let ghost mid = buf@;
    let ghost pts = grid_points(*surf);
    let ghost blue = color_value(BLUE);
    proof {
        lemma_paint_empty(mid, *dim, blue);
        assert(pts.take(0) =~= Seq::empty());
    }
    for i in 0..6usize
        invariant
            pts == grid_points(*surf),
            forall|k: int| 0 <= k < 36 ==> #[trigger] circle_fits(pts[k], 2),
            pixels_fit(mid.len() as int, *dim, markers_shape(pts, 2)),
            blue == color_value(BLUE),
            buf@ == paint(mid, *dim, markers_shape(pts.take(6 * i as int), 2), blue),
    {
        for j in 0..6usize
            invariant
                i < 6,
                pts == grid_points(*surf),
                forall|k: int| 0 <= k < 36 ==> #[trigger] circle_fits(pts[k], 2),
                pixels_fit(mid.len() as int, *dim, markers_shape(pts, 2)),
                blue == color_value(BLUE),
                buf@ == paint(mid, *dim, markers_shape(pts.take(6 * i + j), 2), blue),
        {
            let ghost k = 6 * i + j;
            proof {
                vstd::arithmetic::div_mod::lemma_fundamental_div_mod_converse(k, 6, i as int, j as int);
                assert(pts[k] == surf@[i as int]@[j as int]);
                assert(circle_fits(pts[k], 2));
                lemma_marker_in_shape(pts, 2, k);
                lemma_pixels_fit_subset(mid.len() as int, *dim, markers_shape(pts, 2), circle_shape(pts[k], 2));
            }
            draw_circle(buf, dim, &surf[i][j], 2, &BLUE);
            proof {
                lemma_markers_step(pts, 2, k);
                lemma_paint_union(mid, *dim, markers_shape(pts.take(k), 2), circle_shape(pts[k], 2), blue);
            }
        }
    }
    proof {
        assert(pts.take(36) =~= pts);
    }
}

} // verus!
