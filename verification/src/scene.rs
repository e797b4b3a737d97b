//! The integer decisions of the interactive programs: where their shapes
//! stand and how input changes them.
use vstd::prelude::*;
use crate::canvas::Point2D;
use crate::clip::rect_ok;
use crate::line::fits_i32;

verus! {

/// The triangle with its first corner at `origin`.
pub open spec fn triangle_spec(origin: Point2D) -> Seq<Point2D> {
    seq![
        origin,
        ((origin.0 + 60) as i32, (origin.1 + 60) as i32),
        (origin.0, (origin.1 + 140) as i32),
    ]
}

/// Define a triangle
pub fn triangle_at(origin: &Point2D) -> (tri: [Point2D; 3])
    requires
        fits_i32(origin.0 + 60),
        fits_i32(origin.1 + 140),
    ensures
        tri@ == triangle_spec(*origin),
        tri[0] == *origin,
        tri[1].0 == origin.0 + 60,
        tri[1].1 == origin.1 + 60,
        tri[2].0 == origin.0,
        tri[2].1 == origin.1 + 140,
{
    let tri = [(origin.0, origin.1), (origin.0 + 60, origin.1 + 60), (origin.0, origin.1 + 140)];
    assert(tri@ =~= triangle_spec(*origin));
    tri
}

/// The triangle moves with its origin: every corner keeps its offset from
/// the origin, wherever the origin stands.
pub proof fn lemma_triangle_moves(o: Point2D, m: Point2D)
    requires
        fits_i32(o.0 + 60),
        fits_i32(o.1 + 140),
        fits_i32(m.0 + 60),
        fits_i32(m.1 + 140),
    ensures
        forall|k: int|
            0 <= k < 3 ==> (#[trigger] triangle_spec(m)[k]).0 - m.0 == triangle_spec(o)[k].0 - o.0
                && triangle_spec(m)[k].1 - m.1 == triangle_spec(o)[k].1 - o.1,
{
}

/// The centre of a window of the given size.
pub fn window_center(width: u32, height: u32) -> (c: Point2D)
    ensures
        c.0 == width / 2,
        c.1 == height / 2,
{
    ((width / 2) as i32, (height / 2) as i32)
}

/// The selection: `size` away from `center` on each side, lower left corner first.
pub fn selection_rect(center: &Point2D, size: &(i32, i32)) -> (rect: (Point2D, Point2D))
    requires
        fits_i32(center.0 - size.0),
        fits_i32(center.1 - size.1),
        fits_i32(center.0 + size.0),
        fits_i32(center.1 + size.1),
    ensures
        rect == (((center.0 - size.0) as i32, (center.1 - size.1) as i32), (
            (center.0 + size.0) as i32,
            (center.1 + size.1) as i32,
        )),
        size.0 >= 0 && size.1 >= 0 ==> rect_ok(rect),
{
    (
        (center.0 - size.0, center.1 - size.1),
        (center.0 + size.0, center.1 + size.1),
    )
}

/// Change selection square size: scrolling down shrinks it by 4 while both
/// half-sides exceed 10; anything else grows it by 4.
pub fn resize_selection(size: &(i32, i32), scroll_down: bool) -> (r: (i32, i32))
    requires
        fits_i32(size.0 + 4),
        fits_i32(size.1 + 4),
    ensures
        r == (if scroll_down && size.0 > 10 && size.1 > 10 {
            ((size.0 - 4) as i32, (size.1 - 4) as i32)
        } else {
            ((size.0 + 4) as i32, (size.1 + 4) as i32)
        }),
        size.0 > 6 && size.1 > 6 ==> r.0 > 6 && r.1 > 6,
{
    if scroll_down && size.0 > 10 && size.1 > 10 {
        (size.0 - 4, size.1 - 4)
    } else {
        (size.0 + 4, size.1 + 4)
    }
}

} // verus!
