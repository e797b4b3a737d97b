//! Scaling of polygons about their first point.
use vstd::prelude::*;
use crate::canvas::Point2D;
use crate::line::fits_i32;

verus! {

/// `p` scaled by `(sfx, sfy)` about `o`.
pub open spec fn scale_point(o: Point2D, p: Point2D, sfx: int, sfy: int) -> Point2D {
    ((o.0 + (p.0 - o.0) * sfx) as i32, (o.1 + (p.1 - o.1) * sfy) as i32)
}

/// Every point of `poly` scaled by `(sfx, sfy)` about the first one.
pub open spec fn scaled(poly: Seq<Point2D>, sfx: int, sfy: int) -> Seq<Point2D> {
    Seq::new(poly.len(), |i: int| scale_point(poly[0], poly[i], sfx, sfy))
}

/// Scaling `p` about `o` computes only values of `i32`.
pub open spec fn scale_point_fits(o: Point2D, p: Point2D, sfx: int, sfy: int) -> bool {
    &&& fits_i32(p.0 - o.0)
    &&& fits_i32((p.0 - o.0) * sfx)
    &&& fits_i32(o.0 + (p.0 - o.0) * sfx)
    &&& fits_i32(p.1 - o.1)
    &&& fits_i32((p.1 - o.1) * sfy)
    &&& fits_i32(o.1 + (p.1 - o.1) * sfy)
}

/// Scaling `poly` computes only values of `i32`.
pub open spec fn scale_fits(poly: Seq<Point2D>, sfx: int, sfy: int) -> bool {
    forall|i: int| 0 <= i < poly.len() ==> #[trigger] scale_point_fits(poly[0], poly[i], sfx, sfy)
}

/// Change the scale of a polygon
pub fn scale_polygon(poly: &mut [Point2D], sfx: i32, sfy: i32)
    requires
        scale_fits(old(poly)@, sfx as int, sfy as int),
    ensures
        final(poly)@ == scaled(old(poly)@, sfx as int, sfy as int),
{
    let ghost start = poly@;
    let len: usize = poly.len();
    for i in 0..len
        invariant
            len == poly@.len(),
            start.len() == len,
            scale_fits(start, sfx as int, sfy as int),
            len > 0 ==> poly@[0] == start[0],
            forall|j: int| 0 <= j < i ==> #[trigger] poly@[j] == scale_point(start[0], start[j], sfx as int, sfy as int),
            forall|j: int| i <= j < len ==> #[trigger] poly@[j] == start[j],
    {
        proof {
            assert(scale_point_fits(start[0], start[i as int], sfx as int, sfy as int));
        }
        let o = poly[0];
        let p = poly[i];
        poly[i] = (o.0 + (p.0 - o.0) * sfx, o.1 + (p.1 - o.1) * sfy);
        proof {
            if i == 0 {
                assert((p.0 - o.0) * sfx == 0) by (nonlinear_arith)
                    requires
                        p.0 == o.0,
                ;
                assert((p.1 - o.1) * sfy == 0) by (nonlinear_arith)
                    requires
                        p.1 == o.1,
                ;
            }
        }
    }
    proof {
        assert(poly@ =~= scaled(start, sfx as int, sfy as int));
    }
}

/// Scaling keeps the first point where it is.
pub proof fn lemma_scale_fixes_first(poly: Seq<Point2D>, sfx: int, sfy: int)
    requires
        poly.len() >= 1,
    ensures
        scaled(poly, sfx, sfy)[0] == poly[0],
{
    assert((poly[0].0 - poly[0].0) * sfx == 0) by (nonlinear_arith);
    assert((poly[0].1 - poly[0].1) * sfy == 0) by (nonlinear_arith);
}

/// Scaling by one leaves a polygon as it is.
pub proof fn lemma_scale_identity(poly: Seq<Point2D>)
    ensures
        scaled(poly, 1, 1) == poly,
{
    assert(scaled(poly, 1, 1) =~= poly);
}

/// Scaling twice is scaling once by the products of the factors.
pub proof fn lemma_scale_compose(poly: Seq<Point2D>, a: int, b: int, c: int, d: int)
    requires
        poly.len() >= 1,
        scale_fits(poly, a, b),
    ensures
        scaled(scaled(poly, a, b), c, d) == scaled(poly, a * c, b * d),
{
    lemma_scale_fixes_first(poly, a, b);
    let s = scaled(poly, a, b);
    let o = poly[0];
    assert forall|i: int| 0 <= i < poly.len() implies #[trigger] scaled(s, c, d)[i] == scaled(
        poly,
        a * c,
        b * d,
    )[i] by {
        assert(scale_point_fits(o, poly[i], a, b));
        assert(((poly[i].0 - o.0) * a) * c == (poly[i].0 - o.0) * (a * c)) by (nonlinear_arith);
        assert(((poly[i].1 - o.1) * b) * d == (poly[i].1 - o.1) * (b * d)) by (nonlinear_arith);
    }
    assert(scaled(s, c, d) =~= scaled(poly, a * c, b * d));
}

} // verus!
