//! Cohen–Sutherland clipping of a line against an axis-aligned rectangle.
//!
//! A rectangle is a pair of corners: the first has the smallest
//! coordinates ("lower left"), the second the largest ("higher right").
use vstd::prelude::*;
use crate::canvas::Point2D;
use crate::line::{fits_i32, iabs};

verus! {

/// Cohen–Sutherland's outcodes for directions
pub const INSIDE: u8 = 0b0000;

pub const LEFT: u8 = 0b0001;

pub const RIGHT: u8 = 0b0010;

pub const BOTTOM: u8 = 0b0100;

pub const TOP: u8 = 0b1000;

/// The rectangle's first corner is its lower left one and its second the
/// higher right one.
pub open spec fn rect_ok(rect: (Point2D, Point2D)) -> bool {
    rect.0.0 <= rect.1.0 && rect.0.1 <= rect.1.1
}

/// `p` lies in the rectangle, borders included.
pub open spec fn in_rect(p: Point2D, rect: (Point2D, Point2D)) -> bool {
    &&& rect.0.0 <= p.0 <= rect.1.0
    &&& rect.0.1 <= p.1 <= rect.1.1
}

/// The horizontal part of `p`'s outcode: `LEFT`, `RIGHT` or `INSIDE`.
pub open spec fn hcode(p: Point2D, rect: (Point2D, Point2D)) -> u8 {
    if p.0 < rect.0.0 {
        LEFT
    } else if p.0 > rect.1.0 {
        RIGHT
    } else {
        INSIDE
    }
}

/// The vertical part of `p`'s outcode: `BOTTOM`, `TOP` or `INSIDE`.
pub open spec fn vcode(p: Point2D, rect: (Point2D, Point2D)) -> u8 {
    if p.1 < rect.0.1 {
        BOTTOM
    } else if p.1 > rect.1.1 {
        TOP
    } else {
        INSIDE
    }
}

/// The outcode of `p`: the sides of the rectangle that `p` lies beyond.
pub open spec fn outcode(p: Point2D, rect: (Point2D, Point2D)) -> u8 {
    (hcode(p, rect) + vcode(p, rect)) as u8
}

/// `a / b` rounded towards zero, as Rust's integer division computes it.
pub open spec fn quot(a: int, b: int) -> int {
    let q = iabs(a) / iabs(b);
    if (a < 0) == (b < 0) {
        q
    } else {
        -q
    }
}

/// The `v` coordinate where the line through `(u0, v0)` and `(u1, v1)`
/// crosses `u == e`, as the clipping code computes it.
pub open spec fn intercept(u0: int, v0: int, u1: int, v1: int, e: int) -> int {
    v0 + quot((v1 - v0) * (e - u0), u1 - u0)
}

/// Every value computed for `intercept(u0, v0, u1, v1, e)` fits in `i32`.
pub open spec fn intercept_fits(u0: int, v0: int, u1: int, v1: int, e: int) -> bool {
    &&& fits_i32(v1 - v0)
    &&& fits_i32(e - u0)
    &&& fits_i32((v1 - v0) * (e - u0))
    &&& fits_i32(u1 - u0)
    &&& fits_i32(quot((v1 - v0) * (e - u0), u1 - u0))
    &&& fits_i32(intercept(u0, v0, u1, v1, e))
}

/// The point where the line `cl` meets the side named by the first of
/// `TOP`, `BOTTOM`, `RIGHT`, `LEFT` that `code` holds.
pub open spec fn boundary_point(cl: (Point2D, Point2D), rect: (Point2D, Point2D), code: u8) -> (int, int) {
    let (x0, y0, x1, y1) = (cl.0.0 as int, cl.0.1 as int, cl.1.0 as int, cl.1.1 as int);
    if code & TOP != 0 {
        (intercept(y0, x0, y1, x1, rect.1.1 as int), rect.1.1 as int)
    } else if code & BOTTOM != 0 {
        (intercept(y0, x0, y1, x1, rect.0.1 as int), rect.0.1 as int)
    } else if code & RIGHT != 0 {
        (rect.1.0 as int, intercept(x0, y0, x1, y1, rect.1.0 as int))
    } else if code & LEFT != 0 {
        (rect.0.0 as int, intercept(x0, y0, x1, y1, rect.0.0 as int))
    } else {
        (0, 0)
    }
}

/// Every value computed for `boundary_point(cl, rect, code)` fits in `i32`.
pub open spec fn boundary_fits(cl: (Point2D, Point2D), rect: (Point2D, Point2D), code: u8) -> bool {
    let (x0, y0, x1, y1) = (cl.0.0 as int, cl.0.1 as int, cl.1.0 as int, cl.1.1 as int);
    if code & TOP != 0 {
        intercept_fits(y0, x0, y1, x1, rect.1.1 as int)
    } else if code & BOTTOM != 0 {
        intercept_fits(y0, x0, y1, x1, rect.0.1 as int)
    } else if code & RIGHT != 0 {
        intercept_fits(x0, y0, x1, y1, rect.1.0 as int)
    } else if code & LEFT != 0 {
        intercept_fits(x0, y0, x1, y1, rect.0.0 as int)
    } else {
        true
    }
}

/// The larger of the two endpoints' outcodes: the endpoint to move next.
pub open spec fn outside_code(cl: (Point2D, Point2D), rect: (Point2D, Point2D)) -> u8 {
    let c0 = outcode(cl.0, rect);
    let c1 = outcode(cl.1, rect);
    if c1 > c0 {
        c1
    } else {
        c0
    }
}

/// The line needs no more clipping: it lies inside, or both endpoints lie
/// beyond one same side.
pub open spec fn clip_settled(cl: (Point2D, Point2D), rect: (Point2D, Point2D)) -> bool {
    let c0 = outcode(cl.0, rect);
    let c1 = outcode(cl.1, rect);
    (c0 | c1) == 0 || (c0 & c1) != 0
}

/// One pass of the clipping loop: the endpoint with the larger outcode
/// moves to where the line meets the side its outcode names first.
pub open spec fn clip_step(cl: (Point2D, Point2D), rect: (Point2D, Point2D)) -> (Point2D, Point2D) {
    let code = outside_code(cl, rect);
    let b = boundary_point(cl, rect, code);
    let p = (b.0 as i32, b.1 as i32);
    if code == outcode(cl.0, rect) {
        (p, cl.1)
    } else {
        (cl.0, p)
    }
}

/// The line after at most `fuel` passes, stopping once settled.
pub open spec fn clip_iter(cl: (Point2D, Point2D), rect: (Point2D, Point2D), fuel: nat) -> (
    Point2D,
    Point2D,
)
    decreases fuel,
{
    if fuel == 0 || clip_settled(cl, rect) {
        cl
    } else {
        clip_iter(clip_step(cl, rect), rect, (fuel - 1) as nat)
    }
}

/// Every value computed in those passes fits in `i32`.
pub open spec fn clip_fits(cl: (Point2D, Point2D), rect: (Point2D, Point2D), fuel: nat) -> bool
    decreases fuel,
{
    fuel == 0 || clip_settled(cl, rect) || (boundary_fits(cl, rect, outside_code(cl, rect))
        && clip_fits(clip_step(cl, rect), rect, (fuel - 1) as nat))
}

/// What `get_clipped_line(line, rect)` returns: the line after the clipping
/// passes (four always suffice) if it ends up inside the rectangle.
pub open spec fn clipped_line(line: (Point2D, Point2D), rect: (Point2D, Point2D)) -> Option<
    (Point2D, Point2D),
> {
    let f = clip_iter(line, rect, 4);
    if (outcode(f.0, rect) | outcode(f.1, rect)) == 0 {
        Some(f)
    } else {
        None
    }
}

/// The passes an endpoint can still need: two if it lies above or below
/// the rectangle, one if only beside it, none if inside.
pub open spec fn weight(p: Point2D, rect: (Point2D, Point2D)) -> nat {
    if vcode(p, rect) != INSIDE {
        2
    } else if hcode(p, rect) != INSIDE {
        1
    } else {
        0
    }
}

pub open spec fn clip_measure(cl: (Point2D, Point2D), rect: (Point2D, Point2D)) -> nat {
    weight(cl.0, rect) + weight(cl.1, rect)
}

/// How the bits of outcodes combine.
proof fn lemma_code_bits(h0: u8, v0: u8, h1: u8, v1: u8)
    requires
        h0 == 0 || h0 == 1 || h0 == 2,
        v0 == 0 || v0 == 4 || v0 == 8,
        h1 == 0 || h1 == 1 || h1 == 2,
        v1 == 0 || v1 == 4 || v1 == 8,
    ensures
        (((h0 + v0) as u8) & 8 != 0) == (v0 == 8),
        (((h0 + v0) as u8) & 4 != 0) == (v0 == 4),
        (((h0 + v0) as u8) & 2 != 0) == (h0 == 2),
        (((h0 + v0) as u8) & 1 != 0) == (h0 == 1),
        ((((h0 + v0) as u8) | ((h1 + v1) as u8)) == 0) == (h0 == 0 && v0 == 0 && h1 == 0 && v1
            == 0),
        ((((h0 + v0) as u8) & ((h1 + v1) as u8)) != 0) == ((h0 != 0 && h0 == h1) || (v0 != 0
            && v0 == v1)),
{
    assert((((h0 + v0) as u8) & 8 != 0) == (v0 == 8)) by (bit_vector)
        requires
            h0 == 0 || h0 == 1 || h0 == 2,
            v0 == 0 || v0 == 4 || v0 == 8,
    ;
    assert((((h0 + v0) as u8) & 4 != 0) == (v0 == 4)) by (bit_vector)
        requires
            h0 == 0 || h0 == 1 || h0 == 2,
            v0 == 0 || v0 == 4 || v0 == 8,
    ;
    assert((((h0 + v0) as u8) & 2 != 0) == (h0 == 2)) by (bit_vector)
        requires
            h0 == 0 || h0 == 1 || h0 == 2,
            v0 == 0 || v0 == 4 || v0 == 8,
    ;
    assert((((h0 + v0) as u8) & 1 != 0) == (h0 == 1)) by (bit_vector)
        requires
            h0 == 0 || h0 == 1 || h0 == 2,
            v0 == 0 || v0 == 4 || v0 == 8,
    ;
    assert(((((h0 + v0) as u8) | ((h1 + v1) as u8)) == 0) == (h0 == 0 && v0 == 0 && h1 == 0
        && v1 == 0)) by (bit_vector)
        requires
            h0 == 0 || h0 == 1 || h0 == 2,
            v0 == 0 || v0 == 4 || v0 == 8,
            h1 == 0 || h1 == 1 || h1 == 2,
            v1 == 0 || v1 == 4 || v1 == 8,
    ;
    assert(((((h0 + v0) as u8) & ((h1 + v1) as u8)) != 0) == ((h0 != 0 && h0 == h1) || (v0
        != 0 && v0 == v1))) by (bit_vector)
        requires
            h0 == 0 || h0 == 1 || h0 == 2,
            v0 == 0 || v0 == 4 || v0 == 8,
            h1 == 0 || h1 == 1 || h1 == 2,
            v1 == 0 || v1 == 4 || v1 == 8,
    ;
}

/// The outcode bits of two points, spelled out.
pub proof fn lemma_outcodes(p: Point2D, q: Point2D, rect: (Point2D, Point2D))
    ensures
        (outcode(p, rect) & TOP != 0) == (vcode(p, rect) == TOP),
        (outcode(p, rect) & BOTTOM != 0) == (vcode(p, rect) == BOTTOM),
        (outcode(p, rect) & RIGHT != 0) == (hcode(p, rect) == RIGHT),
        (outcode(p, rect) & LEFT != 0) == (hcode(p, rect) == LEFT),
        ((outcode(p, rect) | outcode(q, rect)) == 0) == (outcode(p, rect) == 0 && outcode(q, rect)
            == 0),
        (outcode(p, rect) == 0) == (hcode(p, rect) == INSIDE && vcode(p, rect) == INSIDE),
        ((outcode(p, rect) & outcode(q, rect)) != 0) == ((hcode(p, rect) != INSIDE && hcode(p, rect)
            == hcode(q, rect)) || (vcode(p, rect) != INSIDE && vcode(p, rect) == vcode(q, rect))),
{
    lemma_code_bits(hcode(p, rect), vcode(p, rect), hcode(q, rect), vcode(q, rect));
    lemma_code_bits(hcode(p, rect), vcode(p, rect), 0, 0);
}

/// A point has outcode zero exactly when it lies in the rectangle.
pub proof fn lemma_outcode_inside(p: Point2D, rect: (Point2D, Point2D))
    ensures
        (outcode(p, rect) == INSIDE) == in_rect(p, rect),
{
    lemma_outcodes(p, p, rect);
}

/// `a * b / d` stays within `[0, a]` when `0 <= b <= d`.
proof fn lemma_scaled_div(a: int, b: int, d: int)
    requires
        0 <= a,
        0 <= b <= d,
        0 < d,
    ensures
        0 <= (a * b) / d <= a,
{
    assert(0 <= a * b <= a * d) by (nonlinear_arith)
        requires
            0 <= a,
            0 <= b <= d,
    ;
    vstd::arithmetic::div_mod::lemma_div_is_ordered(a * b, a * d, d);
    vstd::arithmetic::div_mod::lemma_div_is_ordered(0, a * b, d);
    vstd::arithmetic::div_mod::lemma_div_multiples_vanish(a, d);
    assert(a * d == d * a) by (nonlinear_arith);
}

/// Where the line meets a bound that lies between its ends, the other
/// coordinate lies between the ends too.
pub proof fn lemma_intercept_between(u0: int, v0: int, u1: int, v1: int, e: int)
    requires
        u0 != u1,
        (u0 <= e <= u1) || (u1 <= e <= u0),
    ensures
        (v0 <= v1 ==> v0 <= intercept(u0, v0, u1, v1, e) <= v1),
        (v1 <= v0 ==> v1 <= intercept(u0, v0, u1, v1, e) <= v0),
{
    let d = u1 - u0;
    let t = e - u0;
    let w = v1 - v0;
    let n = w * t;
    if d > 0 {
        if w >= 0 {
            assert(n >= 0) by (nonlinear_arith)
                requires
                    n == w * t,
                    w >= 0,
                    t >= 0,
            ;
            lemma_scaled_div(w, t, d);
        } else {
            assert(n <= 0 && -n == (-w) * t) by (nonlinear_arith)
                requires
                    n == w * t,
                    w < 0,
                    t >= 0,
            ;
            lemma_scaled_div(-w, t, d);
        }
    } else {
        if w >= 0 {
            assert(n <= 0 && -n == w * (-t)) by (nonlinear_arith)
                requires
                    n == w * t,
                    w >= 0,
                    t <= 0,
            ;
            lemma_scaled_div(w, -t, -d);
        } else {
            assert(n >= 0 && n == (-w) * (-t)) by (nonlinear_arith)
                requires
                    n == w * t,
                    w < 0,
                    t <= 0,
            ;
            lemma_scaled_div(-w, -t, -d);
        }
    }
}

/// Each pass of the clipping loop brings the line closer to settling, and
/// the side it clips against is never parallel to the line.
pub proof fn lemma_clip_progress(cl: (Point2D, Point2D), rect: (Point2D, Point2D))
    requires
        rect_ok(rect),
        !clip_settled(cl, rect),
        boundary_fits(cl, rect, outside_code(cl, rect)),
    ensures
        clip_measure(clip_step(cl, rect), rect) < clip_measure(cl, rect),
        ({
            let code = outside_code(cl, rect);
            &&& (code & TOP != 0 || code & BOTTOM != 0) ==> cl.1.1 != cl.0.1
            &&& (code & TOP == 0 && code & BOTTOM == 0) ==> (code & RIGHT != 0 || code & LEFT
                != 0) && cl.1.0 != cl.0.0
        }),
{
    let c0 = outcode(cl.0, rect);
    let c1 = outcode(cl.1, rect);
    let code = outside_code(cl, rect);
    lemma_outcodes(cl.0, cl.1, rect);
    lemma_outcodes(cl.1, cl.0, rect);
    let first = code == c0;
    let p = if first {
        cl.0
    } else {
        cl.1
    };
    let q = if first {
        cl.1
    } else {
        cl.0
    };
    assert(outcode(q, rect) < outcode(p, rect));
    let b = boundary_point(cl, rect, code);
    let np: Point2D = (b.0 as i32, b.1 as i32);
    let (x0, y0, x1, y1) = (cl.0.0 as int, cl.0.1 as int, cl.1.0 as int, cl.1.1 as int);
    if vcode(p, rect) == TOP {
        assert(vcode(np, rect) == INSIDE);
    } else if vcode(p, rect) == BOTTOM {
        assert(vcode(np, rect) == INSIDE);
    } else if hcode(p, rect) == RIGHT {
        assert(vcode(q, rect) == INSIDE);
        lemma_intercept_between(x0, y0, x1, y1, rect.1.0 as int);
        assert(hcode(np, rect) == INSIDE);
        assert(vcode(np, rect) == INSIDE);
    } else {
        assert(hcode(p, rect) == LEFT);
        assert(outcode(q, rect) == INSIDE);
        lemma_intercept_between(x0, y0, x1, y1, rect.0.0 as int);
        assert(hcode(np, rect) == INSIDE);
        assert(vcode(np, rect) == INSIDE);
    }
}

// Get outcode of the given point relative to a rectangle
// (lower left corner first, higher right corner second)
pub fn get_outcode(point: &Point2D, rect: &(Point2D, Point2D)) -> (r: u8)
    ensures
        r == outcode(*point, *rect),
{
    let mut result: u8 = INSIDE;
    let ghost h: u8 = hcode(*point, *rect);

    // To the left or right of rect
    if point.0 < rect.0.0 {
        result |= LEFT;
    } else if point.0 > rect.1.0 {
        result |= RIGHT;
    }
    assert(result == h) by {
        assert(0u8 | 1u8 == 1u8) by (bit_vector);
        assert(0u8 | 2u8 == 2u8) by (bit_vector);
    }

    // Below or above rect
    if point.1 < rect.0.1 {
        assert(h | 4u8 == h + 4u8) by (bit_vector)
            requires
                h == 0 || h == 1 || h == 2,
        ;
        result |= BOTTOM;
    } else if point.1 > rect.1.1 {
        assert(h | 8u8 == h + 8u8) by (bit_vector)
            requires
                h == 0 || h == 1 || h == 2,
        ;
        result |= TOP;
    }

    result
}

/// Rust's integer division of `n` by `d`, rounded towards zero.
fn div_toward_zero(n: i32, d: i32) -> (q: i32)
    requires
        d != 0,
        fits_i32(quot(n as int, d as int)),
    ensures
        q == quot(n as int, d as int),
{
    let an: i64 = if n < 0 {
        -(n as i64)
    } else {
        n as i64
    };
    let ad: i64 = if d < 0 {
        -(d as i64)
    } else {
        d as i64
    };
    let q: i64 = an / ad;
    if (n < 0) == (d < 0) {
        q as i32
    } else {
        (-q) as i32
    }
}

/// `v0 + (v1 - v0) * (e - u0) / (u1 - u0)`
fn get_intercept(u0: i32, v0: i32, u1: i32, v1: i32, e: i32) -> (r: i32)
    requires
        u1 != u0,
        intercept_fits(u0 as int, v0 as int, u1 as int, v1 as int, e as int),
    ensures
        r == intercept(u0 as int, v0 as int, u1 as int, v1 as int, e as int),
{
    let n: i32 = (v1 - v0) * (e - u0);
    v0 + div_toward_zero(n, u1 - u0)
}

/// Cohen–Sutherland clipping algorithm
/// Returns the clipped segment of a line
/// * `rect` - the rectangle as its lower left corner (smallest coordinates)
///   and its higher right corner (largest coordinates), in that order
pub fn get_clipped_line(line: &(Point2D, Point2D), rect: &(Point2D, Point2D)) -> (r: Option<
    (Point2D, Point2D),
>)
    requires
        rect_ok(*rect),
        clip_fits(*line, *rect, 4),
    ensures
        r == clipped_line(*line, *rect),
{
    let mut cline: (Point2D, Point2D) = *line;
    let mut outcode0: u8 = get_outcode(&cline.0, rect);
    let mut outcode1: u8 = get_outcode(&cline.1, rect);
    let mut accept: bool = false;
    let ghost mut fuel: nat = 4;

    loop
        invariant_except_break
            rect_ok(*rect),
            outcode0 == outcode(cline.0, *rect),
            outcode1 == outcode(cline.1, *rect),
            clip_iter(*line, *rect, 4) == clip_iter(cline, *rect, fuel),
            clip_fits(cline, *rect, fuel),
            clip_measure(cline, *rect) <= fuel,
            !accept,
        ensures
            cline == clip_iter(*line, *rect, 4),
            accept == ((outcode(cline.0, *rect) | outcode(cline.1, *rect)) == 0),
        decreases fuel,
    {
        proof {
            lemma_outcodes(cline.0, cline.1, *rect);
            lemma_outcodes(cline.1, cline.0, *rect);
        }
        if (outcode0 | outcode1) == 0 {
            // Both points are inside of the rectangle
            accept = true;
            break;
        } else if (outcode0 & outcode1) != 0 {
            // Both points are outside of the rectangle
            break;
        } else {
            // At least one endpoint is outside the rectangle
            let ghost before = cline;
            proof {
                lemma_clip_progress(cline, *rect);
            }
            let mut point: Point2D = (0, 0);

            // Get the outside endpoint
            let outoutcode = if outcode1 > outcode0 {
                outcode1
            } else {
                outcode0
            };

            // Find intersection point
            if (outoutcode & TOP) != 0 {
                // Point is above the rectangle
                point.0 = get_intercept(cline.0.1, cline.0.0, cline.1.1, cline.1.0, rect.1.1);
                point.1 = rect.1.1;
            } else if (outoutcode & BOTTOM) != 0 {
                // Point is below the rectangle
                point.0 = get_intercept(cline.0.1, cline.0.0, cline.1.1, cline.1.0, rect.0.1);
                point.1 = rect.0.1;
            } else if (outoutcode & RIGHT) != 0 {
                // Point is right of the rectangle
                point.1 = get_intercept(cline.0.0, cline.0.1, cline.1.0, cline.1.1, rect.1.0);
                point.0 = rect.1.0;
            } else if (outoutcode & LEFT) != 0 {
                // Point is left of the rectangle
                point.1 = get_intercept(cline.0.0, cline.0.1, cline.1.0, cline.1.1, rect.0.0);
                point.0 = rect.0.0;
            }

            // Move outside point to intersection and start next pass
            if outoutcode == outcode0 {
                cline.0 = point;
                outcode0 = get_outcode(&cline.0, rect);
            } else {
                cline.1 = point;
                outcode1 = get_outcode(&cline.1, rect);
            }
            proof {
                assert(cline == clip_step(before, *rect));
                fuel = (fuel - 1) as nat;
            }
        }
    }

    // Return the segment inside the window
    // if such a segment exists
    if accept {
        return Some(cline);
    } else {
        return None;
    }
}

/// Passes bounded by the measure leave a settled line.
proof fn lemma_clip_iter_settles(cl: (Point2D, Point2D), rect: (Point2D, Point2D), fuel: nat)
    requires
        rect_ok(rect),
        clip_fits(cl, rect, fuel),
        clip_measure(cl, rect) <= fuel,
    ensures
        clip_settled(clip_iter(cl, rect, fuel), rect),
    decreases fuel,
{
    lemma_outcodes(cl.0, cl.1, rect);
    lemma_outcodes(cl.1, cl.0, rect);
    if !clip_settled(cl, rect) {
        lemma_clip_progress(cl, rect);
        lemma_clip_iter_settles(clip_step(cl, rect), rect, (fuel - 1) as nat);
    }
}

/// Four passes always settle the line: each endpoint needs at most two.
pub proof fn lemma_clip_within_four_passes(line: (Point2D, Point2D), rect: (Point2D, Point2D))
    requires
        rect_ok(rect),
        clip_fits(line, rect, 4),
    ensures
        clip_settled(clip_iter(line, rect, 4), rect),
{
    lemma_clip_iter_settles(line, rect, 4);
}

/// A clipped line lies inside the rectangle.
pub proof fn lemma_clipped_inside(line: (Point2D, Point2D), rect: (Point2D, Point2D))
    ensures
        clipped_line(line, rect) matches Some(s) ==> in_rect(s.0, rect) && in_rect(s.1, rect),
{
    let f = clip_iter(line, rect, 4);
    lemma_outcodes(f.0, f.1, rect);
    lemma_outcode_inside(f.0, rect);
    lemma_outcode_inside(f.1, rect);
}

/// A line inside the rectangle comes back whole.
pub proof fn lemma_clip_keeps_inside(line: (Point2D, Point2D), rect: (Point2D, Point2D))
    requires
        in_rect(line.0, rect),
        in_rect(line.1, rect),
    ensures
        clipped_line(line, rect) == Some(line),
{
    lemma_outcode_inside(line.0, rect);
    lemma_outcode_inside(line.1, rect);
    lemma_outcodes(line.0, line.1, rect);
}

/// A line whose ends both lie beyond one same side is rejected.
pub proof fn lemma_clip_rejects_one_side(line: (Point2D, Point2D), rect: (Point2D, Point2D))
    requires
        (outcode(line.0, rect) & outcode(line.1, rect)) != 0,
    ensures
        clipped_line(line, rect) is None,
{
    lemma_outcodes(line.0, line.1, rect);
}

/// `v` lies between `a` and `b`, in either order.
pub open spec fn between(v: int, a: int, b: int) -> bool {
    (a <= v <= b) || (b <= v <= a)
}

/// `p` lies in the bounding box of the segment `line`.
pub open spec fn in_line_box(p: Point2D, line: (Point2D, Point2D)) -> bool {
    &&& between(p.0 as int, line.0.0 as int, line.1.0 as int)
    &&& between(p.1 as int, line.0.1 as int, line.1.1 as int)
}

/// One pass of the clipping loop keeps both ends within the bounding box of
/// the line before the pass: the moved end lands on a side that lies
/// between the two ends, where the line crosses it.
proof fn lemma_clip_step_within(cl: (Point2D, Point2D), rect: (Point2D, Point2D))
    requires
        rect_ok(rect),
        !clip_settled(cl, rect),
        boundary_fits(cl, rect, outside_code(cl, rect)),
    ensures
        in_line_box(clip_step(cl, rect).0, cl),
        in_line_box(clip_step(cl, rect).1, cl),
{
    let c0 = outcode(cl.0, rect);
    let c1 = outcode(cl.1, rect);
    let code = outside_code(cl, rect);
    lemma_outcodes(cl.0, cl.1, rect);
    lemma_outcodes(cl.1, cl.0, rect);
    lemma_clip_progress(cl, rect);
    let first = code == c0;
    let p = if first {
        cl.0
    } else {
        cl.1
    };
    let q = if first {
        cl.1
    } else {
        cl.0
    };
    assert(outcode(q, rect) < outcode(p, rect));
    let (x0, y0, x1, y1) = (cl.0.0 as int, cl.0.1 as int, cl.1.0 as int, cl.1.1 as int);
    if vcode(p, rect) == TOP {
        lemma_intercept_between(y0, x0, y1, x1, rect.1.1 as int);
    } else if vcode(p, rect) == BOTTOM {
        lemma_intercept_between(y0, x0, y1, x1, rect.0.1 as int);
    } else if hcode(p, rect) == RIGHT {
        lemma_intercept_between(x0, y0, x1, y1, rect.1.0 as int);
    } else {
        assert(hcode(p, rect) == LEFT);
        lemma_intercept_between(x0, y0, x1, y1, rect.0.0 as int);
    }
}

/// Passes of the clipping loop keep both ends within the bounding box of
/// `line` when they start there.
proof fn lemma_clip_iter_within(
    cl: (Point2D, Point2D),
    rect: (Point2D, Point2D),
    fuel: nat,
    line: (Point2D, Point2D),
)
    requires
        rect_ok(rect),
        clip_fits(cl, rect, fuel),
        in_line_box(cl.0, line),
        in_line_box(cl.1, line),
    ensures
        in_line_box(clip_iter(cl, rect, fuel).0, line),
        in_line_box(clip_iter(cl, rect, fuel).1, line),
    decreases fuel,
{
    if fuel > 0 && !clip_settled(cl, rect) {
        lemma_clip_step_within(cl, rect);
        lemma_clip_iter_within(clip_step(cl, rect), rect, (fuel - 1) as nat, line);
    }
}

/// Clipping only shortens a line: the clipped segment lies within the
/// bounding box of the line it was cut from.
pub proof fn lemma_clipped_within_line(line: (Point2D, Point2D), rect: (Point2D, Point2D))
    requires
        rect_ok(rect),
        clip_fits(line, rect, 4),
    ensures
        clipped_line(line, rect) matches Some(s) ==> in_line_box(s.0, line) && in_line_box(
            s.1,
            line,
        ),
{
    lemma_clip_iter_within(line, rect, 4, line);
}

/// Coordinates within `2^14` of the origin.
pub open spec fn clip_small(p: Point2D) -> bool {
    -0x4000 <= p.0 <= 0x4000 && -0x4000 <= p.1 <= 0x4000
}

/// An intercept across a bound between the ends of a short line stays
/// between its ends, and computes only values of `i32`.
proof fn lemma_small_intercept(u0: int, v0: int, u1: int, v1: int, e: int)
    requires
        u0 != u1,
        (u0 <= e <= u1) || (u1 <= e <= u0),
        -0x4000 <= u0 <= 0x4000,
        -0x4000 <= u1 <= 0x4000,
        -0x4000 <= v0 <= 0x4000,
        -0x4000 <= v1 <= 0x4000,
    ensures
        intercept_fits(u0, v0, u1, v1, e),
        -0x4000 <= intercept(u0, v0, u1, v1, e) <= 0x4000,
{
    lemma_intercept_between(u0, v0, u1, v1, e);
    assert(-0x4000_0000 <= (v1 - v0) * (e - u0) <= 0x4000_0000) by (nonlinear_arith)
        requires
            -0x8000 <= v1 - v0 <= 0x8000,
            -0x8000 <= e - u0 <= 0x8000,
    ;
}

/// Lines and rectangles near the origin are clipped computing only values
/// of `i32`.
pub proof fn lemma_small_clip_fits(cl: (Point2D, Point2D), rect: (Point2D, Point2D), fuel: nat)
    requires
        rect_ok(rect),
        clip_small(cl.0),
        clip_small(cl.1),
        clip_small(rect.0),
        clip_small(rect.1),
    ensures
        clip_fits(cl, rect, fuel),
    decreases fuel,
{
    if fuel > 0 && !clip_settled(cl, rect) {
        let c0 = outcode(cl.0, rect);
        let c1 = outcode(cl.1, rect);
        let code = outside_code(cl, rect);
        lemma_outcodes(cl.0, cl.1, rect);
        lemma_outcodes(cl.1, cl.0, rect);
        let first = code == c0;
        let p = if first {
            cl.0
        } else {
            cl.1
        };
        let q = if first {
            cl.1
        } else {
            cl.0
        };
        assert(outcode(q, rect) < outcode(p, rect));
        let (x0, y0, x1, y1) = (cl.0.0 as int, cl.0.1 as int, cl.1.0 as int, cl.1.1 as int);
        if vcode(p, rect) == TOP {
            lemma_small_intercept(y0, x0, y1, x1, rect.1.1 as int);
        } else if vcode(p, rect) == BOTTOM {
            lemma_small_intercept(y0, x0, y1, x1, rect.0.1 as int);
        } else if hcode(p, rect) == RIGHT {
            lemma_small_intercept(x0, y0, x1, y1, rect.1.0 as int);
        } else {
            lemma_small_intercept(x0, y0, x1, y1, rect.0.0 as int);
        }
        lemma_small_clip_fits(clip_step(cl, rect), rect, (fuel - 1) as nat);
    }
}

} // verus!
