//! Bresenham lines and the shapes built from them.
use vstd::prelude::*;
use crate::canvas::{
    color_value, draw_pixel, lemma_paint_empty, lemma_paint_union, paint, pixels_fit,
    ColorRGB, Point2D, Size,
};

verus! {

/// `v` is a value of `i32`.
pub open spec fn fits_i32(v: int) -> bool {
    i32::MIN <= v <= i32::MAX
}

pub open spec fn iabs(v: int) -> int {
    if v < 0 {
        -v
    } else {
        v
    }
}

/// How far the minor coordinate has moved at the `k`-th pixel of a run of
/// `b` major steps over a minor extent `a`: `k * a / b` rounded to the
/// nearest integer (halves rounded down), but never more than one per step.
/// A run of no major steps does not move.
pub open spec fn minor_offset(a: int, b: int, k: int) -> int {
    if b <= 0 {
        0
    } else {
        let c = (2 * a * k + b - 1) / (2 * b);
        if c < k {
            c
        } else {
            k
        }
    }
}

/// The decision value that Bresenham's algorithm holds before the `k`-th
/// pixel; the minor coordinate advances after that pixel when it is positive.
pub open spec fn decision(a: int, b: int, k: int) -> int {
    2 * a * (k + 1) - b - 2 * b * minor_offset(a, b, k)
}

/// Coordinate of `p` along the axis that advances every step.
pub open spec fn major(p: Point2D, slope: bool) -> int {
    if slope {
        p.0 as int
    } else {
        p.1 as int
    }
}

/// Coordinate of `p` along the other axis.
pub open spec fn minor(p: Point2D, slope: bool) -> int {
    if slope {
        p.1 as int
    } else {
        p.0 as int
    }
}

/// The point with major coordinate `u` and minor coordinate `v`.
pub open spec fn from_axes(u: int, v: int, slope: bool) -> Point2D {
    if slope {
        (u as i32, v as i32)
    } else {
        (v as i32, u as i32)
    }
}

/// The `k`-th pixel that `draw_line_slope(p0, p1, slope)` draws.
pub open spec fn slope_point(p0: Point2D, p1: Point2D, slope: bool, k: int) -> Point2D {
    let b = major(p1, slope) - major(p0, slope);
    let dv = minor(p1, slope) - minor(p0, slope);
    let off = minor_offset(iabs(dv), b, k);
    from_axes(
        major(p0, slope) + k,
        if dv < 0 {
            minor(p0, slope) - off
        } else {
            minor(p0, slope) + off
        },
        slope,
    )
}

/// The pixels that `draw_line_slope(p0, p1, slope)` draws, in order: one
/// per major coordinate from `major(p0)` up to and including `major(p1)`,
/// none when `major(p1)` comes before `major(p0)`.
pub open spec fn slope_path(p0: Point2D, p1: Point2D, slope: bool) -> Seq<Point2D> {
    let b = major(p1, slope) - major(p0, slope);
    Seq::new(
        if b >= 0 {
            (b + 1) as nat
        } else {
            0
        },
        |k: int| slope_point(p0, p1, slope, k),
    )
}

/// Step `k` of a run keeps the decision value and its increment in `i32`.
pub open spec fn step_fits(a: int, b: int, k: int) -> bool {
    &&& fits_i32(decision(a, b, k + 1))
    &&& decision(a, b, k) > 0 ==> fits_i32(2 * (a - b))
}

/// Every value that `draw_line_slope(p0, p1, slope)` computes fits in `i32`.
pub open spec fn slope_fits(p0: Point2D, p1: Point2D, slope: bool) -> bool {
    let b = major(p1, slope) - major(p0, slope);
    let dv = minor(p1, slope) - minor(p0, slope);
    let a = iabs(dv);
    &&& fits_i32(b)
    &&& fits_i32(dv)
    &&& fits_i32(a)
    &&& fits_i32(2 * a)
    &&& fits_i32(2 * a - b)
    &&& forall|k: int| 0 <= k < b ==> #[trigger] step_fits(a, b, k)
}

/// The division behind `minor_offset`, as bounds.
proof fn lemma_offset_div(a: int, b: int, k: int)
    requires
        0 <= a,
        0 < b,
        0 <= k,
    ensures
        ({
            let c = (2 * a * k + b - 1) / (2 * b);
            &&& 2 * b * c <= 2 * a * k + b - 1
            &&& 2 * a * k + b - 1 < 2 * b * c + 2 * b
            &&& 0 <= c
        }),
{
    let n = 2 * a * k + b - 1;
    assert(0 <= 2 * a * k) by (nonlinear_arith)
        requires
            0 <= a,
            0 <= k,
    ;
    vstd::arithmetic::div_mod::lemma_fundamental_div_mod(n, 2 * b);
    vstd::arithmetic::div_mod::lemma_mod_bound(n, 2 * b);
    vstd::arithmetic::div_mod::lemma_div_pos_is_pos(n, 2 * b);
    assert(2 * b * (n / (2 * b)) == (2 * b) * (n / (2 * b)));
}

/// The minor offset stays within `[0, a]` while `k <= b`.
pub proof fn lemma_offset_bounds(a: int, b: int, k: int)
    requires
        0 <= a,
        0 < b,
        0 <= k <= b,
    ensures
        0 <= minor_offset(a, b, k) <= a,
        minor_offset(a, b, k) <= k,
{
    lemma_offset_div(a, b, k);
    let c = (2 * a * k + b - 1) / (2 * b);
    assert(c <= a) by (nonlinear_arith)
        requires
            2 * b * c <= 2 * a * k + b - 1,
            0 <= a,
            0 < b,
            k <= b,
    ;
}

/// One step of Bresenham's algorithm: the minor offset advances exactly when
/// the decision value is positive, and the decision value moves by
/// `2 * (a - b)` or `2 * a` accordingly.
pub proof fn lemma_offset_step(a: int, b: int, k: int)
    requires
        0 <= a,
        0 < b,
        0 <= k,
    ensures
        minor_offset(a, b, k + 1) == minor_offset(a, b, k) + (if decision(a, b, k) > 0 {
            1int
        } else {
            0int
        }),
        decision(a, b, k + 1) == decision(a, b, k) + (if decision(a, b, k) > 0 {
            2 * (a - b)
        } else {
            2 * a
        }),
{
    lemma_offset_div(a, b, k);
    lemma_offset_div(a, b, k + 1);
    let c0 = (2 * a * k + b - 1) / (2 * b);
    let c1 = (2 * a * (k + 1) + b - 1) / (2 * b);
    let m = minor_offset(a, b, k);
    assert(2 * a * (k + 1) == 2 * a * k + 2 * a) by (nonlinear_arith);
    // the rounded offset never decreases
    assert(c0 <= c1) by (nonlinear_arith)
        requires
            2 * b * c0 <= 2 * a * k + b - 1,
            2 * a * k + b - 1 + 2 * a < 2 * b * c1 + 2 * b,
            0 <= a,
            0 < b,
    ;
    if decision(a, b, k) > 0 {
        assert(m < c1) by (nonlinear_arith)
            requires
                2 * a * (k + 1) - b - 2 * b * m > 0,
                2 * a * (k + 1) + b - 1 < 2 * b * c1 + 2 * b,
                0 < b,
        ;
        if m < k {
            assert(m == c0);
            // a steep run advances every step, so here the run is shallow
            assert(a < b) by (nonlinear_arith)
                requires
                    2 * a * k + b - 1 < 2 * b * c0 + 2 * b,
                    c0 < k,
                    0 < b,
                    0 <= k,
            ;
            assert(c1 <= c0 + 1) by (nonlinear_arith)
                requires
                    2 * b * c1 <= 2 * a * k + 2 * a + b - 1,
                    2 * a * k + b - 1 < 2 * b * c0 + 2 * b,
                    a < b,
                    0 < b,
            ;
        }
    } else {
        assert(c1 <= m) by (nonlinear_arith)
            requires
                2 * a * (k + 1) - b - 2 * b * m <= 0,
                2 * b * c1 <= 2 * a * (k + 1) + b - 1,
                0 < b,
        ;
    }
    let m1 = minor_offset(a, b, k + 1);
    assert(2 * a * (k + 2) == 2 * a * (k + 1) + 2 * a) by (nonlinear_arith);
    if m1 == m + 1 {
        assert(2 * b * m1 == 2 * b * m + 2 * b) by (nonlinear_arith)
            requires
                m1 == m + 1,
        ;
    }
}

/// The first `k + 1` pixels of a path are its first `k` and the `k`-th.
proof fn lemma_take_insert(path: Seq<Point2D>, k: int)
    requires
        0 <= k < path.len(),
    ensures
        path.take(k + 1).to_set() == path.take(k).to_set().insert(path[k]),
{
    let s1 = path.take(k + 1);
    let s0 = path.take(k);
    assert forall|p: Point2D| s1.to_set().contains(p) implies s0.to_set().insert(path[k]).contains(
        p,
    ) by {
        let i = choose|i: int| 0 <= i < s1.len() && s1[i] == p;
        if i < k {
            assert(s0[i] == p);
        }
    }
    assert forall|p: Point2D| s0.to_set().insert(path[k]).contains(p) implies s1.to_set().contains(
        p,
    ) by {
        if p == path[k] {
            assert(s1[k] == p);
        } else {
            let i = choose|i: int| 0 <= i < s0.len() && s0[i] == p;
            assert(s1[i] == p);
        }
    }
    assert(s1.to_set() =~= s0.to_set().insert(path[k]));
}

/// Bresenham's line algorithm with variable tilt
/// * `slope` - tilt, value of `true` means it tilts downwards, else upwards
pub fn draw_line_slope(
    buf: &mut [u32],
    dim: &Size,
    p0: &Point2D,
    p1: &Point2D,
    col: &ColorRGB,
    slope: bool,
)
    requires
        slope_fits(*p0, *p1, slope),
        pixels_fit(old(buf)@.len() as int, *dim, slope_path(*p0, *p1, slope).to_set()),
    ensures
        final(buf)@ == paint(
            old(buf)@,
            *dim,
            slope_path(*p0, *p1, slope).to_set(),
            color_value(*col),
        ),
{
    let ghost start = buf@;
    let ghost path = slope_path(*p0, *p1, slope);
    let ghost c = color_value(*col);
    let mut dx: i32 = p1.0 - p0.0;
    let mut dy: i32 = p1.1 - p0.1;

    if slope {
        // Slope down
        let mut yi: i32 = 1;

        if dy < 0 {
            yi = -1;
            dy = -dy;
        }
        let ghost a = dy as int;
        let ghost b = dx as int;

        let mut d: i32 = 2 * dy - dx;
        let mut y: i32 = p0.1;

        let mut x: i32 = p0.0;
        proof {
            if b > 0 {
                lemma_offset_bounds(a, b, 0);
            }
            if b >= 0 {
                let m0 = minor_offset(a, b, 0);
                assert(2 * a * (0 + 1) - b - 2 * b * m0 == 2 * a - b) by (nonlinear_arith)
                    requires
                        m0 == 0,
                ;
            }
            lemma_paint_empty(start, *dim, c);
            assert(path.take(0).to_set() =~= Set::empty());
        }
        if dx >= 0 {
            loop
                invariant_except_break
                    p0.0 <= x <= p1.0,
                    y == (if p1.1 - p0.1 < 0 {
                        p0.1 - minor_offset(a, b, x - p0.0)
                    } else {
                        p0.1 + minor_offset(a, b, x - p0.0)
                    }),
                    d == decision(a, b, x - p0.0),
                    buf@ == paint(start, *dim, path.take(x - p0.0).to_set(), c),
                invariant
                    slope,
                    slope_fits(*p0, *p1, slope),
                    pixels_fit(start.len() as int, *dim, path.to_set()),
                    path == slope_path(*p0, *p1, slope),
                    c == color_value(*col),
                    a == iabs(p1.1 - p0.1),
                    b == p1.0 - p0.0,
                    0 <= b,
                    dy as int == a,
                    dx as int == b,
                    yi == (if p1.1 - p0.1 < 0 {
                        -1int
                    } else {
                        1int
                    }),
                ensures
                    buf@ == paint(start, *dim, path.to_set(), c),
                decreases p1.0 - x,
            {
                let ghost k = x - p0.0;
                proof {
                    assert(path[k] == (x, y));
                    assert(path.to_set().contains(path[k]));
                    assert(pixels_fit(buf@.len() as int, *dim, set![(x, y)]));
                }
                draw_pixel(buf, dim, &(x, y), col);
                proof {
                    lemma_paint_union(start, *dim, path.take(k).to_set(), set![(x, y)], c);
                    lemma_take_insert(path, k);
                    assert(path.take(k).to_set().union(set![(x, y)]) =~= path.take(k + 1).to_set());
                }
                if x == p1.0 {
                    proof {
                        assert(path.take(k + 1) =~= path);
                    }
                    break;
                }
                proof {
                    lemma_offset_step(a, b, k);
                    lemma_offset_bounds(a, b, k + 1);
                    assert(step_fits(a, b, k));
                }
                if d > 0 {
                    y += yi;
                    d += 2 * (dy - dx);
                } else {
                    d += 2 * dy;
                }
                x += 1;
            }
        } else {
            proof {
                assert(path.take(0) =~= path);
            }
        }
    } else {
        // Slope up
        let mut xi: i32 = 1;

        if dx < 0 {
            xi = -1;
            dx = -dx;
        }
        let ghost a = dx as int;
        let ghost b = dy as int;

        let mut d: i32 = 2 * dx - dy;
        let mut x: i32 = p0.0;

        let mut y: i32 = p0.1;
        proof {
            if b > 0 {
                lemma_offset_bounds(a, b, 0);
            }
            if b >= 0 {
                let m0 = minor_offset(a, b, 0);
                assert(2 * a * (0 + 1) - b - 2 * b * m0 == 2 * a - b) by (nonlinear_arith)
                    requires
                        m0 == 0,
                ;
            }
            lemma_paint_empty(start, *dim, c);
            assert(path.take(0).to_set() =~= Set::empty());
        }
        if dy >= 0 {
            loop
                invariant_except_break
                    p0.1 <= y <= p1.1,
                    x == (if p1.0 - p0.0 < 0 {
                        p0.0 - minor_offset(a, b, y - p0.1)
                    } else {
                        p0.0 + minor_offset(a, b, y - p0.1)
                    }),
                    d == decision(a, b, y - p0.1),
                    buf@ == paint(start, *dim, path.take(y - p0.1).to_set(), c),
                invariant
                    !slope,
                    slope_fits(*p0, *p1, slope),
                    pixels_fit(start.len() as int, *dim, path.to_set()),
                    path == slope_path(*p0, *p1, slope),
                    c == color_value(*col),
                    a == iabs(p1.0 - p0.0),
                    b == p1.1 - p0.1,
                    0 <= b,
                    dx as int == a,
                    dy as int == b,
                    xi == (if p1.0 - p0.0 < 0 {
                        -1int
                    } else {
                        1int
                    }),
                ensures
                    buf@ == paint(start, *dim, path.to_set(), c),
                decreases p1.1 - y,
            {
                let ghost k = y - p0.1;
                proof {
                    assert(path[k] == (x, y));
                    assert(path.to_set().contains(path[k]));
                    assert(pixels_fit(buf@.len() as int, *dim, set![(x, y)]));
                }
                draw_pixel(buf, dim, &(x, y), col);
                proof {
                    lemma_paint_union(start, *dim, path.take(k).to_set(), set![(x, y)], c);
                    lemma_take_insert(path, k);
                    assert(path.take(k).to_set().union(set![(x, y)]) =~= path.take(k + 1).to_set());
                }
                if y == p1.1 {
                    proof {
                        assert(path.take(k + 1) =~= path);
                    }
                    break;
                }
                proof {
                    lemma_offset_step(a, b, k);
                    lemma_offset_bounds(a, b, k + 1);
                    assert(step_fits(a, b, k));
                }
                if d > 0 {
                    x += xi;
                    d += 2 * (dx - dy);
                } else {
                    d += 2 * dx;
                }
                y += 1;
            }
        } else {
            proof {
                assert(path.take(0) =~= path);
            }
        }
    }
}

/// The call that `draw_line(p0, p1)` hands to `draw_line_slope`: endpoints
/// ordered along the axis of greater extent, and that axis as `slope`.
pub open spec fn line_args(p0: Point2D, p1: Point2D) -> (Point2D, Point2D, bool) {
    if iabs(p1.1 - p0.1) < iabs(p1.0 - p0.0) {
        if p0.0 > p1.0 {
            (p1, p0, true)
        } else {
            (p0, p1, true)
        }
    } else {
        if p0.1 > p1.1 {
            (p1, p0, false)
        } else {
            (p0, p1, false)
        }
    }
}

/// The pixels that `draw_line(p0, p1)` draws.
pub open spec fn line_path(p0: Point2D, p1: Point2D) -> Seq<Point2D> {
    let args = line_args(p0, p1);
    slope_path(args.0, args.1, args.2)
}

/// Every value that `draw_line(p0, p1)` computes fits in `i32`.
pub open spec fn line_fits(p0: Point2D, p1: Point2D) -> bool {
    let args = line_args(p0, p1);
    &&& fits_i32(p1.0 - p0.0)
    &&& fits_i32(p1.1 - p0.1)
    &&& fits_i32(iabs(p1.0 - p0.0))
    &&& fits_i32(iabs(p1.1 - p0.1))
    &&& slope_fits(args.0, args.1, args.2)
}

/// Bresenham's line algorithm with variable tilt and direction
pub fn draw_line(buf: &mut [u32], dim: &Size, p0: &Point2D, p1: &Point2D, col: &ColorRGB)
    requires
        line_fits(*p0, *p1),
        pixels_fit(old(buf)@.len() as int, *dim, line_path(*p0, *p1).to_set()),
    ensures
        final(buf)@ == paint(old(buf)@, *dim, line_path(*p0, *p1).to_set(), color_value(*col)),
{
    let dy = p1.1 - p0.1;
    let dx = p1.0 - p0.0;
    let ady = if dy < 0 {
        -dy
    } else {
        dy
    };
    let adx = if dx < 0 {
        -dx
    } else {
        dx
    };
    // Compensate for any direction
    if ady < adx {
        if p0.0 > p1.0 {
            draw_line_slope(buf, dim, p1, p0, col, true);
        } else {
            draw_line_slope(buf, dim, p0, p1, col, true);
        }
    } else {
        if p0.1 > p1.1 {
            draw_line_slope(buf, dim, p1, p0, col, false);
        } else {
            draw_line_slope(buf, dim, p0, p1, col, false);
        }
    }
}

/// A line draws the same pixels whichever endpoint comes first.
pub proof fn lemma_line_symmetric(p0: Point2D, p1: Point2D)
    ensures
        line_path(p0, p1) == line_path(p1, p0),
{
    assert(line_args(p0, p1) == line_args(p1, p0));
}

/// `draw_line` walks the axis of greater extent in increasing order, so
/// each step moves the other coordinate by at most the same amount.
pub proof fn lemma_line_args_shallow(p0: Point2D, p1: Point2D)
    ensures
        ({
            let args = line_args(p0, p1);
            let b = major(args.1, args.2) - major(args.0, args.2);
            let a = iabs(minor(args.1, args.2) - minor(args.0, args.2));
            0 <= a <= b
        }),
{
}

/// Bresenham's pixels are the ones nearest the exact line: on a run that
/// advances the minor coordinate at most once per step, the offset after
/// `k` steps is `k * a / b` rounded to the nearest integer, halves down.
pub proof fn lemma_offset_nearest(a: int, b: int, k: int)
    requires
        0 <= a <= b,
        0 < b,
        0 <= k,
    ensures
        -b <= 2 * b * minor_offset(a, b, k) - 2 * a * k < b,
{
    lemma_offset_div(a, b, k);
    let c = (2 * a * k + b - 1) / (2 * b);
    assert(c <= k) by (nonlinear_arith)
        requires
            2 * b * c <= 2 * a * k + b - 1,
            a <= b,
            0 < b,
            0 <= k,
    ;
}

/// The `k`-th pixel of a line sits `k` steps along its major axis from the
/// first endpoint, and within half a pixel of the exact line on its minor
/// axis.
pub proof fn lemma_line_pixels_nearest(p0: Point2D, p1: Point2D, k: int)
    requires
        line_fits(p0, p1),
        0 <= k < line_path(p0, p1).len(),
    ensures
        ({
            let args = line_args(p0, p1);
            let q0 = args.0;
            let q1 = args.1;
            let s = args.2;
            let p = line_path(p0, p1)[k];
            let b = major(q1, s) - major(q0, s);
            let dv = minor(q1, s) - minor(q0, s);
            &&& major(p, s) == major(q0, s) + k
            &&& -b <= 2 * b * (minor(p, s) - minor(q0, s)) - 2 * dv * k <= b
        }),
{
    let args = line_args(p0, p1);
    let q0 = args.0;
    let q1 = args.1;
    let s = args.2;
    let b = major(q1, s) - major(q0, s);
    let dv = minor(q1, s) - minor(q0, s);
    let a = iabs(dv);
    if b > 0 {
        lemma_offset_nearest(a, b, k);
        lemma_offset_bounds(a, b, k);
        let m = minor_offset(a, b, k);
        if dv < 0 {
            assert(2 * b * (-m) - 2 * dv * k == -(2 * b * m - 2 * a * k)) by (nonlinear_arith)
                requires
                    a == -dv,
            ;
        }
    }
}

/// The offset reaches the whole minor extent at the last step of a run.
proof fn lemma_offset_end(a: int, b: int)
    requires
        0 <= a <= b,
        0 < b,
    ensures
        minor_offset(a, b, b) == a,
{
    assert(2 * a * b + b - 1 == a * (2 * b) + (b - 1)) by (nonlinear_arith);
    vstd::arithmetic::div_mod::lemma_fundamental_div_mod_converse(
        2 * a * b + b - 1,
        2 * b,
        a,
        b - 1,
    );
}

/// A line runs from its endpoint of smaller major coordinate to the other
/// endpoint, both included, one pixel per major step; a single point
/// draws that one pixel.
pub proof fn lemma_line_ends(p0: Point2D, p1: Point2D)
    requires
        line_fits(p0, p1),
    ensures
        ({
            let args = line_args(p0, p1);
            let path = line_path(p0, p1);
            &&& path.len() == major(args.1, args.2) - major(args.0, args.2) + 1
            &&& path[0] == args.0
            &&& path[path.len() - 1] == args.1
            &&& p0 == p1 ==> path == seq![p0]
        }),
{
    let args = line_args(p0, p1);
    let q0 = args.0;
    let q1 = args.1;
    let s = args.2;
    let b = major(q1, s) - major(q0, s);
    let a = iabs(minor(q1, s) - minor(q0, s));
    let path = line_path(p0, p1);
    if b > 0 {
        lemma_offset_bounds(a, b, 0);
        lemma_offset_end(a, b);
    }
    assert(path[0] == q0);
    assert(path[b] == q1);
    if p0 == p1 {
        assert(path =~= seq![p0]);
    }
}

/// A vertical line draws exactly the pixels of its column between its ends.
pub proof fn lemma_vertical_line(p0: Point2D, p1: Point2D, q: Point2D)
    requires
        line_fits(p0, p1),
        p0.0 == p1.0,
        p0.1 <= p1.1,
    ensures
        line_path(p0, p1).to_set().contains(q) <==> (q.0 == p0.0 && p0.1 <= q.1 <= p1.1),
{
    let path = line_path(p0, p1);
    let b = p1.1 - p0.1;
    assert(line_args(p0, p1) == (p0, p1, false));
    assert forall|k: int| 0 <= k <= b implies #[trigger] path[k] == (p0.0, (p0.1 + k) as i32) by {
        if b > 0 {
            lemma_offset_bounds(0, b, k);
        }
    }
    if q.0 == p0.0 && p0.1 <= q.1 <= p1.1 {
        let k = q.1 - p0.1;
        assert(path[k] == q);
        assert(path.contains(q));
    }
    if path.to_set().contains(q) {
        let k = choose|k: int| 0 <= k < path.len() && path[k] == q;
        assert(path[k] == (p0.0, (p0.1 + k) as i32));
    }
}

/// A horizontal line draws exactly the pixels of its row between its ends.
pub proof fn lemma_horizontal_line(p0: Point2D, p1: Point2D, q: Point2D)
    requires
        line_fits(p0, p1),
        p0.1 == p1.1,
        p0.0 <= p1.0,
    ensures
        line_path(p0, p1).to_set().contains(q) <==> (q.1 == p0.1 && p0.0 <= q.0 <= p1.0),
{
    if p0.0 == p1.0 {
        lemma_vertical_line(p0, p1, q);
    } else {
        let path = line_path(p0, p1);
        let b = p1.0 - p0.0;
        assert(line_args(p0, p1) == (p0, p1, true));
        assert forall|k: int| 0 <= k <= b implies #[trigger] path[k] == ((p0.0 + k) as i32, p0.1) by {
            lemma_offset_bounds(0, b, k);
        }
        if q.1 == p0.1 && p0.0 <= q.0 <= p1.0 {
            let k = q.0 - p0.0;
            assert(path[k] == q);
            assert(path.contains(q));
        }
        if path.to_set().contains(q) {
            let k = choose|k: int| 0 <= k < path.len() && path[k] == q;
            assert(path[k] == ((p0.0 + k) as i32, p0.1));
        }
    }
}

/// On a run that advances the minor coordinate at most once per step, the
/// decision value stays within `(2 * (a - b), 2 * a]`.
proof fn lemma_decision_bounds(a: int, b: int, k: int)
    requires
        0 <= a <= b,
        0 < b,
        0 <= k,
    ensures
        2 * (a - b) < decision(a, b, k) <= 2 * a,
{
    lemma_offset_nearest(a, b, k);
    assert(2 * a * (k + 1) == 2 * a * k + 2 * a) by (nonlinear_arith);
}

/// Coordinates within `2^28` of the origin: a bound under which every
/// line can be drawn without leaving `i32`.
pub open spec fn small_point(p: Point2D) -> bool {
    -0x1000_0000 <= p.0 <= 0x1000_0000 && -0x1000_0000 <= p.1 <= 0x1000_0000
}

/// Lines between points near the origin can always be drawn.
pub proof fn lemma_small_line_fits(p0: Point2D, p1: Point2D)
    requires
        small_point(p0),
        small_point(p1),
    ensures
        line_fits(p0, p1),
{
    let args = line_args(p0, p1);
    let q0 = args.0;
    let q1 = args.1;
    let s = args.2;
    let b = major(q1, s) - major(q0, s);
    let a = iabs(minor(q1, s) - minor(q0, s));
    assert forall|k: int| 0 <= k < b implies #[trigger] step_fits(a, b, k) by {
        lemma_decision_bounds(a, b, k);
        lemma_decision_bounds(a, b, k + 1);
    }
}

} // verus!
