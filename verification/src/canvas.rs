//! The framebuffer model: sizes, colours, pixel addressing, clearing and
//! single pixels.
use vstd::prelude::*;

verus! {

/// A point in screen coordinates: `(x, y)`, `y` growing downwards.
pub type Point2D = (i32, i32);

/// A colour as `(red, green, blue)`.
pub type ColorRGB = (u8, u8, u8);

pub const BLACK: ColorRGB = (0x00, 0x00, 0x00);

pub const GRAY: ColorRGB = (0xde, 0xdd, 0xda);

pub const WHITE: ColorRGB = (0xff, 0xff, 0xff);

pub const RED: ColorRGB = (0xe0, 0x1b, 0x24);

pub const GREEN: ColorRGB = (0x2e, 0xc2, 0x7e);

pub const BLUE: ColorRGB = (0x35, 0x84, 0xe4);

/// The size of a canvas in pixels; row `y` of the canvas occupies
/// `buf[y * width .. (y + 1) * width]`.
#[derive(Clone, Copy, Debug)]
pub struct Size {
    pub width: u32,
    pub height: u32,
}

/// The packed value of a colour: `blue | green << 8 | red << 16`.
pub open spec fn color_value(col: ColorRGB) -> u32 {
    (col.0 as int * 0x10000 + col.1 as int * 0x100 + col.2 as int) as u32
}

/// Number of pixels of the canvas.
pub open spec fn area(dim: Size) -> int {
    dim.width as int * dim.height as int
}

/// `p` lies on the canvas, as the drawing code tests it (against the
/// width and height taken as `i32`).
pub open spec fn in_canvas(dim: Size, p: Point2D) -> bool {
    &&& 0 <= p.0
    &&& p.0 < (dim.width as i32)
    &&& 0 <= p.1
    &&& p.1 < (dim.height as i32)
}

/// Position of the pixel `p` in the buffer.
pub open spec fn pixel_index(dim: Size, p: Point2D) -> int {
    p.1 as int * dim.width as int + p.0 as int
}

/// The point whose pixel sits at buffer position `i`.
pub open spec fn point_at(dim: Size, i: int) -> Point2D {
    ((i % (dim.width as int)) as i32, (i / (dim.width as int)) as i32)
}

/// Buffer position `i` holds the pixel of a canvas point of `shape`.
pub open spec fn painted_at(dim: Size, shape: Set<Point2D>, i: int) -> bool {
    let p = point_at(dim, i);
    &&& dim.width > 0
    &&& in_canvas(dim, p)
    &&& pixel_index(dim, p) == i
    &&& shape.contains(p)
}

/// The buffer `buf` after every canvas point of `shape` has been set to
/// the packed colour `c`; points off the canvas are skipped.
pub open spec fn paint(buf: Seq<u32>, dim: Size, shape: Set<Point2D>, c: u32) -> Seq<u32> {
    Seq::new(buf.len(), |i: int| if painted_at(dim, shape, i) { c } else { buf[i] })
}

/// Every canvas point of `shape` addresses a pixel inside a buffer of
/// `len` pixels, at a position that fits in an `i32`.
pub open spec fn pixels_fit(len: int, dim: Size, shape: Set<Point2D>) -> bool {
    forall|p: Point2D|
        #![trigger shape.contains(p)]
        shape.contains(p) && in_canvas(dim, p) ==> pixel_index(dim, p) < len
            && pixel_index(dim, p) <= i32::MAX
}

/// A buffer of `len` pixels holds the whole canvas, and every pixel
/// position of the canvas fits in an `i32`.
pub open spec fn canvas_fits(len: int, dim: Size) -> bool {
    &&& area(dim) <= len
    &&& area(dim) <= 0x8000_0000
}

/// The buffer after the first `area(dim)` pixels have been set to `c`.
pub open spec fn clear(buf: Seq<u32>, dim: Size, c: u32) -> Seq<u32> {
    Seq::new(buf.len(), |i: int| if i < area(dim) { c } else { buf[i] })
}

/// A canvas point's position lies inside the canvas and leads back to it.
pub proof fn lemma_pixel_index(dim: Size, p: Point2D)
    requires
        in_canvas(dim, p),
    ensures
        0 <= pixel_index(dim, p) < area(dim),
        point_at(dim, pixel_index(dim, p)) == p,
        painted_at(dim, set![p], pixel_index(dim, p)),
{
    let w = dim.width as int;
    let i = pixel_index(dim, p);
    assert(0 < w);
    assert(p.1 as int * w + p.0 < (p.1 + 1) * w) by (nonlinear_arith)
        requires
            p.0 < w,
    ;
    assert((p.1 + 1) * w <= dim.height as int * w) by (nonlinear_arith)
        requires
            p.1 < dim.height,
            0 < w,
    ;
    assert(0 <= p.1 as int * w) by (nonlinear_arith)
        requires
            0 <= p.1,
            0 < w,
    ;
    vstd::arithmetic::div_mod::lemma_fundamental_div_mod_converse(i, w, p.1 as int, p.0 as int);
}

/// A pixel that some point of `shape` paints is painted by that point.
pub proof fn lemma_painted_at_point(dim: Size, shape: Set<Point2D>, p: Point2D)
    requires
        in_canvas(dim, p),
        shape.contains(p),
    ensures
        painted_at(dim, shape, pixel_index(dim, p)),
{
    lemma_pixel_index(dim, p);
}

/// A width that is positive as an `i32` keeps its value.
proof fn lemma_u32_as_i32(w: u32)
    ensures
        (w as i32) > 0 ==> (w as i32) as int == w as int,
{
    assert((w as i32) > 0 ==> w <= 0x7fff_ffff) by (bit_vector);
}

/// Painting one shape and then another in the same colour paints their union.
pub proof fn lemma_paint_union(buf: Seq<u32>, dim: Size, s1: Set<Point2D>, s2: Set<Point2D>, c: u32)
    ensures
        paint(paint(buf, dim, s1, c), dim, s2, c) == paint(buf, dim, s1.union(s2), c),
{
    assert(paint(paint(buf, dim, s1, c), dim, s2, c) =~= paint(buf, dim, s1.union(s2), c));
}

/// Painting no point leaves the buffer as it is.
pub proof fn lemma_paint_empty(buf: Seq<u32>, dim: Size, c: u32)
    ensures
        paint(buf, dim, Set::empty(), c) == buf,
{
    assert(paint(buf, dim, Set::empty(), c) =~= buf);
}

/// What is painted is read back: every canvas point of the shape whose
/// pixel lies in the buffer holds the colour afterwards.
pub proof fn lemma_paint_reads_back(buf: Seq<u32>, dim: Size, shape: Set<Point2D>, c: u32, p: Point2D)
    requires
        shape.contains(p),
        in_canvas(dim, p),
        pixel_index(dim, p) < buf.len(),
    ensures
        paint(buf, dim, shape, c)[pixel_index(dim, p)] == c,
{
    lemma_painted_at_point(dim, shape, p);
}

/// Painting leaves every pixel of a point outside the shape as it was.
pub proof fn lemma_paint_keeps_others(buf: Seq<u32>, dim: Size, shape: Set<Point2D>, c: u32, p: Point2D)
    requires
        !shape.contains(p),
        in_canvas(dim, p),
        pixel_index(dim, p) < buf.len(),
    ensures
        paint(buf, dim, shape, c)[pixel_index(dim, p)] == buf[pixel_index(dim, p)],
{
    lemma_pixel_index(dim, p);
}

/// Painting a shape twice is painting it once.
pub proof fn lemma_paint_idempotent(buf: Seq<u32>, dim: Size, shape: Set<Point2D>, c: u32)
    ensures
        paint(paint(buf, dim, shape, c), dim, shape, c) == paint(buf, dim, shape, c),
{
    lemma_paint_union(buf, dim, shape, shape, c);
    assert(shape.union(shape) =~= shape);
}

/// Clearing fills every pixel of the canvas with the colour.
pub proof fn lemma_clear_fills(buf: Seq<u32>, dim: Size, c: u32, p: Point2D)
    requires
        in_canvas(dim, p),
        area(dim) <= buf.len(),
    ensures
        clear(buf, dim, c)[pixel_index(dim, p)] == c,
{
    lemma_pixel_index(dim, p);
}

/// Clearing erases whatever was painted before.
pub proof fn lemma_clear_erases(buf: Seq<u32>, dim: Size, shape: Set<Point2D>, c0: u32, c: u32)
    ensures
        clear(paint(buf, dim, shape, c0), dim, c) == clear(buf, dim, c),
{
    assert forall|i: int| 0 <= i < buf.len() && painted_at(dim, shape, i) implies i < area(dim) by {
        lemma_pixel_index(dim, point_at(dim, i));
    }
    assert(clear(paint(buf, dim, shape, c0), dim, c) =~= clear(buf, dim, c));
}

/// Pixels that fit keep fitting in any part of the shape.
pub proof fn lemma_pixels_fit_subset(len: int, dim: Size, big: Set<Point2D>, small: Set<Point2D>)
    requires
        pixels_fit(len, dim, big),
        small.subset_of(big),
    ensures
        pixels_fit(len, dim, small),
{
    assert forall|p: Point2D| #[trigger] small.contains(p) implies big.contains(p) by {}
}

/// A buffer that holds the whole canvas has room for the pixels of any shape.
pub proof fn lemma_canvas_pixels_fit(len: int, dim: Size, shape: Set<Point2D>)
    requires
        canvas_fits(len, dim),
    ensures
        pixels_fit(len, dim, shape),
{
    assert forall|p: Point2D| #[trigger] shape.contains(p) && in_canvas(dim, p) implies pixel_index(
        dim,
        p,
    ) < len && pixel_index(dim, p) <= i32::MAX by {
        lemma_pixel_index(dim, p);
    }
}

/// The color value is the bit packing used by the drawing code.
proof fn lemma_color_bits(col: ColorRGB)
    ensures
        (col.2 as u32) | ((col.1 as u32) << 8u32) | ((col.0 as u32) << 16u32) == color_value(col),
{
    let r = col.0;
    let g = col.1;
    let b = col.2;
    assert((b as u32) | ((g as u32) << 8u32) | ((r as u32) << 16u32) == (r as u32) * 0x10000u32
        + (g as u32) * 0x100u32 + (b as u32)) by (bit_vector);
}

/// The packed colour of `col`.
pub fn color_to_u32(col: &ColorRGB) -> (v: u32)
    ensures
        v == color_value(*col),
{
    proof {
        lemma_color_bits(*col);
    }
    (col.2 as u32) | ((col.1 as u32) << 8) | ((col.0 as u32) << 16)
}

/// Clears screen with a color
pub fn draw_clear(buf: &mut [u32], dim: &Size, col: &ColorRGB)
    requires
        area(*dim) <= old(buf)@.len(),
    ensures
        final(buf)@ == clear(old(buf)@, *dim, color_value(*col)),
{
    let c = color_to_u32(col);
    let ghost start = buf@;
    let len = buf.len();
    let w = dim.width;
    let h = dim.height;
    let mut y: u32 = 0;
    while y < h
        invariant
            w == dim.width,
            h == dim.height,
            y <= h,
            len == buf@.len(),
            area(*dim) <= buf@.len(),
            buf@.len() == start.len(),
            c == color_value(*col),
            forall|i: int|
                0 <= i < buf@.len() ==> #[trigger] buf@[i] == if i < y as int * w as int {
                    c
                } else {
                    start[i]
                },
        decreases h - y,
    {
        assert(y as int * w as int + w as int <= area(*dim)) by (nonlinear_arith)
            requires
                y < h,
                area(*dim) == w as int * h as int,
        ;
        let mut x: u32 = 0;
        while x < w
            invariant
                w == dim.width,
                h == dim.height,
                y < h,
                x <= w,
                len == buf@.len(),
                buf@.len() == start.len(),
                y as int * w as int + w as int <= buf@.len(),
                c == color_value(*col),
                forall|i: int|
                    0 <= i < buf@.len() ==> #[trigger] buf@[i] == if i < y as int * w as int
                        + x as int {
                        c
                    } else {
                        start[i]
                    },
            decreases w - x,
        {
            assert(y as int * w as int <= len) by (nonlinear_arith)
                requires y as int * w as int + w as int <= len as int, ;
            let index = y as usize * w as usize + x as usize;
            buf[index] = c;
            x = x + 1;
        }
        assert((y + 1) as int * w as int == y as int * w as int + w as int) by (nonlinear_arith);
        y = y + 1;
    }
    assert(y as int * w as int == w as int * h as int) by (nonlinear_arith)
        requires y == h, ;
    assert(buf@ =~= clear(start, *dim, c));
}

/// Draws a pixel of a specified color into the buffer
pub fn draw_pixel(buf: &mut [u32], dim: &Size, pos: &Point2D, col: &ColorRGB)
    requires
        pixels_fit(old(buf)@.len() as int, *dim, set![*pos]),
    ensures
        final(buf)@ == paint(old(buf)@, *dim, set![*pos], color_value(*col)),
{
    if pos.0 >= dim.width as i32 || pos.1 >= dim.height as i32 || pos.0 < 0 || pos.1 < 0 {
        proof {
            assert forall|i: int| 0 <= i < buf@.len() implies !painted_at(
                *dim,
                set![*pos],
                i,
            ) by {}
            assert(buf@ =~= paint(buf@, *dim, set![*pos], color_value(*col)));
        }
        return ;
    }
    proof {
        assert(set![*pos].contains(*pos));
        lemma_pixel_index(*dim, *pos);
    }
    let ghost start = buf@;
    proof {
        lemma_u32_as_i32(dim.width);
        assert(pos.1 as int * dim.width as int <= pixel_index(*dim, *pos)) by (nonlinear_arith)
            requires 0 <= pos.0, ;
        assert(0 <= pos.1 as int * dim.width as int) by (nonlinear_arith)
            requires 0 <= pos.1, 0 <= dim.width, ;
    }
    let index = pos.1 * dim.width as i32 + pos.0;
    buf[index as usize] = color_to_u32(col);
    proof {
        let k = pixel_index(*dim, *pos);
        assert forall|i: int| 0 <= i < buf@.len() implies #[trigger] buf@[i] == paint(
            start,
            *dim,
            set![*pos],
            color_value(*col),
        )[i] by {
            if i != k && painted_at(*dim, set![*pos], i) {
                assert(point_at(*dim, i) == *pos);
            }
        }
        assert(buf@ =~= paint(start, *dim, set![*pos], color_value(*col)));
    }
}

} // verus!
