# common

A small raster-graphics library for a packed `0x00RRGGBB` framebuffer, whose
functions carry machine-checked contracts and proofs.

- `src/canvas.rs` — canvas size, colours, the framebuffer model (`paint`,
  `clear`), `draw_clear`, `draw_pixel`.
- `src/line.rs` — Bresenham lines (`draw_line_slope`, `draw_line`), both
  endpoints included, with the pixels given in closed form: the offset along
  the minor axis after `k` steps is `k * a / b` rounded to the nearest
  integer, halves down.
- `src/polyline.rs` — polylines, polygons, loose segments, coordinate axes.
- `src/circle.rs` — Bresenham circles and point markers; every pixel lies
  within one pixel of the exact circle.
- `src/bezier.rs` — Bézier curves by De Casteljau's algorithm, sampled in
  single precision: every floating-point operation is reproduced exactly on
  integers scaled by `2^64`, rounding to 24 significant bits, ties to even.
- `src/transform.rs` — scaling a polygon about its first point.
- `src/clip.rs` — Cohen–Sutherland clipping against a rectangle; the
  clipped segment lies inside the rectangle and within the original
  segment's bounding box.
- `src/random.rs` — random points, drawn with `rand`.
- `src/surface.rs` — a grid of lines and markers over a bilinear surface.
- `src/scene.rs` — the programs' integer decisions: the triangle, the
  window centre, the selection rectangle and its resizing.

Every drawing function states its effect as `paint(old, dim, shape, colour)`:
the pixels of the canvas points of `shape` take the colour, all others keep
theirs. Preconditions say when every computed value stays within `i32` and
every plotted pixel within the buffer; clipping also takes its rectangle as
lower left corner then higher right corner. The lemmas `lemma_canvas_pixels_fit`,
`lemma_small_line_fits`, `lemma_small_circle_fits` and
`lemma_small_clip_fits` give simple sufficient conditions.

`app/` holds the four interactive programs (winit windows, softbuffer
surfaces, nalgebra rotations in floating point). Run one with its number
as the argument.
