//! Bézier curves by De Casteljau's algorithm, sampled the way single-precision
//! floating point computes them.
//!
//! Floating-point values are handled as integers scaled by `2^64`: the value
//! `v` stands for `v / 2^64`. Every rounding step rounds to the nearest value
//! with 24 significant bits, ties to even, as IEEE single precision does.
use vstd::prelude::*;
use vstd::arithmetic::power2::pow2;
use crate::canvas::Point2D;
use crate::line::iabs;

verus! {

/// `2^64`: the scale of the integers that stand for single-precision values.
pub const SCALE: i128 = 0x1_0000_0000_0000_0000;

/// `a / b` rounded towards zero, for `b > 0`.
pub open spec fn div_trunc(a: int, b: int) -> int {
    if a >= 0 {
        a / b
    } else {
        -((-a) / b)
    }
}

/// How many times `x` must be halved to fall below `2^24`: the position of
/// the lowest of the 24 significant bits that a rounded value keeps.
pub open spec fn keep_shift(x: nat) -> nat
    decreases x,
{
    if x < 0x100_0000 {
        0
    } else {
        1 + keep_shift(x / 2)
    }
}

/// `n / d` (`n >= 0`, `d > 0`) rounded to the nearest multiple of
/// `2^keep_shift(n / d)`, ties to the even multiple.
pub open spec fn round_nonneg(n: int, d: int) -> int {
    let u = pow2(keep_shift((n / d) as nat)) as int;
    let q = n / (d * u);
    let r = n % (d * u);
    if 2 * r > d * u || (2 * r == d * u && q % 2 == 1) {
        (q + 1) * u
    } else {
        q * u
    }
}

/// The single-precision value nearest to `n / d` (ties to even), in units
/// of `2^-64`: rounding to 24 significant bits. This is IEEE rounding
/// whenever `n / d` is an integer or at least `2^23`, the only cases that
/// arise here (an integer below `2^24` stands for itself).
pub open spec fn round_f32(n: int, d: int) -> int {
    if n < 0 {
        -round_nonneg(-n, d)
    } else {
        round_nonneg(n, d)
    }
}

/// `a as f32`, for an integer `a`: its nearest single-precision value,
/// itself an integer.
pub open spec fn f32_of_int(a: int) -> int {
    round_f32(a, 1)
}

/// `(i as f32) / (prc as f32)`, in units of `2^-64`.
pub open spec fn f32_position(i: int, prc: int) -> int {
    round_f32(f32_of_int(i) * SCALE, f32_of_int(prc))
}

/// `v as i32` for the single-precision value `v` (in units of `2^-64`):
/// rounded towards zero, saturating at the bounds of `i32`.
pub open spec fn f32_to_i32(v: int) -> i32 {
    let t = div_trunc(v, SCALE as int);
    if t > i32::MAX {
        i32::MAX
    } else if t < i32::MIN {
        i32::MIN
    } else {
        t as i32
    }
}

/// `((1.0 - pos) * a as f32 + pos * b as f32) as i32`, every operation
/// rounded to single precision; `pos` in units of `2^-64`.
pub open spec fn lerp_f32(a: int, b: int, pos: int) -> i32 {
    let rest = round_f32(SCALE - pos, 1);
    let t1 = round_f32(rest * f32_of_int(a), 1);
    let t2 = round_f32(pos * f32_of_int(b), 1);
    f32_to_i32(round_f32(t1 + t2, 1))
}

/// The point at position `pos` between `p` and `q`.
pub open spec fn lerp_point(p: Point2D, q: Point2D, pos: int) -> Point2D {
    (lerp_f32(p.0 as int, q.0 as int, pos), lerp_f32(p.1 as int, q.1 as int, pos))
}

/// One round of De Casteljau's algorithm: the points at position `pos`
/// between each two neighbours.
pub open spec fn casteljau_round(pts: Seq<Point2D>, pos: int) -> Seq<Point2D> {
    Seq::new((pts.len() - 1) as nat, |i: int| lerp_point(pts[i], pts[i + 1], pos))
}

/// `k` rounds of De Casteljau's algorithm.
pub open spec fn casteljau_rounds(pts: Seq<Point2D>, pos: int, k: nat) -> Seq<Point2D>
    decreases k,
{
    if k == 0 {
        pts
    } else {
        casteljau_round(casteljau_rounds(pts, pos, (k - 1) as nat), pos)
    }
}

/// The point at position `pos` on the Bézier curve with control points
/// `pts`: what remains after `pts.len() - 1` rounds.
pub open spec fn casteljau(pts: Seq<Point2D>, pos: int) -> Point2D {
    casteljau_rounds(pts, pos, (pts.len() - 1) as nat)[0]
}

/// The points that `get_bezier_points(pts, prc)` returns: the curve at
/// `0 / prc, 1 / prc, ..., prc / prc`.
pub open spec fn bezier_points(pts: Seq<Point2D>, prc: u32) -> Seq<Point2D> {
    if pts.len() < 3 || prc < 1 {
        Seq::empty()
    } else {
        Seq::new((prc + 1) as nat, |i: int| casteljau(pts, f32_position(i, prc as int)))
    }
}

/// Rounds `n / d` to single precision, in units of `2^-64`.
fn round_to_f32(n: i128, d: i128) -> (r: i128)
    requires
        -0x4000_0000_0000_0000_0000_0000_0000 <= n <= 0x4000_0000_0000_0000_0000_0000_0000,
        1 <= d <= 0x100_0000_0000,
    ensures
        r == round_f32(n as int, d as int),
        iabs(r as int) <= 2 * (iabs(n as int) / (d as int)) + 1,
        n >= 0 ==> r >= 0 && 2 * r >= n / d,
{
    let neg = n < 0;
    let a: i128 = if neg {
        -n
    } else {
        n
    };
    let x: i128 = a / d;
    let mut y: i128 = x;
    let mut u: i128 = 1;
    let ghost mut e: nat = 0;
    proof {
        vstd::arithmetic::power2::lemma2_to64();
    }
    while y >= 0x100_0000
        invariant
            0 <= x,
            0 <= y,
            keep_shift(x as nat) == e + keep_shift(y as nat),
            u as int == pow2(e) as int,
            1 <= u,
            y * u <= x,
            u == 1 || u * 0x80_0000 <= x,
        decreases y,
    {
        proof {
            vstd::arithmetic::power2::lemma_pow2_unfold(e + 1);
            assert(u * 0x100_0000 <= x) by (nonlinear_arith)
                requires
                    y * u <= x,
                    y >= 0x100_0000,
                    u >= 1,
            ;
            assert((y / 2) * (u * 2) <= y * u) by (nonlinear_arith)
                requires
                    y >= 0,
                    u >= 1,
            ;
        }
        y = y / 2;
        u = u * 2;
        proof {
            e = e + 1;
        }
    }
    assert(d * u <= 0x100_0000_0000 || d * u * 0x80_0000 <= a) by (nonlinear_arith)
        requires
            u == 1 || u * 0x80_0000 <= x,
            x == a / d,
            d >= 1,
            u >= 1,
            d <= 0x100_0000_0000,
            a >= 0,
    {
        if u != 1 {
            vstd::arithmetic::div_mod::lemma_fundamental_div_mod(a as int, d as int);
            vstd::arithmetic::div_mod::lemma_mod_bound(a as int, d as int);
        }
    }
    assert(d * u >= 1) by (nonlinear_arith)
        requires
            d >= 1,
            u >= 1,
    ;
    let du: i128 = d * u;
    let q: i128 = a / du;
    let rem: i128 = a % du;
    let m: i128 = if 2 * rem > du || (2 * rem == du && q % 2 == 1) {
        q + 1
    } else {
        q
    };
    proof {
        vstd::arithmetic::div_mod::lemma_fundamental_div_mod(a as int, du as int);
        vstd::arithmetic::div_mod::lemma_mod_bound(a as int, du as int);
        vstd::arithmetic::div_mod::lemma_fundamental_div_mod(a as int, d as int);
        vstd::arithmetic::div_mod::lemma_mod_bound(a as int, d as int);
        assert(q * u <= x) by (nonlinear_arith)
            requires
                a == du * q + rem,
                0 <= rem,
                a == d * x + a % d,
                a % d < d,
                du == d * u,
                d >= 1,
                q >= 0,
        ;
        if u == 1 {
            assert(du == d) by (nonlinear_arith)
                requires
                    du == d * u,
                    u == 1,
            ;
            assert(q == x);
            assert(q * u == q);
        } else {
            assert(x < u * (q + 1)) by (nonlinear_arith)
                requires
                    a == du * q + rem,
                    rem < du,
                    a == d * x + a % d,
                    0 <= a % d,
                    du == d * u,
                    d >= 1,
            ;
            assert(u * (q + 1) == q * u + u) by (nonlinear_arith);
        }
        assert(q * u + u <= 2 * x + 1);
        assert(2 * (q * u) >= x);
        assert(m * u <= q * u + u) by (nonlinear_arith)
            requires
                m <= q + 1,
                u >= 1,
        ;
        assert(m * u >= q * u) by (nonlinear_arith)
            requires
                m >= q,
                u >= 1,
        ;
    }
    let v: i128 = m * u;
    if neg {
        -v
    } else {
        v
    }
}

/// `((1.0 - pos) * a as f32 + pos * b as f32) as i32`, `pos` in units of `2^-64`.
fn lerp_i32(a: i32, b: i32, pos: i128) -> (r: i32)
    requires
        0 <= pos <= 0x10_0000_0000_0000_0000,
    ensures
        r == lerp_f32(a as int, b as int, pos as int),
{
    let rest = round_to_f32(SCALE - pos, 1);
    let fa = round_to_f32(a as i128, 1);
    let fb = round_to_f32(b as i128, 1);
    proof {
        assert(iabs(rest as int) * iabs(fa as int) <= 0x20_0000_0000_0000_0001 * 0x1_0000_0001)
            by (nonlinear_arith)
            requires
                iabs(rest as int) <= 0x20_0000_0000_0000_0001,
                iabs(fa as int) <= 0x1_0000_0001,
        ;
        assert(iabs(pos as int) * iabs(fb as int) <= 0x10_0000_0000_0000_0000 * 0x1_0000_0001)
            by (nonlinear_arith)
            requires
                iabs(pos as int) <= 0x10_0000_0000_0000_0000,
                iabs(fb as int) <= 0x1_0000_0001,
        ;
        assert(iabs(rest as int * fa as int) == iabs(rest as int) * iabs(fa as int)) by (nonlinear_arith);
        assert(iabs(pos as int * fb as int) == iabs(pos as int) * iabs(fb as int)) by (nonlinear_arith);
    }
    let t1 = round_to_f32(rest * fa, 1);
    let t2 = round_to_f32(pos * fb, 1);
    let s = round_to_f32(t1 + t2, 1);
    // `as i32` rounds towards zero and saturates
    let t: i128 = if s >= 0 {
        s / SCALE
    } else {
        -((-s) / SCALE)
    };
    if t > i32::MAX as i128 {
        i32::MAX
    } else if t < i32::MIN as i128 {
        i32::MIN
    } else {
        t as i32
    }
}

/// `(i as f32) / (prc as f32)`, in units of `2^-64`.
fn position(i: u32, prc: u32) -> (pos: i128)
    requires
        1 <= prc,
        i <= prc,
    ensures
        pos == f32_position(i as int, prc as int),
        0 <= pos <= 0x10_0000_0000_0000_0000,
{
    let fi = round_to_f32(i as i128, 1);
    let fp = round_to_f32(prc as i128, 1);
    proof {
        assert(fi * 0x1_0000_0000_0000_0000 <= 6 * 0x1_0000_0000_0000_0000 * fp) by (nonlinear_arith)
            requires
                fi <= 2 * i + 1,
                2 * fp >= prc,
                i <= prc,
                1 <= prc,
        ;
        vstd::arithmetic::div_mod::lemma_div_is_ordered(
            fi * 0x1_0000_0000_0000_0000,
            6 * 0x1_0000_0000_0000_0000 * fp,
            fp as int,
        );
        vstd::arithmetic::div_mod::lemma_div_multiples_vanish(6 * 0x1_0000_0000_0000_0000int, fp as int);
        assert(6 * 0x1_0000_0000_0000_0000 * fp == fp * (6 * 0x1_0000_0000_0000_0000)) by (nonlinear_arith);
    }
    round_to_f32(fi * SCALE, fp)
}

/// The point at position `pos` (in units of `2^-64`) on the Bézier curve
/// with control points `pts`, by De Casteljau's algorithm in single precision.
fn casteljau_at(pts: &Vec<Point2D>, pos: i128) -> (r: Point2D)
    requires
        pts@.len() >= 1,
        0 <= pos <= 0x10_0000_0000_0000_0000,
    ensures
        r == casteljau(pts@, pos as int),
{
    let n: usize = pts.len();
    let mut points: Vec<Point2D> = Vec::new();
    for i in 0..n
        invariant
            n == pts@.len(),
            points@ == pts@.take(i as int),
    {
        points.push(pts[i]);
        proof {
            assert(points@ =~= pts@.take(i + 1));
        }
    }
    proof {
        assert(points@ =~= pts@);
    }
    let ghost lvl = pts@;
    for r in 1..n
        invariant
            n == pts@.len(),
            1 <= n,
            0 <= pos <= 0x10_0000_0000_0000_0000,
            points@.len() == n,
            lvl == casteljau_rounds(pts@, pos as int, (r - 1) as nat),
            lvl.len() == n - (r - 1),
            forall|j: int| 0 <= j < lvl.len() ==> #[trigger] points@[j] == lvl[j],
    {
        let ghost next = casteljau_round(lvl, pos as int);
        for i in 0..(n - r)
            invariant
                n == pts@.len(),
                1 <= r < n,
                0 <= pos <= 0x10_0000_0000_0000_0000,
                points@.len() == n,
                lvl.len() == n - (r - 1),
                next == casteljau_round(lvl, pos as int),
                forall|j: int| 0 <= j < i ==> #[trigger] points@[j] == next[j],
                forall|j: int| i <= j < lvl.len() ==> #[trigger] points@[j] == lvl[j],
        {
            let this: Point2D = points[i];
            let next_pt: Point2D = points[i + 1];

            // Interpolate point
            let p = (lerp_i32(this.0, next_pt.0, pos), lerp_i32(this.1, next_pt.1, pos));
            points.set(i, p);
            proof {
                assert(next[i as int] == p);
            }
        }
        proof {
            lvl = next;
        }
    }
    points[0]
}

/// Returns the points of a Bézier curve with given precision
/// * `pts` - points describing the curve
/// * `prc` - precision, must be greater than 1
pub fn get_bezier_points(pts: &Vec<Point2D>, prc: u32) -> (r: Vec<Point2D>)
    requires
        pts@.len() >= 3 && prc >= 1 ==> prc < u32::MAX,
    ensures
        r@ == bezier_points(pts@, prc),
{
    if pts.len() < 3 || prc < 1 {
        return Vec::new();
    }

    let mut midpoints: Vec<Point2D> = Vec::new();

    // Iterate from 0 to 1 with 1 / prc as step
    for i in 0..prc + 1
        invariant
            pts@.len() >= 3,
            prc >= 1,
            midpoints@ == bezier_points(pts@, prc).take(i as int),
    {
        let pos = position(i, prc);
        midpoints.push(casteljau_at(pts, pos));
        proof {
            assert(midpoints@ =~= bezier_points(pts@, prc).take(i + 1));
        }
    }
    proof {
        assert(midpoints@ =~= bezier_points(pts@, prc));
    }
    midpoints
}

/// `keep_shift(x)` is the `k` with `x < 2^(24 + k)` and, unless `k` is 0,
/// `2^(23 + k) <= x`.
proof fn lemma_keep_shift_bounds(x: nat)
    ensures
        x < pow2(24 + keep_shift(x)),
        keep_shift(x) > 0 ==> pow2((23 + keep_shift(x)) as nat) <= x,
    decreases x,
{
    vstd::arithmetic::power2::lemma2_to64();
    if x >= 0x100_0000 {
        let h = x / 2;
        lemma_keep_shift_bounds(h);
        let k = keep_shift(h);
        vstd::arithmetic::power2::lemma_pow2_unfold(24 + k + 1);
        vstd::arithmetic::power2::lemma_pow2_unfold(23 + k + 1);
        if k == 0 {
            assert(pow2(24) == 0x100_0000);
        }
    }
}

/// A value whose dropped bits are all zero rounds to itself.
proof fn lemma_round_exact(n: int)
    requires
        (iabs(n) as nat) % pow2(keep_shift(iabs(n) as nat)) == 0,
    ensures
        round_f32(n, 1) == n,
{
    let a = iabs(n);
    let u = pow2(keep_shift(a as nat)) as int;
    vstd::arithmetic::power2::lemma_pow2_pos(keep_shift(a as nat));
    assert(1 * u == u);
    assert(a / 1 == a);
    vstd::arithmetic::div_mod::lemma_fundamental_div_mod(a, u);
    assert(a % u == 0);
    assert((a / u) * u == a) by (nonlinear_arith)
        requires
            a == u * (a / u) + a % u,
            a % u == 0,
    ;
}

/// Integers below `2^24` are single-precision values.
proof fn lemma_round_small(a: int)
    requires
        -0x100_0000 < a < 0x100_0000,
    ensures
        round_f32(a, 1) == a,
{
    vstd::arithmetic::power2::lemma2_to64();
    assert(keep_shift(iabs(a) as nat) == 0);
    lemma_round_exact(a);
}

/// Integers below `2^24`, scaled by `2^64`, are single-precision values.
proof fn lemma_round_scaled(a: int)
    requires
        -0x100_0000 < a < 0x100_0000,
    ensures
        round_f32(a * SCALE, 1) == a * SCALE,
{
    vstd::arithmetic::power2::lemma2_to64();
    let x = (iabs(a) * SCALE) as nat;
    assert(iabs(a * SCALE) == iabs(a) * SCALE) by (nonlinear_arith);
    lemma_keep_shift_bounds(x);
    let k = keep_shift(x);
    assert(x < pow2(88)) by {
        vstd::arithmetic::power2::lemma_pow2_adds(24, 64);
        assert(pow2(24) == 0x100_0000);
        assert(x < 0x100_0000 * pow2(64)) by (nonlinear_arith)
            requires
                x == iabs(a) * SCALE,
                iabs(a) < 0x100_0000,
                pow2(64) == SCALE,
        ;
    }
    if k > 64 {
        vstd::arithmetic::power2::lemma_pow2_strictly_increases(88, (23 + k) as nat);
    }
    assert(k <= 64);
    vstd::arithmetic::power2::lemma_pow2_adds(k, (64 - k) as nat);
    vstd::arithmetic::power2::lemma_pow2_pos(k);
    let m = iabs(a) * pow2((64 - k) as nat);
    assert(x == m * pow2(k)) by (nonlinear_arith)
        requires
            x == iabs(a) * SCALE,
            SCALE == pow2(64),
            pow2(64) == pow2(k) * pow2((64 - k) as nat),
            m == iabs(a) * pow2((64 - k) as nat),
    ;
    vstd::arithmetic::div_mod::lemma_mod_multiples_basic(m, pow2(k) as int);
    lemma_round_exact(a * SCALE);
}

/// The single-precision value of a positive integer is positive.
proof fn lemma_f32_of_int_pos(n: int)
    requires
        n >= 1,
    ensures
        f32_of_int(n) >= 1,
{
    let k = keep_shift(n as nat);
    vstd::arithmetic::power2::lemma2_to64();
    lemma_keep_shift_bounds(n as nat);
    vstd::arithmetic::power2::lemma_pow2_pos(k);
    let u = pow2(k) as int;
    if k > 0 {
        vstd::arithmetic::power2::lemma_pow2_adds(k, 23);
        vstd::arithmetic::power2::lemma_pow2_pos(23);
        assert(pow2((23 + k) as nat) == pow2(k) * pow2(23));
        assert(u <= pow2(k) * pow2(23)) by (nonlinear_arith)
            requires
                pow2(23) >= 1,
                u == pow2(k),
        ;
    }
    assert(1 * u == u);
    vstd::arithmetic::div_mod::lemma_fundamental_div_mod(n, u);
    vstd::arithmetic::div_mod::lemma_mod_bound(n, u);
    assert(n / u >= 1) by (nonlinear_arith)
        requires
            n == u * (n / u) + n % u,
            n % u < u,
            u <= n,
    ;
    assert((n / u) * u >= 1) by (nonlinear_arith)
        requires
            n / u >= 1,
            u >= 1,
    ;
    assert((n / u + 1) * u >= 1) by (nonlinear_arith)
        requires
            n / u >= 1,
            u >= 1,
    ;
}

/// The first sample is taken at position 0, the last at position 1.
proof fn lemma_position_ends(prc: int)
    requires
        prc >= 1,
    ensures
        f32_position(0, prc) == 0,
        f32_position(prc, prc) == SCALE,
{
    vstd::arithmetic::power2::lemma2_to64();
    lemma_round_small(0);
    let fp = f32_of_int(prc);
    lemma_f32_of_int_pos(prc);
    assert(0 * SCALE == 0);
    assert(0int / fp == 0);
    assert(keep_shift(0) == 0);
    assert(fp * 1 == fp);
    assert(0int / (fp * 1) == 0);
    assert(0int % (fp * 1) == 0);
    // position 1: fp * 2^64 / fp is exactly 2^64, which keeps its 24 top bits
    let n = fp * SCALE;
    vstd::arithmetic::div_mod::lemma_div_multiples_vanish(SCALE as int, fp);
    assert(n == fp * SCALE);
    lemma_keep_shift_bounds(SCALE as nat);
    let k = keep_shift(SCALE as nat);
    if k < 41 {
        vstd::arithmetic::power2::lemma_pow2_strictly_increases(24 + k, 64);
    }
    if k > 41 {
        vstd::arithmetic::power2::lemma_pow2_strictly_increases(64, (23 + k) as nat);
    }
    assert(k == 41);
    vstd::arithmetic::power2::lemma_pow2_adds(41, 23);
    let u = pow2(41) as int;
    assert(n == (fp * u) * pow2(23)) by (nonlinear_arith)
        requires
            n == fp * SCALE,
            SCALE == pow2(64),
            pow2(64) == pow2(41) * pow2(23),
            u == pow2(41),
    ;
    assert(fp * u > 0) by (nonlinear_arith)
        requires
            fp >= 1,
            u > 0,
    ;
    vstd::arithmetic::div_mod::lemma_div_multiples_vanish(pow2(23) as int, fp * u);
    vstd::arithmetic::div_mod::lemma_mod_multiples_basic(pow2(23) as int, fp * u);
    assert((fp * u) * pow2(23) == pow2(23) * (fp * u)) by (nonlinear_arith);
}

/// At position 0 the interpolation gives its first end, at position 1 its
/// second, for coordinates below `2^24`.
proof fn lemma_lerp_ends(a: int, b: int)
    requires
        -0x100_0000 < a < 0x100_0000,
        -0x100_0000 < b < 0x100_0000,
    ensures
        lerp_f32(a, b, 0) == a,
        lerp_f32(a, b, SCALE as int) == b,
{
    lemma_round_small(a);
    lemma_round_small(b);
    lemma_round_small(0);
    lemma_round_scaled(1);
    lemma_round_scaled(a);
    lemma_round_scaled(b);
    assert(1 * SCALE == SCALE);
    assert(0 * a == 0 && 0 * b == 0);
    assert(SCALE * a == a * SCALE) by (nonlinear_arith);
    assert(SCALE * b == b * SCALE) by (nonlinear_arith);
    assert(a * SCALE + 0 == a * SCALE);
    assert(0 + b * SCALE == b * SCALE);
    vstd::arithmetic::div_mod::lemma_div_multiples_vanish(a, SCALE as int);
    vstd::arithmetic::div_mod::lemma_div_multiples_vanish(-a, SCALE as int);
    vstd::arithmetic::div_mod::lemma_div_multiples_vanish(b, SCALE as int);
    vstd::arithmetic::div_mod::lemma_div_multiples_vanish(-b, SCALE as int);
    assert(SCALE * a == a * SCALE && SCALE * (-a) == -(a * SCALE)) by (nonlinear_arith);
    assert(SCALE * b == b * SCALE && SCALE * (-b) == -(b * SCALE)) by (nonlinear_arith);
    assert(a * SCALE >= 0 <==> a >= 0) by (nonlinear_arith);
    assert(b * SCALE >= 0 <==> b >= 0) by (nonlinear_arith);
}

/// Control points whose coordinates lie below `2^24` in magnitude.
pub open spec fn small_controls(pts: Seq<Point2D>) -> bool {
    forall|i: int|
        0 <= i < pts.len() ==> -0x100_0000 < (#[trigger] pts[i]).0 < 0x100_0000 && -0x100_0000
            < pts[i].1 < 0x100_0000
}

/// At position 0 the rounds keep dropping the last point; at position 1
/// they keep dropping the first.
proof fn lemma_rounds_at_ends(pts: Seq<Point2D>, k: nat)
    requires
        k < pts.len(),
        small_controls(pts),
    ensures
        casteljau_rounds(pts, 0, k) == pts.take(pts.len() - k),
        casteljau_rounds(pts, SCALE as int, k) == pts.skip(k as int),
    decreases k,
{
    if k > 0 {
        lemma_rounds_at_ends(pts, (k - 1) as nat);
        let lo = pts.take(pts.len() - (k - 1));
        let hi = pts.skip(k - 1);
        assert forall|i: int| 0 <= i < lo.len() - 1 implies #[trigger] lerp_point(
            lo[i],
            lo[i + 1],
            0,
        ) == lo[i] by {
            assert(lo[i] == pts[i] && lo[i + 1] == pts[i + 1]);
            lemma_lerp_ends(lo[i].0 as int, lo[i + 1].0 as int);
            lemma_lerp_ends(lo[i].1 as int, lo[i + 1].1 as int);
        }
        assert forall|i: int| 0 <= i < hi.len() - 1 implies #[trigger] lerp_point(
            hi[i],
            hi[i + 1],
            SCALE as int,
        ) == hi[i + 1] by {
            assert(hi[i] == pts[i + k - 1] && hi[i + 1] == pts[i + k]);
            lemma_lerp_ends(hi[i].0 as int, hi[i + 1].0 as int);
            lemma_lerp_ends(hi[i].1 as int, hi[i + 1].1 as int);
        }
        assert(casteljau_round(lo, 0) =~= pts.take(pts.len() - k));
        assert(casteljau_round(hi, SCALE as int) =~= pts.skip(k as int));
    }
}

/// The sampled curve runs from the first control point to the last one,
/// for control points whose coordinates lie below `2^24` in magnitude
/// (larger integers are not all single-precision values).
pub proof fn lemma_bezier_points_ends(pts: Seq<Point2D>, prc: u32)
    requires
        pts.len() >= 3,
        prc >= 1,
        small_controls(pts),
    ensures
        bezier_points(pts, prc).len() == prc + 1,
        bezier_points(pts, prc)[0] == pts[0],
        bezier_points(pts, prc).last() == pts.last(),
{
    lemma_position_ends(prc as int);
    lemma_rounds_at_ends(pts, (pts.len() - 1) as nat);
}

} // verus!
