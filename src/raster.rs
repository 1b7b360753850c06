use vstd::prelude::*;

use crate::canvas::{agree, canvas_dims, canvas_pixels, in_bounds, Canvas, Color};
use crate::canvas;
use crate::projector::floor_div;

verus! {

/// One channel blended towards `new` with weight `w / d`:
/// `old * (1 - w/d) + new * w/d`, rounded down.
pub open spec fn mix(old: u8, new: u8, w: int, d: int) -> u8 {
    ((old * (d - w) + new * w) / d) as u8
}

/// `old` blended towards `c` with weight `w / d` on every channel.
pub open spec fn blend(old: Color, c: Color, w: int, d: int) -> Color {
    Color { r: mix(old.r, c.r, w, d), g: mix(old.g, c.g, w, d), b: mix(old.b, c.b, w, d), a: mix(old.a, c.a, w, d) }
}

/// The largest weight denominator a blend takes.
pub const MAX_WEIGHT: u64 = 0x1_0000_0000_0000;

fn mix_channel(old: u8, new: u8, w: u64, d: u64) -> (r: u8)
    requires
        0 < d <= MAX_WEIGHT,
        w <= d,
    ensures
        r == mix(old, new, w as int, d as int),
{
    assert(old as int * (d - w) + new as int * w <= 255 * d) by (nonlinear_arith)
        requires old <= 255, new <= 255, w <= d;
    assert(0 <= old as int * (d - w) + new as int * w) by (nonlinear_arith)
        requires w <= d;
    let n = old as u64 * (d - w) + new as u64 * w;
    proof {
        vstd::arithmetic::div_mod::lemma_div_is_ordered(n as int, 255 * d as int, d as int);
        vstd::arithmetic::div_mod::lemma_div_multiples_vanish(255, d as int);
        assert(255 * d as int == d * 255) by (nonlinear_arith);
    }
    (n / d) as u8
}

/// Blends `c` into `c1` with weight `w / d`: each channel becomes
/// `c1 * (1 - w/d) + c * w/d`, rounded down.
pub fn interpolate(c1: Color, c: Color, w: u64, d: u64) -> (r: Color)
    requires
        0 < d <= MAX_WEIGHT,
        w <= d,
    ensures
        r == blend(c1, c, w as int, d as int),
{
    Color {
        r: mix_channel(c1.r, c.r, w, d),
        g: mix_channel(c1.g, c.g, w, d),
        b: mix_channel(c1.b, c.b, w, d),
        a: mix_channel(c1.a, c.a, w, d),
    }
}

/// Blends `c` with weight `w / d` into the pixel `(x, y)`; a pixel outside
/// the image is left out.
pub fn plot(img: &mut Canvas, x: i128, y: i128, c: Color, w: u64, d: u64)
    requires
        0 < d <= MAX_WEIGHT,
        w <= d,
    ensures
        canvas_dims(*final(img)) == canvas_dims(*old(img)),
        agree(
            canvas_dims(*old(img)),
            canvas_pixels(*final(img)),
            canvas_pixels(*old(img)).insert(
                (x as int, y as int),
                blend(canvas_pixels(*old(img))[(x as int, y as int)], c, w as int, d as int),
            ),
        ),
{
    let (width, height) = canvas::dimensions(img);
    if 0 <= x && x < width as i128 && 0 <= y && y < height as i128 {
        let p = canvas::get_pixel(img, x as u32, y as u32);
        canvas::put_pixel(img, x as u32, y as u32, interpolate(p, c, w, d));
    }
}

/// The largest pixel coordinate, either way, that a line may have.
pub const LINE_LIMIT: i64 = 0x100_0000_0000;

pub open spec fn abs(v: int) -> int {
    if v < 0 {
        -v
    } else {
        v
    }
}

/// The line runs closer to vertical than to horizontal: it steps along `y`.
pub open spec fn wu_steep(x0: int, y0: int, x1: int, y1: int) -> bool {
    abs(y1 - y0) > abs(x1 - x0)
}

/// The line's end points `(a0, b0, a1, b1)` along its major axis `a` and its
/// minor axis `b`, ordered so that `a0 <= a1`.
pub open spec fn wu_ends(x0: int, y0: int, x1: int, y1: int) -> (int, int, int, int) {
    let e = if wu_steep(x0, y0, x1, y1) {
        (y0, x0, y1, x1)
    } else {
        (x0, y0, x1, y1)
    };
    if e.0 > e.2 {
        (e.2, e.3, e.0, e.1)
    } else {
        e
    }
}

/// The line's gradient as a fraction `(numerator, denominator)`; a line of one
/// point gets the gradient 1.
pub open spec fn wu_slope(e: (int, int, int, int)) -> (int, int) {
    if e.2 == e.0 {
        (1, 1)
    } else {
        (e.3 - e.1, e.2 - e.0)
    }
}

/// The common denominator of the line's positions and weights.
pub open spec fn wu_den(e: (int, int, int, int)) -> int {
    2 * wu_slope(e).1
}

/// At step `k`, the ideal minor-axis position `b0 + gradient * (k + 1/2)`, times
/// `wu_den(e)`.
pub open spec fn wu_num(e: (int, int, int, int), k: int) -> int {
    2 * e.1 * wu_slope(e).1 + wu_slope(e).0 * (2 * k + 1)
}

/// The weight, over `wu_den`, with which the line from `(x0, y0)` to `(x1, y1)`
/// covers the pixel `(x, y)`. At each step along the major axis the two pixels
/// that straddle the ideal position share the weight 1: the one below it gets
/// one minus its fractional part, the one above gets that fractional part.
pub open spec fn line_weight(x0: int, y0: int, x1: int, y1: int, x: int, y: int) -> Option<int> {
    let e = wu_ends(x0, y0, x1, y1);
    let (a, b) = if wu_steep(x0, y0, x1, y1) {
        (y, x)
    } else {
        (x, y)
    };
    if e.0 <= a <= e.2 {
        let n = wu_num(e, a - e.0);
        let d = wu_den(e);
        if b == n / d {
            Some(d - n % d)
        } else if b == n / d + 1 {
            Some(n % d)
        } else {
            None
        }
    } else {
        None
    }
}

/// The pixels `m` after the anti-aliased line from `(x0, y0)` to `(x1, y1)`
/// is blended into them in color `c`.
pub open spec fn line_drawn(m: Map<(int, int), Color>, x0: int, y0: int, x1: int, y1: int, c: Color) -> Map<
    (int, int),
    Color,
> {
    Map::new(
        |p: (int, int)| true,
        |p: (int, int)|
            match line_weight(x0, y0, x1, y1, p.0, p.1) {
                Some(w) => blend(m[p], c, w, wu_den(wu_ends(x0, y0, x1, y1))),
                None => m[p],
            },
    )
}

/// The major-axis coordinate of the pixel `(x, y)`.
pub open spec fn major(steep: bool, x: int, y: int) -> int {
    if steep {
        y
    } else {
        x
    }
}

/// Draws the anti-aliased line from `(x0, y0)` to `(x1, y1)` in color `c`
/// (Wu's algorithm): one step per pixel along the major axis, blending `c`
/// into the two pixels that straddle the line. Pixels outside the image are
/// left out.
pub fn draw_line_wu(img: &mut Canvas, x0: i64, y0: i64, x1: i64, y1: i64, c: Color)
    requires
        -LINE_LIMIT <= x0 <= LINE_LIMIT,
        -LINE_LIMIT <= y0 <= LINE_LIMIT,
        -LINE_LIMIT <= x1 <= LINE_LIMIT,
        -LINE_LIMIT <= y1 <= LINE_LIMIT,
    ensures
        canvas_dims(*final(img)) == canvas_dims(*old(img)),
        agree(
            canvas_dims(*old(img)),
            canvas_pixels(*final(img)),
            line_drawn(canvas_pixels(*old(img)), x0 as int, y0 as int, x1 as int, y1 as int, c),
        ),
{
    let ghost before = canvas_pixels(*img);
    let ghost target = line_drawn(before, x0 as int, y0 as int, x1 as int, y1 as int, c);
    let ghost e = wu_ends(x0 as int, y0 as int, x1 as int, y1 as int);
    let dx = if x1 >= x0 { x1 - x0 } else { x0 - x1 };
    let dy = if y1 >= y0 { y1 - y0 } else { y0 - y1 };
    let steep = dy > dx;
    let (mut a0, mut b0, mut a1, mut b1) = if steep {
        (y0, x0, y1, x1)
    } else {
        (x0, y0, x1, y1)
    };
    if a0 > a1 {
        let t = a0;
        a0 = a1;
        a1 = t;
        let t = b0;
        b0 = b1;
        b1 = t;
    }
    assert(e == (a0 as int, b0 as int, a1 as int, b1 as int));
    let (gn, gd): (i128, i128) = if a1 == a0 {
        (1, 1)
    } else {
        ((b1 - b0) as i128, (a1 - a0) as i128)
    };
    assert(wu_slope(e) == (gn as int, gd as int));
    let d: i128 = 2 * gd;
    let (width, height) = canvas::dimensions(img);
    let dims = (width, height);
    let span: i128 = if steep {
        height as i128
    } else {
        width as i128
    };
    let mut a: i128 = if a0 < 0 {
        0
    } else {
        a0 as i128
    };
    let last: i128 = if (a1 as i128) < span - 1 {
        a1 as i128
    } else {
        span - 1
    };
    while a <= last
        invariant
            canvas_dims(*img) == dims,
            dims == canvas_dims(*old(img)),
            before == canvas_pixels(*old(img)),
            target == line_drawn(before, x0 as int, y0 as int, x1 as int, y1 as int, c),
            e == wu_ends(x0 as int, y0 as int, x1 as int, y1 as int),
            e == (a0 as int, b0 as int, a1 as int, b1 as int),
            wu_slope(e) == (gn as int, gd as int),
            steep == wu_steep(x0 as int, y0 as int, x1 as int, y1 as int),
            span == if steep { dims.1 as int } else { dims.0 as int },
            d == 2 * gd,
            1 <= gd <= 2 * LINE_LIMIT,
            -2 * LINE_LIMIT <= gn <= 2 * LINE_LIMIT,
            -LINE_LIMIT <= a0 <= a1 <= LINE_LIMIT,
            -LINE_LIMIT <= b0 <= LINE_LIMIT,
            a0 <= a,
            0 <= a,
            last <= a1,
            last <= span - 1,
            forall|x: int, y: int|
                in_bounds(dims, x, y) ==> #[trigger] canvas_pixels(*img)[(x, y)] == if major(steep, x, y) < a {
                    target[(x, y)]
                } else {
                    before[(x, y)]
                },
        decreases last + 1 - a,
    {
        let k = a - a0 as i128;
        assert(0 <= k <= 2 * LINE_LIMIT);
        assert(-0x1_0000_0000_0000_0000_0000_0000 <= 2 * b0 * gd <= 0x1_0000_0000_0000_0000_0000_0000) by (nonlinear_arith)
            requires
                -LINE_LIMIT <= b0 <= LINE_LIMIT,
                1 <= gd <= 2 * LINE_LIMIT,
        ;
        assert(-0x1_0000_0000_0000_0000_0000_0000 <= gn * (2 * k + 1) <= 0x1_0000_0000_0000_0000_0000_0000) by (nonlinear_arith)
            requires
                -2 * LINE_LIMIT <= gn <= 2 * LINE_LIMIT,
                0 <= k <= 2 * LINE_LIMIT,
        ;
        let n = 2 * b0 as i128 * gd + gn * (2 * k + 1);
        assert(n == wu_num(e, a - e.0));
        let f = floor_div(n, d);
        let ghost m = n as int % d as int;
        proof {
            vstd::arithmetic::div_mod::lemma_fundamental_div_mod(n as int, d as int);
            crate::projector::lemma_div_bound(n as int, d as int, 0x2_0000_0000_0000_0000_0000_0000);
        }
        let r = n - f * d;
        assert(r == m);
        let w1 = (d - r) as u64;
        let w2 = r as u64;
        let ghost mid = canvas_pixels(*img);
        if steep {
            plot(img, f, a, c, w1, d as u64);
            plot(img, f + 1, a, c, w2, d as u64);
        } else {
            plot(img, a, f, c, w1, d as u64);
            plot(img, a, f + 1, c, w2, d as u64);
        }
        assert forall|x: int, y: int|
            in_bounds(dims, x, y) implies #[trigger] canvas_pixels(*img)[(x, y)] == if major(steep, x, y) < a + 1 {
                target[(x, y)]
            } else {
                before[(x, y)]
            } by {
            if major(steep, x, y) == a {
                assert(mid[(x, y)] == before[(x, y)]);
            }
        }
        a = a + 1;
    }
    assert forall|x: int, y: int|
        in_bounds(dims, x, y) implies #[trigger] canvas_pixels(*img)[(x, y)] == target[(x, y)] by {
        if major(steep, x, y) >= a {
            assert(major(steep, x, y) > last);
            assert(line_weight(x0 as int, y0 as int, x1 as int, y1 as int, x, y) is None);
        }
    }
}

/// At every step along the major axis of a line, the two pixels that straddle
/// it share the weight one: their weights sum to the denominator `wu_den`.
pub proof fn lemma_step_weights(x0: int, y0: int, x1: int, y1: int, a: int)
    requires
        wu_ends(x0, y0, x1, y1).0 <= a <= wu_ends(x0, y0, x1, y1).2,
    ensures
        ({
            let e = wu_ends(x0, y0, x1, y1);
            let f = wu_num(e, a - e.0) / wu_den(e);
            let (p, q) = if wu_steep(x0, y0, x1, y1) {
                ((f, a), (f + 1, a))
            } else {
                ((a, f), (a, f + 1))
            };
            &&& line_weight(x0, y0, x1, y1, p.0, p.1) is Some
            &&& line_weight(x0, y0, x1, y1, q.0, q.1) is Some
            &&& line_weight(x0, y0, x1, y1, p.0, p.1)->0 + line_weight(x0, y0, x1, y1, q.0, q.1)->0
                == wu_den(e)
            &&& 0 <= line_weight(x0, y0, x1, y1, q.0, q.1)->0 < wu_den(e)
        }),
{
    let e = wu_ends(x0, y0, x1, y1);
    assert(wu_den(e) > 0);
    vstd::arithmetic::div_mod::lemma_mod_bound(wu_num(e, a - e.0), wu_den(e));
}

/// The pixels `m` moved by `(-ox, -oy)`: pixel `(x, y)` of the result is
/// pixel `(x + ox, y + oy)` of `m`.
pub open spec fn shifted(m: Map<(int, int), Color>, ox: int, oy: int) -> Map<(int, int), Color> {
    Map::new(|p: (int, int)| true, |p: (int, int)| m[(p.0 + ox, p.1 + oy)])
}

proof fn lemma_div_shift(n: int, d: int, s: int)
    requires
        d > 0,
    ensures
        (n - s * d) / d == n / d - s,
        (n - s * d) % d == n % d,
{
    vstd::arithmetic::div_mod::lemma_fundamental_div_mod(n, d);
    vstd::arithmetic::div_mod::lemma_mod_bound(n, d);
    assert(n - s * d == (n / d - s) * d + n % d) by (nonlinear_arith)
        requires n == d * (n / d) + n % d;
    vstd::arithmetic::div_mod::lemma_fundamental_div_mod_converse(n - s * d, d, n / d - s, n % d);
}

/// Moving a line and a pixel by the same offset keeps the pixel's weight.
proof fn lemma_weight_shift(x0: int, y0: int, x1: int, y1: int, ox: int, oy: int, x: int, y: int)
    ensures
        line_weight(x0 - ox, y0 - oy, x1 - ox, y1 - oy, x, y) == line_weight(x0, y0, x1, y1, x + ox, y + oy),
        wu_den(wu_ends(x0 - ox, y0 - oy, x1 - ox, y1 - oy)) == wu_den(wu_ends(x0, y0, x1, y1)),
{
    let steep = wu_steep(x0, y0, x1, y1);
    assert(wu_steep(x0 - ox, y0 - oy, x1 - ox, y1 - oy) == steep);
    let e = wu_ends(x0, y0, x1, y1);
    let e2 = wu_ends(x0 - ox, y0 - oy, x1 - ox, y1 - oy);
    let (sa, sb) = if steep {
        (oy, ox)
    } else {
        (ox, oy)
    };
    assert(e2 == (e.0 - sa, e.1 - sb, e.2 - sa, e.3 - sb));
    assert(wu_slope(e2) == wu_slope(e));
    let d = wu_den(e);
    let (a, b) = if steep {
        (y + oy, x + ox)
    } else {
        (x + ox, y + oy)
    };
    if e.0 <= a <= e.2 {
        let k = a - e.0;
        assert(wu_num(e2, k) == wu_num(e, k) - sb * d) by (nonlinear_arith)
            requires
                wu_num(e2, k) == 2 * (e.1 - sb) * wu_slope(e).1 + wu_slope(e).0 * (2 * k + 1),
                wu_num(e, k) == 2 * e.1 * wu_slope(e).1 + wu_slope(e).0 * (2 * k + 1),
                d == 2 * wu_slope(e).1,
        ;
        lemma_div_shift(wu_num(e, k), d, sb);
    }
}

/// Moving a line's end points by `(-ox, -oy)` and the image under it by the
/// same offset draws the same line, moved.
pub proof fn lemma_line_shift(m: Map<(int, int), Color>, x0: int, y0: int, x1: int, y1: int, c: Color, ox: int, oy: int)
    ensures
        line_drawn(shifted(m, ox, oy), x0 - ox, y0 - oy, x1 - ox, y1 - oy, c) == shifted(
            line_drawn(m, x0, y0, x1, y1, c),
            ox,
            oy,
        ),
{
    let l = line_drawn(shifted(m, ox, oy), x0 - ox, y0 - oy, x1 - ox, y1 - oy, c);
    let r = shifted(line_drawn(m, x0, y0, x1, y1, c), ox, oy);
    assert forall|p: (int, int)| #[trigger] l.dom().contains(p) implies l[p] == r[p] by {
        lemma_weight_shift(x0, y0, x1, y1, ox, oy, p.0, p.1);
    }
    assert(l =~= r);
}

/// `r` is `v / sqrt(n2)` rounded to the nearest integer, halves away from zero.
pub open spec fn is_rounded_ratio(v: int, n2: int, r: int) -> bool {
    let m = abs(r);
    &&& (r == 0 || (r > 0) == (v > 0))
    &&& (m == 0 || (2 * m - 1) * (2 * m - 1) * n2 <= 4 * v * v)
    &&& 4 * v * v < (2 * m + 1) * (2 * m + 1) * n2
}

proof fn lemma_rounded_unique(v: int, n2: int, r1: int, r2: int)
    requires
        n2 > 0,
        is_rounded_ratio(v, n2, r1),
        is_rounded_ratio(v, n2, r2),
    ensures
        r1 == r2,
{
    let m1 = abs(r1);
    let m2 = abs(r2);
    if m1 < m2 {
        assert(false) by (nonlinear_arith)
            requires
                n2 > 0,
                0 <= m1 < m2,
                (2 * m2 - 1) * (2 * m2 - 1) * n2 <= 4 * v * v,
                4 * v * v < (2 * m1 + 1) * (2 * m1 + 1) * n2,
        ;
    }
    if m2 < m1 {
        assert(false) by (nonlinear_arith)
            requires
                n2 > 0,
                0 <= m2 < m1,
                (2 * m1 - 1) * (2 * m1 - 1) * n2 <= 4 * v * v,
                4 * v * v < (2 * m2 + 1) * (2 * m2 + 1) * n2,
        ;
    }
}

/// `v / sqrt(n2)` rounded to the nearest integer, halves away from zero.
pub open spec fn rounded(v: int, n2: int) -> int {
    choose|r: int| is_rounded_ratio(v, n2, r)
}

/// The pixel offset that `perpendicular_offset` returns.
pub open spec fn perp_offset(x0: int, y0: int, x1: int, y1: int, offset: int) -> (int, int) {
    let dx = x1 - x0;
    let dy = y1 - y0;
    if dx == 0 && dy == 0 {
        (0, 0)
    } else {
        (rounded(-dy * offset, dx * dx + dy * dy), rounded(dx * offset, dx * dx + dy * dy))
    }
}

/// The largest offset, either way, that `perpendicular_offset` takes.
pub const MAX_OFFSET: i32 = 0x1_0000;

spec fn below(m: int, v: int, n2: int) -> bool {
    m == 0 || (2 * m - 1) * (2 * m - 1) * n2 <= 4 * v * v
}

/// `v / sqrt(n2)` rounded, where `|v| <= |offset| * sqrt(n2)`.
fn rounded_ratio(v: i128, n2: i128, offset: i32) -> (r: i32)
    requires
        0 < n2 <= 0x4_0000_0000_0000_0000,
        -MAX_OFFSET <= offset <= MAX_OFFSET,
        -0x2_0000_0000_0000 <= v <= 0x2_0000_0000_0000,
        v * v <= offset * offset * n2,
    ensures
        is_rounded_ratio(v as int, n2 as int, r as int),
        -MAX_OFFSET <= r <= MAX_OFFSET,
{
    let ghost vv = v as int;
    let ghost o = offset as int;
    let off_abs: i128 = if offset < 0 {
        -(offset as i128)
    } else {
        offset as i128
    };
    let mut lo: i128 = 0;
    let mut hi: i128 = off_abs + 1;
    assert(v * v <= off_abs * off_abs * n2) by (nonlinear_arith)
        requires v * v <= o * o * n2, off_abs == abs(o);
    proof {
        let t = 2 * off_abs + 1;
        assert(t * t == 4 * (off_abs * off_abs) + 4 * off_abs + 1) by (nonlinear_arith)
            requires t == 2 * off_abs + 1;
        assert(t * t * n2 >= (4 * (off_abs * off_abs) + 1) * n2) by (nonlinear_arith)
            requires t * t == 4 * (off_abs * off_abs) + 4 * off_abs + 1, off_abs >= 0, n2 > 0;
        assert((4 * (off_abs * off_abs) + 1) * n2 == 4 * (off_abs * off_abs * n2) + n2) by (nonlinear_arith);
        assert(4 * vv * vv == 4 * (vv * vv)) by (nonlinear_arith);
        assert(2 * hi - 1 == t);
    }
    assert(v * v <= 0x1_0000_0000 * 0x4_0000_0000_0000_0000) by (nonlinear_arith)
        requires v * v <= off_abs * off_abs * n2, 0 <= off_abs <= 0x1_0000, 0 < n2 <= 0x4_0000_0000_0000_0000;
    assert(0 <= v * v <= 0x4_0000_0000_0000_0000_0000_0000) by (nonlinear_arith)
        requires -0x2_0000_0000_0000 <= v <= 0x2_0000_0000_0000;
    let v2 = 4 * (v * v);
    assert(v2 == 4 * vv * vv) by (nonlinear_arith) requires v2 == 4 * (vv * vv);
    while hi - lo > 1
        invariant
            0 <= lo < hi <= off_abs + 1,
            off_abs <= 0x1_0000,
            0 < n2 <= 0x4_0000_0000_0000_0000,
            v2 == 4 * vv * vv,
            below(lo as int, vv, n2 as int),
            !below(hi as int, vv, n2 as int),
            vv == v,
        decreases hi - lo,
    {
        let mid = lo + (hi - lo) / 2;
        let t = 2 * mid - 1;
        assert(0 <= t * t <= 0x5_0000_0000) by (nonlinear_arith)
            requires t == 2 * mid - 1, 1 <= mid <= 0x1_0001;
        let tt = t * t;
        assert(0 <= tt * n2 <= 0x5_0000_0000 * 0x4_0000_0000_0000_0000) by (nonlinear_arith)
            requires 0 <= tt <= 0x5_0000_0000, 0 < n2 <= 0x4_0000_0000_0000_0000;
        if tt * n2 <= v2 {
            lo = mid;
        } else {
            hi = mid;
        }
    }
    assert(hi == lo + 1);
    proof {
        if lo > 0 {
            assert((2 * lo - 1) * (2 * lo - 1) * n2 >= n2) by (nonlinear_arith)
                requires lo >= 1, n2 > 0;
            assert(vv != 0) by (nonlinear_arith)
                requires (2 * lo - 1) * (2 * lo - 1) * n2 <= 4 * vv * vv, (2 * lo - 1) * (2 * lo - 1) * n2 >= n2, n2 > 0;
        }
    }
    if v < 0 {
        -(lo as i32)
    } else {
        lo as i32
    }
}

/// The offset, rounded to whole pixels, that moves a line from `(x0, y0)` to
/// `(x1, y1)` sideways by `offset` pixels: its direction turned a quarter
/// turn and scaled to length `offset`. A line of one point is not moved.
pub fn perpendicular_offset(x0: i32, y0: i32, x1: i32, y1: i32, offset: i32) -> (r: (i32, i32))
    requires
        -MAX_OFFSET <= offset <= MAX_OFFSET,
    ensures
        ({
            let dx = x1 - x0;
            let dy = y1 - y0;
            if dx == 0 && dy == 0 {
                r == (0i32, 0i32)
            } else {
                &&& is_rounded_ratio(-dy * offset, dx * dx + dy * dy, r.0 as int)
                &&& is_rounded_ratio(dx * offset, dx * dx + dy * dy, r.1 as int)
            }
        }),
        (r.0 as int, r.1 as int) == perp_offset(x0 as int, y0 as int, x1 as int, y1 as int, offset as int),
        -MAX_OFFSET <= r.0 <= MAX_OFFSET,
        -MAX_OFFSET <= r.1 <= MAX_OFFSET,
{
    let dx = x1 as i128 - x0 as i128;
    let dy = y1 as i128 - y0 as i128;
    if dx == 0 && dy == 0 {
        return (0, 0);
    }
    let ghost o = offset as int;
    assert(0 < dx * dx + dy * dy <= 0x4_0000_0000_0000_0000) by (nonlinear_arith)
        requires
            -0x1_0000_0000 <= dx <= 0x1_0000_0000,
            -0x1_0000_0000 <= dy <= 0x1_0000_0000,
            dx != 0 || dy != 0,
    ;
    assert(0 <= dx * dx <= 0x1_0000_0000_0000_0000) by (nonlinear_arith)
        requires -0x1_0000_0000 <= dx <= 0x1_0000_0000;
    assert(0 <= dy * dy <= 0x1_0000_0000_0000_0000) by (nonlinear_arith)
        requires -0x1_0000_0000 <= dy <= 0x1_0000_0000;
    let n2 = dx * dx + dy * dy;
    assert(-0x1_0000_0000_0000 <= dy * offset <= 0x1_0000_0000_0000) by (nonlinear_arith)
        requires -0x1_0000_0000 <= dy <= 0x1_0000_0000, -MAX_OFFSET <= o <= MAX_OFFSET, o == offset;
    assert(-0x1_0000_0000_0000 <= dx * offset <= 0x1_0000_0000_0000) by (nonlinear_arith)
        requires -0x1_0000_0000 <= dx <= 0x1_0000_0000, -MAX_OFFSET <= o <= MAX_OFFSET, o == offset;
    let vx = -(dy * offset as i128);
    let vy = dx * offset as i128;
    assert(vx * vx <= o * o * n2) by (nonlinear_arith)
        requires vx == -(dy * o), n2 == dx * dx + dy * dy;
    assert(vy * vy <= o * o * n2) by (nonlinear_arith)
        requires vy == dx * o, n2 == dx * dx + dy * dy;
    let rx = rounded_ratio(vx, n2, offset);
    let ry = rounded_ratio(vy, n2, offset);
    assert(vx == -((y1 - y0) * (offset as int)));
    assert(-((y1 - y0) * (offset as int)) == (-(y1 - y0)) * (offset as int)) by (nonlinear_arith);
    assert(vy == (x1 - x0) * (offset as int));
    assert(n2 == (x1 - x0) * (x1 - x0) + (y1 - y0) * (y1 - y0));
    proof {
        let nn = (x1 - x0) * (x1 - x0) + (y1 - y0) * (y1 - y0);
        lemma_rounded_unique(vx as int, nn, rx as int, rounded(vx as int, nn));
        lemma_rounded_unique(vy as int, nn, ry as int, rounded(vy as int, nn));
    }
    (rx, ry)
}

} // verus!
