use vstd::prelude::*;

use crate::canvas::{agree, canvas_dims, canvas_pixels, fill_polygon, in_bounds, polygon_filled, restrict, Canvas, Color, POLYGON_LIMIT};
use crate::coord::Coord;
use crate::graph::{segments, way_segments, ways_view};
use crate::projector::{pixel_of, project, Frame};
use crate::raster::{draw_line_wu, lemma_line_shift, line_drawn, perp_offset, perpendicular_offset, shifted, MAX_OFFSET};

verus! {

proof fn lemma_line_agree(dims: (u32, u32), m1: Map<(int, int), Color>, m2: Map<(int, int), Color>, x0: int, y0: int, x1: int, y1: int, c: Color)
    requires
        agree(dims, m1, m2),
    ensures
        agree(dims, line_drawn(m1, x0, y0, x1, y1, c), line_drawn(m2, x0, y0, x1, y1, c)),
{
    assert forall|x: int, y: int| in_bounds(dims, x, y) implies #[trigger] line_drawn(m1, x0, y0, x1, y1, c)[(x, y)]
        == line_drawn(m2, x0, y0, x1, y1, c)[(x, y)] by {
        assert(m1[(x, y)] == m2[(x, y)]);
    }
}

/// The pixels `m` after the line of each segment of `segs`, projected through
/// `f`, is drawn in color `c`, in order.
pub open spec fn segments_drawn(m: Map<(int, int), Color>, f: Frame, segs: Seq<(Coord, Coord)>, c: Color) -> Map<
    (int, int),
    Color,
>
    decreases segs.len(),
{
    if segs.len() == 0 {
        m
    } else {
        let p = pixel_of(f, segs.last().0);
        let q = pixel_of(f, segs.last().1);
        line_drawn(segments_drawn(m, f, segs.drop_last(), c), p.0, p.1, q.0, q.1, c)
    }
}

/// Draws every polyline of `ways`, projected through `f`, as anti-aliased
/// lines in color `c`, one line per pair of consecutive points. What falls
/// outside the image is left out.
pub fn draw_ways(img: &mut Canvas, ways: &Vec<Vec<Coord>>, f: &Frame, c: Color)
    requires
        f.bbox.wf(),
    ensures
        canvas_dims(*final(img)) == canvas_dims(*old(img)),
        agree(
            canvas_dims(*old(img)),
            canvas_pixels(*final(img)),
            segments_drawn(canvas_pixels(*old(img)), *f, segments(ways_view(ways)), c),
        ),
{
    let ghost ws = ways_view(ways);
    let ghost m0 = canvas_pixels(*img);
    let ghost dims = canvas_dims(*img);
    let mut w: usize = 0;
    while w < ways.len()
        invariant
            ws == ways_view(ways),
            w <= ways.len(),
            f.bbox.wf(),
            canvas_dims(*img) == dims,
            agree(dims, canvas_pixels(*img), segments_drawn(m0, *f, segments(ws.take(w as int)), c)),
        decreases ways.len() - w,
    {
        let way = &ways[w];
        let ghost prefix = segments(ws.take(w as int));
        assert(ws.take(w as int + 1).drop_last() =~= ws.take(w as int));
        assert(way@ == ws[w as int]);
        assert(prefix + way_segments(way@).take(0) =~= prefix);
        let mut i: usize = 0;
        while i + 1 < way.len()
            invariant
                ws == ways_view(ways),
                w < ways.len(),
                way@ == ws[w as int],
                prefix == segments(ws.take(w as int)),
                f.bbox.wf(),
                canvas_dims(*img) == dims,
                agree(dims, canvas_pixels(*img), segments_drawn(m0, *f, prefix + way_segments(way@).take(i as int), c)),
                i == 0 || i < way.len(),
            decreases way.len() - i,
        {
            let ghost before = prefix + way_segments(way@).take(i as int);
            let ghost after = prefix + way_segments(way@).take(i as int + 1);
            assert(after =~= before.push((way@[i as int], way@[i + 1])));
            assert(after.drop_last() =~= before);
            let (x0, y0) = project(way[i], f);
            let (x1, y1) = project(way[i + 1], f);
            let ghost cur = canvas_pixels(*img);
            draw_line_wu(img, x0 as i64, y0 as i64, x1 as i64, y1 as i64, c);
            proof {
                lemma_line_agree(dims, cur, segments_drawn(m0, *f, before, c), x0 as int, y0 as int, x1 as int, y1 as int, c);
            }
            i = i + 1;
        }
        proof {
            assert(way_segments(way@).take(i as int) =~= way_segments(way@));
            assert(segments(ws.take(w as int + 1)) =~= prefix + way_segments(way@));
        }
        w = w + 1;
    }
    assert(ws.take(w as int) =~= ws);
}

/// The pixels `m` after the first `n` of the `2 * t + 1` lines of a stroke of
/// half-width `t` from `p` to `q` are drawn in color `c`: the line moved
/// sideways by each offset from `-t` up.
pub open spec fn stroke_drawn(m: Map<(int, int), Color>, p: (int, int), q: (int, int), t: int, n: int, c: Color) -> Map<
    (int, int),
    Color,
>
    decreases n,
{
    if n <= 0 {
        m
    } else {
        let d = perp_offset(p.0, p.1, q.0, q.1, -t + n - 1);
        line_drawn(stroke_drawn(m, p, q, t, n - 1, c), p.0 + d.0, p.1 + d.1, q.0 + d.0, q.1 + d.1, c)
    }
}

/// The pixels `m` after each step of the route `pts`, projected through `f`,
/// is drawn as a stroke of half-width `t` in color `c`, in order.
pub open spec fn path_drawn(m: Map<(int, int), Color>, f: Frame, pts: Seq<Coord>, t: int, c: Color) -> Map<
    (int, int),
    Color,
>
    decreases pts.len(),
{
    if pts.len() < 2 {
        m
    } else {
        let p = pixel_of(f, pts[pts.len() - 2]);
        let q = pixel_of(f, pts.last());
        stroke_drawn(path_drawn(m, f, pts.drop_last(), t, c), p, q, t, 2 * t + 1, c)
    }
}

/// Draws the route `path`, projected through `f`, in color `c`: each step as
/// `2 * thickness + 1` anti-aliased lines, the step's line moved sideways by
/// every whole offset from `-thickness` to `thickness`.
pub fn draw_path(img: &mut Canvas, path: &Vec<Coord>, f: &Frame, c: Color, thickness: i32)
    requires
        f.bbox.wf(),
        0 <= thickness <= MAX_OFFSET,
    ensures
        canvas_dims(*final(img)) == canvas_dims(*old(img)),
        agree(
            canvas_dims(*old(img)),
            canvas_pixels(*final(img)),
            path_drawn(canvas_pixels(*old(img)), *f, path@, thickness as int, c),
        ),
{
    let ghost m0 = canvas_pixels(*img);
    let ghost dims = canvas_dims(*img);
    let ghost t = thickness as int;
    if path.len() < 2 {
        return;
    }
    let mut i: usize = 1;
    assert(path@.take(1).len() < 2);
    while i < path.len()
        invariant
            1 <= i <= path.len(),
            f.bbox.wf(),
            0 <= thickness <= MAX_OFFSET,
            t == thickness,
            canvas_dims(*img) == dims,
            agree(dims, canvas_pixels(*img), path_drawn(m0, *f, path@.take(i as int), t, c)),
        decreases path.len() - i,
    {
        let ghost done = path_drawn(m0, *f, path@.take(i as int), t, c);
        assert(path@.take(i as int + 1).drop_last() =~= path@.take(i as int));
        let (x0, y0) = project(path[i - 1], f);
        let (x1, y1) = project(path[i], f);
        let ghost p = (x0 as int, y0 as int);
        let ghost q = (x1 as int, y1 as int);
        let mut o: i32 = -thickness;
        while o <= thickness
            invariant
                -thickness <= o <= thickness + 1,
                p == (x0 as int, y0 as int),
                q == (x1 as int, y1 as int),
                0 <= thickness <= MAX_OFFSET,
                t == thickness,
                canvas_dims(*img) == dims,
                agree(dims, canvas_pixels(*img), stroke_drawn(done, p, q, t, o + t, c)),
            decreases thickness + 1 - o,
        {
            let (ox, oy) = perpendicular_offset(x0, y0, x1, y1, o);
            let ghost cur = canvas_pixels(*img);
            draw_line_wu(
                img,
                x0 as i64 + ox as i64,
                y0 as i64 + oy as i64,
                x1 as i64 + ox as i64,
                y1 as i64 + oy as i64,
                c,
            );
            proof {
                lemma_line_agree(
                    dims,
                    cur,
                    stroke_drawn(done, p, q, t, o + t, c),
                    x0 + ox,
                    y0 + oy,
                    x1 + ox,
                    y1 + oy,
                    c,
                );
                assert((ox as int, oy as int) == perp_offset(p.0, p.1, q.0, q.1, -t + (o + 1 + t) - 1));
                assert(stroke_drawn(done, p, q, t, o + 1 + t, c) == line_drawn(
                    stroke_drawn(done, p, q, t, o + t, c),
                    p.0 + ox,
                    p.1 + oy,
                    q.0 + ox,
                    q.1 + oy,
                    c,
                ));
            }
            o = o + 1;
        }
        i = i + 1;
    }
    assert(path@.take(i as int) =~= path@);
}

/// `v` held to `[-POLYGON_LIMIT, POLYGON_LIMIT]`.
pub open spec fn clamp_corner(v: int) -> i32 {
    if v < -POLYGON_LIMIT {
        (-POLYGON_LIMIT) as i32
    } else if v > POLYGON_LIMIT {
        POLYGON_LIMIT
    } else {
        v as i32
    }
}

/// The corner pixel of the point `p`, projected through `f`.
pub open spec fn corner_of(f: Frame, p: Coord) -> (i32, i32) {
    (clamp_corner(pixel_of(f, p).0), clamp_corner(pixel_of(f, p).1))
}

/// The elements of `s` in order, each kept at its first occurrence only.
pub open spec fn dedup(s: Seq<(i32, i32)>) -> Seq<(i32, i32)>
    decreases s.len(),
{
    if s.len() == 0 {
        seq![]
    } else {
        let d = dedup(s.drop_last());
        if d.contains(s.last()) {
            d
        } else {
            d.push(s.last())
        }
    }
}

/// The distinct corner pixels of the ring `ring`, in order of first occurrence.
pub open spec fn ring_corners(f: Frame, ring: Seq<Coord>) -> Seq<(i32, i32)> {
    dedup(ring.map_values(|p: Coord| corner_of(f, p)))
}

/// The pixels `m`, of an image of size `dims`, after the ring `ring` is filled
/// with `c`; a ring of fewer than three distinct corners fills nothing.
pub open spec fn ring_filled(m: Map<(int, int), Color>, dims: (u32, u32), f: Frame, ring: Seq<Coord>, c: Color) -> Map<
    (int, int),
    Color,
> {
    let px = ring_corners(f, ring);
    if px.len() < 3 {
        m
    } else {
        polygon_filled(restrict(dims, m), dims, px, c)
    }
}

proof fn lemma_dedup(s: Seq<(i32, i32)>)
    ensures
        dedup(s).len() <= s.len(),
        forall|i: int, j: int| 0 <= i < j < dedup(s).len() ==> dedup(s)[i] != dedup(s)[j],
        forall|i: int| 0 <= i < dedup(s).len() ==> s.contains(#[trigger] dedup(s)[i]),
    decreases s.len(),
{
    if s.len() > 0 {
        lemma_dedup(s.drop_last());
        let d = dedup(s.drop_last());
        assert forall|i: int| 0 <= i < dedup(s).len() implies s.contains(#[trigger] dedup(s)[i]) by {
            if i < d.len() {
                assert(s.drop_last().contains(d[i]));
                let k = choose|k: int| 0 <= k < s.drop_last().len() && s.drop_last()[k] == d[i];
                assert(s[k] == d[i]);
            } else {
                assert(s[s.len() - 1] == dedup(s)[i]);
            }
        }
    }
}

/// Filling a ring of one or two points leaves every pixel as it was.
pub proof fn lemma_degenerate_ring(m: Map<(int, int), Color>, dims: (u32, u32), f: Frame, ring: Seq<Coord>, c: Color)
    requires
        ring.len() <= 2,
    ensures
        ring_filled(m, dims, f, ring, c) == m,
{
    lemma_dedup(ring.map_values(|p: Coord| corner_of(f, p)));
}

proof fn lemma_ring_agree(dims: (u32, u32), m1: Map<(int, int), Color>, m2: Map<(int, int), Color>, f: Frame, ring: Seq<Coord>, c: Color)
    requires
        agree(dims, m1, m2),
    ensures
        agree(dims, ring_filled(m1, dims, f, ring, c), ring_filled(m2, dims, f, ring, c)),
{
    assert(restrict(dims, m1) =~= restrict(dims, m2)) by {
        assert forall|p: (int, int)| #[trigger] restrict(dims, m1).dom().contains(p) implies restrict(dims, m1)[p] == restrict(dims, m2)[p] by {
            assert(m1[(p.0, p.1)] == m2[(p.0, p.1)]);
        }
    }
}

/// The distinct corner pixels of `ring` projected through `f`, in order of
/// first occurrence, each coordinate held to `[-POLYGON_LIMIT, POLYGON_LIMIT]`.
/// A corner further out than that is moved onto the limit, which can change
/// the pixels that a ring reaching that far fills within the image.
pub fn ring_pixels(ring: &Vec<Coord>, f: &Frame) -> (r: Vec<(i32, i32)>)
    requires
        f.bbox.wf(),
    ensures
        r@ == ring_corners(*f, ring@),
{
    let ghost all = ring@.map_values(|p: Coord| corner_of(*f, p));
    let mut r: Vec<(i32, i32)> = Vec::new();
    let mut i: usize = 0;
    while i < ring.len()
        invariant
            f.bbox.wf(),
            i <= ring.len(),
            all == ring@.map_values(|p: Coord| corner_of(*f, p)),
            r@ == dedup(all.take(i as int)),
        decreases ring.len() - i,
    {
        assert(all.take(i as int + 1).drop_last() =~= all.take(i as int));
        let (x, y) = project(ring[i], f);
        let px: i32 = if x < -POLYGON_LIMIT { -POLYGON_LIMIT } else if x > POLYGON_LIMIT { POLYGON_LIMIT } else { x };
        let py: i32 = if y < -POLYGON_LIMIT { -POLYGON_LIMIT } else if y > POLYGON_LIMIT { POLYGON_LIMIT } else { y };
        let p = (px, py);
        assert(p == all[i as int]);
        let mut found = false;
        let mut j: usize = 0;
        while j < r.len()
            invariant
                j <= r.len(),
                found == exists|k: int| 0 <= k < j && r@[k] == p,
            decreases r.len() - j,
        {
            if r[j].0 == p.0 && r[j].1 == p.1 {
                found = true;
            }
            j = j + 1;
        }
        if !found {
            r.push(p);
        }
        i = i + 1;
    }
    assert(all.take(i as int) =~= all);
    r
}

/// Fills the ring `ring`, projected through `f`, with `c`. A ring of fewer
/// than three distinct corner pixels fills nothing, so a ring of one or two
/// points leaves the image as it was.
pub fn fill_ring(img: &mut Canvas, ring: &Vec<Coord>, f: &Frame, c: Color)
    requires
        f.bbox.wf(),
        canvas_dims(*old(img)).0 <= i32::MAX,
        canvas_dims(*old(img)).1 <= i32::MAX,
    ensures
        canvas_dims(*final(img)) == canvas_dims(*old(img)),
        agree(
            canvas_dims(*old(img)),
            canvas_pixels(*final(img)),
            ring_filled(canvas_pixels(*old(img)), canvas_dims(*old(img)), *f, ring@, c),
        ),
        ring@.len() <= 2 ==> agree(canvas_dims(*old(img)), canvas_pixels(*final(img)), canvas_pixels(*old(img))),
{
    let px = ring_pixels(ring, f);
    proof {
        lemma_dedup(ring@.map_values(|p: Coord| corner_of(*f, p)));
    }
    let (w, h) = crate::canvas::dimensions(img);
    if px.len() >= 3 && w > 0 && h > 0 {
        proof {
            let all = ring@.map_values(|p: Coord| corner_of(*f, p));
            assert forall|i: int| 0 <= i < px@.len() implies -POLYGON_LIMIT <= (#[trigger] px@[i]).0 <= POLYGON_LIMIT
                && -POLYGON_LIMIT <= px@[i].1 <= POLYGON_LIMIT by {
                assert(all.contains(px@[i]));
            }
            assert(px@[0] != px@[px@.len() - 1]);
        }
        fill_polygon(img, &px, c);
    }
}

/// The pixels `m` after each ring of `rings` is filled with `c`, in order.
pub open spec fn rings_filled(m: Map<(int, int), Color>, dims: (u32, u32), f: Frame, rings: Seq<Seq<Coord>>, c: Color) -> Map<
    (int, int),
    Color,
>
    decreases rings.len(),
{
    if rings.len() == 0 {
        m
    } else {
        ring_filled(rings_filled(m, dims, f, rings.drop_last(), c), dims, f, rings.last(), c)
    }
}

/// Fills each ring of `buildings`, projected through `f`, with `c`, in order.
pub fn draw_buildings(img: &mut Canvas, buildings: &Vec<Vec<Coord>>, f: &Frame, c: Color)
    requires
        f.bbox.wf(),
        canvas_dims(*old(img)).0 <= i32::MAX,
        canvas_dims(*old(img)).1 <= i32::MAX,
    ensures
        canvas_dims(*final(img)) == canvas_dims(*old(img)),
        agree(
            canvas_dims(*old(img)),
            canvas_pixels(*final(img)),
            rings_filled(canvas_pixels(*old(img)), canvas_dims(*old(img)), *f, ways_view(buildings), c),
        ),
{
    let ghost rs = ways_view(buildings);
    let ghost m0 = canvas_pixels(*img);
    let ghost dims = canvas_dims(*img);
    let mut i: usize = 0;
    while i < buildings.len()
        invariant
            rs == ways_view(buildings),
            i <= buildings.len(),
            f.bbox.wf(),
            canvas_dims(*img) == dims,
            dims.0 <= i32::MAX,
            dims.1 <= i32::MAX,
            agree(dims, canvas_pixels(*img), rings_filled(m0, dims, *f, rs.take(i as int), c)),
        decreases buildings.len() - i,
    {
        assert(rs.take(i as int + 1).drop_last() =~= rs.take(i as int));
        let ghost cur = canvas_pixels(*img);
        fill_ring(img, &buildings[i], f, c);
        proof {
            lemma_ring_agree(dims, cur, rings_filled(m0, dims, *f, rs.take(i as int), c), *f, rs[i as int], c);
        }
        i = i + 1;
    }
    assert(rs.take(i as int) =~= rs);
}

/// The color of ring `i` of a multipolygon of color `base`: `30 * i`, modulo
/// 255, added to each color channel, modulo 255; the alpha channel is kept.
pub open spec fn ring_color(base: Color, i: int) -> Color {
    let adj = (30 * i) % 255;
    Color {
        r: ((base.r + adj) % 255) as u8,
        g: ((base.g + adj) % 255) as u8,
        b: ((base.b + adj) % 255) as u8,
        a: base.a,
    }
}

/// The color of ring `i` of a multipolygon of color `base`.
pub fn adjusted_color(base: Color, i: usize) -> (r: Color)
    ensures
        r == ring_color(base, i as int),
{
    let adj: u16 = (30 * (i % 255) as u16) % 255;
    proof {
        vstd::arithmetic::div_mod::lemma_mul_mod_noop_right(30, i as int, 255);
    }
    Color {
        r: ((base.r as u16 + adj) % 255) as u8,
        g: ((base.g as u16 + adj) % 255) as u8,
        b: ((base.b as u16 + adj) % 255) as u8,
        a: base.a,
    }
}

/// The pixels `m` after the first `n` rings of the multipolygon `rings` are
/// filled, ring `i` with `ring_color(base, i)`.
pub open spec fn multipolygon_filled(
    m: Map<(int, int), Color>,
    dims: (u32, u32),
    f: Frame,
    rings: Seq<Seq<Coord>>,
    base: Color,
    n: int,
) -> Map<(int, int), Color>
    decreases n,
{
    if n <= 0 {
        m
    } else {
        ring_filled(
            multipolygon_filled(m, dims, f, rings, base, n - 1),
            dims,
            f,
            rings[n - 1],
            ring_color(base, n - 1),
        )
    }
}

/// The pixels `m` after each multipolygon of `mps` is filled, in order.
pub open spec fn multipolygons_filled(
    m: Map<(int, int), Color>,
    dims: (u32, u32),
    f: Frame,
    mps: Seq<Seq<Seq<Coord>>>,
    base: Color,
) -> Map<(int, int), Color>
    decreases mps.len(),
{
    if mps.len() == 0 {
        m
    } else {
        multipolygon_filled(
            multipolygons_filled(m, dims, f, mps.drop_last(), base),
            dims,
            f,
            mps.last(),
            base,
            mps.last().len() as int,
        )
    }
}

/// The multipolygons held by `mps`, as sequences of rings.
pub open spec fn multipolygons_view(mps: &Vec<Vec<Vec<Coord>>>) -> Seq<Seq<Seq<Coord>>> {
    mps@.map_values(|mp: Vec<Vec<Coord>>| mp@.map_values(|w: Vec<Coord>| w@))
}

/// Fills each ring of each multipolygon of `mps`, projected through `f`: ring
/// `i` of a multipolygon with `ring_color(base, i)`, so that nested rings stay
/// apart.
pub fn draw_multipolygons(img: &mut Canvas, mps: &Vec<Vec<Vec<Coord>>>, f: &Frame, base: Color)
    requires
        f.bbox.wf(),
        canvas_dims(*old(img)).0 <= i32::MAX,
        canvas_dims(*old(img)).1 <= i32::MAX,
    ensures
        canvas_dims(*final(img)) == canvas_dims(*old(img)),
        agree(
            canvas_dims(*old(img)),
            canvas_pixels(*final(img)),
            multipolygons_filled(canvas_pixels(*old(img)), canvas_dims(*old(img)), *f, multipolygons_view(mps), base),
        ),
{
    let ghost ms = multipolygons_view(mps);
    let ghost m0 = canvas_pixels(*img);
    let ghost dims = canvas_dims(*img);
    let mut k: usize = 0;
    while k < mps.len()
        invariant
            ms == multipolygons_view(mps),
            k <= mps.len(),
            f.bbox.wf(),
            canvas_dims(*img) == dims,
            dims.0 <= i32::MAX,
            dims.1 <= i32::MAX,
            agree(dims, canvas_pixels(*img), multipolygons_filled(m0, dims, *f, ms.take(k as int), base)),
        decreases mps.len() - k,
    {
        assert(ms.take(k as int + 1).drop_last() =~= ms.take(k as int));
        let mp = &mps[k];
        let ghost done = multipolygons_filled(m0, dims, *f, ms.take(k as int), base);
        let ghost rings = ms[k as int];
        let mut i: usize = 0;
        while i < mp.len()
            invariant
                ms == multipolygons_view(mps),
                k < mps.len(),
                rings == ms[k as int],
                rings.len() == mp@.len(),
                forall|j: int| 0 <= j < mp@.len() ==> #[trigger] rings[j] == mp@[j]@,
                i <= mp.len(),
                f.bbox.wf(),
                canvas_dims(*img) == dims,
            dims.0 <= i32::MAX,
            dims.1 <= i32::MAX,
                agree(dims, canvas_pixels(*img), multipolygon_filled(done, dims, *f, rings, base, i as int)),
            decreases mp.len() - i,
        {
            let c = adjusted_color(base, i);
            let ghost cur = canvas_pixels(*img);
            fill_ring(img, &mp[i], f, c);
            proof {
                lemma_ring_agree(dims, cur, multipolygon_filled(done, dims, *f, rings, base, i as int), *f, rings[i as int], c);
            }
            i = i + 1;
        }
        k = k + 1;
    }
    assert(ms.take(k as int) =~= ms);
}

/// Drawing the lines of `segs` on two images that agree leaves them agreeing.
pub(crate) proof fn lemma_segments_agree(dims: (u32, u32), m1: Map<(int, int), Color>, m2: Map<(int, int), Color>, f: Frame, segs: Seq<(Coord, Coord)>, c: Color)
    requires
        agree(dims, m1, m2),
    ensures
        agree(dims, segments_drawn(m1, f, segs, c), segments_drawn(m2, f, segs, c)),
    decreases segs.len(),
{
    if segs.len() > 0 {
        lemma_segments_agree(dims, m1, m2, f, segs.drop_last(), c);
        let p = pixel_of(f, segs.last().0);
        let q = pixel_of(f, segs.last().1);
        lemma_line_agree(dims, segments_drawn(m1, f, segs.drop_last(), c), segments_drawn(m2, f, segs.drop_last(), c), p.0, p.1, q.0, q.1, c);
    }
}

proof fn lemma_stroke_agree(dims: (u32, u32), m1: Map<(int, int), Color>, m2: Map<(int, int), Color>, p: (int, int), q: (int, int), t: int, n: int, c: Color)
    requires
        agree(dims, m1, m2),
    ensures
        agree(dims, stroke_drawn(m1, p, q, t, n, c), stroke_drawn(m2, p, q, t, n, c)),
    decreases n,
{
    if n > 0 {
        lemma_stroke_agree(dims, m1, m2, p, q, t, n - 1, c);
        let d = perp_offset(p.0, p.1, q.0, q.1, -t + n - 1);
        lemma_line_agree(dims, stroke_drawn(m1, p, q, t, n - 1, c), stroke_drawn(m2, p, q, t, n - 1, c), p.0 + d.0, p.1 + d.1, q.0 + d.0, q.1 + d.1, c);
    }
}

/// Drawing a route on two images that agree leaves them agreeing.
pub(crate) proof fn lemma_path_agree(dims: (u32, u32), m1: Map<(int, int), Color>, m2: Map<(int, int), Color>, f: Frame, pts: Seq<Coord>, t: int, c: Color)
    requires
        agree(dims, m1, m2),
    ensures
        agree(dims, path_drawn(m1, f, pts, t, c), path_drawn(m2, f, pts, t, c)),
    decreases pts.len(),
{
    if pts.len() >= 2 {
        lemma_path_agree(dims, m1, m2, f, pts.drop_last(), t, c);
        let p = pixel_of(f, pts[pts.len() - 2]);
        let q = pixel_of(f, pts.last());
        lemma_stroke_agree(dims, path_drawn(m1, f, pts.drop_last(), t, c), path_drawn(m2, f, pts.drop_last(), t, c), p, q, t, 2 * t + 1, c);
    }
}

/// Filling rings on two images that agree leaves them agreeing.
pub(crate) proof fn lemma_rings_agree(dims: (u32, u32), m1: Map<(int, int), Color>, m2: Map<(int, int), Color>, f: Frame, rings: Seq<Seq<Coord>>, c: Color)
    requires
        agree(dims, m1, m2),
    ensures
        agree(dims, rings_filled(m1, dims, f, rings, c), rings_filled(m2, dims, f, rings, c)),
    decreases rings.len(),
{
    if rings.len() > 0 {
        lemma_rings_agree(dims, m1, m2, f, rings.drop_last(), c);
        lemma_ring_agree(dims, rings_filled(m1, dims, f, rings.drop_last(), c), rings_filled(m2, dims, f, rings.drop_last(), c), f, rings.last(), c);
    }
}

proof fn lemma_multipolygon_agree(dims: (u32, u32), m1: Map<(int, int), Color>, m2: Map<(int, int), Color>, f: Frame, rings: Seq<Seq<Coord>>, base: Color, n: int)
    requires
        agree(dims, m1, m2),
    ensures
        agree(dims, multipolygon_filled(m1, dims, f, rings, base, n), multipolygon_filled(m2, dims, f, rings, base, n)),
    decreases n,
{
    if n > 0 {
        lemma_multipolygon_agree(dims, m1, m2, f, rings, base, n - 1);
        lemma_ring_agree(dims, multipolygon_filled(m1, dims, f, rings, base, n - 1), multipolygon_filled(m2, dims, f, rings, base, n - 1), f, rings[n - 1], ring_color(base, n - 1));
    }
}

/// Filling multipolygons on two images that agree leaves them agreeing.
pub(crate) proof fn lemma_multipolygons_agree(dims: (u32, u32), m1: Map<(int, int), Color>, m2: Map<(int, int), Color>, f: Frame, mps: Seq<Seq<Seq<Coord>>>, base: Color)
    requires
        agree(dims, m1, m2),
    ensures
        agree(dims, multipolygons_filled(m1, dims, f, mps, base), multipolygons_filled(m2, dims, f, mps, base)),
    decreases mps.len(),
{
    if mps.len() > 0 {
        lemma_multipolygons_agree(dims, m1, m2, f, mps.drop_last(), base);
        lemma_multipolygon_agree(dims, multipolygons_filled(m1, dims, f, mps.drop_last(), base), multipolygons_filled(m2, dims, f, mps.drop_last(), base), f, mps.last(), base, mps.last().len() as int);
    }
}

/// `g` draws the point `p` at `(ox, oy)` pixels down and to the right of
/// where `f` draws it.
pub open spec fn offset_frames(f: Frame, g: Frame, ox: int, oy: int, p: Coord) -> bool {
    pixel_of(f, p) == (pixel_of(g, p).0 - ox, pixel_of(g, p).1 - oy)
}

/// Both ends of every segment of `ways` are points of `ways`.
pub proof fn lemma_segment_points(ways: Seq<Seq<Coord>>, k: int)
    requires
        0 <= k < segments(ways).len(),
    ensures
        crate::projector::on_ways(ways, segments(ways)[k].0),
        crate::projector::on_ways(ways, segments(ways)[k].1),
    decreases ways.len(),
{
    let prev = segments(ways.drop_last());
    let n = ways.len() - 1;
    if k < prev.len() {
        lemma_segment_points(ways.drop_last(), k);
        assert(segments(ways)[k] == prev[k]);
        let (w, i) = choose|w: int, i: int| 0 <= w < ways.drop_last().len() && 0 <= i < ways.drop_last()[w].len() && #[trigger] ways.drop_last()[w][i] == prev[k].0;
        assert(ways[w][i] == prev[k].0);
        let (v, j) = choose|w: int, i: int| 0 <= w < ways.drop_last().len() && 0 <= i < ways.drop_last()[w].len() && #[trigger] ways.drop_last()[w][i] == prev[k].1;
        assert(ways[v][j] == prev[k].1);
    } else {
        let i = k - prev.len();
        assert(segments(ways)[k] == (ways[n][i], ways[n][i + 1]));
    }
}

/// Drawing segments through a frame offset by `(ox, oy)` on an image moved
/// by that offset gives the drawing through the first frame, moved.
pub proof fn lemma_segments_shift(m: Map<(int, int), Color>, f: Frame, g: Frame, segs: Seq<(Coord, Coord)>, c: Color, ox: int, oy: int)
    requires
        forall|k: int|
            0 <= k < segs.len() ==> offset_frames(f, g, ox, oy, (#[trigger] segs[k]).0) && offset_frames(
                f,
                g,
                ox,
                oy,
                segs[k].1,
            ),
    ensures
        segments_drawn(shifted(m, ox, oy), f, segs, c) == shifted(segments_drawn(m, g, segs, c), ox, oy),
    decreases segs.len(),
{
    if segs.len() > 0 {
        assert forall|k: int| 0 <= k < segs.drop_last().len() implies offset_frames(f, g, ox, oy, (#[trigger] segs.drop_last()[k]).0)
            && offset_frames(f, g, ox, oy, segs.drop_last()[k].1) by {
            assert(segs.drop_last()[k] == segs[k]);
        }
        lemma_segments_shift(m, f, g, segs.drop_last(), c, ox, oy);
        let last = segs[segs.len() - 1];
        let p = pixel_of(g, last.0);
        let q = pixel_of(g, last.1);
        lemma_line_shift(segments_drawn(m, g, segs.drop_last(), c), p.0, p.1, q.0, q.1, c, ox, oy);
    }
}

proof fn lemma_stroke_shift(m: Map<(int, int), Color>, p: (int, int), q: (int, int), t: int, n: int, c: Color, ox: int, oy: int)
    ensures
        stroke_drawn(shifted(m, ox, oy), (p.0 - ox, p.1 - oy), (q.0 - ox, q.1 - oy), t, n, c) == shifted(
            stroke_drawn(m, p, q, t, n, c),
            ox,
            oy,
        ),
    decreases n,
{
    if n > 0 {
        lemma_stroke_shift(m, p, q, t, n - 1, c, ox, oy);
        let d = perp_offset(p.0, p.1, q.0, q.1, -t + n - 1);
        assert(perp_offset(p.0 - ox, p.1 - oy, q.0 - ox, q.1 - oy, -t + n - 1) == d);
        lemma_line_shift(stroke_drawn(m, p, q, t, n - 1, c), p.0 + d.0, p.1 + d.1, q.0 + d.0, q.1 + d.1, c, ox, oy);
    }
}

/// Drawing a route through a frame offset by `(ox, oy)` on an image moved by
/// that offset gives the drawing through the first frame, moved.
pub proof fn lemma_path_shift(m: Map<(int, int), Color>, f: Frame, g: Frame, pts: Seq<Coord>, t: int, c: Color, ox: int, oy: int)
    requires
        forall|k: int| 0 <= k < pts.len() ==> offset_frames(f, g, ox, oy, #[trigger] pts[k]),
    ensures
        path_drawn(shifted(m, ox, oy), f, pts, t, c) == shifted(path_drawn(m, g, pts, t, c), ox, oy),
    decreases pts.len(),
{
    if pts.len() >= 2 {
        assert forall|k: int| 0 <= k < pts.drop_last().len() implies offset_frames(f, g, ox, oy, #[trigger] pts.drop_last()[k]) by {
            assert(pts.drop_last()[k] == pts[k]);
        }
        lemma_path_shift(m, f, g, pts.drop_last(), t, c, ox, oy);
        assert(offset_frames(f, g, ox, oy, pts[pts.len() - 2]));
        assert(offset_frames(f, g, ox, oy, pts[pts.len() - 1]));
        let p = pixel_of(g, pts[pts.len() - 2]);
        let q = pixel_of(g, pts.last());
        lemma_stroke_shift(path_drawn(m, g, pts.drop_last(), t, c), p, q, t, 2 * t + 1, c, ox, oy);
    }
}

} // verus!
