use vstd::prelude::*;

use crate::coord::Coord;

verus! {

/// A geographic box: the least and greatest longitude and latitude.
#[derive(Clone, Copy, Debug, PartialEq, Eq, Structural)]
pub struct BBox {
    pub min_lon: i32,
    pub min_lat: i32,
    pub max_lon: i32,
    pub max_lat: i32,
}

impl BBox {
    /// The box spans a positive distance in both directions.
    pub open spec fn wf(&self) -> bool {
        self.min_lon < self.max_lon && self.min_lat < self.max_lat
    }

    /// True when the box has a positive span in both directions, so that
    /// points can be projected through it.
    pub fn has_area(&self) -> (r: bool)
        ensures
            r == self.wf(),
    {
        self.min_lon < self.max_lon && self.min_lat < self.max_lat
    }
}

/// `p` is a point of one of the polylines of `ways`.
pub open spec fn on_ways(ways: Seq<Seq<Coord>>, p: Coord) -> bool {
    exists|w: int, i: int| 0 <= w < ways.len() && 0 <= i < ways[w].len() && #[trigger] ways[w][i] == p
}

/// The points of the polylines of `ways`.
pub open spec fn points_of(ways: Seq<Seq<Coord>>) -> Set<Coord> {
    Set::new(|p: Coord| on_ways(ways, p))
}

/// `b` is the least box around the points `s`: every one of them lies in it
/// and each of its four sides passes through one of them.
pub open spec fn is_bounds(s: Set<Coord>, b: BBox) -> bool {
    &&& forall|p: Coord|
        #[trigger] s.contains(p) ==> b.min_lon <= p.lon <= b.max_lon && b.min_lat <= p.lat <= b.max_lat
    &&& exists|p: Coord| #[trigger] s.contains(p) && p.lon == b.min_lon
    &&& exists|p: Coord| #[trigger] s.contains(p) && p.lon == b.max_lon
    &&& exists|p: Coord| #[trigger] s.contains(p) && p.lat == b.min_lat
    &&& exists|p: Coord| #[trigger] s.contains(p) && p.lat == b.max_lat
}

/// The bounds of `s` (`None` when `s` is empty) widened to take in `p`.
fn add_point(acc: Option<BBox>, p: Coord, Ghost(s): Ghost<Set<Coord>>) -> (r: Option<BBox>)
    requires
        acc matches Some(b) ==> is_bounds(s, b),
        acc is None ==> s =~= Set::empty(),
    ensures
        r matches Some(b) && is_bounds(s.insert(p), b),
{
    let r = match acc {
        None => BBox { min_lon: p.lon, min_lat: p.lat, max_lon: p.lon, max_lat: p.lat },
        Some(b) => BBox {
            min_lon: if p.lon < b.min_lon { p.lon } else { b.min_lon },
            min_lat: if p.lat < b.min_lat { p.lat } else { b.min_lat },
            max_lon: if p.lon > b.max_lon { p.lon } else { b.max_lon },
            max_lat: if p.lat > b.max_lat { p.lat } else { b.max_lat },
        },
    };
    proof {
    let t = s.insert(p);
    assert(t.contains(p));
    if let Some(b) = acc {
        assert forall|q: Coord| #[trigger] t.contains(q) implies r.min_lon <= q.lon <= r.max_lon
            && r.min_lat <= q.lat <= r.max_lat by {
            if q != p {
                assert(s.contains(q));
            }
        }
        let q1 = choose|q: Coord| #[trigger] s.contains(q) && q.lon == b.min_lon;
        let q2 = choose|q: Coord| #[trigger] s.contains(q) && q.lon == b.max_lon;
        let q3 = choose|q: Coord| #[trigger] s.contains(q) && q.lat == b.min_lat;
        let q4 = choose|q: Coord| #[trigger] s.contains(q) && q.lat == b.max_lat;
        assert(t.contains(q1) && t.contains(q2) && t.contains(q3) && t.contains(q4));
    } else {
        assert forall|q: Coord| #[trigger] t.contains(q) implies q == p by {
            assert(!s.contains(q));
        }
    }
    }
    Some(r)
}

/// Widens `acc`, the bounds of the points `s` (`None` when there is none), to
/// take in every point of `ways` too.
fn extend_bounds(acc: Option<BBox>, ways: &Vec<Vec<Coord>>, Ghost(s): Ghost<Set<Coord>>) -> (r: Option<BBox>)
    requires
        acc matches Some(b) ==> is_bounds(s, b),
        acc is None ==> s =~= Set::empty(),
    ensures
        r matches Some(b) ==> is_bounds(s + points_of(crate::graph::ways_view(ways)), b),
        r is None ==> s + points_of(crate::graph::ways_view(ways)) =~= Set::empty(),
{
    let ghost wv = crate::graph::ways_view(ways);
    let mut cur = acc;
    let mut w: usize = 0;
    assert(points_of(wv.take(0)) =~= Set::empty());
    assert(s + points_of(wv.take(0)) =~= s);
    while w < ways.len()
        invariant
            wv == crate::graph::ways_view(ways),
            w <= ways.len(),
            cur matches Some(b) ==> is_bounds(s + points_of(wv.take(w as int)), b),
            cur is None ==> s + points_of(wv.take(w as int)) =~= Set::empty(),
        decreases ways.len() - w,
    {
        let way = &ways[w];
        let ghost base = s + points_of(wv.take(w as int));
        let mut i: usize = 0;
        assert(way@.take(0).to_set() =~= Set::empty());
        assert(base + way@.take(0).to_set() =~= base);
        while i < way.len()
            invariant
                wv == crate::graph::ways_view(ways),
                w < ways.len(),
                way@ == wv[w as int],
                i <= way.len(),
                base == s + points_of(wv.take(w as int)),
                cur matches Some(b) ==> is_bounds(base + way@.take(i as int).to_set(), b),
                cur is None ==> base + way@.take(i as int).to_set() =~= Set::empty(),
            decreases way.len() - i,
        {
            let ghost seen = base + way@.take(i as int).to_set();
            assert(base + way@.take(i as int + 1).to_set() =~= seen.insert(way@[i as int])) by {
                assert(way@.take(i as int + 1) =~= way@.take(i as int).push(way@[i as int]));
                way@.take(i as int).lemma_push_to_set_commute(way@[i as int]);
            }
            cur = add_point(cur, way[i], Ghost(seen));
            i = i + 1;
        }
        proof {
            let t = wv.take(w as int + 1);
            assert(way@.take(i as int) =~= way@);
            assert forall|q: Coord| #[trigger] points_of(t).contains(q) == (points_of(wv.take(w as int)).contains(q) || way@.to_set().contains(q)) by {
                if way@.contains(q) {
                    let j = choose|j: int| 0 <= j < way@.len() && way@[j] == q;
                    assert(t[w as int][j] == q);
                }
                if on_ways(wv.take(w as int), q) {
                    let (v, j) = choose|v: int, j: int| 0 <= v < wv.take(w as int).len() && 0 <= j < wv.take(w as int)[v].len() && #[trigger] wv.take(w as int)[v][j] == q;
                    assert(t[v][j] == q);
                }
                if on_ways(t, q) {
                    let (v, j) = choose|v: int, j: int| 0 <= v < t.len() && 0 <= j < t[v].len() && #[trigger] t[v][j] == q;
                    if v < w {
                        assert(wv.take(w as int)[v][j] == q);
                    } else {
                        assert(way@[j] == q);
                    }
                }
            }
            assert(base + way@.to_set() =~= s + points_of(t));
        }
        w = w + 1;
    }
    assert(wv.take(w as int) =~= wv);
    cur
}

/// The points of all polylines of all groups.
pub open spec fn group_points(groups: Seq<&Vec<Vec<Coord>>>) -> Set<Coord>
    decreases groups.len(),
{
    if groups.len() == 0 {
        Set::empty()
    } else {
        group_points(groups.drop_last()) + points_of(crate::graph::ways_view(groups.last()))
    }
}

/// The least box around every point of every polyline of `groups`; `None`
/// when they hold no point.
pub fn calculate_bounding_box(groups: &[&Vec<Vec<Coord>>]) -> (r: Option<BBox>)
    ensures
        r matches Some(b) ==> is_bounds(group_points(groups@), b),
        r is None <==> group_points(groups@) =~= Set::empty(),
{
    let mut cur: Option<BBox> = None;
    let mut g: usize = 0;
    while g < groups.len()
        invariant
            g <= groups@.len(),
            cur matches Some(b) ==> is_bounds(group_points(groups@.take(g as int)), b),
            cur is None ==> group_points(groups@.take(g as int)) =~= Set::empty(),
        decreases groups@.len() - g,
    {
        assert(groups@.take(g as int + 1).drop_last() =~= groups@.take(g as int));
        cur = extend_bounds(cur, groups[g], Ghost(group_points(groups@.take(g as int))));
        g = g + 1;
    }
    assert(groups@.take(g as int) =~= groups@);
    proof {
        if let Some(b) = cur {
            let p = choose|p: Coord| #[trigger] group_points(groups@).contains(p) && p.lon == b.min_lon;
            assert(group_points(groups@).contains(p));
        }
    }
    cur
}

/// The value `v` held to the range of `i32`.
pub open spec fn clamp_i32(v: int) -> int {
    if v < i32::MIN {
        i32::MIN as int
    } else if v > i32::MAX {
        i32::MAX as int
    } else {
        v
    }
}

/// Where a box is drawn: the geographic box `bbox` spans a square canvas of
/// `size` pixels a side, of which the image at hand shows the part whose top
/// left pixel is `(left, top)` on that canvas.
#[derive(Clone, Copy, Debug, PartialEq, Eq, Structural)]
pub struct Frame {
    pub bbox: BBox,
    pub size: u32,
    pub left: u32,
    pub top: u32,
}

/// The pixel of `c` in the frame `f`: longitudes and latitudes are scaled
/// linearly over the box, latitude growing upwards, and rounded down; the
/// result is held to the range of `i32`. Points outside the box land outside
/// the canvas.
pub open spec fn pixel_of(f: Frame, c: Coord) -> (int, int) {
    let b = f.bbox;
    (
        clamp_i32((c.lon - b.min_lon) * f.size / (b.max_lon - b.min_lon) - f.left),
        clamp_i32((b.max_lat - c.lat) * f.size / (b.max_lat - b.min_lat) - f.top),
    )
}

pub(crate) fn floor_div(n: i128, d: i128) -> (r: i128)
    requires
        d > 0,
        n > i128::MIN,
    ensures
        r == n as int / d as int,
{
    if n >= 0 {
        n / d
    } else {
        let q = (-n) / d;
        let m = (-n) % d;
        assert((-n) as int == d * q + m) by (nonlinear_arith)
            requires q == (-n) as int / d as int, m == (-n) as int % d as int, d > 0;
        if m == 0 {
            assert(n as int == d * (-q)) by (nonlinear_arith)
                requires (-n) as int == d * q + m, m == 0;
            proof {
                vstd::arithmetic::div_mod::lemma_div_multiples_vanish(-q as int, d as int);
            }
            -q
        } else {
            assert(n as int == d * (-q - 1) + (d - m)) by (nonlinear_arith)
                requires (-n) as int == d * q + m;
            proof {
                vstd::arithmetic::div_mod::lemma_fundamental_div_mod_converse(
                    n as int,
                    d as int,
                    -q - 1,
                    d - m,
                );
            }
            -q - 1
        }
    }
}

pub(crate) proof fn lemma_div_bound(n: int, d: int, k: int)
    requires
        d >= 1,
        k >= 0,
        -k <= n <= k,
    ensures
        -k <= n / d <= k,
{
    let q = n / d;
    let r = n % d;
    vstd::arithmetic::div_mod::lemma_fundamental_div_mod(n, d);
    assert(-k <= q <= k) by (nonlinear_arith)
        requires
            n == d * q + r,
            0 <= r < d,
            d >= 1,
            k >= 0,
            -k <= n <= k,
    ;
}

fn clamp(v: i128) -> (r: i32)
    ensures
        r == clamp_i32(v as int),
{
    if v < i32::MIN as i128 {
        i32::MIN
    } else if v > i32::MAX as i128 {
        i32::MAX
    } else {
        v as i32
    }
}

/// The pixel of `c` in the frame `f`.
pub fn project(c: Coord, f: &Frame) -> (r: (i32, i32))
    requires
        f.bbox.wf(),
    ensures
        (r.0 as int, r.1 as int) == pixel_of(*f, c),
{
    let b = f.bbox;
    let ex = c.lon as i128 - b.min_lon as i128;
    let ey = b.max_lat as i128 - c.lat as i128;
    assert(-0x1_0000_0000 * 0x1_0000_0000 <= ex * f.size <= 0x1_0000_0000 * 0x1_0000_0000)
        by (nonlinear_arith)
        requires
            -0x1_0000_0000 <= ex <= 0x1_0000_0000,
            0 <= f.size <= 0x1_0000_0000,
    ;
    assert(-0x1_0000_0000 * 0x1_0000_0000 <= ey * f.size <= 0x1_0000_0000 * 0x1_0000_0000)
        by (nonlinear_arith)
        requires
            -0x1_0000_0000 <= ey <= 0x1_0000_0000,
            0 <= f.size <= 0x1_0000_0000,
    ;
    let dx = ex * f.size as i128;
    let dy = ey * f.size as i128;
    let qx = floor_div(dx, b.max_lon as i128 - b.min_lon as i128);
    let qy = floor_div(dy, b.max_lat as i128 - b.min_lat as i128);
    proof {
        lemma_div_bound(dx as int, (b.max_lon - b.min_lon) as int, 0x1_0000_0000_0000_0000);
        lemma_div_bound(dy as int, (b.max_lat - b.min_lat) as int, 0x1_0000_0000_0000_0000);
    }
    (clamp(qx - f.left as i128), clamp(qy - f.top as i128))
}

/// The whole canvas of `img_size` pixels a side over `bbox`.
pub open spec fn full_frame(bbox: BBox, img_size: u32) -> Frame {
    Frame { bbox, size: img_size, left: 0, top: 0 }
}

/// The pixel of `c` on a canvas of `img_size` pixels a side that spans
/// `bbox`: `x` grows with longitude from the box's west side, `y` grows
/// southwards from its north side.
pub fn lon_lat_to_pixel(c: Coord, bbox: &BBox, img_size: u32) -> (r: (i32, i32))
    requires
        bbox.wf(),
    ensures
        (r.0 as int, r.1 as int) == pixel_of(full_frame(*bbox, img_size), c),
{
    project(c, &Frame { bbox: *bbox, size: img_size, left: 0, top: 0 })
}

/// The box's south-west corner lands on the canvas's bottom-left corner
/// `(0, img_size)` and its north-east corner on the top-right corner
/// `(img_size, 0)`.
pub proof fn lemma_corners(bbox: BBox, img_size: u32)
    requires
        bbox.wf(),
        img_size <= i32::MAX,
    ensures
        pixel_of(full_frame(bbox, img_size), Coord { lon: bbox.min_lon, lat: bbox.min_lat }) == (
            0int,
            img_size as int,
        ),
        pixel_of(full_frame(bbox, img_size), Coord { lon: bbox.max_lon, lat: bbox.max_lat }) == (
            img_size as int,
            0int,
        ),
{
    let dx = bbox.max_lon - bbox.min_lon;
    let dy = bbox.max_lat - bbox.min_lat;
    vstd::arithmetic::div_mod::lemma_div_multiples_vanish(img_size as int, dx as int);
    vstd::arithmetic::div_mod::lemma_div_multiples_vanish(img_size as int, dy as int);
    assert(dx * img_size == img_size * dx) by (nonlinear_arith);
    assert(dy * img_size == img_size * dy) by (nonlinear_arith);
    assert((dx * img_size) / dx == img_size as int);
    assert((dy * img_size) / dy == img_size as int);
    assert((0 * img_size as int) / dx as int == 0);
    assert((0 * img_size as int) / dy as int == 0);
    let f = full_frame(bbox, img_size);
    let lo = Coord { lon: bbox.min_lon, lat: bbox.min_lat };
    let hi = Coord { lon: bbox.max_lon, lat: bbox.max_lat };
    assert((lo.lon - bbox.min_lon) * f.size == 0 * img_size as int);
    assert((bbox.max_lat - lo.lat) * f.size == dy * img_size);
    assert((hi.lon - bbox.min_lon) * f.size == dx * img_size);
    assert((bbox.max_lat - hi.lat) * f.size == 0 * img_size as int);
}

/// `c` lies in the box `b`, sides included.
pub open spec fn in_box(b: BBox, c: Coord) -> bool {
    b.min_lon <= c.lon <= b.max_lon && b.min_lat <= c.lat <= b.max_lat
}

proof fn lemma_scaled_in_range(n: int, range: int, size: int)
    requires
        range > 0,
        size >= 0,
        0 <= n <= range * size,
    ensures
        0 <= n / range <= size,
{
    assert(range * size == size * range) by (nonlinear_arith);
    vstd::arithmetic::div_mod::lemma_div_is_ordered(0, n, range);
    vstd::arithmetic::div_mod::lemma_div_is_ordered(n, size * range, range);
    vstd::arithmetic::div_mod::lemma_div_multiples_vanish(size, range);
}

/// A point of the box lands, in a frame whose image starts at `(left, top)`,
/// exactly `(left, top)` up and to the left of where it lands on the whole
/// canvas.
pub proof fn lemma_frame_offset(b: BBox, size: u32, left: u32, top: u32, c: Coord)
    requires
        b.wf(),
        size <= i32::MAX,
        left <= size,
        top <= size,
        in_box(b, c),
    ensures
        pixel_of(Frame { bbox: b, size, left, top }, c) == (
            pixel_of(Frame { bbox: b, size, left: 0, top: 0 }, c).0 - left,
            pixel_of(Frame { bbox: b, size, left: 0, top: 0 }, c).1 - top,
        ),
{
    let rx = b.max_lon - b.min_lon;
    let ry = b.max_lat - b.min_lat;
    assert(0 <= (c.lon - b.min_lon) * size <= rx * size) by (nonlinear_arith)
        requires 0 <= c.lon - b.min_lon <= rx, size >= 0;
    assert(0 <= (b.max_lat - c.lat) * size <= ry * size) by (nonlinear_arith)
        requires 0 <= b.max_lat - c.lat <= ry, size >= 0;
    lemma_scaled_in_range((c.lon - b.min_lon) * size, rx as int, size as int);
    lemma_scaled_in_range((b.max_lat - c.lat) * size, ry as int, size as int);
}

} // verus!
