use vstd::prelude::*;

use crate::canvas::{agree, canvas_dims, canvas_pixels, in_bounds, Canvas, Color};
use crate::coord::Coord;
use crate::graph::{segments, ways_view};
use crate::layers::{
    draw_buildings, draw_multipolygons, draw_path, draw_ways, lemma_multipolygons_agree,
    lemma_path_agree, lemma_path_shift, lemma_rings_agree, lemma_segment_points,
    lemma_segments_agree, lemma_segments_shift, multipolygons_filled, multipolygons_view,
    offset_frames, path_drawn, rings_filled, segments_drawn,
};
use crate::projector::{
    calculate_bounding_box, group_points, in_box, is_bounds, lemma_frame_offset, on_ways, BBox,
    Frame,
};
use crate::raster::shifted;

verus! {

/// The number of tiles along each side of the grid.
pub const GRID: u32 = 20;

/// The number of pixels along each side of a tile.
pub const TILE_SIZE: u32 = 8192;

/// The half-width, in pixels, of the route's stroke.
pub const ROUTE_THICKNESS: i32 = 4;

/// The color of natural areas.
pub open spec fn natural_color() -> Color {
    Color { r: 0, g: 255, b: 0, a: 100 }
}

/// The color of multipolygons, before the shift of each ring.
pub open spec fn multipolygon_color() -> Color {
    Color { r: 128, g: 128, b: 128, a: 100 }
}

/// The color of buildings.
pub open spec fn building_color() -> Color {
    Color { r: 245, g: 245, b: 220, a: 255 }
}

/// The color of highways.
pub open spec fn highway_color() -> Color {
    Color { r: 255, g: 255, b: 255, a: 255 }
}

/// The color of waterways.
pub open spec fn waterway_color() -> Color {
    Color { r: 0, g: 0, b: 255, a: 255 }
}

/// The color of railways.
pub open spec fn railway_color() -> Color {
    Color { r: 255, g: 0, b: 0, a: 255 }
}

/// The color of the route.
pub open spec fn route_color() -> Color {
    Color { r: 0, g: 255, b: 0, a: 255 }
}

/// The map's features, each a list of polylines or rings, and the route.
pub struct Features {
    pub highways: Vec<Vec<Coord>>,
    pub waterways: Vec<Vec<Coord>>,
    pub railways: Vec<Vec<Coord>>,
    pub buildings: Vec<Vec<Coord>>,
    pub naturals: Vec<Vec<Coord>>,
    pub multipolygons: Vec<Vec<Vec<Coord>>>,
    pub path: Vec<Coord>,
}

/// The pixels `m`, of an image of size `dims`, after the map is drawn on
/// them through `f`, back to front: natural areas, multipolygons, buildings,
/// highways, waterways, railways, and the route on top.
pub open spec fn map_drawn(m: Map<(int, int), Color>, dims: (u32, u32), f: Frame, ft: &Features) -> Map<(int, int), Color> {
    let m1 = rings_filled(m, dims, f, ways_view(&ft.naturals), natural_color());
    let m2 = multipolygons_filled(m1, dims, f, multipolygons_view(&ft.multipolygons), multipolygon_color());
    let m3 = rings_filled(m2, dims, f, ways_view(&ft.buildings), building_color());
    let m4 = segments_drawn(m3, f, segments(ways_view(&ft.highways)), highway_color());
    let m5 = segments_drawn(m4, f, segments(ways_view(&ft.waterways)), waterway_color());
    let m6 = segments_drawn(m5, f, segments(ways_view(&ft.railways)), railway_color());
    path_drawn(m6, f, ft.path@, ROUTE_THICKNESS as int, route_color())
}

/// Draws the map on `img` through `f`, back to front: natural areas,
/// multipolygons, buildings, highways, waterways, railways, and the route on
/// top.
pub fn draw_features(img: &mut Canvas, ft: &Features, f: &Frame)
    requires
        f.bbox.wf(),
        canvas_dims(*old(img)).0 <= i32::MAX,
        canvas_dims(*old(img)).1 <= i32::MAX,
    ensures
        canvas_dims(*final(img)) == canvas_dims(*old(img)),
        agree(canvas_dims(*old(img)), canvas_pixels(*final(img)), map_drawn(canvas_pixels(*old(img)), canvas_dims(*old(img)), *f, ft)),
{
    let ghost dims = canvas_dims(*img);
    let ghost m0 = canvas_pixels(*img);
    let ghost m1 = rings_filled(m0, dims, *f, ways_view(&ft.naturals), natural_color());
    let ghost m2 = multipolygons_filled(m1, dims, *f, multipolygons_view(&ft.multipolygons), multipolygon_color());
    let ghost m3 = rings_filled(m2, dims, *f, ways_view(&ft.buildings), building_color());
    let ghost m4 = segments_drawn(m3, *f, segments(ways_view(&ft.highways)), highway_color());
    let ghost m5 = segments_drawn(m4, *f, segments(ways_view(&ft.waterways)), waterway_color());
    let ghost m6 = segments_drawn(m5, *f, segments(ways_view(&ft.railways)), railway_color());

    draw_buildings(img, &ft.naturals, f, Color { r: 0, g: 255, b: 0, a: 100 });
    let ghost c1 = canvas_pixels(*img);
    draw_multipolygons(img, &ft.multipolygons, f, Color { r: 128, g: 128, b: 128, a: 100 });
    proof {
        lemma_multipolygons_agree(dims, c1, m1, *f, multipolygons_view(&ft.multipolygons), multipolygon_color());
    }
    let ghost c2 = canvas_pixels(*img);
    draw_buildings(img, &ft.buildings, f, Color { r: 245, g: 245, b: 220, a: 255 });
    proof {
        lemma_rings_agree(dims, c2, m2, *f, ways_view(&ft.buildings), building_color());
    }
    let ghost c3 = canvas_pixels(*img);
    draw_ways(img, &ft.highways, f, Color { r: 255, g: 255, b: 255, a: 255 });
    proof {
        lemma_segments_agree(dims, c3, m3, *f, segments(ways_view(&ft.highways)), highway_color());
    }
    let ghost c4 = canvas_pixels(*img);
    draw_ways(img, &ft.waterways, f, Color { r: 0, g: 0, b: 255, a: 255 });
    proof {
        lemma_segments_agree(dims, c4, m4, *f, segments(ways_view(&ft.waterways)), waterway_color());
    }
    let ghost c5 = canvas_pixels(*img);
    draw_ways(img, &ft.railways, f, Color { r: 255, g: 0, b: 0, a: 255 });
    proof {
        lemma_segments_agree(dims, c5, m5, *f, segments(ways_view(&ft.railways)), railway_color());
    }
    let ghost c6 = canvas_pixels(*img);
    draw_path(img, &ft.path, f, Color { r: 0, g: 255, b: 0, a: 255 }, ROUTE_THICKNESS);
    proof {
        lemma_path_agree(dims, c6, m6, *f, ft.path@, ROUTE_THICKNESS as int, route_color());
    }
}

/// An image whose every pixel is transparent black, as a new image is.
pub open spec fn blank() -> Map<(int, int), Color> {
    Map::new(|p: (int, int)| true, |p: (int, int)| Color { r: 0, g: 0, b: 0, a: 0 })
}

/// The frame of tile `(tx, ty)` of a `grid` by `grid` partition of `bbox`
/// into tiles of `size` pixels a side. Tile row `ty = 0` is the southernmost,
/// so it shows the bottom band of the whole canvas.
pub open spec fn tile_frame(bbox: BBox, grid: u32, size: u32, tx: u32, ty: u32) -> Frame {
    Frame {
        bbox,
        size: (grid * size) as u32,
        left: (tx * size) as u32,
        top: ((grid - 1 - ty) * size) as u32,
    }
}

/// The arguments of a grid of `grid` by `grid` tiles of `size` pixels a side
/// whose whole canvas fits in memory.
pub open spec fn grid_fits(grid: u32, size: u32) -> bool {
    &&& 0 < grid
    &&& 0 < size
    &&& grid * size <= u32::MAX
    &&& 4 * (grid * size) * (grid * size) <= usize::MAX
}

proof fn lemma_grid_bounds(grid: u32, size: u32, tx: int, ty: int)
    requires
        grid_fits(grid, size),
        0 <= tx < grid,
        0 <= ty < grid,
    ensures
        tx * size + size <= grid * size,
        (grid - 1 - ty) * size + size <= grid * size,
        4 * size * size <= usize::MAX,
        tx * grid + ty < grid * grid,
{
    assert(tx * size + size <= grid * size) by (nonlinear_arith)
        requires 0 <= tx < grid, size > 0;
    assert((grid - 1 - ty) * size + size <= grid * size) by (nonlinear_arith)
        requires 0 <= ty < grid, size > 0;
    assert(4 * size * size <= 4 * (grid * size) * (grid * size)) by (nonlinear_arith)
        requires 0 < grid, 0 < size;
    assert(tx * grid + ty < grid * grid) by (nonlinear_arith)
        requires 0 <= tx < grid, 0 <= ty < grid;
}

/// Renders tile `(tx, ty)` of a `grid` by `grid` partition of `bbox`: a new
/// image of `size` pixels a side on which the map is drawn through the
/// tile's frame.
pub fn render_tile(ft: &Features, bbox: &BBox, grid: u32, size: u32, tx: u32, ty: u32) -> (r: Canvas)
    requires
        bbox.wf(),
        grid_fits(grid, size),
        tx < grid,
        ty < grid,
    ensures
        canvas_dims(r) == (size, size),
        agree((size, size), canvas_pixels(r), map_drawn(blank(), (size, size), tile_frame(*bbox, grid, size, tx, ty), ft)),
{
    proof {
        lemma_grid_bounds(grid, size, tx as int, ty as int);
        assert(usize::MAX <= 0xFFFF_FFFF_FFFF_FFFF);
        assert(size <= i32::MAX) by (nonlinear_arith)
            requires
                4 * size * size <= 0xFFFF_FFFF_FFFF_FFFF,
        ;
    }
    let f = Frame { bbox: *bbox, size: grid * size, left: tx * size, top: (grid - 1 - ty) * size };
    let mut img = crate::canvas::new_image(size, size);
    assert(agree((size, size), canvas_pixels(img), blank()));
    let ghost m0 = canvas_pixels(img);
    draw_features(&mut img, ft, &f);
    proof {
        lemma_map_agree((size, size), m0, blank(), f, ft);
    }
    img
}

/// Drawing the map on two images that agree leaves them agreeing.
proof fn lemma_map_agree(dims: (u32, u32), m1: Map<(int, int), Color>, m2: Map<(int, int), Color>, f: Frame, ft: &Features)
    requires
        agree(dims, m1, m2),
    ensures
        agree(dims, map_drawn(m1, dims, f, ft), map_drawn(m2, dims, f, ft)),
{
    let n1 = ways_view(&ft.naturals);
    lemma_rings_agree(dims, m1, m2, f, n1, natural_color());
    let a1 = rings_filled(m1, dims, f, n1, natural_color());
    let b1 = rings_filled(m2, dims, f, n1, natural_color());
    let mp = multipolygons_view(&ft.multipolygons);
    lemma_multipolygons_agree(dims, a1, b1, f, mp, multipolygon_color());
    let a2 = multipolygons_filled(a1, dims, f, mp, multipolygon_color());
    let b2 = multipolygons_filled(b1, dims, f, mp, multipolygon_color());
    let bd = ways_view(&ft.buildings);
    lemma_rings_agree(dims, a2, b2, f, bd, building_color());
    let a3 = rings_filled(a2, dims, f, bd, building_color());
    let b3 = rings_filled(b2, dims, f, bd, building_color());
    let hw = segments(ways_view(&ft.highways));
    lemma_segments_agree(dims, a3, b3, f, hw, highway_color());
    let a4 = segments_drawn(a3, f, hw, highway_color());
    let b4 = segments_drawn(b3, f, hw, highway_color());
    let ww = segments(ways_view(&ft.waterways));
    lemma_segments_agree(dims, a4, b4, f, ww, waterway_color());
    let a5 = segments_drawn(a4, f, ww, waterway_color());
    let b5 = segments_drawn(b4, f, ww, waterway_color());
    let rw = segments(ways_view(&ft.railways));
    lemma_segments_agree(dims, a5, b5, f, rw, railway_color());
    let a6 = segments_drawn(a5, f, rw, railway_color());
    let b6 = segments_drawn(b5, f, rw, railway_color());
    lemma_path_agree(dims, a6, b6, f, ft.path@, ROUTE_THICKNESS as int, route_color());
}

/// Copies every pixel of `tile` into `mosaic`, the tile's top left pixel
/// landing on `(ox, oy)`; the rest of `mosaic` is left as it was.
pub fn place_tile(mosaic: &mut Canvas, tile: &Canvas, ox: u32, oy: u32)
    requires
        ox + canvas_dims(*tile).0 <= canvas_dims(*old(mosaic)).0,
        oy + canvas_dims(*tile).1 <= canvas_dims(*old(mosaic)).1,
    ensures
        canvas_dims(*final(mosaic)) == canvas_dims(*old(mosaic)),
        forall|x: int, y: int|
            in_bounds(canvas_dims(*old(mosaic)), x, y) ==> #[trigger] canvas_pixels(*final(mosaic))[(x, y)] == if ox <= x
                < ox + canvas_dims(*tile).0 && oy <= y < oy + canvas_dims(*tile).1 {
                canvas_pixels(*tile)[(x - ox, y - oy)]
            } else {
                canvas_pixels(*old(mosaic))[(x, y)]
            },
{
    let ghost m0 = canvas_pixels(*mosaic);
    let ghost dims = canvas_dims(*mosaic);
    let (w, h) = crate::canvas::dimensions(tile);
    let mut tx: u32 = 0;
    while tx < w
        invariant
            tx <= w,
            (w, h) == canvas_dims(*tile),
            canvas_dims(*mosaic) == dims,
            ox + w <= dims.0,
            oy + h <= dims.1,
            forall|x: int, y: int|
                in_bounds(dims, x, y) ==> #[trigger] canvas_pixels(*mosaic)[(x, y)] == if ox <= x < ox + tx && oy <= y < oy + h {
                    canvas_pixels(*tile)[(x - ox, y - oy)]
                } else {
                    m0[(x, y)]
                },
        decreases w - tx,
    {
        let mut ty: u32 = 0;
        while ty < h
            invariant
                tx < w,
                ty <= h,
                (w, h) == canvas_dims(*tile),
                canvas_dims(*mosaic) == dims,
                ox + w <= dims.0,
                oy + h <= dims.1,
                forall|x: int, y: int|
                    in_bounds(dims, x, y) ==> #[trigger] canvas_pixels(*mosaic)[(x, y)] == if (ox <= x < ox + tx && oy <= y < oy + h)
                        || (x == ox + tx && oy <= y < oy + ty) {
                        canvas_pixels(*tile)[(x - ox, y - oy)]
                    } else {
                        m0[(x, y)]
                    },
            decreases h - ty,
        {
            let p = crate::canvas::get_pixel(tile, tx, ty);
            crate::canvas::put_pixel(mosaic, ox + tx, oy + ty, p);
            ty = ty + 1;
        }
        tx = tx + 1;
    }
}

proof fn lemma_block(a: int, b: int, s: int, u: int, v: int)
    requires
        s > 0,
        a >= 0,
        b >= 0,
        0 <= u < s,
        0 <= v < s,
        a * s + u == b * s + v,
    ensures
        a == b,
        u == v,
{
    if a < b {
        assert(a * s + u < b * s) by (nonlinear_arith)
            requires a < b, 0 <= u < s;
    }
    if b < a {
        assert(b * s + v < a * s) by (nonlinear_arith)
            requires b < a, 0 <= v < s;
    }
}

/// Tile `(tx, ty)` of a grid lies in `tiles` at index `tx * grid + ty`.
pub open spec fn tile_index(grid: u32, tx: int, ty: int) -> int {
    tx * grid + ty
}

/// Assembles the mosaic of a `grid` by `grid` set of tiles of `size` pixels a
/// side, tile `(tx, ty)` at index `tx * grid + ty` of `tiles`. Tile row 0 is the
/// southernmost, so tile `(tx, ty)` lands at `(tx * size, (grid - 1 - ty) * size)`.
pub fn stitch_tiles(tiles: &Vec<Canvas>, grid: u32, size: u32) -> (r: Canvas)
    requires
        grid_fits(grid, size),
        tiles@.len() == grid * grid,
        forall|i: int| 0 <= i < tiles@.len() ==> canvas_dims(#[trigger] tiles@[i]) == (size, size),
    ensures
        canvas_dims(r) == ((grid * size) as u32, (grid * size) as u32),
        forall|tx: int, ty: int, px: int, py: int|
            0 <= tx < grid && 0 <= ty < grid && 0 <= px < size && 0 <= py < size ==> #[trigger] canvas_pixels(r)[(
                tx * size + px,
                (grid - 1 - ty) * size + py,
            )] == #[trigger] canvas_pixels(tiles@[tile_index(grid, tx, ty)])[(px, py)],
{
    let n_tiles = tiles.len();
    let total = grid * size;
    let mut mosaic = crate::canvas::new_image(total, total);
    let ghost dims = (total, total);
    let mut tx: u32 = 0;
    while tx < grid
        invariant
            grid_fits(grid, size),
            total == grid * size,
            tiles@.len() == grid * grid,
            forall|i: int| 0 <= i < tiles@.len() ==> canvas_dims(#[trigger] tiles@[i]) == (size, size),
            tx <= grid,
            n_tiles == tiles@.len(),
            dims == (total, total),
            canvas_dims(mosaic) == dims,
            forall|a: int, b: int, px: int, py: int|
                0 <= a < tx && 0 <= b < grid && 0 <= px < size && 0 <= py < size ==> #[trigger] canvas_pixels(mosaic)[(
                    a * size + px,
                    (grid - 1 - b) * size + py,
                )] == #[trigger] canvas_pixels(tiles@[tile_index(grid, a, b)])[(px, py)],
        decreases grid - tx,
    {
        let mut ty: u32 = 0;
        while ty < grid
            invariant
                grid_fits(grid, size),
                total == grid * size,
                tiles@.len() == grid * grid,
                forall|i: int| 0 <= i < tiles@.len() ==> canvas_dims(#[trigger] tiles@[i]) == (size, size),
                tx < grid,
                ty <= grid,
                n_tiles == tiles@.len(),
                dims == (total, total),
                canvas_dims(mosaic) == dims,
                forall|a: int, b: int, px: int, py: int|
                    (0 <= a < tx && 0 <= b < grid || a == tx && 0 <= b < ty) && 0 <= px < size && 0 <= py < size
                        ==> #[trigger] canvas_pixels(mosaic)[(a * size + px, (grid - 1 - b) * size + py)]
                        == #[trigger] canvas_pixels(tiles@[tile_index(grid, a, b)])[(px, py)],
            decreases grid - ty,
        {
            proof {
                lemma_grid_bounds(grid, size, tx as int, ty as int);
            }
            assert(tx * grid + ty < n_tiles);
            let i = tx as usize * grid as usize + ty as usize;
            let ox = tx * size;
            let oy = (grid - 1 - ty) * size;
            let ghost before = canvas_pixels(mosaic);
            assert(canvas_dims(tiles@[i as int]) == (size, size));
            place_tile(&mut mosaic, &tiles[i], ox, oy);
            assert forall|a: int, b: int, px: int, py: int|
                (0 <= a < tx && 0 <= b < grid || a == tx && 0 <= b < ty + 1) && 0 <= px < size && 0 <= py < size
                    implies #[trigger] canvas_pixels(mosaic)[(a * size + px, (grid - 1 - b) * size + py)]
                    == #[trigger] canvas_pixels(tiles@[tile_index(grid, a, b)])[(px, py)] by {
                let x = a * size + px;
                let y = (grid - 1 - b) * size + py;
                lemma_grid_bounds(grid, size, a, b);
                assert(in_bounds(dims, x, y));
                if a == tx && b == ty {
                    assert(x - ox == px);
                    assert(y - oy == py);
                } else if ox <= x < ox + size && oy <= y < oy + size {
                    lemma_block(a, tx as int, size as int, px, x - ox);
                    lemma_block(grid - 1 - b, grid - 1 - ty, size as int, py, y - oy);
                }
            }
            ty = ty + 1;
        }
        tx = tx + 1;
    }
    mosaic
}

/// The box the map is drawn over: the least box around the highways,
/// waterways and railways. `None` when there is nothing to draw (no highway,
/// waterway, railway, building or multipolygon) or when that box has no area.
pub fn drawing_bounds(ft: &Features) -> (r: Option<BBox>)
    ensures
        ({
            let nothing = ft.highways@.len() == 0 && ft.waterways@.len() == 0 && ft.railways@.len() == 0
                && ft.buildings@.len() == 0 && ft.multipolygons@.len() == 0;
            let pts = group_points(seq![&ft.highways, &ft.waterways, &ft.railways]);
            match r {
                Some(b) => !nothing && b.wf() && is_bounds(pts, b),
                None => nothing || pts =~= Set::empty() || (exists|b: BBox| is_bounds(pts, b) && !b.wf()),
            }
        }),
{
    if ft.highways.len() == 0 && ft.waterways.len() == 0 && ft.railways.len() == 0 && ft.buildings.len() == 0
        && ft.multipolygons.len() == 0 {
        return None;
    }
    let groups = [&ft.highways, &ft.waterways, &ft.railways];
    assert(groups@ == seq![&ft.highways, &ft.waterways, &ft.railways]);
    match calculate_bounding_box(&groups) {
        Some(b) => {
            if b.has_area() {
                Some(b)
            } else {
                None
            }
        },
        None => None,
    }
}

/// The map has no filled areas, and its polylines and route lie in `bbox`.
pub open spec fn lines_in_box(ft: &Features, bbox: BBox) -> bool {
    &&& ft.naturals@.len() == 0
    &&& ft.buildings@.len() == 0
    &&& ft.multipolygons@.len() == 0
    &&& forall|p: Coord| #[trigger] on_ways(ways_view(&ft.highways), p) ==> in_box(bbox, p)
    &&& forall|p: Coord| #[trigger] on_ways(ways_view(&ft.waterways), p) ==> in_box(bbox, p)
    &&& forall|p: Coord| #[trigger] on_ways(ways_view(&ft.railways), p) ==> in_box(bbox, p)
    &&& forall|k: int| 0 <= k < ft.path@.len() ==> in_box(bbox, #[trigger] ft.path@[k])
}

proof fn lemma_layer_shift(
    m: Map<(int, int), Color>,
    f: Frame,
    g: Frame,
    ways: Seq<Seq<Coord>>,
    bbox: BBox,
    c: Color,
    ox: int,
    oy: int,
)
    requires
        forall|p: Coord| #[trigger] on_ways(ways, p) ==> in_box(bbox, p),
        forall|p: Coord| in_box(bbox, p) ==> #[trigger] offset_frames(f, g, ox, oy, p),
    ensures
        segments_drawn(shifted(m, ox, oy), f, segments(ways), c) == shifted(segments_drawn(m, g, segments(ways), c), ox, oy),
{
    let segs = segments(ways);
    assert forall|k: int| 0 <= k < segs.len() implies offset_frames(f, g, ox, oy, (#[trigger] segs[k]).0)
        && offset_frames(f, g, ox, oy, segs[k].1) by {
        lemma_segment_points(ways, k);
    }
    lemma_segments_shift(m, f, g, segs, c, ox, oy);
}

/// Tiles stitch back into one render. For a map whose lines and route lie in
/// its box and which has no filled areas, pixel `(px, py)` of tile
/// `(tx, ty)` equals pixel `(tx * size + px, (grid - 1 - ty) * size + py)` of
/// the map drawn on a single canvas of the whole grid: the pixel where
/// `stitch_tiles` puts it.
pub proof fn lemma_tiles_match_single_render(
    ft: &Features,
    bbox: BBox,
    grid: u32,
    size: u32,
    tx: u32,
    ty: u32,
    px: int,
    py: int,
)
    requires
        bbox.wf(),
        grid_fits(grid, size),
        grid * size <= i32::MAX,
        tx < grid,
        ty < grid,
        0 <= px < size,
        0 <= py < size,
        lines_in_box(ft, bbox),
    ensures
        map_drawn(blank(), (size, size), tile_frame(bbox, grid, size, tx, ty), ft)[(px, py)] == map_drawn(
            blank(),
            ((grid * size) as u32, (grid * size) as u32),
            tile_frame(bbox, 1, (grid * size) as u32, 0, 0),
            ft,
        )[(tx * size + px, (grid - 1 - ty) * size + py)],
{
    let total = (grid * size) as u32;
    let f = tile_frame(bbox, grid, size, tx, ty);
    let g = tile_frame(bbox, 1, total, 0, 0);
    let ox = tx * size;
    let oy = (grid - 1 - ty) * size;
    lemma_grid_bounds(grid, size, tx as int, ty as int);
    assert(g == Frame { bbox, size: total, left: 0, top: 0 });
    assert forall|p: Coord| in_box(bbox, p) implies #[trigger] offset_frames(f, g, ox, oy, p) by {
        lemma_frame_offset(bbox, total, f.left, f.top, p);
    }
    let dt = (size, size);
    let dg = (total, total);
    let m = blank();
    assert(shifted(m, ox, oy) =~= m);
    assert(ways_view(&ft.naturals) =~= Seq::<Seq<Coord>>::empty());
    assert(ways_view(&ft.buildings) =~= Seq::<Seq<Coord>>::empty());
    assert(multipolygons_view(&ft.multipolygons) =~= Seq::<Seq<Seq<Coord>>>::empty());
    let m3 = rings_filled(
        multipolygons_filled(rings_filled(m, dg, g, ways_view(&ft.naturals), natural_color()), dg, g, multipolygons_view(&ft.multipolygons), multipolygon_color()),
        dg,
        g,
        ways_view(&ft.buildings),
        building_color(),
    );
    assert(m3 == m);
    let t3 = rings_filled(
        multipolygons_filled(rings_filled(m, dt, f, ways_view(&ft.naturals), natural_color()), dt, f, multipolygons_view(&ft.multipolygons), multipolygon_color()),
        dt,
        f,
        ways_view(&ft.buildings),
        building_color(),
    );
    assert(t3 == m);
    let hw = ways_view(&ft.highways);
    let ww = ways_view(&ft.waterways);
    let rw = ways_view(&ft.railways);
    lemma_layer_shift(m, f, g, hw, bbox, highway_color(), ox, oy);
    let m4 = segments_drawn(m, g, segments(hw), highway_color());
    lemma_layer_shift(m4, f, g, ww, bbox, waterway_color(), ox, oy);
    let m5 = segments_drawn(m4, g, segments(ww), waterway_color());
    lemma_layer_shift(m5, f, g, rw, bbox, railway_color(), ox, oy);
    let m6 = segments_drawn(m5, g, segments(rw), railway_color());
    assert forall|k: int| 0 <= k < ft.path@.len() implies offset_frames(f, g, ox, oy, #[trigger] ft.path@[k]) by {
        assert(in_box(bbox, ft.path@[k]));
    }
    lemma_path_shift(m6, f, g, ft.path@, ROUTE_THICKNESS as int, route_color(), ox, oy);
    assert(map_drawn(m, dt, f, ft) == shifted(map_drawn(m, dg, g, ft), ox, oy));
}

} // verus!
