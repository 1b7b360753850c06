use image::RgbaImage;
use maps::canvas::{Canvas, Color};
use maps::coord::Coord;
use maps::layers::{adjusted_color, draw_buildings, draw_multipolygons, draw_path, draw_ways, fill_ring, ring_pixels};
use maps::projector::{calculate_bounding_box, lon_lat_to_pixel, project, BBox, Frame};
use maps::raster::{draw_line_wu, interpolate, perpendicular_offset, plot};
use maps::tiles::{draw_features, drawing_bounds, place_tile, render_tile, stitch_tiles, Features};

fn canvas(w: u32, h: u32) -> Canvas {
    Canvas { image: RgbaImage::new(w, h) }
}

fn px(c: &Canvas, x: u32, y: u32) -> [u8; 4] {
    c.image.get_pixel(x, y).0
}

const WHITE: Color = Color { r: 255, g: 255, b: 255, a: 255 };

fn bbox() -> BBox {
    BBox { min_lon: 0, min_lat: 0, max_lon: 1000, max_lat: 1000 }
}

#[test]
fn bounding_box_spans_all_groups() {
    let a = vec![vec![Coord::new(5, 7), Coord::new(-3, 2)]];
    let b = vec![vec![Coord::new(10, -4)], vec![]];
    let e: Vec<Vec<Coord>> = vec![];
    let bb = calculate_bounding_box(&[&a, &b, &e]).unwrap();
    assert_eq!(bb, BBox { min_lon: -3, min_lat: -4, max_lon: 10, max_lat: 7 });
    assert!(bb.has_area());
    assert_eq!(calculate_bounding_box(&[&e, &vec![vec![]]]), None);
    let flat = calculate_bounding_box(&[&vec![vec![Coord::new(1, 1), Coord::new(1, 5)]]]).unwrap();
    assert!(!flat.has_area());
}

#[test]
fn projector_maps_corners() {
    let b = BBox { min_lon: 100, min_lat: 200, max_lon: 300, max_lat: 600 };
    assert_eq!(lon_lat_to_pixel(Coord::new(100, 200), &b, 512), (0, 512));
    assert_eq!(lon_lat_to_pixel(Coord::new(300, 600), &b, 512), (512, 0));
    assert_eq!(lon_lat_to_pixel(Coord::new(200, 400), &b, 512), (256, 256));
    assert_eq!(lon_lat_to_pixel(Coord::new(101, 599), &b, 512), (2, 1));
}

#[test]
fn projector_sends_outside_points_off_canvas() {
    let b = BBox { min_lon: 0, min_lat: 0, max_lon: 10, max_lat: 10 };
    assert_eq!(lon_lat_to_pixel(Coord::new(-1, 11), &b, 100), (-10, -10));
    assert_eq!(lon_lat_to_pixel(Coord::new(-1, 5), &b, 3), (-1, 1));
    assert_eq!(lon_lat_to_pixel(Coord::new(20, -10), &b, 100), (200, 200));
    assert_eq!(
        lon_lat_to_pixel(Coord::new(i32::MAX, i32::MIN), &BBox { min_lon: 0, min_lat: 0, max_lon: 1, max_lat: 1 }, 4096),
        (i32::MAX, i32::MAX)
    );
}

#[test]
fn projector_frame_offsets_tile() {
    let f = Frame { bbox: bbox(), size: 200, left: 100, top: 50 };
    assert_eq!(project(Coord::new(500, 500), &f), (0, 50));
    assert_eq!(project(Coord::new(0, 1000), &f), (-100, -50));
}

#[test]
fn interpolate_blends_each_channel() {
    let c1 = Color { r: 0, g: 100, b: 200, a: 255 };
    let c2 = Color { r: 255, g: 0, b: 100, a: 55 };
    assert_eq!(interpolate(c1, c2, 1, 2), Color { r: 127, g: 50, b: 150, a: 155 });
    assert_eq!(interpolate(c1, c2, 0, 7), c1);
    assert_eq!(interpolate(c1, c2, 7, 7), c2);
    assert_eq!(interpolate(c1, c2, 1, 4), Color { r: 63, g: 75, b: 175, a: 205 });
}

#[test]
fn plot_blends_inside_and_skips_outside() {
    let mut img = canvas(4, 4);
    plot(&mut img, 1, 2, WHITE, 1, 1);
    plot(&mut img, -1, 0, WHITE, 1, 1);
    plot(&mut img, 4, 0, WHITE, 1, 1);
    plot(&mut img, 0, 0, WHITE, 1, 2);
    assert_eq!(px(&img, 1, 2), [255, 255, 255, 255]);
    assert_eq!(px(&img, 0, 0), [127, 127, 127, 127]);
    assert_eq!(px(&img, 3, 0), [0, 0, 0, 0]);
}

#[test]
fn horizontal_line_touches_rows_zero_and_one() {
    let mut img = canvas(20, 20);
    draw_line_wu(&mut img, 0, 0, 10, 0, WHITE);
    for x in 0..20 {
        for y in 0..20 {
            let p = px(&img, x, y);
            if y == 0 && x <= 10 {
                assert_eq!(p, [255, 255, 255, 255]);
            } else {
                assert_eq!(p, [0, 0, 0, 0]);
            }
        }
    }
}

#[test]
fn line_weights_sum_to_one_per_column() {
    let mut img = canvas(20, 20);
    draw_line_wu(&mut img, 0, 0, 10, 3, WHITE);
    for x in 0..=10u32 {
        let total: u32 = (0..20).map(|y| px(&img, x, y)[0] as u32).sum();
        assert!(total == 255 || total == 254, "column {} sums to {}", x, total);
    }
    assert_eq!(px(&img, 0, 0)[0], 216);
    assert_eq!(px(&img, 0, 1)[0], 38);
    for x in 11..20 {
        for y in 0..20 {
            assert_eq!(px(&img, x, y), [0, 0, 0, 0]);
        }
    }
}

#[test]
fn steep_line_steps_along_y() {
    let mut img = canvas(10, 10);
    draw_line_wu(&mut img, 2, 0, 2, 5, WHITE);
    for y in 0..=5 {
        assert_eq!(px(&img, 2, y), [255, 255, 255, 255]);
        assert_eq!(px(&img, 3, y), [0, 0, 0, 0]);
    }
    assert_eq!(px(&img, 2, 6), [0, 0, 0, 0]);
}

#[test]
fn single_point_line_splits_between_two_pixels() {
    let mut img = canvas(5, 5);
    draw_line_wu(&mut img, 1, 1, 1, 1, WHITE);
    assert_eq!(px(&img, 1, 1), [127, 127, 127, 127]);
    assert_eq!(px(&img, 1, 2), [127, 127, 127, 127]);
}

#[test]
fn line_outside_image_draws_nothing_and_partial_line_is_clipped() {
    let mut img = canvas(8, 8);
    draw_line_wu(&mut img, -50, -50, -10, -20, WHITE);
    draw_line_wu(&mut img, 100, 3, 200, 3, WHITE);
    for x in 0..8 {
        for y in 0..8 {
            assert_eq!(px(&img, x, y), [0, 0, 0, 0]);
        }
    }
    draw_line_wu(&mut img, -100, 2, 100, 2, WHITE);
    for x in 0..8 {
        assert_eq!(px(&img, x, 2), [255, 255, 255, 255]);
    }
}

#[test]
fn perpendicular_offset_rounds_the_rotated_direction() {
    assert_eq!(perpendicular_offset(0, 0, 10, 0, 4), (0, 4));
    assert_eq!(perpendicular_offset(0, 0, 10, 0, -4), (0, -4));
    assert_eq!(perpendicular_offset(0, 0, 3, 4, 1), (-1, 1));
    assert_eq!(perpendicular_offset(0, 0, 3, 4, 5), (-4, 3));
    assert_eq!(perpendicular_offset(0, 0, 1, 1, 3), (-2, 2));
    assert_eq!(perpendicular_offset(5, 5, 5, 5, 3), (0, 0));
    assert_eq!(perpendicular_offset(0, 0, 4, 3, 1), (-1, 1));
    assert_eq!(perpendicular_offset(0, 0, 0, 10, 2), (-2, 0));
}

#[test]
fn path_is_drawn_as_a_thick_stroke() {
    let mut img = canvas(100, 100);
    let f = Frame { bbox: bbox(), size: 100, left: 0, top: 0 };
    let path = vec![Coord::new(100, 500), Coord::new(900, 500)];
    draw_path(&mut img, &path, &f, WHITE, 2);
    for y in 48..=52 {
        assert_eq!(px(&img, 50, y), [255, 255, 255, 255]);
    }
    assert_eq!(px(&img, 50, 47), [0, 0, 0, 0]);
    assert_eq!(px(&img, 50, 53), [0, 0, 0, 0]);
    let mut empty = canvas(10, 10);
    draw_path(&mut empty, &vec![Coord::new(1, 1)], &f, WHITE, 4);
    assert_eq!(px(&empty, 0, 0), [0, 0, 0, 0]);
}

#[test]
fn ways_are_drawn_segment_by_segment() {
    let mut img = canvas(10, 10);
    let f = Frame { bbox: bbox(), size: 10, left: 0, top: 0 };
    let ways = vec![vec![Coord::new(0, 900), Coord::new(500, 900), Coord::new(500, 400)]];
    draw_ways(&mut img, &ways, &f, WHITE);
    assert_eq!(px(&img, 0, 1), [255, 255, 255, 255]);
    assert_eq!(px(&img, 3, 1), [255, 255, 255, 255]);
    assert_eq!(px(&img, 5, 4), [255, 255, 255, 255]);
    assert_eq!(px(&img, 8, 8), [0, 0, 0, 0]);
}

#[test]
fn ring_pixels_drop_repeats_and_closing_point() {
    let f = Frame { bbox: bbox(), size: 10, left: 0, top: 0 };
    let ring = vec![
        Coord::new(0, 1000),
        Coord::new(500, 1000),
        Coord::new(501, 1000),
        Coord::new(500, 500),
        Coord::new(0, 1000),
    ];
    assert_eq!(ring_pixels(&ring, &f), vec![(0, 0), (5, 0), (5, 5)]);
}

#[test]
fn degenerate_rings_leave_image_unchanged() {
    let f = Frame { bbox: bbox(), size: 20, left: 0, top: 0 };
    let mut img = canvas(20, 20);
    fill_ring(&mut img, &vec![Coord::new(100, 100)], &f, WHITE);
    fill_ring(&mut img, &vec![Coord::new(100, 100), Coord::new(900, 900)], &f, WHITE);
    fill_ring(&mut img, &vec![Coord::new(100, 100), Coord::new(900, 900), Coord::new(100, 100)], &f, WHITE);
    fill_ring(&mut img, &vec![], &f, WHITE);
    assert!(img.image.pixels().all(|p| p.0 == [0, 0, 0, 0]));
}

#[test]
fn triangle_ring_is_filled() {
    let f = Frame { bbox: bbox(), size: 20, left: 0, top: 0 };
    let mut img = canvas(20, 20);
    let ring = vec![Coord::new(0, 1000), Coord::new(1000, 1000), Coord::new(0, 0)];
    fill_ring(&mut img, &ring, &f, WHITE);
    assert_eq!(px(&img, 2, 2), [255, 255, 255, 255]);
    assert_eq!(px(&img, 18, 18), [0, 0, 0, 0]);
}

#[test]
fn buildings_fill_each_ring() {
    let f = Frame { bbox: bbox(), size: 20, left: 0, top: 0 };
    let mut img = canvas(20, 20);
    let rings = vec![
        vec![Coord::new(0, 1000), Coord::new(400, 1000), Coord::new(400, 600), Coord::new(0, 600)],
        vec![Coord::new(600, 400), Coord::new(1000, 400), Coord::new(1000, 0), Coord::new(600, 0)],
    ];
    draw_buildings(&mut img, &rings, &f, WHITE);
    assert_eq!(px(&img, 4, 4), [255, 255, 255, 255]);
    assert_eq!(px(&img, 16, 16), [255, 255, 255, 255]);
    assert_eq!(px(&img, 10, 10), [0, 0, 0, 0]);
}

#[test]
fn multipolygon_rings_get_shifted_colors() {
    let base = Color { r: 128, g: 128, b: 128, a: 100 };
    assert_eq!(adjusted_color(base, 0), base);
    assert_eq!(adjusted_color(base, 1), Color { r: 158, g: 158, b: 158, a: 100 });
    assert_eq!(adjusted_color(base, 9), Color { r: 143, g: 143, b: 143, a: 100 });
    assert_eq!(adjusted_color(WHITE, 0), Color { r: 0, g: 0, b: 0, a: 255 });
    let f = Frame { bbox: bbox(), size: 20, left: 0, top: 0 };
    let mut img = canvas(20, 20);
    let outer = vec![Coord::new(0, 1000), Coord::new(1000, 1000), Coord::new(1000, 0), Coord::new(0, 0)];
    let inner = vec![Coord::new(250, 750), Coord::new(750, 750), Coord::new(750, 250), Coord::new(250, 250)];
    draw_multipolygons(&mut img, &vec![vec![outer, inner]], &f, base);
    assert_eq!(px(&img, 1, 1), [128, 128, 128, 100]);
    assert_eq!(px(&img, 10, 10), [158, 158, 158, 100]);
}

#[test]
fn place_tile_copies_into_region() {
    let mut mosaic = canvas(4, 4);
    let mut tile = canvas(2, 2);
    tile.image.put_pixel(0, 0, image::Rgba([1, 2, 3, 4]));
    tile.image.put_pixel(1, 1, image::Rgba([5, 6, 7, 8]));
    place_tile(&mut mosaic, &tile, 2, 0);
    assert_eq!(px(&mosaic, 2, 0), [1, 2, 3, 4]);
    assert_eq!(px(&mosaic, 3, 1), [5, 6, 7, 8]);
    assert_eq!(px(&mosaic, 0, 0), [0, 0, 0, 0]);
}

#[test]
fn stitch_flips_tile_rows() {
    let mut tiles = Vec::new();
    for tx in 0..2u8 {
        for ty in 0..2u8 {
            let mut t = canvas(2, 2);
            t.image.put_pixel(0, 0, image::Rgba([tx, ty, 9, 9]));
            tiles.push(t);
        }
    }
    let m = stitch_tiles(&tiles, 2, 2);
    assert_eq!(m.image.dimensions(), (4, 4));
    assert_eq!(px(&m, 0, 2), [0, 0, 9, 9]);
    assert_eq!(px(&m, 0, 0), [0, 1, 9, 9]);
    assert_eq!(px(&m, 2, 2), [1, 0, 9, 9]);
    assert_eq!(px(&m, 2, 0), [1, 1, 9, 9]);
    assert_eq!(px(&m, 1, 1), [0, 0, 0, 0]);
}

fn line_features(path: Vec<Coord>, highways: Vec<Vec<Coord>>) -> Features {
    Features {
        highways,
        waterways: vec![],
        railways: vec![],
        buildings: vec![],
        naturals: vec![],
        multipolygons: vec![],
        path,
    }
}

#[test]
fn tiles_stitch_back_into_single_render() {
    let b = BBox { min_lon: 0, min_lat: 0, max_lon: 1000, max_lat: 1000 };
    let ft = line_features(
        vec![Coord::new(100, 300), Coord::new(450, 700)],
        vec![vec![Coord::new(50, 100), Coord::new(950, 400)]],
    );
    let size = 32;
    let mut tiles = Vec::new();
    for tx in 0..2 {
        for ty in 0..2 {
            tiles.push(render_tile(&ft, &b, 2, size, tx, ty));
        }
    }
    let mosaic = stitch_tiles(&tiles, 2, size);
    let single = render_tile(&ft, &b, 1, 2 * size, 0, 0);
    assert_eq!(mosaic.image.dimensions(), single.image.dimensions());
    assert!(mosaic.image.pixels().any(|p| p.0 != [0, 0, 0, 0]));
    assert_eq!(mosaic.image.as_raw(), single.image.as_raw());
}

#[test]
fn draw_features_paints_layers_in_order() {
    let f = Frame { bbox: bbox(), size: 20, left: 0, top: 0 };
    let mut img = canvas(20, 20);
    let mut ft = line_features(vec![], vec![vec![Coord::new(0, 500), Coord::new(1000, 500)]]);
    ft.buildings = vec![vec![Coord::new(0, 1000), Coord::new(1000, 1000), Coord::new(1000, 0), Coord::new(0, 0)]];
    draw_features(&mut img, &ft, &f);
    assert_eq!(px(&img, 5, 10), [255, 255, 255, 255]);
    assert_eq!(px(&img, 5, 3), [245, 245, 220, 255]);
}

#[test]
fn drawing_bounds_need_ways_and_area() {
    let empty = line_features(vec![], vec![]);
    assert_eq!(drawing_bounds(&empty), None);
    let flat = line_features(vec![], vec![vec![Coord::new(1, 1), Coord::new(1, 9)]]);
    assert_eq!(drawing_bounds(&flat), None);
    let mut only_buildings = line_features(vec![], vec![]);
    only_buildings.buildings = vec![vec![Coord::new(0, 0), Coord::new(5, 5), Coord::new(0, 5)]];
    assert_eq!(drawing_bounds(&only_buildings), None);
    let mut ok = line_features(vec![Coord::new(100, 100)], vec![vec![Coord::new(1, 1), Coord::new(4, 9)]]);
    ok.railways = vec![vec![Coord::new(-2, 3)]];
    assert_eq!(drawing_bounds(&ok), Some(BBox { min_lon: -2, min_lat: 1, max_lon: 4, max_lat: 9 }));
}
