use vstd::prelude::*;

verus! {

/// An RGBA image of 8 bits per channel, held in an `image::RgbaImage`.
///
/// Its size is `canvas_dims` and the color of each of its pixels is given by
/// `canvas_pixels`; a new canvas is transparent black.
#[verifier::external_body]
pub struct Canvas {
    pub image: image::RgbaImage,
}

/// An RGBA color with 8 bits per channel.
#[derive(Clone, Copy, Debug, PartialEq, Eq, Structural)]
pub struct Color {
    pub r: u8,
    pub g: u8,
    pub b: u8,
    pub a: u8,
}

/// The width and height of an image.
pub uninterp spec fn canvas_dims(c: Canvas) -> (u32, u32);

/// The color of each pixel `(x, y)` of an image.
pub uninterp spec fn canvas_pixels(c: Canvas) -> Map<(int, int), Color>;

/// Relies on `ImageBuffer::dimensions`: the width and height the image was made with.
#[verifier::external_body]
pub(crate) fn dimensions(img: &Canvas) -> (r: (u32, u32))
    ensures
        r == canvas_dims(*img),
{
    img.image.dimensions()
}

/// True when `(x, y)` lies inside an image of the given size.
pub open spec fn in_bounds(dims: (u32, u32), x: int, y: int) -> bool {
    0 <= x < dims.0 && 0 <= y < dims.1
}

/// `m1` and `m2` hold the same color at every pixel of an image of size `dims`.
pub open spec fn agree(dims: (u32, u32), m1: Map<(int, int), Color>, m2: Map<(int, int), Color>) -> bool {
    forall|x: int, y: int| in_bounds(dims, x, y) ==> #[trigger] m1[(x, y)] == m2[(x, y)]
}

/// Relies on `ImageBuffer::new`: an image of the given size whose every
/// channel is zero. It panics when `4 * width * height` overflows `usize`.
#[verifier::external_body]
pub(crate) fn new_image(width: u32, height: u32) -> (r: Canvas)
    requires
        4 * (width as int) * (height as int) <= usize::MAX,
    ensures
        canvas_dims(r) == (width, height),
        forall|x: int, y: int|
            in_bounds((width, height), x, y) ==> #[trigger] canvas_pixels(r)[(x, y)] == (Color {
                r: 0,
                g: 0,
                b: 0,
                a: 0,
            }),
{
    Canvas { image: image::RgbaImage::new(width, height) }
}

/// Relies on `ImageBuffer::get_pixel`: the color stored at `(x, y)`. It panics
/// outside the image.
#[verifier::external_body]
pub(crate) fn get_pixel(img: &Canvas, x: u32, y: u32) -> (r: Color)
    requires
        in_bounds(canvas_dims(*img), x as int, y as int),
    ensures
        r == canvas_pixels(*img)[(x as int, y as int)],
{
    let p = img.image.get_pixel(x, y);
    Color { r: p.0[0], g: p.0[1], b: p.0[2], a: p.0[3] }
}

/// Relies on `ImageBuffer::put_pixel`: it stores `c` at `(x, y)` and leaves the
/// size and every other pixel as they were. It panics outside the image.
#[verifier::external_body]
pub(crate) fn put_pixel(img: &mut Canvas, x: u32, y: u32, c: Color)
    requires
        in_bounds(canvas_dims(*old(img)), x as int, y as int),
    ensures
        canvas_dims(*final(img)) == canvas_dims(*old(img)),
        forall|px: int, py: int|
            in_bounds(canvas_dims(*old(img)), px, py) ==> #[trigger] canvas_pixels(*final(img))[(px, py)]
                == if px == x && py == y {
                c
            } else {
                canvas_pixels(*old(img))[(px, py)]
            },
{
    img.image.put_pixel(x, y, image::Rgba([c.r, c.g, c.b, c.a]))
}

/// The pixels of `m` inside an image of size `dims`, and no others.
pub open spec fn restrict(dims: (u32, u32), m: Map<(int, int), Color>) -> Map<(int, int), Color> {
    Map::new(|p: (int, int)| in_bounds(dims, p.0, p.1), |p: (int, int)| m[p])
}

/// The largest pixel coordinate, either way, of a polygon's corner: two
/// corners then differ by less than `2^31`.
pub const POLYGON_LIMIT: i32 = 0x3FFF_FFFF;

/// The pixels of an image of size `dims` whose pixels were `m` after the
/// polygon `poly` is filled with `c`.
pub uninterp spec fn polygon_filled(
    m: Map<(int, int), Color>,
    dims: (u32, u32),
    poly: Seq<(i32, i32)>,
    c: Color,
) -> Map<(int, int), Color>;

/// Relies on `imageproc::drawing::draw_polygon_mut`, which fills the polygon
/// `poly` (closed by an edge from its last corner back to its first) and draws
/// its outline, in color `c`, within the image, and changes no pixel but
/// those. Its result depends on the image's pixels, its size, the corners and
/// the color alone. It panics when the first corner equals the last one, and
/// on an image of height zero. It computes `height as i32 - 1` and
/// `width as i32 - 1`, which overflow for a side of `2^31` pixels or more, and
/// it subtracts corner coordinates, and a scanline from a corner, in `i32`:
/// with every corner within `POLYGON_LIMIT` either way those differences stay
/// below `2^31`.
#[verifier::external_body]
pub(crate) fn fill_polygon(img: &mut Canvas, poly: &Vec<(i32, i32)>, c: Color)
    requires
        0 < canvas_dims(*old(img)).0 <= i32::MAX,
        0 < canvas_dims(*old(img)).1 <= i32::MAX,
        poly@.len() >= 1 ==> poly@[0] != poly@.last(),
        forall|i: int|
            0 <= i < poly@.len() ==> -POLYGON_LIMIT <= (#[trigger] poly@[i]).0 <= POLYGON_LIMIT
                && -POLYGON_LIMIT <= poly@[i].1 <= POLYGON_LIMIT,
    ensures
        canvas_dims(*final(img)) == canvas_dims(*old(img)),
        agree(
            canvas_dims(*old(img)),
            canvas_pixels(*final(img)),
            polygon_filled(
                restrict(canvas_dims(*old(img)), canvas_pixels(*old(img))),
                canvas_dims(*old(img)),
                poly@,
                c,
            ),
        ),
{
    let points: Vec<imageproc::point::Point<i32>> = poly.iter().map(|&(x, y)| imageproc::point::Point::new(x, y)).collect();
    imageproc::drawing::draw_polygon_mut(&mut img.image, &points, image::Rgba([c.r, c.g, c.b, c.a]));
}

} // verus!
