//! The pixel buffer that every drawing routine writes to, and its model.
//!
//! A [`Canvas`] owns an `image::RgbaImage`. Verus cannot see inside that
//! buffer, so its contents and its size are named here, and each method of
//! the buffer that the library calls is wrapped in a private function whose
//! contract is trusted. Everything public in this module is verified against
//! those contracts.

use vstd::prelude::*;

verus! {

/// An RGBA color with eight bits per channel.
#[derive(Clone, Copy, Debug, PartialEq, Eq, Structural)]
pub struct Color {
    pub r: u8,
    pub g: u8,
    pub b: u8,
    pub a: u8,
}

impl Color {
    /// The color with the given channels.
    pub fn new(r: u8, g: u8, b: u8, a: u8) -> (c: Color)
        ensures
            c == (Color { r, g, b, a }),
    {
        Color { r, g, b, a }
    }

    /// The same color with another alpha channel.
    pub fn with_alpha(self, a: u8) -> (c: Color)
        ensures
            c == (Color { r: self.r, g: self.g, b: self.b, a }),
    {
        Color { r: self.r, g: self.g, b: self.b, a }
    }
}

/// A pixel buffer of RGBA colors: an `image::RgbaImage` kept out of the
/// verifier's sight.
#[verifier::external_body]
pub struct Canvas {
    img: image::RgbaImage,
}

/// The pixel that a canvas holds at each coordinate `(x, y)` inside it.
pub uninterp spec fn canvas_pixels(cv: Canvas) -> Map<(int, int), Color>;

/// Width and height of a canvas, in that order.
pub uninterp spec fn canvas_size(cv: Canvas) -> (int, int);

/// The color that results when `fg` is laid over `bg`: what `blend` of the
/// `image` crate computes for two RGBA pixels.
pub uninterp spec fn rgba_blend(bg: Color, fg: Color) -> Color;

/// The mathematical model of a pixel buffer: its size and the color at each
/// coordinate inside it.
pub struct Raster {
    pub width: int,
    pub height: int,
    pub px: Map<(int, int), Color>,
}

impl Raster {
    /// Whether `p` is a coordinate of this raster.
    pub open spec fn inside(self, p: (int, int)) -> bool {
        0 <= p.0 < self.width && 0 <= p.1 < self.height
    }

    /// The raster after the pixel at `p` has been overwritten with `c`;
    /// nothing changes when `p` lies outside.
    pub open spec fn put(self, p: (int, int), c: Color) -> Raster {
        if self.inside(p) {
            Raster { width: self.width, height: self.height, px: self.px.insert(p, c) }
        } else {
            self
        }
    }

    /// The raster after `c` has been laid over the pixel at `p`; nothing
    /// changes when `p` lies outside.
    pub open spec fn blend(self, p: (int, int), c: Color) -> Raster {
        if self.inside(p) {
            self.put(p, rgba_blend(self.px[p], c))
        } else {
            self
        }
    }

    /// The raster in which every coordinate of `region` that lies inside has
    /// the color `c`, and every other pixel is as before.
    pub open spec fn fill(self, region: Set<(int, int)>, c: Color) -> Raster {
        Raster {
            width: self.width,
            height: self.height,
            px: Map::new(
                |p: (int, int)| self.inside(p),
                |p: (int, int)| if region.contains(p) { c } else { self.px[p] },
            ),
        }
    }
}

/// Filling one region and then another with one color is filling both at
/// once; so filling a region twice is filling it once.
pub proof fn lemma_fill_union(v: Raster, a: Set<(int, int)>, b: Set<(int, int)>, c: Color)
    ensures
        v.fill(a, c).fill(b, c) == v.fill(a.union(b), c),
        v.fill(a, c).fill(a, c) == v.fill(a, c),
{
    assert(v.fill(a, c).fill(b, c).px =~= v.fill(a.union(b), c).px);
    assert(v.fill(a, c).fill(a, c).px =~= v.fill(a, c).px);
}

/// What a drawing leaves behind is determined by what it was drawn on and
/// what was drawn: on equal rasters, regions that hold the same points of
/// the raster are filled alike, and a second filling changes nothing.
pub proof fn lemma_fill_determined(
    v: Raster,
    w: Raster,
    a: Set<(int, int)>,
    b: Set<(int, int)>,
    c: Color,
)
    requires
        v == w,
        forall|p: (int, int)| v.inside(p) ==> (a.contains(p) <==> b.contains(p)),
    ensures
        v.fill(a, c) == w.fill(b, c),
        v.fill(a, c).fill(b, c) == v.fill(a, c),
{
    assert(v.fill(a, c).px =~= w.fill(b, c).px);
    assert(v.fill(a, c).fill(b, c).px =~= v.fill(a, c).px);
}

/// Filling a region that holds one more point is filling the region and
/// then putting that point.
pub proof fn lemma_fill_put(v: Raster, a: Set<(int, int)>, p: (int, int), c: Color)
    ensures
        v.fill(a, c).put(p, c) == v.fill(a.insert(p), c),
{
    assert(v.fill(a, c).put(p, c).px =~= v.fill(a.insert(p), c).px);
}

/// The color that four consecutive bytes of a row-major RGBA byte buffer of
/// the given width spell at `(x, y)`.
pub open spec fn raw_pixel(data: Seq<u8>, width: int, x: int, y: int) -> Color {
    let at = (y * width + x) * 4;
    Color { r: data[at], g: data[at + 1], b: data[at + 2], a: data[at + 3] }
}

/// The raster that a row-major RGBA byte buffer spells.
pub open spec fn raw_raster(data: Seq<u8>, width: int, height: int) -> Raster {
    Raster {
        width,
        height,
        px: Map::new(
            |p: (int, int)| 0 <= p.0 < width && 0 <= p.1 < height,
            |p: (int, int)| raw_pixel(data, width, p.0, p.1),
        ),
    }
}

impl View for Canvas {
    type V = Raster;

    open spec fn view(&self) -> Raster {
        let size = canvas_size(*self);
        Raster {
            width: size.0,
            height: size.1,
            px: Map::new(
                |p: (int, int)| 0 <= p.0 < size.0 && 0 <= p.1 < size.1,
                |p: (int, int)| canvas_pixels(*self)[p],
            ),
        }
    }
}

/// `ImageBuffer::from_raw`: a buffer over `data`, read row by row with four
/// bytes per pixel. It is made exactly when `data` holds at least
/// `4 * width * height` bytes.
#[verifier::external_body]
fn buffer_from_raw(width: u32, height: u32, data: Vec<u8>) -> (r: Option<Canvas>)
    ensures
        r is Some <==> 4 * width * height <= data@.len(),
        r matches Some(cv) ==> {
            &&& canvas_size(cv) == (width as int, height as int)
            &&& forall|x: int, y: int|
                0 <= x < width && 0 <= y < height ==> #[trigger] canvas_pixels(cv)[(x, y)]
                    == raw_pixel(data@, width as int, x, y)
        },
{
    match image::RgbaImage::from_raw(width, height, data) {
        Some(img) => Some(Canvas { img }),
        None => None,
    }
}

/// `ImageBuffer::into_raw`: the bytes of the buffer, row by row with four
/// bytes per pixel. There may be more bytes than the pixels need.
#[verifier::external_body]
fn buffer_into_raw(cv: Canvas) -> (data: Vec<u8>)
    ensures
        4 * canvas_size(cv).0 * canvas_size(cv).1 <= data@.len(),
        forall|x: int, y: int|
            0 <= x < canvas_size(cv).0 && 0 <= y < canvas_size(cv).1 ==> #[trigger] raw_pixel(
                data@,
                canvas_size(cv).0,
                x,
                y,
            ) == canvas_pixels(cv)[(x, y)],
{
    cv.img.into_raw()
}

/// `ImageBuffer::width`: the width the buffer was made with.
#[verifier::external_body]
fn buffer_width(cv: &Canvas) -> (w: u32)
    ensures
        w == canvas_size(*cv).0,
{
    cv.img.width()
}

/// `ImageBuffer::height`: the height the buffer was made with.
#[verifier::external_body]
fn buffer_height(cv: &Canvas) -> (h: u32)
    ensures
        h == canvas_size(*cv).1,
{
    cv.img.height()
}

/// `ImageBuffer::get_pixel`: the pixel stored at `(x, y)`. The method panics
/// outside the image, so the coordinate must lie inside.
#[verifier::external_body]
fn buffer_get(cv: &Canvas, x: u32, y: u32) -> (c: Color)
    requires
        x < canvas_size(*cv).0,
        y < canvas_size(*cv).1,
    ensures
        c == canvas_pixels(*cv)[(x as int, y as int)],
{
    let p = cv.img.get_pixel(x, y);
    Color { r: p.0[0], g: p.0[1], b: p.0[2], a: p.0[3] }
}

/// `ImageBuffer::put_pixel`: overwrites the pixel at `(x, y)` and nothing
/// else. The method panics outside the image, so the coordinate must lie
/// inside.
#[verifier::external_body]
fn buffer_put(cv: &mut Canvas, x: u32, y: u32, c: Color)
    requires
        x < canvas_size(*old(cv)).0,
        y < canvas_size(*old(cv)).1,
    ensures
        canvas_size(*final(cv)) == canvas_size(*old(cv)),
        canvas_pixels(*final(cv)) == canvas_pixels(*old(cv)).insert((x as int, y as int), c),
{
    cv.img.put_pixel(x, y, image::Rgba([c.r, c.g, c.b, c.a]));
}

/// `Pixel::blend` on `Rgba<u8>`: lays `fg` over `bg` by alpha compositing.
/// A foreground without opacity leaves the background as it is, and a fully
/// opaque one replaces it; what lies between is computed in floating point
/// and only named here.
#[verifier::external_body]
fn pixel_blend(bg: Color, fg: Color) -> (c: Color)
    ensures
        c == rgba_blend(bg, fg),
        fg.a == 0 ==> c == bg,
        fg.a == 255 ==> c == fg,
{
    let mut p = image::Rgba([bg.r, bg.g, bg.b, bg.a]);
    image::Pixel::blend(&mut p, &image::Rgba([fg.r, fg.g, fg.b, fg.a]));
    Color { r: p.0[0], g: p.0[1], b: p.0[2], a: p.0[3] }
}

impl Canvas {
    /// A canvas over a row-major RGBA byte buffer, or `None` when the buffer
    /// is too short for `width * height` pixels.
    pub fn from_raw(width: u32, height: u32, data: Vec<u8>) -> (r: Option<Canvas>)
        ensures
            r is Some <==> 4 * width * height <= data@.len(),
            r matches Some(cv) ==> cv@ == raw_raster(data@, width as int, height as int),
    {
        let r = buffer_from_raw(width, height, data);
        proof {
            if r is Some {
                assert(r->0@.px =~= raw_raster(data@, width as int, height as int).px);
            }
        }
        r
    }

    /// The bytes of the canvas, row by row with four bytes per pixel. The
    /// first `4 * width * height` of them spell the canvas.
    pub fn into_raw(self) -> (data: Vec<u8>)
        ensures
            4 * self@.width * self@.height <= data@.len(),
            raw_raster(data@, self@.width, self@.height) == self@,
    {
        let ghost before = self@;
        let data = buffer_into_raw(self);
        proof {
            assert(raw_raster(data@, before.width, before.height).px =~= before.px);
        }
        data
    }

    /// The width of the canvas in pixels.
    pub fn width(&self) -> (w: u32)
        ensures
            w == self@.width,
    {
        buffer_width(self)
    }

    /// The height of the canvas in pixels.
    pub fn height(&self) -> (h: u32)
        ensures
            h == self@.height,
    {
        buffer_height(self)
    }

    /// The pixel at `(x, y)`, or `None` outside the canvas.
    pub fn get(&self, x: u32, y: u32) -> (c: Option<Color>)
        ensures
            c == if self@.inside((x as int, y as int)) {
                Some(self@.px[(x as int, y as int)])
            } else {
                None
            },
    {
        if x < buffer_width(self) && y < buffer_height(self) {
            Some(buffer_get(self, x, y))
        } else {
            None
        }
    }

    /// Lays `fg` over the pixel at `(x, y)` when it lies inside the canvas
    /// and leaves the canvas alone otherwise.
    pub fn blend_at(&mut self, x: i64, y: i64, fg: Color)
        ensures
            final(self)@ == old(self)@.blend((x as int, y as int), fg),
            fg.a == 0 ==> final(self)@ == old(self)@,
            fg.a == 255 ==> final(self)@ == old(self)@.put((x as int, y as int), fg),
    {
        let w = buffer_width(self);
        let h = buffer_height(self);
        if 0 <= x && x < w as i64 && 0 <= y && y < h as i64 {
            let bg = buffer_get(self, x as u32, y as u32);
            let c = pixel_blend(bg, fg);
            buffer_put(self, x as u32, y as u32, c);
            assert(self@.px =~= old(self)@.px.insert((x as int, y as int), c));
            assert(fg.a == 0 ==> self@.px =~= old(self)@.px);
        }
    }

    /// Overwrites the pixel at `(x, y)` when it lies inside the canvas and
    /// leaves the canvas alone otherwise.
    pub fn put(&mut self, x: i64, y: i64, c: Color)
        ensures
            final(self)@ == old(self)@.put((x as int, y as int), c),
    {
        let w = buffer_width(self);
        let h = buffer_height(self);
        if 0 <= x && x < w as i64 && 0 <= y && y < h as i64 {
            buffer_put(self, x as u32, y as u32, c);
            assert(self@.px =~= old(self)@.px.insert((x as int, y as int), c));
        }
    }
}

} // verus!
