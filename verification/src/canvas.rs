//! An RGB image of the `image` crate, held so that verified code can create
//! it, write its pixels and hand it on as bytes.
use vstd::prelude::*;
use crate::pixel::Pixel;

verus! {

/// An 8-bit RGB image (`image::RgbImage`).  Its contents are known to
/// verified code only through `canvas_pixels` and `canvas_size`.
#[verifier::external_body]
pub struct RgbCanvas {
    img: image::RgbImage,
}

/// The pixels of a canvas, row by row: pixel `(x, y)` is entry
/// `y * width + x`, as `(red, green, blue)`.
pub uninterp spec fn canvas_pixels(c: RgbCanvas) -> Seq<(u8, u8, u8)>;

/// The `(width, height)` a canvas was made with.
pub uninterp spec fn canvas_size(c: RgbCanvas) -> (u32, u32);

/// Width of a canvas.
pub open spec fn canvas_width(c: RgbCanvas) -> int {
    canvas_size(c).0 as int
}

/// Height of a canvas.
pub open spec fn canvas_height(c: RgbCanvas) -> int {
    canvas_size(c).1 as int
}

/// Pixel `(x, y)` of a canvas.
pub open spec fn canvas_at(c: RgbCanvas, x: int, y: int) -> (u8, u8, u8) {
    canvas_pixels(c)[y * canvas_width(c) + x]
}

/// The channels of a pixel as a triple.
pub open spec fn triple(p: Pixel) -> (u8, u8, u8) {
    (p.r, p.g, p.b)
}

/// The canvas holds one entry per pixel.
pub open spec fn canvas_wf(c: RgbCanvas) -> bool {
    canvas_pixels(c).len() == canvas_width(c) * canvas_height(c)
}

/// `image::ImageBuffer::new`: an image of the given size whose channels are
/// all zero.  The crate computes `3 * width` and then `3 * width * height`
/// with checked `usize` multiplications and panics when either overflows or
/// the vector would be too large, which the `requires` rules out.
#[verifier::external_body]
fn blank_canvas(width: u32, height: u32) -> (c: RgbCanvas)
    requires
        3 * width <= usize::MAX,
        3 * width * height <= isize::MAX,
    ensures
        canvas_size(c) == (width, height),
        canvas_pixels(c) == Seq::new((width * height) as nat, |i: int| (0u8, 0u8, 0u8)),
{
    RgbCanvas { img: image::RgbImage::new(width, height) }
}

/// `image::ImageBuffer::put_pixel`: replaces pixel `(x, y)`; it panics out
/// of bounds, which the `requires` rules out.
#[verifier::external_body]
fn put_canvas_pixel(c: &mut RgbCanvas, x: u32, y: u32, p: Pixel)
    requires
        x < canvas_width(*old(c)),
        y < canvas_height(*old(c)),
    ensures
        canvas_size(*final(c)) == canvas_size(*old(c)),
        canvas_pixels(*final(c)) == canvas_pixels(*old(c)).update(
            y * canvas_width(*old(c)) + x,
            triple(p),
        ),
{
    c.img.put_pixel(x, y, image::Rgb([p.r, p.g, p.b]))
}

/// `image::ImageBuffer::dimensions`: the width and height.
#[verifier::external_body]
fn canvas_dimensions(c: &RgbCanvas) -> (d: (u32, u32))
    ensures
        d == canvas_size(*c),
{
    c.img.dimensions()
}

/// `image::ImageBuffer::from_raw` on a buffer of exactly `3 * width * height`
/// bytes, which it accepts when `3 * width` also fits in `usize` (it computes
/// that product first, with a checked multiplication): the pixels are the
/// consecutive byte triples.
#[verifier::external_body]
fn canvas_from_raw(width: u32, height: u32, data: Vec<u8>) -> (c: RgbCanvas)
    requires
        3 * width <= usize::MAX,
        data@.len() == 3 * width * height,
    ensures
        canvas_size(c) == (width, height),
        canvas_pixels(c) == Seq::new(
            (width * height) as nat,
            |i: int| (data@[3 * i], data@[3 * i + 1], data@[3 * i + 2]),
        ),
{
    RgbCanvas { img: image::RgbImage::from_raw(width, height, data).unwrap() }
}

/// `image::ImageBuffer::into_raw`: the channel bytes, pixel after pixel, in
/// the order of `canvas_pixels`.  Nothing is said of bytes past
/// `3 * width * height`, which the buffer may hold.
#[verifier::external_body]
fn canvas_into_raw(c: RgbCanvas) -> (data: Vec<u8>)
    ensures
        data@.len() >= 3 * canvas_width(c) * canvas_height(c),
        forall|i: int|
            0 <= i < canvas_width(c) * canvas_height(c) ==> (data@[3 * i], data@[3 * i + 1], data@[3
                * i + 2]) == #[trigger] canvas_pixels(c)[i],
{
    c.img.into_raw()
}

impl RgbCanvas {
    /// A canvas of the given size with every pixel black.
    pub fn new(width: u32, height: u32) -> (c: RgbCanvas)
        requires
            3 * width <= usize::MAX,
            3 * width * height <= isize::MAX,
        ensures
            canvas_size(c) == (width, height),
            canvas_wf(c),
            forall|x: int, y: int|
                0 <= x < width && 0 <= y < height ==> #[trigger] canvas_at(c, x, y) == (0u8, 0u8, 0u8),
    {
        let c = blank_canvas(width, height);
        proof {
            assert forall|x: int, y: int| 0 <= x < width && 0 <= y < height implies #[trigger] canvas_at(
                c,
                x,
                y,
            ) == (0u8, 0u8, 0u8) by {
                lemma_pixel_index(x, y, width as int, height as int);
            }
        }
        c
    }

    /// A canvas made from `3 * width * height` channel bytes, or `None` when
    /// the buffer has another length or `3 * width` does not fit in `usize`.
    pub fn from_bytes(width: u32, height: u32, data: Vec<u8>) -> (res: Option<RgbCanvas>)
        ensures
            res is Some <==> (data@.len() == 3 * width * height && 3 * width <= usize::MAX),
            res matches Some(c) ==> {
                &&& canvas_size(c) == (width, height)
                &&& canvas_wf(c)
                &&& forall|x: int, y: int|
                    0 <= x < width && 0 <= y < height ==> #[trigger] canvas_at(c, x, y) == (
                        data@[3 * (y * width + x)],
                        data@[3 * (y * width + x) + 1],
                        data@[3 * (y * width + x) + 2],
                    )
            },
    {
        assert((width as u64) * (height as u64) <= 0xffff_ffff_ffff_ffff) by (nonlinear_arith)
            requires
                width <= 0xffff_ffffu32,
                height <= 0xffff_ffffu32,
        ;
        let wh = (width as u64) * (height as u64);
        let len = data.len();
        assert(3 * width * height == 3 * (wh as int)) by (nonlinear_arith)
            requires
                wh as int == width * height,
        ;
        if wh > 0x5555_5555_5555_5555u64 {
            assert(len as int <= usize::MAX);
            return None;
        }
        let expected = 3 * wh;
        if len as u64 != expected {
            return None;
        }
        if 3 * (width as u64) > usize::MAX as u64 {
            return None;
        }
        let c = canvas_from_raw(width, height, data);
        proof {
            assert forall|x: int, y: int| 0 <= x < width && 0 <= y < height implies #[trigger] canvas_at(
                c,
                x,
                y,
            ) == (
                data@[3 * (y * width + x)],
                data@[3 * (y * width + x) + 1],
                data@[3 * (y * width + x) + 2],
            ) by {
                lemma_pixel_index(x, y, width as int, height as int);
            }
        }
        Some(c)
    }

    /// The channel bytes of the canvas, pixel after pixel, row by row.
    pub fn into_bytes(self) -> (data: Vec<u8>)
        requires
            canvas_wf(self),
        ensures
            data@.len() >= 3 * canvas_width(self) * canvas_height(self),
            forall|x: int, y: int|
                0 <= x < canvas_width(self) && 0 <= y < canvas_height(self) ==> (
                    data@[3 * (y * canvas_width(self) + x)],
                    data@[3 * (y * canvas_width(self) + x) + 1],
                    data@[3 * (y * canvas_width(self) + x) + 2],
                ) == #[trigger] canvas_at(self, x, y),
    {
        let ghost c = self;
        let data = canvas_into_raw(self);
        proof {
            assert forall|x: int, y: int|
                0 <= x < canvas_width(c) && 0 <= y < canvas_height(c) implies (
                    data@[3 * (y * canvas_width(c) + x)],
                    data@[3 * (y * canvas_width(c) + x) + 1],
                    data@[3 * (y * canvas_width(c) + x) + 2],
                ) == #[trigger] canvas_at(c, x, y) by {
                lemma_pixel_index(x, y, canvas_width(c), canvas_height(c));
            }
        }
        data
    }

    /// Width and height of the canvas.
    pub fn dimensions(&self) -> (d: (u32, u32))
        ensures
            d == canvas_size(*self),
    {
        canvas_dimensions(self)
    }

    /// Replaces pixel `(x, y)`.
    pub fn put_pixel(&mut self, x: u32, y: u32, p: Pixel)
        requires
            canvas_wf(*old(self)),
            x < canvas_width(*old(self)),
            y < canvas_height(*old(self)),
        ensures
            canvas_size(*final(self)) == canvas_size(*old(self)),
            canvas_wf(*final(self)),
            canvas_at(*final(self), x as int, y as int) == triple(p),
            forall|i: int, j: int|
                0 <= i < canvas_width(*old(self)) && 0 <= j < canvas_height(*old(self)) && (i != x || j
                    != y) ==> #[trigger] canvas_at(*final(self), i, j) == canvas_at(*old(self), i, j),
    {
        let ghost before = *self;
        proof {
            lemma_pixel_index(x as int, y as int, canvas_width(before), canvas_height(before));
        }
        put_canvas_pixel(self, x, y, p);
        proof {
            let w = canvas_width(before);
            let h = canvas_height(before);
            assert forall|i: int, j: int| 0 <= i < w && 0 <= j < h && (i != x || j != y) implies #[trigger] canvas_at(
                *self,
                i,
                j,
            ) == canvas_at(before, i, j) by {
                lemma_pixel_index(i, j, w, h);
                lemma_distinct_pixel_index(i, j, x as int, y as int, w);
            }
        }
    }
}

/// The entry of pixel `(x, y)` lies inside the canvas.
pub proof fn lemma_pixel_index(x: int, y: int, w: int, h: int)
    requires
        0 <= x < w,
        0 <= y < h,
    ensures
        0 <= y * w + x < w * h,
{
    assert(0 <= y * w + x < w * h) by (nonlinear_arith)
        requires
            0 <= x < w,
            0 <= y < h,
    ;
}

/// Distinct pixels have distinct entries.
pub proof fn lemma_distinct_pixel_index(x1: int, y1: int, x2: int, y2: int, w: int)
    requires
        0 <= x1 < w,
        0 <= x2 < w,
        0 <= y1,
        0 <= y2,
        x1 != x2 || y1 != y2,
    ensures
        y1 * w + x1 != y2 * w + x2,
{
    if y1 == y2 {
    } else if y1 < y2 {
        assert(y1 * w + x1 < y2 * w + x2) by (nonlinear_arith)
            requires
                0 <= x1 < w,
                0 <= x2,
                y1 < y2,
        ;
    } else {
        assert(y2 * w + x2 < y1 * w + x1) by (nonlinear_arith)
            requires
                0 <= x2 < w,
                0 <= x1,
                y2 < y1,
        ;
    }
}

} // verus!
