//! The RGBA image buffer of the `image` crate, as the library sees it: a map
//! from in-bounds pixel coordinates to their four channel values, and the
//! width and height the buffer was made with.

use vstd::prelude::*;

verus! {

/// An `image::RgbaImage` owned by the library. The buffer is reached only
/// through the methods below, whose contracts speak of `canvas_pixels` and
/// `canvas_size`.
#[verifier::external_body]
pub struct RgbaCanvas {
    img: image::RgbaImage,
}

/// The channels `[r, g, b, a]` of every pixel of the canvas, keyed by `(x, y)`.
pub uninterp spec fn canvas_pixels(c: RgbaCanvas) -> Map<(u32, u32), [u8; 4]>;

/// The `(width, height)` the canvas was made with.
pub uninterp spec fn canvas_size(c: RgbaCanvas) -> (u32, u32);

/// Whether `(x, y)` lies inside an image of the given size.
pub open spec fn in_image(size: (u32, u32), x: int, y: int) -> bool {
    0 <= x < size.0 && 0 <= y < size.1
}

/// The four bytes of pixel `(x, y)` in a row-major RGBA byte buffer of width `w`.
pub open spec fn raw_pixel(data: Seq<u8>, w: int, x: int, y: int) -> [u8; 4] {
    let i = 4 * (y * w + x);
    [data[i], data[i + 1], data[i + 2], data[i + 3]]
}

impl RgbaCanvas {
    /// `ImageBuffer::from_raw`: the `image` source computes the needed length
    /// as `(4 * width) * height` with two checked multiplications in `usize`,
    /// and accepts the buffer exactly when neither step overflows and the
    /// product does not exceed its length; it then reads pixel `(x, y)` from
    /// bytes `4 * (y * width + x)` on.
    #[verifier::external_body]
    pub fn from_raw(width: u32, height: u32, data: Vec<u8>) -> (res: Option<RgbaCanvas>)
        ensures
            res is Some <==> (4 * width <= usize::MAX && 4 * width * height <= usize::MAX
                && 4 * width * height <= data@.len()),
            res matches Some(c) ==> {
                &&& canvas_size(c) == (width, height)
                &&& forall|x: u32, y: u32| #![trigger canvas_pixels(c)[(x, y)]]
                    x < width && y < height ==> canvas_pixels(c).contains_key((x, y))
                        && canvas_pixels(c)[(x, y)] == raw_pixel(data@, width as int, x as int, y as int)
            },
    {
        image::RgbaImage::from_raw(width, height, data).map(|img| RgbaCanvas { img })
    }

    /// `ImageBuffer::into_raw`: the `image` source hands back the byte buffer
    /// the image holds, row-major with four bytes per pixel; it is at least
    /// `4 * width * height` long.
    #[verifier::external_body]
    pub fn into_raw(self) -> (data: Vec<u8>)
        ensures
            4 * canvas_size(self).0 * canvas_size(self).1 <= data@.len(),
            forall|x: u32, y: u32| #![trigger canvas_pixels(self)[(x, y)]]
                x < canvas_size(self).0 && y < canvas_size(self).1
                    ==> canvas_pixels(self)[(x, y)] == raw_pixel(data@, canvas_size(self).0 as int, x as int, y as int),
    {
        self.img.into_raw()
    }

    /// `ImageBuffer::width`.
    #[verifier::external_body]
    pub(crate) fn width(&self) -> (w: u32)
        ensures
            w == canvas_size(*self).0,
    {
        self.img.width()
    }

    /// `ImageBuffer::height`.
    #[verifier::external_body]
    pub(crate) fn height(&self) -> (h: u32)
        ensures
            h == canvas_size(*self).1,
    {
        self.img.height()
    }

    /// `ImageBuffer::put_pixel`: the `image` source writes the four channels
    /// of pixel `(x, y)` and nothing else, and panics when `(x, y)` is out of
    /// bounds.
    #[verifier::external_body]
    pub(crate) fn put_pixel(&mut self, x: u32, y: u32, color: [u8; 4])
        requires
            in_image(canvas_size(*old(self)), x as int, y as int),
        ensures
            canvas_size(*final(self)) == canvas_size(*old(self)),
            canvas_pixels(*final(self)) == canvas_pixels(*old(self)).insert((x, y), color),
    {
        self.img.put_pixel(x, y, image::Rgba(color));
    }

    /// `ImageBuffer::get_pixel_mut`, with the channels of the returned pixel
    /// overwritten: the `image` source hands out the four channels of pixel
    /// `(x, y)` (panicking when it is out of bounds), so the pixel map gets
    /// `color` there and the size stays.
    #[verifier::external_body]
    pub(crate) fn set_channels(&mut self, x: u32, y: u32, color: [u8; 4])
        requires
            in_image(canvas_size(*old(self)), x as int, y as int),
        ensures
            canvas_size(*final(self)) == canvas_size(*old(self)),
            canvas_pixels(*final(self)) == canvas_pixels(*old(self)).insert((x, y), color),
    {
        self.img.get_pixel_mut(x, y).0 = color;
    }
}

} // verus!
