//! RGBA image buffer handed to the rendering collaborators, produced through
//! the `image` crate.  The buffer is held opaquely (its type parameter
//! carries the crate's `Pixel` trait bound, which the verifier cannot take);
//! its dimensions and pixel contents are tracked through the two names
//! below, whose meaning the trusted wrappers pin to the crate's operations.
use vstd::prelude::*;

verus! {

/// Opaque holder of an `image::RgbaImage`.
#[verifier::external_body]
pub struct RgbaBuffer {
    img: image::RgbaImage,
}

/// Width and height of an RGBA image buffer.
pub uninterp spec fn image_dims(img: RgbaBuffer) -> (u32, u32);

/// Pixel contents of an RGBA image buffer: the channel sequence
/// `[r, g, b, a]` of each cell, keyed by `(x, y)`.
pub uninterp spec fn image_pixels(img: RgbaBuffer) -> Map<(int, int), Seq<u8>>;

impl RgbaBuffer {
    /// Relies on `image::ImageBuffer::new`: it allocates a width-by-height
    /// buffer backed by `vec![0; 4 * width * height]`, so every channel of
    /// every pixel is zero; it panics only when that byte count overflows
    /// `usize`, which the precondition rules out.
    #[verifier::external_body]
    pub(crate) fn new(width: u32, height: u32) -> (img: RgbaBuffer)
        requires
            4 * width * height <= usize::MAX,
        ensures
            image_dims(img) == (width, height),
            image_pixels(img).dom() == Set::new(
                |p: (int, int)| 0 <= p.0 < width as int && 0 <= p.1 < height as int,
            ),
            forall|x: int, y: int|
                0 <= x < width as int && 0 <= y < height as int ==> image_pixels(img)[(x, y)]
                    =~= seq![0u8, 0u8, 0u8, 0u8],
    {
        RgbaBuffer { img: image::RgbaImage::new(width, height) }
    }

    /// Relies on `image::ImageBuffer::put_pixel`: it overwrites exactly the
    /// pixel at `(x, y)` and panics when the coordinates are out of bounds,
    /// which the precondition rules out.
    #[verifier::external_body]
    pub(crate) fn put_pixel(&mut self, x: u32, y: u32, r: u8, g: u8, b: u8, a: u8)
        requires
            x < image_dims(*old(self)).0,
            y < image_dims(*old(self)).1,
        ensures
            image_dims(*final(self)) == image_dims(*old(self)),
            image_pixels(*final(self)) == image_pixels(*old(self)).insert(
                (x as int, y as int),
                seq![r, g, b, a],
            ),
    {
        self.img.put_pixel(x, y, image::Rgba([r, g, b, a]));
    }

    /// Relies on `image::ImageBuffer::width`.
    #[verifier::external_body]
    pub fn width(&self) -> (w: u32)
        ensures
            w == image_dims(*self).0,
    {
        self.img.width()
    }

    /// Relies on `image::ImageBuffer::height`.
    #[verifier::external_body]
    pub fn height(&self) -> (h: u32)
        ensures
            h == image_dims(*self).1,
    {
        self.img.height()
    }

    /// Relies on `image::ImageBuffer::get_pixel`: it returns the pixel at
    /// `(x, y)` and panics out of bounds, which the precondition rules out.
    #[verifier::external_body]
    pub fn get_pixel(&self, x: u32, y: u32) -> (px: [u8; 4])
        requires
            x < image_dims(*self).0,
            y < image_dims(*self).1,
        ensures
            px@ == image_pixels(*self)[(x as int, y as int)],
    {
        self.img.get_pixel(x, y).0
    }

    /// Relies on `image::ImageBuffer::into_raw`: the backing container is
    /// row-major with four bytes per pixel in `[r, g, b, a]` order, and a
    /// buffer built by `RgbaBuffer::new` carries exactly that many bytes.
    #[verifier::external_body]
    pub fn into_raw(self) -> (bytes: Vec<u8>)
        ensures
            bytes@.len() == 4 * image_dims(self).0 * image_dims(self).1,
            forall|x: int, y: int, c: int|
                0 <= x < image_dims(self).0 as int && 0 <= y < image_dims(self).1 as int && 0 <= c
                    < 4 ==> bytes@[4 * (y * image_dims(self).0 as int + x) + c] == image_pixels(
                    self,
                )[(x, y)][c],
    {
        self.img.into_raw()
    }
}

/// An RGBA image produced by the simulation for texture upload.
pub struct Texture {
    pub image: RgbaBuffer,
}

impl Texture {
    /// A width-by-height RGBA image with every channel zero.
    pub fn new_rgba(width: u32, height: u32) -> (t: Texture)
        requires
            4 * width * height <= usize::MAX,
        ensures
            image_dims(t.image) == (width, height),
            image_pixels(t.image).dom() == Set::new(
                |p: (int, int)| 0 <= p.0 < width as int && 0 <= p.1 < height as int,
            ),
            forall|x: int, y: int|
                0 <= x < width as int && 0 <= y < height as int ==> image_pixels(t.image)[(x, y)]
                    =~= seq![0u8, 0u8, 0u8, 0u8],
    {
        Texture { image: RgbaBuffer::new(width, height) }
    }
}

} // verus!
