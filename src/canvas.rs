//! The RGB pixel buffer that an image is rendered into.

use vstd::prelude::*;
use image::RgbImage;

verus! {

/// An `image::RgbImage`, opaque to proofs: what it holds is described by
/// `pixels_of`, `width_of` and `height_of`.
#[verifier::external_body]
pub struct Canvas {
    pub image: RgbImage,
}

/// The pixels a canvas holds, by `(x, y)`.
pub uninterp spec fn pixels_of(c: Canvas) -> Map<(u32, u32), (u8, u8, u8)>;

/// The width the canvas was made with.
pub uninterp spec fn width_of(c: Canvas) -> u32;

/// The height the canvas was made with.
pub uninterp spec fn height_of(c: Canvas) -> u32;

impl Canvas {
    /// Relies on `ImageBuffer::width`, which returns the stored width.
    #[verifier::external_body]
    pub(crate) fn width(&self) -> (r: u32)
        ensures
            r == width_of(*self),
    {
        self.image.width()
    }

    /// Relies on `ImageBuffer::height`, which returns the stored height.
    #[verifier::external_body]
    pub(crate) fn height(&self) -> (r: u32)
        ensures
            r == height_of(*self),
    {
        self.image.height()
    }

    /// Relies on `ImageBuffer::put_pixel`: it overwrites the one pixel at
    /// `(x, y)`, keeps the dimensions, and panics out of bounds.
    #[verifier::external_body]
    pub(crate) fn put(&mut self, x: u32, y: u32, rgb: (u8, u8, u8))
        requires
            x < width_of(*old(self)),
            y < height_of(*old(self)),
        ensures
            width_of(*final(self)) == width_of(*old(self)),
            height_of(*final(self)) == height_of(*old(self)),
            pixels_of(*final(self)) == pixels_of(*old(self)).insert((x, y), rgb),
    {
        self.image.put_pixel(x, y, image::Rgb([rgb.0, rgb.1, rgb.2]))
    }
}

} // verus!
