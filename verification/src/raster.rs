//! The output canvas: an RGB image buffer of the `image` crate, held in a
//! private field and reached through trusted wrappers.
//!
//! The buffer's contents are modelled as a map from coordinates to channel
//! triples, its dimensions as a pair; both are opaque names, so everything
//! the library proves about a painted canvas flows through the wrappers'
//! contracts alone.

use vstd::prelude::*;

verus! {

/// An owned RGB raster the quantizer repaints, one mean color per bucket.
#[verifier::external_body]
pub struct Canvas {
    inner: image::RgbImage,
}

/// What the canvas holds: the channel triple stored at each coordinate.
pub uninterp spec fn canvas_pixels(c: Canvas) -> Map<(int, int), (u8, u8, u8)>;

/// The canvas's width and height.
pub uninterp spec fn canvas_dims(c: Canvas) -> (int, int);

impl Canvas {
    /// Relies on `ImageBuffer::new`: an all-black buffer of the given
    /// dimensions. `new` panics when the pixel data would overflow a
    /// vector's maximum size, so that is excluded here.
    #[verifier::external_body]
    pub fn new(width: u32, height: u32) -> (c: Canvas)
        requires
            3 * (width as int) * (height as int) <= usize::MAX,
        ensures
            canvas_dims(c) == (width as int, height as int),
            canvas_pixels(c).dom() == Set::new(
                |k: (int, int)| 0 <= k.0 < width && 0 <= k.1 < height,
            ),
            forall|x: int, y: int|
                0 <= x < width && 0 <= y < height ==> canvas_pixels(c)[(x, y)] == (
                0u8,
                0u8,
                0u8,
                ),
    {
        Canvas { inner: image::ImageBuffer::new(width, height) }
    }

    /// Relies on `ImageBuffer::put_pixel`: stores the given channel triple
    /// at `(x, y)` and touches nothing else; it panics out of bounds, so
    /// the bounds are required here.
    #[verifier::external_body]
    pub fn put_pixel(&mut self, x: u32, y: u32, r: u8, g: u8, b: u8)
        requires
            (x as int) < canvas_dims(*old(self)).0,
            (y as int) < canvas_dims(*old(self)).1,
        ensures
            canvas_dims(*final(self)) == canvas_dims(*old(self)),
            canvas_pixels(*final(self)) == canvas_pixels(*old(self)).insert(
                (x as int, y as int),
                (r, g, b),
            ),
    {
        self.inner.put_pixel(x, y, image::Rgb([r, g, b]));
    }

    /// Relies on `ImageBuffer::get_pixel`: reads back the channel triple
    /// stored at `(x, y)`; it panics out of bounds, so the bounds are
    /// required here.
    #[verifier::external_body]
    pub fn get_pixel(&self, x: u32, y: u32) -> (r: (u8, u8, u8))
        requires
            (x as int) < canvas_dims(*self).0,
            (y as int) < canvas_dims(*self).1,
        ensures
            r == canvas_pixels(*self)[(x as int, y as int)],
    {
        let p = self.inner.get_pixel(x, y);
        (p.0[0], p.0[1], p.0[2])
    }

    /// Relies on `ImageBuffer::width`.
    #[verifier::external_body]
    pub fn width(&self) -> (r: u32)
        ensures
            r as int == canvas_dims(*self).0,
    {
        self.inner.width()
    }

    /// Relies on `ImageBuffer::height`.
    #[verifier::external_body]
    pub fn height(&self) -> (r: u32)
        ensures
            r as int == canvas_dims(*self).1,
    {
        self.inner.height()
    }
}

} // verus!
