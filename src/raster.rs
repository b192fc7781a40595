//! An 8-bit RGB raster of the `image` crate, seen as rows of pixels.

use vstd::prelude::*;

verus! {

/// One pixel as its red, green and blue channels.
pub type Rgb8 = [u8; 3];

/// Holds an `image::RgbImage`, whose pixel type Verus cannot name.
#[verifier::external_body]
pub struct Raster {
    img: image::RgbImage,
}

/// The pixels of a raster, row by row from the top, each row left to right.
pub uninterp spec fn raster_rows(r: Raster) -> Seq<Seq<Rgb8>>;

/// The width of a raster, in pixels.
pub uninterp spec fn raster_width(r: Raster) -> nat;

/// `r` is `w` pixels wide and `h` high, and each of its rows holds `w` pixels.
pub open spec fn raster_shape(r: Raster, w: nat, h: nat) -> bool {
    &&& raster_width(r) == w
    &&& raster_rows(r).len() == h
    &&& forall|y: int| 0 <= y < h ==> (#[trigger] raster_rows(r)[y]).len() == w
}

/// The pixel that three bytes from offset `i` of `bytes` spell.
pub open spec fn pixel_at(bytes: Seq<u8>, i: int) -> Rgb8 {
    [bytes[i], bytes[i + 1], bytes[i + 2]]
}

/// `bytes` begins with the pixels of `rows`, three bytes each, row-major.
pub open spec fn packs(bytes: Seq<u8>, rows: Seq<Seq<Rgb8>>, w: nat) -> bool {
    &&& 3 * w * rows.len() <= bytes.len()
    &&& forall|y: int, x: int|
        0 <= y < rows.len() && 0 <= x < w ==> #[trigger] rows[y][x] == pixel_at(
            bytes,
            3 * (y * w + x),
        )
}

impl Raster {
    /// Relies on `ImageBuffer::new`: a zeroed raster of the given size. It
    /// panics when three bytes per pixel overflow `usize`.
    #[verifier::external_body]
    pub(crate) fn new(width: u32, height: u32) -> (r: Raster)
        requires
            3 * (width as int) * (height as int) <= usize::MAX,
        ensures
            raster_shape(r, width as nat, height as nat),
            raster_rows(r) == Seq::new(
                height as nat,
                |y: int| Seq::new(width as nat, |x: int| [0u8, 0u8, 0u8]),
            ),
    {
        Raster { img: image::RgbImage::new(width, height) }
    }

    /// Relies on `ImageBuffer::from_raw`: a raster over `buf` when `buf` holds
    /// at least three bytes for each pixel, none otherwise.
    #[verifier::external_body]
    pub(crate) fn from_raw(width: u32, height: u32, buf: Vec<u8>) -> (r: Option<Raster>)
        ensures
            r is Some <==> 3 * (width as int) * (height as int) <= buf@.len(),
            r is Some ==> raster_shape(r->0, width as nat, height as nat) && packs(
                buf@,
                raster_rows(r->0),
                width as nat,
            ),
    {
        image::RgbImage::from_raw(width, height, buf).map(|img| Raster { img })
    }

    /// Relies on `ImageBuffer::into_raw`: the bytes of the raster, three per
    /// pixel, row-major.
    #[verifier::external_body]
    pub(crate) fn into_raw(self) -> (r: Vec<u8>)
        ensures
            packs(r@, raster_rows(self), raster_width(self)),
    {
        self.img.into_raw()
    }

    /// Relies on `ImageBuffer::get_pixel`: the pixel in column `x` of row `y`.
    /// It panics outside the raster.
    #[verifier::external_body]
    pub(crate) fn get(&self, x: u32, y: u32) -> (r: Rgb8)
        requires
            y < raster_rows(*self).len(),
            x < raster_width(*self),
        ensures
            r == raster_rows(*self)[y as int][x as int],
    {
        self.img.get_pixel(x, y).0
    }

    /// Relies on `ImageBuffer::put_pixel`: replaces the pixel in column `x` of
    /// row `y` and nothing else. It panics outside the raster.
    #[verifier::external_body]
    pub(crate) fn put(&mut self, x: u32, y: u32, px: Rgb8)
        requires
            y < raster_rows(*old(self)).len(),
            x < raster_width(*old(self)),
        ensures
            raster_width(*final(self)) == raster_width(*old(self)),
            raster_rows(*final(self)) == raster_rows(*old(self)).update(
                y as int,
                raster_rows(*old(self))[y as int].update(x as int, px),
            ),
    {
        self.img.put_pixel(x, y, image::Rgb(px))
    }
}

} // verus!
