//! Textures whose lookups are exact: a constant color, and nearest-pixel
//! sampling of an RGB image.

use vstd::prelude::*;
use crate::raster::{Raster, Rgb8, raster_rows, raster_shape, packs};

verus! {

/// A texture with one color everywhere, of whatever color type the caller
/// uses.
pub struct SolidColor<C> {
    color_value: C,
}

impl<C: Copy> SolidColor<C> {
    pub closed spec fn color(&self) -> C {
        self.color_value
    }

    pub fn new(c: C) -> (r: SolidColor<C>)
        ensures
            r.color() == c,
    {
        SolidColor { color_value: c }
    }

    /// The color, at any texture coordinate.
    pub fn value(&self) -> (r: C)
        ensures
            r == self.color(),
    {
        self.color_value
    }
}

/// An image sampled at the nearest pixel.
pub struct ImageTexture {
    image: Raster,
    width: u32,
    height: u32,
}

/// `i` limited to at most `n - 1`.
pub open spec fn clamp_index(i: u32, n: nat) -> int {
    if i >= n {
        n - 1
    } else {
        i as int
    }
}

impl View for ImageTexture {
    type V = Seq<Seq<Rgb8>>;

    /// The image's rows from the top, each from the left.
    closed spec fn view(&self) -> Seq<Seq<Rgb8>> {
        raster_rows(self.image)
    }
}

impl ImageTexture {
    /// The image is not empty, and its width and height agree with its pixels.
    pub closed spec fn wf(&self) -> bool {
        &&& raster_shape(self.image, self.width as nat, self.height as nat)
        &&& self.width > 0
        &&& self.height > 0
    }

    pub closed spec fn spec_width(&self) -> nat {
        self.width as nat
    }

    pub closed spec fn spec_height(&self) -> nat {
        self.height as nat
    }

    /// The texture over the `width` by `height` image whose pixels `bytes`
    /// holds, three bytes each, row-major from the top; none when the image is
    /// empty or `bytes` is too short for it.
    pub fn new(width: u32, height: u32, bytes: Vec<u8>) -> (r: Option<ImageTexture>)
        ensures
            r is Some <==> width > 0 && height > 0 && 3 * (width as int) * (height as int)
                <= bytes@.len(),
            r matches Some(t) ==> {
                &&& t.wf()
                &&& t.spec_width() == width
                &&& t.spec_height() == height
                &&& packs(bytes@, t@, width as nat)
            },
    {
        if width == 0 || height == 0 {
            return None;
        }
        match Raster::from_raw(width, height, bytes) {
            Some(image) => Some(ImageTexture { image, width, height }),
            None => None,
        }
    }

    /// The pixel in column `i` and row `j`, each limited to the last one.
    pub fn texel(&self, i: u32, j: u32) -> (r: Rgb8)
        requires
            self.wf(),
        ensures
            r == self@[clamp_index(j, self.spec_height())][clamp_index(i, self.spec_width())],
    {
        let x = if i >= self.width {
            self.width - 1
        } else {
            i
        };
        let y = if j >= self.height {
            self.height - 1
        } else {
            j
        };
        self.image.get(x, y)
    }

    pub fn width(&self) -> (r: u32)
        ensures
            r == self.spec_width(),
    {
        self.width
    }

    pub fn height(&self) -> (r: u32)
        ensures
            r == self.spec_height(),
    {
        self.height
    }
}

} // verus!
