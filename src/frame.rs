//! The output image: rows of 8-bit RGB pixels, row 0 at the top, filled one
//! rendered row at a time.

use vstd::prelude::*;
use crate::raster::{Raster, Rgb8, raster_rows, raster_width, raster_shape, packs};
use crate::schedule::{flipped_row, output_row};
use crate::color::{append_decimal, write_color, ppm_text, row_lines, rows_lines, color_line};

verus! {

/// The pixel buffer that a render fills.
pub struct Frame {
    raster: Raster,
    width: u32,
    height: u32,
}

/// A row of `w` black pixels.
pub open spec fn black_row(w: nat) -> Seq<Rgb8> {
    Seq::new(w, |x: int| [0u8, 0u8, 0u8])
}

impl View for Frame {
    type V = Seq<Seq<Rgb8>>;

    /// The rows from the top, each from the left.
    closed spec fn view(&self) -> Seq<Seq<Rgb8>> {
        raster_rows(self.raster)
    }
}

impl Frame {
    /// The frame's width and height agree with its pixels.
    pub closed spec fn wf(&self) -> bool {
        &&& raster_shape(self.raster, self.width as nat, self.height as nat)
        &&& 3 * (self.width as int) * (self.height as int) <= usize::MAX
    }

    pub closed spec fn spec_width(&self) -> nat {
        self.width as nat
    }

    pub closed spec fn spec_height(&self) -> nat {
        self.height as nat
    }

    /// A black frame of `width` by `height` pixels.
    pub fn new(width: u32, height: u32) -> (r: Frame)
        requires
            3 * (width as int) * (height as int) <= usize::MAX,
        ensures
            r.wf(),
            r.spec_width() == width,
            r.spec_height() == height,
            r@ == Seq::new(height as nat, |y: int| black_row(width as nat)),
    {
        let raster = Raster::new(width, height);
        let r = Frame { raster, width, height };
        assert(r@ =~= Seq::new(height as nat, |y: int| black_row(width as nat)));
        r
    }

    pub fn width(&self) -> (r: u32)
        ensures
            r == self.spec_width(),
    {
        self.width
    }

    pub fn height(&self) -> (r: u32)
        ensures
            r == self.spec_height(),
    {
        self.height
    }

    /// The pixel in column `x` of output row `y`.
    pub fn pixel(&self, x: u32, y: u32) -> (r: Rgb8)
        requires
            self.wf(),
            x < self.spec_width(),
            y < self.spec_height(),
        ensures
            r == self@[y as int][x as int],
    {
        self.raster.get(x, y)
    }

    /// Stores the pixels rendered for image row `row`, counted from the
    /// bottom, in the output row where it lands; no other row changes.
    pub fn commit_row(&mut self, row: u32, pixels: &Vec<Rgb8>)
        requires
            old(self).wf(),
            row < old(self).spec_height(),
            pixels@.len() == old(self).spec_width(),
        ensures
            final(self).wf(),
            final(self).spec_width() == old(self).spec_width(),
            final(self).spec_height() == old(self).spec_height(),
            final(self)@ == old(self)@.update(
                flipped_row(old(self).spec_height(), row as nat),
                pixels@,
            ),
    {
        let y = output_row(self.height, row);
        let ghost before = raster_rows(self.raster);
        let mut x: u32 = 0;
        assert(before[y as int].len() == self.width);
        assert(pixels@.subrange(0, 0) + before[y as int].subrange(0, self.width as int) =~= before[y as int]);
        assert(before.update(y as int, pixels@.subrange(0, 0) + before[y as int].subrange(0, self.width as int))
            =~= before);
        while x < self.width
            invariant
                y < self.height,
                y == flipped_row(self.height as nat, row as nat),
                x <= self.width,
                pixels@.len() == self.width,
                raster_width(self.raster) == self.width,
                before.len() == self.height,
                3 * (self.width as int) * (self.height as int) <= usize::MAX,
                forall|i: int| 0 <= i < before.len() ==> (#[trigger] before[i]).len() == self.width,
                raster_rows(self.raster) == before.update(
                    y as int,
                    pixels@.subrange(0, x as int) + before[y as int].subrange(
                        x as int,
                        self.width as int,
                    ),
                ),
            decreases self.width - x,
        {
            let px = pixels[x as usize];
            self.raster.put(x, y, px);
            x = x + 1;
            assert(pixels@.subrange(0, x as int) + before[y as int].subrange(x as int, self.width as int)
                =~= (pixels@.subrange(0, x - 1) + before[y as int].subrange(x - 1, self.width as int)).update(
                x - 1,
                px,
            ));
            assert(raster_rows(self.raster) =~= before.update(
                y as int,
                pixels@.subrange(0, x as int) + before[y as int].subrange(x as int, self.width as int),
            ));
        }
        assert(pixels@.subrange(0, self.width as int) + before[y as int].subrange(
            self.width as int,
            self.width as int,
        ) =~= pixels@);
    }

    /// The frame as a plain-text image, rows from the top, pixels from the
    /// left.
    pub fn to_ppm(&self) -> (r: String)
        requires
            self.wf(),
        ensures
            r@ == ppm_text(self@, self.spec_width(), self.spec_height()),
    {
        proof {
            reveal_strlit("P3\n");
            reveal_strlit(" ");
            reveal_strlit("\n255\n");
            reveal_strlit("\n");
        }
        let mut s = String::new();
        s.append("P3\n");
        append_decimal(&mut s, self.width);
        s.append(" ");
        append_decimal(&mut s, self.height);
        s.append("\n255\n");
        let ghost header = s@;
        let ghost rows = self@;
        assert(rows_lines(rows.subrange(0, 0)) =~= Seq::<char>::empty());
        assert(header + rows_lines(rows.subrange(0, 0)) =~= header);
        let mut y: u32 = 0;
        while y < self.height
            invariant
                self.wf(),
                rows == self@,
                y <= self.height,
                s@ == header + rows_lines(rows.subrange(0, y as int)),
            decreases self.height - y,
        {
            let ghost before = s@;
            let ghost row = rows[y as int];
            assert(row.len() == self.width);
            assert(row_lines(row.subrange(0, 0)) =~= Seq::<char>::empty());
            assert(before + row_lines(row.subrange(0, 0)) =~= before);
            let mut x: u32 = 0;
            while x < self.width
                invariant
                    self.wf(),
                    rows == self@,
                    y < self.height,
                    row == rows[y as int],
                    row.len() == self.width,
                    x <= self.width,
                    s@ == before + row_lines(row.subrange(0, x as int)),
                decreases self.width - x,
            {
                proof {
                    reveal_strlit("\n");
                }
                let px = self.raster.get(x, y);
                let ghost mid = s@;
                let line = write_color(px);
                s.append(line.as_str());
                s.append("\n");
                proof {
                    assert(px == row[x as int]);
                    assert(s@ == mid + color_line(px) + seq!['\n']);
                    let sub = row.subrange(0, x + 1);
                    assert(sub.drop_last() =~= row.subrange(0, x as int));
                    assert(sub.last() == row[x as int]);
                }
                x = x + 1;
                assert(s@ =~= before + row_lines(row.subrange(0, x as int)));
            }
            proof {
                let sub = rows.subrange(0, y + 1);
                assert(sub.drop_last() =~= rows.subrange(0, y as int));
                assert(sub.last() == row);
                assert(row.subrange(0, self.width as int) =~= row);
            }
            y = y + 1;
            assert(s@ =~= header + rows_lines(rows.subrange(0, y as int)));
        }
        assert(rows.subrange(0, self.height as int) =~= rows);
        assert(s@ =~= ppm_text(self@, self.spec_width(), self.spec_height()));
        s
    }

    /// The frame's bytes, three per pixel, row-major from the top.
    pub fn into_raw(self) -> (r: Vec<u8>)
        requires
            self.wf(),
        ensures
            packs(r@, self@, self.spec_width()),
    {
        self.raster.into_raw()
    }
}

} // verus!
