//! Text form of a finished pixel, as one line of a plain-text image.

use vstd::prelude::*;
use crate::raster::Rgb8;

verus! {

/// The decimal digit character for `d < 10`.
pub open spec fn digit_char(d: nat) -> char {
    ((d + '0' as nat) as u8) as char
}

/// The decimal numeral of `n`, without leading zeros.
pub open spec fn decimal(n: nat) -> Seq<char>
    decreases n,
{
    if n < 10 {
        seq![digit_char(n)]
    } else {
        decimal(n / 10).push(digit_char(n % 10))
    }
}

/// The lines of the pixels of `row`, left to right, each ended by a newline.
pub open spec fn row_lines(row: Seq<Rgb8>) -> Seq<char>
    decreases row.len(),
{
    if row.len() == 0 {
        Seq::empty()
    } else {
        row_lines(row.drop_last()) + color_line(row.last()) + seq!['\n']
    }
}

/// The lines of the pixels of `rows`, top to bottom.
pub open spec fn rows_lines(rows: Seq<Seq<Rgb8>>) -> Seq<char>
    decreases rows.len(),
{
    if rows.len() == 0 {
        Seq::empty()
    } else {
        rows_lines(rows.drop_last()) + row_lines(rows.last())
    }
}

/// A plain-text image: the header `P3`, the width and the height, the
/// channel maximum 255, then one line per pixel.
pub open spec fn ppm_text(rows: Seq<Seq<Rgb8>>, w: nat, h: nat) -> Seq<char> {
    seq!['P', '3', '\n'] + decimal(w) + seq![' '] + decimal(h) + seq!['\n', '2', '5', '5', '\n']
        + rows_lines(rows)
}

/// The channels of `p` as decimal numerals separated by single spaces.
pub open spec fn color_line(p: Rgb8) -> Seq<char> {
    decimal(p[0] as nat) + seq![' '] + decimal(p[1] as nat) + seq![' '] + decimal(p[2] as nat)
}

fn digit_str(d: u8) -> (r: &'static str)
    requires
        d < 10,
    ensures
        r@ == seq![digit_char(d as nat)],
{
    proof {
        reveal_strlit("0");
        reveal_strlit("1");
        reveal_strlit("2");
        reveal_strlit("3");
        reveal_strlit("4");
        reveal_strlit("5");
        reveal_strlit("6");
        reveal_strlit("7");
        reveal_strlit("8");
        reveal_strlit("9");
    }
    let r = match d {
        0 => "0",
        1 => "1",
        2 => "2",
        3 => "3",
        4 => "4",
        5 => "5",
        6 => "6",
        7 => "7",
        8 => "8",
        _ => "9",
    };
    assert(r@ =~= seq![digit_char(d as nat)]);
    r
}

/// Appends the decimal numeral of `n`.
pub fn append_decimal(s: &mut String, n: u32)
    ensures
        final(s)@ == old(s)@ + decimal(n as nat),
    decreases n,
{
    if n >= 10 {
        append_decimal(s, n / 10);
    }
    s.append(digit_str((n % 10) as u8));
    assert(s@ =~= old(s)@ + decimal(n as nat));
}

/// The line "r g b" for a quantized pixel.
pub fn write_color(pixel: Rgb8) -> (r: String)
    ensures
        r@ == color_line(pixel),
{
    proof {
        reveal_strlit(" ");
    }
    let mut s = String::new();
    append_decimal(&mut s, pixel[0] as u32);
    s.append(" ");
    append_decimal(&mut s, pixel[1] as u32);
    s.append(" ");
    append_decimal(&mut s, pixel[2] as u32);
    assert(s@ =~= color_line(pixel));
    s
}

} // verus!
