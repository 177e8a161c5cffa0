//! The plain-text image format: a tag, the width and the height, the channel
//! maximum, then the channels of every pixel, row by row, as decimal numbers.

use crate::image_utils::image::Image;
use crate::image_utils::transform::total_luminance;
use crate::pixel_utils::pixel::Pixel;
use vstd::prelude::*;
use vstd::string::StringExecFns;

verus! {

/// The character of a decimal digit.
pub open spec fn digit_char(d: int) -> char {
    if d == 0 {
        '0'
    } else if d == 1 {
        '1'
    } else if d == 2 {
        '2'
    } else if d == 3 {
        '3'
    } else if d == 4 {
        '4'
    } else if d == 5 {
        '5'
    } else if d == 6 {
        '6'
    } else if d == 7 {
        '7'
    } else if d == 8 {
        '8'
    } else {
        '9'
    }
}

/// A number in decimal, without leading zeros.
pub open spec fn decimal(n: nat) -> Seq<char>
    decreases n,
{
    if n < 10 {
        seq![digit_char(n as int)]
    } else {
        decimal(n / 10).push(digit_char((n % 10) as int))
    }
}

/// A channel value in decimal, with blanks in front up to three characters.
pub open spec fn padded(v: u8) -> Seq<char> {
    if v < 10 {
        seq![' ', ' '] + decimal(v as nat)
    } else if v < 100 {
        seq![' '] + decimal(v as nat)
    } else {
        decimal(v as nat)
    }
}

/// The text of a pixel: its three channels, each padded and followed by a
/// blank.
pub open spec fn pixel_text(p: Pixel) -> Seq<char> {
    padded(p.red) + seq![' '] + padded(p.green) + seq![' '] + padded(p.blue) + seq![' ']
}

/// The text of the pixels of a row, from left to right.
pub open spec fn line_text(line: Seq<Pixel>) -> Seq<char>
    decreases line.len(),
{
    if line.len() == 0 {
        Seq::empty()
    } else {
        line_text(line.drop_last()) + pixel_text(line.last())
    }
}

/// The text of the rows of a grid, each ended by a newline.
pub open spec fn rows_text(rows: Seq<Seq<Pixel>>) -> Seq<char>
    decreases rows.len(),
{
    if rows.len() == 0 {
        Seq::empty()
    } else {
        rows_text(rows.drop_last()) + line_text(rows.last()) + seq!['\n']
    }
}

/// The text of an image: a line with the tag, a line with the width and the
/// height, a line with the channel maximum, and the rows.
pub open spec fn image_text(
    magic: Seq<char>,
    width: nat,
    height: nat,
    scale: u8,
    rows: Seq<Seq<Pixel>>,
) -> Seq<char> {
    magic + seq!['\n'] + decimal(width) + seq![' '] + decimal(height) + seq!['\n'] + decimal(
        scale as nat,
    ) + seq!['\n'] + rows_text(rows)
}

/// The text of one decimal digit.
fn digit_text(d: usize) -> (r: &'static str)
    requires
        d < 10,
    ensures
        r@ == seq![digit_char(d as int)],
{
    proof {
        reveal_strlit("0");
        reveal_strlit("1");
        reveal_strlit("2");
        reveal_strlit("3");
        reveal_strlit("4");
        reveal_strlit("5");
        reveal_strlit("6");
        reveal_strlit("7");
        reveal_strlit("8");
        reveal_strlit("9");
    }
    let r = if d == 0 {
        "0"
    } else if d == 1 {
        "1"
    } else if d == 2 {
        "2"
    } else if d == 3 {
        "3"
    } else if d == 4 {
        "4"
    } else if d == 5 {
        "5"
    } else if d == 6 {
        "6"
    } else if d == 7 {
        "7"
    } else if d == 8 {
        "8"
    } else {
        "9"
    };
    assert(r@ =~= seq![digit_char(d as int)]);
    r
}

/// Appends `n` in decimal.
fn push_decimal(out: &mut String, n: usize)
    ensures
        final(out)@ == old(out)@ + decimal(n as nat),
    decreases n,
{
    if n >= 10 {
        push_decimal(out, n / 10);
    }
    out.append(digit_text(n % 10));
    proof {
        if n >= 10 {
            assert(final(out)@ =~= old(out)@ + decimal(n as nat));
        } else {
            assert(final(out)@ =~= old(out)@ + decimal(n as nat));
        }
    }
}

/// Appends a channel value, padded to three characters.
fn push_padded(out: &mut String, v: u8)
    ensures
        final(out)@ == old(out)@ + padded(v),
{
    proof {
        reveal_strlit(" ");
        reveal_strlit("  ");
    }
    if v < 10 {
        out.append("  ");
    } else if v < 100 {
        out.append(" ");
    }
    push_decimal(out, v as usize);
    assert(final(out)@ =~= old(out)@ + padded(v));
}

/// Appends the text of a pixel.
fn push_pixel(out: &mut String, p: Pixel)
    ensures
        final(out)@ == old(out)@ + pixel_text(p),
{
    proof {
        reveal_strlit(" ");
    }
    push_padded(out, p.red);
    out.append(" ");
    push_padded(out, p.green);
    out.append(" ");
    push_padded(out, p.blue);
    out.append(" ");
    assert(final(out)@ =~= old(out)@ + pixel_text(p));
}

/// The report on an image: its tag, its height, its width and its
/// brightness, one to a line, each behind its name.
pub open spec fn statistics_text(magic: Seq<char>, height: nat, width: nat, brightness: nat) -> Seq<
    char,
> {
    "Type:       "@ + magic + seq!['\n'] + "Height:     "@ + decimal(height) + seq!['\n']
        + "Width:      "@ + decimal(width) + seq!['\n'] + "Brightness: "@ + decimal(brightness)
        + seq!['\n']
}

impl Image {
    /// The report on the image, as `statistics_text` lays it out, or `None`
    /// for an image without pixels, which has no brightness.
    pub fn statistics(&self) -> (r: Option<String>)
        ensures
            r.is_some() <==> self.pixels.height() * self.pixels.width() > 0,
            r.is_some() ==> r.unwrap()@ == statistics_text(
                self.magic_number@,
                self.pixels.height(),
                self.pixels.width(),
                (total_luminance(self.pixels@) / ((self.pixels.height()
                    * self.pixels.width()) as int)) as nat,
            ),
    {
        proof {
            reveal_strlit("\n");
        }
        let brightness: u32 = match self.brightness() {
            Some(b) => b,
            None => {
                return None;
            },
        };
        let mut out = String::new();
        out.append("Type:       ");
        out.append(self.magic_number.as_str());
        out.append("\n");
        out.append("Height:     ");
        push_decimal(&mut out, self.pixels.nrows());
        out.append("\n");
        out.append("Width:      ");
        push_decimal(&mut out, self.pixels.ncols());
        out.append("\n");
        out.append("Brightness: ");
        push_decimal(&mut out, brightness as usize);
        out.append("\n");
        assert(out@ =~= statistics_text(
            self.magic_number@,
            self.pixels.height(),
            self.pixels.width(),
            brightness as nat,
        ));
        Some(out)
    }

    /// The text of the image in the plain-text format.
    pub fn write(&self) -> (text: String)
        ensures
            text@ == image_text(
                self.magic_number@,
                self.pixels.width(),
                self.pixels.height(),
                self.scale,
                self.pixels@,
            ),
    {
        proof {
            reveal_strlit(" ");
            reveal_strlit("\n");
        }
        let height: usize = self.pixels.nrows();
        let width: usize = self.pixels.ncols();
        let ghost rows = self.pixels@;
        let mut out = String::new();
        out.append(self.magic_number.as_str());
        out.append("\n");
        push_decimal(&mut out, width);
        out.append(" ");
        push_decimal(&mut out, height);
        out.append("\n");
        push_decimal(&mut out, self.scale as usize);
        out.append("\n");
        let ghost head = out@;
        assert(head =~= image_text(
            self.magic_number@,
            width as nat,
            height as nat,
            self.scale,
            Seq::empty(),
        ));
        let mut r: usize = 0;
        while r < height
            invariant
                0 <= r <= height,
                self.pixels.wf(),
                rows == self.pixels@,
                rows.len() == height,
                self.pixels.width() == width,
                out@ == head + rows_text(rows.take(r as int)),
            decreases height - r,
        {
            let ghost line = rows[r as int];
            let ghost start = out@;
            let mut c: usize = 0;
            while c < width
                invariant
                    0 <= r < height,
                    0 <= c <= width,
                    self.pixels.wf(),
                    rows == self.pixels@,
                    rows.len() == height,
                    self.pixels.width() == width,
                    line == rows[r as int],
                    line.len() == width,
                    out@ == start + line_text(line.take(c as int)),
                decreases width - c,
            {
                let p: Pixel = self.pixels.at(r, c);
                let ghost so_far = out@;
                push_pixel(&mut out, p);
                proof {
                    assert(line.take(c + 1).drop_last() =~= line.take(c as int));
                    assert(out@ =~= start + line_text(line.take(c + 1)));
                }
                c = c + 1;
            }
            out.append("\n");
            proof {
                reveal_strlit("\n");
                assert(line.take(width as int) =~= line);
                assert(rows.take(r + 1).drop_last() =~= rows.take(r as int));
                assert(rows.take(r + 1).last() == line);
                assert(rows_text(rows.take(r + 1)) == rows_text(rows.take(r as int)) + line_text(
                    line,
                ) + seq!['\n']);
                assert(out@ =~= start + line_text(line) + seq!['\n']);
                assert(out@ =~= head + rows_text(rows.take(r + 1)));
            }
            r = r + 1;
        }
        proof {
            assert(rows.take(height as int) =~= rows);
        }
        out
    }
}

} // verus!
