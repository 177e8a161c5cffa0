//! Reading gives back what writing wrote.

use crate::grid::{channel_rows, rectangular};
use crate::image_utils::parse::{
    body_start, channel, channels_of, digit_value, digits_value, find, good_values, is_digit,
    is_space, line_end, line_stop, parse_number, read_error, read_height, read_magic,
    read_pixels, read_scale, read_width, second_line, third_line, token_end, tokens,
    unsigned_part, values_error, width_end,
};
use crate::image_utils::ppm::{decimal, image_text, line_text, padded, pixel_text, rows_text};
use crate::pixel_utils::pixel::Pixel;
use vstd::prelude::*;

verus! {

/// A number written in decimal is made of digits, at least one, and has the
/// value of the number.
pub proof fn lemma_decimal_is_number(n: nat)
    ensures
        decimal(n).len() >= 1,
        forall|i: int| 0 <= i < decimal(n).len() ==> is_digit(#[trigger] decimal(n)[i]),
        digits_value(decimal(n)) == n,
    decreases n,
{
    if n < 10 {
        let d = decimal(n);
        assert(d.drop_last() =~= Seq::<char>::empty());
        assert(digits_value(d.drop_last()) == 0);
        assert(digit_value(d.last()) == n);
    } else {
        lemma_decimal_is_number(n / 10);
        let d = decimal(n);
        assert(d.drop_last() =~= decimal(n / 10));
        assert(digit_value(d.last()) == n % 10);
    }
}

/// A number written in decimal reads as that number, where the number is
/// within the limit.
pub proof fn lemma_parse_decimal(n: nat, max: nat)
    requires
        n <= max,
    ensures
        parse_number(decimal(n), max) == Some(n),
{
    lemma_decimal_is_number(n);
    assert(is_digit(decimal(n)[0]));
    assert(unsigned_part(decimal(n)) == decimal(n));
}

/// `find` stops at the first place that holds the mark.
pub proof fn lemma_find_at(text: Seq<char>, mark: char, from: int, to: int, at: int)
    requires
        0 <= from <= at < to <= text.len(),
        text[at] == mark,
        forall|i: int| from <= i < at ==> text[i] != mark,
    ensures
        find(text, mark, from, to) == at,
    decreases at - from,
{
    if from < at {
        lemma_find_at(text, mark, from + 1, to, at);
    }
}

/// `find` runs to the end where no place holds the mark.
pub proof fn lemma_find_absent(text: Seq<char>, mark: char, from: int, to: int)
    requires
        0 <= from <= to <= text.len(),
        forall|i: int| from <= i < to ==> text[i] != mark,
    ensures
        find(text, mark, from, to) == to,
    decreases to - from,
{
    if from < to {
        lemma_find_absent(text, mark, from + 1, to);
    }
}

/// White space in front of a place adds no value.
pub proof fn lemma_tokens_skip(text: Seq<char>, from: int, at: int)
    requires
        0 <= from <= at <= text.len(),
        forall|i: int| from <= i < at ==> is_space(#[trigger] text[i]),
    ensures
        tokens(text, from) == tokens(text, at),
    decreases at - from,
{
    if from < at {
        lemma_tokens_skip(text, from + 1, at);
    }
}

/// A value ends at the first white space behind its start.
pub proof fn lemma_token_end_at(text: Seq<char>, from: int, at: int)
    requires
        0 <= from <= at <= text.len(),
        forall|i: int| from <= i < at ==> !is_space(#[trigger] text[i]),
        at == text.len() || is_space(text[at]),
    ensures
        token_end(text, from) == at,
    decreases at - from,
{
    if from < at {
        lemma_token_end_at(text, from + 1, at);
    }
}

/// A run of characters that are no white space, with white space or the end
/// of the text behind it, is the next value.
pub proof fn lemma_tokens_word(text: Seq<char>, from: int, to: int)
    requires
        0 <= from < to <= text.len(),
        forall|i: int| from <= i < to ==> !is_space(#[trigger] text[i]),
        to == text.len() || is_space(text[to]),
    ensures
        tokens(text, from) == seq![text.subrange(from, to)] + tokens(text, to),
{
    lemma_token_end_at(text, from, to);
}

/// `part` stands in `text` at the place `at`.
pub open spec fn holds_at(text: Seq<char>, at: int, part: Seq<char>) -> bool {
    &&& 0 <= at
    &&& at + part.len() <= text.len()
    &&& text.subrange(at, at + part.len()) == part
}

/// Where a text holds two parts one behind the other, it holds each.
pub proof fn lemma_holds_parts(text: Seq<char>, at: int, first: Seq<char>, second: Seq<char>)
    requires
        holds_at(text, at, first + second),
    ensures
        holds_at(text, at, first),
        holds_at(text, at + first.len(), second),
{
    let whole = first + second;
    assert(text.subrange(at, at + first.len()) =~= whole.subrange(0, first.len() as int));
    assert(whole.subrange(0, first.len() as int) =~= first);
    assert(text.subrange(at + first.len(), at + first.len() + second.len()) =~= whole.subrange(
        first.len() as int,
        whole.len() as int,
    ));
    assert(whole.subrange(first.len() as int, whole.len() as int) =~= second);
}

/// A character of a part that stands in a text.
pub proof fn lemma_holds_char(text: Seq<char>, at: int, part: Seq<char>, i: int)
    requires
        holds_at(text, at, part),
        0 <= i < part.len(),
    ensures
        text[at + i] == part[i],
{
    assert(text.subrange(at, at + part.len())[i] == text[at + i]);
}

/// The values of a list of channels, each written in decimal.
pub open spec fn words(channels: Seq<u8>) -> Seq<Seq<char>> {
    Seq::new(channels.len(), |i: int| decimal(channels[i] as nat))
}

/// The channels of the pixels of a row, from left to right.
pub open spec fn line_channels(line: Seq<Pixel>) -> Seq<u8>
    decreases line.len(),
{
    if line.len() == 0 {
        Seq::empty()
    } else {
        line_channels(line.drop_last()) + seq![line.last().red, line.last().green, line.last().blue]
    }
}

/// The channels of the pixels of a grid, row by row.
pub open spec fn grid_channels(rows: Seq<Seq<Pixel>>) -> Seq<u8>
    decreases rows.len(),
{
    if rows.len() == 0 {
        Seq::empty()
    } else {
        grid_channels(rows.drop_last()) + line_channels(rows.last())
    }
}

/// A padded channel value with a blank behind it is one value: the channel
/// in decimal.
pub proof fn lemma_tokens_channel(text: Seq<char>, at: int, v: u8)
    requires
        holds_at(text, at, padded(v) + seq![' ']),
    ensures
        tokens(text, at) == seq![decimal(v as nat)] + tokens(text, at + padded(v).len() + 1),
{
    let word = decimal(v as nat);
    lemma_decimal_is_number(v as nat);
    let lead = padded(v).len() - word.len();
    let part = padded(v) + seq![' '];
    assert(0 <= lead <= 2);
    assert forall|i: int| at <= i < at + lead implies is_space(#[trigger] text[i]) by {
        lemma_holds_char(text, at, part, i - at);
        assert(part[i - at] == ' ');
    }
    lemma_tokens_skip(text, at, at + lead);
    let from = at + lead;
    let to = from + word.len();
    assert forall|i: int| from <= i < to implies !is_space(#[trigger] text[i]) by {
        lemma_holds_char(text, at, part, i - at);
        assert(part[i - at] == word[i - from]);
        assert(is_digit(word[i - from]));
    }
    lemma_holds_char(text, at, part, to - at);
    assert(text[to] == ' ');
    lemma_tokens_word(text, from, to);
    assert(text.subrange(from, to) =~= word) by {
        assert forall|i: int| 0 <= i < word.len() implies text.subrange(from, to)[i] == word[i] by {
            lemma_holds_char(text, at, part, lead + i);
        }
    }
    lemma_tokens_skip(text, to, to + 1);
}

/// The text of a pixel is three values: its channels in decimal.
pub proof fn lemma_tokens_pixel(text: Seq<char>, at: int, p: Pixel)
    requires
        holds_at(text, at, pixel_text(p)),
    ensures
        tokens(text, at) == words(seq![p.red, p.green, p.blue]) + tokens(
            text,
            at + pixel_text(p).len(),
        ),
{
    let red = padded(p.red) + seq![' '];
    let green = padded(p.green) + seq![' '];
    let blue = padded(p.blue) + seq![' '];
    assert(pixel_text(p) =~= red + (green + blue));
    lemma_holds_parts(text, at, red, green + blue);
    lemma_holds_parts(text, at + red.len(), green, blue);
    lemma_tokens_channel(text, at, p.red);
    lemma_tokens_channel(text, at + red.len(), p.green);
    lemma_tokens_channel(text, at + red.len() + green.len(), p.blue);
    assert(words(seq![p.red, p.green, p.blue]) =~= seq![decimal(p.red as nat)] + seq![
        decimal(p.green as nat),
    ] + seq![decimal(p.blue as nat)]);
}

/// The values of two lists of channels, one behind the other.
pub proof fn lemma_words_concat(a: Seq<u8>, b: Seq<u8>)
    ensures
        words(a + b) == words(a) + words(b),
{
    assert(words(a + b) =~= words(a) + words(b));
}

/// The text of a row is the values of its channels.
pub proof fn lemma_tokens_line(text: Seq<char>, at: int, line: Seq<Pixel>)
    requires
        holds_at(text, at, line_text(line)),
    ensures
        tokens(text, at) == words(line_channels(line)) + tokens(text, at + line_text(line).len()),
    decreases line.len(),
{
    if line.len() == 0 {
        assert(words(line_channels(line)) =~= Seq::<Seq<char>>::empty());
        assert(tokens(text, at) =~= words(line_channels(line)) + tokens(text, at));
    } else {
        let init = line.drop_last();
        let p = line.last();
        lemma_holds_parts(text, at, line_text(init), pixel_text(p));
        lemma_tokens_line(text, at, init);
        lemma_tokens_pixel(text, at + line_text(init).len(), p);
        lemma_words_concat(line_channels(init), seq![p.red, p.green, p.blue]);
        assert(tokens(text, at) =~= words(line_channels(line)) + tokens(
            text,
            at + line_text(line).len(),
        ));
    }
}

/// The text of the rows of a grid is the values of its channels.
pub proof fn lemma_tokens_rows(text: Seq<char>, at: int, rows: Seq<Seq<Pixel>>)
    requires
        holds_at(text, at, rows_text(rows)),
    ensures
        tokens(text, at) == words(grid_channels(rows)) + tokens(text, at + rows_text(rows).len()),
    decreases rows.len(),
{
    if rows.len() == 0 {
        assert(words(grid_channels(rows)) =~= Seq::<Seq<char>>::empty());
        assert(tokens(text, at) =~= words(grid_channels(rows)) + tokens(text, at));
    } else {
        let init = rows.drop_last();
        let line = rows.last();
        let tail = line_text(line) + seq!['\n'];
        assert(rows_text(rows) =~= rows_text(init) + tail);
        lemma_holds_parts(text, at, rows_text(init), tail);
        lemma_tokens_rows(text, at, init);
        let line_at = at + rows_text(init).len();
        lemma_holds_parts(text, line_at, line_text(line), seq!['\n']);
        lemma_tokens_line(text, line_at, line);
        let end = line_at + line_text(line).len();
        lemma_holds_char(text, end, seq!['\n'], 0);
        assert(is_space(text[end]));
        lemma_tokens_skip(text, end, end + 1);
        lemma_words_concat(grid_channels(init), line_channels(line));
        assert(tokens(text, at) =~= words(grid_channels(rows)) + tokens(
            text,
            at + rows_text(rows).len(),
        ));
    }
}

/// The channels of a row stand three to a pixel, in the order red, green,
/// blue.
pub proof fn lemma_line_channels(line: Seq<Pixel>, c: int)
    requires
        0 <= c < line.len(),
    ensures
        line_channels(line).len() == 3 * line.len(),
        line_channels(line)[3 * c] == line[c].red,
        line_channels(line)[3 * c + 1] == line[c].green,
        line_channels(line)[3 * c + 2] == line[c].blue,
    decreases line.len(),
{
    lemma_line_channels_len(line);
    lemma_line_channels_len(line.drop_last());
    if c < line.len() - 1 {
        lemma_line_channels(line.drop_last(), c);
    }
}

/// A row has three channels to a pixel.
pub proof fn lemma_line_channels_len(line: Seq<Pixel>)
    ensures
        line_channels(line).len() == 3 * line.len(),
    decreases line.len(),
{
    if line.len() > 0 {
        lemma_line_channels_len(line.drop_last());
    }
}

/// A rectangular grid has three channels to a cell.
pub proof fn lemma_grid_channels_len(rows: Seq<Seq<Pixel>>, width: nat)
    requires
        rectangular(rows, width),
    ensures
        grid_channels(rows).len() == 3 * (rows.len() * width),
    decreases rows.len(),
{
    if rows.len() > 0 {
        lemma_grid_channels_len(rows.drop_last(), width);
        lemma_line_channels_len(rows.last());
        assert(3 * (rows.len() * width) == 3 * ((rows.len() - 1) * width) + 3 * width)
            by (nonlinear_arith);
    }
}

/// The channels of a rectangular grid stand row by row: the pixel in row
/// `r` and column `c` has the places from `3 * (r * width + c)` on.
pub proof fn lemma_grid_channels(rows: Seq<Seq<Pixel>>, width: nat, r: int, c: int)
    requires
        rectangular(rows, width),
        0 <= r < rows.len(),
        0 <= c < width,
    ensures
        3 * (r * width + c) + 2 < grid_channels(rows).len(),
        grid_channels(rows)[3 * (r * width + c)] == rows[r][c].red,
        grid_channels(rows)[3 * (r * width + c) + 1] == rows[r][c].green,
        grid_channels(rows)[3 * (r * width + c) + 2] == rows[r][c].blue,
    decreases rows.len(),
{
    let init = rows.drop_last();
    lemma_grid_channels_len(rows, width);
    lemma_grid_channels_len(init, width);
    lemma_line_channels_len(rows.last());
    assert(r * width + c < (r + 1) * width) by (nonlinear_arith)
        requires
            0 <= c < width,
    ;
    assert((r + 1) * width <= rows.len() * width) by (nonlinear_arith)
        requires
            0 <= r + 1 <= rows.len(),
            0 <= width,
    ;
    if r < rows.len() - 1 {
        lemma_grid_channels(init, width, r, c);
        assert(init[r] == rows[r]);
    } else {
        lemma_line_channels(rows.last(), c);
        assert(3 * (r * width + c) == 3 * ((rows.len() - 1) * width) + 3 * c)
            by (nonlinear_arith)
            requires
                r == rows.len() - 1,
        ;
    }
}

/// Laying the channels of a rectangular grid out row by row gives the grid.
pub proof fn lemma_channel_rows_of_grid(rows: Seq<Seq<Pixel>>, width: nat)
    requires
        rectangular(rows, width),
    ensures
        channel_rows(grid_channels(rows), width, rows.len()) == rows,
{
    let laid = channel_rows(grid_channels(rows), width, rows.len());
    assert forall|r: int| 0 <= r < rows.len() implies laid[r] =~= rows[r] by {
        assert forall|c: int| 0 <= c < width implies laid[r][c] == rows[r][c] by {
            lemma_grid_channels(rows, width, r, c);
        }
    }
    assert(laid =~= rows);
}

/// Channels written in decimal read as the channels.
pub proof fn lemma_words_read_back(channels: Seq<u8>)
    ensures
        channels_of(words(channels)) == channels,
        forall|k: int| 0 <= k <= channels.len() ==> good_values(words(channels), k) == k,
{
    assert forall|i: int| 0 <= i < channels.len() implies channel(words(channels), i)
        == channels[i] by {
        lemma_parse_decimal(channels[i] as nat, 255);
    }
    assert(channels_of(words(channels)) =~= channels);
    assert forall|k: int| 0 <= k <= channels.len() implies good_values(words(channels), k)
        == k by {
        lemma_good_words(channels, k);
    }
}

/// Channels written in decimal are good values, all of them.
pub proof fn lemma_good_words(channels: Seq<u8>, k: int)
    requires
        0 <= k <= channels.len(),
    ensures
        good_values(words(channels), k) == k,
    decreases k,
{
    if k > 0 {
        lemma_good_words(channels, k - 1);
        lemma_parse_decimal(channels[k - 1] as nat, 255);
    }
}

/// Reading gives back what writing wrote: the text of an image, as
/// `Image::write` lays it out, is read without error as an image of the same
/// tag, shape, channel maximum and pixels. This holds of every grid that an
/// image can hold and of every tag that is a single line: one without a
/// newline, and without a carriage return at its end.
pub proof fn lemma_read_gives_back_what_write_wrote(
    magic: Seq<char>,
    scale: u8,
    rows: Seq<Seq<Pixel>>,
    width: nat,
)
    requires
        forall|i: int| 0 <= i < magic.len() ==> magic[i] != '\n',
        magic.len() == 0 || magic.last() != '\r',
        rectangular(rows, width),
        rows.len() <= usize::MAX,
        width <= usize::MAX,
        rows.len() * width <= usize::MAX,
    ensures
        read_error(image_text(magic, width, rows.len(), scale, rows)).is_none(),
        read_magic(image_text(magic, width, rows.len(), scale, rows)) == magic,
        read_width(image_text(magic, width, rows.len(), scale, rows)) == Some(width),
        read_height(image_text(magic, width, rows.len(), scale, rows)) == Some(rows.len()),
        read_scale(image_text(magic, width, rows.len(), scale, rows)) == Some(scale as nat),
        read_pixels(image_text(magic, width, rows.len(), scale, rows)) == rows,
{
    let height = rows.len();
    let text = image_text(magic, width, height, scale, rows);
    let w = decimal(width);
    let h = decimal(height);
    let s = decimal(scale as nat);
    let body = rows_text(rows);
    lemma_decimal_is_number(width);
    lemma_decimal_is_number(height);
    lemma_decimal_is_number(scale as nat);
    // where the parts of the text stand
    let end0 = magic.len() as int;
    let start1 = end0 + 1;
    let blank = start1 + w.len();
    let end1 = blank + 1 + h.len();
    let start2 = end1 + 1;
    let end2 = start2 + s.len();
    let start3 = end2 + 1;
    assert(text.len() == start3 + body.len());
    assert forall|i: int| 0 <= i < end0 implies text[i] == magic[i] by {}
    assert(text[end0] == '\n');
    assert forall|i: int| start1 <= i < blank implies text[i] == w[i - start1] by {}
    assert(text[blank] == ' ');
    assert forall|i: int| blank < i < end1 implies text[i] == h[i - blank - 1] by {}
    assert(text[end1] == '\n');
    assert forall|i: int| start2 <= i < end2 implies text[i] == s[i - start2] by {}
    assert(text[end2] == '\n');
    assert forall|i: int| 0 <= i < body.len() implies text[start3 + i] == body[i] by {}
    // the first line: the tag
    lemma_find_at(text, '\n', 0, text.len() as int, end0);
    assert(line_end(text, 0) == end0);
    assert(line_stop(text, 0) == end0);
    assert(read_magic(text) =~= magic);
    assert(second_line(text) == start1);
    // the second line: width and height
    assert forall|i: int| start1 <= i < end1 implies text[i] != '\n' by {
        if i < blank {
            assert(is_digit(w[i - start1]));
        } else if i > blank {
            assert(is_digit(h[i - blank - 1]));
        }
    }
    lemma_find_at(text, '\n', start1, text.len() as int, end1);
    assert(line_end(text, start1) == end1);
    assert(is_digit(h[h.len() - 1]));
    assert(text[end1 - 1] == h[h.len() - 1]);
    assert(line_stop(text, start1) == end1);
    assert forall|i: int| start1 <= i < blank implies text[i] != ' ' by {
        assert(is_digit(w[i - start1]));
    }
    lemma_find_at(text, ' ', start1, end1, blank);
    assert(width_end(text) == blank);
    assert(text.subrange(start1, blank) =~= w);
    lemma_parse_decimal(width, usize::MAX as nat);
    assert(read_width(text) == Some(width));
    assert forall|i: int| blank + 1 <= i < end1 implies text[i] != ' ' by {
        assert(is_digit(h[i - blank - 1]));
    }
    lemma_find_absent(text, ' ', blank + 1, end1);
    assert(text.subrange(blank + 1, end1) =~= h);
    lemma_parse_decimal(height, usize::MAX as nat);
    assert(read_height(text) == Some(height));
    assert(third_line(text) == start2);
    // the third line: the channel maximum
    assert forall|i: int| start2 <= i < end2 implies text[i] != '\n' by {
        assert(is_digit(s[i - start2]));
    }
    lemma_find_at(text, '\n', start2, text.len() as int, end2);
    assert(line_end(text, start2) == end2);
    assert(is_digit(s[s.len() - 1]));
    assert(text[end2 - 1] == s[s.len() - 1]);
    assert(line_stop(text, start2) == end2);
    assert(text.subrange(start2, end2) =~= s);
    lemma_parse_decimal(scale as nat, 255);
    assert(read_scale(text) == Some(scale as nat));
    assert(body_start(text) == start3);
    // the values
    assert(text.subrange(start3, start3 + body.len()) =~= body);
    assert(holds_at(text, start3, body));
    lemma_tokens_rows(text, start3, rows);
    let channels = grid_channels(rows);
    let values = tokens(text, start3);
    assert(tokens(text, text.len() as int) =~= Seq::<Seq<char>>::empty());
    assert(values =~= words(channels));
    lemma_words_read_back(channels);
    lemma_grid_channels_len(rows, width);
    assert(values.len() == 3 * (height * width));
    assert(good_values(values, values.len() as int) == values.len());
    assert(values_error(values).is_none());
    assert(height * width == width * height) by (nonlinear_arith);
    lemma_channel_rows_of_grid(rows, width);
    assert(read_pixels(text) == rows);
}

} // verus!
