//! Reading the plain-text image format.
//!
//! A text has three header lines: the tag; the width and the height, with one
//! blank between them; and the channel maximum. What follows is a list of
//! channel values, separated by white space of any kind and length, three for
//! each pixel, row by row. Pixels that the text does not give are black.

use crate::grid::{channel_rows, PixelGrid};
use crate::image_utils::image::Image;
use crate::pixel_utils::pixel::Pixel;
use vstd::prelude::*;
use vstd::std_specs::iter::IteratorSpec;
use vstd::string::StrSliceExecFns;

verus! {

/// Why a text is not an image.
#[derive(Clone, Copy, PartialEq, Eq, Debug, Structural)]
pub enum ReadError {
    /// The text has fewer than three lines.
    MissingHeader,
    /// The second line does not start with two numbers, one blank between
    /// them, that fit the machine's word.
    BadDimensions,
    /// The third line is not a number up to 255.
    BadScale,
    /// The first value of a pixel is not a number up to 255.
    BadRed,
    /// The second value of a pixel is not a number up to 255.
    BadGreen,
    /// The third value of a pixel is not a number up to 255.
    BadBlue,
    /// The last pixel has fewer than three values.
    IncompletePixel,
    /// The number of pixels of the stated width and height does not fit the
    /// machine's word.
    TooLarge,
    /// The text gives more pixels than the stated width and height hold.
    TooManyPixels,
}

/// White space: the characters that separate the values of the pixels.
pub open spec fn is_space(c: char) -> bool {
    let v = c as u32;
    ||| 0x09 <= v <= 0x0D
    ||| v == 0x20
    ||| v == 0x85
    ||| v == 0xA0
    ||| v == 0x1680
    ||| 0x2000 <= v <= 0x200A
    ||| v == 0x2028
    ||| v == 0x2029
    ||| v == 0x202F
    ||| v == 0x205F
    ||| v == 0x3000
}

/// A decimal digit.
pub open spec fn is_digit(c: char) -> bool {
    0x30 <= c as u32 <= 0x39
}

/// The value of a decimal digit.
pub open spec fn digit_value(c: char) -> nat {
    (c as u32 - 0x30) as nat
}

/// The value of a sequence of decimal digits.
pub open spec fn digits_value(digits: Seq<char>) -> nat
    decreases digits.len(),
{
    if digits.len() == 0 {
        0
    } else {
        digits_value(digits.drop_last()) * 10 + digit_value(digits.last())
    }
}

/// The digits of a number: what follows its plus sign, if it has one.
pub open spec fn unsigned_part(token: Seq<char>) -> Seq<char> {
    if token.len() > 1 && token[0] == '+' {
        token.skip(1)
    } else {
        token
    }
}

/// The number that `token` stands for: decimal digits, at least one, with or
/// without a plus sign in front, whose value is at most `max`.
pub open spec fn parse_number(token: Seq<char>, max: nat) -> Option<nat> {
    let digits = unsigned_part(token);
    if digits.len() > 0 && (forall|i: int| 0 <= i < digits.len() ==> is_digit(#[trigger] digits[i]))
        && digits_value(digits) <= max {
        Some(digits_value(digits))
    } else {
        None
    }
}

/// The first place at or after `from`, and before `to`, at which `text`
/// holds `mark`; `to` if there is none.
pub open spec fn find(text: Seq<char>, mark: char, from: int, to: int) -> int
    decreases to - from,
{
    if from >= to {
        to
    } else if text[from] == mark {
        from
    } else {
        find(text, mark, from + 1, to)
    }
}

/// The place of the newline that ends the line starting at `from`, or the
/// end of the text.
pub open spec fn line_end(text: Seq<char>, from: int) -> int {
    find(text, '\n', from, text.len() as int)
}

/// The place at which the content of the line starting at `from` stops: at
/// its newline, or one place earlier where a carriage return stands there.
pub open spec fn line_stop(text: Seq<char>, from: int) -> int {
    let end = line_end(text, from);
    if from < end < text.len() && text[end - 1] == '\r' {
        end - 1
    } else {
        end
    }
}

/// Where the second line starts.
pub open spec fn second_line(text: Seq<char>) -> int {
    line_end(text, 0) + 1
}

/// Where the third line starts.
pub open spec fn third_line(text: Seq<char>) -> int {
    line_end(text, second_line(text)) + 1
}

/// Where the pixel values start: behind the third line.
pub open spec fn body_start(text: Seq<char>) -> int {
    let end = line_end(text, third_line(text));
    if end < text.len() {
        end + 1
    } else {
        end
    }
}

/// The tag: the first line.
pub open spec fn read_magic(text: Seq<char>) -> Seq<char> {
    text.subrange(0, line_stop(text, 0))
}

/// Where the first field of the second line ends: at its first blank.
pub open spec fn width_end(text: Seq<char>) -> int {
    find(text, ' ', second_line(text), line_stop(text, second_line(text)))
}

/// The stated width, if the first field of the second line is a number.
pub open spec fn read_width(text: Seq<char>) -> Option<nat> {
    parse_number(text.subrange(second_line(text), width_end(text)), usize::MAX as nat)
}

/// The stated height, if the second line has a second field and it is a
/// number.
pub open spec fn read_height(text: Seq<char>) -> Option<nat> {
    let stop = line_stop(text, second_line(text));
    let from = width_end(text) + 1;
    if from > stop {
        None
    } else {
        parse_number(text.subrange(from, find(text, ' ', from, stop)), usize::MAX as nat)
    }
}

/// The stated channel maximum, if the third line is a number up to 255.
pub open spec fn read_scale(text: Seq<char>) -> Option<nat> {
    parse_number(text.subrange(third_line(text), line_stop(text, third_line(text))), 255)
}

/// The first place at or after `from` that holds no white space.
pub open spec fn skip_spaces(text: Seq<char>, from: int) -> int
    decreases text.len() - from,
{
    if from >= text.len() {
        text.len() as int
    } else if is_space(text[from]) {
        skip_spaces(text, from + 1)
    } else {
        from
    }
}

/// The first place at or after `from` that holds white space.
pub open spec fn token_end(text: Seq<char>, from: int) -> int
    decreases text.len() - from,
{
    if from >= text.len() {
        text.len() as int
    } else if is_space(text[from]) {
        from
    } else {
        token_end(text, from + 1)
    }
}

/// The pieces of `text` from `from` on that white space separates.
pub open spec fn tokens(text: Seq<char>, from: int) -> Seq<Seq<char>>
    decreases text.len() - from,
    via tokens_decreases
{
    if from < 0 || from >= text.len() {
        Seq::empty()
    } else if is_space(text[from]) {
        tokens(text, from + 1)
    } else {
        seq![text.subrange(from, token_end(text, from))] + tokens(text, token_end(text, from))
    }
}

#[via_fn]
proof fn tokens_decreases(text: Seq<char>, from: int) {
    if 0 <= from < text.len() && !is_space(text[from]) {
        lemma_token_end_bounds(text, from + 1);
    }
}

/// The end of a token lies between its start and the end of the text.
pub proof fn lemma_token_end_bounds(text: Seq<char>, from: int)
    requires
        0 <= from <= text.len(),
    ensures
        from <= token_end(text, from) <= text.len(),
    decreases text.len() - from,
{
    if from < text.len() && !is_space(text[from]) {
        lemma_token_end_bounds(text, from + 1);
    }
}

/// How many of the first `limit` values are numbers up to 255, counted from
/// the first value up to the first that is none.
pub open spec fn good_values(values: Seq<Seq<char>>, limit: int) -> int
    decreases limit,
{
    if limit <= 0 {
        0
    } else {
        let before = good_values(values, limit - 1);
        if before == limit - 1 && parse_number(values[limit - 1], 255).is_some() {
            limit
        } else {
            before
        }
    }
}

/// The error for a bad value at place `i` of the list of values.
pub open spec fn channel_error(i: int) -> ReadError {
    if i % 3 == 0 {
        ReadError::BadRed
    } else if i % 3 == 1 {
        ReadError::BadGreen
    } else {
        ReadError::BadBlue
    }
}

/// What is wrong with the list of values, if anything: the first value of a
/// complete pixel that is no number up to 255; or, where all of those are,
/// a last pixel that is not complete.
pub open spec fn values_error(values: Seq<Seq<char>>) -> Option<ReadError> {
    let complete = values.len() - values.len() % 3;
    let good = good_values(values, complete);
    if good < complete {
        Some(channel_error(good))
    } else if values.len() % 3 != 0 {
        Some(ReadError::IncompletePixel)
    } else {
        None
    }
}

/// The channel value at place `i` of the list of values.
pub open spec fn channel(values: Seq<Seq<char>>, i: int) -> u8 {
    parse_number(values[i], 255).unwrap() as u8
}

/// The channel values of a list of values.
pub open spec fn channels_of(values: Seq<Seq<char>>) -> Seq<u8> {
    Seq::new(values.len(), |i: int| channel(values, i))
}

/// What is wrong with a text, if anything. The header is looked at first,
/// line by line, then the values in their order, then their number.
pub open spec fn read_error(text: Seq<char>) -> Option<ReadError> {
    let values = tokens(text, body_start(text));
    if text.len() == 0 || second_line(text) >= text.len() {
        Some(ReadError::MissingHeader)
    } else if read_width(text).is_none() || read_height(text).is_none() {
        Some(ReadError::BadDimensions)
    } else if third_line(text) >= text.len() {
        Some(ReadError::MissingHeader)
    } else if read_scale(text).is_none() {
        Some(ReadError::BadScale)
    } else if values_error(values).is_some() {
        values_error(values)
    } else if read_width(text).unwrap() * read_height(text).unwrap() > usize::MAX {
        Some(ReadError::TooLarge)
    } else if values.len() / 3 > read_width(text).unwrap() * read_height(text).unwrap() {
        Some(ReadError::TooManyPixels)
    } else {
        None
    }
}

/// The pixels of a text: its values fill a grid of the stated shape row by
/// row, and the cells that are left are black.
pub open spec fn read_pixels(text: Seq<char>) -> Seq<Seq<Pixel>> {
    channel_rows(
        channels_of(tokens(text, body_start(text))),
        read_width(text).unwrap(),
        read_height(text).unwrap(),
    )
}

/// `find` gives a place between `from` and `to`.
pub proof fn lemma_find_bounds(text: Seq<char>, mark: char, from: int, to: int)
    requires
        from <= to,
    ensures
        from <= find(text, mark, from, to) <= to,
        find(text, mark, from, to) < to ==> text[find(text, mark, from, to)] == mark,
    decreases to - from,
{
    if from < to && text[from] != mark {
        lemma_find_bounds(text, mark, from + 1, to);
    }
}

/// Whether `c` is white space.
fn is_space_char(c: char) -> (r: bool)
    ensures
        r == is_space(c),
{
    let v: u32 = c as u32;
    (0x09 <= v && v <= 0x0D) || v == 0x20 || v == 0x85 || v == 0xA0 || v == 0x1680 || (0x2000 <= v
        && v <= 0x200A) || v == 0x2028 || v == 0x2029 || v == 0x202F || v == 0x205F || v == 0x3000
}

/// The characters of a text.
fn chars_of(text: &str) -> (r: Vec<char>)
    ensures
        r@ == text@,
{
    broadcast use vstd::string::axiom_spec_iter;
    broadcast use vstd::string::next_postcondition;

    let mut out: Vec<char> = Vec::new();
    let mut rest = text.chars();
    loop
        invariant
            rest.obeys_prophetic_iter_laws(),
            rest.decrease() is Some,
            text@ == out@ + rest.remaining(),
        decreases rest.decrease()->0,
    {
        match rest.next() {
            Some(c) => {
                out.push(c);
                assert(text@ =~= out@ + rest.remaining());
            },
            None => {
                assert(text@ =~= out@);
                return out;
            },
        }
    }
}

/// Finds `mark` between `from` and `to`.
fn find_char(text: &Vec<char>, mark: char, from: usize, to: usize) -> (r: usize)
    requires
        from <= to <= text@.len(),
    ensures
        r == find(text@, mark, from as int, to as int),
        from <= r <= to,
{
    let mut i: usize = from;
    while i < to && text[i] != mark
        invariant
            from <= i <= to <= text@.len(),
            find(text@, mark, from as int, to as int) == find(text@, mark, i as int, to as int),
        decreases to - i,
    {
        i = i + 1;
    }
    i
}

/// The value of the first digits of a number is at most the value of all of
/// them.
proof fn lemma_digits_value_grows(digits: Seq<char>, k: int)
    requires
        0 <= k <= digits.len(),
    ensures
        digits_value(digits.take(k)) <= digits_value(digits),
    decreases digits.len() - k,
{
    if k < digits.len() {
        lemma_digits_value_grows(digits, k + 1);
        assert(digits.take(k + 1).drop_last() =~= digits.take(k));
    } else {
        assert(digits.take(k) =~= digits);
    }
}

/// The number that the characters of `text` between `from` and `to` stand
/// for, if it is at most `max`.
fn parse_range(text: &Vec<char>, from: usize, to: usize, max: usize) -> (r: Option<usize>)
    requires
        from <= to <= text@.len(),
    ensures
        r.is_some() == parse_number(text@.subrange(from as int, to as int), max as nat).is_some(),
        r.is_some() ==> r.unwrap() == parse_number(
            text@.subrange(from as int, to as int),
            max as nat,
        ).unwrap(),
{
    let ghost token = text@.subrange(from as int, to as int);
    let mut start: usize = from;
    if to - from > 1 && text[from] == '+' {
        start = from + 1;
    }
    let ghost digits = text@.subrange(start as int, to as int);
    assert(digits =~= unsigned_part(token));
    if start >= to {
        return None;
    }
    let mut acc: usize = 0;
    let mut i: usize = start;
    while i < to
        invariant
            start <= i <= to <= text@.len(),
            digits == text@.subrange(start as int, to as int),
            digits == unsigned_part(text@.subrange(from as int, to as int)),
            acc == digits_value(digits.take(i - start)),
            acc <= max,
            forall|j: int| 0 <= j < i - start ==> is_digit(#[trigger] digits[j]),
        decreases to - i,
    {
        let v: u32 = text[i] as u32;
        if v < 0x30 || v > 0x39 {
            assert(!is_digit(digits[i - start]));
            return None;
        }
        let d: usize = (v - 0x30) as usize;
        proof {
            assert(digits.take(i - start + 1).drop_last() =~= digits.take(i - start));
            assert(digits.take(i - start + 1).last() == text@[i as int]);
            assert(digits_value(digits.take(i - start + 1)) == acc * 10 + d);
            lemma_digits_value_grows(digits, i - start + 1);
        }
        if d > max || acc > (max - d) / 10 {
            return None;
        }
        acc = acc * 10 + d;
        i = i + 1;
    }
    assert(digits.take(to - start) =~= digits);
    Some(acc)
}

/// The pieces of `text` that the pairs of `bounds` mark, each from its first
/// place up to its second.
spec fn pieces(text: Seq<char>, bounds: Seq<(usize, usize)>) -> Seq<Seq<char>> {
    Seq::new(bounds.len(), |k: int| text.subrange(bounds[k].0 as int, bounds[k].1 as int))
}

/// Finds the values of the pixels: where each starts and ends.
fn split_values(text: &Vec<char>, from: usize) -> (r: Vec<(usize, usize)>)
    requires
        from <= text@.len(),
    ensures
        pieces(text@, r@) == tokens(text@, from as int),
        forall|k: int| 0 <= k < r@.len() ==> (#[trigger] r@[k]).0 <= r@[k].1 <= text@.len(),
{
    let n: usize = text.len();
    let mut out: Vec<(usize, usize)> = Vec::new();
    let mut i: usize = from;
    assert(pieces(text@, out@) + tokens(text@, i as int) =~= tokens(text@, from as int));
    while i < n
        invariant
            from <= i <= n,
            n == text@.len(),
            pieces(text@, out@) + tokens(text@, i as int) == tokens(text@, from as int),
            forall|k: int| 0 <= k < out@.len() ==> (#[trigger] out@[k]).0 <= out@[k].1 <= n,
        decreases n - i,
    {
        if is_space_char(text[i]) {
            i = i + 1;
        } else {
            let mut j: usize = i + 1;
            while j < n && !is_space_char(text[j])
                invariant
                    i < j <= n,
                    n == text@.len(),
                    token_end(text@, i as int) == token_end(text@, j as int),
                decreases n - j,
            {
                j = j + 1;
            }
            let ghost before = out@;
            out.push((i, j));
            proof {
                assert(pieces(text@, out@) =~= pieces(text@, before) + seq![
                    text@.subrange(i as int, j as int),
                ]);
                assert(pieces(text@, out@) + tokens(text@, j as int) =~= pieces(text@, before)
                    + tokens(text@, i as int));
            }
            i = j;
        }
    }
    assert(pieces(text@, out@) + tokens(text@, i as int) =~= pieces(text@, out@));
    out
}

/// Once a value is bad, the count of good values stays at its place.
proof fn lemma_good_values_stop(values: Seq<Seq<char>>, bad: int, limit: int)
    requires
        0 <= bad < limit,
        good_values(values, bad) == bad,
        parse_number(values[bad], 255).is_none(),
    ensures
        good_values(values, limit) == bad,
    decreases limit,
{
    if limit > bad + 1 {
        lemma_good_values_stop(values, bad, limit - 1);
    }
}

/// The error for a bad value at place `i` of the list of values.
fn channel_error_at(i: usize) -> (r: ReadError)
    ensures
        r == channel_error(i as int),
{
    if i % 3 == 0 {
        ReadError::BadRed
    } else if i % 3 == 1 {
        ReadError::BadGreen
    } else {
        ReadError::BadBlue
    }
}

/// Reads the values of the complete pixels.
fn read_channels(text: &Vec<char>, bounds: &Vec<(usize, usize)>) -> (r: Result<
    Vec<u8>,
    ReadError,
>)
    requires
        forall|k: int|
            0 <= k < bounds@.len() ==> (#[trigger] bounds@[k]).0 <= bounds@[k].1 <= text@.len(),
    ensures
        match r {
            Ok(channels) => {
                &&& values_error(pieces(text@, bounds@)).is_none()
                &&& channels@.len() == bounds@.len()
                &&& forall|i: int|
                    0 <= i < channels@.len() ==> #[trigger] channels@[i] == channel(
                        pieces(text@, bounds@),
                        i,
                    )
            },
            Err(e) => values_error(pieces(text@, bounds@)) == Some(e),
        },
{
    let ghost values = pieces(text@, bounds@);
    let count: usize = bounds.len();
    let complete: usize = count - count % 3;
    let mut channels: Vec<u8> = Vec::with_capacity(complete);
    let mut i: usize = 0;
    while i < complete
        invariant
            0 <= i <= complete <= count,
            count == bounds@.len(),
            complete == count - count % 3,
            values == pieces(text@, bounds@),
            forall|k: int|
                0 <= k < bounds@.len() ==> (#[trigger] bounds@[k]).0 <= bounds@[k].1
                    <= text@.len(),
            good_values(values, i as int) == i,
            channels@.len() == i,
            forall|k: int| 0 <= k < i ==> #[trigger] channels@[k] == channel(values, k),
        decreases complete - i,
    {
        let piece: (usize, usize) = bounds[i];
        match parse_range(text, piece.0, piece.1, 255) {
            Some(v) => {
                channels.push(v as u8);
            },
            None => {
                proof {
                    lemma_good_values_stop(values, i as int, complete as int);
                }
                return Err(channel_error_at(i));
            },
        }
        i = i + 1;
    }
    if count % 3 != 0 {
        return Err(ReadError::IncompletePixel);
    }
    Ok(channels)
}

impl Image {
    /// Reads an image from its text.
    ///
    /// Fails as `read_error` says: on a header that is not complete or not
    /// well formed, on a value that is no number up to 255, on a last pixel
    /// that is not complete, and on more pixels than the header states.
    pub fn read(contents: &str) -> (r: Result<Image, ReadError>)
        ensures
            match r {
                Ok(image) => {
                    &&& read_error(contents@).is_none()
                    &&& image.magic_number@ == read_magic(contents@)
                    &&& image.scale == read_scale(contents@).unwrap()
                    &&& image.pixels.width() == read_width(contents@).unwrap()
                    &&& image.pixels.height() == read_height(contents@).unwrap()
                    &&& image.pixels@ == read_pixels(contents@)
                },
                Err(e) => read_error(contents@) == Some(e),
            },
    {
        let text: Vec<char> = chars_of(contents);
        let n: usize = text.len();
        if n == 0 {
            return Err(ReadError::MissingHeader);
        }
        let end0: usize = find_char(&text, '\n', 0, n);
        if end0 >= n - 1 {
            return Err(ReadError::MissingHeader);
        }
        let stop0: usize = if 0 < end0 && text[end0 - 1] == '\r' {
            end0 - 1
        } else {
            end0
        };
        let start1: usize = end0 + 1;
        let end1: usize = find_char(&text, '\n', start1, n);
        let stop1: usize = if start1 < end1 && end1 < n && text[end1 - 1] == '\r' {
            end1 - 1
        } else {
            end1
        };
        let width_stop: usize = find_char(&text, ' ', start1, stop1);
        let width: usize = match parse_range(&text, start1, width_stop, usize::MAX) {
            Some(w) => w,
            None => {
                return Err(ReadError::BadDimensions);
            },
        };
        if width_stop >= stop1 {
            return Err(ReadError::BadDimensions);
        }
        let height_stop: usize = find_char(&text, ' ', width_stop + 1, stop1);
        let height: usize = match parse_range(&text, width_stop + 1, height_stop, usize::MAX) {
            Some(h) => h,
            None => {
                return Err(ReadError::BadDimensions);
            },
        };
        if end1 >= n - 1 {
            return Err(ReadError::MissingHeader);
        }
        let start2: usize = end1 + 1;
        let end2: usize = find_char(&text, '\n', start2, n);
        let stop2: usize = if start2 < end2 && end2 < n && text[end2 - 1] == '\r' {
            end2 - 1
        } else {
            end2
        };
        let scale: u8 = match parse_range(&text, start2, stop2, 255) {
            Some(s) => s as u8,
            None => {
                return Err(ReadError::BadScale);
            },
        };
        let body: usize = if end2 < n {
            end2 + 1
        } else {
            end2
        };
        let bounds: Vec<(usize, usize)> = split_values(&text, body);
        let ghost values = tokens(text@, body as int);
        let channels: Vec<u8> = match read_channels(&text, &bounds) {
            Ok(channels) => channels,
            Err(e) => {
                return Err(e);
            },
        };
        let cells: usize = match width.checked_mul(height) {
            Some(cells) => cells,
            None => {
                return Err(ReadError::TooLarge);
            },
        };
        if channels.len() / 3 > cells {
            return Err(ReadError::TooManyPixels);
        }
        assert(channels@ =~= channels_of(values));
        let pixels: PixelGrid = PixelGrid::from_channels(height, width, &channels).unwrap();
        let magic_number: String = contents.substring_char(0, stop0).to_owned();
        Ok(Image { magic_number, scale, pixels })
    }
}

} // verus!
