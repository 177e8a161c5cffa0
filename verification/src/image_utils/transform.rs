//! Whole-image transforms: each builds a new image whose pixels are those of
//! the given one in other places, or changes every pixel in place.

use crate::grid::{rectangular, transposed, PixelGrid};
use crate::image_utils::image::Image;
use crate::pixel_utils::pixel::{inverted, Pixel};
use vstd::prelude::*;

verus! {

/// A way to place the pixels of one grid in another.
enum Placement {
    /// The part that starts at column `left` and row `top`.
    Crop { left: usize, top: usize },
    /// Rows become columns.
    Transpose,
    /// Half a turn.
    Rotate,
    /// Left and right change places.
    Mirror,
}

/// The cell of a grid of `height` rows and `width` columns that `placement`
/// puts at `(row, col)`.
spec fn source_cell(placement: Placement, height: int, width: int, row: int, col: int) -> (
    int,
    int,
) {
    match placement {
        Placement::Crop { left, top } => (top + row, left + col),
        Placement::Transpose => (col, row),
        Placement::Rotate => (height - 1 - row, width - 1 - col),
        Placement::Mirror => (row, width - 1 - col),
    }
}

/// The grid of `out_rows` rows and `out_cols` columns that `placement` makes
/// of `rows`.
spec fn placed(
    rows: Seq<Seq<Pixel>>,
    width: int,
    placement: Placement,
    out_rows: nat,
    out_cols: nat,
) -> Seq<Seq<Pixel>> {
    Seq::new(
        out_rows,
        |r: int|
            Seq::new(
                out_cols,
                |c: int|
                    {
                        let from = source_cell(placement, rows.len() as int, width, r, c);
                        rows[from.0][from.1]
                    },
            ),
    )
}

/// Every cell of the new grid comes from inside the old one.
spec fn placement_fits(
    placement: Placement,
    height: int,
    width: int,
    out_rows: int,
    out_cols: int,
) -> bool {
    forall|r: int, c: int|
        0 <= r < out_rows && 0 <= c < out_cols ==> {
            let from = #[trigger] source_cell(placement, height, width, r, c);
            0 <= from.0 < height && 0 <= from.1 < width
        }
}

/// The part of `rows` between the columns `x1` and `x2` and between the rows
/// `y1` and `y2`, each range without its end.
pub open spec fn cropped(rows: Seq<Seq<Pixel>>, x1: int, x2: int, y1: int, y2: int) -> Seq<
    Seq<Pixel>,
> {
    Seq::new((y2 - y1) as nat, |r: int| rows[y1 + r].subrange(x1, x2))
}

/// `rows` turned by half a turn: the last row comes first, read backwards.
pub open spec fn rotated(rows: Seq<Seq<Pixel>>) -> Seq<Seq<Pixel>> {
    Seq::new(rows.len(), |r: int| rows[rows.len() - 1 - r].reverse())
}

/// `rows` with every row read backwards.
pub open spec fn mirrored(rows: Seq<Seq<Pixel>>) -> Seq<Seq<Pixel>> {
    Seq::new(rows.len(), |r: int| rows[r].reverse())
}

/// `rows` with every pixel inverted.
pub open spec fn inverted_rows(rows: Seq<Seq<Pixel>>) -> Seq<Seq<Pixel>> {
    Seq::new(rows.len(), |r: int| Seq::new(rows[r].len(), |c: int| inverted(rows[r][c])))
}

/// Mean of the three channels of a pixel, rounded down.
pub open spec fn luminance(p: Pixel) -> int {
    (p.red + p.green + p.blue) / 3
}

/// Sum of the luminances of the pixels of a line.
pub open spec fn line_luminance(line: Seq<Pixel>) -> int
    decreases line.len(),
{
    if line.len() == 0 {
        0
    } else {
        line_luminance(line.drop_last()) + luminance(line.last())
    }
}

/// Sum of the luminances of the pixels of a grid.
pub open spec fn total_luminance(rows: Seq<Seq<Pixel>>) -> int
    decreases rows.len(),
{
    if rows.len() == 0 {
        0
    } else {
        total_luminance(rows.drop_last()) + line_luminance(rows.last())
    }
}

/// The luminances of a line add up to at most 255 per pixel.
pub proof fn lemma_line_luminance_bounds(line: Seq<Pixel>)
    ensures
        0 <= line_luminance(line) <= 255 * line.len(),
    decreases line.len(),
{
    if line.len() > 0 {
        lemma_line_luminance_bounds(line.drop_last());
    }
}

/// The luminances of a rectangular grid add up to at most 255 per pixel.
pub proof fn lemma_total_luminance_bounds(rows: Seq<Seq<Pixel>>, width: nat)
    requires
        rectangular(rows, width),
    ensures
        0 <= total_luminance(rows) <= 255 * (rows.len() * width),
    decreases rows.len(),
{
    if rows.len() > 0 {
        lemma_total_luminance_bounds(rows.drop_last(), width);
        lemma_line_luminance_bounds(rows.last());
        assert(255 * (rows.len() * width) == 255 * ((rows.len() - 1) * width) + 255 * width)
            by (nonlinear_arith);
    }
}

/// Mirroring twice gives the grid back.
pub proof fn lemma_mirror_twice(rows: Seq<Seq<Pixel>>)
    ensures
        mirrored(mirrored(rows)) == rows,
{
    assert forall|r: int| 0 <= r < rows.len() implies mirrored(mirrored(rows))[r] =~= rows[r] by {
        assert(mirrored(rows)[r] == rows[r].reverse());
    }
    assert(mirrored(mirrored(rows)) =~= rows);
}

/// Two half turns give the grid back.
pub proof fn lemma_rotate_twice(rows: Seq<Seq<Pixel>>)
    ensures
        rotated(rotated(rows)) == rows,
{
    let once = rotated(rows);
    assert forall|r: int| 0 <= r < rows.len() implies rotated(once)[r] =~= rows[r] by {
        assert(once[once.len() - 1 - r] == rows[r].reverse());
    }
    assert(rotated(once) =~= rows);
}

/// Transposing a rectangular grid twice gives the grid back.
pub proof fn lemma_transpose_twice(rows: Seq<Seq<Pixel>>, width: nat)
    requires
        rectangular(rows, width),
    ensures
        transposed(transposed(rows, width), rows.len()) == rows,
{
    assert(transposed(transposed(rows, width), rows.len()) =~~= rows);
}

/// Inverting twice gives the grid back.
pub proof fn lemma_invert_twice(rows: Seq<Seq<Pixel>>)
    ensures
        inverted_rows(inverted_rows(rows)) == rows,
{
    assert(inverted_rows(inverted_rows(rows)) =~~= rows);
}

/// Builds the grid that `placement` makes of `source`.
fn place(source: &PixelGrid, placement: &Placement, out_rows: usize, out_cols: usize) -> (out:
    PixelGrid)
    requires
        out_rows * out_cols <= usize::MAX,
        placement_fits(
            *placement,
            source.height() as int,
            source.width() as int,
            out_rows as int,
            out_cols as int,
        ),
    ensures
        out@ == placed(source@, source.width() as int, *placement, out_rows as nat, out_cols as nat),
        out.height() == out_rows,
        out.width() == out_cols,
        out.wf(),
{
    let height: usize = source.nrows();
    let width: usize = source.ncols();
    let blank = Pixel::zero();
    let mut out: PixelGrid = PixelGrid::from_element(out_rows, out_cols, blank).unwrap();
    let ghost goal = placed(
        source@,
        source.width() as int,
        *placement,
        out_rows as nat,
        out_cols as nat,
    );
    let mut r: usize = 0;
    while r < out_rows
        invariant
            0 <= r <= out_rows,
            height == source.height(),
            width == source.width(),
            source.wf(),
            out.wf(),
            out.height() == out_rows,
            out.width() == out_cols,
            placement_fits(*placement, height as int, width as int, out_rows as int, out_cols as int),
            goal == placed(source@, width as int, *placement, out_rows as nat, out_cols as nat),
            forall|i: int, j: int|
                0 <= i < out_rows && 0 <= j < out_cols ==> #[trigger] out@[i][j] == (if i < r {
                    goal[i][j]
                } else {
                    blank
                }),
        decreases out_rows - r,
    {
        let mut c: usize = 0;
        while c < out_cols
            invariant
                0 <= r < out_rows,
                0 <= c <= out_cols,
                height == source.height(),
                width == source.width(),
                source.wf(),
                out.wf(),
                out.height() == out_rows,
                out.width() == out_cols,
                placement_fits(
                    *placement,
                    height as int,
                    width as int,
                    out_rows as int,
                    out_cols as int,
                ),
                goal == placed(source@, width as int, *placement, out_rows as nat, out_cols as nat),
                forall|i: int, j: int|
                    0 <= i < out_rows && 0 <= j < out_cols ==> #[trigger] out@[i][j] == (if i < r
                        || (i == r && j < c) {
                        goal[i][j]
                    } else {
                        blank
                    }),
            decreases out_cols - c,
        {
            let ghost from = source_cell(*placement, height as int, width as int, r as int, c as int);
            let p: Pixel = match placement {
                Placement::Crop { left, top } => source.at(*top + r, *left + c),
                Placement::Transpose => source.at(c, r),
                Placement::Rotate => source.at(height - 1 - r, width - 1 - c),
                Placement::Mirror => source.at(r, width - 1 - c),
            };
            assert(p == goal[r as int][c as int]);
            out.put(r, c, p);
            c = c + 1;
        }
        r = r + 1;
    }
    assert(out@ =~~= goal);
    out
}

impl Image {
    /// The part of the image between the columns `x1` and `x2` and between
    /// the rows `y1` and `y2`, each range without its end.
    pub fn crop(&self, x1: usize, x2: usize, y1: usize, y2: usize) -> (r: Image)
        requires
            x1 <= x2 <= self.pixels.width(),
            y1 <= y2 <= self.pixels.height(),
        ensures
            r.pixels@ == cropped(self.pixels@, x1 as int, x2 as int, y1 as int, y2 as int),
            r.pixels.height() == y2 - y1,
            r.pixels.width() == x2 - x1,
            r.magic_number == self.magic_number,
            r.scale == self.scale,
    {
        let height: usize = self.pixels.nrows();
        let width: usize = self.pixels.ncols();
        proof {
            assert((y2 - y1) * (x2 - x1) <= height * width) by (nonlinear_arith)
                requires
                    0 <= y2 - y1 <= height,
                    0 <= x2 - x1 <= width,
            ;
        }
        let placement = Placement::Crop { left: x1, top: y1 };
        let pixels = place(&self.pixels, &placement, y2 - y1, x2 - x1);
        proof {
            let goal = cropped(self.pixels@, x1 as int, x2 as int, y1 as int, y2 as int);
            assert(pixels@.len() == goal.len());
            assert forall|r: int| 0 <= r < goal.len() implies pixels@[r] =~= goal[r] by {
                assert(self.pixels@[y1 + r].len() == width);
            }
            assert(pixels@ =~= goal);
        }
        Image { magic_number: self.magic_number.clone(), scale: self.scale, pixels }
    }

    /// The image with rows and columns exchanged.
    pub fn transpose(&self) -> (r: Image)
        ensures
            r.pixels@ == transposed(self.pixels@, self.pixels.width()),
            r.pixels.height() == self.pixels.width(),
            r.pixels.width() == self.pixels.height(),
            r.magic_number == self.magic_number,
            r.scale == self.scale,
    {
        let height: usize = self.pixels.nrows();
        let width: usize = self.pixels.ncols();
        proof {
            assert(width * height == height * width) by (nonlinear_arith);
        }
        let pixels = place(&self.pixels, &Placement::Transpose, width, height);
        proof {
            assert(pixels@ =~~= transposed(self.pixels@, self.pixels.width()));
        }
        Image { magic_number: self.magic_number.clone(), scale: self.scale, pixels }
    }

    /// The image turned by half a turn.
    pub fn rotate(&self) -> (r: Image)
        ensures
            r.pixels@ == rotated(self.pixels@),
            r.pixels.height() == self.pixels.height(),
            r.pixels.width() == self.pixels.width(),
            r.magic_number == self.magic_number,
            r.scale == self.scale,
    {
        let height: usize = self.pixels.nrows();
        let width: usize = self.pixels.ncols();
        let pixels = place(&self.pixels, &Placement::Rotate, height, width);
        proof {
            let goal = rotated(self.pixels@);
            assert(pixels@.len() == goal.len());
            assert forall|r: int| 0 <= r < goal.len() implies pixels@[r] =~= goal[r] by {
                assert(self.pixels@[height - 1 - r].len() == width);
            }
            assert(pixels@ =~= goal);
        }
        Image { magic_number: self.magic_number.clone(), scale: self.scale, pixels }
    }

    /// The image with left and right exchanged.
    pub fn mirror(&self) -> (r: Image)
        ensures
            r.pixels@ == mirrored(self.pixels@),
            r.pixels.height() == self.pixels.height(),
            r.pixels.width() == self.pixels.width(),
            r.magic_number == self.magic_number,
            r.scale == self.scale,
    {
        let height: usize = self.pixels.nrows();
        let width: usize = self.pixels.ncols();
        let pixels = place(&self.pixels, &Placement::Mirror, height, width);
        proof {
            let goal = mirrored(self.pixels@);
            assert(pixels@.len() == goal.len());
            assert forall|r: int| 0 <= r < goal.len() implies pixels@[r] =~= goal[r] by {
                assert(self.pixels@[r].len() == width);
            }
            assert(pixels@ =~= goal);
        }
        Image { magic_number: self.magic_number.clone(), scale: self.scale, pixels }
    }

    /// Inverts every pixel of the image.
    pub fn invert(&mut self)
        ensures
            final(self).pixels@ == inverted_rows(old(self).pixels@),
            final(self).pixels.height() == old(self).pixels.height(),
            final(self).pixels.width() == old(self).pixels.width(),
            final(self).magic_number == old(self).magic_number,
            final(self).scale == old(self).scale,
    {
        let height: usize = self.pixels.nrows();
        let width: usize = self.pixels.ncols();
        let ghost before = self.pixels@;
        let mut r: usize = 0;
        while r < height
            invariant
                0 <= r <= height,
                self.pixels.wf(),
                rectangular(before, width as nat),
                before.len() == height,
                self.pixels.height() == height,
                self.pixels.width() == width,
                self.magic_number == old(self).magic_number,
                self.scale == old(self).scale,
                forall|i: int, j: int|
                    0 <= i < height && 0 <= j < width ==> #[trigger] self.pixels@[i][j] == (if i
                        < r {
                        inverted(before[i][j])
                    } else {
                        before[i][j]
                    }),
            decreases height - r,
        {
            let mut c: usize = 0;
            while c < width
                invariant
                    0 <= r < height,
                    0 <= c <= width,
                    self.pixels.wf(),
                    rectangular(before, width as nat),
                    before.len() == height,
                    self.pixels.height() == height,
                    self.pixels.width() == width,
                    self.magic_number == old(self).magic_number,
                    self.scale == old(self).scale,
                    forall|i: int, j: int|
                        0 <= i < height && 0 <= j < width ==> #[trigger] self.pixels@[i][j] == (if i
                            < r || (i == r && j < c) {
                            inverted(before[i][j])
                        } else {
                            before[i][j]
                        }),
                decreases width - c,
            {
                let mut p: Pixel = self.pixels.at(r, c);
                p.invert();
                self.pixels.put(r, c, p);
                c = c + 1;
            }
            r = r + 1;
        }
        assert(self.pixels@ =~~= inverted_rows(before));
    }

    /// Mean luminance of the pixels, rounded down, or `None` for an image
    /// without pixels.
    pub fn brightness(&self) -> (r: Option<u32>)
        ensures
            r.is_some() <==> self.pixels.height() * self.pixels.width() > 0,
            r.is_some() ==> r.unwrap() == total_luminance(self.pixels@) / ((self.pixels.height()
                * self.pixels.width()) as int),
            r.is_some() ==> r.unwrap() <= 255,
    {
        let height: usize = self.pixels.nrows();
        let width: usize = self.pixels.ncols();
        if height == 0 || width == 0 {
            assert(height * width == 0) by (nonlinear_arith)
                requires
                    height == 0 || width == 0,
            ;
            return None;
        }
        assert(height * width > 0) by (nonlinear_arith)
            requires
                height > 0,
                width > 0,
        ;
        let count: usize = height * width;
        let ghost rows = self.pixels@;
        let mut sum: u128 = 0;
        let mut r: usize = 0;
        while r < height
            invariant
                0 <= r <= height,
                self.pixels.wf(),
                rows == self.pixels@,
                rows.len() == height,
                self.pixels.width() == width,
                sum == total_luminance(rows.take(r as int)),
            decreases height - r,
        {
            proof {
                lemma_total_luminance_bounds(rows.take(r as int), width as nat);
                assert(r * width <= height * width) by (nonlinear_arith)
                    requires
                        0 <= r <= height,
                        0 <= width,
                ;
            }
            let mut c: usize = 0;
            let ghost line = rows[r as int];
            let mut line_sum: u128 = 0;
            while c < width
                invariant
                    0 <= r < height,
                    0 <= c <= width,
                    self.pixels.wf(),
                    rows == self.pixels@,
                    rows.len() == height,
                    self.pixels.width() == width,
                    line == rows[r as int],
                    line.len() == width,
                    line_sum == line_luminance(line.take(c as int)),
                decreases width - c,
            {
                proof {
                    lemma_line_luminance_bounds(line.take(c as int));
                }
                let p: Pixel = self.pixels.at(r, c);
                let mean: u32 = (p.red as u32 + p.green as u32 + p.blue as u32) / 3;
                proof {
                    assert(line.take(c + 1).drop_last() =~= line.take(c as int));
                }
                line_sum = line_sum + mean as u128;
                c = c + 1;
            }
            proof {
                assert(line.take(width as int) =~= line);
                assert(rows.take(r + 1).drop_last() =~= rows.take(r as int));
                lemma_line_luminance_bounds(line);
            }
            sum = sum + line_sum;
            r = r + 1;
        }
        proof {
            assert(rows.take(height as int) =~= rows);
            lemma_total_luminance_bounds(rows, width as nat);
            assert(total_luminance(rows) / (count as int) <= 255) by (nonlinear_arith)
                requires
                    0 <= total_luminance(rows) <= 255 * count,
                    count > 0,
            ;
        }
        let mean: u128 = sum / (count as u128);
        Some(mean as u32)
    }
}

} // verus!
