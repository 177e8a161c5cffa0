//! The two grids of the carving kernel: pixels and energy values.
//!
//! A grid is viewed as the sequence of its rows, together with its number of
//! columns. Every grid is rectangular, and its number of cells fits in
//! `usize`; both facts are kept as a type invariant and handed out by the
//! shape accessors.

use crate::matrix::{
    energy_matrix_from_element, energy_matrix_get, energy_matrix_ncols, energy_matrix_nrows,
    energy_matrix_set, energy_rows, energy_width, pixel_matrix_from_element, pixel_matrix_get,
    pixel_matrix_ncols, pixel_matrix_nrows, pixel_matrix_set, pixel_rows, pixel_width,
    uniform_rows, EnergyMatrix, PixelMatrix,
};
use crate::pixel_utils::pixel::Pixel;
use vstd::prelude::*;

verus! {

/// Every row of `rows` has `width` cells.
pub open spec fn rectangular<T>(rows: Seq<Seq<T>>, width: nat) -> bool {
    forall|i: int| 0 <= i < rows.len() ==> (#[trigger] rows[i]).len() == width
}

/// `rows` with the cell at `(row, col)` replaced by `value`.
pub open spec fn with_cell<T>(rows: Seq<Seq<T>>, row: int, col: int, value: T) -> Seq<Seq<T>> {
    rows.update(row, rows[row].update(col, value))
}

/// The columns of a rectangular grid of `width` columns, each read from top
/// to bottom.
pub open spec fn transposed<T>(rows: Seq<Seq<T>>, width: nat) -> Seq<Seq<T>> {
    Seq::new(width, |c: int| Seq::new(rows.len(), |r: int| rows[r][c]))
}

/// The scan lines of a grid: its rows where seams run vertically, its
/// columns where they run horizontally.
pub open spec fn scan_lines<T>(rows: Seq<Seq<T>>, width: nat, vertical: bool) -> Seq<Seq<T>> {
    if vertical {
        rows
    } else {
        transposed(rows, width)
    }
}

/// Replacing a cell of a rectangular grid replaces the same cell of its scan
/// lines, in either orientation, and keeps the grid rectangular.
pub proof fn lemma_with_cell_scan_lines<T>(
    rows: Seq<Seq<T>>,
    width: nat,
    vertical: bool,
    s: int,
    c: int,
    value: T,
)
    requires
        rectangular(rows, width),
        0 <= s < (if vertical { rows.len() } else { width }),
        0 <= c < (if vertical { width } else { rows.len() }),
    ensures
        vertical ==> scan_lines(with_cell(rows, s, c, value), width, vertical) == with_cell(
            scan_lines(rows, width, vertical),
            s,
            c,
            value,
        ),
        !vertical ==> scan_lines(with_cell(rows, c, s, value), width, vertical) == with_cell(
            scan_lines(rows, width, vertical),
            s,
            c,
            value,
        ),
        vertical ==> rectangular(with_cell(rows, s, c, value), width),
        !vertical ==> rectangular(with_cell(rows, c, s, value), width),
{
    if !vertical {
        let a = scan_lines(with_cell(rows, c, s, value), width, vertical);
        let b = with_cell(scan_lines(rows, width, vertical), s, c, value);
        assert(a.len() == b.len());
        assert forall|i: int| 0 <= i < a.len() implies a[i] =~= b[i] by {
            assert forall|j: int| 0 <= j < a[i].len() implies a[i][j] == b[i][j] by {
                if j == c {
                } else {
                    assert(with_cell(rows, c, s, value)[j] == rows[j]);
                }
            }
        }
        assert(a =~= b);
    }
}

/// The grid of the given shape whose pixels are listed in `channels`, row by
/// row, three channels for each pixel: red, green, blue. Cells for which the
/// list is too short are black; values beyond the last cell are not used.
pub open spec fn channel_rows(channels: Seq<u8>, width: nat, height: nat) -> Seq<Seq<Pixel>> {
    Seq::new(
        height,
        |r: int|
            Seq::new(
                width,
                |c: int|
                    {
                        let k = r * width + c;
                        if 3 * k + 2 < channels.len() {
                            Pixel {
                                red: channels[3 * k],
                                green: channels[3 * k + 1],
                                blue: channels[3 * k + 2],
                            }
                        } else {
                            Pixel { red: 0, green: 0, blue: 0 }
                        }
                    },
            ),
    )
}

/// The mutable buffer of pixels behind an image.
pub struct PixelGrid {
    cells: PixelMatrix,
}

/// A buffer of energy values, shaped like the pixel grid it is computed for.
pub struct EnergyGrid {
    cells: EnergyMatrix,
}

impl View for PixelGrid {
    type V = Seq<Seq<Pixel>>;

    closed spec fn view(&self) -> Seq<Seq<Pixel>> {
        pixel_rows(self.cells)
    }
}

impl View for EnergyGrid {
    type V = Seq<Seq<u128>>;

    closed spec fn view(&self) -> Seq<Seq<u128>> {
        energy_rows(self.cells)
    }
}

impl PixelGrid {
    #[verifier::type_invariant]
    closed spec fn inv(self) -> bool {
        &&& rectangular(pixel_rows(self.cells), pixel_width(self.cells))
        &&& pixel_rows(self.cells).len() * pixel_width(self.cells) <= usize::MAX
    }

    /// Number of columns.
    pub closed spec fn width(&self) -> nat {
        pixel_width(self.cells)
    }

    /// Number of rows.
    pub open spec fn height(&self) -> nat {
        self@.len()
    }

    /// What holds of every grid: it is rectangular and its cell count fits
    /// in `usize`.
    pub open spec fn wf(&self) -> bool {
        &&& rectangular(self@, self.width())
        &&& self.height() * self.width() <= usize::MAX
    }

    /// A grid of the given shape with every cell set to `value`, or `None`
    /// where the number of cells does not fit in `usize`.
    pub fn from_element(nrows: usize, ncols: usize, value: Pixel) -> (r: Option<PixelGrid>)
        ensures
            r.is_some() <==> nrows * ncols <= usize::MAX,
            r.is_some() ==> {
                &&& r.unwrap()@ == uniform_rows(nrows as nat, ncols as nat, value)
                &&& r.unwrap().width() == ncols
                &&& r.unwrap().wf()
            },
    {
        match nrows.checked_mul(ncols) {
            Some(_) => {
                let cells = pixel_matrix_from_element(nrows, ncols, value);
                Some(PixelGrid { cells })
            },
            None => None,
        }
    }

    /// The grid of the given shape whose pixels are listed in `channels`,
    /// row by row, three channels for each pixel; cells for which the list is
    /// too short are black. `None` where the number of cells does not fit in
    /// `usize`.
    pub fn from_channels(nrows: usize, ncols: usize, channels: &Vec<u8>) -> (r: Option<
        PixelGrid,
    >)
        ensures
            r.is_some() <==> nrows * ncols <= usize::MAX,
            r.is_some() ==> {
                &&& r.unwrap()@ == channel_rows(channels@, ncols as nat, nrows as nat)
                &&& r.unwrap().width() == ncols
                &&& r.unwrap().height() == nrows
                &&& r.unwrap().wf()
            },
    {
        let blank = Pixel { red: 0, green: 0, blue: 0 };
        let mut grid: PixelGrid = match PixelGrid::from_element(nrows, ncols, blank) {
            Some(grid) => grid,
            None => {
                return None;
            },
        };
        let total: usize = channels.len();
        let count: usize = total / 3;
        let ghost goal = channel_rows(channels@, ncols as nat, nrows as nat);
        let mut k: usize = 0;
        let mut r: usize = 0;
        while r < nrows
            invariant
                0 <= r <= nrows,
                k == r * ncols,
                nrows * ncols <= usize::MAX,
                blank == (Pixel { red: 0, green: 0, blue: 0 }),
                grid.wf(),
                grid.height() == nrows,
                grid.width() == ncols,
                total == channels@.len(),
                count == total / 3,
                goal == channel_rows(channels@, ncols as nat, nrows as nat),
                forall|i: int, j: int|
                    0 <= i < nrows && 0 <= j < ncols ==> #[trigger] grid@[i][j] == (if i < r {
                        goal[i][j]
                    } else {
                        blank
                    }),
            decreases nrows - r,
        {
            proof {
                assert((r + 1) * ncols <= nrows * ncols) by (nonlinear_arith)
                    requires
                        r + 1 <= nrows,
                        0 <= ncols,
                ;
                assert((r + 1) * ncols == r * ncols + ncols) by (nonlinear_arith);
            }
            let mut c: usize = 0;
            while c < ncols
                invariant
                    0 <= r < nrows,
                    0 <= c <= ncols,
                    k == r * ncols + c,
                    r * ncols + ncols <= usize::MAX,
                    blank == (Pixel { red: 0, green: 0, blue: 0 }),
                    grid.wf(),
                    grid.height() == nrows,
                    grid.width() == ncols,
                    total == channels@.len(),
                    count == total / 3,
                    goal == channel_rows(channels@, ncols as nat, nrows as nat),
                    forall|i: int, j: int|
                        0 <= i < nrows && 0 <= j < ncols ==> #[trigger] grid@[i][j] == (if i < r
                            || (i == r && j < c) {
                            goal[i][j]
                        } else {
                            blank
                        }),
                decreases ncols - c,
            {
                if k < count {
                    assert(3 * k + 2 < total);
                    let p = Pixel {
                        red: channels[3 * k],
                        green: channels[3 * k + 1],
                        blue: channels[3 * k + 2],
                    };
                    assert(p == goal[r as int][c as int]);
                    grid.put(r, c, p);
                } else {
                    assert(blank == goal[r as int][c as int]);
                }
                k = k + 1;
                c = c + 1;
            }
            r = r + 1;
        }
        assert(grid@ =~~= goal);
        Some(grid)
    }

    /// Number of rows.
    pub fn nrows(&self) -> (r: usize)
        ensures
            r == self.height(),
            self.wf(),
    {
        proof {
            use_type_invariant(self);
        }
        pixel_matrix_nrows(&self.cells)
    }

    /// Number of columns.
    pub fn ncols(&self) -> (r: usize)
        ensures
            r == self.width(),
            self.wf(),
    {
        proof {
            use_type_invariant(self);
        }
        pixel_matrix_ncols(&self.cells)
    }

    /// The pixel at `(row, col)`.
    pub fn at(&self, row: usize, col: usize) -> (p: Pixel)
        requires
            row < self.height(),
            col < self.width(),
        ensures
            p == self@[row as int][col as int],
            self.wf(),
    {
        proof {
            use_type_invariant(self);
        }
        pixel_matrix_get(&self.cells, row, col)
    }

    /// Stores `value` at `(row, col)`; every other cell and the shape stay.
    pub fn put(&mut self, row: usize, col: usize, value: Pixel)
        requires
            row < old(self).height(),
            col < old(self).width(),
        ensures
            final(self)@ == with_cell(old(self)@, row as int, col as int, value),
            final(self).width() == old(self).width(),
            final(self).height() == old(self).height(),
            final(self).wf(),
    {
        proof {
            use_type_invariant(&*self);
        }
        pixel_matrix_set(&mut self.cells, row, col, value);
    }

    /// The scan lines: rows for vertical seams, columns for horizontal ones.
    pub open spec fn lines(&self, vertical: bool) -> Seq<Seq<Pixel>> {
        scan_lines(self@, self.width(), vertical)
    }

    /// Number of scan lines.
    pub open spec fn scan_len(&self, vertical: bool) -> nat {
        if vertical {
            self.height()
        } else {
            self.width()
        }
    }

    /// Number of cells on a scan line.
    pub open spec fn cross_len(&self, vertical: bool) -> nat {
        if vertical {
            self.width()
        } else {
            self.height()
        }
    }

    /// The scan lines of a well-formed grid are `scan_len` lines of
    /// `cross_len` cells each.
    pub proof fn lemma_lines_shape(&self, vertical: bool)
        requires
            self.wf(),
        ensures
            self.lines(vertical).len() == self.scan_len(vertical),
            rectangular(self.lines(vertical), self.cross_len(vertical)),
    {
    }

    /// Number of scan lines.
    pub fn line_count(&self, vertical: bool) -> (r: usize)
        ensures
            r == self.scan_len(vertical),
            self.wf(),
    {
        if vertical {
            self.nrows()
        } else {
            self.ncols()
        }
    }

    /// Number of cells on a scan line.
    pub fn line_len(&self, vertical: bool) -> (r: usize)
        ensures
            r == self.cross_len(vertical),
            self.wf(),
    {
        if vertical {
            self.ncols()
        } else {
            self.nrows()
        }
    }

    /// The cell at position `c` of scan line `s`.
    pub fn line_cell(&self, s: usize, c: usize, vertical: bool) -> (r: Pixel)
        requires
            s < self.scan_len(vertical),
            c < self.cross_len(vertical),
        ensures
            r == self.lines(vertical)[s as int][c as int],
            self.wf(),
    {
        if vertical {
            self.at(s, c)
        } else {
            self.at(c, s)
        }
    }

    /// Stores `value` at position `c` of scan line `s`; every other cell and
    /// the shape stay.
    pub fn put_line_cell(&mut self, s: usize, c: usize, vertical: bool, value: Pixel)
        requires
            s < old(self).scan_len(vertical),
            c < old(self).cross_len(vertical),
        ensures
            final(self).lines(vertical) == with_cell(
                old(self).lines(vertical),
                s as int,
                c as int,
                value,
            ),
            final(self).width() == old(self).width(),
            final(self).height() == old(self).height(),
            final(self).wf(),
    {
        let ghost before = self@;
        proof {
            use_type_invariant(&*self);
        }
        if vertical {
            self.put(s, c, value);
        } else {
            self.put(c, s, value);
        }
        proof {
            lemma_with_cell_scan_lines(before, self.width(), vertical, s as int, c as int, value);
        }
    }

    /// The pixel at `(row, col)`, or `None` outside the grid.
    pub fn get(&self, row: usize, col: usize) -> (r: Option<Pixel>)
        ensures
            r == (if row < self.height() && col < self.width() {
                Some(self@[row as int][col as int])
            } else {
                None
            }),
    {
        if row < self.nrows() && col < self.ncols() {
            Some(self.at(row, col))
        } else {
            None
        }
    }

    /// Stores `value` at `(row, col)` and returns `true`; outside the grid
    /// nothing changes and the result is `false`.
    pub fn set(&mut self, row: usize, col: usize, value: Pixel) -> (done: bool)
        ensures
            done == (row < old(self).height() && col < old(self).width()),
            done ==> final(self)@ == with_cell(old(self)@, row as int, col as int, value),
            !done ==> final(self)@ == old(self)@,
            final(self).width() == old(self).width(),
            final(self).height() == old(self).height(),
    {
        if row < self.nrows() && col < self.ncols() {
            self.put(row, col, value);
            true
        } else {
            false
        }
    }
}

impl EnergyGrid {
    #[verifier::type_invariant]
    closed spec fn inv(self) -> bool {
        &&& rectangular(energy_rows(self.cells), energy_width(self.cells))
        &&& energy_rows(self.cells).len() * energy_width(self.cells) <= usize::MAX
    }

    /// Number of columns.
    pub closed spec fn width(&self) -> nat {
        energy_width(self.cells)
    }

    /// Number of rows.
    pub open spec fn height(&self) -> nat {
        self@.len()
    }

    /// What holds of every grid: it is rectangular and its cell count fits
    /// in `usize`.
    pub open spec fn wf(&self) -> bool {
        &&& rectangular(self@, self.width())
        &&& self.height() * self.width() <= usize::MAX
    }

    /// A grid of the given shape with every cell set to `value`, or `None`
    /// where the number of cells does not fit in `usize`.
    pub fn from_element(nrows: usize, ncols: usize, value: u128) -> (r: Option<EnergyGrid>)
        ensures
            r.is_some() <==> nrows * ncols <= usize::MAX,
            r.is_some() ==> {
                &&& r.unwrap()@ == uniform_rows(nrows as nat, ncols as nat, value)
                &&& r.unwrap().width() == ncols
                &&& r.unwrap().wf()
            },
    {
        match nrows.checked_mul(ncols) {
            Some(_) => {
                let cells = energy_matrix_from_element(nrows, ncols, value);
                Some(EnergyGrid { cells })
            },
            None => None,
        }
    }

    /// Number of rows.
    pub fn nrows(&self) -> (r: usize)
        ensures
            r == self.height(),
            self.wf(),
    {
        proof {
            use_type_invariant(self);
        }
        energy_matrix_nrows(&self.cells)
    }

    /// Number of columns.
    pub fn ncols(&self) -> (r: usize)
        ensures
            r == self.width(),
            self.wf(),
    {
        proof {
            use_type_invariant(self);
        }
        energy_matrix_ncols(&self.cells)
    }

    /// The energy at `(row, col)`.
    pub fn at(&self, row: usize, col: usize) -> (e: u128)
        requires
            row < self.height(),
            col < self.width(),
        ensures
            e == self@[row as int][col as int],
            self.wf(),
    {
        proof {
            use_type_invariant(self);
        }
        energy_matrix_get(&self.cells, row, col)
    }

    /// Stores `value` at `(row, col)`; every other cell and the shape stay.
    pub fn put(&mut self, row: usize, col: usize, value: u128)
        requires
            row < old(self).height(),
            col < old(self).width(),
        ensures
            final(self)@ == with_cell(old(self)@, row as int, col as int, value),
            final(self).width() == old(self).width(),
            final(self).height() == old(self).height(),
            final(self).wf(),
    {
        proof {
            use_type_invariant(&*self);
        }
        energy_matrix_set(&mut self.cells, row, col, value);
    }

    /// The scan lines: rows for vertical seams, columns for horizontal ones.
    pub open spec fn lines(&self, vertical: bool) -> Seq<Seq<u128>> {
        scan_lines(self@, self.width(), vertical)
    }

    /// Number of scan lines.
    pub open spec fn scan_len(&self, vertical: bool) -> nat {
        if vertical {
            self.height()
        } else {
            self.width()
        }
    }

    /// Number of cells on a scan line.
    pub open spec fn cross_len(&self, vertical: bool) -> nat {
        if vertical {
            self.width()
        } else {
            self.height()
        }
    }

    /// The scan lines of a well-formed grid are `scan_len` lines of
    /// `cross_len` cells each.
    pub proof fn lemma_lines_shape(&self, vertical: bool)
        requires
            self.wf(),
        ensures
            self.lines(vertical).len() == self.scan_len(vertical),
            rectangular(self.lines(vertical), self.cross_len(vertical)),
    {
    }

    /// Number of scan lines.
    pub fn line_count(&self, vertical: bool) -> (r: usize)
        ensures
            r == self.scan_len(vertical),
            self.wf(),
    {
        if vertical {
            self.nrows()
        } else {
            self.ncols()
        }
    }

    /// Number of cells on a scan line.
    pub fn line_len(&self, vertical: bool) -> (r: usize)
        ensures
            r == self.cross_len(vertical),
            self.wf(),
    {
        if vertical {
            self.ncols()
        } else {
            self.nrows()
        }
    }

    /// The cell at position `c` of scan line `s`.
    pub fn line_cell(&self, s: usize, c: usize, vertical: bool) -> (r: u128)
        requires
            s < self.scan_len(vertical),
            c < self.cross_len(vertical),
        ensures
            r == self.lines(vertical)[s as int][c as int],
            self.wf(),
    {
        if vertical {
            self.at(s, c)
        } else {
            self.at(c, s)
        }
    }

    /// Stores `value` at position `c` of scan line `s`; every other cell and
    /// the shape stay.
    pub fn put_line_cell(&mut self, s: usize, c: usize, vertical: bool, value: u128)
        requires
            s < old(self).scan_len(vertical),
            c < old(self).cross_len(vertical),
        ensures
            final(self).lines(vertical) == with_cell(
                old(self).lines(vertical),
                s as int,
                c as int,
                value,
            ),
            final(self).width() == old(self).width(),
            final(self).height() == old(self).height(),
            final(self).wf(),
    {
        let ghost before = self@;
        proof {
            use_type_invariant(&*self);
        }
        if vertical {
            self.put(s, c, value);
        } else {
            self.put(c, s, value);
        }
        proof {
            lemma_with_cell_scan_lines(before, self.width(), vertical, s as int, c as int, value);
        }
    }

    /// The energy at `(row, col)`, or `None` outside the grid.
    pub fn get(&self, row: usize, col: usize) -> (r: Option<u128>)
        ensures
            r == (if row < self.height() && col < self.width() {
                Some(self@[row as int][col as int])
            } else {
                None
            }),
    {
        if row < self.nrows() && col < self.ncols() {
            Some(self.at(row, col))
        } else {
            None
        }
    }

    /// Stores `value` at `(row, col)` and returns `true`; outside the grid
    /// nothing changes and the result is `false`.
    pub fn set(&mut self, row: usize, col: usize, value: u128) -> (done: bool)
        ensures
            done == (row < old(self).height() && col < old(self).width()),
            done ==> final(self)@ == with_cell(old(self)@, row as int, col as int, value),
            !done ==> final(self)@ == old(self)@,
            final(self).width() == old(self).width(),
            final(self).height() == old(self).height(),
    {
        if row < self.nrows() && col < self.ncols() {
            self.put(row, col, value);
            true
        } else {
            false
        }
    }
}

} // verus!
