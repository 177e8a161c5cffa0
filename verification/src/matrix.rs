//! Dense matrices of pixels and of energy values, stored by `nalgebra`.
//!
//! The two handles below are opaque to the verifier. What a matrix holds is
//! named by `pixel_rows` / `energy_rows` (its cells, row by row) and by
//! `pixel_width` / `energy_width` (its number of columns, which the rows
//! alone do not give when there is no row). The functions of this file are
//! the only ones that touch `nalgebra`; their contracts are assumed, not
//! proved, and say what its source shows of each call.

use crate::pixel_utils::pixel::Pixel;
use vstd::prelude::*;

verus! {

/// A `nalgebra::DMatrix` of pixels.
#[verifier::external_body]
pub struct PixelMatrix {
    cells: nalgebra::DMatrix<Pixel>,
}

/// A `nalgebra::DMatrix` of energy values.
#[verifier::external_body]
pub struct EnergyMatrix {
    cells: nalgebra::DMatrix<u128>,
}

/// The cells of a pixel matrix: one sequence per row, top to bottom, each
/// holding that row's cells from left to right.
pub uninterp spec fn pixel_rows(m: PixelMatrix) -> Seq<Seq<Pixel>>;

/// The number of columns of a pixel matrix.
pub uninterp spec fn pixel_width(m: PixelMatrix) -> nat;

/// The cells of an energy matrix: one sequence per row, top to bottom, each
/// holding that row's cells from left to right.
pub uninterp spec fn energy_rows(m: EnergyMatrix) -> Seq<Seq<u128>>;

/// The number of columns of an energy matrix.
pub uninterp spec fn energy_width(m: EnergyMatrix) -> nat;

/// A grid of `nrows` rows of `ncols` cells, each holding `value`.
pub open spec fn uniform_rows<T>(nrows: nat, ncols: nat, value: T) -> Seq<Seq<T>> {
    Seq::new(nrows, |i: int| Seq::new(ncols, |j: int| value))
}

/// `DMatrix::from_element`: a matrix of the given shape with every cell set
/// to `value`. The shape's product must fit in `usize`, since the call
/// multiplies the two; running out of memory is outside this contract.
#[verifier::external_body]
pub(crate) fn pixel_matrix_from_element(nrows: usize, ncols: usize, value: Pixel) -> (m:
    PixelMatrix)
    requires
        nrows * ncols <= usize::MAX,
    ensures
        pixel_rows(m) == uniform_rows(nrows as nat, ncols as nat, value),
        pixel_width(m) == ncols,
{
    PixelMatrix { cells: nalgebra::DMatrix::from_element(nrows, ncols, value) }
}

/// `Matrix::nrows`: the number of rows.
#[verifier::external_body]
pub(crate) fn pixel_matrix_nrows(m: &PixelMatrix) -> (r: usize)
    ensures
        r == pixel_rows(*m).len(),
{
    m.cells.nrows()
}

/// `Matrix::ncols`: the number of columns.
#[verifier::external_body]
pub(crate) fn pixel_matrix_ncols(m: &PixelMatrix) -> (r: usize)
    ensures
        r == pixel_width(*m),
{
    m.cells.ncols()
}

/// `Matrix::index` with a pair `(row, column)`, as `m[(row, column)]` calls
/// it: the cell at that place. The index must lie inside the matrix, where
/// `nalgebra` would panic otherwise.
#[verifier::external_body]
pub(crate) fn pixel_matrix_get(m: &PixelMatrix, row: usize, col: usize) -> (p: Pixel)
    requires
        row < pixel_rows(*m).len(),
        col < pixel_width(*m),
    ensures
        p == pixel_rows(*m)[row as int][col as int],
{
    m.cells[(row, col)]
}

/// `Matrix::index_mut` with a pair `(row, column)`, as an assignment to
/// `m[(row, column)]` calls it: that cell takes `value`, every other cell
/// and the shape stay. The index must lie inside the matrix; the bounds test
/// is the call's only panic, so it does not unwind.
#[verifier::external_body]
pub(crate) fn pixel_matrix_set(m: &mut PixelMatrix, row: usize, col: usize, value: Pixel)
    requires
        row < pixel_rows(*old(m)).len(),
        col < pixel_width(*old(m)),
    ensures
        pixel_rows(*final(m)) == pixel_rows(*old(m)).update(
            row as int,
            pixel_rows(*old(m))[row as int].update(col as int, value),
        ),
        pixel_width(*final(m)) == pixel_width(*old(m)),
    no_unwind
{
    m.cells[(row, col)] = value;
}

/// `DMatrix::from_element`: a matrix of the given shape with every cell set
/// to `value`. The shape's product must fit in `usize`, since the call
/// multiplies the two; running out of memory is outside this contract.
#[verifier::external_body]
pub(crate) fn energy_matrix_from_element(nrows: usize, ncols: usize, value: u128) -> (m:
    EnergyMatrix)
    requires
        nrows * ncols <= usize::MAX,
    ensures
        energy_rows(m) == uniform_rows(nrows as nat, ncols as nat, value),
        energy_width(m) == ncols,
{
    EnergyMatrix { cells: nalgebra::DMatrix::from_element(nrows, ncols, value) }
}

/// `Matrix::nrows`: the number of rows.
#[verifier::external_body]
pub(crate) fn energy_matrix_nrows(m: &EnergyMatrix) -> (r: usize)
    ensures
        r == energy_rows(*m).len(),
{
    m.cells.nrows()
}

/// `Matrix::ncols`: the number of columns.
#[verifier::external_body]
pub(crate) fn energy_matrix_ncols(m: &EnergyMatrix) -> (r: usize)
    ensures
        r == energy_width(*m),
{
    m.cells.ncols()
}

/// `Matrix::index` with a pair `(row, column)`, as `m[(row, column)]` calls
/// it: the cell at that place. The index must lie inside the matrix, where
/// `nalgebra` would panic otherwise.
#[verifier::external_body]
pub(crate) fn energy_matrix_get(m: &EnergyMatrix, row: usize, col: usize) -> (e: u128)
    requires
        row < energy_rows(*m).len(),
        col < energy_width(*m),
    ensures
        e == energy_rows(*m)[row as int][col as int],
{
    m.cells[(row, col)]
}

/// `Matrix::index_mut` with a pair `(row, column)`, as an assignment to
/// `m[(row, column)]` calls it: that cell takes `value`, every other cell
/// and the shape stay. The index must lie inside the matrix; the bounds test
/// is the call's only panic, so it does not unwind.
#[verifier::external_body]
pub(crate) fn energy_matrix_set(m: &mut EnergyMatrix, row: usize, col: usize, value: u128)
    requires
        row < energy_rows(*old(m)).len(),
        col < energy_width(*old(m)),
    ensures
        energy_rows(*final(m)) == energy_rows(*old(m)).update(
            row as int,
            energy_rows(*old(m))[row as int].update(col as int, value),
        ),
        energy_width(*final(m)) == energy_width(*old(m)),
    no_unwind
{
    m.cells[(row, col)] = value;
}

} // verus!
