//! Energy of an image and the seam of least energy through it.
//!
//! The energy of a pixel is its distance in colour to its neighbours; the
//! cumulative energy adds the cheapest way to reach it from the first scan
//! line. Seams are found by walking back from the cheapest end.

use crate::error::CarveError;
use crate::grid::{EnergyGrid, PixelGrid};
use crate::image_utils::image::Image;
use crate::pixel_utils::pixel::Pixel;
use crate::seam::{
    cumulative_energy, is_leftmost_min, is_seam, leftmost_min, lemma_cumulative_energy_fits,
    lemma_leftmost_min, lemma_local_energy_bounds, lemma_step_back_in_band,
    lemma_traced_seam_is_seam, local_energy, positions, seam_position, step_back, traced_seam,
};
use vstd::prelude::*;

verus! {

/// The live band `[0, border)` suits both grids: it is not empty, no wider
/// than a scan line of either grid, and the two grids have the same number
/// of scan lines, at least one.
pub open spec fn band_fits(pixels: &PixelGrid, energy: &EnergyGrid, border: int, vertical: bool)
    -> bool {
    &&& 1 <= border <= pixels.cross_len(vertical)
    &&& border <= energy.cross_len(vertical)
    &&& 1 <= pixels.scan_len(vertical)
    &&& energy.scan_len(vertical) == pixels.scan_len(vertical)
}

/// `after` holds, in the live band of every scan line, the cumulative
/// energies of `lines`, and outside the band what `before` held.
pub open spec fn holds_energy(
    after: Seq<Seq<u128>>,
    before: Seq<Seq<u128>>,
    lines: Seq<Seq<Pixel>>,
    border: int,
) -> bool {
    &&& after.len() == before.len()
    &&& forall|s: int| 0 <= s < after.len() ==> (#[trigger] after[s]).len() == before[s].len()
    &&& forall|s: int, c: int|
        0 <= s < after.len() && 0 <= c < after[s].len() ==> (if c < border {
            #[trigger] after[s][c] as int == cumulative_energy(lines, border, s, c)
        } else {
            after[s][c] == before[s][c]
        })
}

/// The energy grid while it is being filled: lines before `s` are done, line
/// `s` is done up to position `c`, and every other cell is as in `before`.
spec fn filled_up_to(
    now: Seq<Seq<u128>>,
    before: Seq<Seq<u128>>,
    lines: Seq<Seq<Pixel>>,
    border: int,
    s: int,
    c: int,
) -> bool {
    &&& now.len() == before.len()
    &&& forall|i: int| 0 <= i < now.len() ==> (#[trigger] now[i]).len() == before[i].len()
    &&& forall|i: int, j: int|
        0 <= i < now.len() && 0 <= j < now[i].len() ==> (if j < border && (i < s || (i == s
            && j < c)) {
            #[trigger] now[i][j] as int == cumulative_energy(lines, border, i, j)
        } else {
            now[i][j] == before[i][j]
        })
}

/// Fills the live band of `energy` with the cumulative energies of `pixels`,
/// line by line, for either orientation.
fn fill_energy(pixels: &PixelGrid, energy: &mut EnergyGrid, border: usize, vertical: bool) -> (r:
    Result<(), CarveError>)
    ensures
        r.is_ok() <==> band_fits(pixels, old(energy), border as int, vertical),
        r.is_err() ==> r == Err::<(), CarveError>(CarveError::InvalidBorder) && final(energy)@
            == old(energy)@,
        r.is_ok() ==> holds_energy(
            final(energy).lines(vertical),
            old(energy).lines(vertical),
            pixels.lines(vertical),
            border as int,
        ),
        final(energy).width() == old(energy).width(),
        final(energy).height() == old(energy).height(),
        final(energy).wf(),
{
    let scan: usize = pixels.line_count(vertical);
    let cross: usize = pixels.line_len(vertical);
    let energy_scan: usize = energy.line_count(vertical);
    let energy_cross: usize = energy.line_len(vertical);
    if border == 0 || border > cross || border > energy_cross || scan == 0 || energy_scan
        != scan {
        return Err(CarveError::InvalidBorder);
    }
    let ghost before = energy.lines(vertical);
    let ghost lines = pixels.lines(vertical);
    proof {
        pixels.lemma_lines_shape(vertical);
        energy.lemma_lines_shape(vertical);
    }
    let mut s: usize = 0;
    while s < scan
        invariant
            0 <= s <= scan,
            scan == pixels.scan_len(vertical),
            cross == pixels.cross_len(vertical),
            1 <= border <= cross,
            border <= energy_cross,
            pixels.wf(),
            lines == pixels.lines(vertical),
            energy.wf(),
            energy.width() == old(energy).width(),
            energy.height() == old(energy).height(),
            energy.scan_len(vertical) == scan,
            energy.cross_len(vertical) == energy_cross,
            before.len() == scan,
            filled_up_to(energy.lines(vertical), before, lines, border as int, s as int, 0),
        decreases scan - s,
    {
        let mut c: usize = 0;
        while c < border
            invariant
                0 <= s < scan,
                0 <= c <= border,
                scan == pixels.scan_len(vertical),
                cross == pixels.cross_len(vertical),
                1 <= border <= cross,
                border <= energy_cross,
                pixels.wf(),
                lines == pixels.lines(vertical),
                energy.wf(),
                energy.width() == old(energy).width(),
                energy.height() == old(energy).height(),
                energy.scan_len(vertical) == scan,
                energy.cross_len(vertical) == energy_cross,
                before.len() == scan,
                filled_up_to(
                    energy.lines(vertical),
                    before,
                    lines,
                    border as int,
                    s as int,
                    c as int,
                ),
            decreases border - c,
        {
            proof {
                pixels.lemma_lines_shape(vertical);
                energy.lemma_lines_shape(vertical);
                lemma_local_energy_bounds(lines, s as int, c as int);
                lemma_cumulative_energy_fits(lines, border as int, s as int, c as int);
                if s > 0 {
                    lemma_cumulative_energy_fits(lines, border as int, s - 1, c - 1);
                    lemma_cumulative_energy_fits(lines, border as int, s - 1, c as int);
                    lemma_cumulative_energy_fits(lines, border as int, s - 1, c + 1);
                }
            }
            let here = pixels.line_cell(s, c, vertical);
            let mut value: u128 = 0;
            if c > 0 {
                let before_here = pixels.line_cell(s, c - 1, vertical);
                value = value + Pixel::color_diff(here, before_here) as u128;
            }
            if s > 0 {
                let over_here = pixels.line_cell(s - 1, c, vertical);
                value = value + Pixel::color_diff(here, over_here) as u128;
                assert(value == local_energy(lines, s as int, c as int));
                let mut least: u128 = energy.line_cell(s - 1, c, vertical);
                if c > 0 {
                    let left: u128 = energy.line_cell(s - 1, c - 1, vertical);
                    if left < least {
                        least = left;
                    }
                }
                if c + 1 < border {
                    let right: u128 = energy.line_cell(s - 1, c + 1, vertical);
                    if right < least {
                        least = right;
                    }
                }
                value = value + least;
            }
            assert(value == cumulative_energy(lines, border as int, s as int, c as int));
            let ghost now = energy.lines(vertical);
            energy.put_line_cell(s, c, vertical, value);
            proof {
                let next = energy.lines(vertical);
                assert forall|i: int| 0 <= i < next.len() implies (#[trigger] next[i]).len()
                    == before[i].len() by {
                    assert(now[i].len() == before[i].len());
                }
                assert forall|i: int, j: int|
                    0 <= i < next.len() && 0 <= j < next[i].len() implies (if j < border && (i
                    < s || (i == s && j < c + 1)) {
                    #[trigger] next[i][j] as int == cumulative_energy(lines, border as int, i, j)
                } else {
                    next[i][j] == before[i][j]
                }) by {
                    assert(now[i].len() == before[i].len());
                    if i == s && j == c {
                    } else {
                        assert(next[i][j] == now[i][j]);
                    }
                }
            }
            c = c + 1;
        }
        s = s + 1;
    }
    Ok(())
}

/// Computes the energy grid for vertical seams: every cell of the first
/// `border` columns receives its cumulative energy, scanning the rows from
/// top to bottom. Cells of `energy` outside the band are left alone.
///
/// Fails with `InvalidBorder`, leaving `energy` untouched, where the band is
/// empty or wider than either grid, where the image has no row, or where the
/// two grids differ in their number of rows.
pub fn calculate_vertical_energy_matrix(image: &Image, energy: &mut EnergyGrid, border: usize) -> (r:
    Result<(), CarveError>)
    ensures
        r.is_ok() <==> band_fits(&image.pixels, old(energy), border as int, true),
        r.is_err() ==> r == Err::<(), CarveError>(CarveError::InvalidBorder) && final(energy)@
            == old(energy)@,
        r.is_ok() ==> holds_energy(
            final(energy)@,
            old(energy)@,
            image.pixels@,
            border as int,
        ),
        final(energy).width() == old(energy).width(),
        final(energy).height() == old(energy).height(),
        final(energy).wf(),
{
    fill_energy(&image.pixels, energy, border, true)
}

/// Computes the energy grid for horizontal seams: every cell of the first
/// `border` rows receives its cumulative energy, scanning the columns from
/// left to right. Cells of `energy` outside the band are left alone.
///
/// Fails with `InvalidBorder`, leaving `energy` untouched, where the band is
/// empty or taller than either grid, where the image has no column, or where
/// the two grids differ in their number of columns.
pub fn calculate_horizontal_energy_matrix(
    image: &Image,
    energy: &mut EnergyGrid,
    border: usize,
) -> (r: Result<(), CarveError>)
    ensures
        r.is_ok() <==> band_fits(&image.pixels, old(energy), border as int, false),
        r.is_err() ==> r == Err::<(), CarveError>(CarveError::InvalidBorder) && final(energy)@
            == old(energy)@,
        r.is_ok() ==> holds_energy(
            final(energy).lines(false),
            old(energy).lines(false),
            image.pixels.lines(false),
            border as int,
        ),
        final(energy).width() == old(energy).width(),
        final(energy).height() == old(energy).height(),
        final(energy).wf(),
{
    fill_energy(&image.pixels, energy, border, false)
}

/// The live band `[0, border)` is not empty and lies inside the scan lines
/// of `energy`, of which there is at least one.
pub open spec fn band_in_grid(energy: &EnergyGrid, border: int, vertical: bool) -> bool {
    &&& 1 <= border <= energy.cross_len(vertical)
    &&& 1 <= energy.scan_len(vertical)
}

/// Finds the end of the cheapest seam on the last scan line, for either
/// orientation.
fn min_energy_endpoint(energy: &EnergyGrid, border: usize, vertical: bool) -> (r: Result<
    usize,
    CarveError,
>)
    ensures
        r.is_ok() <==> band_in_grid(energy, border as int, vertical),
        r.is_err() ==> r == Err::<usize, CarveError>(CarveError::InvalidBorder),
        r.is_ok() ==> {
            &&& r.unwrap() == leftmost_min(energy.lines(vertical).last(), border as int)
            &&& is_leftmost_min(energy.lines(vertical).last(), border as int, r.unwrap() as int)
        },
{
    let scan: usize = energy.line_count(vertical);
    let cross: usize = energy.line_len(vertical);
    if border == 0 || border > cross || scan == 0 {
        return Err(CarveError::InvalidBorder);
    }
    proof {
        energy.lemma_lines_shape(vertical);
    }
    let ghost line = energy.lines(vertical).last();
    let last: usize = scan - 1;
    let mut best: usize = 0;
    let mut i: usize = 1;
    while i < border
        invariant
            1 <= i <= border <= cross,
            0 <= best < i,
            energy.wf(),
            scan == energy.scan_len(vertical),
            cross == energy.cross_len(vertical),
            last == scan - 1,
            line == energy.lines(vertical)[last as int],
            line.len() == cross,
            best == leftmost_min(line, i as int),
        decreases border - i,
    {
        if energy.line_cell(last, best, vertical) > energy.line_cell(last, i, vertical) {
            best = i;
        }
        i = i + 1;
    }
    proof {
        lemma_leftmost_min(line, border as int);
    }
    Ok(best)
}

/// The column at which the cheapest vertical seam ends: the leftmost
/// minimum of the last row among the first `border` columns.
///
/// Fails with `InvalidBorder` where the band is empty or wider than the
/// grid, or where the grid has no row.
pub fn calculate_min_energy_column(energy: &EnergyGrid, border: usize) -> (r: Result<
    usize,
    CarveError,
>)
    ensures
        r.is_ok() <==> band_in_grid(energy, border as int, true),
        r.is_err() ==> r == Err::<usize, CarveError>(CarveError::InvalidBorder),
        r.is_ok() ==> {
            &&& r.unwrap() == leftmost_min(energy@.last(), border as int)
            &&& is_leftmost_min(energy@.last(), border as int, r.unwrap() as int)
        },
{
    min_energy_endpoint(energy, border, true)
}

/// The row at which the cheapest horizontal seam ends: the topmost minimum
/// of the last column among the first `border` rows.
///
/// Fails with `InvalidBorder` where the band is empty or taller than the
/// grid, or where the grid has no column.
pub fn calculate_min_energy_row(energy: &EnergyGrid, border: usize) -> (r: Result<
    usize,
    CarveError,
>)
    ensures
        r.is_ok() <==> band_in_grid(energy, border as int, false),
        r.is_err() ==> r == Err::<usize, CarveError>(CarveError::InvalidBorder),
        r.is_ok() ==> {
            &&& r.unwrap() == leftmost_min(energy.lines(false).last(), border as int)
            &&& is_leftmost_min(energy.lines(false).last(), border as int, r.unwrap() as int)
        },
{
    min_energy_endpoint(energy, border, false)
}

/// What a backward walk owes its caller: `EmptySeam` on a grid of fewer than
/// two scan lines; otherwise `InvalidBorder` where the band is empty or
/// wider than the grid, or where the walk would start outside the band;
/// otherwise nothing.
pub open spec fn trace_refusal(energy: &EnergyGrid, border: int, start: int, vertical: bool)
    -> Option<CarveError> {
    if energy.scan_len(vertical) < 2 {
        Some(CarveError::EmptySeam)
    } else if border < 1 || border > energy.cross_len(vertical) || start >= border {
        Some(CarveError::InvalidBorder)
    } else {
        None
    }
}

/// Walks back from `start` on the last scan line to the first, for either
/// orientation.
fn trace_seam(energy: &EnergyGrid, border: usize, start: usize, vertical: bool) -> (r: Result<
    Vec<usize>,
    CarveError,
>)
    ensures
        match r {
            Ok(seam) => {
                &&& trace_refusal(energy, border as int, start as int, vertical).is_none()
                &&& positions(seam@) == traced_seam(
                    energy.lines(vertical),
                    border as int,
                    start as int,
                )
                &&& seam@.len() == energy.scan_len(vertical)
                &&& is_seam(positions(seam@), border as int)
            },
            Err(e) => trace_refusal(energy, border as int, start as int, vertical) == Some(e),
        },
{
    let scan: usize = energy.line_count(vertical);
    let cross: usize = energy.line_len(vertical);
    if scan < 2 {
        return Err(CarveError::EmptySeam);
    }
    if border == 0 || border > cross || start >= border {
        return Err(CarveError::InvalidBorder);
    }
    let ghost lines = energy.lines(vertical);
    proof {
        energy.lemma_lines_shape(vertical);
        lemma_traced_seam_is_seam(lines, border as int, start as int);
    }
    let mut seam: Vec<usize> = Vec::with_capacity(scan);
    let mut n: usize = 0;
    while n < scan
        invariant
            0 <= n <= scan,
            seam@.len() == n,
            forall|k: int| 0 <= k < n ==> seam@[k] == start,
        decreases scan - n,
    {
        seam.push(start);
        n = n + 1;
    }
    let mut j: usize = scan - 1;
    while j > 0
        invariant
            0 <= j < scan,
            2 <= scan,
            1 <= border <= cross,
            start < border,
            energy.wf(),
            scan == energy.scan_len(vertical),
            cross == energy.cross_len(vertical),
            lines == energy.lines(vertical),
            lines.len() == scan,
            seam@.len() == scan,
            forall|s: int|
                j <= s < scan ==> #[trigger] seam@[s] as int == seam_position(
                    lines,
                    border as int,
                    start as int,
                    s,
                ),
            forall|s: int| j <= s < scan ==> #[trigger] seam@[s] < border,
        decreases j,
    {
        let c: usize = seam[j];
        let above: u128 = energy.line_cell(j - 1, c, vertical);
        let ghost left_cell = lines[j - 1][c - 1];
        let ghost right_cell = lines[j - 1][c + 1];
        proof {
            lemma_step_back_in_band(left_cell, above, right_cell, c as int, border as int);
        }
        let next: usize = if c == 0 {
            if border == 1 {
                c
            } else {
                let right: u128 = energy.line_cell(j - 1, c + 1, vertical);
                if above <= right {
                    c
                } else {
                    c + 1
                }
            }
        } else if c == border - 1 {
            let left: u128 = energy.line_cell(j - 1, c - 1, vertical);
            if above <= left {
                c
            } else {
                c - 1
            }
        } else {
            let left: u128 = energy.line_cell(j - 1, c - 1, vertical);
            let right: u128 = energy.line_cell(j - 1, c + 1, vertical);
            if above == left {
                if above <= right {
                    c
                } else {
                    c + 1
                }
            } else if above <= right {
                if above <= left {
                    c
                } else {
                    c - 1
                }
            } else if left < above && left <= right {
                c - 1
            } else if above < left && above <= right {
                c
            } else {
                c + 1
            }
        };
        assert(next as int == step_back(left_cell, above, right_cell, c as int, border as int));
        seam.set(j - 1, next);
        j = j - 1;
    }
    assert(positions(seam@) =~= traced_seam(lines, border as int, start as int));
    Ok(seam)
}

/// Traces the vertical seam that ends at column `start` of the last row:
/// one column per row, from the first row to the last, found by walking
/// back up through the first `border` columns of `energy`.
///
/// Fails with `EmptySeam` on a grid of fewer than two rows; otherwise with
/// `InvalidBorder` where the band is empty or wider than the grid, or where
/// `start` lies outside the band.
pub fn calculate_optimal_vertical_path(energy: &EnergyGrid, border: usize, start: usize) -> (r:
    Result<Vec<usize>, CarveError>)
    ensures
        match r {
            Ok(seam) => {
                &&& trace_refusal(energy, border as int, start as int, true).is_none()
                &&& positions(seam@) == traced_seam(energy@, border as int, start as int)
                &&& seam@.len() == energy.height()
                &&& is_seam(positions(seam@), border as int)
            },
            Err(e) => trace_refusal(energy, border as int, start as int, true) == Some(e),
        },
{
    trace_seam(energy, border, start, true)
}

/// Traces the horizontal seam that ends at row `start` of the last column:
/// one row per column, from the first column to the last, found by walking
/// back through the first `border` rows of `energy`.
///
/// Fails with `EmptySeam` on a grid of fewer than two columns; otherwise
/// with `InvalidBorder` where the band is empty or taller than the grid, or
/// where `start` lies outside the band.
pub fn calculate_optimal_horizontal_path(energy: &EnergyGrid, border: usize, start: usize) -> (r:
    Result<Vec<usize>, CarveError>)
    ensures
        match r {
            Ok(seam) => {
                &&& trace_refusal(energy, border as int, start as int, false).is_none()
                &&& positions(seam@) == traced_seam(
                    energy.lines(false),
                    border as int,
                    start as int,
                )
                &&& seam@.len() == energy.width()
                &&& is_seam(positions(seam@), border as int)
            },
            Err(e) => trace_refusal(energy, border as int, start as int, false) == Some(e),
        },
{
    trace_seam(energy, border, start, false)
}

} // verus!
