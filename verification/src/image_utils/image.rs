//! Images and the operations that edit them.

use crate::energy_utils::energy::{
    calculate_horizontal_energy_matrix, calculate_min_energy_column, calculate_min_energy_row,
    calculate_optimal_horizontal_path, calculate_optimal_vertical_path,
    calculate_vertical_energy_matrix, holds_energy,
};
use crate::error::CarveError;
use crate::grid::{rectangular, with_cell, EnergyGrid, PixelGrid};
use crate::pixel_utils::pixel::Pixel;
use crate::seam::{
    carved, energy_lines, leftmost_min, lemma_cumulative_energy_fits, lemma_leftmost_min,
    lemma_leftmost_min_of_band, lemma_seam_position_of_band, lemma_without_cell_removes,
    min_seam, positions, seam_position, traced_seam, without_cell, without_seam,
};
use vstd::prelude::*;

verus! {

/// An image: the tag and the channel maximum of its file format, and its
/// pixels.
pub struct Image {
    pub magic_number: String,
    pub scale: u8,
    pub pixels: PixelGrid,
}

/// `seam` names one live cell on each scan line of `pixels`.
pub open spec fn seam_fits(pixels: &PixelGrid, border: int, seam: Seq<usize>, vertical: bool)
    -> bool {
    &&& 1 <= border <= pixels.cross_len(vertical)
    &&& seam.len() == pixels.scan_len(vertical)
    &&& forall|s: int| 0 <= s < seam.len() ==> #[trigger] seam[s] < border
}

/// Why carving `count` seams out of `pixels` is refused, if it is:
/// `InsufficientDimension` where `count` is not below the number of cells on
/// a scan line; otherwise, where at least one seam is asked for,
/// `InvalidBorder` on a grid without a scan line and `EmptySeam` on a grid
/// with a single one.
pub open spec fn carve_refusal(pixels: &PixelGrid, count: int, vertical: bool) -> Option<
    CarveError,
> {
    if count >= pixels.cross_len(vertical) {
        Some(CarveError::InsufficientDimension)
    } else if count == 0 {
        None
    } else if pixels.scan_len(vertical) == 0 {
        Some(CarveError::InvalidBorder)
    } else if pixels.scan_len(vertical) == 1 {
        Some(CarveError::EmptySeam)
    } else {
        None
    }
}

/// Removes the cell `seam[s]` from every scan line `s`, closing the gap from
/// behind, for either orientation.
fn remove_seam(pixels: &mut PixelGrid, border: usize, seam: &[usize], vertical: bool)
    requires
        seam_fits(old(pixels), border as int, seam@, vertical),
    ensures
        final(pixels).lines(vertical) == without_seam(
            old(pixels).lines(vertical),
            border as int,
            positions(seam@),
        ),
        final(pixels).width() == old(pixels).width(),
        final(pixels).height() == old(pixels).height(),
        final(pixels).wf(),
{
    let scan: usize = pixels.line_count(vertical);
    let ghost before = pixels.lines(vertical);
    let ghost cross = pixels.cross_len(vertical);
    proof {
        pixels.lemma_lines_shape(vertical);
    }
    let mut s: usize = 0;
    while s < scan
        invariant
            0 <= s <= scan,
            pixels.wf(),
            pixels.width() == old(pixels).width(),
            pixels.height() == old(pixels).height(),
            scan == pixels.scan_len(vertical),
            cross == pixels.cross_len(vertical),
            seam@.len() == scan,
            1 <= border <= cross,
            forall|k: int| 0 <= k < seam@.len() ==> #[trigger] seam@[k] < border,
            before.len() == scan,
            rectangular(before, cross),
            pixels.lines(vertical).len() == scan,
            forall|k: int|
                0 <= k < scan ==> #[trigger] pixels.lines(vertical)[k] == (if k < s {
                    without_cell(before[k], border as int, seam@[k] as int)
                } else {
                    before[k]
                }),
        decreases scan - s,
    {
        let at: usize = seam[s];
        let mut i: usize = at;
        while i < border - 1
            invariant
                0 <= s < scan,
                at <= i <= border - 1,
                at == seam@[s as int],
                pixels.wf(),
                pixels.width() == old(pixels).width(),
                pixels.height() == old(pixels).height(),
                scan == pixels.scan_len(vertical),
                cross == pixels.cross_len(vertical),
                seam@.len() == scan,
                1 <= border <= cross,
                before.len() == scan,
                rectangular(before, cross),
                pixels.lines(vertical).len() == scan,
                forall|k: int|
                    0 <= k < scan && k != s ==> #[trigger] pixels.lines(vertical)[k] == (if k
                        < s {
                        without_cell(before[k], border as int, seam@[k] as int)
                    } else {
                        before[k]
                    }),
                pixels.lines(vertical)[s as int] == Seq::new(
                    before[s as int].len(),
                    |c: int|
                        if at <= c < i {
                            before[s as int][c + 1]
                        } else {
                            before[s as int][c]
                        },
                ),
            decreases border - 1 - i,
        {
            let ghost now = pixels.lines(vertical);
            let moved: Pixel = pixels.line_cell(s, i + 1, vertical);
            pixels.put_line_cell(s, i, vertical, moved);
            proof {
                let next = pixels.lines(vertical);
                assert(next == with_cell(now, s as int, i as int, moved));
                assert(next[s as int] =~= Seq::new(
                    before[s as int].len(),
                    |c: int|
                        if at <= c < i + 1 {
                            before[s as int][c + 1]
                        } else {
                            before[s as int][c]
                        },
                ));
                assert forall|k: int| 0 <= k < scan && k != s implies #[trigger] next[k] == (if k
                    < s {
                    without_cell(before[k], border as int, seam@[k] as int)
                } else {
                    before[k]
                }) by {
                    assert(next[k] == now[k]);
                }
            }
            i = i + 1;
        }
        assert(pixels.lines(vertical)[s as int] =~= without_cell(
            before[s as int],
            border as int,
            at as int,
        ));
        s = s + 1;
    }
    assert(pixels.lines(vertical) =~= without_seam(before, border as int, positions(seam@)));
}

/// One carving step leaves what `carved` says: the energies that were
/// computed into `energy` and the seam that was traced through them are those
/// of the model.
proof fn lemma_traced_is_min_seam(
    lines: Seq<Seq<Pixel>>,
    energy: Seq<Seq<u128>>,
    old_energy: Seq<Seq<u128>>,
    border: int,
    width: nat,
)
    requires
        1 <= border <= width,
        1 <= lines.len() <= usize::MAX,
        energy.len() == lines.len(),
        rectangular(energy, width),
        holds_energy(energy, old_energy, lines, border),
    ensures
        0 <= leftmost_min(energy.last(), border) < border,
        traced_seam(energy, border, leftmost_min(energy.last(), border)) == min_seam(
            lines,
            border,
        ),
{
    let model = energy_lines(lines, border);
    assert forall|i: int, j: int| 0 <= i < energy.len() && 0 <= j < border implies energy[i][j]
        == model[i][j] by {
        lemma_cumulative_energy_fits(lines, border, i, j);
    }
    assert forall|j: int| 0 <= j < border implies energy.last()[j] == model.last()[j] by {
        assert(energy.last()[j] == energy[energy.len() - 1][j]);
    }
    lemma_leftmost_min_of_band(energy.last(), model.last(), border);
    lemma_leftmost_min(energy.last(), border);
    let start = leftmost_min(energy.last(), border);
    assert forall|s: int| 0 <= s < energy.len() implies seam_position(energy, border, start, s)
        == seam_position(model, border, start, s) by {
        lemma_seam_position_of_band(energy, model, border, start, s);
    }
    assert(traced_seam(energy, border, start) =~= traced_seam(model, border, start));
}

impl Image {
    /// Removes `iterations` seams of least energy, one after the other:
    /// vertical seams, which narrow the image, or horizontal ones, which
    /// lower it. Each step computes the energies of the live band afresh,
    /// finds the cheapest end on the last scan line, traces the seam back and
    /// removes it. The grid keeps its shape; on success the result is the
    /// number of live columns (or rows) that remain, and the carved image
    /// lies in those.
    ///
    /// Fails as `carve_refusal` says, before any pixel has changed.
    pub fn seam_carve(&mut self, iterations: usize, vertical: bool) -> (r: Result<
        usize,
        CarveError,
    >)
        ensures
            match r {
                Ok(live) => {
                    &&& carve_refusal(&old(self).pixels, iterations as int, vertical).is_none()
                    &&& live == old(self).pixels.cross_len(vertical) - iterations
                    &&& final(self).pixels.lines(vertical) == carved(
                        old(self).pixels.lines(vertical),
                        old(self).pixels.cross_len(vertical) as int,
                        iterations as nat,
                    )
                },
                Err(e) => {
                    &&& carve_refusal(&old(self).pixels, iterations as int, vertical) == Some(e)
                    &&& final(self).pixels@ == old(self).pixels@
                },
            },
            final(self).pixels.width() == old(self).pixels.width(),
            final(self).pixels.height() == old(self).pixels.height(),
            final(self).magic_number == old(self).magic_number,
            final(self).scale == old(self).scale,
    {
        let rows: usize = self.pixels.nrows();
        let columns: usize = self.pixels.ncols();
        let scan: usize = self.pixels.line_count(vertical);
        let cross: usize = self.pixels.line_len(vertical);
        if iterations >= cross {
            return Err(CarveError::InsufficientDimension);
        }
        let ghost start_lines = self.pixels.lines(vertical);
        let mut energy: EnergyGrid = EnergyGrid::from_element(rows, columns, 0).unwrap();
        let mut border: usize = cross;
        let mut done: usize = 0;
        while done < iterations
            invariant
                0 <= done <= iterations < cross,
                border == cross - done,
                scan == self.pixels.scan_len(vertical),
                cross == self.pixels.cross_len(vertical),
                self.pixels.wf(),
                self.pixels.width() == old(self).pixels.width(),
                self.pixels.height() == old(self).pixels.height(),
                self.magic_number == old(self).magic_number,
                self.scale == old(self).scale,
                energy.wf(),
                energy.scan_len(vertical) == scan,
                energy.cross_len(vertical) == cross,
                start_lines == old(self).pixels.lines(vertical),
                done == 0 ==> self.pixels@ == old(self).pixels@,
                done > 0 ==> scan >= 2,
                carved(start_lines, cross as int, iterations as nat) == carved(
                    self.pixels.lines(vertical),
                    border as int,
                    (iterations - done) as nat,
                ),
            decreases iterations - done,
        {
            let ghost lines = self.pixels.lines(vertical);
            let ghost old_energy = energy.lines(vertical);
            let filled = if vertical {
                calculate_vertical_energy_matrix(self, &mut energy, border)
            } else {
                calculate_horizontal_energy_matrix(self, &mut energy, border)
            };
            match filled {
                Ok(()) => {},
                Err(e) => {
                    return Err(e);
                },
            }
            let ends = if vertical {
                calculate_min_energy_column(&energy, border)
            } else {
                calculate_min_energy_row(&energy, border)
            };
            let end: usize = ends.unwrap();
            proof {
                self.pixels.lemma_lines_shape(vertical);
                energy.lemma_lines_shape(vertical);
                lemma_traced_is_min_seam(
                    lines,
                    energy.lines(vertical),
                    old_energy,
                    border as int,
                    cross as nat,
                );
            }
            let traced = if vertical {
                calculate_optimal_vertical_path(&energy, border, end)
            } else {
                calculate_optimal_horizontal_path(&energy, border, end)
            };
            let seam: Vec<usize> = match traced {
                Ok(seam) => seam,
                Err(e) => {
                    return Err(e);
                },
            };
            proof {
                assert forall|s: int| 0 <= s < seam@.len() implies #[trigger] seam@[s]
                    < border by {
                    assert(positions(seam@)[s] == seam@[s]);
                }
            }
            if vertical {
                self.carve_vertical_path(border, seam.as_slice());
            } else {
                self.carve_horizontal_path(border, seam.as_slice());
            }
            border = border - 1;
            done = done + 1;
        }
        Ok(border)
    }

    /// Removes a vertical seam: in every row, the cell in column `seam[row]`
    /// leaves, and the cells behind it, up to column `border - 1`, move one
    /// column to the left. The cells that stay keep their order; the band is
    /// one column narrower afterwards.
    pub fn carve_vertical_path(&mut self, border: usize, seam: &[usize])
        requires
            seam_fits(&old(self).pixels, border as int, seam@, true),
        ensures
            final(self).pixels@ == without_seam(
                old(self).pixels@,
                border as int,
                positions(seam@),
            ),
            forall|row: int|
                0 <= row < old(self).pixels.height() ==> (#[trigger] final(self).pixels@[row]).take(
                    border - 1,
                ) == old(self).pixels@[row].take(border as int).remove(seam@[row] as int),
            final(self).pixels.width() == old(self).pixels.width(),
            final(self).pixels.height() == old(self).pixels.height(),
            final(self).pixels.wf(),
            final(self).magic_number == old(self).magic_number,
            final(self).scale == old(self).scale,
    {
        let ghost before = self.pixels@;
        let rows: usize = self.pixels.nrows();
        remove_seam(&mut self.pixels, border, seam, true);
        proof {
            assert forall|row: int| 0 <= row < before.len() implies (
            #[trigger] self.pixels@[row]).take(border - 1) == before[row].take(
                border as int,
            ).remove(seam@[row] as int) by {
                lemma_without_cell_removes(before[row], border as int, seam@[row] as int);
            }
        }
    }

    /// Removes a horizontal seam: in every column, the cell in row
    /// `seam[column]` leaves, and the cells below it, down to row
    /// `border - 1`, move one row up. The cells that stay keep their order;
    /// the band is one row lower afterwards.
    pub fn carve_horizontal_path(&mut self, border: usize, seam: &[usize])
        requires
            seam_fits(&old(self).pixels, border as int, seam@, false),
        ensures
            final(self).pixels.lines(false) == without_seam(
                old(self).pixels.lines(false),
                border as int,
                positions(seam@),
            ),
            forall|column: int|
                0 <= column < old(self).pixels.width() ==> (#[trigger] final(self).pixels.lines(
                    false,
                )[column]).take(border - 1) == old(self).pixels.lines(false)[column].take(
                    border as int,
                ).remove(seam@[column] as int),
            final(self).pixels.width() == old(self).pixels.width(),
            final(self).pixels.height() == old(self).pixels.height(),
            final(self).pixels.wf(),
            final(self).magic_number == old(self).magic_number,
            final(self).scale == old(self).scale,
    {
        let ghost before = self.pixels.lines(false);
        let columns: usize = self.pixels.ncols();
        remove_seam(&mut self.pixels, border, seam, false);
        proof {
            assert forall|column: int| 0 <= column < before.len() implies (
            #[trigger] self.pixels.lines(false)[column]).take(border - 1) == before[column].take(
                border as int,
            ).remove(seam@[column] as int) by {
                lemma_without_cell_removes(before[column], border as int, seam@[column] as int);
            }
        }
    }
}

} // verus!
