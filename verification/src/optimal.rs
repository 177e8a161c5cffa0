//! Why the seam that is carved is the cheapest one.
//!
//! The energy of a path through the grid is the sum of the local energies of
//! its cells. The cumulative energy of a cell is the least energy of a path
//! that ends there, the backward walk follows such a path, and so the seam
//! traced from the cheapest end has the least energy of all seams.

use crate::pixel_utils::pixel::Pixel;
use crate::seam::{
    band_min, cumulative_energy, energy_lines, is_leftmost_min, is_seam, leftmost_min,
    lemma_cumulative_energy_fits, lemma_leftmost_min, lemma_seam_position_in_band,
    lemma_traced_seam_is_seam, local_energy, min_seam, seam_position, step_back, traced_seam,
};
use vstd::prelude::*;

verus! {

/// Energy of the first `n` cells of a path: the sum of the local energies of
/// the cells at `path[s]` on the lines `s < n`.
pub open spec fn path_energy(lines: Seq<Seq<Pixel>>, path: Seq<int>, n: int) -> int
    decreases n,
{
    if n <= 0 {
        0
    } else {
        path_energy(lines, path, n - 1) + local_energy(lines, n - 1, path[n - 1])
    }
}

/// The energy among `left`, `above` and `right` that stands at the place
/// `to`, seen from the place `c`.
pub open spec fn predecessor(left: int, above: int, right: int, c: int, to: int) -> int {
    if to == c - 1 {
        left
    } else if to == c {
        above
    } else {
        right
    }
}

/// The least energy among the predecessors is below each of them.
pub proof fn lemma_band_min_is_least(
    left: int,
    above: int,
    right: int,
    c: int,
    border: int,
    to: int,
)
    requires
        0 <= to < border,
        c - 1 <= to <= c + 1,
    ensures
        band_min(left, above, right, c, border) <= predecessor(left, above, right, c, to),
{
}

/// A step of the backward walk goes to a predecessor of least energy.
pub proof fn lemma_step_back_is_least(left: u128, above: u128, right: u128, c: int, border: int)
    requires
        0 <= c < border,
    ensures
        predecessor(
            left as int,
            above as int,
            right as int,
            c,
            step_back(left, above, right, c, border),
        ) == band_min(left as int, above as int, right as int, c, border),
{
}

/// No path to a cell is cheaper than the cell's cumulative energy: for every
/// seam, the cumulative energy of its cell on line `s` is at most the energy
/// of the seam down to that line.
pub proof fn lemma_cumulative_energy_is_lower_bound(
    lines: Seq<Seq<Pixel>>,
    border: int,
    path: Seq<int>,
    s: int,
)
    requires
        is_seam(path, border),
        0 <= s < path.len(),
    ensures
        cumulative_energy(lines, border, s, path[s]) <= path_energy(lines, path, s + 1),
    decreases s,
{
    if s > 0 {
        lemma_cumulative_energy_is_lower_bound(lines, border, path, s - 1);
        let c = path[s];
        assert(-1 <= path[s] - path[s - 1] <= 1);
        lemma_band_min_is_least(
            cumulative_energy(lines, border, s - 1, c - 1),
            cumulative_energy(lines, border, s - 1, c),
            cumulative_energy(lines, border, s - 1, c + 1),
            c,
            border,
            path[s - 1],
        );
    } else {
        assert(path_energy(lines, path, 1) == path_energy(lines, path, 0) + local_energy(
            lines,
            0,
            path[0],
        ));
    }
}

/// The backward walk through the energy grid of `lines` follows a cheapest
/// path: down to each line, the energy of the traced seam is the cumulative
/// energy of its cell on that line.
pub proof fn lemma_traced_seam_attains(
    lines: Seq<Seq<Pixel>>,
    border: int,
    start: int,
    s: int,
)
    requires
        0 <= start < border,
        0 <= s < lines.len() <= usize::MAX,
    ensures
        path_energy(lines, traced_seam(energy_lines(lines, border), border, start), s + 1)
            == cumulative_energy(
            lines,
            border,
            s,
            seam_position(energy_lines(lines, border), border, start, s),
        ),
    decreases s,
{
    let energy = energy_lines(lines, border);
    let seam = traced_seam(energy, border, start);
    let c = seam_position(energy, border, start, s);
    lemma_seam_position_in_band(energy, border, start, s);
    assert(seam[s] == c);
    if s > 0 {
        lemma_traced_seam_attains(lines, border, start, s - 1);
        let to = seam_position(energy, border, start, s - 1);
        lemma_seam_position_in_band(energy, border, start, s - 1);
        assert(seam[s - 1] == to);
        assert(to == step_back(
            energy[s - 1][c - 1],
            energy[s - 1][c],
            energy[s - 1][c + 1],
            c,
            border,
        ));
        lemma_step_back_is_least(
            energy[s - 1][c - 1],
            energy[s - 1][c],
            energy[s - 1][c + 1],
            c,
            border,
        );
        lemma_cumulative_energy_fits(lines, border, s - 1, c);
        if c > 0 {
            lemma_cumulative_energy_fits(lines, border, s - 1, c - 1);
        }
        if c + 1 < border {
            lemma_cumulative_energy_fits(lines, border, s - 1, c + 1);
        }
        lemma_cumulative_energy_fits(lines, border, s - 1, to);
        let left = cumulative_energy(lines, border, s - 1, c - 1);
        let above = cumulative_energy(lines, border, s - 1, c);
        let right = cumulative_energy(lines, border, s - 1, c + 1);
        assert(energy[s - 1][c] == above);
        assert(c > 0 ==> energy[s - 1][c - 1] == left);
        assert(c + 1 < border ==> energy[s - 1][c + 1] == right);
        assert(energy[s - 1][to] == cumulative_energy(lines, border, s - 1, to));
        assert(cumulative_energy(lines, border, s - 1, to) == band_min(
            left,
            above,
            right,
            c,
            border,
        ));
    } else {
        assert(path_energy(lines, seam, 1) == path_energy(lines, seam, 0) + local_energy(
            lines,
            0,
            seam[0],
        ));
    }
}

/// The seam that a carving step removes is a cheapest seam: it is a seam
/// with one position on every line, and no seam through the live band has
/// less energy.
pub proof fn lemma_min_seam_is_cheapest(lines: Seq<Seq<Pixel>>, border: int, other: Seq<int>)
    requires
        1 <= border,
        1 <= lines.len() <= usize::MAX,
        other.len() == lines.len(),
        is_seam(other, border),
    ensures
        min_seam(lines, border).len() == lines.len(),
        is_seam(min_seam(lines, border), border),
        path_energy(lines, min_seam(lines, border), lines.len() as int) <= path_energy(
            lines,
            other,
            lines.len() as int,
        ),
{
    let energy = energy_lines(lines, border);
    let last = lines.len() - 1;
    let start = leftmost_min(energy.last(), border);
    lemma_leftmost_min(energy.last(), border);
    lemma_traced_seam_is_seam(energy, border, start);
    lemma_traced_seam_attains(lines, border, start, last);
    lemma_cumulative_energy_is_lower_bound(lines, border, other, last);
    let end = other[last];
    assert(0 <= end < border);
    lemma_cumulative_energy_fits(lines, border, last, start);
    lemma_cumulative_energy_fits(lines, border, last, end);
    assert(energy.last()[start] == cumulative_energy(lines, border, last, start));
    assert(energy.last()[end] == cumulative_energy(lines, border, last, end));
    assert(is_leftmost_min(energy.last(), border, start));
    if end < start {
        assert(energy.last()[end] > energy.last()[start]);
    } else {
        assert(energy.last()[end] >= energy.last()[start]);
    }
}

} // verus!
