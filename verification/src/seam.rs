//! The mathematics of seam carving, over a grid's scan lines.
//!
//! A grid is read here as a sequence of scan lines: `lines[s][c]` is the cell
//! at position `c` of line `s`. For vertical seams a line is a row, for
//! horizontal seams a column, so one definition serves both orientations.
//! Only the first `border` cells of each line are live.

use crate::pixel_utils::pixel::{color_diff_spec, lemma_color_diff_bounds, Pixel};
use vstd::prelude::*;

verus! {

/// Largest local energy of a cell: two pixel distances.
pub const MAX_LOCAL_ENERGY: u128 = 390150;

/// Local energy of the cell at `(s, c)`: its distance to the cell before it
/// on its line, plus its distance to the same cell of the line before. A
/// neighbour that does not exist adds nothing, so the first cell of the first
/// line has local energy 0.
pub open spec fn local_energy(lines: Seq<Seq<Pixel>>, s: int, c: int) -> int {
    (if c > 0 {
        color_diff_spec(lines[s][c], lines[s][c - 1])
    } else {
        0
    }) + (if s > 0 {
        color_diff_spec(lines[s][c], lines[s - 1][c])
    } else {
        0
    })
}

/// The smallest of the predecessors of position `c` that lie in the live
/// band: `above` always, `left` where `c > 0`, `right` where `c + 1 < border`.
pub open spec fn band_min(left: int, above: int, right: int, c: int, border: int) -> int {
    let m = if c > 0 && left < above {
        left
    } else {
        above
    };
    if c + 1 < border && right < m {
        right
    } else {
        m
    }
}

/// Cumulative energy of the cell at `(s, c)`: its local energy, plus, from
/// the second line on, the smallest cumulative energy among its predecessors
/// on the line before.
pub open spec fn cumulative_energy(lines: Seq<Seq<Pixel>>, border: int, s: int, c: int) -> int
    decreases s,
{
    if s <= 0 {
        local_energy(lines, 0, c)
    } else {
        local_energy(lines, s, c) + band_min(
            cumulative_energy(lines, border, s - 1, c - 1),
            cumulative_energy(lines, border, s - 1, c),
            cumulative_energy(lines, border, s - 1, c + 1),
            c,
            border,
        )
    }
}

/// The energy grid of `lines` for the live band `[0, border)`: one line per
/// scan line, holding the cumulative energy of each live cell.
pub open spec fn energy_lines(lines: Seq<Seq<Pixel>>, border: int) -> Seq<Seq<u128>> {
    Seq::new(
        lines.len(),
        |s: int| Seq::new(border as nat, |c: int| cumulative_energy(lines, border, s, c) as u128),
    )
}

/// `k` is the first position of the smallest value among the first `border`
/// entries of `line`.
pub open spec fn is_leftmost_min(line: Seq<u128>, border: int, k: int) -> bool {
    &&& 0 <= k < border
    &&& forall|j: int| 0 <= j < k ==> #[trigger] line[j] > line[k]
    &&& forall|j: int| k <= j < border ==> #[trigger] line[j] >= line[k]
}

/// The first position of the smallest value among the first `border` entries
/// of `line`: scanning from the left, a later entry wins only where it is
/// strictly smaller.
pub open spec fn leftmost_min(line: Seq<u128>, border: int) -> int
    decreases border,
{
    if border <= 1 {
        0
    } else {
        let best = leftmost_min(line, border - 1);
        if line[border - 1] < line[best] {
            border - 1
        } else {
            best
        }
    }
}

/// One step of the backward walk. From position `c`, with the energies
/// `left`, `above` and `right` of the cells at `c - 1`, `c` and `c + 1` on
/// the line before, the position on that line: at either end of the live
/// band only the two cells inside it compete, and the straight one wins a
/// tie; inside, the straight cell wins ties, then the left one.
pub open spec fn step_back(left: u128, above: u128, right: u128, c: int, border: int) -> int {
    if c == 0 {
        if c + 1 >= border || above <= right {
            c
        } else {
            c + 1
        }
    } else if c == border - 1 {
        if above <= left {
            c
        } else {
            c - 1
        }
    } else if above == left {
        if above <= right {
            c
        } else {
            c + 1
        }
    } else if above <= right {
        if above <= left {
            c
        } else {
            c - 1
        }
    } else if left < above && left <= right {
        c - 1
    } else if above < left && above <= right {
        c
    } else {
        c + 1
    }
}

/// Position of the seam on line `s`, for the walk that starts at `start` on
/// the last line and steps back one line at a time.
pub open spec fn seam_position(energy: Seq<Seq<u128>>, border: int, start: int, s: int) -> int
    decreases energy.len() - s,
{
    if s >= energy.len() - 1 {
        start
    } else {
        let c = seam_position(energy, border, start, s + 1);
        step_back(energy[s][c - 1], energy[s][c], energy[s][c + 1], c, border)
    }
}

/// The seam traced from `start`: one position per line.
pub open spec fn traced_seam(energy: Seq<Seq<u128>>, border: int, start: int) -> Seq<int> {
    Seq::new(energy.len(), |s: int| seam_position(energy, border, start, s))
}

/// A seam for the live band `[0, border)`: every position lies in the band
/// and neighbouring positions differ by at most one.
pub open spec fn is_seam(seam: Seq<int>, border: int) -> bool {
    &&& forall|s: int| 0 <= s < seam.len() ==> 0 <= #[trigger] seam[s] < border
    &&& forall|s: int| 0 < s < seam.len() ==> -1 <= #[trigger] seam[s] - seam[s - 1] <= 1
}

/// `line` with the live cell at `k` removed: the live cells behind it move
/// one position towards it, and the cell at `border - 1`, now outside the
/// band, keeps what it held.
pub open spec fn without_cell(line: Seq<Pixel>, border: int, k: int) -> Seq<Pixel> {
    Seq::new(
        line.len(),
        |c: int|
            if k <= c < border - 1 {
                line[c + 1]
            } else {
                line[c]
            },
    )
}

/// `lines` with the cell at `seam[s]` removed from each line `s`.
pub open spec fn without_seam(lines: Seq<Seq<Pixel>>, border: int, seam: Seq<int>) -> Seq<
    Seq<Pixel>,
> {
    Seq::new(lines.len(), |s: int| without_cell(lines[s], border, seam[s]))
}

/// The seam that one carving step removes: traced back from the leftmost
/// minimum of the last line of the energy grid.
pub open spec fn min_seam(lines: Seq<Seq<Pixel>>, border: int) -> Seq<int> {
    let energy = energy_lines(lines, border);
    traced_seam(energy, border, leftmost_min(energy.last(), border))
}

/// `lines` after `count` carving steps that start from the live band
/// `[0, border)`: each step removes the seam of least energy of what the
/// step before left, and narrows the band by one.
pub open spec fn carved(lines: Seq<Seq<Pixel>>, border: int, count: nat) -> Seq<Seq<Pixel>>
    decreases count,
{
    if count == 0 {
        lines
    } else {
        carved(without_seam(lines, border, min_seam(lines, border)), border - 1, (count - 1) as nat)
    }
}

/// The positions of a seam as mathematical integers.
pub open spec fn positions(seam: Seq<usize>) -> Seq<int> {
    Seq::new(seam.len(), |s: int| seam[s] as int)
}

/// `leftmost_min` is the leftmost minimum of a band that is not empty.
pub proof fn lemma_leftmost_min(line: Seq<u128>, border: int)
    requires
        1 <= border,
    ensures
        is_leftmost_min(line, border, leftmost_min(line, border)),
    decreases border,
{
    if border > 1 {
        lemma_leftmost_min(line, border - 1);
    }
}

/// A band has one leftmost minimum: the search for it gives the same
/// position however often it is run on the same energies.
pub proof fn lemma_leftmost_min_unique(line: Seq<u128>, border: int, a: int, b: int)
    requires
        is_leftmost_min(line, border, a),
        is_leftmost_min(line, border, b),
    ensures
        a == b,
{
    if a < b {
        assert(line[a] > line[b]);
        assert(line[b] >= line[a]);
    } else if b < a {
        assert(line[b] > line[a]);
        assert(line[a] >= line[b]);
    }
}

/// A step of the backward walk stays inside the live band and moves by at
/// most one position.
pub proof fn lemma_step_back_in_band(left: u128, above: u128, right: u128, c: int, border: int)
    requires
        0 <= c < border,
    ensures
        0 <= step_back(left, above, right, c, border) < border,
        -1 <= step_back(left, above, right, c, border) - c <= 1,
{
}

/// Every position of a traced seam lies in the live band, provided the walk
/// starts inside it.
pub proof fn lemma_seam_position_in_band(energy: Seq<Seq<u128>>, border: int, start: int, s: int)
    requires
        0 <= start < border,
    ensures
        0 <= seam_position(energy, border, start, s) < border,
    decreases energy.len() - s,
{
    if s < energy.len() - 1 {
        lemma_seam_position_in_band(energy, border, start, s + 1);
        let c = seam_position(energy, border, start, s + 1);
        lemma_step_back_in_band(energy[s][c - 1], energy[s][c], energy[s][c + 1], c, border);
    }
}

/// A traced seam is a seam: whatever the energies are, every position lies
/// in `[0, border)` and neighbouring positions differ by at most one,
/// provided the walk starts inside the band.
pub proof fn lemma_traced_seam_is_seam(energy: Seq<Seq<u128>>, border: int, start: int)
    requires
        0 <= start < border,
    ensures
        traced_seam(energy, border, start).len() == energy.len(),
        is_seam(traced_seam(energy, border, start), border),
{
    let seam = traced_seam(energy, border, start);
    assert forall|s: int| 0 <= s < seam.len() implies 0 <= #[trigger] seam[s] < border by {
        lemma_seam_position_in_band(energy, border, start, s);
    }
    assert forall|s: int| 0 < s < seam.len() implies -1 <= #[trigger] seam[s] - seam[s - 1]
        <= 1 by {
        lemma_seam_position_in_band(energy, border, start, s);
        let c = seam_position(energy, border, start, s);
        lemma_step_back_in_band(
            energy[s - 1][c - 1],
            energy[s - 1][c],
            energy[s - 1][c + 1],
            c,
            border,
        );
    }
}

/// The leftmost minimum of a band depends on the entries inside the band
/// alone.
pub proof fn lemma_leftmost_min_of_band(a: Seq<u128>, b: Seq<u128>, border: int)
    requires
        1 <= border,
        forall|j: int| 0 <= j < border ==> a[j] == b[j],
    ensures
        leftmost_min(a, border) == leftmost_min(b, border),
    decreases border,
{
    if border > 1 {
        lemma_leftmost_min_of_band(a, b, border - 1);
        lemma_leftmost_min(a, border - 1);
    }
}

/// A traced seam depends on the energies inside the live band alone.
pub proof fn lemma_seam_position_of_band(
    a: Seq<Seq<u128>>,
    b: Seq<Seq<u128>>,
    border: int,
    start: int,
    s: int,
)
    requires
        a.len() == b.len(),
        0 <= start < border,
        0 <= s,
        forall|i: int, j: int| 0 <= i < a.len() && 0 <= j < border ==> a[i][j] == b[i][j],
    ensures
        seam_position(a, border, start, s) == seam_position(b, border, start, s),
    decreases a.len() - s,
{
    if s < a.len() - 1 {
        lemma_seam_position_of_band(a, b, border, start, s + 1);
        lemma_seam_position_in_band(a, border, start, s + 1);
    }
}

/// Removing the live cell at `k` from a line is removing the entry at `k`
/// from the live part of the line: the cells that stay keep their order, and
/// the band is one shorter. Beyond the new band nothing changes.
pub proof fn lemma_without_cell_removes(line: Seq<Pixel>, border: int, k: int)
    requires
        0 <= k < border <= line.len(),
    ensures
        without_cell(line, border, k).len() == line.len(),
        without_cell(line, border, k).take(border - 1) == line.take(border).remove(k),
        without_cell(line, border, k).skip(border - 1) == line.skip(border - 1),
{
    assert(without_cell(line, border, k).take(border - 1) =~= line.take(border).remove(k));
    assert(without_cell(line, border, k).skip(border - 1) =~= line.skip(border - 1));
}

/// A local energy is never negative and never above `MAX_LOCAL_ENERGY`,
/// whatever the pixels are.
pub proof fn lemma_local_energy_bounds(lines: Seq<Seq<Pixel>>, s: int, c: int)
    ensures
        0 <= local_energy(lines, s, c) <= MAX_LOCAL_ENERGY,
{
    lemma_color_diff_bounds(lines[s][c], lines[s][c - 1]);
    lemma_color_diff_bounds(lines[s][c], lines[s - 1][c]);
}

/// A cumulative energy is never negative, and on line `s` never above
/// `s + 1` times the largest local energy, whatever the pixels are.
pub proof fn lemma_cumulative_energy_bounds(lines: Seq<Seq<Pixel>>, border: int, s: int, c: int)
    requires
        0 <= s,
    ensures
        0 <= cumulative_energy(lines, border, s, c) <= (s + 1) * MAX_LOCAL_ENERGY,
    decreases s,
{
    lemma_local_energy_bounds(lines, s, c);
    if s > 0 {
        lemma_cumulative_energy_bounds(lines, border, s - 1, c - 1);
        lemma_cumulative_energy_bounds(lines, border, s - 1, c);
        lemma_cumulative_energy_bounds(lines, border, s - 1, c + 1);
        assert((s + 1) * MAX_LOCAL_ENERGY == s * MAX_LOCAL_ENERGY + MAX_LOCAL_ENERGY)
            by (nonlinear_arith);
    }
}

/// The cumulative energy of a live cell on line `s` depends only on the
/// live cells of the lines up to `s`: two grids that agree there give the
/// cell the same energy, whatever they hold further down or outside the
/// band.
pub proof fn lemma_cumulative_energy_causal(
    a: Seq<Seq<Pixel>>,
    b: Seq<Seq<Pixel>>,
    border: int,
    s: int,
    c: int,
)
    requires
        0 <= s,
        0 <= c < border,
        forall|i: int, j: int| 0 <= i <= s && 0 <= j < border ==> a[i][j] == b[i][j],
    ensures
        local_energy(a, s, c) == local_energy(b, s, c),
        cumulative_energy(a, border, s, c) == cumulative_energy(b, border, s, c),
    decreases s,
{
    if s > 0 {
        lemma_cumulative_energy_causal(a, b, border, s - 1, c);
        if c > 0 {
            lemma_cumulative_energy_causal(a, b, border, s - 1, c - 1);
        }
        if c + 1 < border {
            lemma_cumulative_energy_causal(a, b, border, s - 1, c + 1);
        }
    }
}

/// In a grid whose live cells all hold the same pixel, every live cell has
/// local and cumulative energy 0.
pub proof fn lemma_uniform_energy(lines: Seq<Seq<Pixel>>, border: int, p: Pixel, s: int, c: int)
    requires
        0 <= s < lines.len(),
        0 <= c < border,
        forall|i: int, j: int| 0 <= i < lines.len() && 0 <= j < border ==> lines[i][j] == p,
    ensures
        local_energy(lines, s, c) == 0,
        cumulative_energy(lines, border, s, c) == 0,
    decreases s,
{
    lemma_color_diff_bounds(p, p);
    if s > 0 {
        lemma_uniform_energy(lines, border, p, s - 1, c);
        if c > 0 {
            lemma_uniform_energy(lines, border, p, s - 1, c - 1);
        }
        if c + 1 < border {
            lemma_uniform_energy(lines, border, p, s - 1, c + 1);
        }
    }
}

/// Among equal energies the search for the cheapest end stops at position 0.
pub proof fn lemma_leftmost_min_of_equal(line: Seq<u128>, border: int, e: u128)
    requires
        forall|j: int| 0 <= j < border ==> #[trigger] line[j] == e,
    ensures
        leftmost_min(line, border) == 0,
    decreases border,
{
    if border > 1 {
        lemma_leftmost_min_of_equal(line, border - 1, e);
    }
}

/// Through energies that are equal all over the live band, the walk that
/// starts at position 0 stays there.
pub proof fn lemma_seam_position_of_equal(energy: Seq<Seq<u128>>, border: int, e: u128, s: int)
    requires
        1 <= border,
        0 <= s,
        forall|i: int, j: int| 0 <= i < energy.len() && 0 <= j < border ==> energy[i][j] == e,
    ensures
        seam_position(energy, border, 0, s) == 0,
    decreases energy.len() - s,
{
    if s < energy.len() - 1 {
        lemma_seam_position_of_equal(energy, border, e, s + 1);
    }
}

/// In a grid whose live cells all hold the same pixel, the seam of least
/// energy is position 0 on every line: the first minimum wins at the end,
/// and the straight cell wins every tie on the way back.
pub proof fn lemma_uniform_seam(lines: Seq<Seq<Pixel>>, border: int, p: Pixel)
    requires
        1 <= border,
        forall|i: int, j: int| 0 <= i < lines.len() && 0 <= j < border ==> lines[i][j] == p,
    ensures
        min_seam(lines, border) == Seq::new(lines.len(), |s: int| 0int),
{
    let energy = energy_lines(lines, border);
    assert forall|i: int, j: int| 0 <= i < energy.len() && 0 <= j < border implies energy[i][j]
        == 0 by {
        lemma_uniform_energy(lines, border, p, i, j);
    }
    if lines.len() > 0 {
        assert forall|j: int| 0 <= j < border implies #[trigger] energy.last()[j] == 0 by {
            assert(energy.last()[j] == energy[energy.len() - 1][j]);
        }
        lemma_leftmost_min_of_equal(energy.last(), border, 0);
    }
    let start = leftmost_min(energy.last(), border);
    assert forall|s: int| 0 <= s < energy.len() implies seam_position(energy, border, start, s)
        == 0 by {
        lemma_seam_position_of_equal(energy, border, 0, s);
    }
    assert(min_seam(lines, border) =~= Seq::new(lines.len(), |s: int| 0int));
}

/// A grid of a single cell has energy 0 there, and its seam of least energy
/// is that cell.
pub proof fn lemma_single_cell(lines: Seq<Seq<Pixel>>)
    requires
        lines.len() == 1,
        lines[0].len() == 1,
    ensures
        cumulative_energy(lines, 1, 0, 0) == 0,
        min_seam(lines, 1) == seq![0int],
{
    lemma_uniform_seam(lines, 1, lines[0][0]);
    assert(min_seam(lines, 1) =~= seq![0int]);
}

/// The cumulative energy of a cell on a line that a `usize` can number fits
/// in 128 bits.
pub proof fn lemma_cumulative_energy_fits(lines: Seq<Seq<Pixel>>, border: int, s: int, c: int)
    requires
        0 <= s <= usize::MAX,
    ensures
        0 <= cumulative_energy(lines, border, s, c) <= (s + 1) * MAX_LOCAL_ENERGY
            <= 0x1_0000_0000_0000_0000 * MAX_LOCAL_ENERGY < u128::MAX,
{
    lemma_cumulative_energy_bounds(lines, border, s, c);
    assert((s + 1) * MAX_LOCAL_ENERGY <= 0x1_0000_0000_0000_0000 * MAX_LOCAL_ENERGY)
        by (nonlinear_arith)
        requires
            s + 1 <= 0x1_0000_0000_0000_0000,
    ;
}

} // verus!
