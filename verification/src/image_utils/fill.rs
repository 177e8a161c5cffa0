//! Flood fill: recolouring the region of one colour around a point.

use crate::grid::{rectangular, with_cell, PixelGrid};
use crate::image_utils::image::Image;
use crate::pixel_utils::pixel::Pixel;
use vstd::prelude::*;

verus! {

/// The cell `(row, column)` lies in a grid of `height` rows and `width`
/// columns.
pub open spec fn in_grid(height: int, width: int, cell: (int, int)) -> bool {
    0 <= cell.0 < height && 0 <= cell.1 < width
}

/// Two cells are neighbours: they share a row and lie in columns next to each
/// other, or share a column and lie in rows next to each other.
pub open spec fn adjacent(a: (int, int), b: (int, int)) -> bool {
    ||| (a.0 == b.0 && (a.1 == b.1 + 1 || b.1 == a.1 + 1))
    ||| (a.1 == b.1 && (a.0 == b.0 + 1 || b.0 == a.0 + 1))
}

/// `path` walks through `rows` from neighbour to neighbour over cells of the
/// colour `colour` only.
pub open spec fn is_path(rows: Seq<Seq<Pixel>>, width: int, colour: Pixel, path: Seq<(int, int)>)
    -> bool {
    &&& path.len() > 0
    &&& forall|k: int|
        0 <= k < path.len() ==> in_grid(rows.len() as int, width, #[trigger] path[k])
            && rows[path[k].0][path[k].1] == colour
    &&& forall|k: int| 0 < k < path.len() ==> adjacent(path[k - 1], #[trigger] path[k])
}

/// `to` can be reached from `from` over cells of the colour of `from`.
pub open spec fn connected(rows: Seq<Seq<Pixel>>, width: int, from: (int, int), to: (int, int))
    -> bool {
    exists|path: Seq<(int, int)>|
        #[trigger] is_path(rows, width, rows[from.0][from.1], path) && path[0] == from
            && path.last() == to
}

/// `rows` with the colour `fill` in every cell that is connected to `start`.
pub open spec fn flood_filled(rows: Seq<Seq<Pixel>>, width: int, start: (int, int), fill: Pixel)
    -> Seq<Seq<Pixel>> {
    Seq::new(
        rows.len(),
        |y: int|
            Seq::new(
                width as nat,
                |x: int|
                    if connected(rows, width, start, (y, x)) {
                        fill
                    } else {
                        rows[y][x]
                    },
            ),
    )
}

/// Number of cells of a line that have the colour `colour`.
spec fn count_line(line: Seq<Pixel>, colour: Pixel) -> nat
    decreases line.len(),
{
    if line.len() == 0 {
        0
    } else {
        count_line(line.drop_last(), colour) + (if line.last() == colour {
            1nat
        } else {
            0nat
        })
    }
}

/// Number of cells of a grid that have the colour `colour`.
spec fn count_grid(rows: Seq<Seq<Pixel>>, colour: Pixel) -> nat
    decreases rows.len(),
{
    if rows.len() == 0 {
        0
    } else {
        count_grid(rows.drop_last(), colour) + count_line(rows.last(), colour)
    }
}

proof fn lemma_count_line_update(line: Seq<Pixel>, j: int, value: Pixel, colour: Pixel)
    requires
        0 <= j < line.len(),
        line[j] == colour,
        value != colour,
    ensures
        count_line(line.update(j, value), colour) + 1 == count_line(line, colour),
    decreases line.len(),
{
    let after = line.update(j, value);
    if j == line.len() - 1 {
        assert(after.drop_last() =~= line.drop_last());
    } else {
        assert(after.drop_last() =~= line.drop_last().update(j, value));
        lemma_count_line_update(line.drop_last(), j, value, colour);
    }
}

proof fn lemma_count_grid_update(
    rows: Seq<Seq<Pixel>>,
    i: int,
    j: int,
    value: Pixel,
    colour: Pixel,
)
    requires
        0 <= i < rows.len(),
        0 <= j < rows[i].len(),
        rows[i][j] == colour,
        value != colour,
    ensures
        count_grid(with_cell(rows, i, j, value), colour) + 1 == count_grid(rows, colour),
    decreases rows.len(),
{
    let after = with_cell(rows, i, j, value);
    if i == rows.len() - 1 {
        assert(after.drop_last() =~= rows.drop_last());
        lemma_count_line_update(rows[i], j, value, colour);
    } else {
        assert(after.drop_last() =~= with_cell(rows.drop_last(), i, j, value));
        lemma_count_grid_update(rows.drop_last(), i, j, value, colour);
    }
}

/// The cell `cell` has been recoloured.
spec fn filled(before: Seq<Seq<Pixel>>, now: Seq<Seq<Pixel>>, cell: (int, int)) -> bool {
    now[cell.0][cell.1] != before[cell.0][cell.1]
}

/// `cell` waits on the stack.
spec fn waiting(stack: Seq<(usize, usize)>, cell: (int, int)) -> bool {
    exists|k: int| 0 <= k < stack.len() && #[trigger] stack[k] == (cell.0 as usize, cell.1 as usize)
}

/// Every neighbour of `cell` that had the colour `colour` has been
/// recoloured.
spec fn closed(
    before: Seq<Seq<Pixel>>,
    now: Seq<Seq<Pixel>>,
    width: int,
    colour: Pixel,
    cell: (int, int),
) -> bool {
    forall|n: (int, int)|
        #![trigger adjacent(cell, n)]
        in_grid(before.len() as int, width, n) && adjacent(cell, n) && before[n.0][n.1] == colour
            ==> filled(before, now, n)
}

/// What holds while the fill runs: the grid differs from the one before only
/// in recoloured cells; those had the colour `colour`, now have `fill`, and
/// are connected to `start`; and each of them either waits on the stack or
/// has all its neighbours done.
spec fn fill_state(
    before: Seq<Seq<Pixel>>,
    now: Seq<Seq<Pixel>>,
    width: int,
    stack: Seq<(usize, usize)>,
    start: (int, int),
    colour: Pixel,
    fill: Pixel,
) -> bool {
    &&& fill_state_but(before, now, width, stack, start, colour, fill, start)
    &&& waiting(stack, start) || closed(before, now, width, colour, start)
}

/// `fill_state` while the neighbours of the cell `busy` are being visited:
/// that cell alone may be off the stack with neighbours still to do.
spec fn fill_state_but(
    before: Seq<Seq<Pixel>>,
    now: Seq<Seq<Pixel>>,
    width: int,
    stack: Seq<(usize, usize)>,
    start: (int, int),
    colour: Pixel,
    fill: Pixel,
    busy: (int, int),
) -> bool {
    &&& now.len() == before.len()
    &&& rectangular(before, width as nat)
    &&& rectangular(now, width as nat)
    &&& in_grid(before.len() as int, width, start)
    &&& before[start.0][start.1] == colour
    &&& colour != fill
    &&& filled(before, now, start)
    &&& forall|k: int|
        0 <= k < stack.len() ==> in_grid(
            before.len() as int,
            width,
            ((#[trigger] stack[k]).0 as int, stack[k].1 as int),
        ) && filled(before, now, (stack[k].0 as int, stack[k].1 as int))
    &&& forall|y: int, x: int|
        0 <= y < before.len() && 0 <= x < width && #[trigger] filled(before, now, (y, x)) ==> {
            &&& before[y][x] == colour
            &&& now[y][x] == fill
            &&& connected(before, width, start, (y, x))
            &&& ((y, x) == busy || waiting(stack, (y, x)) || closed(
                before,
                now,
                width,
                colour,
                (y, x),
            ))
        }
}

/// With no cell busy and none waiting, every recoloured cell has all its
/// neighbours done.
proof fn lemma_fill_state_closed(
    before: Seq<Seq<Pixel>>,
    now: Seq<Seq<Pixel>>,
    width: int,
    start: (int, int),
    colour: Pixel,
    fill: Pixel,
    cell: (int, int),
)
    requires
        fill_state(before, now, width, Seq::<(usize, usize)>::empty(), start, colour, fill),
        in_grid(before.len() as int, width, cell),
        filled(before, now, cell),
    ensures
        closed(before, now, width, colour, cell),
{
    assert(filled(before, now, (cell.0, cell.1)));
    assert(!waiting(Seq::<(usize, usize)>::empty(), cell));
    assert(!waiting(Seq::<(usize, usize)>::empty(), start));
}

/// One visit keeps the state of the fill: the neighbour `n` of the busy cell
/// is recoloured and put on the stack if it still has the colour `colour`,
/// and nothing changes otherwise. Afterwards `n` is done if it ever had that
/// colour, and no cell that was done has come undone.
proof fn lemma_visit_step(
    before: Seq<Seq<Pixel>>,
    now: Seq<Seq<Pixel>>,
    next: Seq<Seq<Pixel>>,
    width: int,
    stack: Seq<(usize, usize)>,
    next_stack: Seq<(usize, usize)>,
    start: (int, int),
    colour: Pixel,
    fill: Pixel,
    busy: (int, int),
    n: (int, int),
)
    requires
        fill_state_but(before, now, width, stack, start, colour, fill, busy),
        in_grid(before.len() as int, width, busy),
        filled(before, now, busy),
        in_grid(before.len() as int, width, n),
        n.0 <= usize::MAX,
        n.1 <= usize::MAX,
        adjacent(busy, n),
        now[n.0][n.1] == colour ==> next == with_cell(now, n.0, n.1, fill) && next_stack
            == stack.push((n.0 as usize, n.1 as usize)),
        now[n.0][n.1] != colour ==> next == now && next_stack == stack,
    ensures
        fill_state_but(before, next, width, next_stack, start, colour, fill, busy),
        before[n.0][n.1] == colour ==> filled(before, next, n),
        forall|c: (int, int)|
            in_grid(before.len() as int, width, c) && filled(before, now, c) ==> #[trigger] filled(
                before,
                next,
                c,
            ),
        now[n.0][n.1] == colour ==> count_grid(next, colour) + 1 == count_grid(now, colour),
        now[n.0][n.1] != colour ==> count_grid(next, colour) == count_grid(now, colour),
{
    assert(filled(before, now, (busy.0, busy.1)));
    if now[n.0][n.1] == colour {
        assert(!filled(before, now, (n.0, n.1)));
        assert(before[n.0][n.1] == colour);
        lemma_count_grid_update(now, n.0, n.1, fill, colour);
        lemma_extend_path(before, width, start, busy, n);
        assert forall|c: (int, int)|
            in_grid(before.len() as int, width, c) && filled(
                before,
                now,
                c,
            ) implies #[trigger] filled(before, next, c) by {
            assert(filled(before, now, (c.0, c.1)));
        }
        assert(next_stack[stack.len() as int] == (n.0 as usize, n.1 as usize));
        assert(waiting(next_stack, n));
        assert forall|k: int| 0 <= k < next_stack.len() implies in_grid(
            before.len() as int,
            width,
            ((#[trigger] next_stack[k]).0 as int, next_stack[k].1 as int),
        ) && filled(before, next, (next_stack[k].0 as int, next_stack[k].1 as int)) by {
            if k < stack.len() {
                assert(next_stack[k] == stack[k]);
                assert(filled(before, now, (stack[k].0 as int, stack[k].1 as int)));
            }
        }
        assert forall|y: int, x: int|
            0 <= y < before.len() && 0 <= x < width && #[trigger] filled(
                before,
                next,
                (y, x),
            ) implies {
            &&& before[y][x] == colour
            &&& next[y][x] == fill
            &&& connected(before, width, start, (y, x))
            &&& ((y, x) == busy || waiting(next_stack, (y, x)) || closed(
                before,
                next,
                width,
                colour,
                (y, x),
            ))
        } by {
            if (y, x) == n {
            } else {
                assert(next[y][x] == now[y][x]);
                assert(filled(before, now, (y, x)));
                if (y, x) == busy {
                } else if waiting(stack, (y, x)) {
                    let k = choose|k: int|
                        0 <= k < stack.len() && #[trigger] stack[k] == (y as usize, x as usize);
                    assert(next_stack[k] == (y as usize, x as usize));
                } else {
                    assert(closed(before, now, width, colour, (y, x)));
                    assert forall|m: (int, int)|
                        #![trigger adjacent((y, x), m)]
                        in_grid(before.len() as int, width, m) && adjacent((y, x), m)
                            && before[m.0][m.1] == colour implies filled(before, next, m) by {
                        assert(filled(before, now, m));
                    }
                }
            }
        }
    } else {
        if before[n.0][n.1] == colour {
            assert(filled(before, now, n));
        }
    }
}

/// The cells next to `cell` are the four that a visit goes to.
proof fn lemma_four_neighbours(cell: (int, int), n: (int, int))
    requires
        adjacent(cell, n),
    ensures
        n == (cell.0, cell.1 + 1) || n == (cell.0, cell.1 - 1) || n == (cell.0 + 1, cell.1) || n
            == (cell.0 - 1, cell.1),
{
}

/// A path that is made one neighbour longer is a path.
proof fn lemma_extend_path(
    rows: Seq<Seq<Pixel>>,
    width: int,
    start: (int, int),
    via: (int, int),
    to: (int, int),
)
    requires
        connected(rows, width, start, via),
        in_grid(rows.len() as int, width, to),
        adjacent(via, to),
        rows[to.0][to.1] == rows[start.0][start.1],
    ensures
        connected(rows, width, start, to),
{
    let colour = rows[start.0][start.1];
    let path = choose|path: Seq<(int, int)>|
        #[trigger] is_path(rows, width, colour, path) && path[0] == start && path.last() == via;
    let longer = path.push(to);
    assert forall|k: int| 0 < k < longer.len() implies adjacent(
        longer[k - 1],
        #[trigger] longer[k],
    ) by {
        if k < path.len() {
            assert(adjacent(path[k - 1], path[k]));
        }
    }
    assert(is_path(rows, width, colour, longer));
    assert(longer[0] == start && longer.last() == to);
}

/// A cell is connected to itself.
proof fn lemma_connected_to_itself(rows: Seq<Seq<Pixel>>, width: int, start: (int, int))
    requires
        in_grid(rows.len() as int, width, start),
    ensures
        connected(rows, width, start, start),
{
    let path = seq![start];
    assert(is_path(rows, width, rows[start.0][start.1], path));
    assert(path[0] == start && path.last() == start);
}

/// Once no cell waits, every cell on a path from `start` has been recoloured.
proof fn lemma_path_is_filled(
    before: Seq<Seq<Pixel>>,
    now: Seq<Seq<Pixel>>,
    width: int,
    start: (int, int),
    colour: Pixel,
    fill: Pixel,
    path: Seq<(int, int)>,
    k: int,
)
    requires
        fill_state(before, now, width, Seq::<(usize, usize)>::empty(), start, colour, fill),
        is_path(before, width, colour, path),
        path[0] == start,
        0 <= k < path.len(),
    ensures
        filled(before, now, path[k]),
    decreases k,
{
    if k > 0 {
        lemma_path_is_filled(before, now, width, start, colour, fill, path, k - 1);
        let via = path[k - 1];
        assert(in_grid(before.len() as int, width, via));
        lemma_fill_state_closed(before, now, width, start, colour, fill, via);
        assert(adjacent(via, path[k]));
    }
}

/// Recolours the cell at `(y, x)` and puts it on the stack, if it has the
/// colour `colour`.
fn visit(
    pixels: &mut PixelGrid,
    stack: &mut Vec<(usize, usize)>,
    y: usize,
    x: usize,
    colour: Pixel,
    fill: Pixel,
)
    requires
        y < old(pixels).height(),
        x < old(pixels).width(),
    ensures
        final(pixels).height() == old(pixels).height(),
        final(pixels).width() == old(pixels).width(),
        final(pixels).wf(),
        old(pixels)@[y as int][x as int] == colour ==> {
            &&& final(pixels)@ == with_cell(old(pixels)@, y as int, x as int, fill)
            &&& final(stack)@ == old(stack)@.push((y, x))
        },
        old(pixels)@[y as int][x as int] != colour ==> {
            &&& final(pixels)@ == old(pixels)@
            &&& final(stack)@ == old(stack)@
        },
{
    if pixels.at(y, x) == colour {
        pixels.put(y, x, fill);
        stack.push((y, x));
    }
}

impl Image {
    /// Flood fill from the cell in row `coords.0` and column `coords.1`:
    /// every cell that can be reached from there over cells of its colour,
    /// going from a cell to the one left, right, above or below it, takes the
    /// colour `rgb`. A start outside the image changes nothing.
    pub fn landfill(&mut self, coords: (usize, usize), rgb: (u8, u8, u8))
        ensures
            final(self).pixels@ == (if in_grid(
                old(self).pixels.height() as int,
                old(self).pixels.width() as int,
                (coords.0 as int, coords.1 as int),
            ) {
                flood_filled(
                    old(self).pixels@,
                    old(self).pixels.width() as int,
                    (coords.0 as int, coords.1 as int),
                    Pixel { red: rgb.0, green: rgb.1, blue: rgb.2 },
                )
            } else {
                old(self).pixels@
            }),
            final(self).pixels.height() == old(self).pixels.height(),
            final(self).pixels.width() == old(self).pixels.width(),
            final(self).magic_number == old(self).magic_number,
            final(self).scale == old(self).scale,
    {
        let y: usize = coords.0;
        let x: usize = coords.1;
        let height: usize = self.pixels.nrows();
        let width: usize = self.pixels.ncols();
        if y >= height || x >= width {
            return;
        }
        let fill = Pixel { red: rgb.0, green: rgb.1, blue: rgb.2 };
        let colour: Pixel = self.pixels.at(y, x);
        let ghost before = self.pixels@;
        let ghost start = (y as int, x as int);
        if colour == fill {
            proof {
                let goal = flood_filled(before, width as int, start, fill);
                assert forall|i: int| 0 <= i < before.len() implies before[i] =~= goal[i] by {
                    assert forall|j: int| 0 <= j < width implies before[i][j] == goal[i][j] by {
                        if connected(before, width as int, start, (i, j)) {
                            let path = choose|path: Seq<(int, int)>|
                                #[trigger] is_path(before, width as int, colour, path) && path[0]
                                    == start && path.last() == (i, j);
                            assert(path[path.len() - 1] == (i, j));
                        }
                    }
                }
                assert(before =~= goal);
            }
            return;
        }
        let mut stack: Vec<(usize, usize)> = Vec::new();
        self.pixels.put(y, x, fill);
        stack.push((y, x));
        proof {
            lemma_connected_to_itself(before, width as int, start);
            assert(stack@[0] == (y, x));
            assert(waiting(stack@, start));
            assert forall|i: int, j: int|
                0 <= i < before.len() && 0 <= j < width && #[trigger] filled(
                    before,
                    self.pixels@,
                    (i, j),
                ) implies (i, j) == start by {
                if i != y {
                    assert(self.pixels@[i] == before[i]);
                }
            }
        }
        while stack.len() > 0
            invariant
                self.pixels.wf(),
                self.pixels.height() == height,
                self.pixels.width() == width,
                self.magic_number == old(self).magic_number,
                self.scale == old(self).scale,
                before == old(self).pixels@,
                start == (y as int, x as int),
                fill_state(before, self.pixels@, width as int, stack@, start, colour, fill),
            decreases 2 * count_grid(self.pixels@, colour) + stack@.len(),
        {
            let ghost stack0 = stack@;
            let ghost now0 = self.pixels@;
            let cell: (usize, usize) = stack.pop().unwrap();
            let y1: usize = cell.0;
            let x1: usize = cell.1;
            let ghost busy = (y1 as int, x1 as int);
            proof {
                assert(stack0[stack0.len() - 1] == cell);
                assert(filled(before, now0, busy));
                assert forall|i: int, j: int|
                    0 <= i < before.len() && 0 <= j < width && #[trigger] filled(
                        before,
                        now0,
                        (i, j),
                    ) implies ((i, j) == busy || waiting(stack@, (i, j)) || closed(
                    before,
                    now0,
                    width as int,
                    colour,
                    (i, j),
                )) by {
                    if waiting(stack0, (i, j)) {
                        let k = choose|k: int|
                            0 <= k < stack0.len() && #[trigger] stack0[k] == (
                                i as usize,
                                j as usize,
                            );
                        if k < stack@.len() {
                            assert(stack@[k] == (i as usize, j as usize));
                        }
                    }
                }
                assert forall|k: int| 0 <= k < stack@.len() implies in_grid(
                    before.len() as int,
                    width as int,
                    ((#[trigger] stack@[k]).0 as int, stack@[k].1 as int),
                ) && filled(before, now0, (stack@[k].0 as int, stack@[k].1 as int)) by {
                    assert(stack@[k] == stack0[k]);
                }
                assert(fill_state_but(
                    before,
                    now0,
                    width as int,
                    stack@,
                    start,
                    colour,
                    fill,
                    busy,
                ));
            }
            let ghost stack1 = stack@;
            if x1 + 1 < width {
                visit(&mut self.pixels, &mut stack, y1, x1 + 1, colour, fill);
                proof {
                    lemma_visit_step(
                        before,
                        now0,
                        self.pixels@,
                        width as int,
                        stack1,
                        stack@,
                        start,
                        colour,
                        fill,
                        busy,
                        (y1 as int, x1 + 1),
                    );
                }
            }
            let ghost now1 = self.pixels@;
            let ghost stack2 = stack@;
            if x1 > 0 {
                visit(&mut self.pixels, &mut stack, y1, x1 - 1, colour, fill);
                proof {
                    lemma_visit_step(
                        before,
                        now1,
                        self.pixels@,
                        width as int,
                        stack2,
                        stack@,
                        start,
                        colour,
                        fill,
                        busy,
                        (y1 as int, x1 - 1),
                    );
                }
            }
            let ghost now2 = self.pixels@;
            let ghost stack3 = stack@;
            if y1 + 1 < height {
                visit(&mut self.pixels, &mut stack, y1 + 1, x1, colour, fill);
                proof {
                    lemma_visit_step(
                        before,
                        now2,
                        self.pixels@,
                        width as int,
                        stack3,
                        stack@,
                        start,
                        colour,
                        fill,
                        busy,
                        (y1 + 1, x1 as int),
                    );
                }
            }
            let ghost now3 = self.pixels@;
            let ghost stack4 = stack@;
            if y1 > 0 {
                visit(&mut self.pixels, &mut stack, y1 - 1, x1, colour, fill);
                proof {
                    lemma_visit_step(
                        before,
                        now3,
                        self.pixels@,
                        width as int,
                        stack4,
                        stack@,
                        start,
                        colour,
                        fill,
                        busy,
                        (y1 - 1, x1 as int),
                    );
                }
            }
            proof {
                let now4 = self.pixels@;
                assert forall|n: (int, int)|
                    #![trigger adjacent(busy, n)]
                    in_grid(before.len() as int, width as int, n) && adjacent(busy, n)
                        && before[n.0][n.1] == colour implies filled(before, now4, n) by {
                    lemma_four_neighbours(busy, n);
                    if n == (busy.0, busy.1 + 1) {
                        assert(filled(before, now1, n));
                        assert(filled(before, now2, n));
                        assert(filled(before, now3, n));
                    } else if n == (busy.0, busy.1 - 1) {
                        assert(filled(before, now2, n));
                        assert(filled(before, now3, n));
                    } else if n == (busy.0 + 1, busy.1) {
                        assert(filled(before, now3, n));
                    }
                }
                assert(closed(before, now4, width as int, colour, busy));
                assert(filled(before, now1, busy));
                assert(filled(before, now2, busy));
                assert(filled(before, now3, busy));
                assert(filled(before, now4, busy));
                assert(filled(before, now4, (start.0, start.1)));
            }
        }
        proof {
            let now = self.pixels@;
            let goal = flood_filled(before, width as int, start, fill);
            assert(stack@ =~= Seq::<(usize, usize)>::empty());
            assert forall|i: int| 0 <= i < before.len() implies now[i] =~= goal[i] by {
                assert forall|j: int| 0 <= j < width implies now[i][j] == goal[i][j] by {
                    if connected(before, width as int, start, (i, j)) {
                        let path = choose|path: Seq<(int, int)>|
                            #[trigger] is_path(before, width as int, colour, path) && path[0]
                                == start && path.last() == (i, j);
                        lemma_path_is_filled(
                            before,
                            now,
                            width as int,
                            start,
                            colour,
                            fill,
                            path,
                            path.len() - 1,
                        );
                        assert(filled(before, now, (i, j)));
                    } else {
                        assert(!filled(before, now, (i, j)));
                    }
                }
            }
            assert(now =~= goal);
        }
    }
}

} // verus!
