use crate::cell::Cell;
use crate::direction::Direction;
use vstd::prelude::*;

verus! {

/// A position in the grid: the row, then the column.
pub type Coordinates = (u32, u32);

/// Whether the position lies in the grid of `h` rows and `w` columns.
pub open spec fn inside(h: int, w: int, row: int, col: int) -> bool {
    0 <= row < h && 0 <= col < w
}

/// The place of a position in the row-by-row sequence of cells.
pub open spec fn index_of(w: int, row: int, col: int) -> int {
    row * w + col
}

/// Whether the cell at the position has its wall towards `d`.
pub open spec fn wall_at(cells: Seq<Cell>, w: int, row: int, col: int, d: Direction) -> bool {
    cells[index_of(w, row, col)].wall(d)
}

/// Every wall between two cells of the grid stands on both sides or on
/// neither: a cell has its wall towards a neighbor exactly when the neighbor
/// has its wall towards the cell.
pub open spec fn mirrored(cells: Seq<Cell>, h: int, w: int) -> bool {
    forall|row: int, col: int, d: Direction|
        inside(h, w, row, col) && inside(h, w, row + d.delta().0, col + d.delta().1)
            ==> #[trigger] wall_at(cells, w, row, col, d) == wall_at(
            cells,
            w,
            row + d.delta().0,
            col + d.delta().1,
            d.opposite(),
        )
}

/// Whether a move from the position in direction `d` stays in the grid.
pub open spec fn can_move(h: int, w: int, row: int, col: int, d: Direction) -> bool {
    match d {
        Direction::Up => row > 0,
        Direction::Left => col > 0,
        Direction::Down => row < h - 1,
        Direction::Right => col < w - 1,
    }
}

/// The number of cells that are not marked.
pub open spec fn unvisited(visited: Seq<bool>) -> nat
    decreases visited.len(),
{
    if visited.len() == 0 {
        0
    } else {
        unvisited(visited.drop_last()) + if visited.last() {
            0nat
        } else {
            1nat
        }
    }
}

/// Marking an unmarked cell leaves one unmarked cell less.
pub proof fn lemma_unvisited_mark(visited: Seq<bool>, i: int)
    requires
        0 <= i < visited.len(),
        !visited[i],
    ensures
        unvisited(visited.update(i, true)) + 1 == unvisited(visited),
    decreases visited.len(),
{
    let after = visited.update(i, true);
    if i == visited.len() - 1 {
        assert(after.drop_last() =~= visited.drop_last());
    } else {
        assert(after.drop_last() =~= visited.drop_last().update(i, true));
        lemma_unvisited_mark(visited.drop_last(), i);
    }
}

/// Where every marked cell stays marked, no more cells are unmarked than
/// before.
pub proof fn lemma_unvisited_monotone(before: Seq<bool>, after: Seq<bool>)
    requires
        before.len() == after.len(),
        forall|i: int| 0 <= i < before.len() && before[i] ==> after[i],
    ensures
        unvisited(after) <= unvisited(before),
    decreases before.len(),
{
    if before.len() > 0 {
        lemma_unvisited_monotone(before.drop_last(), after.drop_last());
    }
}

/// A position in the grid has its place among the `h * w` cells.
pub proof fn lemma_index_in_grid(h: int, w: int, row: int, col: int)
    requires
        inside(h, w, row, col),
    ensures
        0 <= index_of(w, row, col) < h * w,
        0 <= row * w <= index_of(w, row, col),
{
    assert(0 <= row * w && row * w + col < h * w) by (nonlinear_arith)
        requires
            0 <= row < h,
            0 <= col < w,
    ;
}

/// Two positions with the same place in the sequence of cells are one
/// position.
pub proof fn lemma_index_injective(w: int, r1: int, c1: int, r2: int, c2: int)
    requires
        0 <= c1 < w,
        0 <= c2 < w,
        index_of(w, r1, c1) == index_of(w, r2, c2),
    ensures
        r1 == r2,
        c1 == c2,
{
    assert(r1 == r2) by (nonlinear_arith)
        requires
            0 <= c1 < w,
            0 <= c2 < w,
            r1 * w + c1 == r2 * w + c2,
    ;
}

/// Taking down the wall between a cell and its neighbor on both sides keeps
/// the walls of the grid mirrored.
pub proof fn lemma_carve_mirrored(
    before: Seq<Cell>,
    after: Seq<Cell>,
    h: int,
    w: int,
    row: int,
    col: int,
    d: Direction,
)
    requires
        mirrored(before, h, w),
        before.len() == h * w,
        after.len() == h * w,
        inside(h, w, row, col),
        inside(h, w, row + d.delta().0, col + d.delta().1),
        forall|k: int|
            0 <= k < h * w && k != index_of(w, row, col) && k != index_of(
                w,
                row + d.delta().0,
                col + d.delta().1,
            ) ==> after[k] == before[k],
        forall|e: Direction| #[trigger]
            after[index_of(w, row, col)].wall(e) == (e != d && before[index_of(w, row, col)].wall(
                e,
            )),
        forall|e: Direction| #[trigger]
            after[index_of(w, row + d.delta().0, col + d.delta().1)].wall(e) == (e != d.opposite()
                && before[index_of(w, row + d.delta().0, col + d.delta().1)].wall(e)),
    ensures
        mirrored(after, h, w),
{
    let to_row = row + d.delta().0;
    let to_col = col + d.delta().1;
    assert forall|r: int, c: int, e: Direction|
        inside(h, w, r, c) && inside(h, w, r + e.delta().0, c + e.delta().1) implies #[trigger] wall_at(
        after,
        w,
        r,
        c,
        e,
    ) == wall_at(after, w, r + e.delta().0, c + e.delta().1, e.opposite()) by {
        let nr = r + e.delta().0;
        let nc = c + e.delta().1;
        lemma_index_in_grid(h, w, r, c);
        lemma_index_in_grid(h, w, nr, nc);
        if index_of(w, r, c) == index_of(w, row, col) {
            lemma_index_injective(w, r, c, row, col);
        }
        if index_of(w, r, c) == index_of(w, to_row, to_col) {
            lemma_index_injective(w, r, c, to_row, to_col);
        }
        if index_of(w, nr, nc) == index_of(w, row, col) {
            lemma_index_injective(w, nr, nc, row, col);
        }
        if index_of(w, nr, nc) == index_of(w, to_row, to_col) {
            lemma_index_injective(w, nr, nc, to_row, to_col);
        }
        assert(wall_at(before, w, r, c, e) == wall_at(before, w, nr, nc, e.opposite()));
    }
}

/// Whether the cell at the position is marked.
pub open spec fn marked(visited: Seq<bool>, w: int, row: int, col: int) -> bool {
    visited[index_of(w, row, col)]
}

/// Where the grid has a neighbor of the position towards `d`, that neighbor
/// is marked.
pub open spec fn spread(visited: Seq<bool>, h: int, w: int, row: int, col: int, d: Direction) -> bool {
    can_move(h, w, row, col, d) ==> marked(visited, w, row + d.delta().0, col + d.delta().1)
}

/// Every neighbor of a marked cell is marked.
pub open spec fn closed_marks(visited: Seq<bool>, h: int, w: int) -> bool {
    forall|row: int, col: int, d: Direction|
        inside(h, w, row, col) && marked(visited, w, row, col) ==> #[trigger] spread(
            visited,
            h,
            w,
            row,
            col,
            d,
        )
}

/// The cell at the position has a neighbor towards `d` and no wall towards
/// it.
pub open spec fn passage(cells: Seq<Cell>, h: int, w: int, row: int, col: int, d: Direction) -> bool {
    inside(h, w, row, col) && can_move(h, w, row, col, d) && !wall_at(cells, w, row, col, d)
}

/// Whether at most `n` moves through passages lead from the first position
/// to the second.
pub open spec fn reach(
    cells: Seq<Cell>,
    h: int,
    w: int,
    row: int,
    col: int,
    to_row: int,
    to_col: int,
    n: nat,
) -> bool
    decreases n,
{
    (row == to_row && col == to_col) || (n > 0 && exists|d: Direction| #[trigger]
        passage(cells, h, w, row, col, d) && reach(
            cells,
            h,
            w,
            row + d.delta().0,
            col + d.delta().1,
            to_row,
            to_col,
            (n - 1) as nat,
        ))
}

/// Whether moves through passages lead from the first position to the
/// second.
pub open spec fn connected(
    cells: Seq<Cell>,
    h: int,
    w: int,
    row: int,
    col: int,
    to_row: int,
    to_col: int,
) -> bool {
    exists|n: nat| reach(cells, h, w, row, col, to_row, to_col, n)
}

/// Where every neighbor of a marked cell is marked and one cell is marked,
/// the cells of its column are marked.
pub proof fn lemma_marked_column(visited: Seq<bool>, h: int, w: int, r0: int, c0: int, row: int)
    requires
        closed_marks(visited, h, w),
        inside(h, w, r0, c0),
        marked(visited, w, r0, c0),
        0 <= row < h,
    ensures
        marked(visited, w, row, c0),
    decreases
        (if row >= r0 {
            row - r0
        } else {
            r0 - row
        }),
{
    if row > r0 {
        lemma_marked_column(visited, h, w, r0, c0, row - 1);
        assert(spread(visited, h, w, row - 1, c0, Direction::Down));
    } else if row < r0 {
        lemma_marked_column(visited, h, w, r0, c0, row + 1);
        assert(spread(visited, h, w, row + 1, c0, Direction::Up));
    }
}

/// Where every neighbor of a marked cell is marked and one cell is marked,
/// every cell of the grid is marked.
pub proof fn lemma_marked_everywhere(
    visited: Seq<bool>,
    h: int,
    w: int,
    r0: int,
    c0: int,
    row: int,
    col: int,
)
    requires
        closed_marks(visited, h, w),
        inside(h, w, r0, c0),
        marked(visited, w, r0, c0),
        inside(h, w, row, col),
    ensures
        marked(visited, w, row, col),
    decreases
        (if col >= c0 {
            col - c0
        } else {
            c0 - col
        }),
{
    if col > c0 {
        lemma_marked_everywhere(visited, h, w, r0, c0, row, col - 1);
        assert(spread(visited, h, w, row, col - 1, Direction::Right));
    } else if col < c0 {
        lemma_marked_everywhere(visited, h, w, r0, c0, row, col + 1);
        assert(spread(visited, h, w, row, col + 1, Direction::Left));
    } else {
        lemma_marked_column(visited, h, w, r0, c0, row);
    }
}

/// The walls of the cell that count as passages of the grid, each passage
/// at one of its two cells: the ones to the right and downward that are
/// taken down.
pub open spec fn forward_openings(cell: Cell) -> nat {
    (if cell.wall(Direction::Right) {
        0nat
    } else {
        1nat
    }) + (if cell.wall(Direction::Down) {
        0nat
    } else {
        1nat
    })
}

/// The number of walls taken down to the right and downward. Where the
/// walls are mirrored and those around the grid stand, this is the number of
/// pairs of neighbors between which the wall was taken down.
pub open spec fn passages(cells: Seq<Cell>) -> nat
    decreases cells.len(),
{
    if cells.len() == 0 {
        0
    } else {
        passages(cells.drop_last()) + forward_openings(cells.last())
    }
}

/// The walls around the grid stand.
pub open spec fn border_stands(cells: Seq<Cell>, h: int, w: int) -> bool {
    forall|row: int, col: int, d: Direction|
        inside(h, w, row, col) && !can_move(h, w, row, col, d) ==> #[trigger] wall_at(
            cells,
            w,
            row,
            col,
            d,
        )
}

/// Every unmarked cell, but the one at `skip`, has all its walls.
pub open spec fn untouched(cells: Seq<Cell>, visited: Seq<bool>, skip: int) -> bool {
    forall|i: int, d: Direction|
        0 <= i < cells.len() && i != skip && !visited[i] ==> #[trigger] cells[i].wall(d)
}

/// Replacing one cell changes the number of passages by the difference
/// between the two cells.
pub proof fn lemma_passages_update(cells: Seq<Cell>, i: int, cell: Cell)
    requires
        0 <= i < cells.len(),
    ensures
        passages(cells.update(i, cell)) + forward_openings(cells[i]) == passages(cells)
            + forward_openings(cell),
    decreases cells.len(),
{
    let after = cells.update(i, cell);
    if i == cells.len() - 1 {
        assert(after.drop_last() =~= cells.drop_last());
    } else {
        assert(after.drop_last() =~= cells.drop_last().update(i, cell));
        lemma_passages_update(cells.drop_last(), i, cell);
    }
}

/// Cells that have all their walls hold no passage.
pub proof fn lemma_passages_none(cells: Seq<Cell>)
    requires
        forall|i: int, d: Direction| 0 <= i < cells.len() ==> #[trigger] cells[i].wall(d),
    ensures
        passages(cells) == 0,
    decreases cells.len(),
{
    if cells.len() > 0 {
        lemma_passages_none(cells.drop_last());
        assert(cells.last().wall(Direction::Right));
        assert(cells.last().wall(Direction::Down));
    }
}

/// Where no cell is marked, all are counted; where all are marked, none is.
pub proof fn lemma_unvisited_uniform(visited: Seq<bool>, mark: bool)
    requires
        forall|i: int| 0 <= i < visited.len() ==> visited[i] == mark,
    ensures
        unvisited(visited) == (if mark {
            0
        } else {
            visited.len()
        }),
    decreases visited.len(),
{
    if visited.len() > 0 {
        lemma_unvisited_uniform(visited.drop_last(), mark);
    }
}

/// Taking down the wall between a cell and its neighbor on both sides leaves
/// the walls around the grid as they are.
pub proof fn lemma_carve_border(
    before: Seq<Cell>,
    after: Seq<Cell>,
    h: int,
    w: int,
    row: int,
    col: int,
    d: Direction,
)
    requires
        border_stands(before, h, w),
        before.len() == h * w,
        after.len() == h * w,
        inside(h, w, row, col),
        inside(h, w, row + d.delta().0, col + d.delta().1),
        forall|k: int|
            0 <= k < h * w && k != index_of(w, row, col) && k != index_of(
                w,
                row + d.delta().0,
                col + d.delta().1,
            ) ==> after[k] == before[k],
        forall|e: Direction| #[trigger]
            after[index_of(w, row, col)].wall(e) == (e != d && before[index_of(w, row, col)].wall(
                e,
            )),
        forall|e: Direction| #[trigger]
            after[index_of(w, row + d.delta().0, col + d.delta().1)].wall(e) == (e != d.opposite()
                && before[index_of(w, row + d.delta().0, col + d.delta().1)].wall(e)),
    ensures
        border_stands(after, h, w),
{
    let to_row = row + d.delta().0;
    let to_col = col + d.delta().1;
    assert forall|r: int, c: int, e: Direction|
        inside(h, w, r, c) && !can_move(h, w, r, c, e) implies #[trigger] wall_at(
        after,
        w,
        r,
        c,
        e,
    ) by {
        lemma_index_in_grid(h, w, r, c);
        if index_of(w, r, c) == index_of(w, row, col) {
            lemma_index_injective(w, r, c, row, col);
        }
        if index_of(w, r, c) == index_of(w, to_row, to_col) {
            lemma_index_injective(w, r, c, to_row, to_col);
        }
        assert(wall_at(before, w, r, c, e));
    }
}

/// Taking down a wall that stood on both sides, between a cell and its
/// neighbor, makes one passage more.
pub proof fn lemma_carve_count(before: Seq<Cell>, after: Seq<Cell>, i: int, j: int, d: Direction)
    requires
        0 <= i < before.len(),
        0 <= j < before.len(),
        i != j,
        after.len() == before.len(),
        forall|k: int| 0 <= k < before.len() && k != i && k != j ==> after[k] == before[k],
        forall|e: Direction| #[trigger] after[i].wall(e) == (e != d && before[i].wall(e)),
        forall|e: Direction| #[trigger]
            after[j].wall(e) == (e != d.opposite() && before[j].wall(e)),
        before[i].wall(d),
        before[j].wall(d.opposite()),
    ensures
        passages(after) == passages(before) + 1,
{
    let mid = before.update(i, after[i]);
    assert(after =~= mid.update(j, after[j]));
    lemma_passages_update(before, i, after[i]);
    lemma_passages_update(mid, j, after[j]);
    assert(after[i].wall(Direction::Right) == (Direction::Right != d && before[i].wall(
        Direction::Right,
    )));
    assert(after[i].wall(Direction::Down) == (Direction::Down != d && before[i].wall(
        Direction::Down,
    )));
    assert(after[j].wall(Direction::Right) == (Direction::Right != d.opposite()
        && before[j].wall(Direction::Right)));
    assert(after[j].wall(Direction::Down) == (Direction::Down != d.opposite() && before[j].wall(
        Direction::Down,
    )));
}

/// What carving keeps of a grid: the walls are mirrored, those around the
/// grid stand, and every unmarked cell, but the one at `skip`, has all its
/// walls.
pub open spec fn carving(cells: Seq<Cell>, visited: Seq<bool>, h: int, w: int, skip: int) -> bool {
    mirrored(cells, h, w) && border_stands(cells, h, w) && untouched(cells, visited, skip)
}

/// Whether at most `n` moves through passages lead from the first position
/// to the second, each of them into a cell that `marks` does not mark.
pub open spec fn reach_fresh(
    cells: Seq<Cell>,
    marks: Seq<bool>,
    h: int,
    w: int,
    row: int,
    col: int,
    to_row: int,
    to_col: int,
    n: nat,
) -> bool
    decreases n,
{
    (row == to_row && col == to_col) || (n > 0 && exists|d: Direction| #[trigger]
        passage(cells, h, w, row, col, d) && !marked(
            marks,
            w,
            row + d.delta().0,
            col + d.delta().1,
        ) && reach_fresh(
            cells,
            marks,
            h,
            w,
            row + d.delta().0,
            col + d.delta().1,
            to_row,
            to_col,
            (n - 1) as nat,
        ))
}

/// Whether moves through passages lead from the first position to the
/// second, each of them into a cell that `marks` does not mark.
pub open spec fn connected_fresh(
    cells: Seq<Cell>,
    marks: Seq<bool>,
    h: int,
    w: int,
    row: int,
    col: int,
    to_row: int,
    to_col: int,
) -> bool {
    exists|n: nat| reach_fresh(cells, marks, h, w, row, col, to_row, to_col, n)
}

/// Moves into unmarked cells stay possible when walls are taken down and
/// when fewer cells count as marked.
pub proof fn lemma_reach_fresh_keeps(
    before: Seq<Cell>,
    after: Seq<Cell>,
    marks: Seq<bool>,
    fewer: Seq<bool>,
    h: int,
    w: int,
    row: int,
    col: int,
    to_row: int,
    to_col: int,
    n: nat,
)
    requires
        reach_fresh(before, marks, h, w, row, col, to_row, to_col, n),
        before.len() == h * w,
        after.len() == h * w,
        marks.len() == h * w,
        fewer.len() == h * w,
        forall|i: int, d: Direction|
            0 <= i < h * w && #[trigger] after[i].wall(d) ==> before[i].wall(d),
        forall|i: int| 0 <= i < h * w && fewer[i] ==> marks[i],
    ensures
        reach_fresh(after, fewer, h, w, row, col, to_row, to_col, n),
    decreases n,
{
    if !(row == to_row && col == to_col) {
        let d = choose|d: Direction| #[trigger]
            passage(before, h, w, row, col, d) && !marked(
                marks,
                w,
                row + d.delta().0,
                col + d.delta().1,
            ) && reach_fresh(
                before,
                marks,
                h,
                w,
                row + d.delta().0,
                col + d.delta().1,
                to_row,
                to_col,
                (n - 1) as nat,
            );
        lemma_index_in_grid(h, w, row, col);
        lemma_index_in_grid(h, w, row + d.delta().0, col + d.delta().1);
        lemma_reach_fresh_keeps(
            before,
            after,
            marks,
            fewer,
            h,
            w,
            row + d.delta().0,
            col + d.delta().1,
            to_row,
            to_col,
            (n - 1) as nat,
        );
        assert(passage(after, h, w, row, col, d));
    }
}

/// Positions connected through unmarked cells stay so when walls are taken
/// down and when fewer cells count as marked.
pub proof fn lemma_connected_fresh_keeps(
    before: Seq<Cell>,
    after: Seq<Cell>,
    marks: Seq<bool>,
    fewer: Seq<bool>,
    h: int,
    w: int,
    row: int,
    col: int,
    to_row: int,
    to_col: int,
)
    requires
        connected_fresh(before, marks, h, w, row, col, to_row, to_col),
        before.len() == h * w,
        after.len() == h * w,
        marks.len() == h * w,
        fewer.len() == h * w,
        forall|i: int, d: Direction|
            0 <= i < h * w && #[trigger] after[i].wall(d) ==> before[i].wall(d),
        forall|i: int| 0 <= i < h * w && fewer[i] ==> marks[i],
    ensures
        connected_fresh(after, fewer, h, w, row, col, to_row, to_col),
{
    let n = choose|n: nat| reach_fresh(before, marks, h, w, row, col, to_row, to_col, n);
    lemma_reach_fresh_keeps(before, after, marks, fewer, h, w, row, col, to_row, to_col, n);
}

/// What is connected through unmarked cells to the unmarked far side of a
/// passage is so connected to its near side.
pub proof fn lemma_connected_fresh_step(
    cells: Seq<Cell>,
    marks: Seq<bool>,
    h: int,
    w: int,
    row: int,
    col: int,
    d: Direction,
    to_row: int,
    to_col: int,
)
    requires
        passage(cells, h, w, row, col, d),
        !marked(marks, w, row + d.delta().0, col + d.delta().1),
        connected_fresh(cells, marks, h, w, row + d.delta().0, col + d.delta().1, to_row, to_col),
    ensures
        connected_fresh(cells, marks, h, w, row, col, to_row, to_col),
{
    let next_row = row + d.delta().0;
    let next_col = col + d.delta().1;
    let n = choose|n: nat| reach_fresh(cells, marks, h, w, next_row, next_col, to_row, to_col, n);
    assert(reach_fresh(cells, marks, h, w, row, col, to_row, to_col, n + 1));
}

/// Moves that lead somewhere through unmarked cells lead there.
pub proof fn lemma_fresh_is_connected(
    cells: Seq<Cell>,
    marks: Seq<bool>,
    h: int,
    w: int,
    row: int,
    col: int,
    to_row: int,
    to_col: int,
    n: nat,
)
    requires
        reach_fresh(cells, marks, h, w, row, col, to_row, to_col, n),
    ensures
        reach(cells, h, w, row, col, to_row, to_col, n),
        connected(cells, h, w, row, col, to_row, to_col),
    decreases n,
{
    if !(row == to_row && col == to_col) {
        let d = choose|d: Direction| #[trigger]
            passage(cells, h, w, row, col, d) && !marked(
                marks,
                w,
                row + d.delta().0,
                col + d.delta().1,
            ) && reach_fresh(
                cells,
                marks,
                h,
                w,
                row + d.delta().0,
                col + d.delta().1,
                to_row,
                to_col,
                (n - 1) as nat,
            );
        lemma_fresh_is_connected(
            cells,
            marks,
            h,
            w,
            row + d.delta().0,
            col + d.delta().1,
            to_row,
            to_col,
            (n - 1) as nat,
        );
    }
    assert(reach(cells, h, w, row, col, to_row, to_col, n));
}

/// Where a cell is marked, and all neighbors of it and of every cell that
/// is marked now and was not before are marked, every cell is marked to
/// which moves lead from it through cells that were not marked before.
pub proof fn lemma_reachable_is_marked(
    cells: Seq<Cell>,
    before: Seq<bool>,
    after: Seq<bool>,
    h: int,
    w: int,
    row: int,
    col: int,
    to_row: int,
    to_col: int,
    n: nat,
)
    requires
        reach_fresh(cells, before, h, w, row, col, to_row, to_col, n),
        inside(h, w, row, col),
        marked(after, w, row, col),
        forall|d: Direction| #[trigger] spread(after, h, w, row, col, d),
        forall|r: int, c: int, d: Direction|
            inside(h, w, r, c) && marked(after, w, r, c) && !marked(before, w, r, c)
                ==> #[trigger] spread(after, h, w, r, c, d),
    ensures
        marked(after, w, to_row, to_col),
    decreases n,
{
    if !(row == to_row && col == to_col) {
        let d = choose|d: Direction| #[trigger]
            passage(cells, h, w, row, col, d) && !marked(
                before,
                w,
                row + d.delta().0,
                col + d.delta().1,
            ) && reach_fresh(
                cells,
                before,
                h,
                w,
                row + d.delta().0,
                col + d.delta().1,
                to_row,
                to_col,
                (n - 1) as nat,
            );
        let next_row = row + d.delta().0;
        let next_col = col + d.delta().1;
        assert(spread(after, h, w, row, col, d));
        assert(inside(h, w, next_row, next_col));
        assert forall|e: Direction| #[trigger] spread(after, h, w, next_row, next_col, e) by {}
        lemma_reachable_is_marked(
            cells,
            before,
            after,
            h,
            w,
            next_row,
            next_col,
            to_row,
            to_col,
            (n - 1) as nat,
        );
    }
}

/// The size of a maze and the cell from which it is carved.
pub struct MazeGenerator {
    pub height: u32,
    pub width: u32,
    pub start_coordinates: Coordinates,
}

impl Default for MazeGenerator {
    fn default() -> (r: MazeGenerator)
        ensures
            r.height == 64,
            r.width == 64,
            r.start_coordinates == (0u32, 0u32),
    {
        MazeGenerator { height: 64, width: 64, start_coordinates: (0, 0) }
    }
}

/// The walls carved so far and the cells that were entered.
pub struct MazeGeneratorContext {
    pub cells: Vec<Cell>,
    pub visited: Vec<bool>,
    pub width: u32,
}

impl MazeGeneratorContext {
    /// The context holds one cell and one mark for each position of the grid
    /// of `mg`.
    pub open spec fn wf(&self, mg: &MazeGenerator) -> bool {
        &&& self.width == mg.width
        &&& self.cells@.len() == mg.height as int * mg.width as int
        &&& self.visited@.len() == mg.height as int * mg.width as int
    }

    /// The context in which carving starts: every wall stands and no cell
    /// was entered.
    pub fn new(mg: &MazeGenerator) -> (r: MazeGeneratorContext)
        requires
            mg.height as int * mg.width as int <= u32::MAX,
        ensures
            r.wf(mg),
            r.cells@ == Seq::new((mg.height as int * mg.width as int) as nat, |i: int| Cell { bits: 15 }),
            r.visited@ == Seq::new((mg.height as int * mg.width as int) as nat, |i: int| false),
    {
        let n: usize = (mg.height * mg.width) as usize;
        let mut cells: Vec<Cell> = Vec::new();
        let mut visited: Vec<bool> = Vec::new();
        let mut i: usize = 0;
        while i < n
            invariant
                i <= n,
                cells@.len() == i,
                visited@.len() == i,
                forall|j: int| 0 <= j < i ==> cells@[j] == (Cell { bits: 15 }),
                forall|j: int| 0 <= j < i ==> !visited@[j],
            decreases n - i,
        {
            cells.push(Cell::all());
            visited.push(false);
            i += 1;
        }
        assert(cells@ =~= Seq::new(n as nat, |i: int| Cell { bits: 15 }));
        assert(visited@ =~= Seq::new(n as nat, |i: int| false));
        MazeGeneratorContext { cells, visited, width: mg.width }
    }

    /// The place of a position in the row-by-row sequence of cells.
    pub fn index(&self, coordinates: Coordinates) -> (r: usize)
        requires
            index_of(self.width as int, coordinates.0 as int, coordinates.1 as int) <= usize::MAX,
        ensures
            r == index_of(self.width as int, coordinates.0 as int, coordinates.1 as int),
    {
        let (row, col) = coordinates;
        assert(0 <= row as int * self.width as int) by (nonlinear_arith);
        row as usize * self.width as usize + col as usize
    }

    /// Takes down the wall towards `direction` of the cell at `coordinates`.
    pub fn clear_wall(&mut self, coordinates: Coordinates, direction: &Direction)
        requires
            index_of(old(self).width as int, coordinates.0 as int, coordinates.1 as int) < old(
                self,
            ).cells@.len(),
        ensures
            final(self).width == old(self).width,
            final(self).visited == old(self).visited,
            final(self).cells@ == old(self).cells@.update(
                index_of(old(self).width as int, coordinates.0 as int, coordinates.1 as int),
                Cell {
                    bits: old(self).cells@[index_of(
                        old(self).width as int,
                        coordinates.0 as int,
                        coordinates.1 as int,
                    )].bits & direction.mask().bits,
                },
            ),
    {
        assert(self.cells@.len() == self.cells.len());
        let index = self.index(coordinates);
        let mut cell = self.cells[index];
        cell.clear_wall(*direction);
        self.cells[index] = cell;
    }
}

impl MazeGenerator {
    /// The grid has a cell, and its cells can be counted in a `u32`.
    pub open spec fn valid(&self) -> bool {
        &&& self.height >= 1
        &&& self.width >= 1
        &&& self.height as int * self.width as int <= u32::MAX
    }

    /// The position one move in `direction` from `coordinates`, if the grid
    /// has one there.
    pub fn get_adjusted_coordinates(&self, coordinates: Coordinates, direction: &Direction) -> (r:
        Option<Coordinates>)
        requires
            self.height >= 1,
            self.width >= 1,
        ensures
            r is Some == can_move(
                self.height as int,
                self.width as int,
                coordinates.0 as int,
                coordinates.1 as int,
                *direction,
            ),
            r is Some ==> r.unwrap().0 == coordinates.0 + direction.delta().0 && r.unwrap().1
                == coordinates.1 + direction.delta().1,
    {
        let (row, col) = coordinates;
        match direction {
            Direction::Up => {
                if row > 0 {
                    Some((row - 1, col))
                } else {
                    None
                }
            },
            Direction::Left => {
                if col > 0 {
                    Some((row, col - 1))
                } else {
                    None
                }
            },
            Direction::Down => {
                if row < self.height - 1 {
                    Some((row + 1, col))
                } else {
                    None
                }
            },
            Direction::Right => {
                if col < self.width - 1 {
                    Some((row, col + 1))
                } else {
                    None
                }
            },
        }
    }

    /// Carves the maze from `from` on: marks the cell, then looks in each
    /// direction, in an order drawn at random; where the neighbor is not
    /// marked yet, takes down the wall to it on both sides and goes on from
    /// there before it looks in the next direction.
    ///
    /// Marks stay. Bits of cells are only cleared, and a cell that was marked
    /// before, other than `from`, stays as it is. All neighbors of `from` and
    /// of every newly marked cell are marked in the end. The newly marked
    /// cells, with `from`, are the cells to which passages lead from `from`
    /// through cells that were not marked before. Where the walls were mirrored, those around the
    /// grid stood and every unmarked cell but `from` had all its walls, this
    /// holds afterwards too, of `from` as well, and there is one passage more
    /// for each cell that is newly marked, but `from`.
    #[verifier::rlimit(100)]
    pub fn generate_from(&self, ctx: &mut MazeGeneratorContext, from: Coordinates)
        requires
            self.valid(),
            old(ctx).wf(self),
            inside(self.height as int, self.width as int, from.0 as int, from.1 as int),
        ensures
            final(ctx).wf(self),
            marked(final(ctx).visited@, self.width as int, from.0 as int, from.1 as int),
            forall|i: int|
                0 <= i < old(ctx).visited@.len() && old(ctx).visited@[i] ==> final(ctx).visited@[i],
            forall|i: int, d: Direction|
                0 <= i < old(ctx).cells@.len() && #[trigger] final(ctx).cells@[i].wall(d) ==> old(
                    ctx,
                ).cells@[i].wall(d),
            forall|i: int|
                0 <= i < old(ctx).cells@.len() ==> (#[trigger] final(ctx).cells@[i]).bits & old(
                    ctx,
                ).cells@[i].bits == final(ctx).cells@[i].bits,
            forall|i: int|
                0 <= i < old(ctx).cells@.len() && old(ctx).visited@[i] && i != index_of(
                    self.width as int,
                    from.0 as int,
                    from.1 as int,
                ) ==> #[trigger] final(ctx).cells@[i] == old(ctx).cells@[i],
            forall|d: Direction| #[trigger]
                spread(
                    final(ctx).visited@,
                    self.height as int,
                    self.width as int,
                    from.0 as int,
                    from.1 as int,
                    d,
                ),
            forall|row: int, col: int|
                inside(self.height as int, self.width as int, row, col) && #[trigger] marked(
                    final(ctx).visited@,
                    self.width as int,
                    row,
                    col,
                ) && !marked(old(ctx).visited@, self.width as int, row, col) ==> connected_fresh(
                    final(ctx).cells@,
                    old(ctx).visited@,
                    self.height as int,
                    self.width as int,
                    from.0 as int,
                    from.1 as int,
                    row,
                    col,
                ),
            forall|row: int, col: int|
                inside(self.height as int, self.width as int, row, col) && #[trigger] connected_fresh(
                    final(ctx).cells@,
                    old(ctx).visited@,
                    self.height as int,
                    self.width as int,
                    from.0 as int,
                    from.1 as int,
                    row,
                    col,
                ) ==> marked(final(ctx).visited@, self.width as int, row, col),
            forall|row: int, col: int, d: Direction|
                inside(self.height as int, self.width as int, row, col) && marked(
                    final(ctx).visited@,
                    self.width as int,
                    row,
                    col,
                ) && !marked(old(ctx).visited@, self.width as int, row, col) ==> #[trigger] spread(
                    final(ctx).visited@,
                    self.height as int,
                    self.width as int,
                    row,
                    col,
                    d,
                ),
            carving(
                old(ctx).cells@,
                old(ctx).visited@,
                self.height as int,
                self.width as int,
                index_of(self.width as int, from.0 as int, from.1 as int),
            ) ==> carving(
                final(ctx).cells@,
                final(ctx).visited@,
                self.height as int,
                self.width as int,
                -1,
            ) && passages(final(ctx).cells@) + unvisited(final(ctx).visited@) + (if marked(
                old(ctx).visited@,
                self.width as int,
                from.0 as int,
                from.1 as int,
            ) {
                0nat
            } else {
                1nat
            }) == passages(old(ctx).cells@) + unvisited(old(ctx).visited@),
        decreases
            2 * unvisited(old(ctx).visited@) + (if marked(
                old(ctx).visited@,
                self.width as int,
                from.0 as int,
                from.1 as int,
            ) {
                1nat
            } else {
                0nat
            }),
    {
        let ghost h = self.height as int;
        let ghost w = self.width as int;
        let ghost fr = from.0 as int;
        let ghost fc = from.1 as int;
        let ghost sound = carving(old(ctx).cells@, old(ctx).visited@, h, w, index_of(w, fr, fc));
        let directions = Direction::get_random_directions();
        proof {
            lemma_index_in_grid(h, w, fr, fc);
        }
        let at = ctx.index(from);
        proof {
            if !ctx.visited@[at as int] {
                lemma_unvisited_mark(ctx.visited@, at as int);
            } else {
                assert(ctx.visited@.update(at as int, true) =~= ctx.visited@);
            }
        }
        ctx.visited[at] = true;
        let ghost base = unvisited(ctx.visited@);
        let ghost credit: nat = if old(ctx).visited@[at as int] {
            0
        } else {
            1
        };
        proof {
            assert forall|row: int, col: int|
                inside(h, w, row, col) && #[trigger] marked(ctx.visited@, w, row, col) && !marked(
                    old(ctx).visited@,
                    w,
                    row,
                    col,
                ) implies connected_fresh(ctx.cells@, old(ctx).visited@, h, w, fr, fc, row, col) by {
                lemma_index_in_grid(h, w, row, col);
                lemma_index_injective(w, row, col, fr, fc);
                assert(reach_fresh(ctx.cells@, old(ctx).visited@, h, w, fr, fc, row, col, 0));
            }
            assert forall|row: int, col: int, d: Direction|
                inside(h, w, row, col) && marked(ctx.visited@, w, row, col) && !marked(
                    old(ctx).visited@,
                    w,
                    row,
                    col,
                ) && !(row == fr && col == fc) implies #[trigger] spread(
                ctx.visited@,
                h,
                w,
                row,
                col,
                d,
            ) by {
                lemma_index_in_grid(h, w, row, col);
                lemma_index_injective(w, row, col, fr, fc);
            }
            assert forall|i: int| 0 <= i < ctx.cells@.len() implies (#[trigger] ctx.cells@[i]).bits
                & old(ctx).cells@[i].bits == ctx.cells@[i].bits by {
                crate::cell::lemma_bits_narrow(ctx.cells@[i].bits, 0, 0, 0);
            }
        }

        let mut k: usize = 0;
        while k < directions.len()
            invariant
                self.valid(),
                h == self.height as int,
                w == self.width as int,
                fr == from.0 as int,
                fc == from.1 as int,
                k <= directions@.len(),
                ctx.wf(self),
                old(ctx).wf(self),
                inside(h, w, fr, fc),
                0 <= at < h * w,
                at == index_of(w, fr, fc),
                sound ==> carving(ctx.cells@, ctx.visited@, h, w, -1) && passages(ctx.cells@)
                    + unvisited(ctx.visited@) + credit == passages(old(ctx).cells@) + unvisited(
                    old(ctx).visited@,
                ),
                ctx.visited@[at as int],
                unvisited(ctx.visited@) <= base,
                2 * base < 2 * unvisited(old(ctx).visited@) + (if old(ctx).visited@[at as int] {
                    1nat
                } else {
                    0nat
                }),
                forall|i: int|
                    0 <= i < old(ctx).visited@.len() && old(ctx).visited@[i] ==> ctx.visited@[i],
                forall|i: int, d: Direction|
                    0 <= i < old(ctx).cells@.len() && #[trigger] ctx.cells@[i].wall(d) ==> old(
                        ctx,
                    ).cells@[i].wall(d),
                forall|i: int|
                    0 <= i < old(ctx).cells@.len() ==> (#[trigger] ctx.cells@[i]).bits & old(
                        ctx,
                    ).cells@[i].bits == ctx.cells@[i].bits,
                forall|i: int|
                    0 <= i < old(ctx).cells@.len() && old(ctx).visited@[i] && i != at
                        ==> #[trigger] ctx.cells@[i] == old(ctx).cells@[i],
                forall|row: int, col: int|
                    inside(h, w, row, col) && #[trigger] marked(ctx.visited@, w, row, col)
                        && !marked(old(ctx).visited@, w, row, col) ==> connected_fresh(
                        ctx.cells@,
                        old(ctx).visited@,
                        h,
                        w,
                        fr,
                        fc,
                        row,
                        col,
                    ),
                forall|row: int, col: int, d: Direction|
                    inside(h, w, row, col) && marked(ctx.visited@, w, row, col) && !marked(
                        old(ctx).visited@,
                        w,
                        row,
                        col,
                    ) && !(row == fr && col == fc) ==> #[trigger] spread(
                        ctx.visited@,
                        h,
                        w,
                        row,
                        col,
                        d,
                    ),
                forall|j: int|
                    0 <= j < k ==> spread(ctx.visited@, h, w, fr, fc, #[trigger] directions@[j]),
            decreases directions.len() - k,
        {
            proof {
                lemma_index_in_grid(h, w, fr, fc);
            }
            let direction = directions[k];
            let neighbor_pos = self.get_adjusted_coordinates(from, &direction);
            if let Some(to) = neighbor_pos {
                let ghost tr = to.0 as int;
                let ghost tc = to.1 as int;
                proof {
                    lemma_index_in_grid(h, w, tr, tc);
                }
                let to_at = ctx.index(to);
                if !ctx.visited[to_at] {
                    let ghost before = ctx.cells@;
                    let ghost marks = ctx.visited@;
                    ctx.clear_wall(from, &direction);
                    ctx.clear_wall(to, &direction.get_opposite());
                    let ghost carved = ctx.cells@;
                    proof {
                        assert(to_at != at);
                        assert forall|e: Direction| #[trigger]
                            carved[at as int].wall(e) == (e != direction && before[at as int].wall(
                                e,
                            )) by {
                            crate::cell::lemma_clear_bit(
                                before[at as int].bits,
                                direction.flag(),
                                e.flag(),
                            );
                        }
                        assert forall|e: Direction| #[trigger]
                            carved[to_at as int].wall(e) == (e != direction.opposite()
                                && before[to_at as int].wall(e)) by {
                            crate::cell::lemma_clear_bit(
                                before[to_at as int].bits,
                                direction.opposite().flag(),
                                e.flag(),
                            );
                        }
                        crate::cell::lemma_bits_narrow(
                            before[at as int].bits,
                            0,
                            0,
                            direction.mask().bits,
                        );
                        crate::cell::lemma_bits_narrow(
                            before[to_at as int].bits,
                            0,
                            0,
                            direction.opposite().mask().bits,
                        );
                        assert forall|i: int| 0 <= i < h * w implies (#[trigger] carved[i]).bits
                            & before[i].bits == carved[i].bits by {
                            crate::cell::lemma_bits_narrow(before[i].bits, 0, 0, 0);
                        }
                        if sound {
                            assert(wall_at(before, w, fr, fc, direction) == wall_at(
                                before,
                                w,
                                tr,
                                tc,
                                direction.opposite(),
                            ));
                            assert(before[to_at as int].wall(direction.opposite()));
                            lemma_carve_mirrored(before, carved, h, w, fr, fc, direction);
                            lemma_carve_border(before, carved, h, w, fr, fc, direction);
                            lemma_carve_count(before, carved, at as int, to_at as int, direction);
                            assert(untouched(carved, marks, to_at as int));
                            assert(carving(carved, marks, h, w, index_of(w, tr, tc)));
                        }
                    }
                    self.generate_from(ctx, to);
                    proof {
                        lemma_unvisited_monotone(marks, ctx.visited@);
                        assert forall|i: int, d: Direction|
                            0 <= i < h * w && #[trigger] ctx.cells@[i].wall(d) implies before[i].wall(
                            d,
                        ) by {
                            assert(carved[i].wall(d));
                        }
                        assert forall|i: int| 0 <= i < h * w implies (#[trigger] ctx.cells@[i]).bits
                            & old(ctx).cells@[i].bits == ctx.cells@[i].bits by {
                            crate::cell::lemma_bits_narrow(
                                before[i].bits,
                                carved[i].bits,
                                ctx.cells@[i].bits,
                                0,
                            );
                            crate::cell::lemma_bits_narrow(
                                old(ctx).cells@[i].bits,
                                before[i].bits,
                                ctx.cells@[i].bits,
                                0,
                            );
                        }
                        assert forall|i: int|
                            0 <= i < h * w && old(ctx).visited@[i] && i != at implies #[trigger] ctx.cells@[i]
                            == old(ctx).cells@[i] by {
                            assert(marks[i]);
                            assert(carved[i] == before[i]);
                        }
                        assert(!wall_at(carved, w, fr, fc, direction));
                        assert(passage(ctx.cells@, h, w, fr, fc, direction));
                        assert(!marked(old(ctx).visited@, w, tr, tc));
                        assert forall|row: int, col: int|
                            inside(h, w, row, col) && #[trigger] marked(ctx.visited@, w, row, col)
                                && !marked(old(ctx).visited@, w, row, col) implies connected_fresh(
                            ctx.cells@,
                            old(ctx).visited@,
                            h,
                            w,
                            fr,
                            fc,
                            row,
                            col,
                        ) by {
                            lemma_index_in_grid(h, w, row, col);
                            if marked(marks, w, row, col) {
                                lemma_connected_fresh_keeps(
                                    before,
                                    ctx.cells@,
                                    old(ctx).visited@,
                                    old(ctx).visited@,
                                    h,
                                    w,
                                    fr,
                                    fc,
                                    row,
                                    col,
                                );
                            } else {
                                lemma_connected_fresh_keeps(
                                    ctx.cells@,
                                    ctx.cells@,
                                    marks,
                                    old(ctx).visited@,
                                    h,
                                    w,
                                    tr,
                                    tc,
                                    row,
                                    col,
                                );
                                lemma_connected_fresh_step(
                                    ctx.cells@,
                                    old(ctx).visited@,
                                    h,
                                    w,
                                    fr,
                                    fc,
                                    direction,
                                    row,
                                    col,
                                );
                            }
                        }
                        assert forall|row: int, col: int, d: Direction|
                            inside(h, w, row, col) && marked(ctx.visited@, w, row, col) && !marked(
                                old(ctx).visited@,
                                w,
                                row,
                                col,
                            ) && !(row == fr && col == fc) implies #[trigger] spread(
                            ctx.visited@,
                            h,
                            w,
                            row,
                            col,
                            d,
                        ) by {
                            lemma_index_in_grid(h, w, row, col);
                            if marked(marks, w, row, col) {
                                assert(spread(marks, h, w, row, col, d));
                                if can_move(h, w, row, col, d) {
                                    lemma_index_in_grid(
                                        h,
                                        w,
                                        row + d.delta().0,
                                        col + d.delta().1,
                                    );
                                }
                            }
                        }
                        assert forall|j: int| 0 <= j < k implies spread(
                            ctx.visited@,
                            h,
                            w,
                            fr,
                            fc,
                            #[trigger] directions@[j],
                        ) by {
                            let d = directions@[j];
                            assert(spread(marks, h, w, fr, fc, d));
                            if can_move(h, w, fr, fc, d) {
                                lemma_index_in_grid(h, w, fr + d.delta().0, fc + d.delta().1);
                            }
                        }
                    }
                }
            }
            k += 1;
        }
        proof {
            assert forall|d: Direction| #[trigger] spread(ctx.visited@, h, w, fr, fc, d) by {
                assert(directions@.contains(d));
                let j = choose|j: int| 0 <= j < directions@.len() && directions@[j] == d;
                assert(spread(ctx.visited@, h, w, fr, fc, directions@[j]));
            }
            assert forall|r: int, c: int, d: Direction|
                inside(h, w, r, c) && marked(ctx.visited@, w, r, c) && !marked(
                    old(ctx).visited@,
                    w,
                    r,
                    c,
                ) implies #[trigger] spread(ctx.visited@, h, w, r, c, d) by {}
            assert forall|row: int, col: int|
                inside(h, w, row, col) && #[trigger] connected_fresh(
                    ctx.cells@,
                    old(ctx).visited@,
                    h,
                    w,
                    fr,
                    fc,
                    row,
                    col,
                ) implies marked(ctx.visited@, w, row, col) by {
                let n = choose|n: nat|
                    reach_fresh(ctx.cells@, old(ctx).visited@, h, w, fr, fc, row, col, n);
                lemma_reachable_is_marked(
                    ctx.cells@,
                    old(ctx).visited@,
                    ctx.visited@,
                    h,
                    w,
                    fr,
                    fc,
                    row,
                    col,
                    n,
                );
            }
        }
    }

    /// Carves a maze into a grid in which every wall stands, starting at
    /// `start_coordinates`, and returns its cells row by row. No cell holds a
    /// bit beyond the four flags. The walls of the maze are mirrored, those
    /// around the grid stand, passages lead from the start to every cell, and
    /// there is one passage less than there are cells: the passages form a
    /// tree that spans the grid.
    pub fn generate(&self) -> (r: Vec<Cell>)
        requires
            self.valid(),
            inside(
                self.height as int,
                self.width as int,
                self.start_coordinates.0 as int,
                self.start_coordinates.1 as int,
            ),
        ensures
            r@.len() == self.height as int * self.width as int,
            forall|i: int| 0 <= i < r@.len() ==> (#[trigger] r@[i]).bits <= 15,
            mirrored(r@, self.height as int, self.width as int),
            border_stands(r@, self.height as int, self.width as int),
            passages(r@) == self.height as int * self.width as int - 1,
            forall|row: int, col: int|
                inside(self.height as int, self.width as int, row, col) ==> #[trigger] connected(
                    r@,
                    self.height as int,
                    self.width as int,
                    self.start_coordinates.0 as int,
                    self.start_coordinates.1 as int,
                    row,
                    col,
                ),
    {
        let ghost h = self.height as int;
        let ghost w = self.width as int;
        let mut ctx = MazeGeneratorContext::new(self);
        let ghost fresh = ctx.visited@;
        let ghost walled = ctx.cells@;
        proof {
            assert forall|row: int, col: int, d: Direction|
                inside(h, w, row, col) && inside(h, w, row + d.delta().0, col + d.delta().1)
                implies #[trigger] wall_at(ctx.cells@, w, row, col, d) == wall_at(
                ctx.cells@,
                w,
                row + d.delta().0,
                col + d.delta().1,
                d.opposite(),
            ) by {
                lemma_index_in_grid(h, w, row, col);
                lemma_index_in_grid(h, w, row + d.delta().0, col + d.delta().1);
                crate::cell::lemma_clear_bit(0, 1, d.flag());
                crate::cell::lemma_clear_bit(0, 1, d.opposite().flag());
            }
            assert forall|i: int, d: Direction| 0 <= i < ctx.cells@.len() implies #[trigger] ctx.cells@[i].wall(
                d,
            ) by {
                crate::cell::lemma_clear_bit(0, 1, d.flag());
            }
            assert forall|row: int, col: int, d: Direction|
                inside(h, w, row, col) && !can_move(h, w, row, col, d) implies #[trigger] wall_at(
                ctx.cells@,
                w,
                row,
                col,
                d,
            ) by {
                lemma_index_in_grid(h, w, row, col);
            }
            lemma_passages_none(ctx.cells@);
            lemma_unvisited_uniform(ctx.visited@, false);
            lemma_index_in_grid(
                h,
                w,
                self.start_coordinates.0 as int,
                self.start_coordinates.1 as int,
            );
            assert(carving(
                ctx.cells@,
                ctx.visited@,
                h,
                w,
                index_of(w, self.start_coordinates.0 as int, self.start_coordinates.1 as int),
            ));
        }
        self.generate_from(&mut ctx, self.start_coordinates);
        proof {
            let sr = self.start_coordinates.0 as int;
            let sc = self.start_coordinates.1 as int;
            assert forall|row: int, col: int, d: Direction|
                inside(h, w, row, col) && marked(ctx.visited@, w, row, col) implies #[trigger] spread(
                ctx.visited@,
                h,
                w,
                row,
                col,
                d,
            ) by {
                lemma_index_in_grid(h, w, row, col);
                assert(!marked(fresh, w, row, col));
            }
            assert forall|row: int, col: int| inside(h, w, row, col) implies #[trigger] connected(
                ctx.cells@,
                h,
                w,
                sr,
                sc,
                row,
                col,
            ) by {
                lemma_index_in_grid(h, w, row, col);
                lemma_marked_everywhere(ctx.visited@, h, w, sr, sc, row, col);
                assert(!marked(fresh, w, row, col));
                let n = choose|n: nat| reach_fresh(ctx.cells@, fresh, h, w, sr, sc, row, col, n);
                lemma_fresh_is_connected(ctx.cells@, fresh, h, w, sr, sc, row, col, n);
            }
            assert forall|i: int| 0 <= i < ctx.visited@.len() implies ctx.visited@[i] by {
                crate::a_star::lemma_grid(i, h, w);
                vstd::arithmetic::div_mod::lemma_fundamental_div_mod(i, w);
                assert((i / w) * w == w * (i / w)) by (nonlinear_arith);
                lemma_marked_everywhere(ctx.visited@, h, w, sr, sc, i / w, i % w);
                assert(index_of(w, i / w, i % w) == i);
            }
            lemma_unvisited_uniform(ctx.visited@, true);
            assert forall|i: int| 0 <= i < ctx.cells@.len() implies (#[trigger] ctx.cells@[i]).bits
                <= 15 by {
                assert(walled[i].bits == 15);
                crate::cell::lemma_bits_narrow(ctx.cells@[i].bits, 0, 0, 0);
            }
        }
        ctx.cells
    }
}

} // verus!
