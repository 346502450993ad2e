use crate::cell::Cell;
use crate::direction::Direction;
pub use crate::node::{score_before, PathfinderNode};
use vstd::prelude::*;

verus! {

/// What a search holds between two steps.
pub ghost struct SearchState {
    pub height: u32,
    pub width: u32,
    pub start: usize,
    pub end: usize,
    pub cells: Seq<Cell>,
    pub open: Seq<PathfinderNode>,
    pub closed: Seq<usize>,
    pub came_from: Seq<Option<usize>>,
    pub g: Seq<Option<u128>>,
    pub f: Seq<Option<u128>>,
    pub done: bool,
    pub current: usize,
}

/// The sum of the distances between two positions along rows and columns.
pub open spec fn manhattan(a: (u32, u32), b: (u32, u32)) -> int {
    (if a.0 > b.0 {
        a.0 - b.0
    } else {
        b.0 - a.0
    }) + (if a.1 > b.1 {
        a.1 - b.1
    } else {
        b.1 - a.1
    })
}

/// The position of the entry that leaves the frontier next: the first one
/// that no other entry comes before by its score.
pub open spec fn min_pos(open: Seq<PathfinderNode>) -> int
    decreases open.len(),
{
    if open.len() <= 1 {
        0
    } else {
        let m = min_pos(open.drop_last());
        if score_before(open.last().f_score, open[m].f_score) {
            open.len() - 1
        } else {
            m
        }
    }
}

/// Whether the frontier holds an entry for the cell `index`.
pub open spec fn open_contains(open: Seq<PathfinderNode>, index: usize) -> bool {
    exists|k: int| 0 <= k < open.len() && (#[trigger] open[k]).index == index
}

impl SearchState {
    /// The number of cells of the grid.
    pub open spec fn size(self) -> int {
        self.height as int * self.width as int
    }

    pub open spec fn row(self, index: usize) -> u32 {
        ((index as u32) / self.width) as u32
    }

    pub open spec fn col(self, index: usize) -> u32 {
        ((index as u32) % self.width) as u32
    }

    /// The estimate of the cost from the cell `index` to the goal.
    pub open spec fn heuristic(self, index: usize) -> int {
        manhattan((self.row(index), self.col(index)), (self.row(self.end), self.col(self.end)))
    }

    /// The cell `i` has a predecessor, which was reached at a smaller cost
    /// and from which `i` can be entered.
    pub open spec fn linked(self, i: int) -> bool {
        &&& self.came_from[i] is Some
        &&& self.came_from[i].unwrap() < self.size()
        &&& self.open_neighbors(self.came_from[i].unwrap()).contains(i as usize)
        &&& self.g[self.came_from[i].unwrap() as int] is Some
        &&& self.g[self.came_from[i].unwrap() as int].unwrap() < self.g[i].unwrap()
    }

    /// The invariant of a search.
    pub open spec fn wf(self) -> bool {
        &&& self.width > 0
        &&& self.height > 0
        &&& self.size() <= u32::MAX
        &&& self.cells.len() == self.size()
        &&& self.came_from.len() == self.size()
        &&& self.g.len() == self.size()
        &&& self.f.len() == self.size()
        &&& self.start < self.size()
        &&& self.end < self.size()
        &&& self.current < self.size()
        &&& self.closed.len() <= usize::MAX
        &&& forall|k: int|
            0 <= k < self.open.len() ==> (#[trigger] self.open[k]).index < self.size()
                && self.g[self.open[k].index as int] is Some
        &&& forall|i: int, j: int|
            0 <= i < j < self.open.len() ==> (#[trigger] self.open[i]).index != (
            #[trigger] self.open[j]).index
        &&& self.g[self.start as int] == Some(0u128)
        &&& self.g[self.current as int] is Some
        &&& forall|i: int|
            0 <= i < self.size() && (#[trigger] self.g[i]) is Some ==> self.g[i].unwrap()
                <= self.closed.len()
        &&& forall|i: int|
            0 <= i < self.size() && i != self.start && self.g[i] is Some ==> #[trigger] self.linked(
                i,
            )
    }

    /// The state in which a search starts.
    pub open spec fn initial(
        height: u32,
        width: u32,
        start: usize,
        end: usize,
        cells: Seq<Cell>,
    ) -> SearchState {
        let n = (height as int * width as int) as nat;
        SearchState {
            height,
            width,
            start,
            end,
            cells,
            open: seq![PathfinderNode { index: start, f_score: Some(0u128) }],
            closed: Seq::empty(),
            came_from: Seq::new(n, |i: int| None::<usize>),
            g: Seq::new(n, |i: int| None::<u128>).update(start as int, Some(0u128)),
            f: Seq::new(n, |i: int| None::<u128>).update(
                start as int,
                Some((width as int + height as int) as u128),
            ),
            done: false,
            current: start,
        }
    }

    /// The cells that can be entered from the cell `index`: those beside it
    /// in the grid towards which it has no wall, in the order up, left, down,
    /// right.
    pub open spec fn open_neighbors(self, index: usize) -> Seq<usize> {
        let cell = self.cells[index as int];
        let none = Seq::<usize>::empty();
        let up = if self.row(index) > 0 && !cell.wall(Direction::Up) {
            none.push((index - self.width) as usize)
        } else {
            none
        };
        let left = if self.col(index) > 0 && !cell.wall(Direction::Left) {
            up.push((index - 1) as usize)
        } else {
            up
        };
        let down = if self.row(index) < self.height - 1 && !cell.wall(Direction::Down) {
            left.push((index + self.width) as usize)
        } else {
            left
        };
        if self.col(index) < self.width - 1 && !cell.wall(Direction::Right) {
            down.push((index + 1) as usize)
        } else {
            down
        }
    }

    /// The state after the step from `current` to `neighbor` was weighed:
    /// where it reaches `neighbor` at a smaller cost than known so far, the
    /// tables record it, and `neighbor` enters the frontier unless it has an
    /// entry there.
    pub open spec fn relax(self, current: usize, neighbor: usize) -> SearchState {
        let tentative = self.g[current as int].unwrap() + 1;
        if self.g[neighbor as int] is None || tentative < self.g[neighbor as int].unwrap() {
            let f = (tentative + self.heuristic(neighbor)) as u128;
            SearchState {
                came_from: self.came_from.update(neighbor as int, Some(current)),
                g: self.g.update(neighbor as int, Some(tentative as u128)),
                f: self.f.update(neighbor as int, Some(f)),
                open: if open_contains(self.open, neighbor) {
                    self.open
                } else {
                    self.open.push(PathfinderNode { index: neighbor, f_score: Some(f) })
                },
                ..self
            }
        } else {
            self
        }
    }

    /// The state after the steps from `current` to each of `neighbors` were
    /// weighed, first to last.
    pub open spec fn relax_all(self, current: usize, neighbors: Seq<usize>) -> SearchState
        decreases neighbors.len(),
    {
        if neighbors.len() == 0 {
            self
        } else {
            self.relax_all(current, neighbors.drop_last()).relax(current, neighbors.last())
        }
    }

    /// Whether a step only marks the search as finished, or changes nothing.
    pub open spec fn idle(self) -> bool {
        self.done || self.current == self.end || self.open.len() == 0
    }

    /// The state after the least entry of the frontier was taken out and
    /// made the current cell.
    pub open spec fn popped(self) -> SearchState {
        let k = min_pos(self.open);
        SearchState {
            open: self.open.remove(k),
            current: self.open[k].index,
            closed: self.closed.push(self.open[k].index),
            ..self
        }
    }

    /// The state after one step.
    pub open spec fn step(self) -> SearchState {
        if self.done {
            self
        } else if self.idle() {
            SearchState { done: true, ..self }
        } else {
            let p = self.popped();
            p.relax_all(p.current, p.open_neighbors(p.current))
        }
    }

    /// The cell that one step finalizes, if it finalizes one.
    pub open spec fn step_result(self) -> Option<usize> {
        if self.idle() {
            None
        } else {
            Some(self.open[min_pos(self.open)].index)
        }
    }

    /// The cells from `from` back to the start, each followed by its
    /// predecessor. In a search that keeps its invariant every reached cell
    /// but the start has a predecessor of smaller cost, so the chain ends at
    /// the start.
    pub open spec fn back_chain(self, from: usize) -> Seq<u32>
        decreases
            (if self.wf() && from < self.size() && self.g[from as int] is Some {
                self.g[from as int].unwrap() as int
            } else {
                0
            }),
    {
        if self.wf() && from < self.size() && self.g[from as int] is Some && from != self.start
            && self.linked(from as int) {
            seq![from as u32] + self.back_chain(self.came_from[from as int].unwrap())
        } else {
            seq![from as u32]
        }
    }

    /// The path that the search reports: none once the search has ended
    /// elsewhere than at the goal, else the cells from the start to the
    /// current one.
    pub open spec fn path(self) -> Seq<u32> {
        if self.done && self.current != self.end {
            Seq::empty()
        } else {
            self.back_chain(self.current).reverse()
        }
    }
}

/// The entry at `min_pos` exists, and no entry comes before it by its score.
pub proof fn lemma_min_pos_is_least(open: Seq<PathfinderNode>)
    requires
        open.len() > 0,
    ensures
        0 <= min_pos(open) < open.len(),
        forall|j: int|
            0 <= j < open.len() ==> !score_before(
                (#[trigger] open[j]).f_score,
                open[min_pos(open)].f_score,
            ),
    decreases open.len(),
{
    if open.len() > 1 {
        let rest = open.drop_last();
        lemma_min_pos_is_least(rest);
        let m = min_pos(rest);
        assert(rest[m] == open[m]);
        assert forall|j: int| 0 <= j < open.len() implies !score_before(
            (#[trigger] open[j]).f_score,
            open[min_pos(open)].f_score,
        ) by {
            if j < open.len() - 1 {
                assert(rest[j] == open[j]);
            }
        }
    }
}

/// Facts on rows and columns of a grid of `h` rows and `w` columns for one of
/// its cells.
pub proof fn lemma_grid(index: int, h: int, w: int)
    requires
        w > 0,
        0 <= index < h * w,
    ensures
        0 <= index / w < h,
        0 <= index % w < w,
        index / w > 0 ==> index >= w,
        index / w < h - 1 ==> index + w < h * w,
        index % w < w - 1 ==> index + 1 < h * w,
        index % w > 0 ==> index >= 1,
{
    vstd::arithmetic::div_mod::lemma_fundamental_div_mod(index, w);
    vstd::arithmetic::div_mod::lemma_mod_bound(index, w);
    let q = index / w;
    let r = index % w;
    assert(index == w * q + r);
    assert(0 <= q < h && (q > 0 ==> w * q >= w) && (q < h - 1 ==> w * q + w <= (h - 1) * w) && (h
        - 1) * w + w == h * w && w * q + w <= h * w) by (nonlinear_arith)
        requires
            w > 0,
            0 <= r < w,
            0 <= w * q + r < h * w,
    ;
}

/// Marking a search as done keeps its invariant.
pub proof fn lemma_finish_wf(s: SearchState)
    requires
        s.wf(),
    ensures
        (SearchState { done: true, ..s }).wf(),
{
    let t = SearchState { done: true, ..s };
    assert forall|i: int| 0 <= i < t.size() && i != t.start && t.g[i] is Some implies #[trigger] t.linked(
        i,
    ) by {
        assert(s.linked(i));
    }
}

/// Taking the least entry out of the frontier keeps the invariant of the
/// search, and the cell taken out was reached in fewer steps than the closed
/// list then has entries.
pub proof fn lemma_popped_wf(s: SearchState)
    requires
        s.wf(),
        s.open.len() > 0,
        s.closed.len() < usize::MAX,
    ensures
        s.popped().wf(),
        s.popped().current < s.size(),
        s.popped().g[s.popped().current as int] is Some,
        s.popped().g[s.popped().current as int].unwrap() < s.popped().closed.len(),
{
    lemma_min_pos_is_least(s.open);
    let k = min_pos(s.open);
    let t = s.popped();
    assert(s.open[k].index < s.size());
    assert forall|i: int| 0 <= i < t.size() && i != t.start && t.g[i] is Some implies #[trigger] t.linked(
        i,
    ) by {
        assert(s.linked(i));
    }
    assert forall|j: int| 0 <= j < t.open.len() implies (#[trigger] t.open[j]).index < t.size()
        && t.g[t.open[j].index as int] is Some by {
        if j < k {
            assert(t.open[j] == s.open[j]);
        } else {
            assert(t.open[j] == s.open[j + 1]);
        }
    }
    assert forall|i: int, j: int| 0 <= i < j < t.open.len() implies (#[trigger] t.open[i]).index
        != (#[trigger] t.open[j]).index by {
        let a = if i < k { i } else { i + 1 };
        let b = if j < k { j } else { j + 1 };
        assert(t.open[i] == s.open[a]);
        assert(t.open[j] == s.open[b]);
    }
}

/// Weighing one step keeps the invariant of the search, and changes neither
/// the grid, the closed list nor the cost of the cell the step starts from.
pub proof fn lemma_relax_wf(s: SearchState, current: usize, neighbor: usize)
    requires
        s.wf(),
        current < s.size(),
        neighbor < s.size(),
        s.open_neighbors(current).contains(neighbor),
        s.g[current as int] is Some,
        s.g[current as int].unwrap() < s.closed.len(),
    ensures
        s.relax(current, neighbor).wf(),
        s.relax(current, neighbor).g[current as int] == s.g[current as int],
        s.relax(current, neighbor).closed == s.closed,
        s.relax(current, neighbor).cells == s.cells,
        s.relax(current, neighbor).current == s.current,
        s.relax(current, neighbor).done == s.done,
        s.relax(current, neighbor).height == s.height,
        s.relax(current, neighbor).width == s.width,
        s.relax(current, neighbor).start == s.start,
        s.relax(current, neighbor).end == s.end,
{
    let t = s.relax(current, neighbor);
    let tentative = s.g[current as int].unwrap() + 1;
    if s.g[neighbor as int] is None || tentative < s.g[neighbor as int].unwrap() {
        assert(neighbor != current);
        assert(neighbor != s.start);
        assert(t.size() == s.size());
        assert forall|i: int| 0 <= i < t.size() && i != t.start && t.g[i] is Some implies #[trigger] t.linked(
            i,
        ) by {
            if i == neighbor {
            } else {
                assert(s.linked(i));
            }
        }
        assert forall|k: int| 0 <= k < t.open.len() implies (#[trigger] t.open[k]).index < t.size()
            && t.g[t.open[k].index as int] is Some by {
            if k < s.open.len() {
                assert(t.open[k] == s.open[k]);
            }
        }
        assert forall|i: int, j: int| 0 <= i < j < t.open.len() implies (#[trigger] t.open[i]).index
            != (#[trigger] t.open[j]).index by {
            assert(t.open[i] == s.open[i]);
            if j < s.open.len() {
                assert(t.open[j] == s.open[j]);
            }
        }
        assert(t.wf());
    }
}

/// The state after `n` steps.
pub open spec fn after_steps(s: SearchState, n: nat) -> SearchState
    decreases n,
{
    if n == 0 {
        s
    } else {
        after_steps(s, (n - 1) as nat).step()
    }
}

/// Once a search is done, no number of further steps changes anything of
/// it, and each of them finalizes no cell.
pub proof fn lemma_done_is_final(s: SearchState, n: nat)
    requires
        s.done,
    ensures
        after_steps(s, n) == s,
        after_steps(s, n).step_result() is None,
    decreases n,
{
    if n > 0 {
        lemma_done_is_final(s, (n - 1) as nat);
    }
}

/// A step keeps the invariant of a search and leaves the grid, the start
/// and the goal as they are. A search that is done stays done. The closed
/// list only grows: a step that finalizes a cell makes it the current cell
/// and adds it to the end of the list, and any other step leaves both alone.
pub proof fn lemma_step_wf(s: SearchState)
    requires
        s.wf(),
        s.closed.len() < usize::MAX,
    ensures
        s.step().wf(),
        s.done ==> s.step().done,
        s.step().cells == s.cells,
        s.step().height == s.height,
        s.step().width == s.width,
        s.step().start == s.start,
        s.step().end == s.end,
        s.step_result() is Some ==> s.step().current == s.step_result().unwrap()
            && s.step().closed == s.closed.push(s.step_result().unwrap()) && !s.step().done,
        s.step_result() is None ==> s.step().current == s.current && s.step().closed
            == s.closed && s.step().done,
{
    if s.done {
    } else if s.idle() {
        lemma_finish_wf(s);
    } else {
        lemma_popped_wf(s);
        let p = s.popped();
        lemma_open_neighbors_in_grid(p, p.current);
        assert forall|j: int| 0 <= j < p.open_neighbors(p.current).len() implies p.open_neighbors(
            p.current,
        ).contains(#[trigger] p.open_neighbors(p.current)[j]) by {}
        lemma_relax_all_wf(p, p.current, p.open_neighbors(p.current));
    }
}

/// The cells that can be entered from a cell of the grid are cells of the
/// grid.
pub proof fn lemma_open_neighbors_in_grid(s: SearchState, index: usize)
    requires
        s.wf(),
        index < s.size(),
    ensures
        forall|j: int|
            0 <= j < s.open_neighbors(index).len() ==> 0 <= #[trigger] s.open_neighbors(index)[j]
                < s.size(),
{
    lemma_grid(index as int, s.height as int, s.width as int);
}

/// Weighing the steps to cells of the grid keeps the invariant of the
/// search, and changes neither the grid, the closed list nor the cost of the
/// cell the steps start from.
pub proof fn lemma_relax_all_wf(s: SearchState, current: usize, neighbors: Seq<usize>)
    requires
        s.wf(),
        current < s.size(),
        forall|j: int| 0 <= j < neighbors.len() ==> neighbors[j] < s.size(),
        forall|j: int|
            0 <= j < neighbors.len() ==> s.open_neighbors(current).contains(#[trigger] neighbors[j]),
        s.g[current as int] is Some,
        s.g[current as int].unwrap() < s.closed.len(),
    ensures
        s.relax_all(current, neighbors).wf(),
        s.relax_all(current, neighbors).g[current as int] == s.g[current as int],
        s.relax_all(current, neighbors).closed == s.closed,
        s.relax_all(current, neighbors).cells == s.cells,
        s.relax_all(current, neighbors).current == s.current,
        s.relax_all(current, neighbors).done == s.done,
        s.relax_all(current, neighbors).height == s.height,
        s.relax_all(current, neighbors).width == s.width,
        s.relax_all(current, neighbors).start == s.start,
        s.relax_all(current, neighbors).end == s.end,
    decreases neighbors.len(),
{
    if neighbors.len() > 0 {
        let rest = neighbors.drop_last();
        assert forall|j: int| 0 <= j < rest.len() implies s.open_neighbors(current).contains(
            #[trigger] rest[j],
        ) by {
            assert(rest[j] == neighbors[j]);
        }
        lemma_relax_all_wf(s, current, rest);
        assert(s.open_neighbors(current).contains(neighbors[neighbors.len() - 1]));
        lemma_relax_wf(s.relax_all(current, rest), current, neighbors.last());
    }
}

/// A search that has nothing left to look at and does not stand at the goal
/// ends with the next step, which finalizes no cell, and reports no path
/// from then on.
pub proof fn lemma_exhausted_search_has_no_path(s: SearchState)
    requires
        !s.done,
        s.open.len() == 0,
        s.current != s.end,
    ensures
        s.step().done,
        s.step_result() is None,
        s.step().path() == Seq::<u32>::empty(),
        forall|n: nat| (#[trigger] after_steps(s.step(), n)).path() == Seq::<u32>::empty(),
{
    assert forall|n: nat| (#[trigger] after_steps(s.step(), n)).path() == Seq::<u32>::empty() by {
        lemma_done_is_final(s.step(), n);
    }
}

/// A search that stands at the goal ends with the next step, which changes
/// nothing else, and the path it reports ends at the goal.
pub proof fn lemma_search_ends_at_goal(s: SearchState)
    requires
        s.wf(),
        !s.done,
        s.current == s.end,
    ensures
        s.step() == (SearchState { done: true, ..s }),
        s.step_result() is None,
        s.step().path().len() >= 1,
        s.step().path().last() == s.end as u32,
        s.step().path().first() == s.start as u32,
{
    lemma_finish_wf(s);
    lemma_back_chain_ends(s.step(), s.step().current);
}

/// Each cell of the chain back from a reached cell can be entered from the
/// cell that follows it in the chain: read from its end, the chain is a way
/// through the grid that passes no wall. It has at most as many moves as the
/// cost at which the cell was reached.
pub proof fn lemma_back_chain_follows_passages(s: SearchState, from: usize)
    requires
        s.wf(),
        from < s.size(),
        s.g[from as int] is Some,
    ensures
        forall|k: int|
            1 <= k < s.back_chain(from).len() ==> s.open_neighbors(
                (#[trigger] s.back_chain(from)[k]) as usize,
            ).contains(s.back_chain(from)[k - 1] as usize),
        s.back_chain(from).len() <= s.g[from as int].unwrap() + 1,
    decreases s.g[from as int].unwrap(),
{
    if from != s.start {
        assert(s.linked(from as int));
        let before = s.came_from[from as int].unwrap();
        lemma_back_chain_follows_passages(s, before);
        lemma_back_chain_ends(s, before);
        let rest = s.back_chain(before);
        let chain = s.back_chain(from);
        assert(chain =~= seq![from as u32] + rest);
        assert((before as u32) as usize == before);
        assert((from as u32) as usize == from);
        assert forall|k: int| 1 <= k < chain.len() implies s.open_neighbors(
            (#[trigger] chain[k]) as usize,
        ).contains(chain[k - 1] as usize) by {
            assert(chain[k] == rest[k - 1]);
            if k == 1 {
                assert(chain[0] == from as u32);
                assert(rest[0] == before as u32);
            } else {
                assert(chain[k - 1] == rest[k - 2]);
            }
        }
    }
}

/// The chain back from a reached cell begins with that cell and ends with
/// the start.
pub proof fn lemma_back_chain_ends(s: SearchState, from: usize)
    requires
        s.wf(),
        from < s.size(),
        s.g[from as int] is Some,
    ensures
        s.back_chain(from).len() >= 1,
        s.back_chain(from).first() == from as u32,
        s.back_chain(from).last() == s.start as u32,
        s.back_chain(from).reverse().first() == s.start as u32,
        s.back_chain(from).reverse().last() == from as u32,
    decreases s.g[from as int].unwrap(),
{
    if from != s.start {
        assert(s.linked(from as int));
        lemma_back_chain_ends(s, s.came_from[from as int].unwrap());
    }
}

/// A vector of `n` entries, each `value`.
fn filled<T: Copy>(n: usize, value: T) -> (r: Vec<T>)
    ensures
        r@ == Seq::new(n as nat, |i: int| value),
{
    let mut r: Vec<T> = Vec::new();
    let mut i: usize = 0;
    while i < n
        invariant
            i <= n,
            r@.len() == i,
            forall|j: int| 0 <= j < i ==> r@[j] == value,
        decreases n - i,
    {
        r.push(value);
        i += 1;
    }
    assert(r@ =~= Seq::new(n as nat, |i: int| value));
    r
}

/// The sum of the distances between two positions along rows and columns.
pub fn manhattan_distance(a: (u32, u32), b: (u32, u32)) -> (r: u64)
    ensures
        r == manhattan(a, b),
{
    let (y1, x1) = a;
    let (y2, x2) = b;
    let x_distance: u32 = if x1 > x2 {
        x1 - x2
    } else {
        x2 - x1
    };
    let y_distance: u32 = if y1 > y2 {
        y1 - y2
    } else {
        y2 - y1
    };
    x_distance as u64 + y_distance as u64
}

/// A search for a shortest path through the passages of a grid, advanced one
/// step at a time.
pub struct Pathfinder {
    height: u32,
    width: u32,
    start_index: usize,
    end_index: usize,
    cells: Vec<Cell>,
    open_set: Vec<PathfinderNode>,
    closed_set: Vec<usize>,
    came_from: Vec<Option<usize>>,
    g_score: Vec<Option<u128>>,
    f_score: Vec<Option<u128>>,
    done: bool,
    current: usize,
}

impl View for Pathfinder {
    type V = SearchState;

    closed spec fn view(&self) -> SearchState {
        SearchState {
            height: self.height,
            width: self.width,
            start: self.start_index,
            end: self.end_index,
            cells: self.cells@,
            open: self.open_set@,
            closed: self.closed_set@,
            came_from: self.came_from@,
            g: self.g_score@,
            f: self.f_score@,
            done: self.done,
            current: self.current,
        }
    }
}

impl Pathfinder {
    /// The invariant of a search.
    pub open spec fn wf(&self) -> bool {
        self@.wf()
    }

    /// A search from `start_index` to `end_index` in the grid of `height`
    /// rows and `width` columns whose walls are `cells`, row by row.
    pub fn new(
        height: u32,
        width: u32,
        start_index: usize,
        end_index: usize,
        cells: Vec<Cell>,
    ) -> (r: Pathfinder)
        requires
            height as int * width as int <= u32::MAX,
            start_index < height as int * width as int,
            end_index < height as int * width as int,
            cells@.len() == height as int * width as int,
        ensures
            r@ == SearchState::initial(height, width, start_index, end_index, cells@),
            r.wf(),
    {
        assert(width > 0 && height > 0) by (nonlinear_arith)
            requires
                0 <= start_index < height as int * width as int,
        ;
        let universe_size: usize = (height * width) as usize;
        let mut open_set: Vec<PathfinderNode> = Vec::new();
        open_set.push(PathfinderNode { index: start_index, f_score: Some(0) });

        let came_from: Vec<Option<usize>> = filled(universe_size, None);

        let mut g_score: Vec<Option<u128>> = filled(universe_size, None);
        g_score[start_index] = Some(0);

        let mut f_score: Vec<Option<u128>> = filled(universe_size, None);
        f_score[start_index] = Some(width as u128 + height as u128);

        let r = Pathfinder {
            height,
            width,
            start_index,
            end_index,
            cells,
            open_set,
            closed_set: Vec::new(),
            came_from,
            g_score,
            f_score,
            done: false,
            current: start_index,
        };
        proof {
            let s = SearchState::initial(height, width, start_index, end_index, cells@);
            assert(r@.open =~= s.open);
            assert(r@.closed =~= s.closed);
            assert(r@ == s);
        }
        r
    }

    pub fn done(&self) -> (r: bool)
        ensures
            r == self@.done,
    {
        self.done
    }

    /// The cell that was finalized last; before the first step, the start.
    pub fn current(&self) -> (r: usize)
        ensures
            r == self@.current,
    {
        self.current
    }

    pub fn start_index(&self) -> (r: usize)
        ensures
            r == self@.start,
    {
        self.start_index
    }

    pub fn end_index(&self) -> (r: usize)
        ensures
            r == self@.end,
    {
        self.end_index
    }

    pub fn index_to_coordinates_row(&self, index: usize) -> (r: u32)
        requires
            self.wf(),
        ensures
            r == self@.row(index),
            r == (index as u32) / self@.width,
    {
        index as u32 / self.width
    }

    pub fn index_to_coordinates_col(&self, index: usize) -> (r: u32)
        requires
            self.wf(),
        ensures
            r == self@.col(index),
            r == (index as u32) % self@.width,
    {
        index as u32 % self.width
    }

    fn index_to_coordinates(&self, index: usize) -> (r: (u32, u32))
        requires
            self.wf(),
        ensures
            r == (self@.row(index), self@.col(index)),
    {
        (self.index_to_coordinates_row(index), self.index_to_coordinates_col(index))
    }

    /// Whether the frontier holds an entry for the cell `index`.
    fn open_set_contains(&self, index: usize) -> (r: bool)
        ensures
            r == open_contains(self@.open, index),
    {
        let mut k: usize = 0;
        while k < self.open_set.len()
            invariant
                k <= self.open_set@.len(),
                forall|j: int| 0 <= j < k ==> (#[trigger] self.open_set@[j]).index != index,
            decreases self.open_set@.len() - k,
        {
            if self.open_set[k].index == index {
                return true;
            }
            k += 1;
        }
        false
    }

    /// The position in the frontier of the entry that leaves it next.
    fn min_position(&self) -> (r: usize)
        requires
            self@.open.len() > 0,
        ensures
            r == min_pos(self@.open),
            r < self@.open.len(),
    {
        let mut best: usize = 0;
        let mut j: usize = 1;
        assert(self.open_set@.take(1).len() == 1);
        while j < self.open_set.len()
            invariant
                1 <= j <= self.open_set@.len(),
                best < j,
                best == min_pos(self.open_set@.take(j as int)),
            decreases self.open_set@.len() - j,
        {
            proof {
                let next = self.open_set@.take(j + 1);
                assert(next.drop_last() =~= self.open_set@.take(j as int));
                assert(next.last() == self.open_set@[j as int]);
                assert(next[best as int] == self.open_set@[best as int]);
            }
            if self.open_set[j].before(&self.open_set[best]) {
                best = j;
            }
            j += 1;
        }
        assert(self.open_set@.take(j as int) =~= self.open_set@);
        best
    }

    /// The cells that can be entered from the current one.
    pub fn neighbors(&self) -> (r: Vec<usize>)
        requires
            self.wf(),
        ensures
            r@ == self@.open_neighbors(self@.current),
            forall|j: int| 0 <= j < r@.len() ==> r@[j] < self@.size(),
    {
        let (row, col) = self.index_to_coordinates(self.current);
        proof {
            lemma_grid(self.current as int, self.height as int, self.width as int);
        }
        let mut neighbors: Vec<usize> = Vec::new();
        let cell = self.cells[self.current];
        let width: usize = self.width as usize;

        if row > 0 && !cell.has_wall(Direction::Up) {
            neighbors.push(self.current - width);
        }
        if col > 0 && !cell.has_wall(Direction::Left) {
            neighbors.push(self.current - 1);
        }
        if row < self.height - 1 && !cell.has_wall(Direction::Down) {
            neighbors.push(self.current + width);
        }
        if col < self.width - 1 && !cell.has_wall(Direction::Right) {
            neighbors.push(self.current + 1);
        }
        neighbors
    }

    /// Weighs the step from `current` to `neighbor`.
    fn relax(&mut self, current: usize, neighbor: usize)
        requires
            old(self).wf(),
            current < old(self)@.size(),
            neighbor < old(self)@.size(),
            old(self)@.open_neighbors(current).contains(neighbor),
            old(self)@.g[current as int] is Some,
            old(self)@.g[current as int].unwrap() < old(self)@.closed.len(),
        ensures
            final(self)@ == old(self)@.relax(current, neighbor),
            final(self).wf(),
    {
        proof {
            lemma_relax_wf(self@, current, neighbor);
            lemma_grid(neighbor as int, self.height as int, self.width as int);
            lemma_grid(self.end_index as int, self.height as int, self.width as int);
        }
        let tentative_g_score: u128 = self.g_score[current].unwrap() + 1;
        let improves = match self.g_score[neighbor] {
            None => true,
            Some(g) => tentative_g_score < g,
        };
        if improves {
            let distance: u64 = manhattan_distance(
                self.index_to_coordinates(neighbor),
                self.index_to_coordinates(self.end_index),
            );
            let f: u128 = tentative_g_score + distance as u128;
            self.came_from[neighbor] = Some(current);
            self.g_score[neighbor] = Some(tentative_g_score);
            self.f_score[neighbor] = Some(f);
            if !self.open_set_contains(neighbor) {
                self.open_set.push(PathfinderNode { index: neighbor, f_score: Some(f) });
            }
        }
    }

    /// Advances the search by one step. A search that is done stays as it
    /// is. One that stands at the goal, or has nothing left to look at, is
    /// marked as done. Otherwise the least entry of the frontier is taken
    /// out, made the current cell and added to the closed list, the steps to
    /// its neighbors are weighed, and the cell is returned.
    pub fn tick(&mut self) -> (r: Option<usize>)
        requires
            old(self).wf(),
        ensures
            final(self).wf(),
            final(self)@ == old(self)@.step(),
            r == old(self)@.step_result(),
            old(self)@.done ==> final(self)@ == old(self)@ && r is None,
            final(self)@.height == old(self)@.height,
            final(self)@.width == old(self)@.width,
            final(self)@.start == old(self)@.start,
            final(self)@.end == old(self)@.end,
            final(self)@.cells == old(self)@.cells,
    {
        if self.done {
            return None;
        }
        if self.current == self.end_index || self.open_set.len() == 0 {
            self.done = true;
            proof {
                lemma_finish_wf(old(self)@);
            }
            return None;
        }
        let position = self.min_position();
        let current = self.open_set.remove(position);
        self.current = current.index;
        self.closed_set.push(current.index);
        let ghost popped = self@;
        proof {
            assert(self.closed_set.len() == old(self)@.closed.len() + 1);
            lemma_popped_wf(old(self)@);
        }
        assert(popped == old(self)@.popped());
        assert(popped.wf());

        let neighbors = self.neighbors();
        let mut i: usize = 0;
        while i < neighbors.len()
            invariant
                i <= neighbors@.len(),
                neighbors@ == popped.open_neighbors(current.index),
                forall|j: int| 0 <= j < neighbors@.len() ==> neighbors@[j] < popped.size(),
                popped.wf(),
                current.index < popped.size(),
                self.wf(),
                self@ == popped.relax_all(current.index, neighbors@.take(i as int)),
                self@.height == popped.height,
                self@.width == popped.width,
                self@.cells == popped.cells,
                self@.start == popped.start,
                self@.end == popped.end,
                self@.closed == popped.closed,
                self@.g[current.index as int] == popped.g[current.index as int],
                popped.g[current.index as int] is Some,
                popped.g[current.index as int].unwrap() < popped.closed.len(),
            decreases neighbors@.len() - i,
        {
            let neighbor = neighbors[i];
            proof {
                assert(popped.open_neighbors(current.index).contains(neighbors@[i as int]));
                lemma_relax_wf(self@, current.index, neighbor);
                assert(neighbors@.take(i + 1).drop_last() =~= neighbors@.take(i as int));
            }
            self.relax(current.index, neighbor);
            i += 1;
        }
        assert(neighbors@.take(i as int) =~= neighbors@);
        Some(current.index)
    }

    /// The path from the start to the current cell, or no cell at all once
    /// the search has ended elsewhere than at the goal.
    pub fn path_rust(&self) -> (r: Vec<u32>)
        requires
            self.wf(),
        ensures
            r@ == self@.path(),
            self@.done && self@.current != self@.end ==> r@.len() == 0,
            !(self@.done && self@.current != self@.end) ==> r@.len() >= 1 && r@[0] == self@.start
                && r@[r@.len() - 1] == self@.current,
    {
        if self.done && self.current != self.end_index {
            return Vec::new();
        }
        let mut back: Vec<u32> = Vec::new();
        let mut current = self.current;

        while current != self.start_index
            invariant
                self.wf(),
                current < self@.size(),
                self@.g[current as int] is Some,
                back@ + self@.back_chain(current) == self@.back_chain(self@.current),
                back@.len() > 0 ==> back@[0] == self@.current,
                back@.len() == 0 ==> current == self@.current,
            decreases self@.g[current as int].unwrap(),
        {
            proof {
                assert(self@.linked(current as int));
                assert(back@.push(current as u32) + self@.back_chain(
                    self@.came_from[current as int].unwrap(),
                ) =~= back@ + self@.back_chain(current));
            }
            back.push(current as u32);
            current = self.came_from[current].unwrap();
        }
        back.push(self.start_index as u32);
        assert(back@ =~= self@.back_chain(self@.current));

        let mut path: Vec<u32> = Vec::new();
        let mut i: usize = back.len();
        while i > 0
            invariant
                i <= back@.len(),
                path@.len() == back@.len() - i,
                forall|j: int| 0 <= j < path@.len() ==> path@[j] == back@[back@.len() - 1 - j],
            decreases i,
        {
            i -= 1;
            path.push(back[i]);
        }
        assert(path@ =~= back@.reverse());
        path
    }
}

} // verus!
