use crate::a_star::{
    after_steps, lemma_back_chain_follows_passages, lemma_min_pos_is_least, lemma_open_neighbors_in_grid, lemma_popped_wf,
    lemma_relax_all_wf, lemma_relax_wf, lemma_step_wf, SearchState,
};
use crate::cell::Cell;
use crate::termination::is_way;
use vstd::prelude::*;

verus! {

/// Whether the cell `b` can be entered from the cell `a`.
pub open spec fn joined(s: SearchState, a: int, b: int) -> bool {
    s.open_neighbors(a as usize).contains(b as usize)
}

/// The passages that can be walked form a tree around the start, and `d`
/// gives each cell its depth in it: the start has depth 0, a passage can be
/// walked both ways and joins cells whose depths differ by one, and no cell
/// has two passages to cells of smaller depth. A maze whose walls are
/// mirrored and whose passages form a tree that spans the grid has such
/// depths, whichever cell is the start.
pub open spec fn tree_levels(s: SearchState, d: Seq<int>) -> bool {
    &&& d.len() == s.size()
    &&& d[s.start as int] == 0
    &&& forall|i: int| 0 <= i < s.size() ==> 0 <= #[trigger] d[i]
    &&& forall|a: int, b: int|
        0 <= a < s.size() && 0 <= b < s.size() && #[trigger] joined(s, a, b) ==> joined(s, b, a)
            && (d[b] == d[a] + 1 || d[b] + 1 == d[a])
    &&& forall|a: int, b: int, c: int|
        0 <= a < s.size() && 0 <= b < s.size() && 0 <= c < s.size() && #[trigger] joined(s, a, b)
            && #[trigger] joined(s, a, c) && d[b] < d[a] && d[c] < d[a] ==> b == c
}

/// Every cell that was reached was reached at the cost of its depth.
pub open spec fn on_level(s: SearchState, d: Seq<int>) -> bool {
    forall|i: int| 0 <= i < s.size() && (#[trigger] s.g[i]) is Some ==> s.g[i].unwrap() == d[i]
}

/// The number of cells that were not reached.
pub open spec fn blank(g: Seq<Option<u128>>) -> nat
    decreases g.len(),
{
    if g.len() == 0 {
        0
    } else {
        blank(g.drop_last()) + if g.last() is None {
            1nat
        } else {
            0nat
        }
    }
}

/// The cells not reached and the entries of the frontier, counted together:
/// every step that finalizes a cell makes this smaller.
pub open spec fn load(s: SearchState) -> int {
    (blank(s.g) + s.open.len()) as int
}

/// Reaching a cell that was not reached leaves one such cell less.
pub proof fn lemma_blank_update(g: Seq<Option<u128>>, i: int, v: u128)
    requires
        0 <= i < g.len(),
        g[i] is None,
    ensures
        blank(g.update(i, Some(v))) + 1 == blank(g),
    decreases g.len(),
{
    let after = g.update(i, Some(v));
    if i == g.len() - 1 {
        assert(after.drop_last() =~= g.drop_last());
    } else {
        assert(after.drop_last() =~= g.drop_last().update(i, Some(v)));
        lemma_blank_update(g.drop_last(), i, v);
    }
}

/// Where no cell was reached, all are counted.
pub proof fn lemma_blank_all(g: Seq<Option<u128>>)
    requires
        forall|i: int| 0 <= i < g.len() ==> g[i] is None,
    ensures
        blank(g) == g.len(),
    decreases g.len(),
{
    if g.len() > 0 {
        lemma_blank_all(g.drop_last());
    }
}

/// Depths that fit a search fit every search on the same grid from the same
/// start.
pub proof fn lemma_same_grid_levels(s: SearchState, t: SearchState, d: Seq<int>)
    requires
        tree_levels(s, d),
        t.cells == s.cells,
        t.height == s.height,
        t.width == s.width,
        t.start == s.start,
    ensures
        tree_levels(t, d),
{
    assert forall|a: int, b: int| #[trigger] joined(t, a, b) == joined(s, a, b) by {
        assert(t.open_neighbors(a as usize) == s.open_neighbors(a as usize));
    }
    assert forall|a: int, b: int|
        0 <= a < t.size() && 0 <= b < t.size() && #[trigger] joined(t, a, b) implies joined(t, b, a)
        && (d[b] == d[a] + 1 || d[b] + 1 == d[a]) by {
        assert(joined(s, a, b));
        assert(joined(t, b, a) == joined(s, b, a));
    }
    assert forall|a: int, b: int, c: int|
        0 <= a < t.size() && 0 <= b < t.size() && 0 <= c < t.size() && #[trigger] joined(t, a, b)
            && #[trigger] joined(t, a, c) && d[b] < d[a] && d[c] < d[a] implies b == c by {
        assert(joined(s, a, b));
        assert(joined(s, a, c));
    }
}

/// In a tree, weighing a step changes the cost of no cell that was reached,
/// and reaches the neighbor at the cost of its depth where it was not
/// reached.
pub proof fn lemma_relax_on_level(s: SearchState, d: Seq<int>, current: usize, neighbor: usize)
    requires
        s.wf(),
        tree_levels(s, d),
        on_level(s, d),
        current < s.size(),
        neighbor < s.size(),
        s.open_neighbors(current).contains(neighbor),
        s.g[current as int] is Some,
        s.g[current as int].unwrap() < s.closed.len(),
    ensures
        on_level(s.relax(current, neighbor), d),
        tree_levels(s.relax(current, neighbor), d),
        load(s.relax(current, neighbor)) <= load(s),
{
    let t = s.relax(current, neighbor);
    lemma_relax_wf(s, current, neighbor);
    lemma_same_grid_levels(s, t, d);
    let cur = current as int;
    let nb = neighbor as int;
    assert(joined(s, cur, nb));
    if d[nb] + 1 == d[cur] {
        assert(0 <= d[nb]);
        assert(cur != s.start);
        assert(s.linked(cur));
        let p = s.came_from[cur].unwrap() as int;
        assert(joined(s, p, cur));
        assert(joined(s, cur, p));
        assert(p == nb);
    }
    let tentative = s.g[cur].unwrap() + 1;
    if s.g[nb] is None || tentative < s.g[nb].unwrap() {
        assert(s.g[nb] is None);
        lemma_blank_update(s.g, nb, tentative as u128);
    }
}

/// In a tree, weighing the steps to the neighbors of a cell keeps every cost
/// at the depth of its cell and does not raise the load.
pub proof fn lemma_relax_all_on_level(
    s: SearchState,
    d: Seq<int>,
    current: usize,
    neighbors: Seq<usize>,
)
    requires
        s.wf(),
        tree_levels(s, d),
        on_level(s, d),
        current < s.size(),
        forall|j: int| 0 <= j < neighbors.len() ==> neighbors[j] < s.size(),
        forall|j: int|
            0 <= j < neighbors.len() ==> s.open_neighbors(current).contains(#[trigger] neighbors[j]),
        s.g[current as int] is Some,
        s.g[current as int].unwrap() < s.closed.len(),
    ensures
        on_level(s.relax_all(current, neighbors), d),
        tree_levels(s.relax_all(current, neighbors), d),
        load(s.relax_all(current, neighbors)) <= load(s),
    decreases neighbors.len(),
{
    if neighbors.len() > 0 {
        let rest = neighbors.drop_last();
        assert forall|j: int| 0 <= j < rest.len() implies s.open_neighbors(current).contains(
            #[trigger] rest[j],
        ) by {
            assert(rest[j] == neighbors[j]);
        }
        lemma_relax_all_wf(s, current, rest);
        lemma_relax_all_on_level(s, d, current, rest);
        assert(s.open_neighbors(current).contains(neighbors[neighbors.len() - 1]));
        lemma_relax_on_level(s.relax_all(current, rest), d, current, neighbors.last());
    }
}

/// In a tree, a step keeps every cost at the depth of its cell. One that
/// finalizes a cell lowers the load, and any other step ends the search.
pub proof fn lemma_step_on_level(s: SearchState, d: Seq<int>)
    requires
        s.wf(),
        tree_levels(s, d),
        on_level(s, d),
        s.closed.len() < usize::MAX,
    ensures
        s.step().wf(),
        tree_levels(s.step(), d),
        on_level(s.step(), d),
        s.step().closed.len() <= s.closed.len() + 1,
        s.idle() ==> s.step().done,
        !s.idle() ==> load(s.step()) + 1 <= load(s),
{
    lemma_step_wf(s);
    lemma_same_grid_levels(s, s.step(), d);
    if s.done {
    } else if s.idle() {
    } else {
        lemma_popped_wf(s);
        lemma_min_pos_is_least(s.open);
        let p = s.popped();
        assert(p.open.len() + 1 == s.open.len());
        lemma_same_grid_levels(s, p, d);
        lemma_open_neighbors_in_grid(p, p.current);
        assert forall|j: int| 0 <= j < p.open_neighbors(p.current).len() implies p.open_neighbors(
            p.current,
        ).contains(#[trigger] p.open_neighbors(p.current)[j]) by {}
        lemma_relax_all_on_level(p, d, p.current, p.open_neighbors(p.current));
    }
}

/// In a tree, a search is done after `n` steps, or its load is smaller by
/// `n`.
pub proof fn lemma_tree_search_progress(s: SearchState, d: Seq<int>, n: nat)
    requires
        s.wf(),
        tree_levels(s, d),
        on_level(s, d),
        s.closed.len() + n <= usize::MAX,
    ensures
        after_steps(s, n).wf(),
        tree_levels(after_steps(s, n), d),
        on_level(after_steps(s, n), d),
        after_steps(s, n).closed.len() <= s.closed.len() + n,
        after_steps(s, n).done || load(after_steps(s, n)) + n <= load(s),
        after_steps(s, n).cells == s.cells,
        after_steps(s, n).height == s.height,
        after_steps(s, n).width == s.width,
        after_steps(s, n).start == s.start,
        after_steps(s, n).end == s.end,
    decreases n,
{
    if n > 0 {
        lemma_tree_search_progress(s, d, (n - 1) as nat);
        lemma_step_on_level(after_steps(s, (n - 1) as nat), d);
        lemma_step_wf(after_steps(s, (n - 1) as nat));
    }
}

/// In a tree, a way from the start has not gone deeper than it has made
/// moves.
pub proof fn lemma_way_depth(s: SearchState, d: Seq<int>, way: Seq<usize>, k: int)
    requires
        s.wf(),
        tree_levels(s, d),
        way.len() >= 1,
        way[0] == s.start,
        forall|j: int|
            1 <= j < way.len() ==> s.open_neighbors(way[j - 1]).contains(#[trigger] way[j]),
        0 <= k < way.len(),
    ensures
        way[k] < s.size(),
        d[way[k] as int] <= k,
    decreases k,
{
    if k > 0 {
        lemma_way_depth(s, d, way, k - 1);
        lemma_open_neighbors_in_grid(s, way[k - 1]);
        assert(s.open_neighbors(way[k - 1]).contains(way[k]));
        assert(joined(s, way[k - 1] as int, way[k] as int));
    }
}

/// In a tree, the path that a search reports when it stands at the goal has
/// no more cells than any way from the start to the goal: it is a shortest
/// one.
pub proof fn lemma_tree_path_is_shortest(s: SearchState, d: Seq<int>, way: Seq<usize>)
    requires
        s.wf(),
        tree_levels(s, d),
        on_level(s, d),
        s.current == s.end,
        is_way(s, way),
    ensures
        s.path().len() <= way.len(),
{
    lemma_back_chain_follows_passages(s, s.current);
    lemma_way_depth(s, d, way, way.len() - 1);
    assert(s.path().len() == s.back_chain(s.current).len());
}

/// Whenever a new search through a maze whose passages form a tree stands
/// at the goal, the path it reports is a shortest one.
pub proof fn lemma_perfect_maze_path_is_shortest(
    height: u32,
    width: u32,
    start: usize,
    end: usize,
    cells: Seq<Cell>,
    d: Seq<int>,
    n: nat,
    way: Seq<usize>,
)
    requires
        SearchState::initial(height, width, start, end, cells).wf(),
        tree_levels(SearchState::initial(height, width, start, end, cells), d),
        n <= usize::MAX,
        after_steps(SearchState::initial(height, width, start, end, cells), n).current == end,
        is_way(SearchState::initial(height, width, start, end, cells), way),
    ensures
        after_steps(SearchState::initial(height, width, start, end, cells), n).path().len()
            <= way.len(),
{
    let s = SearchState::initial(height, width, start, end, cells);
    let t = after_steps(s, n);
    lemma_tree_search_progress(s, d, n);
    assert forall|k: int| 1 <= k < way.len() implies t.open_neighbors(way[k - 1]).contains(
        #[trigger] way[k],
    ) by {
        assert(s.open_neighbors(way[k - 1]).contains(way[k]));
        assert(t.open_neighbors(way[k - 1]) == s.open_neighbors(way[k - 1]));
    }
    assert(is_way(t, way));
    lemma_tree_path_is_shortest(t, d, way);
}

/// A new search through a maze whose passages form a tree is done after at
/// most `h * w + 1` steps: no cell is reached at two costs, so each cell
/// enters the frontier once at most.
pub proof fn lemma_perfect_maze_search_ends(
    height: u32,
    width: u32,
    start: usize,
    end: usize,
    cells: Seq<Cell>,
    d: Seq<int>,
)
    requires
        SearchState::initial(height, width, start, end, cells).wf(),
        tree_levels(SearchState::initial(height, width, start, end, cells), d),
        height as int * width as int + 1 <= usize::MAX,
    ensures
        after_steps(
            SearchState::initial(height, width, start, end, cells),
            (height as int * width as int + 1) as nat,
        ).done,
{
    let s = SearchState::initial(height, width, start, end, cells);
    let n = s.size();
    let none = Seq::new(n as nat, |i: int| None::<u128>);
    lemma_blank_all(none);
    lemma_blank_update(none, start as int, 0u128);
    assert(load(s) == n);
    lemma_tree_search_progress(s, d, (n + 1) as nat);
}

} // verus!
