use crate::a_star::{
    after_steps, lemma_back_chain_ends, lemma_back_chain_follows_passages, lemma_min_pos_is_least, lemma_open_neighbors_in_grid, lemma_popped_wf,
    lemma_relax_all_wf, lemma_relax_wf, lemma_step_wf, SearchState,
};
use crate::cell::Cell;
use vstd::prelude::*;
use vstd::set_lib::{lemma_int_range, lemma_len_subset, set_int_range};

verus! {

/// What a cost counts for in the measure of a search of `n` cells: itself,
/// and `n` where the cell was not reached.
pub open spec fn weight(g: Option<u128>, n: int) -> int {
    if g is Some {
        g.unwrap() as int
    } else {
        n
    }
}

/// The sum of the weights of the costs.
pub open spec fn cost_sum(g: Seq<Option<u128>>, n: int) -> int
    decreases g.len(),
{
    if g.len() == 0 {
        0
    } else {
        cost_sum(g.drop_last(), n) + weight(g.last(), n)
    }
}

/// The measure of a search: every step that finalizes a cell makes it
/// smaller.
pub open spec fn potential(s: SearchState) -> int {
    cost_sum(s.g, s.size()) + s.open.len()
}

/// `p` holds as many cells as the cost of the cell `i` plus one, no cell
/// twice, and each at a place that is no less than its cost.
pub open spec fn track_ok(s: SearchState, i: int, p: Seq<int>) -> bool {
    &&& p.len() == s.g[i].unwrap() + 1
    &&& p.no_duplicates()
    &&& forall|k: int|
        0 <= k < p.len() ==> 0 <= (#[trigger] p[k]) < s.size() && s.g[p[k]] is Some
            && s.g[p[k]].unwrap() <= k
}

/// The cost of the cell `i` is borne out by some sequence of cells.
pub open spec fn has_track(s: SearchState, i: int) -> bool {
    exists|p: Seq<int>| track_ok(s, i, p)
}

/// Every cost of the search is borne out by cells that differ from each
/// other, so that no cost reaches the number of cells.
pub open spec fn borne_out(s: SearchState) -> bool {
    forall|i: int| 0 <= i < s.size() && s.g[i] is Some ==> #[trigger] has_track(s, i)
}

/// A cost that is borne out is less than the number of cells.
pub proof fn lemma_track_bound(s: SearchState, i: int, p: Seq<int>)
    requires
        track_ok(s, i, p),
        0 <= s.size(),
    ensures
        s.g[i].unwrap() + 1 <= s.size(),
{
    let all = set_int_range(0, s.size());
    p.unique_seq_to_set();
    lemma_int_range(0, s.size());
    assert forall|x: int| p.to_set().contains(x) implies all.contains(x) by {
        let k = choose|k: int| 0 <= k < p.len() && p[k] == x;
        assert(0 <= p[k] < s.size());
    }
    lemma_len_subset(p.to_set(), all);
}

/// Replacing one cost changes the sum by the difference of the weights.
pub proof fn lemma_cost_sum_update(g: Seq<Option<u128>>, i: int, v: Option<u128>, n: int)
    requires
        0 <= i < g.len(),
    ensures
        cost_sum(g.update(i, v), n) + weight(g[i], n) == cost_sum(g, n) + weight(v, n),
    decreases g.len(),
{
    let after = g.update(i, v);
    if i == g.len() - 1 {
        assert(after.drop_last() =~= g.drop_last());
    } else {
        assert(after.drop_last() =~= g.drop_last().update(i, v));
        lemma_cost_sum_update(g.drop_last(), i, v, n);
    }
}

/// The sum of the weights is not negative, and where no cell was reached but
/// one, at cost 0, it is less than the square of the number of cells.
pub proof fn lemma_cost_sum_bounds(g: Seq<Option<u128>>, n: int)
    requires
        0 <= n,
    ensures
        0 <= cost_sum(g, n),
        (forall|i: int| 0 <= i < g.len() ==> g[i] is None || g[i] == Some(0u128)) ==> cost_sum(
            g,
            n,
        ) <= n * g.len(),
    decreases g.len(),
{
    if g.len() > 0 {
        lemma_cost_sum_bounds(g.drop_last(), n);
        if forall|i: int| 0 <= i < g.len() ==> g[i] is None || g[i] == Some(0u128) {
            assert forall|i: int| 0 <= i < g.drop_last().len() implies g.drop_last()[i] is None
                || g.drop_last()[i] == Some(0u128) by {
                assert(g.drop_last()[i] == g[i]);
            }
            assert(g.last() is None || g.last() == Some(0u128));
            assert(n * (g.len() - 1) + n == n * g.len()) by (nonlinear_arith);
        }
    } else {
        assert(n * 0 == 0) by (nonlinear_arith);
    }
}

/// Weighing one step keeps every cost borne out and does not raise the
/// measure.
pub proof fn lemma_relax_borne_out(s: SearchState, current: usize, neighbor: usize)
    requires
        s.wf(),
        borne_out(s),
        current < s.size(),
        neighbor < s.size(),
        s.open_neighbors(current).contains(neighbor),
        s.g[current as int] is Some,
        s.g[current as int].unwrap() < s.closed.len(),
    ensures
        borne_out(s.relax(current, neighbor)),
        potential(s.relax(current, neighbor)) <= potential(s),
{
    let t = s.relax(current, neighbor);
    lemma_relax_wf(s, current, neighbor);
    let tentative = s.g[current as int].unwrap() + 1;
    let nb = neighbor as int;
    if s.g[nb] is None || tentative < s.g[nb].unwrap() {
        assert(has_track(s, current as int));
        let pc = choose|p: Seq<int>| track_ok(s, current as int, p);
        let pn = pc.push(nb);
        assert(t.g[nb] == Some(tentative as u128));
        assert(t.size() == s.size());
        assert forall|k: int| 0 <= k < pc.len() implies pc[k] != nb by {
            assert(0 <= pc[k] < s.size());
        }
        assert forall|k: int| 0 <= k < pn.len() implies 0 <= (#[trigger] pn[k]) < t.size()
            && t.g[pn[k]] is Some && t.g[pn[k]].unwrap() <= k by {
            if k < pc.len() {
                assert(pn[k] == pc[k]);
                assert(0 <= pc[k] < s.size());
            }
        }
        assert forall|a: int, b: int| 0 <= a < pn.len() && 0 <= b < pn.len() && a != b implies pn[a]
            != pn[b] by {
            if a < pc.len() {
                assert(pn[a] == pc[a]);
            }
            if b < pc.len() {
                assert(pn[b] == pc[b]);
            }
        }
        assert(track_ok(t, nb, pn));
        assert forall|i: int| 0 <= i < t.size() && t.g[i] is Some implies #[trigger] has_track(
            t,
            i,
        ) by {
            if i != nb {
                assert(has_track(s, i));
                let p = choose|p: Seq<int>| track_ok(s, i, p);
                assert forall|k: int| 0 <= k < p.len() implies 0 <= (#[trigger] p[k]) < t.size()
                    && t.g[p[k]] is Some && t.g[p[k]].unwrap() <= k by {
                    assert(0 <= p[k] < s.size());
                }
                assert(track_ok(t, i, p));
            }
        }
        lemma_track_bound(t, nb, pn);
        lemma_cost_sum_update(s.g, nb, Some(tentative as u128), s.size());
    }
}

/// Weighing the steps to the neighbors of a cell keeps every cost borne out
/// and does not raise the measure.
pub proof fn lemma_relax_all_borne_out(s: SearchState, current: usize, neighbors: Seq<usize>)
    requires
        s.wf(),
        borne_out(s),
        current < s.size(),
        forall|j: int| 0 <= j < neighbors.len() ==> neighbors[j] < s.size(),
        forall|j: int|
            0 <= j < neighbors.len() ==> s.open_neighbors(current).contains(#[trigger] neighbors[j]),
        s.g[current as int] is Some,
        s.g[current as int].unwrap() < s.closed.len(),
    ensures
        borne_out(s.relax_all(current, neighbors)),
        potential(s.relax_all(current, neighbors)) <= potential(s),
    decreases neighbors.len(),
{
    if neighbors.len() > 0 {
        let rest = neighbors.drop_last();
        assert forall|j: int| 0 <= j < rest.len() implies s.open_neighbors(current).contains(
            #[trigger] rest[j],
        ) by {
            assert(rest[j] == neighbors[j]);
        }
        lemma_relax_all_wf(s, current, rest);
        lemma_relax_all_borne_out(s, current, rest);
        assert(s.open_neighbors(current).contains(neighbors[neighbors.len() - 1]));
        lemma_relax_borne_out(s.relax_all(current, rest), current, neighbors.last());
    }
}

/// A step keeps every cost borne out. One that finalizes a cell lowers the
/// measure, and any other step ends the search.
pub proof fn lemma_step_borne_out(s: SearchState)
    requires
        s.wf(),
        borne_out(s),
        s.closed.len() < usize::MAX,
    ensures
        s.step().wf(),
        borne_out(s.step()),
        s.step().closed.len() <= s.closed.len() + 1,
        s.idle() ==> s.step().done,
        !s.idle() ==> potential(s.step()) + 1 <= potential(s),
{
    lemma_step_wf(s);
    if s.done {
    } else if s.idle() {
        let t = s.step();
        assert forall|i: int| 0 <= i < t.size() && t.g[i] is Some implies #[trigger] has_track(
            t,
            i,
        ) by {
            assert(has_track(s, i));
            let p = choose|p: Seq<int>| track_ok(s, i, p);
            assert(track_ok(t, i, p));
        }
    } else {
        lemma_popped_wf(s);
        lemma_min_pos_is_least(s.open);
        let p = s.popped();
        assert(p.open.len() + 1 == s.open.len());
        assert(potential(p) + 1 == potential(s));
        assert forall|i: int| 0 <= i < p.size() && p.g[i] is Some implies #[trigger] has_track(
            p,
            i,
        ) by {
            assert(has_track(s, i));
            let q = choose|q: Seq<int>| track_ok(s, i, q);
            assert(track_ok(p, i, q));
        }
        lemma_open_neighbors_in_grid(p, p.current);
        assert forall|j: int| 0 <= j < p.open_neighbors(p.current).len() implies p.open_neighbors(
            p.current,
        ).contains(#[trigger] p.open_neighbors(p.current)[j]) by {}
        lemma_relax_all_wf(p, p.current, p.open_neighbors(p.current));
        lemma_relax_all_borne_out(p, p.current, p.open_neighbors(p.current));
    }
}

/// After `n` steps a search is done, or its measure is smaller by `n`.
pub proof fn lemma_search_progress(s: SearchState, n: nat)
    requires
        s.wf(),
        borne_out(s),
        s.closed.len() + n <= usize::MAX,
    ensures
        after_steps(s, n).wf(),
        borne_out(after_steps(s, n)),
        after_steps(s, n).closed.len() <= s.closed.len() + n,
        after_steps(s, n).done || potential(after_steps(s, n)) + n <= potential(s),
        after_steps(s, n).cells == s.cells,
        after_steps(s, n).height == s.height,
        after_steps(s, n).width == s.width,
        after_steps(s, n).start == s.start,
        after_steps(s, n).end == s.end,
    decreases n,
{
    if n > 0 {
        lemma_search_progress(s, (n - 1) as nat);
        lemma_step_borne_out(after_steps(s, (n - 1) as nat));
        lemma_step_wf(after_steps(s, (n - 1) as nat));
    }
}

/// Every search ends: after as many steps as its measure says, and one
/// more, it is done, whatever the walls of the grid are and whether or not
/// the goal can be reached.
pub proof fn lemma_search_terminates(s: SearchState)
    requires
        s.wf(),
        borne_out(s),
        s.closed.len() + potential(s) + 1 <= usize::MAX,
    ensures
        0 <= potential(s),
        after_steps(s, (potential(s) + 1) as nat).done,
{
    lemma_cost_sum_bounds(s.g, s.size());
    let n = (potential(s) + 1) as nat;
    lemma_search_progress(s, n);
    lemma_cost_sum_bounds(after_steps(s, n).g, after_steps(s, n).size());
}

/// A search of `h * w` cells that starts anew is done after at most
/// `(h * w) * (h * w) + 2` steps.
pub proof fn lemma_new_search_terminates(
    height: u32,
    width: u32,
    start: usize,
    end: usize,
    cells: Seq<Cell>,
)
    requires
        SearchState::initial(height, width, start, end, cells).wf(),
        (height as int * width as int) * (height as int * width as int) + 2 <= usize::MAX,
    ensures
        after_steps(
            SearchState::initial(height, width, start, end, cells),
            ((height as int * width as int) * (height as int * width as int) + 2) as nat,
        ).done,
{
    let s = SearchState::initial(height, width, start, end, cells);
    let n = s.size();
    assert forall|i: int| 0 <= i < s.size() && s.g[i] is Some implies #[trigger] has_track(
        s,
        i,
    ) by {
        assert(i == start);
        let p = seq![i];
        assert(track_ok(s, i, p));
    }
    lemma_cost_sum_bounds(s.g, n);
    assert(potential(s) <= n * n + 1);
    lemma_search_terminates(s);
    let k = (potential(s) + 1) as nat;
    let m = (n * n + 2) as nat;
    lemma_done_stays(s, k, (m - k) as nat);
}

/// Whether `way` leads from the start of the search to its goal, each cell
/// entered from the one before it.
pub open spec fn is_way(s: SearchState, way: Seq<usize>) -> bool {
    &&& way.len() >= 1
    &&& way[0] == s.start
    &&& way[way.len() - 1] == s.end
    &&& forall|k: int|
        1 <= k < way.len() ==> s.open_neighbors(way[k - 1]).contains(#[trigger] way[k])
}

/// A search that stands at its goal has found a way there from the start.
pub proof fn lemma_goal_reached_by_a_way(s: SearchState)
    requires
        s.wf(),
        s.current == s.end,
    ensures
        exists|way: Seq<usize>| is_way(s, way),
{
    lemma_back_chain_ends(s, s.current);
    lemma_back_chain_follows_passages(s, s.current);
    let chain = s.back_chain(s.current);
    let n = chain.len();
    let way = Seq::new(n, |k: int| chain[n - 1 - k] as usize);
    assert((s.start as u32) as usize == s.start);
    assert((s.end as u32) as usize == s.end);
    assert forall|k: int| 1 <= k < way.len() implies s.open_neighbors(way[k - 1]).contains(
        #[trigger] way[k],
    ) by {
        let j = n - k;
        assert(s.open_neighbors(chain[j] as usize).contains(chain[j - 1] as usize));
    }
    assert(is_way(s, way));
}

/// Where no way leads from the start to the goal, the search ends without
/// ever standing at the goal, and reports no path from then on.
pub proof fn lemma_unreachable_goal_gives_no_path(s: SearchState, n: nat)
    requires
        s.wf(),
        borne_out(s),
        s.closed.len() + n <= usize::MAX,
        n >= potential(s) + 1,
        forall|way: Seq<usize>| !is_way(s, way),
    ensures
        after_steps(s, n).done,
        after_steps(s, n).current != s.end,
        after_steps(s, n).path() == Seq::<u32>::empty(),
{
    let t = after_steps(s, n);
    lemma_search_progress(s, n);
    lemma_cost_sum_bounds(t.g, t.size());
    if t.current == t.end {
        lemma_goal_reached_by_a_way(t);
        let way = choose|way: Seq<usize>| is_way(t, way);
        assert forall|k: int| 1 <= k < way.len() implies s.open_neighbors(way[k - 1]).contains(
            #[trigger] way[k],
        ) by {
            assert(t.open_neighbors(way[k - 1]).contains(way[k]));
            assert(t.open_neighbors(way[k - 1]) == s.open_neighbors(way[k - 1]));
        }
        assert(is_way(s, way));
    }
}

/// A search that is done after `k` steps is done after any more.
pub proof fn lemma_done_stays(s: SearchState, k: nat, more: nat)
    requires
        after_steps(s, k).done,
    ensures
        after_steps(s, k + more).done,
    decreases more,
{
    if more > 0 {
        lemma_done_stays(s, k, (more - 1) as nat);
    }
}

} // verus!
