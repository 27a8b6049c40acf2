//! Sparse-dense hybrid search: a greedy NSW graph whose traversal uses either
//! the fused hybrid distance, or the dense distance followed by a hybrid
//! re-ranking of the candidates.
use vstd::prelude::*;
use crate::nsw::{ids_exec, ids_of};
use crate::nsw_search::{count_false, lemma_count_false_le, lemma_count_false_new, lemma_count_false_update};
use crate::oracle::{ask, ask_pair, is_oracle, is_pair_oracle, key_of, pair_key_of, score_positions, scored_positions};
use crate::rank::{Scored, keys_of, lemma_count_distinct, lemma_top_k_same_items, lemma_map_multiset, lemma_sort_ranked_properties, lemma_top_k_from_input, lemma_top_k_ids_distinct, lemma_top_k_properties, sort_ranked, top_k_ascending, top_k_spec};

verus! {

/// Controls which distance is computed during graph traversal.
#[derive(Clone, Copy, Debug)]
pub enum SearchMode {
    /// Always use the full hybrid distance during traversal and reranking.
    HybridFull,
    /// Use only the dense component during traversal, then hybrid-rerank top candidates.
    TwoStage { candidates_factor: usize },
}

/// Position of the first entry with the smallest key.
pub open spec fn first_min_pos(s: Seq<Scored>) -> int
    decreases s.len(),
{
    if s.len() <= 1 {
        0
    } else {
        let m = first_min_pos(s.drop_last());
        if s.last().1 < s[m].1 {
            s.len() - 1
        } else {
            m
        }
    }
}

/// Position of the last entry with the largest key.
pub open spec fn last_max_pos(s: Seq<Scored>) -> int
    decreases s.len(),
{
    if s.len() <= 1 {
        0
    } else {
        let m = last_max_pos(s.drop_last());
        if s[m].1 <= s.last().1 {
            s.len() - 1
        } else {
            m
        }
    }
}

/// The largest key of a non-empty list.
pub open spec fn max_key(s: Seq<Scored>) -> u64 {
    s[last_max_pos(s)].1
}

/// Removes the entry at `i` by moving the last entry into its place.
pub open spec fn swap_removed(s: Seq<Scored>, i: int) -> Seq<Scored> {
    s.update(i, s.last()).drop_last()
}

proof fn lemma_first_min_pos(s: Seq<Scored>)
    requires
        s.len() > 0,
    ensures
        0 <= first_min_pos(s) < s.len(),
    decreases s.len(),
{
    if s.len() > 1 {
        lemma_first_min_pos(s.drop_last());
    }
}

proof fn lemma_last_max_pos(s: Seq<Scored>)
    requires
        s.len() > 0,
    ensures
        0 <= last_max_pos(s) < s.len(),
    decreases s.len(),
{
    if s.len() > 1 {
        lemma_last_max_pos(s.drop_last());
    }
}

/// The state of a greedy search: candidates, kept results, visited nodes.
pub struct GreedyState {
    pub cands: Seq<Scored>,
    pub results: Seq<Scored>,
    pub visited: Seq<bool>,
    pub done: bool,
}

/// Visits `nb`: an unvisited node is marked, and kept when it beats the worst
/// result or fewer than `ef` are kept; past `ef`, the last worst result goes.
pub open spec fn greedy_visit(st: GreedyState, nb: usize, dist: spec_fn(usize) -> u64, ef: nat) -> GreedyState {
    if st.visited[nb as int] {
        st
    } else {
        let v = st.visited.update(nb as int, true);
        let d = dist(nb);
        if d < max_key(st.results) || st.results.len() < ef {
            let r = st.results.push((nb, d));
            GreedyState {
                cands: st.cands.push((nb, d)),
                results: if r.len() > ef {
                    swap_removed(r, last_max_pos(r))
                } else {
                    r
                },
                visited: v,
                ..st
            }
        } else {
            GreedyState { visited: v, ..st }
        }
    }
}

pub open spec fn greedy_expand(st: GreedyState, nbrs: Seq<usize>, dist: spec_fn(usize) -> u64, ef: nat) -> GreedyState
    decreases nbrs.len(),
{
    if nbrs.len() == 0 {
        st
    } else {
        greedy_visit(greedy_expand(st, nbrs.drop_last(), dist, ef), nbrs.last(), dist, ef)
    }
}

/// One round: take out the first nearest candidate; stop when it is farther
/// than every result and `ef` results are kept, else visit its neighbours.
pub open spec fn greedy_step(st: GreedyState, adj: Seq<Seq<usize>>, dist: spec_fn(usize) -> u64, ef: nat) -> GreedyState {
    let i = first_min_pos(st.cands);
    let (cur, dmin) = st.cands[i];
    let st1 = GreedyState { cands: swap_removed(st.cands, i), ..st };
    if dmin > max_key(st.results) && st.results.len() >= ef {
        GreedyState { done: true, ..st1 }
    } else {
        greedy_expand(st1, adj[cur as int], dist, ef)
    }
}

pub open spec fn greedy_run(st: GreedyState, adj: Seq<Seq<usize>>, dist: spec_fn(usize) -> u64, ef: nat, fuel: nat) -> GreedyState
    decreases fuel,
{
    if fuel == 0 || st.done || st.cands.len() == 0 {
        st
    } else {
        greedy_run(greedy_step(st, adj, dist, ef), adj, dist, ef, (fuel - 1) as nat)
    }
}

pub open spec fn greedy_measure(st: GreedyState) -> nat {
    st.cands.len() + count_false(st.visited)
}

pub open spec fn greedy_wf(st: GreedyState, n: nat) -> bool {
    &&& st.visited.len() == n
    &&& st.results.len() > 0
    &&& forall|i: int| 0 <= i < st.cands.len() ==> (#[trigger] st.cands[i]).0 < n
    &&& forall|i: int| 0 <= i < st.results.len() ==> (#[trigger] st.results[i]).0 < n
}

pub open spec fn adjacency_wf(adj: Seq<Seq<usize>>) -> bool {
    forall|i: int, j: int| 0 <= i < adj.len() && 0 <= j < adj[i].len() ==> (#[trigger] adj[i][j]) < adj.len()
}

/// The state after entering the graph at node 0.
pub open spec fn greedy_init(n: nat, dist: spec_fn(usize) -> u64) -> GreedyState {
    GreedyState {
        cands: seq![(0usize, dist(0))],
        results: seq![(0usize, dist(0))],
        visited: Seq::new(n, |i: int| false).update(0, true),
        done: false,
    }
}

/// Beam width of a search for `k` results.
pub open spec fn beam_width(mode: SearchMode, k: nat) -> nat {
    match mode {
        SearchMode::HybridFull => k * 4,
        SearchMode::TwoStage { candidates_factor } => k * (candidates_factor as nat),
    }
}

/// The ids a search returns: the `k` nearest results, re-ranked by the
/// hybrid keys in the two-stage mode.
pub open spec fn greedy_answer(
    adj: Seq<Seq<usize>>,
    mode: SearchMode,
    k: nat,
    dense: spec_fn(usize) -> u64,
    hybrid: spec_fn(usize) -> u64,
) -> Seq<usize> {
    let travel = match mode {
        SearchMode::HybridFull => hybrid,
        SearchMode::TwoStage { .. } => dense,
    };
    let ef = beam_width(mode, k);
    let st0 = greedy_init(adj.len(), travel);
    let fin = greedy_run(st0, adj, travel, ef, greedy_measure(st0));
    let ids = ids_of(top_k_spec(fin.results, k as int, false));
    match mode {
        SearchMode::HybridFull => ids,
        SearchMode::TwoStage { .. } => ids_of(
            top_k_spec(ids.map_values(|i: usize| (i, hybrid(i))), ids.len() as int, false),
        ),
    }
}


/// Every entry of `s` carries the key `dist` gives its node.
pub open spec fn keyed(s: Seq<Scored>, dist: spec_fn(usize) -> u64) -> bool {
    forall|i: int| 0 <= i < s.len() ==> (#[trigger] s[i]).1 == dist(s[i].0)
}

proof fn lemma_greedy_visit_keyed(st: GreedyState, nb: usize, dist: spec_fn(usize) -> u64, ef: nat)
    requires
        keyed(st.results, dist),
    ensures
        keyed(greedy_visit(st, nb, dist, ef).results, dist),
{
    if !st.visited[nb as int] {
        let d = dist(nb);
        if d < max_key(st.results) || st.results.len() < ef {
            let r = st.results.push((nb, d));
            assert forall|i: int| 0 <= i < r.len() implies (#[trigger] r[i]).1 == dist(r[i].0) by {
                if i < st.results.len() {
                    assert(r[i] == st.results[i]);
                }
            }
            if r.len() > ef {
                lemma_last_max_pos(r);
                let q = swap_removed(r, last_max_pos(r));
                assert forall|i: int| 0 <= i < q.len() implies (#[trigger] q[i]).1 == dist(q[i].0) by {
                    if i == last_max_pos(r) {
                        assert(q[i] == r[r.len() - 1]);
                    } else {
                        assert(q[i] == r[i]);
                    }
                }
            }
        }
    }
}

proof fn lemma_greedy_expand_keyed(st: GreedyState, nbrs: Seq<usize>, dist: spec_fn(usize) -> u64, ef: nat)
    requires
        keyed(st.results, dist),
    ensures
        keyed(greedy_expand(st, nbrs, dist, ef).results, dist),
    decreases nbrs.len(),
{
    if nbrs.len() > 0 {
        lemma_greedy_expand_keyed(st, nbrs.drop_last(), dist, ef);
        lemma_greedy_visit_keyed(greedy_expand(st, nbrs.drop_last(), dist, ef), nbrs.last(), dist, ef);
    }
}

proof fn lemma_greedy_run_keyed(st: GreedyState, adj: Seq<Seq<usize>>, dist: spec_fn(usize) -> u64, ef: nat, fuel: nat)
    requires
        keyed(st.results, dist),
    ensures
        keyed(greedy_run(st, adj, dist, ef, fuel).results, dist),
    decreases fuel,
{
    if !(fuel == 0 || st.done || st.cands.len() == 0) {
        let i = first_min_pos(st.cands);
        let cur = st.cands[i].0;
        let st1 = GreedyState { cands: swap_removed(st.cands, i), ..st };
        lemma_greedy_expand_keyed(st1, adj[cur as int], dist, ef);
        lemma_greedy_run_keyed(greedy_step(st, adj, dist, ef), adj, dist, ef, (fuel - 1) as nat);
    }
}

/// The nodes of a greedy search in traversal key `travel`, best first: each
/// carries its own `travel` key, so the ids come in non-decreasing key order.
proof fn lemma_greedy_ids_ranked(adj: Seq<Seq<usize>>, travel: spec_fn(usize) -> u64, ef: nat, k: nat)
    ensures
        ({
            let st0 = greedy_init(adj.len(), travel);
            let fin = greedy_run(st0, adj, travel, ef, greedy_measure(st0));
            let ids = ids_of(top_k_spec(fin.results, k as int, false));
            forall|i: int, j: int| 0 <= i < j < ids.len() ==> travel(#[trigger] ids[i]) <= travel(#[trigger] ids[j])
        }),
{
    let st0 = greedy_init(adj.len(), travel);
    assert(keyed(st0.results, travel));
    lemma_greedy_run_keyed(st0, adj, travel, ef, greedy_measure(st0));
    let fin = greedy_run(st0, adj, travel, ef, greedy_measure(st0));
    let top = top_k_spec(fin.results, k as int, false);
    lemma_top_k_properties(fin.results, k as int, false);
    lemma_top_k_from_input(fin.results, k as int, false);
    let ids = ids_of(top);
    assert forall|i: int, j: int| 0 <= i < j < ids.len() implies travel(#[trigger] ids[i]) <= travel(#[trigger] ids[j]) by {
        assert(fin.results.contains(top[i]));
        assert(fin.results.contains(top[j]));
        let a = choose|a: int| 0 <= a < fin.results.len() && fin.results[a] == top[i];
        let b = choose|b: int| 0 <= b < fin.results.len() && fin.results[b] == top[j];
        assert(top[i].1 == travel(top[i].0));
        assert(top[j].1 == travel(top[j].0));
        assert(!(top[j].1 < top[i].1));
    }
}

/// The fused (`HybridFull`) search traverses and ranks by the hybrid keys
/// alone: its answer does not change with the dense keys, and its ids come
/// in non-decreasing hybrid key order.
pub proof fn lemma_hybrid_full_uses_hybrid_keys(
    adj: Seq<Seq<usize>>,
    k: nat,
    dense: spec_fn(usize) -> u64,
    other_dense: spec_fn(usize) -> u64,
    hybrid: spec_fn(usize) -> u64,
)
    ensures
        greedy_answer(adj, SearchMode::HybridFull, k, dense, hybrid) == greedy_answer(adj, SearchMode::HybridFull, k, other_dense, hybrid),
        forall|i: int, j: int| 0 <= i < j < greedy_answer(adj, SearchMode::HybridFull, k, dense, hybrid).len()
            ==> hybrid(#[trigger] greedy_answer(adj, SearchMode::HybridFull, k, dense, hybrid)[i])
                <= hybrid(#[trigger] greedy_answer(adj, SearchMode::HybridFull, k, dense, hybrid)[j]),
{
    lemma_greedy_ids_ranked(adj, hybrid, beam_width(SearchMode::HybridFull, k), k);
}

/// The ids of a ranking of `ids` by the keys `h` are `ids` reordered.
proof fn lemma_rerank_same_ids(ids: Seq<usize>, h: spec_fn(usize) -> u64)
    ensures
        ids_of(top_k_spec(ids.map_values(|i: usize| (i, h(i))), ids.len() as int, false)).to_multiset() == ids.to_multiset(),
{
    let s = ids.map_values(|i: usize| (i, h(i)));
    lemma_sort_ranked_properties(s, false);
    assert(top_k_spec(s, ids.len() as int, false) =~= sort_ranked(s, false));
    lemma_map_multiset(sort_ranked(s, false), s, |e: Scored| e.0);
    assert(s.map_values(|e: Scored| e.0) =~= ids);
}

/// The two-stage search picks its candidates by the dense keys alone and
/// returns them re-ranked by the hybrid keys: the ids come in non-decreasing
/// hybrid key order, and which ids come back does not depend on the hybrid
/// keys.
pub proof fn lemma_two_stage_reranks_by_hybrid(
    adj: Seq<Seq<usize>>,
    candidates_factor: usize,
    k: nat,
    dense: spec_fn(usize) -> u64,
    hybrid: spec_fn(usize) -> u64,
    other_hybrid: spec_fn(usize) -> u64,
)
    ensures
        forall|i: int, j: int| 0 <= i < j < greedy_answer(adj, SearchMode::TwoStage { candidates_factor }, k, dense, hybrid).len()
            ==> hybrid(#[trigger] greedy_answer(adj, SearchMode::TwoStage { candidates_factor }, k, dense, hybrid)[i])
                <= hybrid(#[trigger] greedy_answer(adj, SearchMode::TwoStage { candidates_factor }, k, dense, hybrid)[j]),
        greedy_answer(adj, SearchMode::TwoStage { candidates_factor }, k, dense, hybrid).to_multiset()
            == greedy_answer(adj, SearchMode::TwoStage { candidates_factor }, k, dense, other_hybrid).to_multiset(),
{
    let mode = SearchMode::TwoStage { candidates_factor };
    let ef = beam_width(mode, k);
    let st0 = greedy_init(adj.len(), dense);
    let fin = greedy_run(st0, adj, dense, ef, greedy_measure(st0));
    let ids = ids_of(top_k_spec(fin.results, k as int, false));
    let s = ids.map_values(|i: usize| (i, hybrid(i)));
    let top = top_k_spec(s, ids.len() as int, false);
    lemma_top_k_properties(s, ids.len() as int, false);
    lemma_top_k_from_input(s, ids.len() as int, false);
    let r = ids_of(top);
    assert(greedy_answer(adj, mode, k, dense, hybrid) == r);
    assert forall|i: int, j: int| 0 <= i < j < r.len() implies hybrid(#[trigger] r[i]) <= hybrid(#[trigger] r[j]) by {
        assert(s.contains(top[i]));
        assert(s.contains(top[j]));
        let a = choose|a: int| 0 <= a < s.len() && s[a] == top[i];
        let b = choose|b: int| 0 <= b < s.len() && s[b] == top[j];
        assert(!(top[j].1 < top[i].1));
    }
    lemma_rerank_same_ids(ids, hybrid);
    lemma_rerank_same_ids(ids, other_hybrid);
}

proof fn lemma_greedy_visit(st: GreedyState, nb: usize, dist: spec_fn(usize) -> u64, ef: nat, n: nat)
    requires
        greedy_wf(st, n),
        nb < n,
    ensures
        greedy_wf(greedy_visit(st, nb, dist, ef), n),
        greedy_measure(greedy_visit(st, nb, dist, ef)) <= greedy_measure(st),
{
    if !st.visited[nb as int] {
        lemma_count_false_update(st.visited, nb as int);
        let st2 = greedy_visit(st, nb, dist, ef);
        assert forall|i: int| 0 <= i < st2.cands.len() implies (#[trigger] st2.cands[i]).0 < n by {
            if i < st.cands.len() {
                assert(st2.cands[i] == st.cands[i]);
            }
        }
        let r = st.results.push((nb, dist(nb)));
        assert forall|i: int| 0 <= i < r.len() implies (#[trigger] r[i]).0 < n by {
            if i < st.results.len() {
                assert(r[i] == st.results[i]);
            }
        }
        if r.len() > ef {
            lemma_last_max_pos(r);
            let p = last_max_pos(r);
            let r2 = swap_removed(r, p);
            assert forall|i: int| 0 <= i < r2.len() implies (#[trigger] r2[i]).0 < n by {
                if i == p {
                    assert(r2[i] == r.last());
                } else {
                    assert(r2[i] == r[i]);
                }
            }
        }
    }
}

proof fn lemma_greedy_expand(st: GreedyState, nbrs: Seq<usize>, dist: spec_fn(usize) -> u64, ef: nat, n: nat)
    requires
        greedy_wf(st, n),
        forall|j: int| 0 <= j < nbrs.len() ==> (#[trigger] nbrs[j]) < n,
    ensures
        greedy_wf(greedy_expand(st, nbrs, dist, ef), n),
        greedy_measure(greedy_expand(st, nbrs, dist, ef)) <= greedy_measure(st),
    decreases nbrs.len(),
{
    if nbrs.len() > 0 {
        lemma_greedy_expand(st, nbrs.drop_last(), dist, ef, n);
        lemma_greedy_visit(greedy_expand(st, nbrs.drop_last(), dist, ef), nbrs.last(), dist, ef, n);
    }
}

proof fn lemma_greedy_step(st: GreedyState, adj: Seq<Seq<usize>>, dist: spec_fn(usize) -> u64, ef: nat)
    requires
        greedy_wf(st, adj.len()),
        adjacency_wf(adj),
        st.cands.len() > 0,
    ensures
        greedy_wf(greedy_step(st, adj, dist, ef), adj.len()),
        greedy_measure(greedy_step(st, adj, dist, ef)) < greedy_measure(st),
{
    let n = adj.len();
    lemma_first_min_pos(st.cands);
    let i = first_min_pos(st.cands);
    let cur = st.cands[i].0;
    let st1 = GreedyState { cands: swap_removed(st.cands, i), ..st };
    assert forall|j: int| 0 <= j < st1.cands.len() implies (#[trigger] st1.cands[j]).0 < n by {
        if j == i {
            assert(st1.cands[j] == st.cands.last());
        } else {
            assert(st1.cands[j] == st.cands[j]);
        }
    }
    assert forall|j: int| 0 <= j < adj[cur as int].len() implies (#[trigger] adj[cur as int][j]) < n by {
    }
    lemma_greedy_expand(st1, adj[cur as int], dist, ef, n);
}

proof fn lemma_greedy_fuel(st: GreedyState, adj: Seq<Seq<usize>>, dist: spec_fn(usize) -> u64, ef: nat, f1: nat, f2: nat)
    requires
        greedy_wf(st, adj.len()),
        adjacency_wf(adj),
        f1 >= greedy_measure(st),
        f2 >= greedy_measure(st),
    ensures
        greedy_run(st, adj, dist, ef, f1) == greedy_run(st, adj, dist, ef, f2),
        greedy_wf(greedy_run(st, adj, dist, ef, f1), adj.len()),
    decreases greedy_measure(st),
{
    if !st.done && st.cands.len() > 0 {
        lemma_greedy_step(st, adj, dist, ef);
        lemma_greedy_fuel(greedy_step(st, adj, dist, ef), adj, dist, ef, (f1 - 1) as nat, (f2 - 1) as nat);
    }
}

/// Distinct positions below `m` number at most `m`.
proof fn lemma_distinct_below(s: Seq<usize>, m: int)
    requires
        m >= 0,
        forall|a: int, b: int| 0 <= a < b < s.len() ==> #[trigger] s[a] != #[trigger] s[b],
        forall|j: int| 0 <= j < s.len() ==> (#[trigger] s[j]) < m,
    ensures
        s.len() <= m,
    decreases m,
{
    if m == 0 {
        if s.len() > 0 {
            assert(s[0] < m);
        }
    } else if s.contains((m - 1) as usize) {
        let idx = choose|idx: int| 0 <= idx < s.len() && s[idx] == (m - 1) as usize;
        let r = s.remove(idx);
        assert forall|a: int, b: int| 0 <= a < b < r.len() implies #[trigger] r[a] != #[trigger] r[b] by {
            let sa = if a < idx { a } else { a + 1 };
            let sb = if b < idx { b } else { b + 1 };
            assert(r[a] == s[sa] && r[b] == s[sb]);
        }
        assert forall|j: int| 0 <= j < r.len() implies (#[trigger] r[j]) < m - 1 by {
            let sj = if j < idx { j } else { j + 1 };
            assert(r[j] == s[sj]);
            assert(sj != idx);
        }
        lemma_distinct_below(r, m - 1);
    } else {
        assert forall|j: int| 0 <= j < s.len() implies (#[trigger] s[j]) < m - 1 by {
            assert(s[j] != (m - 1) as usize);
        }
        lemma_distinct_below(s, m - 1);
    }
}

/// A wide search state: every visited node is a result (once, with its key),
/// the entry node is visited, and a finished search has visited every node.
pub open spec fn explored(st: GreedyState, adj: Seq<Seq<usize>>, travel: spec_fn(usize) -> u64) -> bool {
    &&& greedy_wf(st, adj.len())
    &&& adj.len() <= usize::MAX
    &&& keyed(st.results, travel)
    &&& adj.len() > 0 ==> st.visited[0]
    &&& forall|a: int, b: int| 0 <= a < b < st.results.len() ==> (#[trigger] st.results[a]).0 != (#[trigger] st.results[b]).0
    &&& forall|i: int| 0 <= i < st.results.len() ==> st.visited[(#[trigger] st.results[i]).0 as int]
    &&& forall|v: int| 0 <= v < adj.len() && #[trigger] st.visited[v] ==> ids_of(st.results).contains(v as usize)
    &&& st.done ==> forall|v: int| 0 <= v < adj.len() ==> #[trigger] st.visited[v]
}

/// Every visited node other than `skip` is still a candidate or has all its
/// neighbours visited.
pub open spec fn frontier(st: GreedyState, adj: Seq<Seq<usize>>, skip: int) -> bool {
    forall|v: int| 0 <= v < adj.len() && v != skip && #[trigger] st.visited[v] ==> (ids_of(st.cands).contains(v as usize) || forall|j: int|
        0 <= j < adj[v].len() ==> st.visited[(#[trigger] adj[v][j]) as int])
}

proof fn lemma_results_short(st: GreedyState, adj: Seq<Seq<usize>>, travel: spec_fn(usize) -> u64, nb: usize)
    requires
        explored(st, adj, travel),
        nb < adj.len(),
        !st.visited[nb as int],
    ensures
        st.results.len() < adj.len(),
{
    let s = ids_of(st.results).push(nb);
    assert forall|a: int, b: int| 0 <= a < b < s.len() implies #[trigger] s[a] != #[trigger] s[b] by {
        if b == st.results.len() {
            assert(s[a] == st.results[a].0);
            assert(st.visited[st.results[a].0 as int]);
        } else {
            assert(s[a] == st.results[a].0 && s[b] == st.results[b].0);
        }
    }
    assert forall|j: int| 0 <= j < s.len() implies (#[trigger] s[j]) < adj.len() by {
        if j < st.results.len() {
            assert(s[j] == st.results[j].0);
        }
    }
    lemma_distinct_below(s, adj.len() as int);
}

proof fn lemma_visit_explored(st: GreedyState, nb: usize, adj: Seq<Seq<usize>>, travel: spec_fn(usize) -> u64, ef: nat, skip: int)
    requires
        explored(st, adj, travel),
        frontier(st, adj, skip),
        ef >= adj.len(),
        nb < adj.len(),
        adjacency_wf(adj),
    ensures
        explored(greedy_visit(st, nb, travel, ef), adj, travel),
        frontier(greedy_visit(st, nb, travel, ef), adj, skip),
        greedy_visit(st, nb, travel, ef).visited[nb as int],
        forall|v: int| 0 <= v < adj.len() && st.visited[v] ==> #[trigger] greedy_visit(st, nb, travel, ef).visited[v],
        forall|x: usize| ids_of(st.cands).contains(x) ==> #[trigger] ids_of(greedy_visit(st, nb, travel, ef).cands).contains(x),
        greedy_visit(st, nb, travel, ef).done == st.done,
{
    let n = adj.len();
    lemma_greedy_visit(st, nb, travel, ef, n);
    lemma_greedy_visit_keyed(st, nb, travel, ef);
    if !st.visited[nb as int] {
        lemma_results_short(st, adj, travel, nb);
        let d = travel(nb);
        let r = st.results.push((nb, d));
        let c = st.cands.push((nb, d));
        let st2 = greedy_visit(st, nb, travel, ef);
        assert(st2.results == r);
        assert(st2.cands == c);
        assert(ids_of(r) =~= ids_of(st.results).push(nb));
        assert(ids_of(c) =~= ids_of(st.cands).push(nb));
        assert(!st.done) by {
            if st.done {
                assert(st.visited[nb as int]);
            }
        }
        assert forall|a: int, b: int| 0 <= a < b < r.len() implies (#[trigger] r[a]).0 != (#[trigger] r[b]).0 by {
            if b == st.results.len() {
                assert(r[a] == st.results[a]);
                assert(st.visited[st.results[a].0 as int]);
            } else {
                assert(r[a] == st.results[a] && r[b] == st.results[b]);
            }
        }
        assert forall|i: int| 0 <= i < r.len() implies st2.visited[(#[trigger] r[i]).0 as int] by {
            if i < st.results.len() {
                assert(r[i] == st.results[i]);
            }
        }
        assert forall|x: usize| ids_of(st.cands).contains(x) implies #[trigger] ids_of(st2.cands).contains(x) by {
            let w = choose|w: int| 0 <= w < ids_of(st.cands).len() && ids_of(st.cands)[w] == x;
            assert(ids_of(st2.cands)[w] == x);
        }
        assert forall|v: int| 0 <= v < n && #[trigger] st2.visited[v] implies ids_of(st2.results).contains(v as usize) by {
            if v == nb {
                assert(ids_of(st2.results)[st.results.len() as int] == nb);
            } else {
                assert(st.visited[v]);
                let w = choose|w: int| 0 <= w < ids_of(st.results).len() && ids_of(st.results)[w] == v as usize;
                assert(ids_of(st2.results)[w] == v as usize);
            }
        }
        assert forall|v: int| 0 <= v < n && v != skip && #[trigger] st2.visited[v] implies (ids_of(st2.cands).contains(v as usize) || forall|j: int|
            0 <= j < adj[v].len() ==> st2.visited[(#[trigger] adj[v][j]) as int]) by {
            if v == nb {
                assert(ids_of(st2.cands)[st.cands.len() as int] == nb);
            } else {
                assert(st.visited[v]);
                if ids_of(st.cands).contains(v as usize) {
                    assert(ids_of(st2.cands).contains(v as usize));
                } else {
                    assert forall|j: int| 0 <= j < adj[v].len() implies st2.visited[(#[trigger] adj[v][j]) as int] by {
                        assert(st.visited[adj[v][j] as int]);
                    }
                }
            }
        }
    }
}

proof fn lemma_expand_explored(st: GreedyState, nbrs: Seq<usize>, adj: Seq<Seq<usize>>, travel: spec_fn(usize) -> u64, ef: nat, skip: int)
    requires
        explored(st, adj, travel),
        frontier(st, adj, skip),
        ef >= adj.len(),
        forall|j: int| 0 <= j < nbrs.len() ==> (#[trigger] nbrs[j]) < adj.len(),
        adjacency_wf(adj),
    ensures
        explored(greedy_expand(st, nbrs, travel, ef), adj, travel),
        frontier(greedy_expand(st, nbrs, travel, ef), adj, skip),
        forall|j: int| 0 <= j < nbrs.len() ==> greedy_expand(st, nbrs, travel, ef).visited[(#[trigger] nbrs[j]) as int],
        forall|v: int| 0 <= v < adj.len() && st.visited[v] ==> #[trigger] greedy_expand(st, nbrs, travel, ef).visited[v],
        forall|x: usize| ids_of(st.cands).contains(x) ==> #[trigger] ids_of(greedy_expand(st, nbrs, travel, ef).cands).contains(x),
        greedy_expand(st, nbrs, travel, ef).done == st.done,
    decreases nbrs.len(),
{
    if nbrs.len() > 0 {
        let p = nbrs.drop_last();
        assert forall|j: int| 0 <= j < p.len() implies (#[trigger] p[j]) < adj.len() by {
            assert(p[j] == nbrs[j]);
        }
        lemma_expand_explored(st, p, adj, travel, ef, skip);
        let mid = greedy_expand(st, p, travel, ef);
        lemma_visit_explored(mid, nbrs.last(), adj, travel, ef, skip);
        let fin = greedy_expand(st, nbrs, travel, ef);
        assert forall|j: int| 0 <= j < nbrs.len() implies fin.visited[(#[trigger] nbrs[j]) as int] by {
            if j < p.len() {
                assert(p[j] == nbrs[j]);
                assert(mid.visited[p[j] as int]);
            }
        }
        assert forall|v: int| 0 <= v < adj.len() && st.visited[v] implies #[trigger] fin.visited[v] by {
            assert(mid.visited[v]);
        }
        assert forall|x: usize| ids_of(st.cands).contains(x) implies #[trigger] ids_of(fin.cands).contains(x) by {
            assert(ids_of(mid.cands).contains(x));
        }
    }
}

proof fn lemma_step_explored(st: GreedyState, adj: Seq<Seq<usize>>, travel: spec_fn(usize) -> u64, ef: nat)
    requires
        explored(st, adj, travel),
        frontier(st, adj, -1),
        !st.done,
        st.cands.len() > 0,
        ef >= adj.len(),
        adjacency_wf(adj),
    ensures
        explored(greedy_step(st, adj, travel, ef), adj, travel),
        frontier(greedy_step(st, adj, travel, ef), adj, -1),
{
    let n = adj.len();
    lemma_greedy_step(st, adj, travel, ef);
    lemma_first_min_pos(st.cands);
    let i = first_min_pos(st.cands);
    let cur = st.cands[i].0;
    let dmin = st.cands[i].1;
    let st1 = GreedyState { cands: swap_removed(st.cands, i), ..st };
    assert(cur < n);
    if dmin > max_key(st.results) && st.results.len() >= ef {
        // Every node is a result, so every node was visited.
        let s = ids_of(st.results);
        assert forall|v: int| 0 <= v < n implies #[trigger] st.visited[v] by {
            if !st.visited[v] {
                assert forall|a: int, b: int| 0 <= a < b < s.len() implies #[trigger] s[a] != #[trigger] s[b] by {
                    assert(s[a] == st.results[a].0 && s[b] == st.results[b].0);
                }
                let s2 = s.push(v as usize);
                assert forall|a: int, b: int| 0 <= a < b < s2.len() implies #[trigger] s2[a] != #[trigger] s2[b] by {
                    if b == s.len() {
                        assert(s2[a] == st.results[a].0);
                        assert(st.visited[st.results[a].0 as int]);
                    } else {
                        assert(s2[a] == s[a] && s2[b] == s[b]);
                    }
                }
                assert forall|j: int| 0 <= j < s2.len() implies (#[trigger] s2[j]) < n by {
                    if j < s.len() {
                        assert(s2[j] == st.results[j].0);
                    }
                }
                lemma_distinct_below(s2, n as int);
            }
        }
        let st2 = greedy_step(st, adj, travel, ef);
        assert forall|v: int| 0 <= v < n && v != -1 && #[trigger] st2.visited[v] implies (ids_of(st2.cands).contains(v as usize) || forall|j: int|
            0 <= j < adj[v].len() ==> st2.visited[(#[trigger] adj[v][j]) as int]) by {
            assert forall|j: int| 0 <= j < adj[v].len() implies st2.visited[(#[trigger] adj[v][j]) as int] by {
                assert(adj[v][j] < n);
            }
        }
    } else {
        assert forall|x: usize| ids_of(st.cands).contains(x) && x != cur implies #[trigger] ids_of(st1.cands).contains(x) by {
            let w = choose|w: int| 0 <= w < ids_of(st.cands).len() && ids_of(st.cands)[w] == x;
            assert(w != i);
            if w == st.cands.len() - 1 {
                assert(ids_of(st1.cands)[i] == x);
            } else {
                assert(ids_of(st1.cands)[w] == x);
            }
        }
        assert forall|j: int| 0 <= j < st1.cands.len() implies (#[trigger] st1.cands[j]).0 < n by {
            if j == i {
                assert(st1.cands[j] == st.cands.last());
            } else {
                assert(st1.cands[j] == st.cands[j]);
            }
        }
        let nbrs = adj[cur as int];
        assert forall|j: int| 0 <= j < nbrs.len() implies (#[trigger] nbrs[j]) < n by {}
        assert forall|v: int| 0 <= v < n && v != cur && #[trigger] st1.visited[v] implies (ids_of(st1.cands).contains(v as usize) || forall|j: int|
            0 <= j < adj[v].len() ==> st1.visited[(#[trigger] adj[v][j]) as int]) by {
            assert(st.visited[v]);
            if ids_of(st.cands).contains(v as usize) {
                assert(ids_of(st1.cands).contains(v as usize));
            }
        }
        assert(explored(st1, adj, travel));
        lemma_expand_explored(st1, nbrs, adj, travel, ef, cur as int);
        let st2 = greedy_expand(st1, nbrs, travel, ef);
        assert(st2 == greedy_step(st, adj, travel, ef));
        assert forall|v: int| 0 <= v < n && v != -1 && #[trigger] st2.visited[v] implies (ids_of(st2.cands).contains(v as usize) || forall|j: int|
            0 <= j < adj[v].len() ==> st2.visited[(#[trigger] adj[v][j]) as int]) by {
            if v == cur {
                assert forall|j: int| 0 <= j < adj[v].len() implies st2.visited[(#[trigger] adj[v][j]) as int] by {
                    assert(nbrs[j] == adj[v][j]);
                }
            }
        }
    }
}

proof fn lemma_run_explored(st: GreedyState, adj: Seq<Seq<usize>>, travel: spec_fn(usize) -> u64, ef: nat, fuel: nat)
    requires
        explored(st, adj, travel),
        frontier(st, adj, -1),
        ef >= adj.len(),
        adjacency_wf(adj),
        fuel >= greedy_measure(st),
    ensures
        explored(greedy_run(st, adj, travel, ef, fuel), adj, travel),
        frontier(greedy_run(st, adj, travel, ef, fuel), adj, -1),
        greedy_run(st, adj, travel, ef, fuel).done || greedy_run(st, adj, travel, ef, fuel).cands.len() == 0,
    decreases fuel,
{
    if !(fuel == 0 || st.done || st.cands.len() == 0) {
        lemma_greedy_step(st, adj, travel, ef);
        lemma_step_explored(st, adj, travel, ef);
        lemma_run_explored(greedy_step(st, adj, travel, ef), adj, travel, ef, (fuel - 1) as nat);
    } else if fuel == 0 && !st.done && st.cands.len() > 0 {
        assert(greedy_measure(st) > 0);
    }
}

/// Every node is reachable from the entry node 0: any set of nodes that
/// holds node 0 and every neighbour of its members holds every node.
pub open spec fn reaches_all(adj: Seq<Seq<usize>>) -> bool {
    forall|vis: Seq<bool>| #[trigger] closed_from_entry(adj, vis) ==> forall|v: int| 0 <= v < adj.len() ==> vis[v]
}

/// `vis` holds node 0 and every neighbour of its members.
pub open spec fn closed_from_entry(adj: Seq<Seq<usize>>, vis: Seq<bool>) -> bool {
    &&& vis.len() == adj.len()
    &&& adj.len() > 0 ==> vis[0]
    &&& forall|v: int, j: int| 0 <= v < adj.len() && vis[v] && 0 <= j < adj[v].len() ==> vis[(#[trigger] adj[v][j]) as int]
}

/// Every node `0..n` with its key.
pub open spec fn node_keys(n: nat, key: spec_fn(usize) -> u64) -> Seq<Scored> {
    Seq::new(n, |i: int| (i as usize, key(i as usize)))
}

/// With `4k` at least the number of nodes (the fused search's beam holds
/// `4k` entries) and every node reachable from the entry node, the fused
/// search is exact: it returns the hybrid keys of
/// the `k` nearest nodes by hybrid key, in order, and the same node at every
/// place whose key no other node has.
pub proof fn lemma_hybrid_full_wide_is_exact(adj: Seq<Seq<usize>>, k: nat, dense: spec_fn(usize) -> u64, hybrid: spec_fn(usize) -> u64)
    requires
        adjacency_wf(adj),
        0 < adj.len() <= usize::MAX,
        reaches_all(adj),
        4 * k >= adj.len(),
    ensures
        greedy_answer(adj, SearchMode::HybridFull, k, dense, hybrid).map_values(hybrid) == keys_of(
            top_k_spec(node_keys(adj.len(), hybrid), k as int, false),
        ),
        forall|i: int|
            0 <= i < top_k_spec(node_keys(adj.len(), hybrid), k as int, false).len()
                && node_keys(adj.len(), hybrid).map_values(|e: Scored| e.1).to_multiset().count(
                #[trigger] top_k_spec(node_keys(adj.len(), hybrid), k as int, false)[i].1,
            ) == 1 ==> greedy_answer(adj, SearchMode::HybridFull, k, dense, hybrid)[i] == top_k_spec(
                node_keys(adj.len(), hybrid),
                k as int,
                false,
            )[i].0,
{
    broadcast use vstd::seq_lib::group_to_multiset_ensures;
    let n = adj.len();
    let ef = beam_width(SearchMode::HybridFull, k);
    let st0 = greedy_init(n, hybrid);
    // The entry state is explored.
    assert(ids_of(st0.results) =~= seq![0usize]);
    assert(ids_of(st0.cands) =~= seq![0usize]);
    assert forall|v: int| 0 <= v < n && #[trigger] st0.visited[v] implies ids_of(st0.results).contains(v as usize) by {
        assert(v == 0);
        assert(ids_of(st0.results)[0] == 0usize);
    }
    assert forall|v: int| 0 <= v < n && v != -1 && #[trigger] st0.visited[v] implies (ids_of(st0.cands).contains(v as usize) || forall|j: int|
        0 <= j < adj[v].len() ==> st0.visited[(#[trigger] adj[v][j]) as int]) by {
        assert(v == 0);
        assert(ids_of(st0.cands)[0] == 0usize);
    }
    assert(keyed(st0.results, hybrid));
    assert(explored(st0, adj, hybrid));
    assert(frontier(st0, adj, -1));
    lemma_run_explored(st0, adj, hybrid, ef, greedy_measure(st0));
    let fin = greedy_run(st0, adj, hybrid, ef, greedy_measure(st0));
    // Every node was visited.
    assert forall|v: int| 0 <= v < n implies #[trigger] fin.visited[v] by {
        if !fin.done {
            assert(fin.cands.len() == 0);
            assert(closed_from_entry(adj, fin.visited)) by {
                assert forall|w: int, j: int| 0 <= w < n && fin.visited[w] && 0 <= j < adj[w].len() implies fin.visited[(#[trigger] adj[w][j]) as int] by {
                    assert(!ids_of(fin.cands).contains(w as usize));
                }
            }
        }
    }
    // So the results are every node once, with its hybrid key.
    let ids = ids_of(fin.results);
    let all = Seq::new(n, |i: int| i as usize);
    assert forall|a: int, b: int| 0 <= a < b < ids.len() implies ids[a] != ids[b] by {
        assert(ids[a] == fin.results[a].0 && ids[b] == fin.results[b].0);
    }
    assert forall|a: int, b: int| 0 <= a < b < all.len() implies all[a] != all[b] by {}
    assert forall|x: usize| #[trigger] ids.to_multiset().count(x) == all.to_multiset().count(x) by {
        lemma_count_distinct(ids, x);
        lemma_count_distinct(all, x);
        if x < n {
            assert(fin.visited[x as int]);
            assert(all[x as int] == x);
        } else {
            if ids.contains(x) {
                let w = choose|w: int| 0 <= w < ids.len() && ids[w] == x;
                assert(fin.results[w].0 < n);
            }
            if all.contains(x) {
                let w = choose|w: int| 0 <= w < all.len() && all[w] == x;
            }
        }
    }
    assert(ids.to_multiset() =~= all.to_multiset());
    let h = |i: usize| (i, hybrid(i));
    lemma_map_multiset(ids, all, h);
    assert(ids.map_values(h) =~= fin.results);
    let target = Seq::new(n, |i: int| (i as usize, hybrid(i as usize)));
    assert(all.map_values(h) =~= target);
    lemma_top_k_same_items(fin.results, target, k as int, false);
    lemma_top_k_properties(fin.results, k as int, false);
    lemma_top_k_properties(target, k as int, false);
    let top = top_k_spec(fin.results, k as int, false);
    lemma_top_k_from_input(fin.results, k as int, false);
    let ans = greedy_answer(adj, SearchMode::HybridFull, k, dense, hybrid);
    assert(ans == ids_of(top));
    assert forall|i: int| 0 <= i < top.len() implies hybrid(ans[i]) == (#[trigger] top[i]).1 by {
        assert(fin.results.contains(top[i]));
        let w = choose|w: int| 0 <= w < fin.results.len() && fin.results[w] == top[i];
    }
    assert(ans.map_values(hybrid) =~= keys_of(top));
    assert(target == node_keys(n, hybrid));
}

fn first_min_pos_exec(s: &Vec<Scored>) -> (r: usize)
    requires
        s@.len() > 0,
    ensures
        r == first_min_pos(s@),
        r < s@.len(),
{
    let mut m: usize = 0;
    let mut i: usize = 1;
    while i < s.len()
        invariant
            1 <= i <= s@.len(),
            m == first_min_pos(s@.take(i as int)),
            0 <= m < i,
        decreases s@.len() - i,
    {
        let ghost t = s@.take(i + 1);
        assert(t.drop_last() =~= s@.take(i as int));
        assert(t.last() == s@[i as int]);
        assert(t[m as int] == s@[m as int]);
        if s[i].1 < s[m].1 {
            m = i;
        }
        i = i + 1;
    }
    assert(s@.take(s@.len() as int) =~= s@);
    proof {
        lemma_first_min_pos(s@);
    }
    m
}

fn last_max_pos_exec(s: &Vec<Scored>) -> (r: usize)
    requires
        s@.len() > 0,
    ensures
        r == last_max_pos(s@),
        r < s@.len(),
{
    let mut m: usize = 0;
    let mut i: usize = 1;
    while i < s.len()
        invariant
            1 <= i <= s@.len(),
            m == last_max_pos(s@.take(i as int)),
            0 <= m < i,
        decreases s@.len() - i,
    {
        let ghost t = s@.take(i + 1);
        assert(t.drop_last() =~= s@.take(i as int));
        assert(t.last() == s@[i as int]);
        assert(t[m as int] == s@[m as int]);
        if s[m].1 <= s[i].1 {
            m = i;
        }
        i = i + 1;
    }
    assert(s@.take(s@.len() as int) =~= s@);
    proof {
        lemma_last_max_pos(s@);
    }
    m
}

pub open spec fn greedy_state_of(cands: Seq<Scored>, results: Seq<Scored>, visited: Seq<bool>, done: bool) -> GreedyState {
    GreedyState { cands, results, visited, done }
}

/// The neighbour lists of a hybrid NSW graph; the vectors are kept by the caller.
pub struct HybridNSW {
    pub adj: Vec<Vec<usize>>,
    pub m: usize,
}

/// The first `m` ids of `0..id` by the keys `d2(id, j)` (ties by id).
pub open spec fn nearest_earlier(id: usize, d2: spec_fn(usize, usize) -> u64, m: nat) -> Seq<usize> {
    ids_of(top_k_spec(Seq::new(id as nat, |j: int| (j as usize, d2(id, j as usize))), m as int, false))
}

/// Back-links from each neighbour of the new node `id`, skipping lists that hold it.
pub open spec fn back_link_all(adj: Seq<Seq<usize>>, id: usize, nbrs: Seq<usize>) -> Seq<Seq<usize>>
    decreases nbrs.len(),
{
    if nbrs.len() == 0 {
        adj
    } else {
        let a = back_link_all(adj, id, nbrs.drop_last());
        let nb = nbrs.last();
        if a[nb as int].contains(id) {
            a
        } else {
            a.update(nb as int, a[nb as int].push(id))
        }
    }
}


/// Every neighbour is a node other than its owner, no list repeats a node,
/// and links go both ways.
pub open spec fn sound_adjacency(adj: Seq<Seq<usize>>) -> bool {
    &&& forall|i: int, j: int| 0 <= i < adj.len() && 0 <= j < adj[i].len()
        ==> (#[trigger] adj[i][j]) < adj.len() && adj[i][j] != i
    &&& forall|i: int, a: int, b: int| 0 <= i < adj.len() && 0 <= a < b < adj[i].len()
        ==> #[trigger] adj[i][a] != #[trigger] adj[i][b]
    &&& forall|i: int, j: int|
        #![trigger adj[i].contains(j as usize), adj[j]]
        0 <= i < adj.len() && 0 <= j < adj.len() ==> (adj[i].contains(j as usize) <==> adj[j].contains(i as usize))
}

pub(crate) proof fn lemma_nearest_earlier(id: usize, d2: spec_fn(usize, usize) -> u64, m: nat)
    ensures
        forall|j: int| 0 <= j < nearest_earlier(id, d2, m).len() ==> (#[trigger] nearest_earlier(id, d2, m)[j]) < id,
        forall|a: int, b: int| 0 <= a < b < nearest_earlier(id, d2, m).len()
            ==> #[trigger] nearest_earlier(id, d2, m)[a] != #[trigger] nearest_earlier(id, d2, m)[b],
{
    let s = Seq::new(id as nat, |j: int| (j as usize, d2(id, j as usize)));
    let top = top_k_spec(s, m as int, false);
    lemma_top_k_from_input(s, m as int, false);
    lemma_top_k_ids_distinct(s, m as int, false);
    let ne = nearest_earlier(id, d2, m);
    assert forall|j: int| 0 <= j < ne.len() implies (#[trigger] ne[j]) < id by {
        assert(s.contains(top[j]));
    }
    assert forall|a: int, b: int| 0 <= a < b < ne.len() implies #[trigger] ne[a] != #[trigger] ne[b] by {
        assert(ne[a] == top[a].0 && ne[b] == top[b].0);
    }
}

/// Back-linking distinct new neighbours appends the new node once to each of
/// their lists and leaves the other lists alone.
proof fn lemma_back_link_all(adj: Seq<Seq<usize>>, id: usize, nbrs: Seq<usize>)
    requires
        forall|j: int| 0 <= j < nbrs.len() ==> (#[trigger] nbrs[j]) < adj.len(),
        forall|a: int, b: int| 0 <= a < b < nbrs.len() ==> #[trigger] nbrs[a] != #[trigger] nbrs[b],
        forall|i: int| 0 <= i < adj.len() ==> !(#[trigger] adj[i]).contains(id),
        adj.len() <= usize::MAX,
    ensures
        back_link_all(adj, id, nbrs).len() == adj.len(),
        forall|i: int| 0 <= i < adj.len() ==> #[trigger] back_link_all(adj, id, nbrs)[i] == if nbrs.contains(i as usize) {
            adj[i].push(id)
        } else {
            adj[i]
        },
    decreases nbrs.len(),
{
    if nbrs.len() > 0 {
        let p = nbrs.drop_last();
        let nb = nbrs.last();
        lemma_back_link_all(adj, id, p);
        let a = back_link_all(adj, id, p);
        assert(!p.contains(nb)) by {
            if p.contains(nb) {
                let q = choose|q: int| 0 <= q < p.len() && p[q] == nb;
                assert(nbrs[q] == nbrs[nbrs.len() - 1]);
            }
        }
        assert(a[nb as int] == adj[nb as int]);
        assert(!a[nb as int].contains(id));
        assert(back_link_all(adj, id, nbrs) == a.update(nb as int, a[nb as int].push(id)));
        assert forall|i: int| 0 <= i < adj.len() implies #[trigger] back_link_all(adj, id, nbrs)[i] == if nbrs.contains(i as usize) {
            adj[i].push(id)
        } else {
            adj[i]
        } by {
            assert(nbrs.contains(i as usize) <==> (p.contains(i as usize) || nb == i as usize)) by {
                if nbrs.contains(i as usize) {
                    let q = choose|q: int| 0 <= q < nbrs.len() && nbrs[q] == i as usize;
                    if q < p.len() {
                        assert(p[q] == i as usize);
                    }
                }
                if p.contains(i as usize) {
                    let q = choose|q: int| 0 <= q < p.len() && p[q] == i as usize;
                    assert(nbrs[q] == i as usize);
                }
                if nb == i as usize {
                    assert(nbrs[nbrs.len() - 1] == i as usize);
                }
            }
        }
    }
}

/// Inserting into a graph whose links are sound keeps them sound: no node
/// lists itself, no list repeats a node, and every link goes both ways.
pub proof fn lemma_insert_keeps_sound(adj: Seq<Seq<usize>>, d2: spec_fn(usize, usize) -> u64, m: nat)
    requires
        sound_adjacency(adj),
        adj.len() < usize::MAX,
    ensures
        sound_adjacency(
            if adj.len() == 0 {
                adj.push(Seq::empty())
            } else {
                back_link_all(adj, adj.len() as usize, nearest_earlier(adj.len() as usize, d2, m)).push(
                    nearest_earlier(adj.len() as usize, d2, m),
                )
            },
        ),
{
    let id = adj.len() as usize;
    if adj.len() == 0 {
        let f = adj.push(Seq::<usize>::empty());
        assert(f.len() == 1);
        assert(f[0].len() == 0);
        assert forall|i: int, j: int|
            #![trigger f[i].contains(j as usize), f[j]]
            0 <= i < f.len() && 0 <= j < f.len() implies (f[i].contains(j as usize) <==> f[j].contains(i as usize)) by {
        }
    } else {
        let ne = nearest_earlier(id, d2, m);
        lemma_nearest_earlier(id, d2, m);
        assert forall|i: int| 0 <= i < adj.len() implies !(#[trigger] adj[i]).contains(id) by {
            if adj[i].contains(id) {
                let q = choose|q: int| 0 <= q < adj[i].len() && adj[i][q] == id;
                assert(adj[i][q] < adj.len());
            }
        }
        lemma_back_link_all(adj, id, ne);
        let b = back_link_all(adj, id, ne);
        let f = b.push(ne);
        assert(f.len() == adj.len() + 1);
        // Old lists, possibly with the new node appended.
        assert forall|i: int, x: usize| 0 <= i < adj.len() implies
            (#[trigger] f[i].contains(x) <==> (adj[i].contains(x) || (x == id && ne.contains(i as usize)))) by {
            assert(f[i] == b[i]);
            if ne.contains(i as usize) {
                let l = adj[i].push(id);
                if l.contains(x) {
                    let q = choose|q: int| 0 <= q < l.len() && l[q] == x;
                    if q < adj[i].len() {
                        assert(adj[i][q] == x);
                    }
                }
                if adj[i].contains(x) {
                    let q = choose|q: int| 0 <= q < adj[i].len() && adj[i][q] == x;
                    assert(l[q] == x);
                }
                if x == id {
                    assert(l[adj[i].len() as int] == x);
                }
            }
        }
        assert(f[adj.len() as int] == ne);
        assert forall|i: int, j: int| 0 <= i < f.len() && 0 <= j < f[i].len() implies (#[trigger] f[i][j]) < f.len() && f[i][j] != i by {
            if i < adj.len() {
                assert(f[i] == b[i]);
                if ne.contains(i as usize) && j == adj[i].len() {
                    assert(f[i][j] == id);
                } else {
                    assert(f[i][j] == adj[i][j]);
                }
            } else {
                assert(f[i][j] == ne[j]);
            }
        }
        assert forall|i: int, a: int, c: int| 0 <= i < f.len() && 0 <= a < c < f[i].len() implies #[trigger] f[i][a] != #[trigger] f[i][c] by {
            if i < adj.len() {
                assert(f[i] == b[i]);
                if ne.contains(i as usize) && c == adj[i].len() {
                    assert(f[i][c] == id);
                    assert(f[i][a] == adj[i][a]);
                } else {
                    assert(f[i][a] == adj[i][a] && f[i][c] == adj[i][c]);
                }
            } else {
                assert(f[i][a] == ne[a] && f[i][c] == ne[c]);
            }
        }
        assert forall|i: int, j: int|
            #![trigger f[i].contains(j as usize), f[j]]
            0 <= i < f.len() && 0 <= j < f.len() implies (f[i].contains(j as usize) <==> f[j].contains(i as usize)) by {
            if i < adj.len() && j < adj.len() {
                assert(f[i].contains(j as usize) <==> adj[i].contains(j as usize));
                assert(f[j].contains(i as usize) <==> adj[j].contains(i as usize));
                assert(adj[i].contains(j as usize) <==> adj[j].contains(i as usize));
            } else if i < adj.len() {
                assert(j == id);
                assert(f[i].contains(j as usize) <==> ne.contains(i as usize));
            } else if j < adj.len() {
                assert(i == id);
                assert(f[j].contains(i as usize) <==> ne.contains(j as usize));
            } else {
                assert(i == j);
            }
        }
    }
}

impl HybridNSW {
    pub open spec fn view_adj(&self) -> Seq<Seq<usize>> {
        self.adj@.map_values(|v: Vec<usize>| v@)
    }

    pub open spec fn wf(&self) -> bool {
        adjacency_wf(self.view_adj())
    }

    pub fn new(m: usize) -> (r: Self)
        ensures
            r.m == m,
            r.adj@.len() == 0,
            r.wf(),
    {
        HybridNSW { adj: Vec::new(), m }
    }

    pub fn len(&self) -> (r: usize)
        ensures
            r == self.adj@.len(),
    {
        self.adj.len()
    }

    /// Adds node `len()`, linked to its `m` nearest earlier nodes by the
    /// hybrid keys of `dist`; each of them links back unless it already does.
    pub fn insert<F: Fn(usize, usize) -> u64>(&mut self, dist: F)
        requires
            old(self).wf(),
            old(self).adj@.len() < usize::MAX,
            is_pair_oracle(dist, old(self).adj@.len() + 1int),
        ensures
            final(self).wf(),
            final(self).m == old(self).m,
            old(self).adj@.len() == 0 ==> final(self).view_adj() == old(self).view_adj().push(Seq::empty()),
            old(self).adj@.len() > 0 ==> {
                let id = old(self).adj@.len() as usize;
                let nbrs = nearest_earlier(id, |a: usize, b: usize| pair_key_of(dist, a, b), old(self).m as nat);
                final(self).view_adj() == back_link_all(old(self).view_adj(), id, nbrs).push(nbrs)
            },
    {
        let ghost adj0 = self.view_adj();
        let id = self.adj.len();
        let n = id + 1;
        if id == 0 {
            self.adj.push(Vec::new());
            assert(self.view_adj() =~= adj0.push(Seq::empty()));
            return;
        }
        let ghost d2 = |a: usize, b: usize| pair_key_of(dist, a, b);
        let mut scored: Vec<Scored> = Vec::new();
        let mut j: usize = 0;
        while j < id
            invariant
                j <= id,
                n == id + 1,
                is_pair_oracle(dist, n as int),
                d2 == (|a: usize, b: usize| pair_key_of(dist, a, b)),
                scored@ == Seq::new(j as nat, |t: int| (t as usize, d2(id, t as usize))),
            decreases id - j,
        {
            let d = ask_pair(&dist, id, j, Ghost(n as int));
            scored.push((j, d));
            assert(scored@ =~= Seq::new((j + 1) as nat, |t: int| (t as usize, d2(id, t as usize))));
            j = j + 1;
        }
        let best = top_k_ascending(&scored, self.m);
        proof {
            lemma_top_k_from_input(scored@, self.m as int, false);
        }
        let mut nbrs: Vec<usize> = Vec::new();
        let mut u: usize = 0;
        while u < best.len()
            invariant
                u <= best@.len(),
                nbrs@ == ids_of(best@.take(u as int)),
                forall|q: int| 0 <= q < best@.len() ==> scored@.contains(#[trigger] best@[q]),
                scored@ == Seq::new(id as nat, |t: int| (t as usize, d2(id, t as usize))),
                forall|q: int| 0 <= q < nbrs@.len() ==> (#[trigger] nbrs@[q]) < id,
            decreases best@.len() - u,
        {
            assert(scored@.contains(best@[u as int]));
            nbrs.push(best[u].0);
            assert(nbrs@ =~= ids_of(best@.take(u + 1)));
            u = u + 1;
        }
        assert(best@.take(best@.len() as int) =~= best@);
        assert(nbrs@ == nearest_earlier(id, d2, self.m as nat));
        let mut t: usize = 0;
        assert(nbrs@.take(0) =~= Seq::<usize>::empty());
        while t < nbrs.len()
            invariant
                t <= nbrs@.len(),
                self.adj@.len() == id,
                n == id + 1,
                self.m == old(self).m,
                forall|q: int| 0 <= q < nbrs@.len() ==> (#[trigger] nbrs@[q]) < id,
                forall|i: int, j2: int| 0 <= i < self.view_adj().len() && 0 <= j2 < self.view_adj()[i].len()
                    ==> (#[trigger] self.view_adj()[i][j2]) < n,
                self.view_adj() == back_link_all(adj0, id, nbrs@.take(t as int)),
            decreases nbrs@.len() - t,
        {
            let nb = nbrs[t];
            let ghost before = self.view_adj();
            assert(nbrs@.take(t + 1).drop_last() =~= nbrs@.take(t as int));
            let mut list: Vec<usize> = Vec::new();
            let mut q: usize = 0;
            let mut present = false;
            while q < self.adj[nb].len()
                invariant
                    nb < self.adj@.len(),
                    q <= self.adj@[nb as int]@.len(),
                    list@ == self.adj@[nb as int]@.take(q as int),
                    present == list@.contains(id),
                decreases self.adj@[nb as int]@.len() - q,
            {
                let x = self.adj[nb][q];
                if x == id {
                    present = true;
                }
                list.push(x);
                assert(list@ =~= self.adj@[nb as int]@.take(q + 1));
                assert(list@.contains(id) == (list@.drop_last().contains(id) || x == id)) by {
                    if x == id {
                        assert(list@[q as int] == id);
                    }
                    if list@.drop_last().contains(id) {
                        let w = choose|w: int| 0 <= w < list@.drop_last().len() && list@.drop_last()[w] == id;
                        assert(list@[w] == id);
                    }
                    if list@.contains(id) && x != id {
                        let w = choose|w: int| 0 <= w < list@.len() && list@[w] == id;
                        assert(list@.drop_last()[w] == id);
                    }
                }
                assert(list@.drop_last() =~= self.adj@[nb as int]@.take(q as int));
                q = q + 1;
            }
            assert(self.adj@[nb as int]@.take(self.adj@[nb as int]@.len() as int) =~= self.adj@[nb as int]@);
            if !present {
                list.push(id);
                self.adj.set(nb, list);
            }
            let ghost after = self.view_adj();
            assert(after =~= back_link_all(adj0, id, nbrs@.take(t + 1)));
            assert forall|i: int, j2: int| 0 <= i < after.len() && 0 <= j2 < after[i].len() implies (#[trigger] after[i][j2]) < n by {
                if i != nb || present {
                    assert(after[i] == before[i]);
                } else if j2 < before[i].len() {
                    assert(after[i][j2] == before[i][j2]);
                }
            }
            t = t + 1;
        }
        assert(nbrs@.take(nbrs@.len() as int) =~= nbrs@);
        let ghost mid = self.view_adj();
        self.adj.push(nbrs);
        assert(self.view_adj() =~= mid.push(nearest_earlier(id, d2, self.m as nat)));
        assert(self.wf()) by {
            let a = self.view_adj();
            assert forall|i: int, j2: int| 0 <= i < a.len() && 0 <= j2 < a[i].len() implies (#[trigger] a[i][j2]) < a.len() by {
                if i < mid.len() {
                    assert(a[i] == mid[i]);
                }
            }
        }
    }

    /// Greedy NSW search for `k` neighbours from entry node 0.  `dense` and
    /// `hybrid` give the keys of the dense and fused distances to the query;
    /// the traversal uses `hybrid` (full mode) or `dense` (two-stage mode,
    /// whose `k` results are then re-ranked by `hybrid`).
    pub fn search<F1: Fn(usize) -> u64, F2: Fn(usize) -> u64>(
        &self,
        dense: F1,
        hybrid: F2,
        k: usize,
        mode: SearchMode,
    ) -> (r: Vec<usize>)
        requires
            self.wf(),
            is_oracle(dense, self.adj@.len() as int),
            is_oracle(hybrid, self.adj@.len() as int),
            beam_width(mode, k as nat) <= usize::MAX,
        ensures
            self.adj@.len() == 0 ==> r@.len() == 0,
            self.adj@.len() > 0 ==> r@ == greedy_answer(
                self.view_adj(),
                mode,
                k as nat,
                |i: usize| key_of(dense, i),
                |i: usize| key_of(hybrid, i),
            ),
    {
        let n = self.adj.len();
        if n == 0 {
            return Vec::new();
        }
        let ef = match mode {
            SearchMode::HybridFull => k * 4,
            SearchMode::TwoStage { candidates_factor } => k * candidates_factor,
        };
        let two_stage = match mode {
            SearchMode::HybridFull => false,
            SearchMode::TwoStage { .. } => true,
        };
        let ghost dfn = |i: usize| key_of(dense, i);
        let ghost hfn = |i: usize| key_of(hybrid, i);
        let ghost travel = if two_stage { dfn } else { hfn };
        let ghost adj = self.view_adj();
        let mut visited: Vec<bool> = Vec::new();
        let mut i: usize = 0;
        while i < n
            invariant
                i <= n,
                visited@ == Seq::new(i as nat, |j: int| false),
            decreases n - i,
        {
            visited.push(false);
            assert(visited@ =~= Seq::new((i + 1) as nat, |j: int| false));
            i = i + 1;
        }
        visited.set(0, true);
        let d0 = if two_stage { ask(&dense, 0, Ghost(n as int)) } else { ask(&hybrid, 0, Ghost(n as int)) };
        let mut cands: Vec<Scored> = Vec::new();
        cands.push((0, d0));
        let mut results: Vec<Scored> = Vec::new();
        results.push((0, d0));
        let mut done = false;
        let ghost st0 = greedy_init(n as nat, travel);
        assert(greedy_state_of(cands@, results@, visited@, done) =~= st0);
        proof {
            lemma_count_false_new(n as nat);
            lemma_count_false_le(visited@);
        }
        while !done && cands.len() > 0
            invariant
                n == self.adj@.len(),
                adj == self.view_adj(),
                adjacency_wf(adj),
                is_oracle(dense, n as int),
                is_oracle(hybrid, n as int),
                dfn == (|i: usize| key_of(dense, i)),
                hfn == (|i: usize| key_of(hybrid, i)),
                travel == if two_stage { dfn } else { hfn },
                greedy_wf(greedy_state_of(cands@, results@, visited@, done), n as nat),
                greedy_run(
                    greedy_state_of(cands@, results@, visited@, done),
                    adj,
                    travel,
                    ef as nat,
                    greedy_measure(greedy_state_of(cands@, results@, visited@, done)),
                ) == greedy_run(st0, adj, travel, ef as nat, greedy_measure(st0)),
            decreases greedy_measure(greedy_state_of(cands@, results@, visited@, done)),
        {
            let ghost cur = greedy_state_of(cands@, results@, visited@, done);
            proof {
                lemma_greedy_step(cur, adj, travel, ef as nat);
            }
            let p = first_min_pos_exec(&cands);
            let (node, dmin) = cands.swap_remove(p);
            assert(cands@ =~= swap_removed(cur.cands, p as int));
            let worst = results[last_max_pos_exec(&results)].1;
            if dmin > worst && results.len() >= ef {
                done = true;
            } else {
                let ghost st1 = greedy_state_of(cands@, results@, visited@, done);
                let row = &self.adj[node];
                assert(row@ == adj[node as int]);
                let mut j: usize = 0;
                assert(row@.take(0) =~= Seq::<usize>::empty());
                while j < row.len()
                    invariant
                        j <= row@.len(),
                        n == self.adj@.len(),
                        node < n,
                        adj == self.view_adj(),
                        row@ == adj[node as int],
                        adjacency_wf(adj),
                        is_oracle(dense, n as int),
                        is_oracle(hybrid, n as int),
                        dfn == (|i: usize| key_of(dense, i)),
                        hfn == (|i: usize| key_of(hybrid, i)),
                        travel == if two_stage { dfn } else { hfn },
                        !done,
                        greedy_wf(greedy_state_of(cands@, results@, visited@, done), n as nat),
                        greedy_state_of(cands@, results@, visited@, done) == greedy_expand(st1, row@.take(j as int), travel, ef as nat),
                    decreases row@.len() - j,
                {
                    let nb = row[j];
                    assert(nb == adj[node as int][j as int]);
                    assert(nb < n);
                    let ghost before = greedy_state_of(cands@, results@, visited@, done);
                    assert(row@.take(j + 1).drop_last() =~= row@.take(j as int));
                    proof {
                        lemma_greedy_visit(before, nb, travel, ef as nat, n as nat);
                    }
                    if !visited[nb] {
                        visited.set(nb, true);
                        let nd = if two_stage { ask(&dense, nb, Ghost(n as int)) } else { ask(&hybrid, nb, Ghost(n as int)) };
                        let w = results[last_max_pos_exec(&results)].1;
                        if nd < w || results.len() < ef {
                            cands.push((nb, nd));
                            results.push((nb, nd));
                            if results.len() > ef {
                                let mp = last_max_pos_exec(&results);
                                results.swap_remove(mp);
                            }
                        }
                    }
                    assert(greedy_state_of(cands@, results@, visited@, done) =~= greedy_visit(before, nb, travel, ef as nat));
                    j = j + 1;
                }
                assert(row@.take(row@.len() as int) =~= row@);
            }
            let ghost nxt = greedy_state_of(cands@, results@, visited@, done);
            assert(nxt == greedy_step(cur, adj, travel, ef as nat));
            proof {
                lemma_greedy_fuel(nxt, adj, travel, ef as nat, greedy_measure(nxt), (greedy_measure(cur) - 1) as nat);
            }
        }
        let best = top_k_ascending(&results, k);
        proof {
            lemma_top_k_from_input(results@, k as int, false);
        }
        let mut ids: Vec<usize> = Vec::new();
        let mut u: usize = 0;
        while u < best.len()
            invariant
                u <= best@.len(),
                ids@ == ids_of(best@.take(u as int)),
                forall|q: int| 0 <= q < best@.len() ==> results@.contains(#[trigger] best@[q]),
                forall|q: int| 0 <= q < results@.len() ==> (#[trigger] results@[q]).0 < n,
                forall|q: int| 0 <= q < ids@.len() ==> (#[trigger] ids@[q]) < n,
            decreases best@.len() - u,
        {
            assert(results@.contains(best@[u as int]));
            ids.push(best[u].0);
            assert(ids@ =~= ids_of(best@.take(u + 1)));
            u = u + 1;
        }
        assert(best@.take(best@.len() as int) =~= best@);
        if !two_stage {
            return ids;
        }
        let mut rs: Vec<Scored> = Vec::new();
        let mut v: usize = 0;
        while v < ids.len()
            invariant
                v <= ids@.len(),
                is_oracle(hybrid, n as int),
                hfn == (|i: usize| key_of(hybrid, i)),
                forall|q: int| 0 <= q < ids@.len() ==> (#[trigger] ids@[q]) < n,
                rs@ == ids@.take(v as int).map_values(|i: usize| (i, hfn(i))),
            decreases ids@.len() - v,
        {
            let id = ids[v];
            let h = ask(&hybrid, id, Ghost(n as int));
            rs.push((id, h));
            assert(rs@ =~= ids@.take(v + 1).map_values(|i: usize| (i, hfn(i))));
            v = v + 1;
        }
        assert(ids@.take(ids@.len() as int) =~= ids@);
        let re = top_k_ascending(&rs, rs.len());
        let mut out: Vec<usize> = Vec::new();
        let mut w: usize = 0;
        while w < re.len()
            invariant
                w <= re@.len(),
                out@ == ids_of(re@.take(w as int)),
            decreases re@.len() - w,
        {
            out.push(re[w].0);
            assert(out@ =~= ids_of(re@.take(w + 1)));
            w = w + 1;
        }
        assert(re@.take(re@.len() as int) =~= re@);
        out
    }
}

/// Exact baseline over `n` stored vectors.
pub struct BruteForce {
    n: usize,
}

impl BruteForce {
    pub closed spec fn spec_len(&self) -> usize {
        self.n
    }

    /// A baseline over `n` stored vectors (the caller holds them).
    pub fn new(n: usize) -> (r: Self)
        ensures
            r.spec_len() == n,
    {
        BruteForce { n }
    }

    pub fn len(&self) -> (r: usize)
        ensures
            r == self.spec_len(),
    {
        self.n
    }

    /// The positions of the `k` smallest keys of `dist` (the fused distance
    /// of each stored vector to the query), nearest first; equal keys in
    /// position order.
    pub fn search<F: Fn(usize) -> u64>(&self, dist: F, k: usize) -> (r: Vec<usize>)
        requires
            is_oracle(dist, self.spec_len() as int),
        ensures
            r@ == ids_of(top_k_spec(scored_positions(dist, self.spec_len() as nat), k as int, false)),
    {
        let all = score_positions(&dist, self.n);
        let best = top_k_ascending(&all, k);
        ids_exec(&best)
    }
}

} // verus!
