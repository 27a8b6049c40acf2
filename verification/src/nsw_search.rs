//! The beam search over a navigable-small-world graph, as a state machine.
//!
//! A search keeps a candidate list, a found set of at most `ef` entries, the
//! `k` smallest keys seen, and the visited nodes.  It stops either in the
//! standard way (the nearest candidate is farther than the worst found entry)
//! or by the distance-adaptive rule (the nearest candidate is farther than a
//! threshold derived from the current k-th nearest key).
use vstd::prelude::*;

verus! {

/// A candidate: the key of its distance to the query, and the node.
pub type Cand = (u64, usize);

/// Lexicographic order on (key, node).
pub open spec fn lex_lt(a: Cand, b: Cand) -> bool {
    a.0 < b.0 || (a.0 == b.0 && a.1 < b.1)
}

/// Position of the smallest candidate (the first one among equals).
pub open spec fn min_pos(s: Seq<Cand>) -> int
    decreases s.len(),
{
    if s.len() <= 1 {
        0
    } else {
        let m = min_pos(s.drop_last());
        if lex_lt(s.last(), s[m]) {
            s.len() - 1
        } else {
            m
        }
    }
}

/// Position of the largest candidate (the first one among equals).
pub open spec fn max_pos(s: Seq<Cand>) -> int
    decreases s.len(),
{
    if s.len() <= 1 {
        0
    } else {
        let m = max_pos(s.drop_last());
        if lex_lt(s[m], s.last()) {
            s.len() - 1
        } else {
            m
        }
    }
}

/// Position of the largest key (the first one among equals).
pub open spec fn max_key_pos(s: Seq<u64>) -> int
    decreases s.len(),
{
    if s.len() <= 1 {
        0
    } else {
        let m = max_key_pos(s.drop_last());
        if s[m] < s.last() {
            s.len() - 1
        } else {
            m
        }
    }
}

/// The largest of the k best keys, or the top key when there is none.
pub open spec fn kth(kbest: Seq<u64>) -> u64 {
    if kbest.len() == 0 {
        u64::MAX
    } else {
        kbest[max_key_pos(kbest)]
    }
}

/// The key of the worst found entry, or the top key when there is none.
pub open spec fn worst(found: Seq<Cand>) -> u64 {
    if found.len() == 0 {
        u64::MAX
    } else {
        found[max_pos(found)].0
    }
}

/// Adds `c` to the found set, then drops its largest entry when it holds more than `ef`.
pub open spec fn push_found(found: Seq<Cand>, c: Cand, ef: nat) -> Seq<Cand> {
    let f = found.push(c);
    if f.len() > ef {
        f.remove(max_pos(f))
    } else {
        f
    }
}

/// Adds `d` to the k best keys when it is smaller than the k-th or there are
/// fewer than `k`, then drops the largest when there are more than `k`.
pub open spec fn update_kbest(kbest: Seq<u64>, d: u64, k: nat) -> Seq<u64> {
    if d < kth(kbest) || kbest.len() < k {
        let b = kbest.push(d);
        if b.len() > k {
            b.remove(max_key_pos(b))
        } else {
            b
        }
    } else {
        kbest
    }
}

/// The state of a search.  `pushed` lists every key ever accepted; it is
/// bookkeeping for the proofs and has no counterpart at run time.
pub struct SearchState {
    pub cands: Seq<Cand>,
    pub found: Seq<Cand>,
    pub kbest: Seq<u64>,
    pub visited: Seq<bool>,
    pub dist_ops: nat,
    pub pushed: Seq<u64>,
}

/// A scored node enters the candidates, the found set and the k best.
pub open spec fn accept(st: SearchState, d: u64, node: usize, k: nat, ef: nat) -> SearchState {
    SearchState {
        cands: st.cands.push((d, node)),
        found: push_found(st.found, (d, node), ef),
        kbest: update_kbest(st.kbest, d, k),
        pushed: st.pushed.push(d),
        ..st
    }
}

/// Scores a start node: it is marked visited, counted, and accepted.
pub open spec fn seed(st: SearchState, s: usize, dist: spec_fn(usize) -> u64, k: nat, ef: nat) -> SearchState {
    accept(
        SearchState { visited: st.visited.update(s as int, true), dist_ops: st.dist_ops + 1, ..st },
        dist(s),
        s,
        k,
        ef,
    )
}

/// The four evenly spaced entry points of a graph of `n` nodes.
pub open spec fn starts(n: nat) -> Seq<usize> {
    seq![0usize, (n / 4) as usize, (n / 2) as usize, ((3 * n) / 4) as usize]
}

pub open spec fn seed_all(st: SearchState, ss: Seq<usize>, dist: spec_fn(usize) -> u64, k: nat, ef: nat) -> SearchState
    decreases ss.len(),
{
    if ss.len() == 0 {
        st
    } else {
        seed(seed_all(st, ss.drop_last(), dist, k, ef), ss.last(), dist, k, ef)
    }
}

pub open spec fn empty_state(n: nat) -> SearchState {
    SearchState {
        cands: Seq::empty(),
        found: Seq::empty(),
        kbest: Seq::empty(),
        visited: Seq::new(n, |i: int| false),
        dist_ops: 0,
        pushed: Seq::empty(),
    }
}

/// The state after scoring the entry points.
pub open spec fn init_state(n: nat, dist: spec_fn(usize) -> u64, k: nat, ef: nat) -> SearchState {
    seed_all(empty_state(n), starts(n), dist, k, ef)
}

/// Visits neighbour `nb`: an unvisited node is marked, counted, and accepted
/// when it beats the worst found entry or the found set is not full.
pub open spec fn visit(st: SearchState, nb: usize, dist: spec_fn(usize) -> u64, k: nat, ef: nat) -> SearchState {
    if st.visited[nb as int] {
        st
    } else {
        let st1 = SearchState { visited: st.visited.update(nb as int, true), dist_ops: st.dist_ops + 1, ..st };
        let d = dist(nb);
        if d < worst(st.found) || st.found.len() < ef {
            accept(st1, d, nb, k, ef)
        } else {
            st1
        }
    }
}

pub open spec fn expand(st: SearchState, nbrs: Seq<usize>, dist: spec_fn(usize) -> u64, k: nat, ef: nat) -> SearchState
    decreases nbrs.len(),
{
    if nbrs.len() == 0 {
        st
    } else {
        visit(expand(st, nbrs.drop_last(), dist, k, ef), nbrs.last(), dist, k, ef)
    }
}

/// The search stops: no candidate is left, or the nearest one fails the rule.
pub open spec fn stops(st: SearchState, k: nat, dabs: bool, thr: spec_fn(u64) -> u64) -> bool {
    st.cands.len() == 0 || {
        let c = st.cands[min_pos(st.cands)].0;
        if dabs {
            st.kbest.len() >= k && c > thr(kth(st.kbest))
        } else {
            c > worst(st.found)
        }
    }
}

/// One round: take the nearest candidate out and visit its neighbours.
pub open spec fn step(st: SearchState, adj: Seq<Seq<usize>>, dist: spec_fn(usize) -> u64, k: nat, ef: nat) -> SearchState {
    let i = min_pos(st.cands);
    let node = st.cands[i].1;
    expand(SearchState { cands: st.cands.remove(i), ..st }, adj[node as int], dist, k, ef)
}

/// Runs rounds until the search stops (or `fuel` rounds were made).
pub open spec fn run(
    st: SearchState,
    adj: Seq<Seq<usize>>,
    dist: spec_fn(usize) -> u64,
    k: nat,
    ef: nat,
    dabs: bool,
    thr: spec_fn(u64) -> u64,
    fuel: nat,
) -> SearchState
    decreases fuel,
{
    if fuel == 0 || stops(st, k, dabs, thr) {
        st
    } else {
        run(step(st, adj, dist, k, ef), adj, dist, k, ef, dabs, thr, (fuel - 1) as nat)
    }
}

/// Number of `false` entries.
pub open spec fn count_false(s: Seq<bool>) -> nat
    decreases s.len(),
{
    if s.len() == 0 {
        0
    } else {
        count_false(s.drop_last()) + if s.last() {
            0nat
        } else {
            1nat
        }
    }
}

/// A bound on the rounds left: candidates plus unvisited nodes.
pub open spec fn measure(st: SearchState) -> nat {
    st.cands.len() + count_false(st.visited)
}

/// Every neighbour id is a node of the graph.
pub open spec fn adj_wf(adj: Seq<Seq<usize>>) -> bool {
    forall|i: int, j: int| 0 <= i < adj.len() && 0 <= j < adj[i].len() ==> (#[trigger] adj[i][j]) < adj.len()
}

/// The search state fits a graph of `n` nodes.
pub open spec fn state_wf(st: SearchState, n: nat) -> bool {
    &&& st.visited.len() == n
    &&& forall|i: int| 0 <= i < st.cands.len() ==> (#[trigger] st.cands[i]).1 < n
    &&& forall|i: int| 0 <= i < st.found.len() ==> (#[trigger] st.found[i]).1 < n
}

/// Entries of the found set stay nodes of the graph.
pub proof fn lemma_push_found_bound(found: Seq<Cand>, c: Cand, ef: nat, n: nat)
    requires
        forall|i: int| 0 <= i < found.len() ==> (#[trigger] found[i]).1 < n,
        c.1 < n,
    ensures
        forall|i: int| 0 <= i < push_found(found, c, ef).len() ==> (#[trigger] push_found(found, c, ef)[i]).1 < n,
{
    let f = found.push(c);
    assert forall|i: int| 0 <= i < f.len() implies (#[trigger] f[i]).1 < n by {
        if i < found.len() {
            assert(f[i] == found[i]);
        }
    }
    if f.len() > ef {
        lemma_max_pos(f);
        let p = max_pos(f);
        let r = f.remove(p);
        assert forall|i: int| 0 <= i < r.len() implies (#[trigger] r[i]).1 < n by {
            if i < p {
                assert(r[i] == f[i]);
            } else {
                assert(r[i] == f[i + 1]);
            }
        }
    }
}

/// The final state of a search of a graph with adjacency `adj`.
pub open spec fn search_result(
    adj: Seq<Seq<usize>>,
    dist: spec_fn(usize) -> u64,
    k: nat,
    ef: nat,
    dabs: bool,
    thr: spec_fn(u64) -> u64,
) -> SearchState {
    let st0 = init_state(adj.len(), dist, k, ef);
    run(st0, adj, dist, k, ef, dabs, thr, measure(st0))
}

// ---------------------------------------------------------------------------
// Positions of extremes
// ---------------------------------------------------------------------------

pub proof fn lemma_min_pos(s: Seq<Cand>)
    requires
        s.len() > 0,
    ensures
        0 <= min_pos(s) < s.len(),
        forall|i: int| 0 <= i < s.len() ==> !lex_lt(#[trigger] s[i], s[min_pos(s)]),
    decreases s.len(),
{
    if s.len() > 1 {
        let t = s.drop_last();
        lemma_min_pos(t);
        let m = min_pos(t);
        assert forall|i: int| 0 <= i < s.len() implies !lex_lt(#[trigger] s[i], s[min_pos(s)]) by {
            if i < s.len() - 1 {
                assert(s[i] == t[i]);
                assert(!lex_lt(t[i], t[m]));
            }
        }
    }
}

pub proof fn lemma_max_pos(s: Seq<Cand>)
    requires
        s.len() > 0,
    ensures
        0 <= max_pos(s) < s.len(),
        forall|i: int| 0 <= i < s.len() ==> !lex_lt(s[max_pos(s)], #[trigger] s[i]),
        forall|i: int| 0 <= i < s.len() ==> (#[trigger] s[i]).0 <= s[max_pos(s)].0,
    decreases s.len(),
{
    if s.len() > 1 {
        let t = s.drop_last();
        lemma_max_pos(t);
        let m = max_pos(t);
        assert forall|i: int| 0 <= i < s.len() implies !lex_lt(s[max_pos(s)], #[trigger] s[i]) && s[i].0 <= s[max_pos(s)].0 by {
            if i < s.len() - 1 {
                assert(s[i] == t[i]);
                assert(!lex_lt(t[m], t[i]));
                assert(t[i].0 <= t[m].0);
            }
        }
    }
}

pub proof fn lemma_max_key_pos(s: Seq<u64>)
    requires
        s.len() > 0,
    ensures
        0 <= max_key_pos(s) < s.len(),
        forall|i: int| 0 <= i < s.len() ==> #[trigger] s[i] <= s[max_key_pos(s)],
    decreases s.len(),
{
    if s.len() > 1 {
        let t = s.drop_last();
        lemma_max_key_pos(t);
        let m = max_key_pos(t);
        assert forall|i: int| 0 <= i < s.len() implies #[trigger] s[i] <= s[max_key_pos(s)] by {
            if i < s.len() - 1 {
                assert(s[i] == t[i]);
                assert(t[i] <= t[m]);
            }
        }
    }
}

// ---------------------------------------------------------------------------
// Termination measure
// ---------------------------------------------------------------------------

pub proof fn lemma_count_false_update(s: Seq<bool>, i: int)
    requires
        0 <= i < s.len(),
    ensures
        count_false(s.update(i, true)) == if s[i] {
            count_false(s)
        } else {
            (count_false(s) - 1) as nat
        },
        count_false(s) <= s.len(),
        !s[i] ==> count_false(s) >= 1,
    decreases s.len(),
{
    let t = s.update(i, true);
    if i == s.len() - 1 {
        assert(t.drop_last() =~= s.drop_last());
        lemma_count_false_le(s.drop_last());
    } else {
        assert(t.drop_last() =~= s.drop_last().update(i, true));
        lemma_count_false_update(s.drop_last(), i);
    }
}

pub proof fn lemma_count_false_le(s: Seq<bool>)
    ensures
        count_false(s) <= s.len(),
    decreases s.len(),
{
    if s.len() > 0 {
        lemma_count_false_le(s.drop_last());
    }
}

pub proof fn lemma_count_false_new(n: nat)
    ensures
        count_false(Seq::new(n, |i: int| false)) == n,
    decreases n,
{
    if n > 0 {
        assert(Seq::new(n, |i: int| false).drop_last() =~= Seq::new((n - 1) as nat, |i: int| false));
        lemma_count_false_new((n - 1) as nat);
    }
}

proof fn lemma_visit_measure(st: SearchState, nb: usize, dist: spec_fn(usize) -> u64, k: nat, ef: nat, n: nat)
    requires
        state_wf(st, n),
        nb < n,
    ensures
        state_wf(visit(st, nb, dist, k, ef), n),
        measure(visit(st, nb, dist, k, ef)) <= measure(st),
        visit(st, nb, dist, k, ef).dist_ops >= st.dist_ops,
{
    if !st.visited[nb as int] {
        lemma_count_false_update(st.visited, nb as int);
        lemma_push_found_bound(st.found, (dist(nb), nb), ef, n);
        let st2 = visit(st, nb, dist, k, ef);
        assert forall|i: int| 0 <= i < st2.cands.len() implies (#[trigger] st2.cands[i]).1 < n by {
            if i < st.cands.len() {
                assert(st2.cands[i] == st.cands[i]);
            }
        }
    }
}

proof fn lemma_expand_measure(
    st: SearchState,
    nbrs: Seq<usize>,
    dist: spec_fn(usize) -> u64,
    k: nat,
    ef: nat,
    n: nat,
)
    requires
        state_wf(st, n),
        forall|j: int| 0 <= j < nbrs.len() ==> (#[trigger] nbrs[j]) < n,
    ensures
        state_wf(expand(st, nbrs, dist, k, ef), n),
        measure(expand(st, nbrs, dist, k, ef)) <= measure(st),
        expand(st, nbrs, dist, k, ef).dist_ops >= st.dist_ops,
    decreases nbrs.len(),
{
    if nbrs.len() > 0 {
        lemma_expand_measure(st, nbrs.drop_last(), dist, k, ef, n);
        lemma_visit_measure(expand(st, nbrs.drop_last(), dist, k, ef), nbrs.last(), dist, k, ef, n);
    }
}

pub proof fn lemma_step_measure(st: SearchState, adj: Seq<Seq<usize>>, dist: spec_fn(usize) -> u64, k: nat, ef: nat)
    requires
        state_wf(st, adj.len()),
        adj_wf(adj),
        st.cands.len() > 0,
    ensures
        state_wf(step(st, adj, dist, k, ef), adj.len()),
        measure(step(st, adj, dist, k, ef)) < measure(st),
        step(st, adj, dist, k, ef).dist_ops >= st.dist_ops,
{
    lemma_min_pos(st.cands);
    let i = min_pos(st.cands);
    let node = st.cands[i].1;
    let st1 = SearchState { cands: st.cands.remove(i), ..st };
    assert(state_wf(st1, adj.len())) by {
        assert forall|j: int| 0 <= j < st1.cands.len() implies (#[trigger] st1.cands[j]).1 < adj.len() by {
            if j < i {
                assert(st1.cands[j] == st.cands[j]);
            } else {
                assert(st1.cands[j] == st.cands[j + 1]);
            }
        }
    }
    assert forall|j: int| 0 <= j < adj[node as int].len() implies (#[trigger] adj[node as int][j]) < adj.len() by {
    }
    lemma_expand_measure(st1, adj[node as int], dist, k, ef, adj.len());
}

/// Runs with enough fuel agree, and never lose distance evaluations.
pub proof fn lemma_run_fuel(
    st: SearchState,
    adj: Seq<Seq<usize>>,
    dist: spec_fn(usize) -> u64,
    k: nat,
    ef: nat,
    dabs: bool,
    thr: spec_fn(u64) -> u64,
    f1: nat,
    f2: nat,
)
    requires
        state_wf(st, adj.len()),
        adj_wf(adj),
        f1 >= measure(st),
        f2 >= measure(st),
    ensures
        run(st, adj, dist, k, ef, dabs, thr, f1) == run(st, adj, dist, k, ef, dabs, thr, f2),
        run(st, adj, dist, k, ef, dabs, thr, f1).dist_ops >= st.dist_ops,
        stops(run(st, adj, dist, k, ef, dabs, thr, f1), k, dabs, thr),
    decreases measure(st),
{
    if !stops(st, k, dabs, thr) {
        lemma_step_measure(st, adj, dist, k, ef);
        let st2 = step(st, adj, dist, k, ef);
        lemma_run_fuel(st2, adj, dist, k, ef, dabs, thr, (f1 - 1) as nat, (f2 - 1) as nat);
    }
}

} // verus!
