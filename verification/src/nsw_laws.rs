//! Laws of the graph search: the distance-adaptive rule with a threshold
//! no larger than the k-th nearest key never evaluates more distances than
//! the standard rule.
use vstd::prelude::*;
use crate::nsw_search::{
    accept, adj_wf, lemma_push_found_bound, empty_state, expand, init_state, kth, lemma_max_key_pos, lemma_max_pos,
    lemma_min_pos, lemma_run_fuel, lemma_step_measure, max_key_pos, max_pos, measure, min_pos,
    push_found, run, search_result, seed, seed_all, starts, state_wf, step, stops, update_kbest,
    visit, worst, Cand, SearchState,
};

verus! {

/// Number of keys of `s` that are at most `v`.
pub open spec fn cnt_le(s: Seq<u64>, v: u64) -> nat
    decreases s.len(),
{
    if s.len() == 0 {
        0
    } else {
        cnt_le(s.drop_last(), v) + if s.last() <= v {
            1nat
        } else {
            0nat
        }
    }
}

pub open spec fn keys(s: Seq<Cand>) -> Seq<u64> {
    s.map_values(|c: Cand| c.0)
}

pub open spec fn min_n(a: nat, b: nat) -> nat {
    if a < b {
        a
    } else {
        b
    }
}

/// The k best keys and the found set hold the `k`, resp. `ef`, smallest keys
/// ever accepted, and every candidate's key was accepted.
pub open spec fn search_inv(st: SearchState, k: nat, ef: nat) -> bool {
    &&& forall|v: u64| #[trigger] cnt_le(st.kbest, v) == min_n(k, cnt_le(st.pushed, v))
    &&& forall|v: u64| #[trigger] cnt_le(keys(st.found), v) == min_n(ef, cnt_le(st.pushed, v))
    &&& forall|i: int| 0 <= i < st.cands.len() ==> st.pushed.contains(#[trigger] st.cands[i].0)
}

proof fn lemma_cnt_push(s: Seq<u64>, x: u64, v: u64)
    ensures
        cnt_le(s.push(x), v) == cnt_le(s, v) + if x <= v {
            1nat
        } else {
            0nat
        },
{
    assert(s.push(x).drop_last() =~= s);
}

proof fn lemma_cnt_remove(s: Seq<u64>, i: int, v: u64)
    requires
        0 <= i < s.len(),
    ensures
        cnt_le(s, v) == cnt_le(s.remove(i), v) + if s[i] <= v {
            1nat
        } else {
            0nat
        },
    decreases s.len(),
{
    if i == s.len() - 1 {
        assert(s.remove(i) =~= s.drop_last());
    } else {
        lemma_cnt_remove(s.drop_last(), i, v);
        assert(s.remove(i).drop_last() =~= s.drop_last().remove(i));
        assert(s.remove(i).last() == s.last());
    }
}

proof fn lemma_cnt_bounds(s: Seq<u64>, v: u64)
    ensures
        cnt_le(s, v) <= s.len(),
        (forall|i: int| 0 <= i < s.len() ==> #[trigger] s[i] <= v) ==> cnt_le(s, v) == s.len(),
        cnt_le(s, v) == s.len() ==> forall|i: int| 0 <= i < s.len() ==> #[trigger] s[i] <= v,
    decreases s.len(),
{
    if s.len() > 0 {
        let t = s.drop_last();
        lemma_cnt_bounds(t, v);
        if forall|i: int| 0 <= i < s.len() ==> #[trigger] s[i] <= v {
            assert forall|i: int| 0 <= i < t.len() implies #[trigger] t[i] <= v by {
                assert(t[i] == s[i]);
            }
        }
        if cnt_le(s, v) == s.len() {
            assert forall|i: int| 0 <= i < s.len() implies #[trigger] s[i] <= v by {
                if i < t.len() {
                    assert(t[i] == s[i]);
                }
            }
        }
    }
}

proof fn lemma_cnt_all(s: Seq<u64>)
    ensures
        cnt_le(s, u64::MAX) == s.len(),
{
    lemma_cnt_bounds(s, u64::MAX);
}

proof fn lemma_contains_le(s: Seq<u64>, x: u64, v: u64)
    requires
        s.contains(x),
        cnt_le(s, v) == s.len(),
    ensures
        x <= v,
{
    lemma_cnt_bounds(s, v);
}

/// Pushing `d` to a capped keep-smallest sequence `b` (then dropping the
/// element at `p`, a largest one, when over `cap`) keeps the count law.
proof fn lemma_capped_push(b: Seq<u64>, pushed: Seq<u64>, d: u64, cap: nat, r: Seq<u64>, p: int)
    requires
        forall|v: u64| #[trigger] cnt_le(b, v) == min_n(cap, cnt_le(pushed, v)),
        b.len() + 1 > cap ==> {
            &&& 0 <= p < b.len() + 1
            &&& forall|i: int| 0 <= i < b.len() + 1 ==> #[trigger] b.push(d)[i] <= b.push(d)[p]
            &&& r == b.push(d).remove(p)
        },
        b.len() + 1 <= cap ==> r == b.push(d),
    ensures
        forall|v: u64| #[trigger] cnt_le(r, v) == min_n(cap, cnt_le(pushed.push(d), v)),
{
    let b1 = b.push(d);
    assert forall|v: u64| #[trigger] cnt_le(r, v) == min_n(cap, cnt_le(pushed.push(d), v)) by {
        lemma_cnt_push(b, d, v);
        lemma_cnt_push(pushed, d, v);
        lemma_cnt_bounds(b, v);
        lemma_cnt_bounds(pushed, v);
        lemma_cnt_bounds(b1, v);
        lemma_cnt_all(b);
        lemma_cnt_all(pushed);
        assert(cnt_le(b, u64::MAX) == min_n(cap, cnt_le(pushed, u64::MAX)));
        if b.len() + 1 <= cap {
            assert(pushed.len() < cap);
            assert(cnt_le(pushed, v) <= pushed.len());
        } else {
            let m = b1[p];
            lemma_cnt_remove(b1, p, v);
            lemma_cnt_push(pushed, d, v);
            assert(b.len() == cap);
            if m <= v {
                assert(cnt_le(b1, v) == b1.len());
                assert forall|i: int| 0 <= i < b.len() implies #[trigger] b[i] <= v by {
                    assert(b1[i] == b[i]);
                }
                assert(cnt_le(b, v) == b.len());
            } else {
                assert(!(b1[p] <= v));
                if cnt_le(b1, v) == b1.len() {
                    assert(b1[p] <= v);
                }
            }
        }
    }
}

proof fn lemma_keys_push(s: Seq<Cand>, c: Cand)
    ensures
        keys(s.push(c)) == keys(s).push(c.0),
{
    assert(keys(s.push(c)) =~= keys(s).push(c.0));
}

proof fn lemma_keys_remove(s: Seq<Cand>, i: int)
    requires
        0 <= i < s.len(),
    ensures
        keys(s.remove(i)) == keys(s).remove(i),
{
    assert(keys(s.remove(i)) =~= keys(s).remove(i));
}

proof fn lemma_accept_inv(st: SearchState, d: u64, node: usize, k: nat, ef: nat)
    requires
        search_inv(st, k, ef),
    ensures
        search_inv(accept(st, d, node, k, ef), k, ef),
{
    let st2 = accept(st, d, node, k, ef);
    // found
    let f = st.found.push((d, node));
    lemma_keys_push(st.found, (d, node));
    if f.len() > ef {
        lemma_max_pos(f);
        let p = max_pos(f);
        lemma_keys_remove(f, p);
        assert forall|i: int| 0 <= i < keys(st.found).len() + 1 implies #[trigger] keys(st.found).push(d)[i]
            <= keys(st.found).push(d)[p] by {
            assert(keys(st.found).push(d)[i] == f[i].0);
            assert(keys(st.found).push(d)[p] == f[p].0);
        }
        lemma_capped_push(keys(st.found), st.pushed, d, ef, keys(st2.found), p);
    } else {
        lemma_capped_push(keys(st.found), st.pushed, d, ef, keys(st2.found), 0);
    }
    // k best
    let b = st.kbest;
    if d < kth(b) || b.len() < k {
        let b1 = b.push(d);
        if b1.len() > k {
            lemma_max_key_pos(b1);
            lemma_capped_push(b, st.pushed, d, k, st2.kbest, max_key_pos(b1));
        } else {
            lemma_capped_push(b, st.pushed, d, k, st2.kbest, 0);
        }
    } else {
        assert forall|v: u64| #[trigger] cnt_le(b, v) == min_n(k, cnt_le(st.pushed.push(d), v)) by {
            lemma_cnt_push(st.pushed, d, v);
            lemma_cnt_all(b);
            lemma_cnt_all(st.pushed);
            assert(cnt_le(b, u64::MAX) == min_n(k, cnt_le(st.pushed, u64::MAX)));
            lemma_cnt_bounds(b, v);
            if d <= v && b.len() > 0 {
                lemma_max_key_pos(b);
                assert forall|i: int| 0 <= i < b.len() implies #[trigger] b[i] <= v by {
                }
            }
        }
    }
    // candidates
    assert forall|i: int| 0 <= i < st2.cands.len() implies st2.pushed.contains(#[trigger] st2.cands[i].0) by {
        if i < st.cands.len() {
            assert(st.pushed.contains(st.cands[i].0));
            let j = choose|j: int| 0 <= j < st.pushed.len() && st.pushed[j] == st.cands[i].0;
            assert(st2.pushed[j] == st.pushed[j]);
        } else {
            assert(st2.pushed[st.pushed.len() as int] == d);
        }
    }
}

proof fn lemma_visit_inv(st: SearchState, nb: usize, dist: spec_fn(usize) -> u64, k: nat, ef: nat)
    requires
        search_inv(st, k, ef),
    ensures
        search_inv(visit(st, nb, dist, k, ef), k, ef),
{
    if !st.visited[nb as int] {
        let st1 = SearchState { visited: st.visited.update(nb as int, true), dist_ops: st.dist_ops + 1, ..st };
        lemma_accept_inv(st1, dist(nb), nb, k, ef);
    }
}

proof fn lemma_expand_inv(st: SearchState, nbrs: Seq<usize>, dist: spec_fn(usize) -> u64, k: nat, ef: nat)
    requires
        search_inv(st, k, ef),
    ensures
        search_inv(expand(st, nbrs, dist, k, ef), k, ef),
    decreases nbrs.len(),
{
    if nbrs.len() > 0 {
        lemma_expand_inv(st, nbrs.drop_last(), dist, k, ef);
        lemma_visit_inv(expand(st, nbrs.drop_last(), dist, k, ef), nbrs.last(), dist, k, ef);
    }
}

proof fn lemma_step_inv(st: SearchState, adj: Seq<Seq<usize>>, dist: spec_fn(usize) -> u64, k: nat, ef: nat)
    requires
        search_inv(st, k, ef),
        st.cands.len() > 0,
    ensures
        search_inv(step(st, adj, dist, k, ef), k, ef),
{
    lemma_min_pos(st.cands);
    let i = min_pos(st.cands);
    let st1 = SearchState { cands: st.cands.remove(i), ..st };
    assert forall|j: int| 0 <= j < st1.cands.len() implies st1.pushed.contains(#[trigger] st1.cands[j].0) by {
        if j < i {
            assert(st1.cands[j] == st.cands[j]);
        } else {
            assert(st1.cands[j] == st.cands[j + 1]);
        }
    }
    lemma_expand_inv(st1, adj[st.cands[i].1 as int], dist, k, ef);
}

proof fn lemma_init_inv(n: nat, dist: spec_fn(usize) -> u64, k: nat, ef: nat, ss: Seq<usize>)
    ensures
        search_inv(seed_all(empty_state(n), ss, dist, k, ef), k, ef),
    decreases ss.len(),
{
    if ss.len() == 0 {
        let st = empty_state(n);
        assert(keys(st.found) =~= Seq::<u64>::empty());
    } else {
        lemma_init_inv(n, dist, k, ef, ss.drop_last());
        let st = seed_all(empty_state(n), ss.drop_last(), dist, k, ef);
        let s = ss.last();
        let st1 = SearchState { visited: st.visited.update(s as int, true), dist_ops: st.dist_ops + 1, ..st };
        lemma_accept_inv(st1, dist(s), s, k, ef);
    }
}

/// Under the invariant, whenever the standard rule stops, a rule whose
/// threshold never exceeds its argument stops too.
proof fn lemma_standard_stop_implies_dabs_stop(st: SearchState, k: nat, ef: nat, thr: spec_fn(u64) -> u64)
    requires
        search_inv(st, k, ef),
        1 <= k <= ef,
        forall|x: u64| #[trigger] thr(x) <= x,
        stops(st, k, false, thr),
    ensures
        stops(st, k, true, thr),
{
    if st.cands.len() > 0 {
        lemma_min_pos(st.cands);
        let c = st.cands[min_pos(st.cands)].0;
        let f = keys(st.found);
        let p = st.pushed;
        let b = st.kbest;
        assert(f.len() == st.found.len());
        lemma_cnt_all(f);
        lemma_cnt_all(p);
        lemma_cnt_all(b);
        assert(cnt_le(f, u64::MAX) == min_n(ef, cnt_le(p, u64::MAX)));
        assert(cnt_le(b, u64::MAX) == min_n(k, cnt_le(p, u64::MAX)));
        assert(st.found.len() > 0);
        lemma_max_pos(st.found);
        let w = worst(st.found);
        assert forall|i: int| 0 <= i < f.len() implies #[trigger] f[i] <= w by {
            assert(f[i] == st.found[i].0);
        }
        lemma_cnt_bounds(f, w);
        lemma_cnt_bounds(p, w);
        assert(cnt_le(f, w) == min_n(ef, cnt_le(p, w)));
        assert(p.contains(c));
        if p.len() < ef {
            assert(cnt_le(p, w) == p.len());
            lemma_contains_le(p, c, w);
            assert(false);
        }
        assert(cnt_le(p, w) >= ef);
        assert(cnt_le(b, w) == min_n(k, cnt_le(p, w)));
        lemma_cnt_bounds(b, w);
        assert(b.len() == k);
        lemma_max_key_pos(b);
        assert(b[max_key_pos(b)] <= w);
        assert(thr(kth(b)) <= kth(b));
    }
}

proof fn lemma_ops_le(
    st: SearchState,
    adj: Seq<Seq<usize>>,
    dist: spec_fn(usize) -> u64,
    k: nat,
    ef: nat,
    thr: spec_fn(u64) -> u64,
    std_thr: spec_fn(u64) -> u64,
    f1: nat,
    f2: nat,
)
    requires
        search_inv(st, k, ef),
        state_wf(st, adj.len()),
        adj_wf(adj),
        1 <= k <= ef,
        forall|x: u64| #[trigger] thr(x) <= x,
        f1 >= measure(st),
        f2 >= measure(st),
    ensures
        run(st, adj, dist, k, ef, true, thr, f1).dist_ops <= run(st, adj, dist, k, ef, false, std_thr, f2).dist_ops,
    decreases measure(st),
{
    lemma_run_fuel(st, adj, dist, k, ef, false, std_thr, f2, f2);
    if !stops(st, k, true, thr) {
        if stops(st, k, false, thr) {
            lemma_standard_stop_implies_dabs_stop(st, k, ef, thr);
        }
        assert(stops(st, k, false, std_thr) == stops(st, k, false, thr));
        lemma_step_measure(st, adj, dist, k, ef);
        lemma_step_inv(st, adj, dist, k, ef);
        lemma_ops_le(step(st, adj, dist, k, ef), adj, dist, k, ef, thr, std_thr, (f1 - 1) as nat, (f2 - 1) as nat);
    }
}

/// The distance-adaptive search with a threshold that never exceeds the k-th
/// nearest key (γ = 0 gives the k-th nearest key itself) evaluates no more
/// distances than the standard beam search, for `1 <= k <= ef`.
pub proof fn lemma_dabs_no_more_ops(
    adj: Seq<Seq<usize>>,
    dist: spec_fn(usize) -> u64,
    k: nat,
    ef: nat,
    thr: spec_fn(u64) -> u64,
    std_thr: spec_fn(u64) -> u64,
)
    requires
        adj_wf(adj),
        adj.len() > 0,
        1 <= k <= ef,
        forall|x: u64| #[trigger] thr(x) <= x,
    ensures
        search_result(adj, dist, k, ef, true, thr).dist_ops <= search_result(adj, dist, k, ef, false, std_thr).dist_ops,
{
    let n = adj.len();
    let st0 = init_state(n, dist, k, ef);
    lemma_init_inv(n, dist, k, ef, starts(n));
    lemma_init_wf(n, dist, k, ef, starts(n));
    lemma_ops_le(st0, adj, dist, k, ef, thr, std_thr, measure(st0), measure(st0));
}

proof fn lemma_init_wf(n: nat, dist: spec_fn(usize) -> u64, k: nat, ef: nat, ss: Seq<usize>)
    requires
        forall|i: int| 0 <= i < ss.len() ==> (#[trigger] ss[i]) < n,
    ensures
        state_wf(seed_all(empty_state(n), ss, dist, k, ef), n),
    decreases ss.len(),
{
    if ss.len() > 0 {
        lemma_init_wf(n, dist, k, ef, ss.drop_last());
        let st = seed_all(empty_state(n), ss.drop_last(), dist, k, ef);
        let st2 = seed_all(empty_state(n), ss, dist, k, ef);
        assert(ss.last() < n);
        lemma_push_found_bound(st.found, (dist(ss.last()), ss.last()), ef, n);
        assert forall|i: int| 0 <= i < st2.cands.len() implies (#[trigger] st2.cands[i]).1 < n by {
            if i < st.cands.len() {
                assert(st2.cands[i] == st.cands[i]);
            }
        }
    }
}

/// With the standard rule, the threshold plays no part.
pub proof fn lemma_standard_ignores_threshold(
    st: SearchState,
    adj: Seq<Seq<usize>>,
    dist: spec_fn(usize) -> u64,
    k: nat,
    ef: nat,
    t1: spec_fn(u64) -> u64,
    t2: spec_fn(u64) -> u64,
    fuel: nat,
)
    ensures
        run(st, adj, dist, k, ef, false, t1, fuel) == run(st, adj, dist, k, ef, false, t2, fuel),
    decreases fuel,
{
    if fuel > 0 && !stops(st, k, false, t1) {
        lemma_standard_ignores_threshold(step(st, adj, dist, k, ef), adj, dist, k, ef, t1, t2, (fuel - 1) as nat);
    }
}


/// A search whose threshold is never above another's stops no later: its
/// rounds are the first rounds of the other search.
proof fn lemma_dabs_prefix(
    st: SearchState,
    adj: Seq<Seq<usize>>,
    dist: spec_fn(usize) -> u64,
    k: nat,
    ef: nat,
    thr1: spec_fn(u64) -> u64,
    thr2: spec_fn(u64) -> u64,
    f1: nat,
    f2: nat,
)
    requires
        state_wf(st, adj.len()),
        adj_wf(adj),
        forall|x: u64| #[trigger] thr1(x) <= thr2(x),
        f1 >= measure(st),
        f2 >= measure(st),
    ensures
        state_wf(run(st, adj, dist, k, ef, true, thr1, f1), adj.len()),
        measure(run(st, adj, dist, k, ef, true, thr1, f1)) <= measure(st),
        run(st, adj, dist, k, ef, true, thr2, f2) == run(
            run(st, adj, dist, k, ef, true, thr1, f1),
            adj,
            dist,
            k,
            ef,
            true,
            thr2,
            measure(run(st, adj, dist, k, ef, true, thr1, f1)),
        ),
    decreases measure(st),
{
    if stops(st, k, true, thr1) {
        lemma_run_fuel(st, adj, dist, k, ef, true, thr2, f2, measure(st));
    } else {
        assert(!stops(st, k, true, thr2)) by {
            if st.cands.len() > 0 && st.kbest.len() >= k {
                assert(thr1(kth(st.kbest)) <= thr2(kth(st.kbest)));
            }
        }
        lemma_step_measure(st, adj, dist, k, ef);
        lemma_dabs_prefix(step(st, adj, dist, k, ef), adj, dist, k, ef, thr1, thr2, (f1 - 1) as nat, (f2 - 1) as nat);
    }
}

/// Lowering the distance-adaptive threshold never makes the search longer:
/// with `thr1` nowhere above `thr2` (a smaller γ), the `thr2` search is the
/// `thr1` search continued by further rounds, so it expands everything the
/// `thr1` search expands, in the same order, and evaluates at least as many
/// distances.
pub proof fn lemma_dabs_threshold_monotone(
    adj: Seq<Seq<usize>>,
    dist: spec_fn(usize) -> u64,
    k: nat,
    ef: nat,
    thr1: spec_fn(u64) -> u64,
    thr2: spec_fn(u64) -> u64,
)
    requires
        adj_wf(adj),
        adj.len() > 0,
        forall|x: u64| #[trigger] thr1(x) <= thr2(x),
    ensures
        search_result(adj, dist, k, ef, true, thr2) == run(
            search_result(adj, dist, k, ef, true, thr1),
            adj,
            dist,
            k,
            ef,
            true,
            thr2,
            measure(search_result(adj, dist, k, ef, true, thr1)),
        ),
        search_result(adj, dist, k, ef, true, thr1).dist_ops <= search_result(adj, dist, k, ef, true, thr2).dist_ops,
{
    let n = adj.len();
    let st0 = init_state(n, dist, k, ef);
    lemma_init_wf(n, dist, k, ef, starts(n));
    lemma_dabs_prefix(st0, adj, dist, k, ef, thr1, thr2, measure(st0), measure(st0));
    let r1 = search_result(adj, dist, k, ef, true, thr1);
    lemma_run_fuel(r1, adj, dist, k, ef, true, thr2, measure(r1), measure(r1));
}


/// The found entries are distinct visited nodes below `bound`, and so are
/// the candidates' nodes below `bound`.
pub open spec fn found_sound(st: SearchState, bound: nat) -> bool {
    &&& forall|i: int| 0 <= i < st.found.len() ==> (#[trigger] st.found[i]).1 < bound && st.visited[st.found[i].1 as int]
    &&& forall|a: int, b: int| 0 <= a < b < st.found.len() ==> (#[trigger] st.found[a]).1 != (#[trigger] st.found[b]).1
    &&& forall|i: int| 0 <= i < st.cands.len() ==> (#[trigger] st.cands[i]).1 < bound
}

proof fn lemma_accept_sound(st: SearchState, d: u64, node: usize, k: nat, ef: nat, bound: nat)
    requires
        found_sound(st, bound),
        node < bound,
        st.visited[node as int],
        forall|i: int| 0 <= i < st.found.len() ==> (#[trigger] st.found[i]).1 != node,
    ensures
        found_sound(accept(st, d, node, k, ef), bound),
        accept(st, d, node, k, ef).visited == st.visited,
{
    let f = st.found.push((d, node));
    assert forall|a: int, b: int| 0 <= a < b < f.len() implies (#[trigger] f[a]).1 != (#[trigger] f[b]).1 by {
        if b == st.found.len() {
            assert(f[a] == st.found[a]);
        } else {
            assert(f[a] == st.found[a] && f[b] == st.found[b]);
        }
    }
    assert forall|i: int| 0 <= i < f.len() implies (#[trigger] f[i]).1 < bound && st.visited[f[i].1 as int] by {
        if i < st.found.len() {
            assert(f[i] == st.found[i]);
        }
    }
    if f.len() > ef {
        lemma_max_pos(f);
        let p = max_pos(f);
        let r = f.remove(p);
        assert forall|i: int| 0 <= i < r.len() implies (#[trigger] r[i]).1 < bound && st.visited[r[i].1 as int] by {
            if i < p {
                assert(r[i] == f[i]);
            } else {
                assert(r[i] == f[i + 1]);
            }
        }
        assert forall|a: int, b: int| 0 <= a < b < r.len() implies (#[trigger] r[a]).1 != (#[trigger] r[b]).1 by {
            let fa = if a < p { a } else { a + 1 };
            let fb = if b < p { b } else { b + 1 };
            assert(r[a] == f[fa] && r[b] == f[fb]);
        }
    }
    let st2 = accept(st, d, node, k, ef);
    assert forall|i: int| 0 <= i < st2.cands.len() implies (#[trigger] st2.cands[i]).1 < bound by {
        if i < st.cands.len() {
            assert(st2.cands[i] == st.cands[i]);
        }
    }
}

proof fn lemma_visit_sound(st: SearchState, nb: usize, dist: spec_fn(usize) -> u64, k: nat, ef: nat, bound: nat)
    requires
        found_sound(st, bound),
        nb < bound,
        bound <= st.visited.len(),
    ensures
        found_sound(visit(st, nb, dist, k, ef), bound),
        visit(st, nb, dist, k, ef).visited.len() == st.visited.len(),
{
    if !st.visited[nb as int] {
        let st1 = SearchState { visited: st.visited.update(nb as int, true), dist_ops: st.dist_ops + 1, ..st };
        assert forall|i: int| 0 <= i < st1.found.len() implies (#[trigger] st1.found[i]).1 < bound && st1.visited[st1.found[i].1 as int] by {
        }
        assert forall|i: int| 0 <= i < st1.found.len() implies (#[trigger] st1.found[i]).1 != nb by {
        }
        if dist(nb) < worst(st.found) || st.found.len() < ef {
            lemma_accept_sound(st1, dist(nb), nb, k, ef, bound);
        }
    }
}

proof fn lemma_expand_sound(st: SearchState, nbrs: Seq<usize>, dist: spec_fn(usize) -> u64, k: nat, ef: nat, bound: nat)
    requires
        found_sound(st, bound),
        bound <= st.visited.len(),
        forall|j: int| 0 <= j < nbrs.len() ==> (#[trigger] nbrs[j]) < bound,
    ensures
        found_sound(expand(st, nbrs, dist, k, ef), bound),
        expand(st, nbrs, dist, k, ef).visited.len() == st.visited.len(),
    decreases nbrs.len(),
{
    if nbrs.len() > 0 {
        let p = nbrs.drop_last();
        assert forall|j: int| 0 <= j < p.len() implies (#[trigger] p[j]) < bound by {
            assert(p[j] == nbrs[j]);
        }
        lemma_expand_sound(st, p, dist, k, ef, bound);
        lemma_visit_sound(expand(st, p, dist, k, ef), nbrs.last(), dist, k, ef, bound);
    }
}

proof fn lemma_run_sound(
    st: SearchState,
    adj: Seq<Seq<usize>>,
    dist: spec_fn(usize) -> u64,
    k: nat,
    ef: nat,
    dabs: bool,
    thr: spec_fn(u64) -> u64,
    fuel: nat,
    bound: nat,
)
    requires
        found_sound(st, bound),
        bound <= st.visited.len(),
        bound <= adj.len(),
        forall|i: int, j: int| 0 <= i < adj.len() && 0 <= j < adj[i].len() ==> (#[trigger] adj[i][j]) < bound,
    ensures
        found_sound(run(st, adj, dist, k, ef, dabs, thr, fuel), bound),
    decreases fuel,
{
    if !(fuel == 0 || stops(st, k, dabs, thr)) {
        lemma_min_pos(st.cands);
        let i = min_pos(st.cands);
        let node = st.cands[i].1;
        let st1 = SearchState { cands: st.cands.remove(i), ..st };
        assert forall|q: int| 0 <= q < st1.cands.len() implies (#[trigger] st1.cands[q]).1 < bound by {
            if q < i {
                assert(st1.cands[q] == st.cands[q]);
            } else {
                assert(st1.cands[q] == st.cands[q + 1]);
            }
        }
        assert forall|j: int| 0 <= j < adj[node as int].len() implies (#[trigger] adj[node as int][j]) < bound by {
        }
        lemma_expand_sound(st1, adj[node as int], dist, k, ef, bound);
        lemma_run_sound(step(st, adj, dist, k, ef), adj, dist, k, ef, dabs, thr, (fuel - 1) as nat, bound);
    }
}

proof fn lemma_seed_all_sound(n: nat, ss: Seq<usize>, dist: spec_fn(usize) -> u64, k: nat, ef: nat, bound: nat)
    requires
        bound <= n,
        forall|j: int| 0 <= j < ss.len() ==> (#[trigger] ss[j]) < bound,
        forall|a: int, b: int| 0 <= a < b < ss.len() ==> #[trigger] ss[a] != #[trigger] ss[b],
    ensures
        found_sound(seed_all(empty_state(n), ss, dist, k, ef), bound),
        seed_all(empty_state(n), ss, dist, k, ef).visited.len() == n,
        forall|i: int| 0 <= i < seed_all(empty_state(n), ss, dist, k, ef).found.len()
            ==> ss.contains(#[trigger] seed_all(empty_state(n), ss, dist, k, ef).found[i].1),
    decreases ss.len(),
{
    if ss.len() > 0 {
        let p = ss.drop_last();
        let s = ss.last();
        assert forall|j: int| 0 <= j < p.len() implies (#[trigger] p[j]) < bound by {
            assert(p[j] == ss[j]);
        }
        assert forall|a: int, b: int| 0 <= a < b < p.len() implies #[trigger] p[a] != #[trigger] p[b] by {
            assert(p[a] == ss[a] && p[b] == ss[b]);
        }
        lemma_seed_all_sound(n, p, dist, k, ef, bound);
        let st = seed_all(empty_state(n), p, dist, k, ef);
        let st1 = SearchState { visited: st.visited.update(s as int, true), dist_ops: st.dist_ops + 1, ..st };
        assert forall|i: int| 0 <= i < st1.found.len() implies (#[trigger] st1.found[i]).1 != s by {
            assert(p.contains(st.found[i].1));
            let q = choose|q: int| 0 <= q < p.len() && p[q] == st.found[i].1;
            assert(ss[q] == p[q]);
        }
        assert forall|i: int| 0 <= i < st1.found.len() implies (#[trigger] st1.found[i]).1 < bound && st1.visited[st1.found[i].1 as int] by {
        }
        lemma_accept_sound(st1, dist(s), s, k, ef, bound);
        let st2 = seed_all(empty_state(n), ss, dist, k, ef);
        assert(st2 == accept(st1, dist(s), s, k, ef));
        assert forall|i: int| 0 <= i < st2.found.len() implies ss.contains(#[trigger] st2.found[i].1) by {
            // Each entry is an earlier seed or `s`.
            let f = st.found.push((dist(s), s));
            assert(forall|q: int| 0 <= q < f.len() ==> ss.contains(#[trigger] f[q].1)) by {
                assert forall|q: int| 0 <= q < f.len() implies ss.contains(#[trigger] f[q].1) by {
                    if q < st.found.len() {
                        assert(f[q] == st.found[q]);
                        let w = choose|w: int| 0 <= w < p.len() && p[w] == st.found[q].1;
                        assert(ss[w] == p[w]);
                    } else {
                        assert(ss[ss.len() - 1] == s);
                    }
                }
            }
            if f.len() > ef {
                lemma_max_pos(f);
                let pp = max_pos(f);
                let fi = if i < pp { i } else { i + 1 };
                assert(st2.found[i] == f[fi]);
            } else {
                assert(st2.found[i] == f[i]);
            }
        }
    } else {
        let st = empty_state(n);
        assert(st.found.len() == 0 && st.cands.len() == 0);
    }
}

/// In a graph of at least five nodes whose links all point below `bound`
/// (at least `3n/4 + 1`), a search finds distinct nodes below `bound`.
pub proof fn lemma_search_found_sound(
    adj: Seq<Seq<usize>>,
    dist: spec_fn(usize) -> u64,
    k: nat,
    ef: nat,
    dabs: bool,
    thr: spec_fn(u64) -> u64,
    bound: nat,
)
    requires
        5 <= adj.len() <= usize::MAX,
        (3 * adj.len()) / 4 < bound <= adj.len(),
        forall|i: int, j: int| 0 <= i < adj.len() && 0 <= j < adj[i].len() ==> (#[trigger] adj[i][j]) < bound,
    ensures
        found_sound(search_result(adj, dist, k, ef, dabs, thr), bound),
{
    let n = adj.len();
    let ss = starts(n);
    assert(n / 4 > 0 && n / 4 < n / 2 && n / 2 < (3 * n) / 4);
    assert forall|j: int| 0 <= j < ss.len() implies (#[trigger] ss[j]) < bound by {}
    assert(ss[0] == 0 && ss[1] == (n / 4) as usize && ss[2] == (n / 2) as usize && ss[3] == ((3 * n) / 4) as usize);
    assert(ss[0] < ss[1] && ss[1] < ss[2] && ss[2] < ss[3]);
    assert forall|a: int, b: int| 0 <= a < b < ss.len() implies #[trigger] ss[a] != #[trigger] ss[b] by {}
    lemma_seed_all_sound(n, ss, dist, k, ef, bound);
    let st0 = init_state(n, dist, k, ef);
    lemma_run_sound(st0, adj, dist, k, ef, dabs, thr, measure(st0), bound);
}

} // verus!
