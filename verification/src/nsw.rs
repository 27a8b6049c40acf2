//! Navigable-small-world graph with standard and distance-adaptive (DABS)
//! beam search.
use vstd::prelude::*;
use crate::nsw_search::{
    adj_wf, count_false, empty_state, expand, init_state, kth, lemma_count_false_le,
    lemma_count_false_new, lemma_count_false_update, lemma_push_found_bound, lemma_max_key_pos, lemma_max_pos, lemma_min_pos, lemma_run_fuel,
    lemma_step_measure, max_key_pos, max_pos, measure, min_pos, push_found, run, search_result,
    seed_all, starts, state_wf, step, stops, update_kbest, visit, worst, Cand, SearchState,
};
use crate::nsw_laws::{found_sound, lemma_search_found_sound, lemma_standard_ignores_threshold};
use crate::hybrid::lemma_nearest_earlier;
use crate::oracle::{
    is_key_map, is_oracle, is_pair_oracle, key_of, keys_fn, map_key, mapped_key, pair_key_of,
    FnKeys, KeyOracle, RowKeys,
};
use crate::rank::{Scored, lemma_top_k_from_input, lemma_top_k_ids_distinct, lemma_top_k_properties, top_k_ascending, top_k_spec};

verus! {

/// Output of a search: the hits, nearest first, and how many distances were evaluated.
pub struct SearchStats {
    pub hits: Vec<Scored>,
    pub dist_ops: u64,
}

/// The hits a final search state gives: the `k` nearest found entries.
pub open spec fn hits_of(st: SearchState, k: nat) -> Seq<Scored> {
    top_k_spec(st.found.map_values(|c: Cand| (c.1, c.0)), k as int, false)
}

/// The spec function behind a key map.
pub open spec fn thr_fn<G: Fn(u64) -> u64>(g: G) -> spec_fn(u64) -> u64 {
    |x: u64| mapped_key(g, x)
}


/// A neighbour list of node `owner` in a graph of `n` nodes: at most `cap`
/// entries, all nodes other than the owner, none repeated.
pub open spec fn list_sound(l: Seq<usize>, owner: int, n: nat, cap: nat) -> bool {
    &&& l.len() <= cap
    &&& forall|j: int| 0 <= j < l.len() ==> (#[trigger] l[j]) < n && l[j] != owner
    &&& forall|a: int, b: int| 0 <= a < b < l.len() ==> #[trigger] l[a] != #[trigger] l[b]
}

/// Every neighbour list holds at most `2m` distinct nodes other than its owner.
pub open spec fn nsw_sound(adj: Seq<Seq<usize>>, m: nat) -> bool {
    forall|i: int| 0 <= i < adj.len() ==> list_sound(#[trigger] adj[i], i, adj.len(), 2 * m)
}

/// The links of a new node are at most `m` distinct earlier nodes.
proof fn lemma_new_links_sound(adj1: Seq<Seq<usize>>, d2: spec_fn(usize, usize) -> u64, m: nat)
    requires
        2 <= adj1.len() <= usize::MAX,
        forall|i: int, j: int| 0 <= i < adj1.len() && 0 <= j < adj1[i].len() ==> (#[trigger] adj1[i][j]) < adj1.len() - 1,
    ensures
        list_sound(new_links(adj1, d2, m), adj1.len() - 1, (adj1.len() - 1) as nat, m),
{
    let id = (adj1.len() - 1) as usize;
    let nl = new_links(adj1, d2, m);
    if id <= ef_build(m) {
        let s = Seq::new(id as nat, |j: int| (j as usize, d2(id, j as usize)));
        lemma_nearest_earlier(id, d2, m);
        lemma_top_k_properties(s, m as int, false);
        assert(nl == crate::hybrid::nearest_earlier(id, d2, m));
    } else {
        let fin = search_result(adj1, |j: usize| d2(id, j), m, ef_build(m), false, same_key());
        lemma_search_found_sound(adj1, |j: usize| d2(id, j), m, ef_build(m), false, same_key(), id as nat);
        let items = fin.found.map_values(|c: Cand| (c.1, c.0));
        assert forall|a: int, b: int| 0 <= a < b < items.len() implies items[a].0 != items[b].0 by {
            assert(items[a].0 == fin.found[a].1 && items[b].0 == fin.found[b].1);
        }
        lemma_top_k_ids_distinct(items, m as int, false);
        lemma_top_k_from_input(items, m as int, false);
        lemma_top_k_properties(items, m as int, false);
        let top = top_k_spec(items, m as int, false);
        assert forall|j: int| 0 <= j < nl.len() implies (#[trigger] nl[j]) < id && nl[j] != id by {
            assert(items.contains(top[j]));
            let w = choose|w: int| 0 <= w < items.len() && items[w] == top[j];
            assert(items[w].0 == fin.found[w].1);
        }
        assert forall|a: int, b: int| 0 <= a < b < nl.len() implies #[trigger] nl[a] != #[trigger] nl[b] by {
            assert(nl[a] == top[a].0 && nl[b] == top[b].0);
        }
    }
}

/// Linking the new node `id` to distinct earlier nodes gives it exactly
/// those links and keeps every other list sound.
proof fn lemma_link_all_sound(adj: Seq<Seq<usize>>, id: usize, nbrs: Seq<usize>, d2: spec_fn(usize, usize) -> u64, m: nat)
    requires
        id < adj.len(),
        adj[id as int] == Seq::<usize>::empty(),
        forall|i: int| 0 <= i < adj.len() && i != id ==> list_sound(#[trigger] adj[i], i, adj.len(), 2 * m),
        forall|j: int| 0 <= j < nbrs.len() ==> (#[trigger] nbrs[j]) < id,
        forall|a: int, b: int| 0 <= a < b < nbrs.len() ==> #[trigger] nbrs[a] != #[trigger] nbrs[b],
    ensures
        link_all(adj, id, nbrs, d2, m).len() == adj.len(),
        link_all(adj, id, nbrs, d2, m)[id as int] == nbrs,
        forall|i: int| 0 <= i < adj.len() && i != id ==> list_sound(#[trigger] link_all(adj, id, nbrs, d2, m)[i], i, adj.len(), 2 * m),
    decreases nbrs.len(),
{
    if nbrs.len() == 0 {
        assert(adj[id as int] =~= nbrs);
    } else {
        let p = nbrs.drop_last();
        let nb = nbrs.last();
        assert forall|j: int| 0 <= j < p.len() implies (#[trigger] p[j]) < id by {
            assert(p[j] == nbrs[j]);
        }
        assert forall|a: int, b: int| 0 <= a < b < p.len() implies #[trigger] p[a] != #[trigger] p[b] by {
            assert(p[a] == nbrs[a] && p[b] == nbrs[b]);
        }
        lemma_link_all_sound(adj, id, p, d2, m);
        let lp = link_all(adj, id, p, d2, m);
        let n = adj.len();
        assert(nb < id);
        let a1 = lp.update(id as int, lp[id as int].push(nb));
        assert(a1[id as int] =~= nbrs);
        let l = a1[nb as int];
        assert(l == lp[nb as int]);
        assert(list_sound(l, nb as int, n, 2 * m));
        let r = link_all(adj, id, nbrs, d2, m);
        assert(r == link_one(lp, id, nb, d2, m));
        if !l.contains(id) {
            let lx = l.push(id);
            assert forall|j: int| 0 <= j < lx.len() implies (#[trigger] lx[j]) < n && lx[j] != nb by {
                if j < l.len() {
                    assert(lx[j] == l[j]);
                }
            }
            assert forall|a: int, b: int| 0 <= a < b < lx.len() implies #[trigger] lx[a] != #[trigger] lx[b] by {
                if b == l.len() {
                    assert(lx[a] == l[a]);
                    assert(lx[b] == id);
                    assert(l.contains(l[a]));
                } else {
                    assert(lx[a] == l[a] && lx[b] == l[b]);
                }
            }
            if l.len() < 2 * m {
                assert(list_sound(lx, nb as int, n, 2 * m));
            } else {
                let items = lx.map_values(|a: usize| (a, d2(nb, a)));
                assert forall|a: int, b: int| 0 <= a < b < items.len() implies items[a].0 != items[b].0 by {
                    assert(items[a].0 == lx[a] && items[b].0 == lx[b]);
                }
                lemma_top_k_ids_distinct(items, (2 * m) as int, false);
                lemma_top_k_from_input(items, (2 * m) as int, false);
                lemma_top_k_properties(items, (2 * m) as int, false);
                let top = top_k_spec(items, (2 * m) as int, false);
                let pr = pruned(lx, nb, d2, 2 * m);
                assert forall|j: int| 0 <= j < pr.len() implies (#[trigger] pr[j]) < n && pr[j] != nb by {
                    assert(items.contains(top[j]));
                    let w = choose|w: int| 0 <= w < items.len() && items[w] == top[j];
                    assert(items[w].0 == lx[w]);
                }
                assert forall|a: int, b: int| 0 <= a < b < pr.len() implies #[trigger] pr[a] != #[trigger] pr[b] by {
                    assert(pr[a] == top[a].0 && pr[b] == top[b].0);
                }
                assert(list_sound(pr, nb as int, n, 2 * m));
            }
        }
        assert forall|i: int| 0 <= i < adj.len() && i != id implies list_sound(#[trigger] r[i], i, adj.len(), 2 * m) by {
            if i != nb {
                assert(r[i] == lp[i]);
            }
        }
    }
}

/// Inserting keeps every neighbour list at most `2m` distinct nodes, each
/// a node of the graph other than the list's owner.
pub proof fn lemma_insert_keeps_lists_sound(adj: Seq<Seq<usize>>, d2: spec_fn(usize, usize) -> u64, m: nat)
    requires
        nsw_sound(adj, m),
        adj.len() < usize::MAX,
    ensures
        nsw_sound(inserted(adj, d2, m), m),
{
    let adj1 = adj.push(Seq::<usize>::empty());
    let n1 = adj1.len();
    assert forall|i: int| 0 <= i < adj1.len() && i != adj.len() implies list_sound(#[trigger] adj1[i], i, n1, 2 * m) by {
        assert(adj1[i] == adj[i]);
        assert(list_sound(adj[i], i, adj.len(), 2 * m));
    }
    if adj.len() == 0 {
        assert(inserted(adj, d2, m) == adj1);
        assert forall|i: int| 0 <= i < adj1.len() implies list_sound(#[trigger] adj1[i], i, n1, 2 * m) by {
            assert(adj1[i].len() == 0);
        }
    } else {
        let id = adj.len() as usize;
        assert forall|i: int, j: int| 0 <= i < adj1.len() && 0 <= j < adj1[i].len() implies (#[trigger] adj1[i][j]) < adj1.len() - 1 by {
            assert(i < adj.len());
            assert(adj1[i] == adj[i]);
            assert(list_sound(adj[i], i, adj.len(), 2 * m));
        }
        lemma_new_links_sound(adj1, d2, m);
        let nl = new_links(adj1, d2, m);
        lemma_link_all_sound(adj1, id, nl, d2, m);
        let r = inserted(adj, d2, m);
        assert(r == link_all(adj1, id, nl, d2, m));
        assert forall|i: int| 0 <= i < r.len() implies list_sound(#[trigger] r[i], i, r.len(), 2 * m) by {
            if i == id {
                assert(r[i] == nl);
            }
        }
    }
}

/// Navigable Small World graph (the HNSW base layer): the neighbour lists;
/// the vectors themselves are kept by the caller.
pub struct NswGraph {
    pub neighbors: Vec<Vec<usize>>,
    pub dim: usize,
    pub m: usize,
}

fn min_pos_exec(s: &Vec<Cand>) -> (r: usize)
    requires
        s@.len() > 0,
    ensures
        r == min_pos(s@),
        r < s@.len(),
{
    let mut m: usize = 0;
    let mut i: usize = 1;
    assert(s@.take(1).drop_last() =~= s@.take(0));
    while i < s.len()
        invariant
            1 <= i <= s@.len(),
            m == min_pos(s@.take(i as int)),
            0 <= m < i,
        decreases s@.len() - i,
    {
        let ghost t = s@.take(i + 1);
        assert(t.drop_last() =~= s@.take(i as int));
        assert(t.last() == s@[i as int]);
        assert(t[m as int] == s@[m as int]);
        if s[i].0 < s[m].0 || (s[i].0 == s[m].0 && s[i].1 < s[m].1) {
            m = i;
        }
        i = i + 1;
    }
    assert(s@.take(s@.len() as int) =~= s@);
    proof {
        lemma_min_pos(s@);
    }
    m
}

fn max_pos_exec(s: &Vec<Cand>) -> (r: usize)
    requires
        s@.len() > 0,
    ensures
        r == max_pos(s@),
        r < s@.len(),
{
    let mut m: usize = 0;
    let mut i: usize = 1;
    while i < s.len()
        invariant
            1 <= i <= s@.len(),
            m == max_pos(s@.take(i as int)),
            0 <= m < i,
        decreases s@.len() - i,
    {
        let ghost t = s@.take(i + 1);
        assert(t.drop_last() =~= s@.take(i as int));
        assert(t.last() == s@[i as int]);
        assert(t[m as int] == s@[m as int]);
        if s[m].0 < s[i].0 || (s[m].0 == s[i].0 && s[m].1 < s[i].1) {
            m = i;
        }
        i = i + 1;
    }
    assert(s@.take(s@.len() as int) =~= s@);
    proof {
        lemma_max_pos(s@);
    }
    m
}

fn max_key_pos_exec(s: &Vec<u64>) -> (r: usize)
    requires
        s@.len() > 0,
    ensures
        r == max_key_pos(s@),
        r < s@.len(),
{
    let mut m: usize = 0;
    let mut i: usize = 1;
    while i < s.len()
        invariant
            1 <= i <= s@.len(),
            m == max_key_pos(s@.take(i as int)),
            0 <= m < i,
        decreases s@.len() - i,
    {
        let ghost t = s@.take(i + 1);
        assert(t.drop_last() =~= s@.take(i as int));
        assert(t.last() == s@[i as int]);
        assert(t[m as int] == s@[m as int]);
        if s[m] < s[i] {
            m = i;
        }
        i = i + 1;
    }
    assert(s@.take(s@.len() as int) =~= s@);
    proof {
        lemma_max_key_pos(s@);
    }
    m
}

fn kth_exec(kbest: &Vec<u64>) -> (r: u64)
    ensures
        r == kth(kbest@),
{
    if kbest.len() == 0 {
        u64::MAX
    } else {
        kbest[max_key_pos_exec(kbest)]
    }
}

fn worst_exec(found: &Vec<Cand>) -> (r: u64)
    ensures
        r == worst(found@),
{
    if found.len() == 0 {
        u64::MAX
    } else {
        found[max_pos_exec(found)].0
    }
}

/// Scores entering the search: candidates, found set (capped at `ef`) and k best.
fn accept_exec(
    cands: &mut Vec<Cand>,
    found: &mut Vec<Cand>,
    kbest: &mut Vec<u64>,
    d: u64,
    node: usize,
    k: usize,
    ef: usize,
)
    ensures
        final(cands)@ == old(cands)@.push((d, node)),
        final(found)@ == push_found(old(found)@, (d, node), ef as nat),
        final(kbest)@ == update_kbest(old(kbest)@, d, k as nat),
{
    cands.push((d, node));
    found.push((d, node));
    if found.len() > ef {
        let p = max_pos_exec(found);
        found.remove(p);
    }
    let t = kth_exec(kbest);
    if d < t || kbest.len() < k {
        kbest.push(d);
        if kbest.len() > k {
            let p = max_key_pos_exec(kbest);
            kbest.remove(p);
        }
    }
}

pub open spec fn state_of(
    cands: Seq<Cand>,
    found: Seq<Cand>,
    kbest: Seq<u64>,
    visited: Seq<bool>,
    ops: u64,
    pushed: Seq<u64>,
) -> SearchState {
    SearchState { cands, found, kbest, visited, dist_ops: ops as nat, pushed }
}

/// The ids of a ranked list.
pub open spec fn ids_of(s: Seq<Scored>) -> Seq<usize> {
    s.map_values(|e: Scored| e.0)
}

/// The identity threshold: the k-th nearest key itself.
pub open spec fn same_key() -> spec_fn(u64) -> u64 {
    |x: u64| x
}

/// Beam width used while inserting into a graph with out-degree `m`.
pub open spec fn ef_build(m: nat) -> nat {
    if m * 4 > 32 {
        m * 4
    } else {
        32
    }
}

/// The `cap` nodes of `list` nearest to `nb`.
pub open spec fn pruned(list: Seq<usize>, nb: usize, d2: spec_fn(usize, usize) -> u64, cap: nat) -> Seq<usize> {
    ids_of(top_k_spec(list.map_values(|a: usize| (a, d2(nb, a))), cap as int, false))
}

/// Links new node `id` to `nb`, and `nb` back to `id` unless it already is:
/// appended while `nb` has fewer than `2m` neighbours, else the `2m` nearest are kept.
pub open spec fn link_one(adj: Seq<Seq<usize>>, id: usize, nb: usize, d2: spec_fn(usize, usize) -> u64, m: nat) -> Seq<Seq<usize>> {
    let adj1 = adj.update(id as int, adj[id as int].push(nb));
    if adj1[nb as int].contains(id) {
        adj1
    } else if adj1[nb as int].len() < 2 * m {
        adj1.update(nb as int, adj1[nb as int].push(id))
    } else {
        adj1.update(nb as int, pruned(adj1[nb as int].push(id), nb, d2, 2 * m))
    }
}

pub open spec fn link_all(adj: Seq<Seq<usize>>, id: usize, nbrs: Seq<usize>, d2: spec_fn(usize, usize) -> u64, m: nat) -> Seq<Seq<usize>>
    decreases nbrs.len(),
{
    if nbrs.len() == 0 {
        adj
    } else {
        link_one(link_all(adj, id, nbrs.drop_last(), d2, m), id, nbrs.last(), d2, m)
    }
}

/// The nodes a new node `id` links to: its `m` nearest among all earlier
/// nodes while the graph is small, else the hits of a standard search.
pub open spec fn new_links(adj: Seq<Seq<usize>>, d2: spec_fn(usize, usize) -> u64, m: nat) -> Seq<usize> {
    let id = (adj.len() - 1) as usize;
    if id <= ef_build(m) {
        ids_of(top_k_spec(Seq::new(id as nat, |j: int| (j as usize, d2(id, j as usize))), m as int, false))
    } else {
        ids_of(hits_of(search_result(adj, |j: usize| d2(id, j), m, ef_build(m), false, same_key()), m))
    }
}

/// The adjacency after inserting a node into a graph with adjacency `adj`.
pub open spec fn inserted(adj: Seq<Seq<usize>>, d2: spec_fn(usize, usize) -> u64, m: nat) -> Seq<Seq<usize>> {
    let adj1 = adj.push(Seq::empty());
    if adj.len() == 0 {
        adj1
    } else {
        link_all(adj1, adj.len() as usize, new_links(adj1, d2, m), d2, m)
    }
}

/// The spec function behind a pair oracle.
pub open spec fn pair_fn<F: Fn(usize, usize) -> u64>(f: F) -> spec_fn(usize, usize) -> u64 {
    |a: usize, b: usize| pair_key_of(f, a, b)
}

fn copy_row(v: &Vec<usize>) -> (r: Vec<usize>)
    ensures
        r@ == v@,
{
    let mut r: Vec<usize> = Vec::new();
    let mut i: usize = 0;
    while i < v.len()
        invariant
            i <= v@.len(),
            r@ == v@.take(i as int),
        decreases v@.len() - i,
    {
        r.push(v[i]);
        assert(r@ =~= v@.take(i + 1));
        i = i + 1;
    }
    assert(v@.take(v@.len() as int) =~= v@);
    r
}

fn contains_id(v: &Vec<usize>, x: usize) -> (r: bool)
    ensures
        r == v@.contains(x),
{
    let mut i: usize = 0;
    while i < v.len()
        invariant
            i <= v@.len(),
            forall|j: int| 0 <= j < i ==> v@[j] != x,
        decreases v@.len() - i,
    {
        if v[i] == x {
            return true;
        }
        i = i + 1;
    }
    false
}

pub(crate) fn ids_exec(s: &Vec<Scored>) -> (r: Vec<usize>)
    ensures
        r@ == ids_of(s@),
{
    let mut r: Vec<usize> = Vec::new();
    let mut i: usize = 0;
    while i < s.len()
        invariant
            i <= s@.len(),
            r@ == ids_of(s@.take(i as int)),
        decreases s@.len() - i,
    {
        r.push(s[i].0);
        assert(r@ =~= ids_of(s@.take(i + 1)));
        i = i + 1;
    }
    assert(s@.take(s@.len() as int) =~= s@);
    r
}

impl NswGraph {
    pub open spec fn adj(&self) -> Seq<Seq<usize>> {
        self.neighbors@.map_values(|v: Vec<usize>| v@)
    }

    /// Every neighbour id is a node of the graph.
    pub open spec fn wf(&self) -> bool {
        adj_wf(self.adj())
    }

    pub fn new(dim: usize, m: usize) -> (r: Self)
        ensures
            r.neighbors@.len() == 0,
            r.dim == dim,
            r.m == m,
            r.wf(),
    {
        NswGraph { neighbors: Vec::new(), dim, m }
    }

    pub fn len(&self) -> (r: usize)
        ensures
            r == self.neighbors@.len(),
    {
        self.neighbors.len()
    }

    pub fn is_empty(&self) -> (r: bool)
        ensures
            r == (self.neighbors@.len() == 0),
    {
        self.neighbors.len() == 0
    }

    /// Adds node `len()` to the graph.  `dist` gives the key of the distance
    /// between two nodes, the new one included.  The new node links to its
    /// `m` nearest earlier nodes (found by a search of width
    /// `max(4m, 32)` once the graph is larger than that), and each of them
    /// links back, keeping only its `2m` nearest when it has `2m` already.
    pub fn insert<F: Fn(usize, usize) -> u64>(&mut self, dist: F)
        requires
            old(self).wf(),
            old(self).neighbors@.len() + 1 <= usize::MAX / 4,
            old(self).m <= usize::MAX / 4,
            is_pair_oracle(dist, old(self).neighbors@.len() + 1int),
        ensures
            final(self).wf(),
            final(self).m == old(self).m,
            final(self).dim == old(self).dim,
            final(self).adj() == inserted(old(self).adj(), pair_fn(dist), old(self).m as nat),
    {
        let ghost adj0 = self.adj();
        let ghost d2 = pair_fn(dist);
        let id = self.neighbors.len();
        self.neighbors.push(Vec::new());
        let ghost adj1 = self.adj();
        assert(adj1 =~= adj0.push(Seq::empty()));
        if id == 0 {
            return;
        }
        let n = id + 1;
        assert(adj_wf(adj1)) by {
            assert forall|i: int, j: int| 0 <= i < adj1.len() && 0 <= j < adj1[i].len() implies (#[trigger] adj1[i][j]) < adj1.len() by {
                assert(adj1[i] == adj0[i]);
            }
        }
        let m = self.m;
        let eb = if m * 4 > 32 { m * 4 } else { 32 };
        let new_nbrs: Vec<usize> = if id <= eb {
            let mut scored: Vec<Scored> = Vec::new();
            let mut j: usize = 0;
            while j < id
                invariant
                    j <= id,
                    n == id + 1,
                    is_pair_oracle(dist, n as int),
                    d2 == pair_fn(dist),
                    scored@ == Seq::new(j as nat, |t: int| (t as usize, d2(id, t as usize))),
                decreases id - j,
            {
                let d = crate::oracle::ask_pair(&dist, id, j, Ghost(n as int));
                scored.push((j, d));
                assert(scored@ =~= Seq::new((j + 1) as nat, |t: int| (t as usize, d2(id, t as usize))));
                j = j + 1;
            }
            let best = top_k_ascending(&scored, m);
            proof {
                lemma_top_k_from_input(scored@, m as int, false);
                assert forall|i: int| 0 <= i < best@.len() implies (#[trigger] best@[i]).0 < n by {
                    assert(scored@.contains(best@[i]));
                }
            }
            ids_exec(&best)
        } else {
            let row = RowKeys { dist: &dist, row: id };
            let ident = |x: u64| -> (y: u64)
                ensures
                    y == x,
                { x };
            let stats = self.run_search(&row, m, eb, false, ident);
            proof {
                let st0 = init_state(n as nat, keys_fn(row), m as nat, eb as nat);
                lemma_standard_ignores_threshold(st0, adj1, keys_fn(row), m as nat, eb as nat, thr_fn(ident), same_key(), measure(st0));
                assert(keys_fn(row) =~= (|j: usize| d2(id, j)));
            }
            ids_exec(&stats.hits)
        };
        assert(new_nbrs@ == new_links(adj1, d2, m as nat));
        assert(forall|i: int| 0 <= i < new_nbrs@.len() ==> (#[trigger] new_nbrs@[i]) < n);
        let mut t: usize = 0;
        assert(new_nbrs@.take(0) =~= Seq::<usize>::empty());
        while t < new_nbrs.len()
            invariant
                t <= new_nbrs@.len(),
                n == id + 1,
                n == self.neighbors@.len(),
                id > 0,
                m == self.m,
                m <= usize::MAX / 4,
                self.dim == old(self).dim,
                self.m == old(self).m,
                is_pair_oracle(dist, n as int),
                d2 == pair_fn(dist),
                forall|i: int| 0 <= i < new_nbrs@.len() ==> (#[trigger] new_nbrs@[i]) < n,
                adj_wf(self.adj()),
                self.adj() == link_all(adj1, id, new_nbrs@.take(t as int), d2, m as nat),
            decreases new_nbrs@.len() - t,
        {
            let nb = new_nbrs[t];
            let ghost before = self.adj();
            assert(new_nbrs@.take(t + 1).drop_last() =~= new_nbrs@.take(t as int));
            assert(new_nbrs@.take(t + 1).last() == nb);
            let mut own = copy_row(&self.neighbors[id]);
            own.push(nb);
            self.neighbors.set(id, own);
            let ghost mid = self.adj();
            assert(mid =~= before.update(id as int, before[id as int].push(nb)));
            assert(adj_wf(mid)) by {
                assert forall|i: int, j: int| 0 <= i < mid.len() && 0 <= j < mid[i].len() implies (#[trigger] mid[i][j]) < mid.len() by {
                    if i != id {
                        assert(mid[i] == before[i]);
                    } else if j < before[i].len() {
                        assert(mid[i][j] == before[i][j]);
                    }
                }
            }
            let list = copy_row(&self.neighbors[nb]);
            assert(list@ == mid[nb as int]);
            if !contains_id(&list, id) {
                if list.len() < 2 * m {
                    let mut l2 = list;
                    l2.push(id);
                    self.neighbors.set(nb, l2);
                    let ghost after = self.adj();
                    assert(after =~= mid.update(nb as int, mid[nb as int].push(id)));
                    assert(adj_wf(after)) by {
                        assert forall|i: int, j: int| 0 <= i < after.len() && 0 <= j < after[i].len() implies (#[trigger] after[i][j]) < after.len() by {
                            if i != nb {
                                assert(after[i] == mid[i]);
                            } else if j < mid[i].len() {
                                assert(after[i][j] == mid[i][j]);
                            }
                        }
                    }
                } else {
                    let mut l2 = list;
                    l2.push(id);
                    let ghost full = l2@;
                    assert forall|q: int| 0 <= q < full.len() implies (#[trigger] full[q]) < n by {
                        if q < mid[nb as int].len() {
                            assert(full[q] == mid[nb as int][q]);
                        }
                    }
                    let mut scored: Vec<Scored> = Vec::new();
                    let mut q: usize = 0;
                    while q < l2.len()
                        invariant
                            q <= l2@.len(),
                            l2@ == full,
                            nb < n,
                            forall|q2: int| 0 <= q2 < full.len() ==> (#[trigger] full[q2]) < n,
                            is_pair_oracle(dist, n as int),
                            d2 == pair_fn(dist),
                            scored@ == full.take(q as int).map_values(|a: usize| (a, d2(nb, a))),
                        decreases l2@.len() - q,
                    {
                        let a = l2[q];
                        let d = crate::oracle::ask_pair(&dist, nb, a, Ghost(n as int));
                        scored.push((a, d));
                        assert(scored@ =~= full.take(q + 1).map_values(|a: usize| (a, d2(nb, a))));
                        q = q + 1;
                    }
                    assert(full.take(full.len() as int) =~= full);
                    let best = top_k_ascending(&scored, 2 * m);
                    proof {
                        lemma_top_k_from_input(scored@, (2 * m) as int, false);
                        assert forall|i: int| 0 <= i < best@.len() implies (#[trigger] best@[i]).0 < n by {
                            assert(scored@.contains(best@[i]));
                            let w = choose|w: int| 0 <= w < scored@.len() && scored@[w] == best@[i];
                            assert(scored@[w].0 == full[w]);
                        }
                    }
                    let kept = ids_exec(&best);
                    self.neighbors.set(nb, kept);
                    let ghost after = self.adj();
                    assert(after =~= mid.update(nb as int, pruned(full, nb, d2, (2 * m) as nat)));
                    assert(adj_wf(after)) by {
                        assert forall|i: int, j: int| 0 <= i < after.len() && 0 <= j < after[i].len() implies (#[trigger] after[i][j]) < after.len() by {
                            if i != nb {
                                assert(after[i] == mid[i]);
                            } else {
                                assert(after[i][j] == best@[j].0);
                            }
                        }
                    }
                }
            }
            assert(self.adj() == link_one(before, id, nb, d2, m as nat));
            t = t + 1;
        }
        assert(new_nbrs@.take(new_nbrs@.len() as int) =~= new_nbrs@);
    }

    /// Standard beam search: stops when the nearest candidate is farther than
    /// the worst of the `ef` entries found.
    pub fn beam_search<F: Fn(usize) -> u64>(&self, dist: F, k: usize, ef: usize) -> (r: SearchStats)
        requires
            self.wf(),
            self.neighbors@.len() <= usize::MAX / 4,
            is_oracle(dist, self.neighbors@.len() as int),
        ensures
            self.neighbors@.len() == 0 ==> r.hits@.len() == 0 && r.dist_ops == 0,
            self.neighbors@.len() > 0 ==> {
                let fin = search_result(self.adj(), keys_fn(FnKeys(dist)), k as nat, ef as nat, false, same_key());
                &&& r.hits@ == hits_of(fin, k as nat)
                &&& r.dist_ops == fin.dist_ops
            },
    {
        let ident = |x: u64| -> (y: u64)
            ensures
                y == x,
            { x };
        let o = FnKeys(dist);
        let r = self.run_search(&o, k, ef, false, ident);
        proof {
            let n = self.neighbors@.len();
            if n > 0 {
                let st0 = init_state(n, keys_fn(o), k as nat, ef as nat);
                lemma_standard_ignores_threshold(st0, self.adj(), keys_fn(o), k as nat, ef as nat, thr_fn(ident), same_key(), measure(st0));
            }
        }
        r
    }

    /// Distance-adaptive beam search: once `k` keys were seen, stops when the
    /// nearest candidate is farther than `thr` of the k-th nearest key.
    pub fn dabs_search<F: Fn(usize) -> u64, G: Fn(u64) -> u64>(&self, dist: F, k: usize, ef: usize, thr: G) -> (r: SearchStats)
        requires
            self.wf(),
            self.neighbors@.len() <= usize::MAX / 4,
            is_oracle(dist, self.neighbors@.len() as int),
            is_key_map(thr),
        ensures
            self.neighbors@.len() == 0 ==> r.hits@.len() == 0 && r.dist_ops == 0,
            self.neighbors@.len() > 0 ==> {
                let fin = search_result(self.adj(), keys_fn(FnKeys(dist)), k as nat, ef as nat, true, thr_fn(thr));
                &&& r.hits@ == hits_of(fin, k as nat)
                &&& r.dist_ops == fin.dist_ops
            },
    {
        let o = FnKeys(dist);
        self.run_search(&o, k, ef, true, thr)
    }

    /// Exact k-NN: the ids of the `k` nodes with the smallest keys (ties by id).
    pub fn brute_force<F: Fn(usize) -> u64>(&self, dist: F, k: usize) -> (r: Vec<usize>)
        requires
            is_oracle(dist, self.neighbors@.len() as int),
        ensures
            r@ == ids_of(top_k_spec(Seq::new(self.neighbors@.len(), |i: int| (i as usize, key_of(dist, i as usize))), k as int, false)),
    {
        let n = self.neighbors.len();
        let mut all: Vec<Scored> = Vec::new();
        let mut i: usize = 0;
        while i < n
            invariant
                i <= n,
                n == self.neighbors@.len(),
                is_oracle(dist, n as int),
                all@ == Seq::new(i as nat, |j: int| (j as usize, key_of(dist, j as usize))),
            decreases n - i,
        {
            let d = crate::oracle::ask(&dist, i, Ghost(n as int));
            all.push((i, d));
            assert(all@ =~= Seq::new((i + 1) as nat, |j: int| (j as usize, key_of(dist, j as usize))));
            i = i + 1;
        }
        let best = top_k_ascending(&all, k);
        ids_exec(&best)
    }

    /// The search shared by the standard and the distance-adaptive variant.
    /// `dist` gives the key of a node's distance to the query; with `dabs`
    /// the search stops once the nearest candidate is farther than
    /// `thr(k-th nearest key)` (after `k` keys were seen).
    fn run_search<O: KeyOracle, G: Fn(u64) -> u64>(
        &self,
        dist: &O,
        k: usize,
        ef: usize,
        dabs: bool,
        thr: G,
    ) -> (r: SearchStats)
        requires
            self.wf(),
            self.neighbors@.len() <= usize::MAX / 4,
            dist.covers(self.neighbors@.len() as int),
            is_key_map(thr),
        ensures
            self.neighbors@.len() == 0 ==> r.hits@.len() == 0 && r.dist_ops == 0,
            self.neighbors@.len() > 0 ==> {
                let fin = search_result(self.adj(), keys_fn(*dist), k as nat, ef as nat, dabs, thr_fn(thr));
                &&& r.hits@ == hits_of(fin, k as nat)
                &&& r.dist_ops == fin.dist_ops
            },
            forall|i: int| 0 <= i < r.hits@.len() ==> (#[trigger] r.hits@[i]).0 < self.neighbors@.len(),
    {
        let n = self.neighbors.len();
        if n == 0 {
            return SearchStats { hits: Vec::new(), dist_ops: 0 };
        }
        let ghost adj = self.adj();
        let ghost dfn = keys_fn(*dist);
        let ghost tfn = thr_fn(thr);
        let mut cands: Vec<Cand> = Vec::new();
        let mut found: Vec<Cand> = Vec::new();
        let mut kbest: Vec<u64> = Vec::new();
        let mut visited: Vec<bool> = Vec::new();
        let mut i: usize = 0;
        while i < n
            invariant
                i <= n,
                visited@ == Seq::new(i as nat, |j: int| false),
            decreases n - i,
        {
            visited.push(false);
            assert(visited@ =~= Seq::new((i + 1) as nat, |j: int| false));
            i = i + 1;
        }
        proof {
            lemma_count_false_new(n as nat);
        }
        let mut ops: u64 = 0;
        let ghost mut pushed: Seq<u64> = Seq::empty();
        let starts_exec: [usize; 4] = [0, n / 4, n / 2, 3 * n / 4];
        assert(starts_exec@ =~= starts(n as nat));
        proof {
            assert(state_of(cands@, found@, kbest@, visited@, ops, pushed) == empty_state(n as nat));
            assert(starts(n as nat).take(0) =~= Seq::<usize>::empty());
        }
        let mut s: usize = 0;
        while s < 4
            invariant
                s <= 4,
                n == self.neighbors@.len(),
                0 < n <= usize::MAX / 4,
                starts_exec@ == starts(n as nat),
                dist.covers(n as int),
                dfn == keys_fn(*dist),
                ops == s,
                state_of(cands@, found@, kbest@, visited@, ops, pushed) == seed_all(
                    empty_state(n as nat),
                    starts(n as nat).take(s as int),
                    dfn,
                    k as nat,
                    ef as nat,
                ),
                state_wf(state_of(cands@, found@, kbest@, visited@, ops, pushed), n as nat),
            decreases 4 - s,
        {
            let st = starts_exec[s];
            assert(st < n);
            let ghost prev = starts(n as nat).take(s as int);
            assert(starts(n as nat).take(s + 1).drop_last() =~= prev);
            assert(starts(n as nat).take(s + 1).last() == st);
            let d = dist.key_at(st, Ghost(n as int));
            visited.set(st, true);
            ops = ops + 1;
            accept_exec(&mut cands, &mut found, &mut kbest, d, st, k, ef);
            proof {
                pushed = pushed.push(d);
            }
            proof {
                let prev_st = seed_all(empty_state(n as nat), prev, dfn, k as nat, ef as nat);
                lemma_push_found_bound(prev_st.found, (d, st), ef as nat, n as nat);
            }
            assert forall|j: int| 0 <= j < cands@.len() implies (#[trigger] cands@[j]).1 < n by {
                let prev_st = seed_all(empty_state(n as nat), prev, dfn, k as nat, ef as nat);
                if j < cands@.len() - 1 {
                    assert(cands@[j] == prev_st.cands[j]);
                }
            }
            s = s + 1;
        }
        assert(starts(n as nat).take(4) =~= starts(n as nat));
        let ghost st0 = init_state(n as nat, dfn, k as nat, ef as nat);
        assert(state_of(cands@, found@, kbest@, visited@, ops, pushed) == st0);
        proof {
            lemma_count_false_le(visited@);
        }
        loop
            invariant
                n == self.neighbors@.len(),
                0 < n <= usize::MAX / 4,
                adj == self.adj(),
                adj_wf(adj),
                dist.covers(n as int),
                is_key_map(thr),
                dfn == keys_fn(*dist),
                tfn == thr_fn(thr),
                state_wf(state_of(cands@, found@, kbest@, visited@, ops, pushed), n as nat),
                ops + count_false(visited@) <= n + 4,
                run(
                    state_of(cands@, found@, kbest@, visited@, ops, pushed),
                    adj,
                    dfn,
                    k as nat,
                    ef as nat,
                    dabs,
                    tfn,
                    measure(state_of(cands@, found@, kbest@, visited@, ops, pushed)),
                ) == run(st0, adj, dfn, k as nat, ef as nat, dabs, tfn, measure(st0)),
            ensures
                state_of(cands@, found@, kbest@, visited@, ops, pushed) == run(
                    st0,
                    adj,
                    dfn,
                    k as nat,
                    ef as nat,
                    dabs,
                    tfn,
                    measure(st0),
                ),
            decreases measure(state_of(cands@, found@, kbest@, visited@, ops, pushed)),
        {
            let ghost cur = state_of(cands@, found@, kbest@, visited@, ops, pushed);
            if cands.len() == 0 {
                break;
            }
            let i = min_pos_exec(&cands);
            let c = cands[i].0;
            let stop = if dabs {
                kbest.len() >= k && c > map_key(&thr, kth_exec(&kbest))
            } else {
                c > worst_exec(&found)
            };
            if stop {
                assert(stops(cur, k as nat, dabs, tfn));
                break;
            }
            proof {
                lemma_step_measure(cur, adj, dfn, k as nat, ef as nat);
                lemma_min_pos(cands@);
            }
            let (_, node) = cands.remove(i);
            let ghost st1 = SearchState { cands: cur.cands.remove(i as int), ..cur };
            assert(state_of(cands@, found@, kbest@, visited@, ops, pushed) == st1);
            assert(node < n);
            let row = &self.neighbors[node];
            assert(row@ == adj[node as int]);
            let mut j: usize = 0;
            assert(row@.take(0) =~= Seq::<usize>::empty());
            while j < row.len()
                invariant
                    j <= row@.len(),
                    n == self.neighbors@.len(),
                    0 < n <= usize::MAX / 4,
                    node < n,
                    row@ == adj[node as int],
                    adj == self.adj(),
                    adj_wf(adj),
                    dist.covers(n as int),
                    dfn == keys_fn(*dist),
                    visited@.len() == n,
                    ops + count_false(visited@) <= n + 4,
                    state_of(cands@, found@, kbest@, visited@, ops, pushed) == expand(
                        st1,
                        row@.take(j as int),
                        dfn,
                        k as nat,
                        ef as nat,
                    ),
                decreases row@.len() - j,
            {
                let nb = row[j];
                assert(nb < n);
                let ghost before = state_of(cands@, found@, kbest@, visited@, ops, pushed);
                assert(row@.take(j + 1).drop_last() =~= row@.take(j as int));
                assert(row@.take(j + 1).last() == nb);
                if !visited[nb] {
                    proof {
                        lemma_count_false_update(visited@, nb as int);
                    }
                    let w = worst_exec(&found);
                    let flen = found.len();
                    assert(ops + 1 <= n + 4);
                    assert(n + 4 <= u64::MAX);
                    visited.set(nb, true);
                    ops = ops + 1;
                    let d = dist.key_at(nb, Ghost(n as int));
                    if d < w || flen < ef {
                        accept_exec(&mut cands, &mut found, &mut kbest, d, nb, k, ef);
                        proof {
                            pushed = pushed.push(d);
                        }
                    }
                }
                assert(state_of(cands@, found@, kbest@, visited@, ops, pushed) =~= visit(
                    before,
                    nb,
                    dfn,
                    k as nat,
                    ef as nat,
                ));
                j = j + 1;
            }
            assert(row@.take(row@.len() as int) =~= row@);
            assert(state_of(cands@, found@, kbest@, visited@, ops, pushed) == step(cur, adj, dfn, k as nat, ef as nat));
            proof {
                let nxt = step(cur, adj, dfn, k as nat, ef as nat);
                lemma_run_fuel(nxt, adj, dfn, k as nat, ef as nat, dabs, tfn, measure(nxt), (measure(cur) - 1) as nat);
            }
        }
        let ghost fin = state_of(cands@, found@, kbest@, visited@, ops, pushed);
        let mut scored: Vec<Scored> = Vec::new();
        let mut t: usize = 0;
        while t < found.len()
            invariant
                t <= found@.len(),
                scored@ == found@.take(t as int).map_values(|c: Cand| (c.1, c.0)),
            decreases found@.len() - t,
        {
            scored.push((found[t].1, found[t].0));
            assert(scored@ =~= found@.take(t + 1).map_values(|c: Cand| (c.1, c.0)));
            t = t + 1;
        }
        assert(found@.take(found@.len() as int) =~= found@);
        let hits = top_k_ascending(&scored, k);
        proof {
            lemma_top_k_from_input(scored@, k as int, false);
            assert forall|i: int| 0 <= i < hits@.len() implies (#[trigger] hits@[i]).0 < n by {
                assert(scored@.contains(hits@[i]));
                let q = choose|q: int| 0 <= q < scored@.len() && scored@[q] == hits@[i];
                assert(scored@[q].0 == found@[q].1);
            }
        }
        SearchStats { hits, dist_ops: ops }
    }
}

} // verus!
