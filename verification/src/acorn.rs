//! Predicate-agnostic graph expansion (ACORN-1): a beam search over the k-NN
//! graph that expands every node's neighbours, matching or not, and collects
//! the matching nodes it pops.
use vstd::prelude::*;
use crate::filtered::CategoryFilter;
use crate::knn_graph::{is_neighbourhood, KnnGraph};
use crate::nsw::ids_of;
use crate::nsw_search::{
    count_false, lemma_count_false_le, lemma_count_false_new, lemma_count_false_update,
    lemma_min_pos, min_pos, Cand,
};
use crate::oracle::{ask, is_oracle, is_pair_oracle, key_of};
use crate::rank::{Scored, top_k_ascending, top_k_spec};

verus! {

/// Out-degree of the graph built for expansion.
pub const ACORN_DEGREE: usize = 16;

/// Most entry points used to seed the beam.
pub const MAX_SEEDS: usize = 10;

/// Smallest bound on the number of visited nodes.
pub const MIN_BEAM_LIMIT: usize = 3000;

/// The state of an expansion search.
pub struct AcornState {
    pub cands: Seq<Cand>,
    pub visited: Seq<bool>,
    pub n_visited: nat,
    pub results: Seq<Scored>,
    pub done: bool,
}

/// Marks `nb` visited and makes it a candidate, unless it was visited.
pub open spec fn acorn_visit(st: AcornState, nb: usize, dist: spec_fn(usize) -> u64) -> AcornState {
    if st.visited[nb as int] {
        st
    } else {
        AcornState {
            cands: st.cands.push((dist(nb), nb)),
            visited: st.visited.update(nb as int, true),
            n_visited: st.n_visited + 1,
            ..st
        }
    }
}

pub open spec fn acorn_expand(st: AcornState, nbrs: Seq<usize>, dist: spec_fn(usize) -> u64) -> AcornState
    decreases nbrs.len(),
{
    if nbrs.len() == 0 {
        st
    } else {
        acorn_visit(acorn_expand(st, nbrs.drop_last(), dist), nbrs.last(), dist)
    }
}

/// The entry points: `min(10, n)` nodes spaced `n / min(10, n)` apart.
pub open spec fn seeds(n: nat) -> Seq<usize> {
    let s = if n < MAX_SEEDS { n } else { MAX_SEEDS as nat };
    Seq::new(s, |i: int| (i * (n / s)) as usize)
}

pub open spec fn acorn_init(n: nat, dist: spec_fn(usize) -> u64) -> AcornState {
    acorn_expand(
        AcornState { cands: Seq::empty(), visited: Seq::new(n, |i: int| false), n_visited: 0, results: Seq::empty(), done: false },
        seeds(n),
        dist,
    )
}

/// One round: pop the nearest candidate; keep it when it matches (stopping
/// once `want` matches were kept); otherwise, or then, expand its neighbours,
/// and stop once `limit` nodes were visited.
pub open spec fn acorn_step(
    st: AcornState,
    adj: Seq<Seq<usize>>,
    cats: Seq<u32>,
    c: u32,
    dist: spec_fn(usize) -> u64,
    want: nat,
    limit: nat,
) -> AcornState {
    let i = min_pos(st.cands);
    let (score, node) = st.cands[i];
    let st1 = AcornState { cands: st.cands.remove(i), ..st };
    let st2 = if cats[node as int] == c {
        AcornState { results: st1.results.push((node, score)), ..st1 }
    } else {
        st1
    };
    if cats[node as int] == c && st2.results.len() >= want {
        AcornState { done: true, ..st2 }
    } else {
        let st3 = acorn_expand(st2, adj[node as int], dist);
        if st3.n_visited >= limit {
            AcornState { done: true, ..st3 }
        } else {
            st3
        }
    }
}

pub open spec fn acorn_measure(st: AcornState) -> nat {
    st.cands.len() + count_false(st.visited)
}

pub open spec fn acorn_run(
    st: AcornState,
    adj: Seq<Seq<usize>>,
    cats: Seq<u32>,
    c: u32,
    dist: spec_fn(usize) -> u64,
    want: nat,
    limit: nat,
    fuel: nat,
) -> AcornState
    decreases fuel,
{
    if fuel == 0 || st.done || st.cands.len() == 0 {
        st
    } else {
        acorn_run(acorn_step(st, adj, cats, c, dist, want, limit), adj, cats, c, dist, want, limit, (fuel - 1) as nat)
    }
}

pub open spec fn acorn_wf(st: AcornState, n: nat) -> bool {
    &&& st.visited.len() == n
    &&& forall|i: int| 0 <= i < st.cands.len() ==> (#[trigger] st.cands[i]).1 < n
}

/// The results of an expansion search of `adj` for category `c`.
pub open spec fn acorn_result(
    adj: Seq<Seq<usize>>,
    cats: Seq<u32>,
    c: u32,
    dist: spec_fn(usize) -> u64,
    k: nat,
    ef: nat,
) -> Seq<Scored> {
    let n = cats.len();
    let st0 = acorn_init(n, dist);
    let limit = if ef * 30 > MIN_BEAM_LIMIT { ef * 30 } else { MIN_BEAM_LIMIT as nat };
    top_k_spec(acorn_run(st0, adj, cats, c, dist, k * 3, limit, acorn_measure(st0)).results, k as int, false)
}

proof fn lemma_acorn_visit(st: AcornState, nb: usize, dist: spec_fn(usize) -> u64, n: nat)
    requires
        acorn_wf(st, n),
        nb < n,
    ensures
        acorn_wf(acorn_visit(st, nb, dist), n),
        acorn_measure(acorn_visit(st, nb, dist)) <= acorn_measure(st),
{
    if !st.visited[nb as int] {
        lemma_count_false_update(st.visited, nb as int);
        let st2 = acorn_visit(st, nb, dist);
        assert forall|i: int| 0 <= i < st2.cands.len() implies (#[trigger] st2.cands[i]).1 < n by {
            if i < st.cands.len() {
                assert(st2.cands[i] == st.cands[i]);
            }
        }
    }
}

proof fn lemma_acorn_expand(st: AcornState, nbrs: Seq<usize>, dist: spec_fn(usize) -> u64, n: nat)
    requires
        acorn_wf(st, n),
        forall|j: int| 0 <= j < nbrs.len() ==> (#[trigger] nbrs[j]) < n,
    ensures
        acorn_wf(acorn_expand(st, nbrs, dist), n),
        acorn_measure(acorn_expand(st, nbrs, dist)) <= acorn_measure(st),
    decreases nbrs.len(),
{
    if nbrs.len() > 0 {
        lemma_acorn_expand(st, nbrs.drop_last(), dist, n);
        lemma_acorn_visit(acorn_expand(st, nbrs.drop_last(), dist), nbrs.last(), dist, n);
    }
}

pub open spec fn graph_wf(adj: Seq<Seq<usize>>, n: nat) -> bool {
    &&& adj.len() == n
    &&& forall|i: int, j: int| 0 <= i < adj.len() && 0 <= j < adj[i].len() ==> (#[trigger] adj[i][j]) < n
}

proof fn lemma_acorn_step(
    st: AcornState,
    adj: Seq<Seq<usize>>,
    cats: Seq<u32>,
    c: u32,
    dist: spec_fn(usize) -> u64,
    want: nat,
    limit: nat,
)
    requires
        acorn_wf(st, cats.len()),
        graph_wf(adj, cats.len()),
        st.cands.len() > 0,
    ensures
        acorn_wf(acorn_step(st, adj, cats, c, dist, want, limit), cats.len()),
        acorn_measure(acorn_step(st, adj, cats, c, dist, want, limit)) < acorn_measure(st),
{
    let n = cats.len();
    lemma_min_pos(st.cands);
    let i = min_pos(st.cands);
    let node = st.cands[i].1;
    let st1 = AcornState { cands: st.cands.remove(i), ..st };
    assert forall|j: int| 0 <= j < st1.cands.len() implies (#[trigger] st1.cands[j]).1 < n by {
        if j < i {
            assert(st1.cands[j] == st.cands[j]);
        } else {
            assert(st1.cands[j] == st.cands[j + 1]);
        }
    }
    let st2 = if cats[node as int] == c {
        AcornState { results: st1.results.push((node, st.cands[i].0)), ..st1 }
    } else {
        st1
    };
    assert forall|j: int| 0 <= j < adj[node as int].len() implies (#[trigger] adj[node as int][j]) < n by {
    }
    lemma_acorn_expand(st2, adj[node as int], dist, n);
}

proof fn lemma_acorn_fuel(
    st: AcornState,
    adj: Seq<Seq<usize>>,
    cats: Seq<u32>,
    c: u32,
    dist: spec_fn(usize) -> u64,
    want: nat,
    limit: nat,
    f1: nat,
    f2: nat,
)
    requires
        acorn_wf(st, cats.len()),
        graph_wf(adj, cats.len()),
        f1 >= acorn_measure(st),
        f2 >= acorn_measure(st),
    ensures
        acorn_run(st, adj, cats, c, dist, want, limit, f1) == acorn_run(st, adj, cats, c, dist, want, limit, f2),
    decreases acorn_measure(st),
{
    if !st.done && st.cands.len() > 0 {
        lemma_acorn_step(st, adj, cats, c, dist, want, limit);
        lemma_acorn_fuel(
            acorn_step(st, adj, cats, c, dist, want, limit),
            adj,
            cats,
            c,
            dist,
            want,
            limit,
            (f1 - 1) as nat,
            (f2 - 1) as nat,
        );
    }
}

pub open spec fn acorn_state_of(
    cands: Seq<Cand>,
    visited: Seq<bool>,
    n_visited: usize,
    results: Seq<Scored>,
    done: bool,
) -> AcornState {
    AcornState { cands, visited, n_visited: n_visited as nat, results, done }
}

/// Graph-expansion strategy: categories and the k-NN graph over the corpus.
pub struct AcornExpand {
    pub categories: Vec<u32>,
    pub graph: Option<KnnGraph>,
    pub ef: usize,
}

impl AcornExpand {
    pub open spec fn adj(&self) -> Seq<Seq<usize>> {
        self.graph->0.adj@.map_values(|v: Vec<usize>| v@)
    }

    /// Built: the graph covers exactly the categorised vectors.
    pub open spec fn wf(&self) -> bool {
        &&& self.graph is Some
        &&& graph_wf(self.adj(), self.categories@.len())
    }

    pub fn new(ef: usize) -> (r: Self)
        ensures
            r.ef == ef,
            r.graph is None,
            r.categories@.len() == 0,
    {
        AcornExpand { categories: Vec::new(), graph: None, ef }
    }

    /// Builds the k-NN graph of out-degree 16 over the corpus, with `dist`
    /// the key of the distance between two vectors.
    pub fn build<F: Fn(usize, usize) -> u64>(&mut self, categories: Vec<u32>, dist: F)
        requires
            categories@.len() > ACORN_DEGREE,
            is_pair_oracle(dist, categories@.len() as int),
        ensures
            final(self).wf(),
            final(self).ef == old(self).ef,
            final(self).categories@ == categories@,
            final(self).graph->0.m == ACORN_DEGREE,
            forall|i: int| 0 <= i < categories@.len() ==> is_neighbourhood(
                #[trigger] final(self).graph->0.adj@[i]@,
                categories@.len() as int,
                i as usize,
                dist,
                ACORN_DEGREE as int,
            ),
    {
        let g = KnnGraph::build(categories.len(), ACORN_DEGREE, dist);
        self.graph = Some(g);
        self.categories = categories;
    }

    /// The `k` nearest matching nodes the expansion reaches: the beam pops the
    /// nearest candidate, keeps it when it matches, and always expands its
    /// neighbours; it stops after `3k` matches or `max(30 ef, 3000)` visits.
    pub fn search<F: Fn(usize) -> u64>(&self, dist: F, k: usize, filter: &CategoryFilter) -> (r: Vec<Scored>)
        requires
            self.wf(),
            is_oracle(dist, self.categories@.len() as int),
            k <= usize::MAX / 3,
            self.ef <= usize::MAX / 30,
        ensures
            self.categories@.len() == 0 ==> r@.len() == 0,
            self.categories@.len() > 0 ==> r@ == acorn_result(
                self.adj(),
                self.categories@,
                filter.0,
                |i: usize| key_of(dist, i),
                k as nat,
                self.ef as nat,
            ),
    {
        let n = self.categories.len();
        if n == 0 {
            return Vec::new();
        }
        let graph = match &self.graph {
            Some(g) => g,
            None => {
                return Vec::new();
            },
        };
        let ghost adj = self.adj();
        let ghost cats = self.categories@;
        let ghost dfn = |i: usize| key_of(dist, i);
        let mut cands: Vec<Cand> = Vec::new();
        let mut visited: Vec<bool> = Vec::new();
        let mut i: usize = 0;
        while i < n
            invariant
                i <= n,
                visited@ == Seq::new(i as nat, |j: int| false),
            decreases n - i,
        {
            visited.push(false);
            assert(visited@ =~= Seq::new((i + 1) as nat, |j: int| false));
            i = i + 1;
        }
        proof {
            lemma_count_false_new(n as nat);
        }
        let mut n_visited: usize = 0;
        let mut results: Vec<Scored> = Vec::new();
        let n_seeds = if n < MAX_SEEDS { n } else { MAX_SEEDS };
        let step = n / n_seeds;
        let ghost empty = AcornState {
            cands: Seq::empty(),
            visited: Seq::new(n as nat, |j: int| false),
            n_visited: 0,
            results: Seq::empty(),
            done: false,
        };
        let ghost sd = seeds(n as nat);
        assert(sd.take(0) =~= Seq::<usize>::empty());
        assert(acorn_state_of(cands@, visited@, n_visited, results@, false) == empty);
        let mut s: usize = 0;
        while s < n_seeds
            invariant
                s <= n_seeds,
                0 < n_seeds <= MAX_SEEDS,
                n_seeds <= n,
                n == self.categories@.len(),
                step == n / n_seeds,
                sd == seeds(n as nat),
                sd.len() == n_seeds,
                is_oracle(dist, n as int),
                dfn == (|i: usize| key_of(dist, i)),
                n_visited <= s,
                n_visited + count_false(visited@) == n,
                acorn_wf(acorn_state_of(cands@, visited@, n_visited, results@, false), n as nat),
                acorn_state_of(cands@, visited@, n_visited, results@, false) == acorn_expand(empty, sd.take(s as int), dfn),
            decreases n_seeds - s,
        {
            assert(s * step <= n_seeds * step) by (nonlinear_arith)
                requires
                    s <= n_seeds;
            assert(n_seeds * step <= n) by (nonlinear_arith)
                requires
                    step == n / n_seeds,
                    n_seeds > 0;
            let entry = s * step;
            assert(s < n_seeds ==> s * step < n) by (nonlinear_arith)
                requires
                    step == n / n_seeds,
                    n_seeds > 0,
                    n_seeds <= n,
                    s < n_seeds;
            assert(sd[s as int] == entry);
            assert(sd.take(s + 1).drop_last() =~= sd.take(s as int));
            let ghost before = acorn_state_of(cands@, visited@, n_visited, results@, false);
            if !visited[entry] {
                proof {
                    lemma_count_false_update(visited@, entry as int);
                }
                visited.set(entry, true);
                n_visited = n_visited + 1;
                let d = ask(&dist, entry, Ghost(n as int));
                cands.push((d, entry));
            }
            proof {
                lemma_acorn_visit(before, entry, dfn, n as nat);
            }
            assert(acorn_state_of(cands@, visited@, n_visited, results@, false) =~= acorn_visit(before, entry, dfn));
            s = s + 1;
        }
        assert(sd.take(n_seeds as int) =~= sd);
        let ghost st0 = acorn_init(n as nat, dfn);
        let limit = if self.ef * 30 > MIN_BEAM_LIMIT { self.ef * 30 } else { MIN_BEAM_LIMIT };
        let want = k * 3;
        let mut done = false;
        proof {
            lemma_count_false_le(visited@);
        }
        while !done && cands.len() > 0
            invariant
                n == self.categories@.len(),
                adj == self.adj(),
                cats == self.categories@,
                graph_wf(adj, n as nat),
                graph.adj@.map_values(|v: Vec<usize>| v@) == adj,
                is_oracle(dist, n as int),
                dfn == (|i: usize| key_of(dist, i)),
                acorn_wf(acorn_state_of(cands@, visited@, n_visited, results@, done), n as nat),
                n_visited + count_false(visited@) <= n,
                acorn_run(
                    acorn_state_of(cands@, visited@, n_visited, results@, done),
                    adj,
                    cats,
                    filter.0,
                    dfn,
                    want as nat,
                    limit as nat,
                    acorn_measure(acorn_state_of(cands@, visited@, n_visited, results@, done)),
                ) == acorn_run(st0, adj, cats, filter.0, dfn, want as nat, limit as nat, acorn_measure(st0)),
            decreases acorn_measure(acorn_state_of(cands@, visited@, n_visited, results@, done)),
        {
            let ghost cur = acorn_state_of(cands@, visited@, n_visited, results@, done);
            proof {
                lemma_acorn_step(cur, adj, cats, filter.0, dfn, want as nat, limit as nat);
                lemma_min_pos(cands@);
            }
            let p = min_pos_find(&cands);
            let (score, node) = cands.remove(p);
            let ghost st1 = AcornState { cands: cur.cands.remove(p as int), ..cur };
            let matched = filter.matches(self.categories[node]);
            if matched {
                results.push((node, score));
            }
            if matched && results.len() >= want {
                done = true;
            } else {
                let ghost st2 = acorn_state_of(cands@, visited@, n_visited, results@, done);
                let row = &graph.adj[node];
                assert(row@ == adj[node as int]);
                let mut j: usize = 0;
                assert(row@.take(0) =~= Seq::<usize>::empty());
                while j < row.len()
                    invariant
                        j <= row@.len(),
                        n == self.categories@.len(),
                        node < n,
                        row@ == adj[node as int],
                        graph_wf(adj, n as nat),
                        is_oracle(dist, n as int),
                        dfn == (|i: usize| key_of(dist, i)),
                        !done,
                        visited@.len() == n,
                        n_visited + count_false(visited@) <= n,
                        acorn_state_of(cands@, visited@, n_visited, results@, done) == acorn_expand(
                            st2,
                            row@.take(j as int),
                            dfn,
                        ),
                    decreases row@.len() - j,
                {
                    let nb = row[j];
                    assert(nb < n);
                    let ghost before = acorn_state_of(cands@, visited@, n_visited, results@, done);
                    assert(row@.take(j + 1).drop_last() =~= row@.take(j as int));
                    if !visited[nb] {
                        proof {
                            lemma_count_false_update(visited@, nb as int);
                        }
                        visited.set(nb, true);
                        n_visited = n_visited + 1;
                        let d = ask(&dist, nb, Ghost(n as int));
                        cands.push((d, nb));
                    }
                    assert(acorn_state_of(cands@, visited@, n_visited, results@, done) =~= acorn_visit(before, nb, dfn));
                    j = j + 1;
                }
                assert(row@.take(row@.len() as int) =~= row@);
                if n_visited >= limit {
                    done = true;
                }
            }
            let ghost nxt = acorn_state_of(cands@, visited@, n_visited, results@, done);
            assert(nxt == acorn_step(cur, adj, cats, filter.0, dfn, want as nat, limit as nat));
            proof {
                lemma_acorn_fuel(nxt, adj, cats, filter.0, dfn, want as nat, limit as nat, acorn_measure(nxt), (acorn_measure(cur) - 1) as nat);
            }
        }
        let ghost fin = acorn_state_of(cands@, visited@, n_visited, results@, done);
        assert(fin == acorn_run(st0, adj, cats, filter.0, dfn, want as nat, limit as nat, acorn_measure(st0)));
        top_k_ascending(&results, k)
    }
}

fn min_pos_find(s: &Vec<Cand>) -> (r: usize)
    requires
        s@.len() > 0,
    ensures
        r == min_pos(s@),
        r < s@.len(),
{
    let mut m: usize = 0;
    let mut i: usize = 1;
    while i < s.len()
        invariant
            1 <= i <= s@.len(),
            m == min_pos(s@.take(i as int)),
            0 <= m < i,
        decreases s@.len() - i,
    {
        let ghost t = s@.take(i + 1);
        assert(t.drop_last() =~= s@.take(i as int));
        assert(t.last() == s@[i as int]);
        assert(t[m as int] == s@[m as int]);
        if s[i].0 < s[m].0 || (s[i].0 == s[m].0 && s[i].1 < s[m].1) {
            m = i;
        }
        i = i + 1;
    }
    assert(s@.take(s@.len() as int) =~= s@);
    proof {
        lemma_min_pos(s@);
    }
    m
}

} // verus!
