//! Approximate k-NN graph built from random-sample neighbourhoods.
use vstd::prelude::*;
use crate::oracle::{ask_pair, is_pair_oracle, pair_key_of};
use crate::rank::{Scored, lemma_top_k_from_input, top_k_ascending, top_k_spec, min_nat};
use crate::rng::{small_rng_index, small_rng_seeded};

verus! {

/// Largest number of candidates sampled for each node.
pub const SAMPLE_CAP: usize = 2000;

/// Seed of the generator used to sample neighbourhoods.
pub const GRAPH_SEED: u64 = 42;

/// Each node stores its `m` nearest neighbours among a random sample.
pub struct KnnGraph {
    pub adj: Vec<Vec<usize>>,
    pub m: usize,
}

/// `pool` is a sample of `size` distinct node ids below `n`, none of them `i`.
pub open spec fn is_sample(pool: Seq<usize>, n: int, i: int, size: int) -> bool {
    &&& pool.len() == size
    &&& forall|p: int| 0 <= p < pool.len() ==> (#[trigger] pool[p]) < n && pool[p] != i
    &&& forall|p: int, q: int| 0 <= p < q < pool.len() ==> #[trigger] pool[p] != #[trigger] pool[q]
}

/// The ids of the `m` candidates of `pool` nearest to `i` (stable in pool order).
pub open spec fn nearest_in_pool<F: Fn(usize, usize) -> u64>(pool: Seq<usize>, i: usize, dist: F, m: int) -> Seq<usize> {
    top_k_spec(pool.map_values(|j: usize| (j, pair_key_of(dist, i, j))), m, false).map_values(|e: Scored| e.0)
}

/// The sample size used for a corpus of `n` nodes.
pub open spec fn sample_size(n: int) -> int {
    min_nat(SAMPLE_CAP as int, n - 1)
}

/// `adj` is the neighbour list of `i` chosen from some random sample.
pub open spec fn is_neighbourhood<F: Fn(usize, usize) -> u64>(adj: Seq<usize>, n: int, i: usize, dist: F, m: int) -> bool {
    exists|pool: Seq<usize>| is_sample(pool, n, i as int, sample_size(n)) && adj == nearest_in_pool(pool, i, dist, m)
}

impl KnnGraph {
    /// Builds the graph over `n` nodes: each node keeps its `m` nearest
    /// (by the keys of `dist`) among a random sample of up to 2000 others.
    pub fn build<F: Fn(usize, usize) -> u64>(n: usize, m: usize, dist: F) -> (r: Self)
        requires
            n > m,
            is_pair_oracle(dist, n as int),
        ensures
            r.m == m,
            r.adj@.len() == n,
            forall|i: int| 0 <= i < n ==> is_neighbourhood(#[trigger] r.adj@[i]@, n as int, i as usize, dist, m as int),
            forall|i: int, j: int| 0 <= i < n && 0 <= j < r.adj@[i]@.len() ==> (#[trigger] r.adj@[i]@[j]) < n,
    {
        let mut rng = small_rng_seeded(GRAPH_SEED);
        let size = if SAMPLE_CAP < n - 1 { SAMPLE_CAP } else { n - 1 };
        let mut adj: Vec<Vec<usize>> = Vec::new();
        let mut i: usize = 0;
        while i < n
            invariant
                i <= n,
                n > m,
                size == sample_size(n as int),
                is_pair_oracle(dist, n as int),
                adj@.len() == i,
                forall|q: int| 0 <= q < i ==> is_neighbourhood(#[trigger] adj@[q]@, n as int, q as usize, dist, m as int),
                forall|q: int, j: int| 0 <= q < i && 0 <= j < adj@[q]@.len() ==> (#[trigger] adj@[q]@[j]) < n,
            decreases n - i,
        {
            let pool = sample_pool(&mut rng, n, i, size);
            let mut scored: Vec<Scored> = Vec::new();
            let mut t: usize = 0;
            while t < pool.len()
                invariant
                    t <= pool@.len(),
                    i < n,
                    is_sample(pool@, n as int, i as int, size as int),
                    is_pair_oracle(dist, n as int),
                    scored@ == pool@.take(t as int).map_values(|j: usize| (j, pair_key_of(dist, i, j))),
                decreases pool@.len() - t,
            {
                let j = pool[t];
                let key = ask_pair(&dist, i, j, Ghost(n as int));
                scored.push((j, key));
                assert(scored@ =~= pool@.take(t + 1).map_values(|j: usize| (j, pair_key_of(dist, i, j))));
                t = t + 1;
            }
            assert(pool@.take(pool@.len() as int) =~= pool@);
            let best = top_k_ascending(&scored, m);
            let ghost best_s = best@;
            proof {
                lemma_top_k_from_input(scored@, m as int, false);
                assert forall|q: int| 0 <= q < best_s.len() implies (#[trigger] best_s[q]).0 < n by {
                    assert(scored@.contains(best_s[q]));
                    let w = choose|w: int| 0 <= w < scored@.len() && scored@[w] == best_s[q];
                    assert(scored@[w].0 == pool@[w]);
                }
            }
            let mut ids: Vec<usize> = Vec::new();
            let mut u: usize = 0;
            while u < best.len()
                invariant
                    u <= best@.len(),
                    best@ == best_s,
                    ids@ == best_s.take(u as int).map_values(|e: Scored| e.0),
                decreases best@.len() - u,
            {
                ids.push(best[u].0);
                assert(ids@ =~= best_s.take(u + 1).map_values(|e: Scored| e.0));
                u = u + 1;
            }
            assert(best_s.take(best_s.len() as int) =~= best_s);
            assert(is_neighbourhood(ids@, n as int, i, dist, m as int));
            assert(forall|q: int| 0 <= q < ids@.len() ==> (#[trigger] ids@[q]) == best_s[q].0);
            adj.push(ids);
            i = i + 1;
        }
        KnnGraph { adj, m }
    }

    pub fn len(&self) -> (r: usize)
        ensures
            r == self.adj@.len(),
    {
        self.adj.len()
    }
}

/// Draws `size` distinct node ids below `n`, all different from `i`: the ids
/// other than `i`, partially shuffled (Fisher-Yates on the first `size`
/// places) and truncated.
fn sample_pool(rng: &mut rand::rngs::SmallRng, n: usize, i: usize, size: usize) -> (pool: Vec<usize>)
    requires
        i < n,
        size <= n - 1,
    ensures
        is_sample(pool@, n as int, i as int, size as int),
{
    let mut pool: Vec<usize> = Vec::new();
    let mut j: usize = 0;
    while j < n
        invariant
            j <= n,
            i < n,
            pool@.len() == if j <= i { j as int } else { j - 1 },
            forall|p: int| 0 <= p < pool@.len() ==> (#[trigger] pool@[p]) < j && pool@[p] != i,
            forall|p: int, q: int| 0 <= p < q < pool@.len() ==> #[trigger] pool@[p] < #[trigger] pool@[q],
        decreases n - j,
    {
        if j != i {
            pool.push(j);
        }
        j = j + 1;
    }
    let len = pool.len();
    let mut t: usize = 0;
    while t < size
        invariant
            t <= size,
            size <= len,
            len == pool@.len(),
            is_sample(pool@, n as int, i as int, len as int),
        decreases size - t,
    {
        let r = small_rng_index(rng, t, len);
        let a = pool[t];
        let b = pool[r];
        let ghost old_pool = pool@;
        pool.set(t, b);
        pool.set(r, a);
        assert forall|p: int, q: int| 0 <= p < q < pool@.len() implies #[trigger] pool@[p] != #[trigger] pool@[q] by {
            let sp = if p == t { r as int } else if p == r { t as int } else { p };
            let sq = if q == t { r as int } else if q == r { t as int } else { q };
            assert(pool@[p] == old_pool[sp]);
            assert(pool@[q] == old_pool[sq]);
            assert(sp != sq);
        }
        assert forall|p: int| 0 <= p < pool@.len() implies (#[trigger] pool@[p]) < n && pool@[p] != i by {
            let sp = if p == t { r as int } else if p == r { t as int } else { p };
            assert(pool@[p] == old_pool[sp]);
        }
        t = t + 1;
    }
    pool.truncate(size);
    pool
}

} // verus!
