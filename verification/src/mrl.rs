//! Cascaded (Matryoshka) search: a coarse pass on a prefix of each embedding
//! nominates candidates that a fine pass re-scores.
//!
//! Distances come from the caller as order keys by position (smaller is
//! nearer); the caller computes them on the prefix length that each pass names.
use vstd::prelude::*;
use crate::oracle::{ask, is_oracle, key_of};
use crate::rank::{Scored, keys_of, lemma_map_multiset, lemma_top_k_properties, lemma_top_k_same_items, lemma_sort_ranked_len, lemma_sort_ranked_properties, lemma_top_k_from_input, lemma_top_k_keys_by_multiset, min_nat, sort_ranked, top_k_ascending, top_k_spec};

verus! {

/// Squared Euclidean distance (the caller's kernel).
pub struct L2Sq;

/// One minus the dot product (the caller's kernel).
pub struct DotProduct;

/// Configuration of a cascaded pass.
#[derive(Clone, Copy, Debug)]
pub struct CascadeConfig {
    /// Prefix length used by the coarse pass.
    pub coarse_dim: usize,
    /// The coarse pass keeps `k * oversample` candidates.
    pub oversample: usize,
    /// Prefix length used to re-score.
    pub fine_dim: usize,
}

/// Positions `0..n` ordered by id; equal ids keep position order.
pub open spec fn by_id(ids: Seq<u64>) -> Seq<Scored> {
    sort_ranked(Seq::new(ids.len(), |p: int| (p as usize, ids[p])), false)
}

/// The `k` nearest entries by `dist` as `(id, key)`, nearest first; equal
/// distances are ordered by id.
pub open spec fn search_at_dim_spec(ids: Seq<u64>, dist: spec_fn(usize) -> u64, k: int) -> Seq<(u64, u64)> {
    top_k_spec(by_id(ids).map_values(|e: Scored| (e.0, dist(e.0))), k, false).map_values(
        |e: Scored| (ids[e.0 as int], e.1),
    )
}

/// `i` is the first position holding `id`.
pub open spec fn is_first(ids: Seq<u64>, id: u64, i: int) -> bool {
    &&& 0 <= i < ids.len()
    &&& ids[i] == id
    &&& forall|j: int| 0 <= j < i ==> ids[j] != id
}

/// The candidates whose id is stored, each at the first position holding
/// it, scored by `dist`, in candidate order.
pub open spec fn resolve(ids: Seq<u64>, cands: Seq<(u64, u64)>, dist: spec_fn(usize) -> u64) -> Seq<Scored>
    decreases cands.len(),
{
    if cands.len() == 0 {
        Seq::empty()
    } else {
        let id = cands.last().0;
        let rest = resolve(ids, cands.drop_last(), dist);
        if exists|i: int| is_first(ids, id, i) {
            let p = choose|i: int| is_first(ids, id, i);
            rest.push((p as usize, dist(p as usize)))
        } else {
            rest
        }
    }
}

/// Re-scoring: the stored candidates scored by `dist`, the `k` nearest
/// first; equal distances keep candidate order.
pub open spec fn rescore_spec(ids: Seq<u64>, cands: Seq<(u64, u64)>, dist: spec_fn(usize) -> u64, k: int) -> Seq<(u64, u64)> {
    top_k_spec(resolve(ids, cands, dist), k, false).map_values(|e: Scored| (ids[e.0 as int], e.1))
}

proof fn lemma_first_unique(ids: Seq<u64>, id: u64, i: int, j: int)
    requires
        is_first(ids, id, i),
        is_first(ids, id, j),
    ensures
        i == j,
{
    if i < j {
        assert(ids[i] != id);
    } else if j < i {
        assert(ids[j] != id);
    }
}

fn relabel_u64(s: &Vec<Scored>, ids: &Vec<u64>) -> (r: Vec<(u64, u64)>)
    requires
        forall|i: int| 0 <= i < s@.len() ==> (#[trigger] s@[i]).0 < ids@.len(),
    ensures
        r@ == s@.map_values(|e: Scored| (ids@[e.0 as int], e.1)),
{
    let mut r: Vec<(u64, u64)> = Vec::new();
    let mut i: usize = 0;
    while i < s.len()
        invariant
            i <= s@.len(),
            forall|q: int| 0 <= q < s@.len() ==> (#[trigger] s@[q]).0 < ids@.len(),
            r@ == s@.take(i as int).map_values(|e: Scored| (ids@[e.0 as int], e.1)),
        decreases s@.len() - i,
    {
        let e = s[i];
        r.push((ids[e.0], e.1));
        assert(r@ =~= s@.take(i + 1).map_values(|e: Scored| (ids@[e.0 as int], e.1)));
        i = i + 1;
    }
    assert(s@.take(s@.len() as int) =~= s@);
    r
}

/// Brute-force index over the ids of stored embeddings (by position).
pub struct FlatIndex {
    ids: Vec<u64>,
    full_dim: usize,
}

impl FlatIndex {
    /// Ids of the stored embeddings, in insertion order.
    pub closed spec fn ids(&self) -> Seq<u64> {
        self.ids@
    }

    pub closed spec fn spec_full_dim(&self) -> usize {
        self.full_dim
    }

    pub fn new(full_dim: usize) -> (r: Self)
        ensures
            r.ids().len() == 0,
            r.spec_full_dim() == full_dim,
    {
        FlatIndex { ids: Vec::new(), full_dim }
    }

    /// Records an embedding of length `len` under `id`.
    pub fn insert(&mut self, id: u64, len: usize)
        requires
            len == old(self).spec_full_dim(),
        ensures
            final(self).ids() == old(self).ids().push(id),
            final(self).spec_full_dim() == old(self).spec_full_dim(),
    {
        self.ids.push(id);
    }

    pub fn len(&self) -> (r: usize)
        ensures
            r == self.ids().len(),
    {
        self.ids.len()
    }

    pub fn is_empty(&self) -> (r: bool)
        ensures
            r == (self.ids().len() == 0),
    {
        self.ids.len() == 0
    }

    pub fn full_dim(&self) -> (r: usize)
        ensures
            r == self.spec_full_dim(),
    {
        self.full_dim
    }

    /// The `k` nearest entries at prefix length `search_dim`, where `dist`
    /// gives the distance key of the entry at each position on that prefix;
    /// as `(id, key)`, nearest first, equal distances ordered by id.
    pub fn search_at_dim<F: Fn(usize) -> u64>(&self, search_dim: usize, k: usize, dist: F) -> (r: Vec<(u64, u64)>)
        requires
            search_dim <= self.spec_full_dim(),
            is_oracle(dist, self.ids().len() as int),
        ensures
            r@ == search_at_dim_spec(self.ids(), |p: usize| key_of(dist, p), k as int),
    {
        let ghost df = |p: usize| key_of(dist, p);
        let n = self.ids.len();
        let mut items: Vec<Scored> = Vec::new();
        let mut p: usize = 0;
        while p < n
            invariant
                p <= n,
                n == self.ids@.len(),
                items@ == Seq::new(n as nat, |q: int| (q as usize, self.ids@[q])).take(p as int),
            decreases n - p,
        {
            items.push((p, self.ids[p]));
            assert(items@ =~= Seq::new(n as nat, |q: int| (q as usize, self.ids@[q])).take(p + 1));
            p = p + 1;
        }
        assert(items@ =~= Seq::new(n as nat, |q: int| (q as usize, self.ids@[q])));
        let ordered = top_k_ascending(&items, n);
        proof {
            lemma_sort_ranked_len(items@, false);
            assert(ordered@ =~= by_id(self.ids@));
            lemma_top_k_from_input(items@, n as int, false);
        }
        let mut scored: Vec<Scored> = Vec::new();
        let mut i: usize = 0;
        while i < ordered.len()
            invariant
                i <= ordered@.len(),
                n == self.ids@.len(),
                is_oracle(dist, n as int),
                df == (|p: usize| key_of(dist, p)),
                items@ == Seq::new(n as nat, |q: int| (q as usize, self.ids@[q])),
                forall|j: int| 0 <= j < ordered@.len() ==> items@.contains(#[trigger] ordered@[j]),
                scored@ == ordered@.take(i as int).map_values(|e: Scored| (e.0, df(e.0))),
            decreases ordered@.len() - i,
        {
            let pos = ordered[i].0;
            assert(items@.contains(ordered@[i as int]));
            let d = ask(&dist, pos, Ghost(n as int));
            scored.push((pos, d));
            assert(scored@ =~= ordered@.take(i + 1).map_values(|e: Scored| (e.0, df(e.0))));
            i = i + 1;
        }
        assert(ordered@.take(ordered@.len() as int) =~= ordered@);
        let best = top_k_ascending(&scored, k);
        proof {
            lemma_top_k_from_input(scored@, k as int, false);
            assert forall|j: int| 0 <= j < best@.len() implies (#[trigger] best@[j]).0 < self.ids@.len() by {
                assert(scored@.contains(best@[j]));
                let q = choose|q: int| 0 <= q < scored@.len() && scored@[q] == best@[j];
                assert(items@.contains(ordered@[q]));
            }
        }
        relabel_u64(&best, &self.ids)
    }

    fn find_first(&self, id: u64) -> (r: Option<usize>)
        ensures
            r matches Some(i) ==> is_first(self.ids@, id, i as int),
            r is None ==> !(exists|i: int| is_first(self.ids@, id, i)),
    {
        let mut i: usize = 0;
        while i < self.ids.len()
            invariant
                i <= self.ids@.len(),
                forall|j: int| 0 <= j < i ==> self.ids@[j] != id,
            decreases self.ids@.len() - i,
        {
            if self.ids[i] == id {
                return Some(i);
            }
            i = i + 1;
        }
        None
    }

    /// Re-scores the candidates whose id is stored (at the first position
    /// holding it) with `dist`, the distance key at prefix length
    /// `rescore_dim`; returns the `k` nearest, equal distances in candidate order.
    pub fn rescore<F: Fn(usize) -> u64>(&self, candidates: &Vec<(u64, u64)>, rescore_dim: usize, k: usize, dist: F) -> (r: Vec<(u64, u64)>)
        requires
            rescore_dim <= self.spec_full_dim(),
            is_oracle(dist, self.ids().len() as int),
        ensures
            r@ == rescore_spec(self.ids(), candidates@, |p: usize| key_of(dist, p), k as int),
    {
        let ghost df = |p: usize| key_of(dist, p);
        let n = self.ids.len();
        let mut found: Vec<Scored> = Vec::new();
        let mut i: usize = 0;
        while i < candidates.len()
            invariant
                i <= candidates@.len(),
                n == self.ids@.len(),
                is_oracle(dist, n as int),
                df == (|p: usize| key_of(dist, p)),
                found@ == resolve(self.ids@, candidates@.take(i as int), df),
                forall|j: int| 0 <= j < found@.len() ==> (#[trigger] found@[j]).0 < n,
            decreases candidates@.len() - i,
        {
            let id = candidates[i].0;
            let ghost pre1 = candidates@.take(i + 1);
            assert(pre1.drop_last() =~= candidates@.take(i as int));
            assert(pre1.last().0 == id);
            match self.find_first(id) {
                Some(pos) => {
                    let d = ask(&dist, pos, Ghost(n as int));
                    proof {
                        let c = choose|q: int| is_first(self.ids@, id, q);
                        lemma_first_unique(self.ids@, id, c, pos as int);
                    }
                    found.push((pos, d));
                },
                None => {},
            }
            i = i + 1;
        }
        assert(candidates@.take(candidates@.len() as int) =~= candidates@);
        let best = top_k_ascending(&found, k);
        proof {
            lemma_top_k_from_input(found@, k as int, false);
            assert forall|j: int| 0 <= j < best@.len() implies (#[trigger] best@[j]).0 < self.ids@.len() by {
                assert(found@.contains(best@[j]));
            }
        }
        relabel_u64(&best, &self.ids)
    }
}

/// What cascaded search returns: the `k · oversample` nearest by the coarse
/// distance, re-scored by the fine distance, the `k` nearest of them.
pub open spec fn cascade_spec(
    ids: Seq<u64>,
    coarse: spec_fn(usize) -> u64,
    fine: spec_fn(usize) -> u64,
    k: int,
    oversample: int,
) -> Seq<(u64, u64)> {
    rescore_spec(ids, search_at_dim_spec(ids, coarse, k * oversample), fine, k)
}

/// No id is stored twice.
pub open spec fn distinct_ids(ids: Seq<u64>) -> bool {
    forall|i: int, j: int| 0 <= i < j < ids.len() ==> ids[i] != ids[j]
}

/// With distinct ids, every candidate resolves to the position it came from.
proof fn lemma_resolve_distinct(ids: Seq<u64>, t: Seq<Scored>, fine: spec_fn(usize) -> u64)
    requires
        distinct_ids(ids),
        forall|i: int| 0 <= i < t.len() ==> (#[trigger] t[i]).0 < ids.len(),
    ensures
        resolve(ids, t.map_values(|e: Scored| (ids[e.0 as int], e.1)), fine) == t.map_values(|e: Scored| (e.0, fine(e.0))),
    decreases t.len(),
{
    let c = t.map_values(|e: Scored| (ids[e.0 as int], e.1));
    if t.len() > 0 {
        let t1 = t.drop_last();
        assert forall|i: int| 0 <= i < t1.len() implies (#[trigger] t1[i]).0 < ids.len() by {
            assert(t1[i] == t[i]);
        }
        lemma_resolve_distinct(ids, t1, fine);
        assert(c.drop_last() =~= t1.map_values(|e: Scored| (ids[e.0 as int], e.1)));
        let p = t.last().0 as int;
        let id = c.last().0;
        assert(id == ids[p]);
        assert(is_first(ids, id, p)) by {
            assert forall|j: int| 0 <= j < p implies ids[j] != id by {
                assert(ids[j] != ids[p]);
            }
        }
        let q = choose|i: int| is_first(ids, id, i);
        lemma_first_unique(ids, id, q, p);
        assert(t.map_values(|e: Scored| (e.0, fine(e.0))) =~= t1.map_values(|e: Scored| (e.0, fine(e.0))).push(
            (t.last().0, fine(t.last().0)),
        ));
    } else {
        assert(c =~= Seq::<(u64, u64)>::empty());
        assert(t.map_values(|e: Scored| (e.0, fine(e.0))) =~= Seq::<Scored>::empty());
    }
}

/// With distinct ids and a coarse pass keeping at least every entry
/// (`k · oversample ≥ n`), the cascade returns the distances of the full
/// search, in the same order, and the same entry at every place whose
/// distance no other entry has.
pub proof fn lemma_full_oversample_is_exact(
    ids: Seq<u64>,
    coarse: spec_fn(usize) -> u64,
    fine: spec_fn(usize) -> u64,
    k: int,
    oversample: int,
)
    requires
        distinct_ids(ids),
        ids.len() <= usize::MAX,
        k >= 0,
        k * oversample >= ids.len(),
    ensures
        keys_of_pairs(cascade_spec(ids, coarse, fine, k, oversample)) == keys_of_pairs(search_at_dim_spec(ids, fine, k)),
        forall|i: int|
            0 <= i < search_at_dim_spec(ids, fine, k).len() && Seq::new(ids.len(), |p: int| fine(p as usize)).to_multiset().count(
                #[trigger] search_at_dim_spec(ids, fine, k)[i].1,
            ) == 1 ==> cascade_spec(ids, coarse, fine, k, oversample)[i] == search_at_dim_spec(ids, fine, k)[i],
{
    let n = ids.len();
    let p0 = Seq::new(n, |p: int| (p as usize, ids[p]));
    let b = by_id(ids);
    lemma_sort_ranked_properties(p0, false);
    let tag_c = |e: Scored| (e.0, coarse(e.0));
    let tag_f = |e: Scored| (e.0, fine(e.0));
    let c = b.map_values(tag_c);
    let t = top_k_spec(c, k * oversample, false);
    lemma_sort_ranked_properties(c, false);
    assert(t =~= sort_ranked(c, false));
    // Positions stay below `n` through both sorts.
    assert forall|i: int| 0 <= i < t.len() implies (#[trigger] t[i]).0 < n by {
        lemma_top_k_from_input(c, k * oversample, false);
        assert(c.contains(t[i]));
        let w = choose|w: int| 0 <= w < c.len() && c[w] == t[i];
        assert(b.to_multiset().count(b[w]) > 0) by {
            broadcast use vstd::seq_lib::group_to_multiset_ensures;
            assert(b.contains(b[w]));
        }
        assert(p0.to_multiset().count(b[w]) > 0);
        broadcast use vstd::seq_lib::group_to_multiset_ensures;
        assert(p0.contains(b[w]));
    }
    let cands = t.map_values(|e: Scored| (ids[e.0 as int], e.1));
    assert(search_at_dim_spec(ids, coarse, k * oversample) =~= cands);
    lemma_resolve_distinct(ids, t, fine);
    let resolved = t.map_values(tag_f);
    lemma_map_multiset(t, c, tag_f);
    let d = b.map_values(tag_f);
    assert(c.map_values(tag_f) =~= d);
    lemma_map_multiset(resolved, d, |e: Scored| e.1);
    lemma_top_k_keys_by_multiset(resolved, d, k, false);
    let left = top_k_spec(resolved, k, false);
    let right = top_k_spec(d, k, false);
    assert(keys_of_pairs(left.map_values(|e: Scored| (ids[e.0 as int], e.1))) =~= keys_of(left));
    assert(keys_of_pairs(right.map_values(|e: Scored| (ids[e.0 as int], e.1))) =~= keys_of(right));
    // The same (position, distance) items, so the same entry wherever a
    // distance is unique.
    lemma_top_k_same_items(resolved, d, k, false);
    lemma_top_k_properties(d, k, false);
    lemma_top_k_properties(resolved, k, false);
    let fk = |e: Scored| fine(e.0);
    lemma_map_multiset(b, p0, fk);
    assert(keys_of(d) =~= b.map_values(fk));
    assert(p0.map_values(fk) =~= Seq::new(n, |p: int| fine(p as usize)));
    let cas = cascade_spec(ids, coarse, fine, k, oversample);
    let full = search_at_dim_spec(ids, fine, k);
    assert(cas == left.map_values(|e: Scored| (ids[e.0 as int], e.1)));
    assert(full == right.map_values(|e: Scored| (ids[e.0 as int], e.1)));
    assert forall|i: int|
        0 <= i < full.len() && Seq::new(n, |p: int| fine(p as usize)).to_multiset().count(#[trigger] full[i].1) == 1
            implies cas[i] == full[i] by {
        assert(full[i].1 == right[i].1);
        assert(left[i] == right[i]);
    }
}

/// The distance keys of `(id, key)` results, in order.
pub open spec fn keys_of_pairs(s: Seq<(u64, u64)>) -> Seq<u64> {
    s.map_values(|e: (u64, u64)| e.1)
}

/// Cascaded index: a flat index with its pass configuration.
pub struct MrlCascadedIndex {
    inner: FlatIndex,
    config: CascadeConfig,
}

impl MrlCascadedIndex {
    #[verifier::type_invariant]
    spec fn inv(&self) -> bool {
        &&& self.config.coarse_dim <= self.config.fine_dim
        &&& self.config.fine_dim <= self.inner.full_dim
    }

    pub closed spec fn ids(&self) -> Seq<u64> {
        self.inner.ids@
    }

    pub closed spec fn spec_config(&self) -> CascadeConfig {
        self.config
    }

    pub closed spec fn spec_full_dim(&self) -> usize {
        self.inner.full_dim
    }

    pub fn new(full_dim: usize, config: CascadeConfig) -> (r: Self)
        requires
            config.coarse_dim <= config.fine_dim,
            config.fine_dim <= full_dim,
        ensures
            r.ids().len() == 0,
            r.spec_config() == config,
            r.spec_full_dim() == full_dim,
    {
        MrlCascadedIndex { inner: FlatIndex::new(full_dim), config }
    }

    pub fn insert(&mut self, id: u64, len: usize)
        requires
            len == old(self).spec_full_dim(),
        ensures
            final(self).ids() == old(self).ids().push(id),
            final(self).spec_config() == old(self).spec_config(),
            final(self).spec_full_dim() == old(self).spec_full_dim(),
    {
        let mut tmp = MrlCascadedIndex { inner: FlatIndex::new(0), config: CascadeConfig { coarse_dim: 0, oversample: 0, fine_dim: 0 } };
        std::mem::swap(&mut tmp, self);
        proof {
            use_type_invariant(&tmp);
        }
        let MrlCascadedIndex { mut inner, config } = tmp;
        inner.insert(id, len);
        *self = MrlCascadedIndex { inner, config };
    }

    pub fn len(&self) -> (r: usize)
        ensures
            r == self.ids().len(),
    {
        self.inner.len()
    }

    pub fn full_dim(&self) -> (r: usize)
        ensures
            r == self.spec_full_dim(),
    {
        self.inner.full_dim
    }

    pub fn config(&self) -> (r: CascadeConfig)
        ensures
            r == self.spec_config(),
    {
        self.config
    }

    /// Coarse pass with `coarse` (distance keys on the coarse prefix) for
    /// `k · oversample` candidates, then the `k` nearest by `fine`
    /// (distance keys on the fine prefix).
    pub fn search<F1: Fn(usize) -> u64, F2: Fn(usize) -> u64>(&self, k: usize, coarse: F1, fine: F2) -> (r: Vec<(u64, u64)>)
        requires
            k * self.spec_config().oversample <= usize::MAX,
            is_oracle(coarse, self.ids().len() as int),
            is_oracle(fine, self.ids().len() as int),
        ensures
            r@ == cascade_spec(
                self.ids(),
                |p: usize| key_of(coarse, p),
                |p: usize| key_of(fine, p),
                k as int,
                self.spec_config().oversample as int,
            ),
    {
        proof {
            use_type_invariant(self);
        }
        let coarse_k = k * self.config.oversample;
        let candidates = self.inner.search_at_dim(self.config.coarse_dim, coarse_k, coarse);
        self.inner.rescore(&candidates, self.config.fine_dim, k, fine)
    }

    /// Direct search at the full dimension, `full` giving the distance keys.
    pub fn search_full<F: Fn(usize) -> u64>(&self, k: usize, full: F) -> (r: Vec<(u64, u64)>)
        requires
            is_oracle(full, self.ids().len() as int),
        ensures
            r@ == search_at_dim_spec(self.ids(), |p: usize| key_of(full, p), k as int),
    {
        self.inner.search_at_dim(self.inner.full_dim, k, full)
    }
}

} // verus!
