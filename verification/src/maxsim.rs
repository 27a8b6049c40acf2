//! Late-interaction (MaxSim) retrieval: which documents each index scores,
//! and how the scored documents are ranked.
//!
//! Scores come as order keys that grow with similarity; rankings are
//! descending. The MaxSim score of a document, the centroid similarities of
//! a query token and the projected scores are computed by the caller.
use vstd::prelude::*;
use crate::oracle::{ask, ask_grid, is_grid_oracle, is_oracle, key_of, pair_key_of};
use crate::rank::{Scored, is_ranked, keys_of, lemma_count_distinct, lemma_top_k_properties, lemma_top_k_same_items, lemma_map_multiset, lemma_sort_ranked_properties, lemma_top_k_from_input, lemma_top_k_keys_by_multiset, min_nat, sort_ranked, top_k_descending, top_k_spec};
pub use crate::speculative::topk;

verus! {

/// The candidate documents `cands` (positions) as `(id, score)`, the `k`
/// best first; equal scores keep candidate order.
pub open spec fn rerank_spec(ids: Seq<usize>, cands: Seq<usize>, score: spec_fn(usize) -> u64, k: int) -> Seq<Scored> {
    top_k_spec(cands.map_values(|d: usize| (ids[d as int], score(d))), k, true)
}

fn rerank<F: Fn(usize) -> u64>(ids: &Vec<usize>, cands: &Vec<usize>, score: &F, k: usize) -> (r: Vec<Scored>)
    requires
        forall|i: int| 0 <= i < cands@.len() ==> (#[trigger] cands@[i]) < ids@.len(),
        is_oracle(*score, ids@.len() as int),
    ensures
        r@ == rerank_spec(ids@, cands@, |d: usize| key_of(*score, d), k as int),
{
    let ghost sf = |d: usize| key_of(*score, d);
    let n = ids.len();
    let mut scored: Vec<Scored> = Vec::new();
    let mut i: usize = 0;
    while i < cands.len()
        invariant
            i <= cands@.len(),
            n == ids@.len(),
            forall|q: int| 0 <= q < cands@.len() ==> (#[trigger] cands@[q]) < n,
            is_oracle(*score, n as int),
            sf == (|d: usize| key_of(*score, d)),
            scored@ == cands@.take(i as int).map_values(|d: usize| (ids@[d as int], sf(d))),
        decreases cands@.len() - i,
    {
        let d = cands[i];
        let s = ask(score, d, Ghost(n as int));
        scored.push((ids[d], s));
        assert(scored@ =~= cands@.take(i + 1).map_values(|d: usize| (ids@[d as int], sf(d))));
        i = i + 1;
    }
    assert(cands@.take(cands@.len() as int) =~= cands@);
    top_k_descending(&scored, k)
}

/// Reranking returns `min(k, candidates)` documents, best score first.
pub proof fn lemma_rerank_ranked(ids: Seq<usize>, cands: Seq<usize>, score: spec_fn(usize) -> u64, k: int)
    requires
        k >= 0,
    ensures
        rerank_spec(ids, cands, score, k).len() == min_nat(k, cands.len() as int),
        is_ranked(rerank_spec(ids, cands, score, k), true),
{
    lemma_top_k_properties(cands.map_values(|d: usize| (ids[d as int], score(d))), k, true);
}

/// The positions `0..n`.
pub open spec fn all_positions(n: nat) -> Seq<usize> {
    Seq::new(n, |p: int| p as usize)
}

fn positions(n: usize) -> (r: Vec<usize>)
    ensures
        r@ == all_positions(n as nat),
{
    let mut r: Vec<usize> = Vec::new();
    let mut p: usize = 0;
    while p < n
        invariant
            p <= n,
            r@ == all_positions(p as nat),
        decreases n - p,
    {
        r.push(p);
        assert(r@ =~= all_positions((p + 1) as nat));
        p = p + 1;
    }
    r
}

/// Brute-force MaxSim scan: the ids of the stored documents.
pub struct LinearIndex {
    ids: Vec<usize>,
}

impl LinearIndex {
    pub closed spec fn ids(&self) -> Seq<usize> {
        self.ids@
    }

    pub fn new() -> (r: Self)
        ensures
            r.ids().len() == 0,
    {
        LinearIndex { ids: Vec::new() }
    }

    pub fn len(&self) -> (r: usize)
        ensures
            r == self.ids().len(),
    {
        self.ids.len()
    }

    pub fn is_empty(&self) -> (r: bool)
        ensures
            r == (self.ids().len() == 0),
    {
        self.ids.len() == 0
    }

    /// Records the document `id`.
    pub fn insert(&mut self, id: usize)
        ensures
            final(self).ids() == old(self).ids().push(id),
    {
        self.ids.push(id);
    }

    /// Every document scored by `score` (its MaxSim key, by position); the
    /// `k` best as `(id, key)`.
    pub fn search<F: Fn(usize) -> u64>(&self, score: F, k: usize) -> (r: Vec<Scored>)
        requires
            is_oracle(score, self.ids().len() as int),
        ensures
            r@ == rerank_spec(self.ids(), all_positions(self.ids().len()), |d: usize| key_of(score, d), k as int),
    {
        let all = positions(self.ids.len());
        rerank(&self.ids, &all, &score, k)
    }
}

impl Default for LinearIndex {
    fn default() -> (r: Self)
        ensures
            r.ids().len() == 0,
    {
        LinearIndex::new()
    }
}

/// Keeps the first occurrence of each value, in order.
pub open spec fn dedup_first(s: Seq<usize>) -> Seq<usize>
    decreases s.len(),
{
    if s.len() == 0 {
        Seq::empty()
    } else {
        let r = dedup_first(s.drop_last());
        if r.contains(s.last()) {
            r
        } else {
            r.push(s.last())
        }
    }
}

/// The documents of the first `m` tokens whose cell is `c`, in token order.
pub open spec fn cell_tokens(tokens: Seq<usize>, assign: Seq<usize>, c: usize, m: int) -> Seq<usize>
    decreases m,
{
    if m <= 0 {
        Seq::empty()
    } else {
        let r = cell_tokens(tokens, assign, c, m - 1);
        if assign[m - 1] == c {
            r.push(tokens[m - 1])
        } else {
            r
        }
    }
}

/// The documents of the tokens assigned to cell `c`, each once, in order of
/// first appearance.
pub open spec fn cell_docs(tokens: Seq<usize>, assign: Seq<usize>, c: usize) -> Seq<usize> {
    dedup_first(cell_tokens(tokens, assign, c, tokens.len() as int))
}

/// The lists of `lists` named by `cells`, one after another.
pub open spec fn concat_lists(lists: Seq<Seq<usize>>, cells: Seq<usize>) -> Seq<usize>
    decreases cells.len(),
{
    if cells.len() == 0 {
        Seq::empty()
    } else {
        concat_lists(lists, cells.drop_last()) + lists[cells.last() as int]
    }
}

/// The `n_probe` cells most similar to query token `t` by `cs`.
pub open spec fn probes_of(cs: spec_fn(usize, usize) -> u64, t: usize, n_cells: nat, n_probe: int) -> Seq<usize> {
    top_k_spec(Seq::new(n_cells, |c: int| (c as usize, cs(t, c as usize))), n_probe, true).map_values(|e: Scored| e.0)
}

/// The documents listed under the probed cells of the first `t` query tokens,
/// token by token, repeats included.
pub open spec fn gathered(lists: Seq<Seq<usize>>, cs: spec_fn(usize, usize) -> u64, n_probe: int, t: int) -> Seq<usize>
    decreases t,
{
    if t <= 0 {
        Seq::empty()
    } else {
        gathered(lists, cs, n_probe, t - 1) + concat_lists(lists, probes_of(cs, (t - 1) as usize, lists.len(), n_probe))
    }
}

/// Whether `x` occurs in `v`.
fn contains_usize(v: &Vec<usize>, x: usize) -> (r: bool)
    ensures
        r == v@.contains(x),
{
    let mut i: usize = 0;
    while i < v.len()
        invariant
            i <= v@.len(),
            forall|j: int| 0 <= j < i ==> v@[j] != x,
        decreases v@.len() - i,
    {
        if v[i] == x {
            return true;
        }
        i = i + 1;
    }
    false
}

proof fn lemma_dedup_push(s: Seq<usize>, x: usize)
    ensures
        dedup_first(s.push(x)) == if dedup_first(s).contains(x) {
            dedup_first(s)
        } else {
            dedup_first(s).push(x)
        },
{
    assert(s.push(x).drop_last() =~= s);
}

/// Centroid-pruned MaxSim index: inverted lists from cells to the documents
/// that have a token in the cell.
pub struct CentroidIndex {
    n_centroids: usize,
    n_probe: usize,
    inv_lists: Vec<Vec<usize>>,
    doc_ids: Vec<usize>,
    tokens: Vec<usize>,
}

impl CentroidIndex {
    #[verifier::type_invariant]
    spec fn inv(&self) -> bool {
        &&& forall|i: int| 0 <= i < self.tokens@.len() ==> (#[trigger] self.tokens@[i]) < self.doc_ids@.len()
        &&& forall|c: int, j: int| 0 <= c < self.inv_lists@.len() && 0 <= j < self.inv_lists@[c]@.len()
            ==> (#[trigger] self.inv_lists@[c]@[j]) < self.doc_ids@.len()
    }

    /// Ids of the stored documents, in insertion order.
    pub closed spec fn ids(&self) -> Seq<usize> {
        self.doc_ids@
    }

    /// The document (position) of each token inserted so far, in insertion order.
    pub closed spec fn tokens(&self) -> Seq<usize> {
        self.tokens@
    }

    /// The inverted lists, one per cell.
    pub closed spec fn lists(&self) -> Seq<Seq<usize>> {
        self.inv_lists@.map_values(|l: Vec<usize>| l@)
    }

    pub closed spec fn spec_n_centroids(&self) -> usize {
        self.n_centroids
    }

    pub closed spec fn spec_n_probe(&self) -> usize {
        self.n_probe
    }

    pub fn new(n_centroids: usize, n_probe: usize) -> (r: Self)
        ensures
            r.ids().len() == 0,
            r.tokens().len() == 0,
            r.lists().len() == 0,
            r.spec_n_centroids() == n_centroids,
            r.spec_n_probe() == n_probe,
    {
        let r = CentroidIndex { n_centroids, n_probe, inv_lists: Vec::new(), doc_ids: Vec::new(), tokens: Vec::new() };
        assert(r.lists() =~= Seq::<Seq<usize>>::empty());
        r
    }

    /// Records the document `id` with `n_tokens` token vectors; its tokens
    /// are indexed by the next build.
    pub fn insert(&mut self, id: usize, n_tokens: usize)
        ensures
            final(self).ids() == old(self).ids().push(id),
            final(self).tokens() == old(self).tokens() + Seq::new(n_tokens as nat, |i: int| old(self).ids().len() as usize),
            final(self).lists() == old(self).lists(),
            final(self).spec_n_centroids() == old(self).spec_n_centroids(),
            final(self).spec_n_probe() == old(self).spec_n_probe(),
    {
        let mut tmp = CentroidIndex::new(0, 0);
        std::mem::swap(&mut tmp, self);
        proof {
            use_type_invariant(&tmp);
        }
        let CentroidIndex { n_centroids, n_probe, inv_lists, mut doc_ids, mut tokens } = tmp;
        let doc_idx = doc_ids.len();
        let ghost p0 = tokens@;
        let mut i: usize = 0;
        while i < n_tokens
            invariant
                i <= n_tokens,
                doc_idx == doc_ids@.len(),
                tokens@ == p0 + Seq::new(i as nat, |q: int| doc_idx),
                forall|q: int| 0 <= q < p0.len() ==> (#[trigger] p0[q]) < doc_idx,
            decreases n_tokens - i,
        {
            tokens.push(doc_idx);
            assert(tokens@ =~= p0 + Seq::new((i + 1) as nat, |q: int| doc_idx));
            i = i + 1;
        }
        doc_ids.push(id);
        *self = CentroidIndex { n_centroids, n_probe, inv_lists, doc_ids, tokens };
    }

    /// The number of cells the next build makes: `min(n_centroids, tokens)`.
    pub fn cells_to_build(&self) -> (r: usize)
        ensures
            r == min_nat(self.spec_n_centroids() as int, self.tokens().len() as int),
    {
        if self.n_centroids < self.tokens.len() { self.n_centroids } else { self.tokens.len() }
    }

    /// Builds the inverted lists from the cell of every token inserted so far
    /// (`assign[i]`, the nearest centroid of token `i`): cell `c` lists the
    /// documents with a token in `c`, once each, in order of first token.
    pub fn build(&mut self, assign: &Vec<usize>)
        requires
            old(self).tokens().len() > 0,
            assign@.len() == old(self).tokens().len(),
            forall|i: int| 0 <= i < assign@.len() ==> (#[trigger] assign@[i]) < min_nat(
                old(self).spec_n_centroids() as int,
                old(self).tokens().len() as int,
            ),
        ensures
            final(self).ids() == old(self).ids(),
            final(self).tokens() == old(self).tokens(),
            final(self).lists() == Seq::new(
                min_nat(old(self).spec_n_centroids() as int, old(self).tokens().len() as int) as nat,
                |c: int| cell_docs(old(self).tokens(), assign@, c as usize),
            ),
            final(self).spec_n_centroids() == old(self).spec_n_centroids(),
            final(self).spec_n_probe() == old(self).spec_n_probe(),
    {
        let n_cells = self.cells_to_build();
        let mut tmp = CentroidIndex::new(0, 0);
        std::mem::swap(&mut tmp, self);
        proof {
            use_type_invariant(&tmp);
        }
        let CentroidIndex { n_centroids, n_probe, inv_lists: _, doc_ids, tokens } = tmp;
        let ghost pv = tokens@;
        let ghost av = assign@;
        let mut lists: Vec<Vec<usize>> = Vec::new();
        let mut c: usize = 0;
        while c < n_cells
            invariant
                c <= n_cells,
                lists@.len() == c,
                forall|q: int| 0 <= q < c ==> (#[trigger] lists@[q])@.len() == 0,
            decreases n_cells - c,
        {
            lists.push(Vec::new());
            c = c + 1;
        }
        assert forall|cc: int| 0 <= cc < n_cells implies (#[trigger] lists@[cc])@ == dedup_first(cell_tokens(pv, av, cc as usize, 0)) by {
            assert(lists@[cc]@ =~= Seq::<usize>::empty());
        }
        let mut i: usize = 0;
        while i < tokens.len()
            invariant
                i <= pv.len(),
                pv == tokens@,
                av == assign@,
                av.len() == pv.len(),
                forall|q: int| 0 <= q < av.len() ==> (#[trigger] av[q]) < n_cells,
                forall|q: int| 0 <= q < pv.len() ==> (#[trigger] pv[q]) < doc_ids@.len(),
                lists@.len() == n_cells,
                forall|cc: int| 0 <= cc < n_cells ==> (#[trigger] lists@[cc])@ == dedup_first(cell_tokens(pv, av, cc as usize, i as int)),
                forall|cc: int, j: int| 0 <= cc < n_cells && 0 <= j < lists@[cc]@.len() ==> (#[trigger] lists@[cc]@[j]) < doc_ids@.len(),
            decreases pv.len() - i,
        {
            let cell = assign[i];
            let doc = tokens[i];
            let ghost before = lists@;
            if !contains_usize(&lists[cell], doc) {
                let mut row: Vec<usize> = Vec::new();
                let mut j: usize = 0;
                while j < lists[cell].len()
                    invariant
                        cell < lists@.len(),
                        j <= lists@[cell as int]@.len(),
                        row@ == lists@[cell as int]@.take(j as int),
                    decreases lists@[cell as int]@.len() - j,
                {
                    row.push(lists[cell][j]);
                    assert(row@ =~= lists@[cell as int]@.take(j + 1));
                    j = j + 1;
                }
                assert(lists@[cell as int]@.take(lists@[cell as int]@.len() as int) =~= lists@[cell as int]@);
                row.push(doc);
                lists.set(cell, row);
            }
            proof {
                assert forall|cc: int| 0 <= cc < n_cells implies (#[trigger] lists@[cc])@ == dedup_first(cell_tokens(pv, av, cc as usize, i + 1)) by {
                    lemma_dedup_push(cell_tokens(pv, av, cc as usize, i as int), pv[i as int]);
                    if cc != cell {
                        assert(lists@[cc] == before[cc]);
                    }
                }
                assert forall|cc: int, j: int| 0 <= cc < n_cells && 0 <= j < lists@[cc]@.len() implies (#[trigger] lists@[cc]@[j]) < doc_ids@.len() by {
                    if cc != cell {
                        assert(lists@[cc] == before[cc]);
                    } else if j < before[cc]@.len() {
                        assert(lists@[cc]@[j] == before[cc]@[j]);
                    }
                }
            }
            i = i + 1;
        }
        proof {
            assert(lists@.map_values(|l: Vec<usize>| l@) =~= Seq::new(n_cells as nat, |c: int| cell_docs(pv, av, c as usize)));
        }
        *self = CentroidIndex { n_centroids, n_probe, inv_lists: lists, doc_ids, tokens };
        assert(self.lists() =~= Seq::new(n_cells as nat, |c: int| cell_docs(pv, av, c as usize)));
    }

    /// The candidate documents of a query with `n_tokens` tokens: for each
    /// token in order, the `n_probe` cells most similar to it by `cs` (the
    /// similarity key of token `t` and centroid `c`), and the documents listed
    /// under them, each document kept at its first appearance.
    pub fn candidates<F: Fn(usize, usize) -> u64>(&self, n_tokens: usize, cs: &F) -> (r: Vec<usize>)
        requires
            is_grid_oracle(*cs, n_tokens as int, self.lists().len() as int),
        ensures
            r@ == dedup_first(gathered(self.lists(), |t: usize, c: usize| pair_key_of(*cs, t, c), self.spec_n_probe() as int, n_tokens as int)),
            forall|i: int| 0 <= i < r@.len() ==> (#[trigger] r@[i]) < self.ids().len(),
    {
        proof {
            use_type_invariant(self);
        }
        let ghost lv = self.lists();
        let ghost csf = |t: usize, c: usize| pair_key_of(*cs, t, c);
        let nc = self.inv_lists.len();
        let mut cands: Vec<usize> = Vec::new();
        let mut t: usize = 0;
        while t < n_tokens
            invariant
                t <= n_tokens,
                nc == self.inv_lists@.len(),
                lv == self.lists(),
                lv.len() == nc,
                csf == (|t: usize, c: usize| pair_key_of(*cs, t, c)),
                is_grid_oracle(*cs, n_tokens as int, nc as int),
                forall|c: int, j: int| 0 <= c < self.inv_lists@.len() && 0 <= j < self.inv_lists@[c]@.len()
                    ==> (#[trigger] self.inv_lists@[c]@[j]) < self.doc_ids@.len(),
                cands@ == dedup_first(gathered(lv, csf, self.n_probe as int, t as int)),
                forall|i: int| 0 <= i < cands@.len() ==> (#[trigger] cands@[i]) < self.doc_ids@.len(),
            decreases n_tokens - t,
        {
            let mut cscores: Vec<Scored> = Vec::new();
            let mut c: usize = 0;
            while c < nc
                invariant
                    c <= nc,
                    t < n_tokens,
                    is_grid_oracle(*cs, n_tokens as int, nc as int),
                    csf == (|t: usize, c: usize| pair_key_of(*cs, t, c)),
                    cscores@ == Seq::new(nc as nat, |q: int| (q as usize, csf(t, q as usize))).take(c as int),
                decreases nc - c,
            {
                let d = ask_grid(cs, t, c, Ghost(n_tokens as int), Ghost(nc as int));
                cscores.push((c, d));
                assert(cscores@ =~= Seq::new(nc as nat, |q: int| (q as usize, csf(t, q as usize))).take(c + 1));
                c = c + 1;
            }
            let ghost all_c = Seq::new(nc as nat, |q: int| (q as usize, csf(t, q as usize)));
            assert(cscores@ =~= all_c);
            let best = top_k_descending(&cscores, self.n_probe);
            proof {
                lemma_top_k_from_input(cscores@, self.n_probe as int, true);
            }
            let ghost probes = best@.map_values(|e: Scored| e.0);
            assert(probes == probes_of(csf, t, lv.len(), self.n_probe as int));
            let ghost base = gathered(lv, csf, self.n_probe as int, t as int);
            let mut u: usize = 0;
            assert(probes.take(0) =~= Seq::<usize>::empty());
            assert(base + concat_lists(lv, probes.take(0)) =~= base);
            while u < best.len()
                invariant
                    u <= best@.len(),
                    nc == self.inv_lists@.len(),
                    lv == self.lists(),
                    lv.len() == nc,
                    probes == best@.map_values(|e: Scored| e.0),
                    forall|q: int| 0 <= q < best@.len() ==> cscores@.contains(#[trigger] best@[q]),
                    cscores@ == all_c,
                    all_c == Seq::new(nc as nat, |q: int| (q as usize, csf(t, q as usize))),
                    forall|c: int, j: int| 0 <= c < self.inv_lists@.len() && 0 <= j < self.inv_lists@[c]@.len()
                        ==> (#[trigger] self.inv_lists@[c]@[j]) < self.doc_ids@.len(),
                    cands@ == dedup_first(base + concat_lists(lv, probes.take(u as int))),
                    forall|i: int| 0 <= i < cands@.len() ==> (#[trigger] cands@[i]) < self.doc_ids@.len(),
                decreases best@.len() - u,
            {
                let cell = best[u].0;
                assert(cscores@.contains(best@[u as int]));
                assert(cell < nc);
                assert(probes.take(u + 1).drop_last() =~= probes.take(u as int));
                assert(probes.take(u + 1).last() == cell);
                let ghost pre = base + concat_lists(lv, probes.take(u as int));
                assert(lv[cell as int] == self.inv_lists@[cell as int]@);
                let mut j: usize = 0;
                while j < self.inv_lists[cell].len()
                    invariant
                        cell < self.inv_lists@.len(),
                        j <= self.inv_lists@[cell as int]@.len(),
                        forall|c: int, j: int| 0 <= c < self.inv_lists@.len() && 0 <= j < self.inv_lists@[c]@.len()
                            ==> (#[trigger] self.inv_lists@[c]@[j]) < self.doc_ids@.len(),
                        cands@ == dedup_first(pre + self.inv_lists@[cell as int]@.take(j as int)),
                        forall|i: int| 0 <= i < cands@.len() ==> (#[trigger] cands@[i]) < self.doc_ids@.len(),
                    decreases self.inv_lists@[cell as int]@.len() - j,
                {
                    let doc = self.inv_lists[cell][j];
                    let ghost s = pre + self.inv_lists@[cell as int]@.take(j as int);
                    proof {
                        lemma_dedup_push(s, doc);
                        assert(s.push(doc) =~= pre + self.inv_lists@[cell as int]@.take(j + 1));
                    }
                    if !contains_usize(&cands, doc) {
                        cands.push(doc);
                    }
                    j = j + 1;
                }
                assert(self.inv_lists@[cell as int]@.take(self.inv_lists@[cell as int]@.len() as int) =~= self.inv_lists@[cell as int]@);
                assert(base + concat_lists(lv, probes.take(u + 1)) =~= pre + lv[cell as int]);
                u = u + 1;
            }
            assert(probes.take(best@.len() as int) =~= probes);
            t = t + 1;
        }
        cands
    }

    /// Gathers the candidates of a query with `n_tokens` tokens (see
    /// `candidates`) and returns the `k` best by `score`, the MaxSim key of
    /// the document at each position.
    pub fn search<F1: Fn(usize, usize) -> u64, F2: Fn(usize) -> u64>(&self, n_tokens: usize, cs: F1, score: F2, k: usize) -> (r: Vec<Scored>)
        requires
            is_grid_oracle(cs, n_tokens as int, self.lists().len() as int),
            is_oracle(score, self.ids().len() as int),
        ensures
            r@ == rerank_spec(
                self.ids(),
                dedup_first(gathered(self.lists(), |t: usize, c: usize| pair_key_of(cs, t, c), self.spec_n_probe() as int, n_tokens as int)),
                |d: usize| key_of(score, d),
                k as int,
            ),
    {
        let cands = self.candidates(n_tokens, &cs);
        rerank(&self.doc_ids, &cands, &score, k)
    }
}

/// Dropping repeats keeps exactly the values of `s`, each once.
proof fn lemma_dedup_first(s: Seq<usize>)
    ensures
        forall|i: int, j: int| 0 <= i < j < dedup_first(s).len() ==> dedup_first(s)[i] != dedup_first(s)[j],
        forall|x: usize| dedup_first(s).contains(x) <==> s.contains(x),
    decreases s.len(),
{
    if s.len() > 0 {
        let s1 = s.drop_last();
        let l = s.last();
        lemma_dedup_first(s1);
        let r = dedup_first(s1);
        assert forall|x: usize| s.contains(x) <==> (s1.contains(x) || x == l) by {
            if s.contains(x) {
                let i = choose|i: int| 0 <= i < s.len() && s[i] == x;
                if i < s.len() - 1 {
                    assert(s1[i] == x);
                }
            }
            if s1.contains(x) {
                let i = choose|i: int| 0 <= i < s1.len() && s1[i] == x;
                assert(s[i] == x);
            }
            if x == l {
                assert(s[s.len() - 1] == x);
            }
        }
        if !r.contains(l) {
            let d = r.push(l);
            assert forall|x: usize| d.contains(x) <==> (r.contains(x) || x == l) by {
                if d.contains(x) {
                    let i = choose|i: int| 0 <= i < d.len() && d[i] == x;
                    if i < r.len() {
                        assert(r[i] == x);
                    }
                }
                if r.contains(x) {
                    let i = choose|i: int| 0 <= i < r.len() && r[i] == x;
                    assert(d[i] == x);
                }
                if x == l {
                    assert(d[r.len() as int] == x);
                }
            }
            assert forall|i: int, j: int| 0 <= i < j < d.len() implies d[i] != d[j] by {
                if j == r.len() {
                    assert(r[i] == d[i]);
                }
            }
        }
    }
}

/// Every document the first `m` tokens of cell `c` name satisfies `ok`
/// when every token's document does.
proof fn lemma_cell_tokens_within(tokens: Seq<usize>, assign: Seq<usize>, c: usize, m: int, ok: spec_fn(usize) -> bool)
    requires
        m <= tokens.len(),
        forall|i: int| 0 <= i < tokens.len() ==> ok(#[trigger] tokens[i]),
    ensures
        forall|j: int| 0 <= j < cell_tokens(tokens, assign, c, m).len() ==> ok(#[trigger] cell_tokens(tokens, assign, c, m)[j]),
    decreases m,
{
    if m > 0 {
        lemma_cell_tokens_within(tokens, assign, c, m - 1, ok);
        let r = cell_tokens(tokens, assign, c, m - 1);
        if assign[m - 1] == c {
            assert forall|j: int| 0 <= j < r.push(tokens[m - 1]).len() implies ok(#[trigger] r.push(tokens[m - 1])[j]) by {
                if j < r.len() {
                    assert(r.push(tokens[m - 1])[j] == r[j]);
                }
            }
        }
    }
}

/// A token of cell `c` among the first `m` puts its document in the cell.
proof fn lemma_cell_tokens_has(tokens: Seq<usize>, assign: Seq<usize>, c: usize, m: int, i: int)
    requires
        0 <= i < m <= tokens.len(),
        m <= assign.len(),
        assign[i] == c,
    ensures
        cell_tokens(tokens, assign, c, m).contains(tokens[i]),
    decreases m,
{
    let r = cell_tokens(tokens, assign, c, m - 1);
    if i == m - 1 {
        assert(r.push(tokens[i])[r.len() as int] == tokens[i]);
    } else {
        lemma_cell_tokens_has(tokens, assign, c, m - 1, i);
        let q = choose|q: int| 0 <= q < r.len() && r[q] == tokens[i];
        if assign[m - 1] == c {
            assert(r.push(tokens[m - 1])[q] == tokens[i]);
        }
    }
}

/// The concatenated lists hold only values satisfying `ok` when the lists do.
proof fn lemma_concat_within(lists: Seq<Seq<usize>>, cells: Seq<usize>, ok: spec_fn(usize) -> bool)
    requires
        forall|j: int| 0 <= j < cells.len() ==> (#[trigger] cells[j]) < lists.len(),
        forall|c: int, j: int| 0 <= c < lists.len() && 0 <= j < lists[c].len() ==> ok(#[trigger] lists[c][j]),
    ensures
        forall|j: int| 0 <= j < concat_lists(lists, cells).len() ==> ok(#[trigger] concat_lists(lists, cells)[j]),
    decreases cells.len(),
{
    if cells.len() > 0 {
        let c1 = cells.drop_last();
        assert forall|j: int| 0 <= j < c1.len() implies (#[trigger] c1[j]) < lists.len() by {
            assert(c1[j] == cells[j]);
        }
        lemma_concat_within(lists, c1, ok);
        let a = concat_lists(lists, c1);
        let b = lists[cells.last() as int];
        assert forall|j: int| 0 <= j < (a + b).len() implies ok(#[trigger] (a + b)[j]) by {
            if j >= a.len() {
                assert((a + b)[j] == b[j - a.len()]);
            }
        }
    }
}

/// A value of a listed cell is in the concatenation.
proof fn lemma_concat_has(lists: Seq<Seq<usize>>, cells: Seq<usize>, j: int, x: usize)
    requires
        0 <= j < cells.len(),
        lists[cells[j] as int].contains(x),
    ensures
        concat_lists(lists, cells).contains(x),
    decreases cells.len(),
{
    let c1 = cells.drop_last();
    let a = concat_lists(lists, c1);
    let b = lists[cells.last() as int];
    if j == cells.len() - 1 {
        let q = choose|q: int| 0 <= q < b.len() && b[q] == x;
        assert((a + b)[a.len() + q] == x);
    } else {
        assert(c1[j] == cells[j]);
        lemma_concat_has(lists, c1, j, x);
        let q = choose|q: int| 0 <= q < a.len() && a[q] == x;
        assert((a + b)[q] == x);
    }
}

/// The probed cells of a token are cells of the index; probing at least as
/// many cells as there are probes every one.
proof fn lemma_probes(cs: spec_fn(usize, usize) -> u64, t: usize, n_cells: nat, n_probe: int)
    requires
        n_probe >= 0,
        n_cells <= usize::MAX,
    ensures
        forall|j: int| 0 <= j < probes_of(cs, t, n_cells, n_probe).len() ==> (#[trigger] probes_of(cs, t, n_cells, n_probe)[j]) < n_cells,
        n_probe >= n_cells ==> forall|c: usize| c < n_cells ==> #[trigger] probes_of(cs, t, n_cells, n_probe).contains(c),
{
    broadcast use vstd::seq_lib::group_to_multiset_ensures;
    let all = Seq::new(n_cells, |c: int| (c as usize, cs(t, c as usize)));
    let probes = probes_of(cs, t, n_cells, n_probe);
    let best = top_k_spec(all, n_probe, true);
    lemma_top_k_from_input(all, n_probe, true);
    assert forall|j: int| 0 <= j < probes.len() implies (#[trigger] probes[j]) < n_cells by {
        assert(all.contains(best[j]));
    }
    if n_probe >= n_cells {
        lemma_sort_ranked_properties(all, true);
        assert(best =~= sort_ranked(all, true));
        lemma_map_multiset(best, all, |e: Scored| e.0);
        let cells = Seq::new(n_cells, |c: int| c as usize);
        assert(all.map_values(|e: Scored| e.0) =~= cells);
        assert forall|c: usize| c < n_cells implies #[trigger] probes.contains(c) by {
            assert(cells[c as int] == c);
            assert(cells.to_multiset().count(c) > 0);
        }
    }
}

/// The documents gathered for the first `t` tokens satisfy `ok` when the
/// lists hold only such documents.
proof fn lemma_gathered_within(lists: Seq<Seq<usize>>, cs: spec_fn(usize, usize) -> u64, n_probe: int, t: int, ok: spec_fn(usize) -> bool)
    requires
        n_probe >= 0,
        lists.len() <= usize::MAX,
        forall|c: int, j: int| 0 <= c < lists.len() && 0 <= j < lists[c].len() ==> ok(#[trigger] lists[c][j]),
    ensures
        forall|j: int| 0 <= j < gathered(lists, cs, n_probe, t).len() ==> ok(#[trigger] gathered(lists, cs, n_probe, t)[j]),
    decreases t,
{
    if t > 0 {
        lemma_gathered_within(lists, cs, n_probe, t - 1, ok);
        let probes = probes_of(cs, (t - 1) as usize, lists.len(), n_probe);
        lemma_probes(cs, (t - 1) as usize, lists.len(), n_probe);
        lemma_concat_within(lists, probes, ok);
        let a = gathered(lists, cs, n_probe, t - 1);
        let b = concat_lists(lists, probes);
        assert forall|j: int| 0 <= j < (a + b).len() implies ok(#[trigger] (a + b)[j]) by {
            if j >= a.len() {
                assert((a + b)[j] == b[j - a.len()]);
            }
        }
    }
}

/// What the first token gathers stays gathered.
proof fn lemma_gathered_has(lists: Seq<Seq<usize>>, cs: spec_fn(usize, usize) -> u64, n_probe: int, t: int, x: usize)
    requires
        t >= 1,
        concat_lists(lists, probes_of(cs, 0, lists.len(), n_probe)).contains(x),
    ensures
        gathered(lists, cs, n_probe, t).contains(x),
    decreases t,
{
    let a = gathered(lists, cs, n_probe, t - 1);
    let b = concat_lists(lists, probes_of(cs, (t - 1) as usize, lists.len(), n_probe));
    if t == 1 {
        assert(a =~= Seq::<usize>::empty());
        assert(a + b =~= b);
    } else {
        lemma_gathered_has(lists, cs, n_probe, t - 1, x);
        let q = choose|q: int| 0 <= q < a.len() && a[q] == x;
        assert((a + b)[q] == x);
    }
}

/// The lists a build makes from every token: each document with a token is
/// listed in the cell of each of its tokens, no list names a document twice,
/// and every listed document has a token in that cell.
pub proof fn lemma_build_lists_every_document(tokens: Seq<usize>, assign: Seq<usize>, n_cells: nat, i: int)
    requires
        assign.len() == tokens.len(),
        0 <= i < tokens.len(),
        assign[i] < n_cells,
    ensures
        Seq::new(n_cells, |c: int| cell_docs(tokens, assign, c as usize))[assign[i] as int].contains(tokens[i]),
        forall|c: int, a: int, b: int|
            #![trigger cell_docs(tokens, assign, c as usize)[a], cell_docs(tokens, assign, c as usize)[b]]
            0 <= c < n_cells && 0 <= a < b < cell_docs(tokens, assign, c as usize).len()
                ==> cell_docs(tokens, assign, c as usize)[a] != cell_docs(tokens, assign, c as usize)[b],
{
    let c = assign[i];
    let ct = cell_tokens(tokens, assign, c, tokens.len() as int);
    lemma_cell_tokens_has(tokens, assign, c, tokens.len() as int, i);
    lemma_dedup_first(ct);
    assert forall|c: int, a: int, b: int|
        #![trigger cell_docs(tokens, assign, c as usize)[a], cell_docs(tokens, assign, c as usize)[b]]
        0 <= c < n_cells && 0 <= a < b < cell_docs(tokens, assign, c as usize).len()
            implies cell_docs(tokens, assign, c as usize)[a] != cell_docs(tokens, assign, c as usize)[b] by {
        lemma_dedup_first(cell_tokens(tokens, assign, c as usize, tokens.len() as int));
    }
}

/// The positions below `n` that some token names, ascending: the documents
/// that hold a token.
pub open spec fn token_docs(tokens: Seq<usize>, n: nat) -> Seq<usize>
    decreases n,
{
    if n == 0 {
        Seq::empty()
    } else if tokens.contains((n - 1) as usize) {
        token_docs(tokens, (n - 1) as nat).push((n - 1) as usize)
    } else {
        token_docs(tokens, (n - 1) as nat)
    }
}

proof fn lemma_token_docs(tokens: Seq<usize>, n: nat)
    requires
        n <= usize::MAX,
    ensures
        forall|i: int, j: int| 0 <= i < j < token_docs(tokens, n).len() ==> token_docs(tokens, n)[i] < token_docs(tokens, n)[j],
        forall|j: int| 0 <= j < token_docs(tokens, n).len() ==> (#[trigger] token_docs(tokens, n)[j]) < n,
        forall|x: usize| token_docs(tokens, n).contains(x) <==> x < n && tokens.contains(x),
    decreases n,
{
    if n > 0 {
        let m = (n - 1) as nat;
        lemma_token_docs(tokens, m);
        let r = token_docs(tokens, m);
        let l = m as usize;
        if tokens.contains(l) {
            let d = r.push(l);
            assert forall|x: usize| d.contains(x) <==> x < n && tokens.contains(x) by {
                if d.contains(x) {
                    let q = choose|q: int| 0 <= q < d.len() && d[q] == x;
                    if q < r.len() {
                        assert(r[q] == x);
                    }
                }
                if x < n && tokens.contains(x) {
                    if x == l {
                        assert(d[r.len() as int] == x);
                    } else {
                        assert(r.contains(x));
                        let q = choose|q: int| 0 <= q < r.len() && r[q] == x;
                        assert(d[q] == x);
                    }
                }
            }
            assert forall|i: int, j: int| 0 <= i < j < d.len() implies d[i] < d[j] by {
                if j == r.len() {
                    assert(d[i] == r[i]);
                }
            }
        } else {
            assert forall|x: usize| r.contains(x) <==> x < n && tokens.contains(x) by {
                if x < n && tokens.contains(x) {
                    assert(x != l);
                }
            }
        }
    }
}

/// When every document holds a token, they are all the positions.
pub proof fn lemma_token_docs_all(tokens: Seq<usize>, n: nat)
    requires
        n <= usize::MAX,
        forall|p: usize| p < n ==> #[trigger] tokens.contains(p),
    ensures
        token_docs(tokens, n) == all_positions(n),
    decreases n,
{
    if n > 0 {
        lemma_token_docs_all(tokens, (n - 1) as nat);
        assert(tokens.contains((n - 1) as usize));
        assert(all_positions((n - 1) as nat).push((n - 1) as usize) =~= all_positions(n));
    } else {
        assert(all_positions(0) =~= Seq::<usize>::empty());
    }
}

/// Probing every cell with at least one query token, the centroid index
/// reranks exactly the documents that hold a token: it returns the scores of
/// the brute-force scan over those documents, in the same order, and the same
/// document at every place whose score no other such document has.  (When
/// every document holds a token, those are all the documents:
/// `lemma_token_docs_all`.)
pub proof fn lemma_full_probe_is_exact(
    tokens: Seq<usize>,
    assign: Seq<usize>,
    n_cells: nat,
    ids: Seq<usize>,
    cs: spec_fn(usize, usize) -> u64,
    n_probe: int,
    n_tokens: int,
    score: spec_fn(usize) -> u64,
    k: int,
)
    requires
        assign.len() == tokens.len(),
        forall|i: int| 0 <= i < assign.len() ==> (#[trigger] assign[i]) < n_cells,
        forall|i: int| 0 <= i < tokens.len() ==> (#[trigger] tokens[i]) < ids.len(),
        ids.len() <= usize::MAX,
        n_cells <= usize::MAX,
        n_probe >= n_cells,
        n_tokens >= 1,
        k >= 0,
    ensures
        keys_of(
            rerank_spec(
                ids,
                dedup_first(gathered(Seq::new(n_cells, |c: int| cell_docs(tokens, assign, c as usize)), cs, n_probe, n_tokens)),
                score,
                k,
            ),
        ) == keys_of(rerank_spec(ids, token_docs(tokens, ids.len()), score, k)),
        forall|i: int|
            0 <= i < rerank_spec(ids, token_docs(tokens, ids.len()), score, k).len()
                && token_docs(tokens, ids.len()).map_values(score).to_multiset().count(
                #[trigger] rerank_spec(ids, token_docs(tokens, ids.len()), score, k)[i].1,
            ) == 1 ==> rerank_spec(
                ids,
                dedup_first(gathered(Seq::new(n_cells, |c: int| cell_docs(tokens, assign, c as usize)), cs, n_probe, n_tokens)),
                score,
                k,
            )[i] == rerank_spec(ids, token_docs(tokens, ids.len()), score, k)[i],
{
    broadcast use vstd::seq_lib::group_to_multiset_ensures;
    let n = ids.len();
    let ok = |x: usize| x < n && tokens.contains(x);
    let lists = Seq::new(n_cells, |c: int| cell_docs(tokens, assign, c as usize));
    // The lists name only documents that hold a token.
    assert forall|i: int| 0 <= i < tokens.len() implies ok(#[trigger] tokens[i]) by {
        assert(tokens.contains(tokens[i]));
    }
    assert forall|c: int, j: int| 0 <= c < lists.len() && 0 <= j < lists[c].len() implies ok(#[trigger] lists[c][j]) by {
        let ct = cell_tokens(tokens, assign, c as usize, tokens.len() as int);
        lemma_cell_tokens_within(tokens, assign, c as usize, tokens.len() as int, ok);
        lemma_dedup_first(ct);
        assert(lists[c] == dedup_first(ct));
        assert(lists[c].contains(lists[c][j]));
        assert(ct.contains(lists[c][j]));
        let q = choose|q: int| 0 <= q < ct.len() && ct[q] == lists[c][j];
        assert(ok(ct[q]));
    }
    let g = gathered(lists, cs, n_probe, n_tokens);
    lemma_gathered_within(lists, cs, n_probe, n_tokens, ok);
    // The first token probes every cell, so every document with a token is gathered.
    lemma_probes(cs, 0, n_cells, n_probe);
    assert forall|p: usize| p < n && tokens.contains(p) implies #[trigger] g.contains(p) by {
        let i = choose|i: int| 0 <= i < tokens.len() && tokens[i] == p;
        let c = assign[i];
        let ct = cell_tokens(tokens, assign, c, tokens.len() as int);
        lemma_cell_tokens_has(tokens, assign, c, tokens.len() as int, i);
        lemma_dedup_first(ct);
        assert(lists[c as int].contains(p));
        let probes = probes_of(cs, 0, n_cells, n_probe);
        assert(probes.contains(c));
        let j = choose|j: int| 0 <= j < probes.len() && probes[j] == c;
        lemma_concat_has(lists, probes, j, p);
        lemma_gathered_has(lists, cs, n_probe, n_tokens, p);
    }
    // The candidates are the documents holding a token, each once.
    let d = dedup_first(g);
    lemma_dedup_first(g);
    let td = token_docs(tokens, n);
    lemma_token_docs(tokens, n);
    assert forall|i: int, j: int| 0 <= i < j < td.len() implies td[i] != td[j] by {}
    assert forall|x: usize| #[trigger] d.to_multiset().count(x) == td.to_multiset().count(x) by {
        lemma_count_distinct(d, x);
        lemma_count_distinct(td, x);
        if x < n && tokens.contains(x) {
            assert(g.contains(x));
            assert(d.contains(x));
        } else {
            if d.contains(x) {
                assert(g.contains(x));
                let i = choose|i: int| 0 <= i < g.len() && g[i] == x;
                assert(ok(g[i]));
            }
        }
    }
    assert(d.to_multiset() =~= td.to_multiset());
    let h = |p: usize| (ids[p as int], score(p));
    lemma_map_multiset(d, td, h);
    lemma_top_k_same_items(d.map_values(h), td.map_values(h), k, true);
    assert(keys_of(td.map_values(h)) =~= td.map_values(score));
}

/// The `min(n_candidates, n)` documents with the best projected scores
/// `proj`, in rank order.
pub open spec fn fde_candidates(n: nat, proj: spec_fn(usize) -> u64, n_candidates: int) -> Seq<usize> {
    top_k_spec(Seq::new(n, |p: int| (p as usize, proj(p as usize))), min_nat(n_candidates, n as int), true).map_values(
        |e: Scored| e.0,
    )
}

/// The scores of the documents at positions `0..n`.
pub open spec fn position_scores(n: nat, score: spec_fn(usize) -> u64) -> Seq<u64> {
    Seq::new(n, |p: int| score(p as usize))
}

/// With a candidate count covering the whole collection, the projected index
/// returns the scores of the brute-force scan, in the same order: the
/// `min(k, n)` best scores, best first, and the same document at every place
/// whose score no other document has.
pub proof fn lemma_full_candidates_are_exact(ids: Seq<usize>, proj: spec_fn(usize) -> u64, score: spec_fn(usize) -> u64, n_candidates: int, k: int)
    requires
        n_candidates >= ids.len(),
        ids.len() <= usize::MAX,
        k >= 0,
    ensures
        keys_of(rerank_spec(ids, fde_candidates(ids.len(), proj, n_candidates), score, k)) == keys_of(
            rerank_spec(ids, all_positions(ids.len()), score, k),
        ),
        rerank_spec(ids, fde_candidates(ids.len(), proj, n_candidates), score, k).len() == min_nat(k, ids.len() as int),
        is_ranked(rerank_spec(ids, fde_candidates(ids.len(), proj, n_candidates), score, k), true),
        forall|i: int|
            0 <= i < rerank_spec(ids, all_positions(ids.len()), score, k).len() && position_scores(ids.len(), score).to_multiset().count(
                #[trigger] rerank_spec(ids, all_positions(ids.len()), score, k)[i].1,
            ) == 1 ==> rerank_spec(ids, fde_candidates(ids.len(), proj, n_candidates), score, k)[i] == rerank_spec(
                ids,
                all_positions(ids.len()),
                score,
                k,
            )[i],
{
    let n = ids.len();
    let all = Seq::new(n, |p: int| (p as usize, proj(p as usize)));
    lemma_sort_ranked_properties(all, true);
    let sorted = top_k_spec(all, min_nat(n_candidates, n as int), true);
    assert(sorted =~= sort_ranked(all, true));
    let g = |e: Scored| (ids[e.0 as int], score(e.0));
    lemma_map_multiset(sorted, all, g);
    let h = |d: usize| (ids[d as int], score(d));
    assert(fde_candidates(n, proj, n_candidates).map_values(h) =~= sorted.map_values(g));
    assert(all.map_values(g) =~= all_positions(n).map_values(h));
    let t = all_positions(n).map_values(h);
    lemma_top_k_same_items(sorted.map_values(g), t, k, true);
    lemma_top_k_properties(sorted.map_values(g), k, true);
    assert(keys_of(t) =~= position_scores(n, score));
}

/// Projected-embedding MaxSim index: the ids of the stored documents.
pub struct FdeIndex {
    proj_dim: usize,
    n_candidates: usize,
    doc_ids: Vec<usize>,
}

impl FdeIndex {
    pub closed spec fn ids(&self) -> Seq<usize> {
        self.doc_ids@
    }

    pub closed spec fn spec_proj_dim(&self) -> usize {
        self.proj_dim
    }

    pub closed spec fn spec_n_candidates(&self) -> usize {
        self.n_candidates
    }

    pub fn new(proj_dim: usize, n_candidates: usize) -> (r: Self)
        ensures
            r.ids().len() == 0,
            r.spec_proj_dim() == proj_dim,
            r.spec_n_candidates() == n_candidates,
    {
        FdeIndex { proj_dim, n_candidates, doc_ids: Vec::new() }
    }

    pub fn proj_dim(&self) -> (r: usize)
        ensures
            r == self.spec_proj_dim(),
    {
        self.proj_dim
    }

    /// Records the document `id`.
    pub fn insert(&mut self, id: usize)
        ensures
            final(self).ids() == old(self).ids().push(id),
            final(self).spec_proj_dim() == old(self).spec_proj_dim(),
            final(self).spec_n_candidates() == old(self).spec_n_candidates(),
    {
        self.doc_ids.push(id);
    }

    /// Ranks the documents by `proj` (the key of the dot product of the
    /// projected query and document, by position), keeps
    /// `min(n_candidates, n)`, re-ranks them by `score` (the MaxSim key) and
    /// returns the `k` best.
    pub fn search<F1: Fn(usize) -> u64, F2: Fn(usize) -> u64>(&self, proj: F1, score: F2, k: usize) -> (r: Vec<Scored>)
        requires
            is_oracle(proj, self.ids().len() as int),
            is_oracle(score, self.ids().len() as int),
        ensures
            r@ == rerank_spec(
                self.ids(),
                fde_candidates(self.ids().len(), |p: usize| key_of(proj, p), self.spec_n_candidates() as int),
                |d: usize| key_of(score, d),
                k as int,
            ),
    {
        let ghost pf = |p: usize| key_of(proj, p);
        let n = self.doc_ids.len();
        let n_cand = if self.n_candidates < n { self.n_candidates } else { n };
        let mut all: Vec<Scored> = Vec::new();
        let mut p: usize = 0;
        while p < n
            invariant
                p <= n,
                is_oracle(proj, n as int),
                pf == (|p: usize| key_of(proj, p)),
                all@ == Seq::new(n as nat, |q: int| (q as usize, pf(q as usize))).take(p as int),
            decreases n - p,
        {
            let d = ask(&proj, p, Ghost(n as int));
            all.push((p, d));
            assert(all@ =~= Seq::new(n as nat, |q: int| (q as usize, pf(q as usize))).take(p + 1));
            p = p + 1;
        }
        assert(all@ =~= Seq::new(n as nat, |q: int| (q as usize, pf(q as usize))));
        let best = top_k_descending(&all, n_cand);
        proof {
            lemma_top_k_from_input(all@, n_cand as int, true);
        }
        let mut cands: Vec<usize> = Vec::new();
        let mut i: usize = 0;
        while i < best.len()
            invariant
                i <= best@.len(),
                all@ == Seq::new(n as nat, |q: int| (q as usize, pf(q as usize))),
                forall|q: int| 0 <= q < best@.len() ==> all@.contains(#[trigger] best@[q]),
                cands@ == best@.take(i as int).map_values(|e: Scored| e.0),
                forall|q: int| 0 <= q < cands@.len() ==> (#[trigger] cands@[q]) < n,
            decreases best@.len() - i,
        {
            assert(all@.contains(best@[i as int]));
            cands.push(best[i].0);
            assert(cands@ =~= best@.take(i + 1).map_values(|e: Scored| e.0));
            i = i + 1;
        }
        assert(best@.take(best@.len() as int) =~= best@);
        rerank(&self.doc_ids, &cands, &score, k)
    }
}

} // verus!
