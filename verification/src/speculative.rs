//! Speculative search: a cheap int8 draft scan nominates candidates, an
//! exact scorer verifies them, and the best verified ones are returned.
//!
//! Similarity keys here grow with similarity: rankings are descending.
use vstd::prelude::*;
use crate::oracle::{ask, is_oracle, key_of};
use crate::rank::{Scored, keys_of, lemma_map_multiset, lemma_top_k_ids_distinct, lemma_top_k_properties, lemma_sort_ranked_properties, lemma_top_k_from_input, lemma_top_k_keys_by_multiset, min_nat, sort_ranked, top_k_descending, top_k_spec};

verus! {

/// `Σ a[i]·b[i]` over the first `n` positions.
pub open spec fn dot_spec(a: Seq<i8>, b: Seq<i8>, n: int) -> int
    decreases n,
{
    if n <= 0 {
        0
    } else {
        dot_spec(a, b, n - 1) + a[n - 1] as int * b[n - 1] as int
    }
}

/// The int8 dot product of two codes over their common length.
pub open spec fn dot_i8(a: Seq<i8>, b: Seq<i8>) -> int {
    dot_spec(a, b, min_nat(a.len() as int, b.len() as int))
}

/// Every partial sum of the dot product of `a` and `b` fits in an `i32`,
/// so summing it in `i32` never overflows.
pub open spec fn dot_fits(a: Seq<i8>, b: Seq<i8>) -> bool {
    forall|j: int| 0 <= j <= min_nat(a.len() as int, b.len() as int)
        ==> i32::MIN <= #[trigger] dot_spec(a, b, j) <= i32::MAX
}

/// The dot product of `q` with every code sums without overflow.
pub open spec fn all_fit(q: Seq<i8>, codes: Seq<Seq<i8>>) -> bool {
    forall|p: int| 0 <= p < codes.len() ==> dot_fits(q, #[trigger] codes[p])
}

/// Raw int8 dot product of two codes over their common length: the sum that
/// the dequantised score divides by `127²`.
pub fn dot_i8_raw(a: &Vec<i8>, b: &Vec<i8>) -> (r: i32)
    requires
        dot_fits(a@, b@),
    ensures
        r == dot_i8(a@, b@),
{
    let n = if a.len() < b.len() { a.len() } else { b.len() };
    let mut s: i32 = 0;
    let mut i: usize = 0;
    while i < n
        invariant
            i <= n,
            n == min_nat(a@.len() as int, b@.len() as int),
            dot_fits(a@, b@),
            s == dot_spec(a@, b@, i as int),
        decreases n - i,
    {
        let x = a[i] as i32;
        let y = b[i] as i32;
        proof {
            assert(-16384 <= x * y <= 16384) by (nonlinear_arith)
                requires
                    -128 <= x <= 127,
                    -128 <= y <= 127,
            ;
            assert(i32::MIN <= dot_spec(a@, b@, i + 1) <= i32::MAX);
        }
        s = s + x * y;
        i = i + 1;
    }
    s
}

/// Whether the dot product of `a` and `b` sums in `i32` without overflow.
pub fn dot_i8_fits(a: &Vec<i8>, b: &Vec<i8>) -> (r: bool)
    ensures
        r == dot_fits(a@, b@),
{
    let n = if a.len() < b.len() { a.len() } else { b.len() };
    let mut s: i64 = 0;
    let mut i: usize = 0;
    while i < n
        invariant
            i <= n,
            n == min_nat(a@.len() as int, b@.len() as int),
            s == dot_spec(a@, b@, i as int),
            i32::MIN <= s <= i32::MAX,
            forall|j: int| 0 <= j <= i ==> i32::MIN <= #[trigger] dot_spec(a@, b@, j) <= i32::MAX,
        decreases n - i,
    {
        let x = a[i] as i64;
        let y = b[i] as i64;
        assert(-16384 <= x * y <= 16384) by (nonlinear_arith)
            requires
                -128 <= x <= 127,
                -128 <= y <= 127,
        ;
        let t = s + x * y;
        assert(t == dot_spec(a@, b@, i + 1));
        if t < i32::MIN as i64 || t > i32::MAX as i64 {
            return false;
        }
        s = t;
        i = i + 1;
    }
    true
}

/// Whether every code of `codes` has a dot product with `q` that sums without overflow.
fn all_fit_exec(codes: &Vec<Vec<i8>>, q: &Vec<i8>) -> (r: bool)
    ensures
        r == all_fit(q@, codes@.map_values(|c: Vec<i8>| c@)),
{
    let ghost cv = codes@.map_values(|c: Vec<i8>| c@);
    let mut p: usize = 0;
    while p < codes.len()
        invariant
            p <= codes@.len(),
            cv == codes@.map_values(|c: Vec<i8>| c@),
            forall|j: int| 0 <= j < p ==> dot_fits(q@, #[trigger] cv[j]),
        decreases codes@.len() - p,
    {
        if !dot_i8_fits(q, &codes[p]) {
            assert(!dot_fits(q@, cv[p as int]));
            return false;
        }
        p = p + 1;
    }
    true
}

/// The order key of an `i32` score: larger scores get larger keys.
pub open spec fn score_key(x: int) -> u64 {
    (x + 0x8000_0000) as u64
}

fn key_of_score(x: i32) -> (r: u64)
    ensures
        r == score_key(x as int),
        r < 0x1_0000_0000,
{
    (x as i64 + 0x8000_0000i64) as u64
}

/// `score_key` is strictly increasing on `i32` scores.
pub proof fn lemma_score_key_monotone(x: i32, y: i32)
    ensures
        x < y <==> score_key(x as int) < score_key(y as int),
        x == y <==> score_key(x as int) == score_key(y as int),
{
}

/// Scores of the codes `codes` against `q`, keyed, by position.
pub open spec fn draft_scores(codes: Seq<Seq<i8>>, q: Seq<i8>) -> Seq<Scored> {
    Seq::new(codes.len(), |p: int| (p as usize, score_key(dot_i8(q, codes[p]))))
}

/// What the int8 linear index returns: the `k` codes with the largest int8
/// dot product with `q`, as `(id, dot)`, best first; equal scores keep
/// insertion order.
pub open spec fn i8_search_spec(ids: Seq<usize>, codes: Seq<Seq<i8>>, q: Seq<i8>, k: int) -> Seq<(usize, i32)> {
    top_k_spec(draft_scores(codes, q), k, true).map_values(
        |e: Scored| (ids[e.0 as int], dot_i8(q, codes[e.0 as int]) as i32),
    )
}

/// Scores every code against `q`.
fn score_codes(codes: &Vec<Vec<i8>>, q: &Vec<i8>, dim: usize) -> (r: Vec<Scored>)
    requires
        forall|p: int| 0 <= p < codes@.len() ==> (#[trigger] codes@[p])@.len() == dim,
        all_fit(q@, codes@.map_values(|c: Vec<i8>| c@)),
    ensures
        r@ == draft_scores(codes@.map_values(|c: Vec<i8>| c@), q@),
        forall|p: int| 0 <= p < r@.len() ==> (#[trigger] r@[p]).1 < 0x1_0000_0000,
{
    let ghost cv = codes@.map_values(|c: Vec<i8>| c@);
    let mut r: Vec<Scored> = Vec::new();
    let mut p: usize = 0;
    while p < codes.len()
        invariant
            p <= codes@.len(),
            cv == codes@.map_values(|c: Vec<i8>| c@),
            forall|j: int| 0 <= j < codes@.len() ==> (#[trigger] codes@[j])@.len() == dim,
            all_fit(q@, cv),
            r@ == draft_scores(cv, q@).take(p as int),
            forall|j: int| 0 <= j < r@.len() ==> (#[trigger] r@[j]).1 < 0x1_0000_0000,
        decreases codes@.len() - p,
    {
        assert(cv[p as int] == codes@[p as int]@);
        let d = dot_i8_raw(q, &codes[p]);
        let key = key_of_score(d);
        r.push((p, key));
        assert(r@ =~= draft_scores(cv, q@).take(p + 1));
        p = p + 1;
    }
    assert(draft_scores(cv, q@).take(codes@.len() as int) =~= draft_scores(cv, q@));
    r
}

/// Brute-force scan over int8 codes.
pub struct LinearI8Index {
    dim: usize,
    vecs: Vec<Vec<i8>>,
    ids: Vec<usize>,
}

impl LinearI8Index {
    #[verifier::type_invariant]
    spec fn inv(&self) -> bool {
        &&& self.vecs@.len() == self.ids@.len()
        &&& forall|p: int| 0 <= p < self.vecs@.len() ==> (#[trigger] self.vecs@[p])@.len() == self.dim
    }

    /// Ids of the stored codes, in insertion order.
    pub closed spec fn ids(&self) -> Seq<usize> {
        self.ids@
    }

    /// The stored codes, in insertion order.
    pub closed spec fn codes(&self) -> Seq<Seq<i8>> {
        self.vecs@.map_values(|c: Vec<i8>| c@)
    }

    /// Dimension of the codes.
    pub closed spec fn spec_dim(&self) -> usize {
        self.dim
    }

    pub fn new(dim: usize) -> (r: Self)
        ensures
            r.ids().len() == 0,
            r.codes().len() == 0,
            r.spec_dim() == dim,
    {
        LinearI8Index { dim, vecs: Vec::new(), ids: Vec::new() }
    }

    /// Stores the quantised vector `code` under `id`.
    pub fn insert(&mut self, id: usize, code: Vec<i8>)
        requires
            code@.len() == old(self).spec_dim(),
        ensures
            final(self).ids() == old(self).ids().push(id),
            final(self).codes() == old(self).codes().push(code@),
            final(self).spec_dim() == old(self).spec_dim(),
    {
        let ghost c0 = self.codes();
        let mut tmp = LinearI8Index { dim: self.dim, vecs: Vec::new(), ids: Vec::new() };
        std::mem::swap(&mut tmp, self);
        proof {
            use_type_invariant(&tmp);
        }
        let LinearI8Index { dim, mut vecs, mut ids } = tmp;
        ids.push(id);
        vecs.push(code);
        assert(vecs@.map_values(|c: Vec<i8>| c@) =~= c0.push(code@));
        *self = LinearI8Index { dim, vecs, ids };
    }

    /// Number of stored codes.
    pub fn len(&self) -> (r: usize)
        ensures
            r == self.ids().len(),
    {
        self.ids.len()
    }

    pub fn dim(&self) -> (r: usize)
        ensures
            r == self.spec_dim(),
    {
        self.dim
    }

    /// Whether the int8 dot product of `q` with every stored code sums without overflow.
    pub fn dots_fit(&self, q: &Vec<i8>) -> (r: bool)
        ensures
            r == all_fit(q@, self.codes()),
    {
        all_fit_exec(&self.vecs, q)
    }

    /// The `k` stored codes whose int8 dot product with the quantised query
    /// `q` is largest, as `(id, raw dot)`, best first.
    pub fn search(&self, q: &Vec<i8>, k: usize) -> (r: Vec<(usize, i32)>)
        requires
            all_fit(q@, self.codes()),
        ensures
            r@ == i8_search_spec(self.ids(), self.codes(), q@, k as int),
    {
        proof {
            use_type_invariant(self);
        }
        let ghost cv = self.codes();
        let scores = score_codes(&self.vecs, q, self.dim);
        let best = top_k_descending(&scores, k);
        proof {
            lemma_top_k_from_input(scores@, k as int, true);
        }
        let mut r: Vec<(usize, i32)> = Vec::new();
        let mut i: usize = 0;
        while i < best.len()
            invariant
                i <= best@.len(),
                best@ == top_k_spec(draft_scores(cv, q@), k as int, true),
                scores@ == draft_scores(cv, q@),
                cv.len() == self.ids@.len(),
                cv == self.codes(),
                self.ids@ == self.ids(),
                self.vecs@.len() == self.ids@.len(),
                forall|p: int| 0 <= p < self.vecs@.len() ==> (#[trigger] self.vecs@[p])@.len() == self.dim,
                all_fit(q@, cv),
                forall|j: int| 0 <= j < best@.len() ==> scores@.contains(#[trigger] best@[j]),
                r@ == best@.take(i as int).map_values(
                    |e: Scored| (self.ids()[e.0 as int], dot_i8(q@, cv[e.0 as int]) as i32),
                ),
            decreases best@.len() - i,
        {
            let e = best[i];
            assert(scores@.contains(e));
            assert(e.0 < self.ids@.len());
            let pos = e.0;
            assert(cv[pos as int] == self.vecs@[pos as int]@);
            let d = dot_i8_raw(q, &self.vecs[pos]);
            r.push((self.ids[pos], d));
            assert(r@ =~= best@.take(i + 1).map_values(
                |e: Scored| (self.ids()[e.0 as int], dot_i8(q@, cv[e.0 as int]) as i32),
            ));
            i = i + 1;
        }
        assert(best@.take(best@.len() as int) =~= best@);
        r
    }
}

/// The best `k` of a list of scores, largest key first; equal keys keep
/// their order in the list.
pub fn topk(scores: Vec<Scored>, k: usize) -> (r: Vec<Scored>)
    ensures
        r@ == top_k_spec(scores@, k as int, true),
{
    top_k_descending(&scores, k)
}

/// Every stored position paired with its id and the key `exact` gives it.
pub open spec fn exact_scores(ids: Seq<usize>, exact: spec_fn(usize) -> u64) -> Seq<Scored> {
    Seq::new(ids.len(), |p: int| (ids[p], exact(p as usize)))
}

/// Brute-force exact scan: every stored vector is scored by the caller's scorer.
pub struct LinearF32Index {
    dim: usize,
    ids: Vec<usize>,
}

impl LinearF32Index {
    /// Ids of the stored vectors, in insertion order.
    pub closed spec fn ids(&self) -> Seq<usize> {
        self.ids@
    }

    pub closed spec fn spec_dim(&self) -> usize {
        self.dim
    }

    pub fn new(dim: usize) -> (r: Self)
        ensures
            r.ids().len() == 0,
            r.spec_dim() == dim,
    {
        LinearF32Index { dim, ids: Vec::new() }
    }

    pub fn insert(&mut self, id: usize)
        ensures
            final(self).ids() == old(self).ids().push(id),
            final(self).spec_dim() == old(self).spec_dim(),
    {
        self.ids.push(id);
    }

    pub fn dim(&self) -> (r: usize)
        ensures
            r == self.spec_dim(),
    {
        self.dim
    }

    /// The `k` stored vectors with the largest exact score (`exact` gives the
    /// key of the vector at each position), as `(id, key)`, best first.
    pub fn search<F: Fn(usize) -> u64>(&self, exact: F, k: usize) -> (r: Vec<Scored>)
        requires
            is_oracle(exact, self.ids().len() as int),
        ensures
            r@ == top_k_spec(exact_scores(self.ids(), |p: usize| key_of(exact, p)), k as int, true),
    {
        let ghost xf = |p: usize| key_of(exact, p);
        let n = self.ids.len();
        let mut scores: Vec<Scored> = Vec::new();
        let mut p: usize = 0;
        while p < n
            invariant
                p <= n,
                n == self.ids@.len(),
                is_oracle(exact, n as int),
                xf == (|p: usize| key_of(exact, p)),
                scores@ == exact_scores(self.ids@, xf).take(p as int),
            decreases n - p,
        {
            let d = ask(&exact, p, Ghost(n as int));
            scores.push((self.ids[p], d));
            assert(scores@ =~= exact_scores(self.ids@, xf).take(p + 1));
            p = p + 1;
        }
        assert(exact_scores(self.ids@, xf).take(n as int) =~= exact_scores(self.ids@, xf));
        top_k_descending(&scores, k)
    }
}

/// What speculative search returns: the `min(k·overdraft, n)` best codes by
/// int8 score are verified with `exact`, and the `k` best verified ones come
/// back, best first.
pub open spec fn spec_search_spec(
    ids: Seq<usize>,
    codes: Seq<Seq<i8>>,
    q: Seq<i8>,
    exact: spec_fn(usize) -> u64,
    k: int,
    overdraft: int,
) -> Seq<Scored> {
    let draft = top_k_spec(draft_scores(codes, q), min_nat(k * overdraft, codes.len() as int), true);
    top_k_spec(draft.map_values(|e: Scored| (ids[e.0 as int], exact(e.0))), k, true)
}

/// Draft-then-verify search over int8 codes.
pub struct SpecSearch {
    dim: usize,
    overdraft: usize,
    i8_vecs: Vec<Vec<i8>>,
    ids: Vec<usize>,
}

impl SpecSearch {
    #[verifier::type_invariant]
    spec fn inv(&self) -> bool {
        &&& self.overdraft >= 1
        &&& self.i8_vecs@.len() == self.ids@.len()
        &&& forall|p: int| 0 <= p < self.i8_vecs@.len() ==> (#[trigger] self.i8_vecs@[p])@.len() == self.dim
    }

    pub closed spec fn ids(&self) -> Seq<usize> {
        self.ids@
    }

    pub closed spec fn codes(&self) -> Seq<Seq<i8>> {
        self.i8_vecs@.map_values(|c: Vec<i8>| c@)
    }

    pub closed spec fn spec_dim(&self) -> usize {
        self.dim
    }

    pub closed spec fn spec_overdraft(&self) -> usize {
        self.overdraft
    }

    /// `overdraft`: how many draft candidates per requested result.
    pub fn new(dim: usize, overdraft: usize) -> (r: Self)
        requires
            overdraft >= 1,
        ensures
            r.ids().len() == 0,
            r.codes().len() == 0,
            r.spec_dim() == dim,
            r.spec_overdraft() == overdraft,
    {
        SpecSearch { dim, overdraft, i8_vecs: Vec::new(), ids: Vec::new() }
    }

    /// Stores the quantised form `code` of the vector `id`.
    pub fn insert(&mut self, id: usize, code: Vec<i8>)
        requires
            code@.len() == old(self).spec_dim(),
        ensures
            final(self).ids() == old(self).ids().push(id),
            final(self).codes() == old(self).codes().push(code@),
            final(self).spec_dim() == old(self).spec_dim(),
            final(self).spec_overdraft() == old(self).spec_overdraft(),
    {
        let ghost c0 = self.codes();
        let mut tmp = SpecSearch { dim: self.dim, overdraft: 1, i8_vecs: Vec::new(), ids: Vec::new() };
        std::mem::swap(&mut tmp, self);
        proof {
            use_type_invariant(&tmp);
        }
        let SpecSearch { dim, overdraft, mut i8_vecs, mut ids } = tmp;
        ids.push(id);
        i8_vecs.push(code);
        assert(i8_vecs@.map_values(|c: Vec<i8>| c@) =~= c0.push(code@));
        *self = SpecSearch { dim, overdraft, i8_vecs, ids };
    }

    pub fn dim(&self) -> (r: usize)
        ensures
            r == self.spec_dim(),
    {
        self.dim
    }

    /// Whether the int8 dot product of `q` with every stored code sums without overflow.
    pub fn dots_fit(&self, q: &Vec<i8>) -> (r: bool)
        ensures
            r == all_fit(q@, self.codes()),
    {
        all_fit_exec(&self.i8_vecs, q)
    }

    /// Drafts `min(k·overdraft, n)` candidates by int8 score against the
    /// quantised query `q`, scores them with `exact` (the key of the exact
    /// similarity of the vector at a position), and returns the `k` best.
    pub fn search<F: Fn(usize) -> u64>(&self, q: &Vec<i8>, exact: F, k: usize) -> (r: Vec<Scored>)
        requires
            k * self.spec_overdraft() <= usize::MAX,
            all_fit(q@, self.codes()),
            is_oracle(exact, self.ids().len() as int),
        ensures
            r@ == spec_search_spec(
                self.ids(),
                self.codes(),
                q@,
                |p: usize| key_of(exact, p),
                k as int,
                self.spec_overdraft() as int,
            ),
    {
        proof {
            use_type_invariant(self);
        }
        let ghost cv = self.codes();
        let ghost xf = |p: usize| key_of(exact, p);
        let n = self.ids.len();
        let want = k * self.overdraft;
        let draft_k = if want < n { want } else { n };
        let scores = score_codes(&self.i8_vecs, q, self.dim);
        let draft = top_k_descending(&scores, draft_k);
        proof {
            lemma_top_k_from_input(scores@, draft_k as int, true);
        }
        let mut verified: Vec<Scored> = Vec::new();
        let mut i: usize = 0;
        while i < draft.len()
            invariant
                i <= draft@.len(),
                n == self.ids@.len(),
                is_oracle(exact, n as int),
                scores@ == draft_scores(cv, q@),
                cv.len() == n,
                xf == (|p: usize| key_of(exact, p)),
                forall|j: int| 0 <= j < draft@.len() ==> scores@.contains(#[trigger] draft@[j]),
                verified@ == draft@.take(i as int).map_values(|e: Scored| (self.ids@[e.0 as int], xf(e.0))),
            decreases draft@.len() - i,
        {
            let e = draft[i];
            assert(scores@.contains(e));
            let pos = e.0;
            let d = ask(&exact, pos, Ghost(n as int));
            verified.push((self.ids[pos], d));
            assert(verified@ =~= draft@.take(i + 1).map_values(|e: Scored| (self.ids@[e.0 as int], xf(e.0))));
            i = i + 1;
        }
        assert(draft@.take(draft@.len() as int) =~= draft@);
        top_k_descending(&verified, k)
    }
}

/// With a draft as large as the collection (`k · overdraft ≥ n`), speculative
/// search returns the same scores, in the same order, as the exact scan of
/// the same vectors.
pub proof fn lemma_full_draft_is_exact(
    ids: Seq<usize>,
    codes: Seq<Seq<i8>>,
    q: Seq<i8>,
    exact: spec_fn(usize) -> u64,
    k: int,
    overdraft: int,
)
    requires
        ids.len() == codes.len(),
        codes.len() <= usize::MAX,
        k >= 0,
        k * overdraft >= codes.len(),
    ensures
        keys_of(spec_search_spec(ids, codes, q, exact, k, overdraft)) == keys_of(
            top_k_spec(exact_scores(ids, exact), k, true),
        ),
{
    let n = codes.len() as int;
    let ds = draft_scores(codes, q);
    let draft = top_k_spec(ds, min_nat(k * overdraft, n), true);
    lemma_sort_ranked_properties(ds, true);
    assert(draft =~= sort_ranked(ds, true));
    let g = |e: Scored| (ids[e.0 as int], exact(e.0));
    lemma_map_multiset(draft, ds, g);
    assert(ds.map_values(g) =~= exact_scores(ids, exact));
    let verified = draft.map_values(g);
    lemma_map_multiset(verified, exact_scores(ids, exact), |e: Scored| e.1);
    lemma_top_k_keys_by_multiset(verified, exact_scores(ids, exact), k, true);
}

/// Speculative search answers at most `k` results, best first.
pub proof fn lemma_spec_search_ranked(
    ids: Seq<usize>,
    codes: Seq<Seq<i8>>,
    q: Seq<i8>,
    exact: spec_fn(usize) -> u64,
    k: int,
    overdraft: int,
)
    requires
        k >= 0,
    ensures
        spec_search_spec(ids, codes, q, exact, k, overdraft).len() <= k,
        crate::rank::is_ranked(spec_search_spec(ids, codes, q, exact, k, overdraft), true),
{
    let draft = top_k_spec(draft_scores(codes, q), min_nat(k * overdraft, codes.len() as int), true);
    crate::rank::lemma_top_k_properties(draft.map_values(|e: Scored| (ids[e.0 as int], exact(e.0))), k, true);
}


/// The number of codes among the first `n`, other than the one at `p`, whose
/// int8 score against `q` is at least that of the code at `p`.
pub open spec fn outscored_by(codes: Seq<Seq<i8>>, q: Seq<i8>, p: int, n: int) -> nat
    decreases n,
{
    if n <= 0 {
        0
    } else {
        outscored_by(codes, q, p, n - 1) + if n - 1 != p && dot_i8(q, codes[n - 1]) >= dot_i8(q, codes[p]) {
            1nat
        } else {
            0nat
        }
    }
}

proof fn lemma_outscored_le(codes: Seq<Seq<i8>>, q: Seq<i8>, p: int, n: int)
    requires
        0 <= p < n,
    ensures
        outscored_by(codes, q, p, n) <= n - 1,
    decreases n,
{
    if n - 1 > p {
        lemma_outscored_le(codes, q, p, n - 1);
    } else {
        lemma_outscored_below(codes, q, p, n - 1);
    }
}

proof fn lemma_outscored_below(codes: Seq<Seq<i8>>, q: Seq<i8>, p: int, n: int)
    requires
        n >= 0,
    ensures
        outscored_by(codes, q, p, n) <= n,
    decreases n,
{
    if n > 0 {
        lemma_outscored_below(codes, q, p, n - 1);
    }
}

/// Distinct positions below `n`, other than `p`, each scoring at least as
/// well as `p`, number at most `outscored_by`.
proof fn lemma_outscored_counts(codes: Seq<Seq<i8>>, q: Seq<i8>, p: int, n: int, s: Seq<usize>)
    requires
        0 <= n <= usize::MAX,
        forall|a: int, b: int| 0 <= a < b < s.len() ==> #[trigger] s[a] != #[trigger] s[b],
        forall|j: int| 0 <= j < s.len() ==> (#[trigger] s[j]) < n && s[j] != p
            && dot_i8(q, codes[s[j] as int]) >= dot_i8(q, codes[p]),
    ensures
        outscored_by(codes, q, p, n) >= s.len(),
    decreases n,
{
    if n > 0 {
        let last = (n - 1) as usize;
        if s.contains(last) {
            let idx = choose|idx: int| 0 <= idx < s.len() && s[idx] == last;
            let r = s.remove(idx);
            assert forall|a: int, b: int| 0 <= a < b < r.len() implies #[trigger] r[a] != #[trigger] r[b] by {
                let sa = if a < idx { a } else { a + 1 };
                let sb = if b < idx { b } else { b + 1 };
                assert(r[a] == s[sa] && r[b] == s[sb]);
            }
            assert forall|j: int| 0 <= j < r.len() implies (#[trigger] r[j]) < n - 1 && r[j] != p
                && dot_i8(q, codes[r[j] as int]) >= dot_i8(q, codes[p]) by {
                let sj = if j < idx { j } else { j + 1 };
                assert(r[j] == s[sj]);
                assert(sj != idx);
            }
            lemma_outscored_counts(codes, q, p, n - 1, r);
            assert(s[idx] as int == n - 1);
            assert(n - 1 != p && dot_i8(q, codes[n - 1]) >= dot_i8(q, codes[p]));
            assert(r.len() == s.len() - 1);
        } else {
            assert forall|j: int| 0 <= j < s.len() implies (#[trigger] s[j]) < n - 1 && s[j] != p
                && dot_i8(q, codes[s[j] as int]) >= dot_i8(q, codes[p]) by {
                assert(s[j] != last);
            }
            lemma_outscored_counts(codes, q, p, n - 1, s);
        }
    } else if s.len() > 0 {
        assert(s[0] < n);
    }
}

/// The draft is `k · overdraft` codes deep: a code that fewer than
/// `k · overdraft` other codes match or beat by int8 score is verified, so
/// when its exact score beats every other code's, it is the first result.
pub proof fn lemma_spec_search_keeps_deep_candidates(
    ids: Seq<usize>,
    codes: Seq<Seq<i8>>,
    q: Seq<i8>,
    exact: spec_fn(usize) -> u64,
    k: int,
    overdraft: int,
    p: int,
)
    requires
        ids.len() == codes.len(),
        codes.len() <= usize::MAX,
        0 <= p < codes.len(),
        k >= 1,
        overdraft >= 1,
        all_fit(q, codes),
        outscored_by(codes, q, p, codes.len() as int) < k * overdraft,
        forall|r: usize| r < codes.len() && r != p ==> #[trigger] exact(r) < exact(p as usize),
    ensures
        spec_search_spec(ids, codes, q, exact, k, overdraft).len() >= 1,
        spec_search_spec(ids, codes, q, exact, k, overdraft)[0] == (ids[p], exact(p as usize)),
{
    broadcast use vstd::seq_lib::group_to_multiset_ensures;
    let n = codes.len() as int;
    let ds = draft_scores(codes, q);
    let m = min_nat(k * overdraft, n);
    let draft = top_k_spec(ds, m, true);
    let kp = ds[p];
    assert(kp == (p as usize, score_key(dot_i8(q, codes[p]))));
    // Every int8 score is an `i32`, where the score key keeps the order.
    assert forall|r: int| 0 <= r < n implies i32::MIN <= #[trigger] dot_i8(q, codes[r]) <= i32::MAX by {
        assert(dot_fits(q, codes[r]));
        let l = min_nat(q.len() as int, codes[r].len() as int);
        assert(i32::MIN <= dot_spec(q, codes[r], l) <= i32::MAX);
    }
    lemma_top_k_properties(ds, m, true);
    lemma_top_k_from_input(ds, m, true);
    lemma_top_k_ids_distinct(ds, m, true);
    // The code at `p` is in the draft.
    assert(draft.contains(kp)) by {
        if !draft.contains(kp) {
            assert(ds.to_multiset().count(kp) > 0) by {
                assert(ds.contains(kp));
            }
            assert(draft.to_multiset().count(kp) == 0);
            assert((ds.to_multiset().sub(draft.to_multiset())).count(kp) > 0);
            let last = draft[draft.len() - 1];
            assert(kp.1 <= last.1);
            let pos = draft.map_values(|e: Scored| e.0);
            assert forall|j: int| 0 <= j < pos.len() implies (#[trigger] pos[j]) < n && pos[j] != p
                && dot_i8(q, codes[pos[j] as int]) >= dot_i8(q, codes[p]) by {
                assert(ds.contains(draft[j]));
                let w = choose|w: int| 0 <= w < ds.len() && ds[w] == draft[j];
                assert(draft[j] == ds[w]);
                assert(draft[j] != kp);
                if j < draft.len() - 1 {
                    assert(!(draft[draft.len() - 1].1 > draft[j].1));
                }
                assert(draft[j].1 >= kp.1);
            }
            assert forall|a: int, b: int| 0 <= a < b < pos.len() implies #[trigger] pos[a] != #[trigger] pos[b] by {
                assert(pos[a] == draft[a].0 && pos[b] == draft[b].0);
            }
            lemma_outscored_counts(codes, q, p, n, pos);
            lemma_outscored_le(codes, q, p, n);
        }
    }
    // Verified, it has the best exact score and comes first.
    let g = |e: Scored| (ids[e.0 as int], exact(e.0));
    let v = draft.map_values(g);
    let j = choose|j: int| 0 <= j < draft.len() && draft[j] == kp;
    assert(v[j] == (ids[p], exact(p as usize)));
    lemma_sort_ranked_properties(v, true);
    let sv = sort_ranked(v, true);
    let top = top_k_spec(v, k, true);
    assert(v.to_multiset().count(v[j]) > 0) by {
        assert(v.contains(v[j]));
    }
    assert(sv.contains(v[j])) by {
        assert(sv.to_multiset().count(v[j]) > 0);
    }
    let t = choose|t: int| 0 <= t < sv.len() && sv[t] == v[j];
    assert(sv.len() >= 1);
    if t > 0 {
        assert(!(sv[t].1 > sv[0].1));
    }
    assert(sv.to_multiset().count(sv[0]) > 0) by {
        assert(sv.contains(sv[0]));
    }
    assert(v.contains(sv[0])) by {
        assert(v.to_multiset().count(sv[0]) > 0);
    }
    let w = choose|w: int| 0 <= w < v.len() && v[w] == sv[0];
    assert(ds.contains(draft[w]));
    let w2 = choose|w2: int| 0 <= w2 < ds.len() && ds[w2] == draft[w];
    if w2 != p {
        assert(exact(w2 as usize) < exact(p as usize));
    }
    assert(sv[0] == (ids[p], exact(p as usize)));
    assert(top[0] == sv[0]);
}


/// The number of codes among the first `n`, other than the one at `p`, whose
/// int8 score against `q` is strictly higher than that of the code at `p`.
pub open spec fn outbeaten_by(codes: Seq<Seq<i8>>, q: Seq<i8>, p: int, n: int) -> nat
    decreases n,
{
    if n <= 0 {
        0
    } else {
        outbeaten_by(codes, q, p, n - 1) + if n - 1 != p && dot_i8(q, codes[n - 1]) > dot_i8(q, codes[p]) {
            1nat
        } else {
            0nat
        }
    }
}

/// When distinct positions `s` include every code that beats `p`, those
/// codes number at most `s.len()`.
proof fn lemma_outbeaten_within(codes: Seq<Seq<i8>>, q: Seq<i8>, p: int, n: int, s: Seq<usize>)
    requires
        0 <= n <= usize::MAX,
        forall|a: int, b: int| 0 <= a < b < s.len() ==> #[trigger] s[a] != #[trigger] s[b],
        forall|r: usize| r < n && r != p && dot_i8(q, codes[r as int]) > dot_i8(q, codes[p]) ==> #[trigger] s.contains(r),
    ensures
        outbeaten_by(codes, q, p, n) <= s.len(),
    decreases n,
{
    if n > 0 {
        let last = (n - 1) as usize;
        if last != p && dot_i8(q, codes[n - 1]) > dot_i8(q, codes[p]) {
            assert(s.contains(last));
            let idx = choose|idx: int| 0 <= idx < s.len() && s[idx] == last;
            let r = s.remove(idx);
            assert forall|a: int, b: int| 0 <= a < b < r.len() implies #[trigger] r[a] != #[trigger] r[b] by {
                let sa = if a < idx { a } else { a + 1 };
                let sb = if b < idx { b } else { b + 1 };
                assert(r[a] == s[sa] && r[b] == s[sb]);
            }
            assert forall|x: usize| x < n - 1 && x != p && dot_i8(q, codes[x as int]) > dot_i8(q, codes[p]) implies #[trigger] r.contains(x) by {
                assert(s.contains(x));
                let w = choose|w: int| 0 <= w < s.len() && s[w] == x;
                assert(w != idx);
                let rw = if w < idx { w } else { w - 1 };
                assert(r[rw] == x);
            }
            lemma_outbeaten_within(codes, q, p, n - 1, r);
        } else {
            lemma_outbeaten_within(codes, q, p, n - 1, s);
        }
    }
}

/// The draft is no deeper than `k · overdraft` codes: a code that at least
/// `k · overdraft` other codes beat by int8 score is never verified, so (ids
/// being distinct) no result carries its id.
pub proof fn lemma_spec_search_drops_shallow_candidates(
    ids: Seq<usize>,
    codes: Seq<Seq<i8>>,
    q: Seq<i8>,
    exact: spec_fn(usize) -> u64,
    k: int,
    overdraft: int,
    p: int,
)
    requires
        ids.len() == codes.len(),
        codes.len() <= usize::MAX,
        0 <= p < codes.len(),
        k >= 0,
        overdraft >= 1,
        all_fit(q, codes),
        outbeaten_by(codes, q, p, codes.len() as int) >= k * overdraft,
        forall|a: int, b: int| 0 <= a < b < ids.len() ==> #[trigger] ids[a] != #[trigger] ids[b],
    ensures
        forall|i: int| 0 <= i < spec_search_spec(ids, codes, q, exact, k, overdraft).len()
            ==> (#[trigger] spec_search_spec(ids, codes, q, exact, k, overdraft)[i]).0 != ids[p],
{
    broadcast use vstd::seq_lib::group_to_multiset_ensures;
    let n = codes.len() as int;
    let ds = draft_scores(codes, q);
    let m = min_nat(k * overdraft, n);
    let draft = top_k_spec(ds, m, true);
    let kp = ds[p];
    assert forall|r: int| 0 <= r < n implies i32::MIN <= #[trigger] dot_i8(q, codes[r]) <= i32::MAX by {
        assert(dot_fits(q, codes[r]));
        let l = min_nat(q.len() as int, codes[r].len() as int);
        assert(i32::MIN <= dot_spec(q, codes[r], l) <= i32::MAX);
    }
    lemma_sort_ranked_properties(ds, true);
    let sr = sort_ranked(ds, true);
    assert(sr.len() == n);
    assert(top_k_spec(ds, n, true) =~= sr);
    lemma_top_k_ids_distinct(ds, n, true);
    assert(draft =~= sr.take(m));
    // The code at `p` is not in the draft.
    assert(!draft.contains(kp)) by {
        if draft.contains(kp) {
            let t = choose|t: int| 0 <= t < draft.len() && draft[t] == kp;
            assert(t < m && m <= n);
            let s = sr.take(t).map_values(|e: Scored| e.0);
            assert(s.len() == t);
            assert forall|a: int, b: int| 0 <= a < b < s.len() implies #[trigger] s[a] != #[trigger] s[b] by {
                assert(s[a] == sr[a].0 && s[b] == sr[b].0);
                assert(top_k_spec(ds, n, true)[a] == sr[a]);
                assert(top_k_spec(ds, n, true)[b] == sr[b]);
            }
            assert forall|r: usize| r < n && r != p && dot_i8(q, codes[r as int]) > dot_i8(q, codes[p]) implies #[trigger] s.contains(r) by {
                let e = ds[r as int];
                assert(ds.contains(e));
                assert(ds.to_multiset().count(e) > 0);
                assert(sr.contains(e));
                let u = choose|u: int| 0 <= u < sr.len() && sr[u] == e;
                assert(sr[t] == kp);
                assert(e.1 > kp.1);
                if u >= t {
                    if u > t {
                        assert(!(sr[u].1 > sr[t].1));
                    }
                }
                assert(u < t);
                assert(s[u] == r);
            }
            lemma_outbeaten_within(codes, q, p, n, s);
        }
    }
    let g = |e: Scored| (ids[e.0 as int], exact(e.0));
    let v = draft.map_values(g);
    lemma_top_k_from_input(v, k, true);
    lemma_top_k_from_input(ds, m, true);
    let res = top_k_spec(v, k, true);
    assert forall|i: int| 0 <= i < res.len() implies (#[trigger] res[i]).0 != ids[p] by {
        assert(v.contains(res[i]));
        let w = choose|w: int| 0 <= w < v.len() && v[w] == res[i];
        assert(ds.contains(draft[w]));
        let w2 = choose|w2: int| 0 <= w2 < ds.len() && ds[w2] == draft[w];
        assert(w2 != p);
        assert(res[i].0 == ids[w2]);
    }
}

} // verus!
