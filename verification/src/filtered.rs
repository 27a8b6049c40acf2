//! Filtered nearest-neighbour search: category predicates, selectivity
//! estimation, strategy routing, and the candidate logic of the three
//! strategies (post-filter scan, pre-filter inverted index, graph expansion).
use std::collections::HashMap;
use vstd::prelude::*;
use crate::oracle::{ask, is_oracle, key_of};
use crate::rank::{Scored, top_k_ascending, top_k_spec};

verus! {

broadcast use vstd::std_specs::hash::group_hash_axioms;

/// Simple equality predicate on an integer category attribute.
pub struct CategoryFilter(pub u32);

impl CategoryFilter {
    pub fn matches(&self, cat: u32) -> (r: bool)
        ensures
            r == (cat == self.0),
    {
        cat == self.0
    }
}

/// Ids `0..cats.len()` whose category is `c`, in ascending order.
pub open spec fn ids_with_category(cats: Seq<u32>, c: u32) -> Seq<usize>
    decreases cats.len(),
{
    if cats.len() == 0 {
        Seq::empty()
    } else if cats.last() == c {
        ids_with_category(cats.drop_last(), c).push((cats.len() - 1) as usize)
    } else {
        ids_with_category(cats.drop_last(), c)
    }
}

/// Tracks per-category counts to estimate query selectivity.
pub struct SelectivityEstimator {
    counts: HashMap<u32, usize>,
    total: usize,
}

impl SelectivityEstimator {
    #[verifier::type_invariant]
    spec fn counts_bounded(self) -> bool {
        forall|c: u32| #[trigger] self.counts@.contains_key(c) ==> self.counts@[c] <= self.total
    }

    /// How many recorded vectors have category `c`.
    pub closed spec fn count(self, c: u32) -> nat {
        if self.counts@.contains_key(c) {
            self.counts@[c] as nat
        } else {
            0
        }
    }

    /// How many vectors were recorded.
    pub closed spec fn total_spec(self) -> nat {
        self.total as nat
    }

    pub fn new() -> (r: Self)
        ensures
            r.total_spec() == 0,
            forall|c: u32| r.count(c) == 0,
    {
        SelectivityEstimator { counts: HashMap::new(), total: 0 }
    }

    pub fn record(&mut self, cat: u32)
        requires
            old(self).total_spec() < usize::MAX,
        ensures
            final(self).total_spec() == old(self).total_spec() + 1,
            final(self).count(cat) == old(self).count(cat) + 1,
            forall|c: u32| c != cat ==> final(self).count(c) == old(self).count(c),
    {
        proof {
            use_type_invariant(&*self);
        }
        let cur: usize = match self.counts.get(&cat) {
            Some(n) => *n,
            None => 0,
        };
        assert(cur <= self.total);
        let mut counts = HashMap::new();
        std::mem::swap(&mut counts, &mut self.counts);
        counts.insert(cat, cur + 1);
        self.total = self.total + 1;
        self.counts = counts;
    }

    /// Records every category of `cats`, in order.
    pub fn record_all(&mut self, cats: &Vec<u32>)
        requires
            old(self).total_spec() + cats.len() <= usize::MAX,
        ensures
            final(self).total_spec() == old(self).total_spec() + cats.len(),
            forall|c: u32| final(self).count(c) == old(self).count(c) + cats@.to_multiset().count(c),
    {
        broadcast use vstd::seq_lib::group_to_multiset_ensures;
        let n = cats.len();
        let mut i: usize = 0;
        assert(cats@.take(0) =~= Seq::<u32>::empty());
        while i < n
            invariant
                n == cats.len(),
                i <= n,
                self.total_spec() == old(self).total_spec() + i,
                old(self).total_spec() + n <= usize::MAX,
                forall|c: u32| self.count(c) == old(self).count(c) + cats@.take(i as int).to_multiset().count(c),
            decreases n - i,
        {
            let ghost prev = cats@.take(i as int);
            assert(cats@.take(i + 1) =~= prev.push(cats@[i as int]));
            proof {
                vstd::seq_lib::to_multiset_build(prev, cats@[i as int]);
            }
            self.record(cats[i]);
            i = i + 1;
        }
        assert(cats@.take(n as int) =~= cats@);
    }

    /// Number of recorded vectors whose category matches `filter`.
    pub fn matching(&self, filter: &CategoryFilter) -> (r: usize)
        ensures
            r == self.count(filter.0),
            r <= self.total_spec(),
    {
        proof {
            use_type_invariant(self);
        }
        match self.counts.get(&filter.0) {
            Some(n) => *n,
            None => 0,
        }
    }

    /// Number of recorded vectors.
    pub fn total(&self) -> (r: usize)
        ensures
            r == self.total_spec(),
    {
        self.total
    }

    /// The strategy chosen for `filter`, from its estimated selectivity
    /// `count / total` (taken as 0 when nothing was recorded).
    pub fn choose_strategy(&self, filter: &CategoryFilter) -> (r: Strategy)
        ensures
            r == strategy_for(self.count(filter.0), self.total_spec()),
    {
        let n = self.matching(filter);
        let total = self.total;
        route(n, total)
    }
}

/// The three execution strategies of the planner.
#[derive(PartialEq, Eq, Structural, Clone, Copy, Debug)]
pub enum Strategy {
    PreFilterBrute,
    AcornExpand,
    PostFilterFlat,
}

/// Selectivity below this fraction routes to the pre-filter (numerator / denominator).
pub const LOW_SEL_NUM: u64 = 1;
pub const LOW_SEL_DEN: u64 = 2;
/// Selectivity below this fraction, and not below the low one, routes to graph expansion.
pub const MID_SEL_NUM: u64 = 1;
pub const MID_SEL_DEN: u64 = 2;

/// `n / total` is below `num / den`, with an empty corpus counting as selectivity 0.
pub open spec fn below(n: nat, total: nat, num: nat, den: nat) -> bool {
    if total == 0 {
        0 < num
    } else {
        n * den < num * total
    }
}

pub open spec fn strategy_for(n: nat, total: nat) -> Strategy {
    if below(n, total, LOW_SEL_NUM as nat, LOW_SEL_DEN as nat) {
        Strategy::PreFilterBrute
    } else if below(n, total, MID_SEL_NUM as nat, MID_SEL_DEN as nat) {
        Strategy::AcornExpand
    } else {
        Strategy::PostFilterFlat
    }
}

fn below_exec(n: usize, total: usize, num: u64, den: u64) -> (r: bool)
    requires
        n <= total,
        num <= 2,
        den <= 2,
    ensures
        r == below(n as nat, total as nat, num as nat, den as nat),
{
    if total == 0 {
        0 < num
    } else {
        let a: u128 = n as u128;
        let b: u128 = total as u128;
        assert(a * (den as u128) <= a * 2) by (nonlinear_arith)
            requires
                den <= 2;
        assert((num as u128) * b <= 2 * b) by (nonlinear_arith)
            requires
                num <= 2;
        a * (den as u128) < (num as u128) * b
    }
}

/// Routes a query matching `n` of `total` vectors.
pub fn route(n: usize, total: usize) -> (r: Strategy)
    requires
        n <= total,
    ensures
        r == strategy_for(n as nat, total as nat),
{
    if below_exec(n, total, LOW_SEL_NUM, LOW_SEL_DEN) {
        Strategy::PreFilterBrute
    } else if below_exec(n, total, MID_SEL_NUM, MID_SEL_DEN) {
        Strategy::AcornExpand
    } else {
        Strategy::PostFilterFlat
    }
}

/// The routing never picks graph expansion: its band of selectivities is empty.
pub proof fn lemma_route_never_acorn(n: nat, total: nat)
    ensures
        strategy_for(n, total) != Strategy::AcornExpand,
        strategy_for(n, total) == Strategy::PreFilterBrute <==> (total == 0 || 2 * n < total),
{
}

/// Each id of `ids` paired with the key that `dist` gives it.
pub open spec fn scored_ids<F: Fn(usize) -> u64>(ids: Seq<usize>, dist: F) -> Seq<Scored> {
    ids.map_values(|id: usize| (id, key_of(dist, id)))
}

/// What every exact filtered search returns: the `k` nearest matching ids.
pub open spec fn exact_filtered<F: Fn(usize) -> u64>(cats: Seq<u32>, c: u32, dist: F, k: int) -> Seq<Scored> {
    top_k_spec(scored_ids(ids_with_category(cats, c), dist), k, false)
}

pub proof fn lemma_ids_with_category_bounds(cats: Seq<u32>, c: u32)
    requires
        cats.len() <= usize::MAX,
    ensures
        forall|j: int| 0 <= j < ids_with_category(cats, c).len() ==> {
            &&& (#[trigger] ids_with_category(cats, c)[j]) < cats.len()
            &&& cats[ids_with_category(cats, c)[j] as int] == c
        },
    decreases cats.len(),
{
    if cats.len() > 0 {
        let p = cats.drop_last();
        lemma_ids_with_category_bounds(p, c);
        let s = ids_with_category(cats, c);
        let t = ids_with_category(p, c);
        assert forall|j: int| 0 <= j < s.len() implies {
            &&& (#[trigger] s[j]) < cats.len()
            &&& cats[s[j] as int] == c
        } by {
            if cats.last() == c {
                assert(s == t.push((cats.len() - 1) as usize));
            } else {
                assert(s == t);
            }
            if j < t.len() {
                assert(s[j] == t[j]);
                assert(t[j] < p.len());
                assert(p[t[j] as int] == cats[t[j] as int]);
            }
        }
    }
}

/// Post-filter scan: scores every vector, then keeps those that match.
pub struct PostFilterFlat {
    pub categories: Vec<u32>,
    pub n_vectors: usize,
}

impl PostFilterFlat {
    pub fn new() -> (r: Self)
        ensures
            r.categories@.len() == 0,
            r.n_vectors == 0,
    {
        PostFilterFlat { categories: Vec::new(), n_vectors: 0 }
    }

    /// Holds `n_vectors` vectors (ids `0..n_vectors`) and their categories.
    pub fn build(&mut self, n_vectors: usize, categories: Vec<u32>)
        ensures
            final(self).categories@ == categories@,
            final(self).n_vectors == n_vectors,
    {
        self.categories = categories;
        self.n_vectors = n_vectors;
    }

    /// The `k` nearest vectors (by the keys of `dist`) whose category matches
    /// `filter`; every vector id has a category.
    pub fn search<F: Fn(usize) -> u64>(&self, dist: F, k: usize, filter: &CategoryFilter) -> (r: Vec<Scored>)
        requires
            self.n_vectors <= self.categories@.len(),
            is_oracle(dist, self.n_vectors as int),
        ensures
            r@ == exact_filtered(self.categories@.take(self.n_vectors as int), filter.0, dist, k as int),
    {
        let n = self.n_vectors;
        let ghost cats = self.categories@.take(n as int);
        let mut results: Vec<Scored> = Vec::new();
        let mut id: usize = 0;
        assert(cats.take(0) =~= Seq::<u32>::empty());
        while id < n
            invariant
                n == self.n_vectors,
                n <= self.categories@.len(),
                cats == self.categories@.take(n as int),
                id <= n,
                is_oracle(dist, n as int),
                results@ == scored_ids(ids_with_category(cats.take(id as int), filter.0), dist),
            decreases n - id,
        {
            let key = ask(&dist, id, Ghost(n as int));
            let ghost prev = cats.take(id as int);
            assert(cats.take(id + 1).drop_last() =~= prev);
            assert(cats[id as int] == self.categories@[id as int]);
            if filter.matches(self.categories[id]) {
                results.push((id, key));
            }
            assert(results@ =~= scored_ids(ids_with_category(cats.take(id + 1), filter.0), dist));
            id = id + 1;
        }
        assert(cats.take(n as int) =~= cats);
        top_k_ascending(&results, k)
    }
}

/// Pre-filter: an inverted index from category to the ids that carry it.
pub struct PreFilterBrute {
    categories: Vec<u32>,
    n_vectors: usize,
    cat_index: HashMap<u32, Vec<usize>>,
}

impl PreFilterBrute {
    #[verifier::type_invariant]
    spec fn index_matches(self) -> bool {
        &&& forall|c: u32| #[trigger] self.cat_index@.contains_key(c)
            ==> self.cat_index@[c]@ == ids_with_category(self.categories@, c)
            && self.cat_index@[c]@.len() > 0
        &&& forall|c: u32| !(#[trigger] self.cat_index@.contains_key(c))
            ==> ids_with_category(self.categories@, c).len() == 0
    }

    pub closed spec fn categories_spec(self) -> Seq<u32> {
        self.categories@
    }

    pub closed spec fn n_vectors_spec(self) -> usize {
        self.n_vectors
    }

    /// The ids listed for category `c` (none when `c` has no entry).
    pub closed spec fn listed(self, c: u32) -> Seq<usize> {
        if self.cat_index@.contains_key(c) {
            self.cat_index@[c]@
        } else {
            Seq::empty()
        }
    }

    pub fn new() -> (r: Self)
        ensures
            r.categories_spec().len() == 0,
            r.n_vectors_spec() == 0,
    {
        PreFilterBrute { categories: Vec::new(), n_vectors: 0, cat_index: HashMap::new() }
    }

    /// Holds `n_vectors` vectors and builds the inverted index of `categories`.
    pub fn build(&mut self, n_vectors: usize, categories: Vec<u32>)
        ensures
            final(self).categories_spec() == categories@,
            final(self).n_vectors_spec() == n_vectors,
            forall|c: u32| #[trigger] final(self).listed(c) == ids_with_category(categories@, c),
    {
        let n = categories.len();
        let mut idx: HashMap<u32, Vec<usize>> = HashMap::new();
        let mut id: usize = 0;
        assert(categories@.take(0) =~= Seq::<u32>::empty());
        while id < n
            invariant
                n == categories@.len(),
                id <= n,
                forall|c: u32| #[trigger] idx@.contains_key(c)
                    ==> idx@[c]@ == ids_with_category(categories@.take(id as int), c) && idx@[c]@.len() > 0,
                forall|c: u32| !(#[trigger] idx@.contains_key(c))
                    ==> ids_with_category(categories@.take(id as int), c).len() == 0,
            decreases n - id,
        {
            let cat = categories[id];
            let ghost prev = categories@.take(id as int);
            assert(categories@.take(id + 1).drop_last() =~= prev);
            assert(categories@.take(id + 1).last() == cat);
            let mut list: Vec<usize> = match idx.remove(&cat) {
                Some(v) => v,
                None => Vec::new(),
            };
            assert(list@ == ids_with_category(prev, cat));
            list.push(id);
            idx.insert(cat, list);
            id = id + 1;
        }
        assert(categories@.take(n as int) =~= categories@);
        *self = PreFilterBrute { categories, n_vectors, cat_index: idx };
    }

    /// The ids of category `c`, ascending (empty when none has it).
    pub fn ids_for(&self, c: u32) -> (r: &[usize])
        ensures
            r@ == ids_with_category(self.categories_spec(), c),
    {
        proof {
            use_type_invariant(self);
        }
        match self.cat_index.get(&c) {
            Some(v) => v.as_slice(),
            None => {
                let e: &[usize] = &[];
                assert(e@ =~= ids_with_category(self.categories_spec(), c));
                e
            },
        }
    }

    /// The `k` nearest vectors (by the keys of `dist`) whose category matches
    /// `filter`; every id of that category is a vector.
    pub fn search<F: Fn(usize) -> u64>(&self, dist: F, k: usize, filter: &CategoryFilter) -> (r: Vec<Scored>)
        requires
            forall|j: int| 0 <= j < ids_with_category(self.categories_spec(), filter.0).len()
                ==> (#[trigger] ids_with_category(self.categories_spec(), filter.0)[j]) < self.n_vectors_spec(),
            is_oracle(dist, self.n_vectors_spec() as int),
        ensures
            r@ == exact_filtered(self.categories_spec(), filter.0, dist, k as int),
    {
        let ids = self.ids_for(filter.0);
        let nv = self.n_vectors;
        let n = ids.len();
        let mut results: Vec<Scored> = Vec::new();
        let mut j: usize = 0;
        while j < n
            invariant
                n == ids@.len(),
                j <= n,
                ids@ == ids_with_category(self.categories_spec(), filter.0),
                nv == self.n_vectors_spec(),
                is_oracle(dist, nv as int),
                forall|q: int| 0 <= q < n ==> (#[trigger] ids@[q]) < nv,
                results@ == scored_ids(ids@.take(j as int), dist),
            decreases n - j,
        {
            let id = ids[j];
            let key = ask(&dist, id, Ghost(nv as int));
            results.push((id, key));
            assert(results@ =~= scored_ids(ids@.take(j + 1), dist));
            j = j + 1;
        }
        assert(ids@.take(n as int) =~= ids@);
        top_k_ascending(&results, k)
    }
}

/// Matches of `c` that all lie below `n` are the matches among the first `n` categories.
proof fn lemma_ids_take(cats: Seq<u32>, c: u32, n: int)
    requires
        0 <= n <= cats.len(),
        cats.len() <= usize::MAX,
        forall|j: int| 0 <= j < ids_with_category(cats, c).len() ==> (#[trigger] ids_with_category(cats, c)[j]) < n,
    ensures
        ids_with_category(cats.take(n), c) == ids_with_category(cats, c),
    decreases cats.len(),
{
    if cats.len() > n {
        let p = cats.drop_last();
        if cats.last() == c {
            let s = ids_with_category(cats, c);
            assert(s[s.len() - 1] == (cats.len() - 1) as usize);
        }
        assert(ids_with_category(cats, c) == ids_with_category(p, c));
        assert(p.take(n) =~= cats.take(n));
        lemma_ids_take(p, c, n);
    } else {
        assert(cats.take(n) =~= cats);
    }
}

/// The pre-filter index and the post-filter scan return the same results
/// over the same vectors and categories: both are exact over the matching ids.
pub proof fn lemma_prefilter_equals_postfilter<F: Fn(usize) -> u64>(
    pre: PreFilterBrute,
    post: PostFilterFlat,
    dist: F,
    k: int,
    c: u32,
)
    requires
        pre.categories_spec() == post.categories@,
        pre.n_vectors_spec() == post.n_vectors,
        post.n_vectors <= post.categories@.len(),
        post.categories@.len() <= usize::MAX,
        forall|j: int| 0 <= j < ids_with_category(pre.categories_spec(), c).len()
            ==> (#[trigger] ids_with_category(pre.categories_spec(), c)[j]) < pre.n_vectors_spec(),
    ensures
        exact_filtered(pre.categories_spec(), c, dist, k) == exact_filtered(post.categories@.take(post.n_vectors as int), c, dist, k),
{
    lemma_ids_take(post.categories@, c, post.n_vectors as int);
}

} // verus!
