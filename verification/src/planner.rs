//! Adaptive planner: routes each filtered query to a strategy by the
//! estimated selectivity of its predicate.
use vstd::prelude::*;
use crate::acorn::{AcornExpand, ACORN_DEGREE};
use crate::filtered::{
    exact_filtered, lemma_ids_with_category_bounds, lemma_route_never_acorn, strategy_for, CategoryFilter, PostFilterFlat,
    PreFilterBrute, SelectivityEstimator, Strategy,
};
use crate::oracle::{is_oracle, is_pair_oracle};
use crate::rank::Scored;

verus! {

/// Chooses the execution strategy based on estimated predicate selectivity.
pub struct AdaptivePlanner {
    pub post_filter: PostFilterFlat,
    pub acorn: AcornExpand,
    pub pre_filter: PreFilterBrute,
    pub estimator: SelectivityEstimator,
}

fn copy_categories(v: &Vec<u32>) -> (r: Vec<u32>)
    ensures
        r@ == v@,
{
    let mut r: Vec<u32> = Vec::new();
    let mut i: usize = 0;
    while i < v.len()
        invariant
            i <= v@.len(),
            r@ == v@.take(i as int),
        decreases v@.len() - i,
    {
        r.push(v[i]);
        assert(r@ =~= v@.take(i + 1));
        i = i + 1;
    }
    assert(v@.take(v@.len() as int) =~= v@);
    r
}

impl AdaptivePlanner {
    /// All three strategies index the same categories, and the graph is built.
    pub open spec fn wf(&self) -> bool {
        &&& self.acorn.wf()
        &&& self.pre_filter.categories_spec() == self.post_filter.categories@
        &&& self.pre_filter.n_vectors_spec() == self.post_filter.categories@.len()
        &&& self.post_filter.n_vectors == self.post_filter.categories@.len()
        &&& self.acorn.categories@ == self.post_filter.categories@
    }

    pub open spec fn categories(&self) -> Seq<u32> {
        self.post_filter.categories@
    }

    pub fn new(ef: usize) -> (r: Self)
        ensures
            r.acorn.ef == ef,
            r.estimator.total_spec() == 0,
            forall|c: u32| r.estimator.count(c) == 0,
    {
        AdaptivePlanner {
            post_filter: PostFilterFlat::new(),
            acorn: AcornExpand::new(ef),
            pre_filter: PreFilterBrute::new(),
            estimator: SelectivityEstimator::new(),
        }
    }

    /// Counts the categories and builds the three strategies over them;
    /// `dist` gives the key of the distance between two vectors.
    pub fn build<F: Fn(usize, usize) -> u64>(&mut self, categories: Vec<u32>, dist: F)
        requires
            categories@.len() > ACORN_DEGREE,
            old(self).estimator.total_spec() + categories@.len() <= usize::MAX,
            is_pair_oracle(dist, categories@.len() as int),
        ensures
            final(self).wf(),
            final(self).categories() == categories@,
            final(self).acorn.ef == old(self).acorn.ef,
            final(self).estimator.total_spec() == old(self).estimator.total_spec() + categories@.len(),
            forall|c: u32| final(self).estimator.count(c) == old(self).estimator.count(c) + categories@.to_multiset().count(c),
    {
        self.estimator.record_all(&categories);
        let n = categories.len();
        self.post_filter.build(n, copy_categories(&categories));
        self.acorn.build(copy_categories(&categories), dist);
        self.pre_filter.build(n, categories);
    }

    /// Routes by selectivity and runs the chosen strategy; returns the
    /// results and the strategy that produced them.  Graph expansion is never
    /// chosen, so the results are always the exact `k` nearest matches.
    pub fn search<F: Fn(usize) -> u64>(&self, dist: F, k: usize, filter: &CategoryFilter) -> (r: (Vec<Scored>, Strategy))
        requires
            self.wf(),
            is_oracle(dist, self.categories().len() as int),
        ensures
            r.1 == strategy_for(self.estimator.count(filter.0), self.estimator.total_spec()),
            r.1 != Strategy::AcornExpand,
            r.0@ == exact_filtered(self.categories(), filter.0, dist, k as int),
    {
        let strategy = self.estimator.choose_strategy(filter);
        proof {
            lemma_route_never_acorn(self.estimator.count(filter.0), self.estimator.total_spec());
        }
        match strategy {
            Strategy::PreFilterBrute => {
                proof {
                    lemma_ids_with_category_bounds(self.categories(), filter.0);
                }
                (self.pre_filter.search(dist, k, filter), strategy)
            },
            Strategy::AcornExpand => {
                proof {
                    assert(false);
                }
                (Vec::new(), strategy)
            },
            Strategy::PostFilterFlat => {
                let r = self.post_filter.search(dist, k, filter);
                assert(self.categories().take(self.categories().len() as int) =~= self.categories());
                (r, strategy)
            },
        }
    }
}

} // verus!
