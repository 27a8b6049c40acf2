use rand::rngs::SmallRng;
use rand::{Rng, SeedableRng};
use vecsearch::acorn::AcornExpand;
use vecsearch::filtered::{route, CategoryFilter, PostFilterFlat, PreFilterBrute, SelectivityEstimator, Strategy};
use vecsearch::knn_graph::KnnGraph;
use vecsearch::planner::AdaptivePlanner;
use vecsearch::recall::count_in;

/// Order key of a distance: larger distances get larger keys.
fn key(x: f32) -> u64 {
    if x.is_nan() {
        return u64::MAX;
    }
    let x = if x == 0.0 { 0.0 } else { x };
    let b = x.to_bits();
    let o = if b & 0x8000_0000 != 0 { !b } else { b | 0x8000_0000 };
    o as u64
}

fn l2_sq(a: &[f32], b: &[f32]) -> f32 {
    a.iter().zip(b).map(|(x, y)| (x - y) * (x - y)).sum()
}

fn make_corpus(n: usize, dim: usize, n_cats: u32, seed: u64) -> (Vec<Vec<f32>>, Vec<u32>) {
    let mut rng = SmallRng::seed_from_u64(seed);
    let vectors = (0..n).map(|_| (0..dim).map(|_| rng.gen::<f32>()).collect()).collect();
    let categories = (0..n).map(|_| rng.gen_range(0..n_cats)).collect();
    (vectors, categories)
}

fn make_queries(n: usize, dim: usize, seed: u64) -> Vec<Vec<f32>> {
    let mut rng = SmallRng::seed_from_u64(seed + 99);
    (0..n).map(|_| (0..dim).map(|_| rng.gen::<f32>()).collect()).collect()
}

/// Hits of the result ids in the ground truth over `min(|gt|, |results| + 1)`.
fn recall_at_k(results: &[(usize, u64)], ground_truth: &[usize]) -> f32 {
    if ground_truth.is_empty() {
        return 1.0;
    }
    let ids: Vec<usize> = results.iter().map(|r| r.0).collect();
    let hits = count_in(&ids, &ground_truth.to_vec());
    hits as f32 / ground_truth.len() as f32
}

fn ground_truth(vectors: &[Vec<f32>], categories: &[u32], queries: &[Vec<f32>], k: usize, cat: u32) -> Vec<Vec<usize>> {
    let mut idx = PreFilterBrute::new();
    idx.build(vectors.len(), categories.to_vec());
    let filter = CategoryFilter(cat);
    queries
        .iter()
        .map(|q| idx.search(|p: usize| key(l2_sq(q, &vectors[p])), k, &filter).into_iter().map(|r| r.0).collect())
        .collect()
}

#[test]
fn post_filter_flat_recall_one() {
    let (vecs, cats) = make_corpus(500, 32, 10, 1);
    let queries = make_queries(20, 32, 1);
    let gt = ground_truth(&vecs, &cats, &queries, 5, 0);

    let mut idx = PostFilterFlat::new();
    idx.build(vecs.len(), cats);
    let filter = CategoryFilter(0);

    for (q, g) in queries.iter().zip(&gt) {
        let results = idx.search(|p: usize| key(l2_sq(q, &vecs[p])), 5, &filter);
        assert_eq!(recall_at_k(&results, g), 1.0, "PostFilterFlat must be exact");
    }
}

#[test]
fn post_filter_flat_returns_at_most_k() {
    let (vecs, cats) = make_corpus(200, 16, 5, 2);
    let mut idx = PostFilterFlat::new();
    idx.build(vecs.len(), cats);
    let q = vec![0.5_f32; 16];
    let results = idx.search(|p: usize| key(l2_sq(&q, &vecs[p])), 10, &CategoryFilter(0));
    assert!(results.len() <= 10);
}

#[test]
fn post_filter_flat_empty_result_when_no_match() {
    let (vecs, cats) = make_corpus(100, 16, 5, 3);
    let mut idx = PostFilterFlat::new();
    idx.build(vecs.len(), cats);
    let q = vec![0.0_f32; 16];
    let results = idx.search(|p: usize| key(l2_sq(&q, &vecs[p])), 10, &CategoryFilter(99));
    assert!(results.is_empty());
}

#[test]
fn pre_filter_brute_recall_one() {
    let (vecs, cats) = make_corpus(500, 32, 10, 4);
    let queries = make_queries(20, 32, 4);

    let mut ref_idx = PostFilterFlat::new();
    ref_idx.build(vecs.len(), cats.clone());
    let filter = CategoryFilter(0);
    let gt: Vec<Vec<usize>> = queries
        .iter()
        .map(|q| ref_idx.search(|p: usize| key(l2_sq(q, &vecs[p])), 5, &filter).into_iter().map(|r| r.0).collect())
        .collect();

    let mut idx = PreFilterBrute::new();
    idx.build(vecs.len(), cats);

    for (q, g) in queries.iter().zip(&gt) {
        let results = idx.search(|p: usize| key(l2_sq(q, &vecs[p])), 5, &filter);
        assert_eq!(recall_at_k(&results, g), 1.0, "PreFilterBrute must be exact");
    }
}

#[test]
fn pre_filter_brute_results_sorted_ascending() {
    let (vecs, cats) = make_corpus(200, 16, 3, 5);
    let mut idx = PreFilterBrute::new();
    idx.build(vecs.len(), cats);
    let q = vec![0.5_f32; 16];
    let results = idx.search(|p: usize| key(l2_sq(&q, &vecs[p])), 8, &CategoryFilter(1));
    for w in results.windows(2) {
        assert!(w[0].1 <= w[1].1, "results must be sorted by ascending L2²");
    }
}

#[test]
fn adaptive_planner_recall_one_at_low_selectivity() {
    let (vecs, cats) = make_corpus(500, 32, 100, 6);
    let queries = make_queries(10, 32, 6);
    let gt = ground_truth(&vecs, &cats, &queries, 5, 0);

    let mut planner = AdaptivePlanner::new(200);
    planner.build(cats, |i: usize, j: usize| key(l2_sq(&vecs[i], &vecs[j])));
    let filter = CategoryFilter(0);

    for (q, g) in queries.iter().zip(&gt) {
        let (results, strategy) = planner.search(|p: usize| key(l2_sq(q, &vecs[p])), 5, &filter);
        assert_eq!(strategy, Strategy::PreFilterBrute);
        assert_eq!(recall_at_k(&results, g), 1.0, "planner at 1% selectivity must return exact results");
    }
}

#[test]
fn adaptive_planner_recall_one_at_high_selectivity() {
    let (vecs, cats) = make_corpus(400, 32, 2, 7);
    let queries = make_queries(10, 32, 7);
    let gt = ground_truth(&vecs, &cats, &queries, 5, 0);

    let mut planner = AdaptivePlanner::new(200);
    planner.build(cats, |i: usize, j: usize| key(l2_sq(&vecs[i], &vecs[j])));
    let filter = CategoryFilter(0);

    for (q, g) in queries.iter().zip(&gt) {
        let (results, _) = planner.search(|p: usize| key(l2_sq(q, &vecs[p])), 5, &filter);
        assert_eq!(recall_at_k(&results, g), 1.0, "planner at 50% selectivity must return exact results");
    }
}

#[test]
fn acorn_expand_returns_at_most_k() {
    let (vecs, cats) = make_corpus(300, 16, 5, 8);
    let mut idx = AcornExpand::new(100);
    idx.build(cats, |i: usize, j: usize| key(l2_sq(&vecs[i], &vecs[j])));
    let q = vec![0.5_f32; 16];
    let results = idx.search(|p: usize| key(l2_sq(&q, &vecs[p])), 10, &CategoryFilter(0));
    assert!(results.len() <= 10);
}

#[test]
fn acorn_expand_recall_at_high_selectivity() {
    let (vecs, cats) = make_corpus(300, 16, 2, 9);
    let queries = make_queries(10, 16, 9);
    let gt = ground_truth(&vecs, &cats, &queries, 5, 0);

    let mut idx = AcornExpand::new(150);
    idx.build(cats, |i: usize, j: usize| key(l2_sq(&vecs[i], &vecs[j])));
    let filter = CategoryFilter(0);

    let recall: f32 = queries
        .iter()
        .zip(&gt)
        .map(|(q, g)| recall_at_k(&idx.search(|p: usize| key(l2_sq(q, &vecs[p])), 5, &filter), g))
        .sum::<f32>()
        / queries.len() as f32;

    assert!(recall > 0.3, "AcornExpand at 50% selectivity should find some results (got {recall})");
}

#[test]
fn strategy_tests_recall_at_k_perfect() {
    let results = vec![(1usize, key(0.1)), (2usize, key(0.2))];
    assert_eq!(recall_at_k(&results, &[1, 2]), 1.0);
}

#[test]
fn recall_at_k_zero() {
    let results = vec![(5usize, key(0.1))];
    assert_eq!(recall_at_k(&results, &[1, 2, 3]), 0.0);
}

#[test]
fn category_filter_matches_only_its_category() {
    let f = CategoryFilter(3);
    assert!(f.matches(3));
    assert!(!f.matches(4));
}

#[test]
fn estimator_counts_categories() {
    let mut est = SelectivityEstimator::new();
    est.record_all(&vec![1, 2, 1, 1]);
    est.record(7);
    assert_eq!(est.total(), 5);
    assert_eq!(est.matching(&CategoryFilter(1)), 3);
    assert_eq!(est.matching(&CategoryFilter(2)), 1);
    assert_eq!(est.matching(&CategoryFilter(9)), 0);
}

#[test]
fn routing_thresholds() {
    assert_eq!(route(0, 0), Strategy::PreFilterBrute);
    assert_eq!(route(49, 100), Strategy::PreFilterBrute);
    assert_eq!(route(50, 100), Strategy::PostFilterFlat);
    assert_eq!(route(100, 100), Strategy::PostFilterFlat);
    let mut est = SelectivityEstimator::new();
    est.record_all(&vec![0, 0, 1, 1]);
    assert_eq!(est.choose_strategy(&CategoryFilter(0)), Strategy::PostFilterFlat);
    assert_eq!(est.choose_strategy(&CategoryFilter(5)), Strategy::PreFilterBrute);
}

#[test]
fn routing_never_chooses_graph_expansion() {
    for total in 0..40usize {
        for n in 0..=total {
            assert_ne!(route(n, total), Strategy::AcornExpand);
        }
    }
}

#[test]
fn pre_and_post_filter_agree_exactly() {
    let (vecs, cats) = make_corpus(300, 8, 4, 21);
    let mut pre = PreFilterBrute::new();
    pre.build(vecs.len(), cats.clone());
    let mut post = PostFilterFlat::new();
    post.build(vecs.len(), cats);
    let q = vec![0.25_f32; 8];
    for c in 0..5u32 {
        let a = pre.search(|p: usize| key(l2_sq(&q, &vecs[p])), 7, &CategoryFilter(c));
        let b = post.search(|p: usize| key(l2_sq(&q, &vecs[p])), 7, &CategoryFilter(c));
        assert_eq!(a, b);
    }
}

#[test]
fn pre_filter_lists_ids_by_category() {
    let mut pre = PreFilterBrute::new();
    pre.build(5, vec![2, 0, 2, 1, 2]);
    assert_eq!(pre.ids_for(2), &[0, 2, 4]);
    assert_eq!(pre.ids_for(0), &[1]);
    assert!(pre.ids_for(9).is_empty());
}

#[test]
fn exact_search_orders_ties_by_id() {
    let mut post = PostFilterFlat::new();
    post.build(4, vec![0, 0, 0, 0]);
    let keys = [5u64, 3, 5, 3];
    let r = post.search(|p: usize| keys[p], 3, &CategoryFilter(0));
    assert_eq!(r, vec![(1, 3), (3, 3), (0, 5)]);
}

#[test]
fn knn_graph_neighbourhoods_are_nearest_in_sample() {
    let n = 30usize;
    let pos: Vec<u64> = (0..n as u64).map(|i| i * 10).collect();
    let g = KnnGraph::build(n, 3, |i: usize, j: usize| pos[i].abs_diff(pos[j]));
    assert_eq!(g.len(), n);
    for i in 0..n {
        assert_eq!(g.adj[i].len(), 3);
        assert!(!g.adj[i].contains(&i));
    }
    // With the whole corpus as the sample, the neighbours of 0 are 1, 2, 3.
    assert_eq!(g.adj[0], vec![1, 2, 3]);
}

#[test]
fn post_filter_ignores_categories_beyond_the_vectors() {
    let mut post = PostFilterFlat::new();
    post.build(3, vec![0, 1, 0, 0, 0]);
    let keys = [4u64, 1, 2];
    let r = post.search(|p: usize| keys[p], 5, &CategoryFilter(0));
    assert_eq!(r, vec![(2, 2), (0, 4)]);
    let mut pre = PreFilterBrute::new();
    pre.build(3, vec![0, 1, 0, 2, 2]);
    let r = pre.search(|p: usize| keys[p], 5, &CategoryFilter(0));
    assert_eq!(r, vec![(2, 2), (0, 4)]);
}
