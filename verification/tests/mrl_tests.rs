use rand::rngs::SmallRng;
use rand::{Rng, SeedableRng};
use vecsearch::mrl::{CascadeConfig, FlatIndex, MrlCascadedIndex};
use vecsearch::recall::{count_distinct_u64, count_in_u64};

fn key(x: f32) -> u64 {
    if x.is_nan() {
        return u64::MAX;
    }
    let x = if x == 0.0 { 0.0 } else { x };
    let b = x.to_bits();
    let o = if b & 0x8000_0000 != 0 { !b } else { b | 0x8000_0000 };
    o as u64
}

fn unkey(k: u64) -> f32 {
    let o = k as u32;
    let b = if o & 0x8000_0000 != 0 { o & 0x7fff_ffff } else { !o };
    f32::from_bits(b)
}

fn l2sq(a: &[f32], b: &[f32]) -> f32 {
    a.iter().zip(b).map(|(x, y)| (x - y).powi(2)).sum()
}

fn make_random_vectors(n: usize, dim: usize, seed: u64) -> Vec<Vec<f32>> {
    let mut rng = SmallRng::seed_from_u64(seed);
    (0..n).map(|_| (0..dim).map(|_| rng.gen::<f32>()).collect()).collect()
}

fn make_mrl_vectors(n: usize, full_dim: usize, n_clusters: usize, signal_weight: f32, seed: u64) -> Vec<Vec<f32>> {
    let mut rng = SmallRng::seed_from_u64(seed);
    let centers: Vec<Vec<f32>> = (0..n_clusters).map(|_| (0..full_dim).map(|_| rng.gen::<f32>()).collect()).collect();
    (0..n)
        .map(|_| {
            let c = &centers[rng.gen_range(0..n_clusters)];
            (0..full_dim).map(|d| signal_weight * c[d] + (1.0 - signal_weight) * rng.gen::<f32>()).collect()
        })
        .collect()
}

fn recall_at_k(ground_truth: &[(u64, u64)], results: &[(u64, u64)], k: usize) -> f64 {
    let gt: Vec<u64> = ground_truth.iter().take(k).map(|(id, _)| *id).collect();
    let res: Vec<u64> = results.iter().take(k).map(|(id, _)| *id).collect();
    let found = count_in_u64(&res, &gt);
    found as f64 / k.min(count_distinct_u64(&gt)) as f64
}

#[test]
fn test_flat_index_exact_recall() {
    let dim = 128;
    let n = 500;
    let vecs = make_random_vectors(n, dim, 42);
    let mut idx = FlatIndex::new(dim);
    for (i, v) in vecs.iter().enumerate() {
        idx.insert(i as u64, v.len());
    }
    let query = vecs[0].clone();
    let results = idx.search_at_dim(dim, 5, |p: usize| key(l2sq(&query[..dim], &vecs[p][..dim])));
    assert_eq!(results[0].0, 0, "first result must be query vector itself");
    assert!(unkey(results[0].1) < 1e-6, "self-distance must be ~0");
}

#[test]
fn test_cascade_recall_above_threshold() {
    let full_dim = 256;
    let n = 1000;
    let k = 10;
    let vecs = make_mrl_vectors(n, full_dim, 20, 0.85, 7);
    let config = CascadeConfig { coarse_dim: 64, oversample: 10, fine_dim: full_dim };
    let mut idx = MrlCascadedIndex::new(full_dim, config);
    for (i, v) in vecs.iter().enumerate() {
        idx.insert(i as u64, v.len());
    }
    let query = make_mrl_vectors(1, full_dim, 20, 0.85, 99)[0].clone();
    let ground_truth = idx.search_full(k, |p: usize| key(l2sq(&query, &vecs[p])));
    let cascade_results = idx.search(
        k,
        |p: usize| key(l2sq(&query[..64], &vecs[p][..64])),
        |p: usize| key(l2sq(&query[..full_dim], &vecs[p][..full_dim])),
    );
    let recall = recall_at_k(&ground_truth, &cascade_results, k);
    assert!(recall >= 0.70, "recall@{k} = {recall:.2} below 0.70 (MRL-structured data, oversample=10)");
}

#[test]
fn test_rescore_subset() {
    let dim = 64;
    let n = 100;
    let vecs = make_random_vectors(n, dim, 13);
    let mut idx = FlatIndex::new(dim);
    for (i, v) in vecs.iter().enumerate() {
        idx.insert(i as u64, v.len());
    }
    let query = vecs[5].clone();
    let coarse = idx.search_at_dim(32, 20, |p: usize| key(l2sq(&query[..32], &vecs[p][..32])));
    let fine = idx.rescore(&coarse, dim, 5, |p: usize| key(l2sq(&query[..dim], &vecs[p][..dim])));
    assert_eq!(fine.len(), 5);
    assert!(fine.iter().any(|(id, _)| *id == 5));
}

#[test]
fn search_orders_ties_by_id() {
    let mut idx = FlatIndex::new(2);
    for id in [30u64, 10, 20, 40] {
        idx.insert(id, 2);
    }
    assert_eq!(idx.len(), 4);
    let keys = [5u64, 5, 5, 1];
    let r = idx.search_at_dim(1, 3, |p: usize| keys[p]);
    assert_eq!(r, vec![(40, 1), (10, 5), (20, 5)]);
}

#[test]
fn rescore_skips_unknown_ids_and_keeps_candidate_order_on_ties() {
    let mut idx = FlatIndex::new(1);
    for id in [7u64, 8, 7] {
        idx.insert(id, 1);
    }
    let keys = [4u64, 4, 0];
    // Id 7 resolves to its first position (key 4); id 99 is not stored.
    let r = idx.rescore(&vec![(8, 0), (99, 0), (7, 0)], 1, 5, |p: usize| keys[p]);
    assert_eq!(r, vec![(8, 4), (7, 4)]);
}

#[test]
fn cascade_rescores_the_oversampled_candidates() {
    let config = CascadeConfig { coarse_dim: 1, oversample: 2, fine_dim: 2 };
    let mut idx = MrlCascadedIndex::new(2, config);
    for id in 0..5u64 {
        idx.insert(id, 2);
    }
    assert_eq!(idx.len(), 5);
    let coarse = [0u64, 1, 2, 3, 4];
    let fine = [9u64, 8, 7, 6, 0];
    // k = 1: the coarse pass keeps ids 0 and 1; the fine pass prefers 1.
    let r = idx.search(1, |p: usize| coarse[p], |p: usize| fine[p]);
    assert_eq!(r, vec![(1, 8)]);
    // The full search sees id 4.
    assert_eq!(idx.search_full(1, |p: usize| fine[p]), vec![(4, 0)]);
}

#[test]
fn empty_index_reports_empty() {
    let idx = FlatIndex::new(8);
    assert!(idx.is_empty());
    assert_eq!(idx.full_dim(), 8);
}

#[test]
fn full_oversample_gives_full_search_distances() {
    let vecs = make_random_vectors(40, 16, 77);
    let config = CascadeConfig { coarse_dim: 4, oversample: 10, fine_dim: 16 };
    let mut idx = MrlCascadedIndex::new(16, config);
    for (i, v) in vecs.iter().enumerate() {
        idx.insert((i as u64) * 7 + 3, v.len());
    }
    let q = make_random_vectors(1, 16, 78)[0].clone();
    let cascade = idx.search(
        5,
        |p: usize| key(l2sq(&q[..4], &vecs[p][..4])),
        |p: usize| key(l2sq(&q, &vecs[p])),
    );
    let full = idx.search_full(5, |p: usize| key(l2sq(&q, &vecs[p])));
    let a: Vec<u64> = cascade.iter().map(|e| e.1).collect();
    let b: Vec<u64> = full.iter().map(|e| e.1).collect();
    assert_eq!(a, b);
}
