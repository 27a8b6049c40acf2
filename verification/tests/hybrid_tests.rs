use std::collections::BTreeMap;
use vecsearch::hybrid::{BruteForce, HybridNSW, SearchMode};
use vecsearch::recall::count_in;

fn key(x: f32) -> u64 {
    if x.is_nan() {
        return u64::MAX;
    }
    let x = if x == 0.0 { 0.0 } else { x };
    let b = x.to_bits();
    let o = if b & 0x8000_0000 != 0 { !b } else { b | 0x8000_0000 };
    o as u64
}

#[derive(Clone)]
struct HybridVector {
    dense: Vec<f32>,
    sparse: BTreeMap<u32, f32>,
}

impl HybridVector {
    fn new(dense: Vec<f32>, sparse: BTreeMap<u32, f32>) -> Self {
        HybridVector { dense, sparse }
    }

    fn dense_l2(&self, other: &Self) -> f32 {
        self.dense.iter().zip(other.dense.iter()).map(|(a, b)| (a - b) * (a - b)).sum::<f32>().sqrt()
    }

    fn sparse_ip_dist(&self, other: &Self) -> f32 {
        let mut dot = 0.0f32;
        for (k, v) in &self.sparse {
            if let Some(ov) = other.sparse.get(k) {
                dot += v * ov;
            }
        }
        1.0 - dot
    }

    fn hybrid_dist(&self, other: &Self, alpha: f32) -> f32 {
        alpha * self.dense_l2(other) + (1.0 - alpha) * self.sparse_ip_dist(other)
    }
}

fn calibrate_alpha(sample: &[HybridVector]) -> f32 {
    let n = sample.len().min(128);
    if n < 4 {
        return 0.5;
    }
    let mut dense_d: Vec<f32> = Vec::new();
    let mut sparse_d: Vec<f32> = Vec::new();
    for i in 0..n {
        for j in (i + 1)..n {
            dense_d.push(sample[i].dense_l2(&sample[j]));
            sparse_d.push(sample[i].sparse_ip_dist(&sample[j]));
        }
    }
    let std_fn = |xs: &[f32]| -> f32 {
        let mean = xs.iter().sum::<f32>() / xs.len() as f32;
        let var = xs.iter().map(|x| (x - mean).powi(2)).sum::<f32>() / xs.len() as f32;
        var.sqrt()
    };
    let std_dense = std_fn(&dense_d);
    let std_sparse = std_fn(&sparse_d);
    if std_dense + std_sparse < 1e-9 {
        return 0.5;
    }
    (std_sparse / (std_dense + std_sparse)).clamp(0.15, 0.85)
}

fn toy_vec(dense: &[f32], sparse: &[(u32, f32)]) -> HybridVector {
    HybridVector::new(dense.to_vec(), sparse.iter().cloned().collect())
}

fn bf_search(data: &[HybridVector], query: &HybridVector, k: usize, alpha: f32) -> Vec<usize> {
    let bf = BruteForce::new(data.len());
    bf.search(|p: usize| key(data[p].hybrid_dist(query, alpha)), k)
}

fn build_nsw(data: &[HybridVector], m: usize, alpha: f32) -> HybridNSW {
    let mut nsw = HybridNSW::new(m);
    for id in 0..data.len() {
        let _ = id;
        nsw.insert(|i: usize, j: usize| key(data[i].hybrid_dist(&data[j], alpha)));
    }
    nsw
}

fn nsw_search(nsw: &HybridNSW, data: &[HybridVector], query: &HybridVector, k: usize, mode: SearchMode, alpha: f32) -> Vec<usize> {
    nsw.search(
        |p: usize| key(query.dense_l2(&data[p])),
        |p: usize| key(query.hybrid_dist(&data[p], alpha)),
        k,
        mode,
    )
}

fn recall_at_k(ground_truth: &[usize], retrieved: &[usize]) -> f32 {
    if ground_truth.is_empty() {
        return 1.0;
    }
    count_in(&retrieved.to_vec(), &ground_truth.to_vec()) as f32 / ground_truth.len() as f32
}

#[test]
fn brute_force_finds_nearest() {
    let data: Vec<HybridVector> = (0..20).map(|i| toy_vec(&[i as f32, 0.0], &[])).collect();
    let query = toy_vec(&[3.1, 0.0], &[]);
    let res = bf_search(&data, &query, 1, 1.0);
    assert_eq!(res[0], 3, "nearest should be index 3 (vec at x=3)");
}

#[test]
fn nsw_recall_better_than_random() {
    let data: Vec<HybridVector> = (0..100)
        .map(|i| {
            let v = vec![(i as f32) / 100.0, ((i * 7) % 100) as f32 / 100.0];
            let s: BTreeMap<u32, f32> = [(i as u32 % 10, 1.0)].iter().cloned().collect();
            HybridVector::new(v, s)
        })
        .collect();
    let query = HybridVector::new(vec![0.5, 0.5], BTreeMap::new());
    let gt = bf_search(&data, &query, 5, 0.5);
    let nsw = build_nsw(&data, 8, 0.5);
    let res = nsw_search(&nsw, &data, &query, 5, SearchMode::HybridFull, 0.5);
    let r = recall_at_k(&gt, &res);
    assert!(r > 0.4, "NSW recall@5 should be > 40%, got {r:.2}");
}

#[test]
fn two_stage_recall_comparable_to_full() {
    let data: Vec<HybridVector> = (0..200)
        .map(|i| {
            let v = vec![(i as f32) / 200.0, ((i * 3) % 200) as f32 / 200.0];
            let s: BTreeMap<u32, f32> = [(i as u32 % 20, 1.0)].iter().cloned().collect();
            HybridVector::new(v, s)
        })
        .collect();
    let alpha = calibrate_alpha(&data);
    let query = HybridVector::new(vec![0.25, 0.75], BTreeMap::new());
    let gt = bf_search(&data, &query, 10, alpha);
    let nsw = build_nsw(&data, 12, alpha);
    let r_full = recall_at_k(&gt, &nsw_search(&nsw, &data, &query, 10, SearchMode::HybridFull, alpha));
    let r_two = recall_at_k(
        &gt,
        &nsw_search(&nsw, &data, &query, 10, SearchMode::TwoStage { candidates_factor: 8 }, alpha),
    );
    assert!(r_full > 0.4, "HybridFull recall={r_full:.2}");
    assert!(r_two > 0.4, "TwoStage recall={r_two:.2}");
}

#[test]
fn insert_links_nearest_earlier_and_back() {
    let pos: Vec<u64> = vec![0, 10, 20, 30, 40];
    let mut nsw = HybridNSW::new(2);
    for _ in 0..5 {
        nsw.insert(|i: usize, j: usize| pos[i].abs_diff(pos[j]));
    }
    assert_eq!(nsw.len(), 5);
    assert_eq!(nsw.adj[4], vec![3, 2]);
    assert!(nsw.adj[3].contains(&4));
    assert!(nsw.adj[2].contains(&4));
    assert!(!nsw.adj[0].is_empty());
}

#[test]
fn search_on_empty_graph_is_empty() {
    let nsw = HybridNSW::new(4);
    let r = nsw.search(|_p: usize| 0u64, |_p: usize| 0u64, 3, SearchMode::HybridFull);
    assert!(r.is_empty());
}

#[test]
fn line_graph_search_finds_exact_neighbours() {
    let pos: Vec<u64> = (0..30u64).map(|i| i * 10).collect();
    let mut nsw = HybridNSW::new(3);
    for _ in 0..30 {
        nsw.insert(|i: usize, j: usize| pos[i].abs_diff(pos[j]));
    }
    let q = 123u64;
    let r = nsw.search(|p: usize| pos[p].abs_diff(q), |p: usize| pos[p].abs_diff(q), 3, SearchMode::HybridFull);
    assert_eq!(r, vec![12, 13, 11]);
}

#[test]
fn brute_force_ties_keep_position_order() {
    let bf = BruteForce::new(4);
    assert_eq!(bf.len(), 4);
    let keys = [2u64, 1, 2, 1];
    assert_eq!(bf.search(|p: usize| keys[p], 3), vec![1, 3, 0]);
}

#[test]
fn hybrid_graph_links_are_symmetric_without_repeats_or_self_loops() {
    let pos: Vec<u64> = (0..40u64).map(|i| (i * 37) % 101).collect();
    let mut nsw = HybridNSW::new(3);
    for _ in 0..pos.len() {
        nsw.insert(|a: usize, b: usize| pos[a].abs_diff(pos[b]));
    }
    let n = nsw.adj.len();
    for i in 0..n {
        let l = &nsw.adj[i];
        for (a, &x) in l.iter().enumerate() {
            assert!(x < n && x != i);
            assert!(!l[a + 1..].contains(&x));
            assert!(nsw.adj[x].contains(&i));
        }
    }
}
