use rand::rngs::SmallRng;
use rand::{Rng, SeedableRng};
use vecsearch::recall::count_in;
use vecsearch::speculative::{dot_i8_fits, dot_i8_raw, topk, LinearF32Index, LinearI8Index, SpecSearch};

fn key(x: f32) -> u64 {
    if x.is_nan() {
        return u64::MAX;
    }
    let x = if x == 0.0 { 0.0 } else { x };
    let b = x.to_bits();
    let o = if b & 0x8000_0000 != 0 { !b } else { b | 0x8000_0000 };
    o as u64
}

fn quantize(v: &[f32]) -> Vec<i8> {
    v.iter().map(|&x| (x * 127.0).clamp(-127.0, 127.0) as i8).collect()
}

fn dot_f32(a: &[f32], b: &[f32]) -> f32 {
    a.iter().zip(b.iter()).map(|(x, y)| x * y).sum()
}

fn normalize(v: &mut [f32]) {
    let n: f32 = v.iter().map(|x| x * x).sum::<f32>().sqrt();
    if n > 1e-9 {
        v.iter_mut().for_each(|x| *x /= n);
    }
}

fn random_unit_vec(rng: &mut SmallRng, dim: usize) -> Vec<f32> {
    let mut v: Vec<f32> = (0..dim).map(|_| rng.gen_range(-1.0f32..1.0)).collect();
    normalize(&mut v);
    v
}

fn make_corpus(n: usize, dim: usize, seed: u64) -> Vec<Vec<f32>> {
    let mut rng = SmallRng::seed_from_u64(seed);
    (0..n).map(|_| random_unit_vec(&mut rng, dim)).collect()
}

fn recall_at_k(approx: &[(usize, u64)], ground_truth: &[(usize, u64)]) -> f32 {
    let k = approx.len().min(ground_truth.len());
    if k == 0 {
        return 0.0;
    }
    let gt: Vec<usize> = ground_truth.iter().take(k).map(|(id, _)| *id).collect();
    let ap: Vec<usize> = approx.iter().take(k).map(|(id, _)| *id).collect();
    count_in(&ap, &gt) as f32 / k as f32
}

#[test]
fn test_all_variants() {
    let dim = 64;
    let n = 200;
    let corpus = make_corpus(n, dim, 42);

    // Exact f32 scan.
    let mut f = LinearF32Index::new(dim);
    for id in 0..n {
        f.insert(id);
    }
    assert_eq!(f.dim(), dim);
    let q = &corpus[0];
    let results = f.search(|p: usize| key(dot_f32(q, &corpus[p])), 1);
    assert!(!results.is_empty(), "linear-f32: empty results");
    assert_eq!(results[0].0, 0, "linear-f32: self not top-1");
    let results10 = f.search(|p: usize| key(dot_f32(q, &corpus[p])), 10);
    for w in results10.windows(2) {
        assert!(w[0].1 >= w[1].1, "linear-f32: results not sorted");
    }

    // Int8 scan.
    let mut i8i = LinearI8Index::new(dim);
    for (id, v) in corpus.iter().enumerate() {
        i8i.insert(id, quantize(v));
    }
    assert_eq!(i8i.dim(), dim);
    let qq = quantize(q);
    let results = i8i.search(&qq, 1);
    assert!(!results.is_empty(), "linear-i8: empty results");
    assert_eq!(results[0].0, 0, "linear-i8: self not top-1");
    let results10 = i8i.search(&qq, 10);
    for w in results10.windows(2) {
        assert!(w[0].1 >= w[1].1, "linear-i8: results not sorted");
    }

    // Speculative search.
    let mut s = SpecSearch::new(dim, 4);
    for (id, v) in corpus.iter().enumerate() {
        s.insert(id, quantize(v));
    }
    assert_eq!(s.dim(), dim);
    let results = s.search(&qq, |p: usize| key(dot_f32(q, &corpus[p])), 1);
    assert!(!results.is_empty(), "spec-search: empty results");
    assert_eq!(results[0].0, 0, "spec-search: self not top-1");
    let results10 = s.search(&qq, |p: usize| key(dot_f32(q, &corpus[p])), 10);
    for w in results10.windows(2) {
        assert!(w[0].1 >= w[1].1, "spec-search: results not sorted");
    }
}

#[test]
fn test_recall_spec_vs_linear() {
    let dim = 64;
    let n = 500;
    let corpus = make_corpus(n, dim, 99);

    let mut gt_idx = LinearF32Index::new(dim);
    let mut spec_idx = SpecSearch::new(dim, 5);
    for (id, v) in corpus.iter().enumerate() {
        gt_idx.insert(id);
        spec_idx.insert(id, quantize(v));
    }

    let mut rng = SmallRng::seed_from_u64(7);
    let mut total_recall = 0.0f32;
    let queries = 50;
    for _ in 0..queries {
        let mut q = (0..dim).map(|_| rng.gen_range(-1.0f32..1.0)).collect::<Vec<_>>();
        normalize(&mut q);
        let gt = gt_idx.search(|p: usize| key(dot_f32(&q, &corpus[p])), 10);
        let sp = spec_idx.search(&quantize(&q), |p: usize| key(dot_f32(&q, &corpus[p])), 10);
        total_recall += recall_at_k(&sp, &gt);
    }
    let avg_recall = total_recall / queries as f32;
    assert!(avg_recall >= 0.80, "recall@10 too low: {:.3}", avg_recall);
}

#[test]
fn raw_dot_over_common_length() {
    assert_eq!(dot_i8_raw(&vec![1, -2, 3], &vec![4, 5]), 4 - 10);
    assert_eq!(dot_i8_raw(&vec![-128, -128], &vec![-128, 127]), 16384 - 16256);
    assert_eq!(dot_i8_raw(&vec![], &vec![7]), 0);
}

#[test]
fn int8_index_returns_ids_and_raw_dots_best_first() {
    let mut idx = LinearI8Index::new(2);
    idx.insert(10, vec![1, 0]);
    idx.insert(11, vec![0, 1]);
    idx.insert(12, vec![1, 1]);
    assert_eq!(idx.len(), 3);
    let r = idx.search(&vec![3, 2], 2);
    assert_eq!(r, vec![(12, 5), (10, 3)]);
    // Negative scores rank below positive ones.
    let r = idx.search(&vec![-1, -1], 3);
    assert_eq!(r, vec![(10, -1), (11, -1), (12, -2)]);
}

#[test]
fn topk_keeps_largest_keys_in_order() {
    let r = topk(vec![(0, 5), (1, 9), (2, 5), (3, 1)], 3);
    assert_eq!(r, vec![(1, 9), (0, 5), (2, 5)]);
    assert!(topk(vec![(0, 5)], 0).is_empty());
}

#[test]
fn spec_search_drafts_then_verifies() {
    let mut s = SpecSearch::new(1, 1);
    for id in 0..4 {
        s.insert(100 + id, vec![(4 - id as i8) * 10]);
    }
    // Draft keeps the single best int8 score (position 0), whatever its exact score.
    let exact = [1u64, 50, 60, 70];
    let r = s.search(&vec![1], |p: usize| exact[p], 1);
    assert_eq!(r, vec![(100, 1)]);
    // With a larger k the draft holds two, and verification reorders them.
    let r = s.search(&vec![1], |p: usize| exact[p], 2);
    assert_eq!(r, vec![(101, 50), (100, 1)]);
}

#[test]
fn full_draft_gives_exact_scores() {
    let dim = 16;
    let corpus = make_corpus(60, dim, 5);
    let mut exact = LinearF32Index::new(dim);
    let mut spec = SpecSearch::new(dim, 60);
    for (id, v) in corpus.iter().enumerate() {
        exact.insert(id);
        spec.insert(id, quantize(v));
    }
    let q = &corpus[7];
    let a = exact.search(|p: usize| key(dot_f32(q, &corpus[p])), 8);
    let b = spec.search(&quantize(q), |p: usize| key(dot_f32(q, &corpus[p])), 8);
    let ka: Vec<u64> = a.iter().map(|e| e.1).collect();
    let kb: Vec<u64> = b.iter().map(|e| e.1).collect();
    assert_eq!(ka, kb);
}

#[test]
fn i8_dot_overflow_is_detected_only_when_a_sum_overflows() {
    let long = vec![-128i8; 140_000];
    assert!(!dot_i8_fits(&long, &long));
    let alternating: Vec<i8> = (0..140_000).map(|i| if i % 2 == 0 { 127 } else { -127 }).collect();
    let ones = vec![127i8; 140_000];
    assert!(dot_i8_fits(&alternating, &ones));
    assert_eq!(dot_i8_raw(&alternating, &ones), 0);
    assert!(dot_i8_fits(&vec![1, 2], &vec![3]));
}

#[test]
fn empty_i8_index_searches_any_query() {
    let idx = LinearI8Index::new(4);
    let q = vec![-128i8; 200_000];
    assert!(idx.dots_fit(&q));
    assert!(idx.search(&q, 5).is_empty());
}
