use rand::rngs::SmallRng;
use rand::{Rng, SeedableRng};
use vecsearch::maxsim::{CentroidIndex, FdeIndex, LinearIndex};

type MultiVec = Vec<Vec<f32>>;

fn key(x: f32) -> u64 {
    if x.is_nan() {
        return u64::MAX;
    }
    let x = if x == 0.0 { 0.0 } else { x };
    let b = x.to_bits();
    let o = if b & 0x8000_0000 != 0 { !b } else { b | 0x8000_0000 };
    o as u64
}

fn dot(a: &[f32], b: &[f32]) -> f32 {
    a.iter().zip(b.iter()).map(|(x, y)| x * y).sum()
}

fn l2sq(a: &[f32], b: &[f32]) -> f32 {
    a.iter().zip(b.iter()).map(|(x, y)| (x - y) * (x - y)).sum()
}

fn maxsim(query: &MultiVec, doc: &MultiVec) -> f32 {
    query.iter().map(|q| doc.iter().map(|d| dot(q, d)).fold(f32::NEG_INFINITY, f32::max)).sum()
}

fn normalize(v: &mut Vec<f32>) {
    let n: f32 = v.iter().map(|x| x * x).sum::<f32>().sqrt();
    if n > 1e-9 {
        v.iter_mut().for_each(|x| *x /= n);
    }
}

fn make_doc(seed: u32, n_tokens: usize, dim: usize) -> MultiVec {
    (0..n_tokens)
        .map(|t| {
            let mut v: Vec<f32> =
                (0..dim).map(|d| (seed as f32 * 1.3 + t as f32 * 0.5 + d as f32 * 0.07).sin()).collect();
            normalize(&mut v);
            v
        })
        .collect()
}

fn nearest_centroid(v: &[f32], centroids: &[Vec<f32>]) -> usize {
    centroids
        .iter()
        .enumerate()
        .map(|(i, c)| (i, l2sq(v, c)))
        .min_by(|a, b| a.1.partial_cmp(&b.1).unwrap_or(std::cmp::Ordering::Equal))
        .map(|(i, _)| i)
        .unwrap_or(0)
}

fn kmeans(vecs: &[&Vec<f32>], k: usize, max_iters: usize, rng: &mut SmallRng) -> Vec<Vec<f32>> {
    let n = vecs.len();
    let d = vecs[0].len();
    let step = (n / k).max(1);
    let mut centroids: Vec<Vec<f32>> = (0..k).map(|i| vecs[(i * step) % n].clone()).collect();
    let mut assignments = vec![0usize; n];
    for _ in 0..max_iters {
        let mut changed = false;
        for (i, v) in vecs.iter().enumerate() {
            let c = nearest_centroid(v, &centroids);
            if c != assignments[i] {
                assignments[i] = c;
                changed = true;
            }
        }
        if !changed {
            break;
        }
        let mut new_c = vec![vec![0.0f32; d]; k];
        let mut counts = vec![0usize; k];
        for (i, &a) in assignments.iter().enumerate() {
            for (j, &x) in vecs[i].iter().enumerate() {
                new_c[a][j] += x;
            }
            counts[a] += 1;
        }
        for (c, &cnt) in new_c.iter_mut().zip(&counts) {
            if cnt > 0 {
                c.iter_mut().for_each(|x| *x /= cnt as f32);
            } else {
                *c = vecs[rng.gen_range(0..n)].clone();
            }
        }
        centroids = new_c;
    }
    centroids
}

fn gaussian_sample(rng: &mut SmallRng) -> f32 {
    let u1: f32 = rng.gen::<f32>().max(1e-10);
    let u2: f32 = rng.gen::<f32>();
    (-2.0f32 * u1.ln()).sqrt() * (2.0f32 * std::f32::consts::PI * u2).cos()
}

fn project(projection: &[Vec<f32>], proj_dim: usize, mv: &MultiVec) -> Vec<f32> {
    let mut out = vec![0.0f32; proj_dim];
    for v in mv {
        for (r, row) in projection.iter().enumerate() {
            out[r] += dot(v, row);
        }
    }
    let inv_n = 1.0 / mv.len() as f32;
    out.iter_mut().for_each(|x| *x *= inv_n);
    out
}

#[test]
fn test_linear_self_retrieval() {
    let dim = 16;
    let mut idx = LinearIndex::new();
    let mut docs = Vec::new();
    for i in 0..10usize {
        idx.insert(i);
        docs.push(make_doc(i as u32, 4, dim));
    }
    let query = make_doc(0, 4, dim);
    let results = idx.search(|d: usize| key(maxsim(&query, &docs[d])), 1);
    assert_eq!(results[0].0, 0, "linear should retrieve itself first");
}

#[test]
fn test_centroid_returns_results() {
    let dim = 16;
    let mut idx = CentroidIndex::new(4, 2);
    let mut docs = Vec::new();
    let mut tokens: Vec<Vec<f32>> = Vec::new();
    for i in 0..20usize {
        let doc = make_doc(i as u32, 4, dim);
        idx.insert(i, doc.len());
        tokens.extend(doc.iter().cloned());
        docs.push(doc);
    }
    let k = idx.cells_to_build();
    let refs: Vec<&Vec<f32>> = tokens.iter().collect();
    let mut rng = SmallRng::seed_from_u64(42);
    let centroids = kmeans(&refs, k, 25, &mut rng);
    let assign: Vec<usize> = tokens.iter().map(|t| nearest_centroid(t, &centroids)).collect();
    idx.build(&assign);

    let query = make_doc(0, 4, dim);
    let results = idx.search(
        query.len(),
        |t: usize, c: usize| key(dot(&query[t], &centroids[c])),
        |d: usize| key(maxsim(&query, &docs[d])),
        5,
    );
    assert!(!results.is_empty());
    assert!(results[0].0 < 20);
}

#[test]
fn test_fde_returns_results() {
    let dim = 16;
    let proj_dim = 32;
    let mut idx = FdeIndex::new(proj_dim, 10);
    let mut rng = SmallRng::seed_from_u64(99);
    let scale = (1.0 / proj_dim as f32).sqrt();
    let projection: Vec<Vec<f32>> =
        (0..proj_dim).map(|_| (0..dim).map(|_| gaussian_sample(&mut rng) * scale).collect()).collect();
    let mut docs = Vec::new();
    let mut projs = Vec::new();
    for i in 0..20usize {
        let doc = make_doc(i as u32, 4, dim);
        projs.push(project(&projection, proj_dim, &doc));
        idx.insert(i);
        docs.push(doc);
    }
    let query = make_doc(0, 4, dim);
    let qp = project(&projection, proj_dim, &query);
    let results = idx.search(|d: usize| key(dot(&qp, &projs[d])), |d: usize| key(maxsim(&query, &docs[d])), 5);
    assert!(!results.is_empty());
    assert!(results[0].0 < 20);
}

#[test]
fn centroid_build_lists_each_document_once_per_cell() {
    let mut idx = CentroidIndex::new(3, 1);
    idx.insert(70, 2);
    idx.insert(71, 3);
    assert_eq!(idx.cells_to_build(), 3);
    // Tokens: doc 0 → cells 1, 1; doc 1 → cells 0, 1, 0.
    idx.build(&vec![1, 1, 0, 1, 0]);
    // Cell 0 lists doc 1; cell 1 lists doc 0 then doc 1; cell 2 is empty.
    let r = idx.candidates(1, &|_t: usize, c: usize| [0u64, 5, 1][c]);
    assert_eq!(r, vec![0, 1]);
    let r = idx.candidates(1, &|_t: usize, c: usize| [5u64, 0, 1][c]);
    assert_eq!(r, vec![1]);
    let r = idx.candidates(1, &|_t: usize, c: usize| [0u64, 1, 5][c]);
    assert!(r.is_empty());
}

#[test]
fn centroid_search_reranks_candidates() {
    let mut idx = CentroidIndex::new(2, 2);
    idx.insert(7, 1);
    idx.insert(8, 1);
    idx.insert(9, 1);
    idx.build(&vec![0, 1, 0]);
    let score = [3u64, 9, 4];
    let r = idx.search(1, |_t: usize, _c: usize| 0u64, |d: usize| score[d], 2);
    assert_eq!(r, vec![(8, 9), (9, 4)]);
}

#[test]
fn fde_keeps_n_candidates_then_reranks() {
    let mut idx = FdeIndex::new(4, 2);
    for i in 0..4 {
        idx.insert(i);
    }
    let proj = [10u64, 20, 30, 40];
    let score = [100u64, 90, 1, 2];
    // Candidates are positions 3 and 2; re-ranked by score.
    let r = idx.search(|d: usize| proj[d], |d: usize| score[d], 5);
    assert_eq!(r, vec![(3, 2), (2, 1)]);
}

#[test]
fn linear_index_default_is_empty() {
    let idx = LinearIndex::default();
    assert!(idx.is_empty());
    assert_eq!(idx.len(), 0);
}

#[test]
fn fde_with_all_candidates_matches_linear_scores() {
    let mut fde = FdeIndex::new(2, 10);
    let mut lin = LinearIndex::new();
    for i in 0..6 {
        fde.insert(i);
        lin.insert(i);
    }
    let proj = [3u64, 1, 4, 1, 5, 9];
    let score = [2u64, 7, 1, 8, 2, 8];
    let a = fde.search(|d: usize| proj[d], |d: usize| score[d], 4);
    let b = lin.search(|d: usize| score[d], 4);
    let ka: Vec<u64> = a.iter().map(|e| e.1).collect();
    let kb: Vec<u64> = b.iter().map(|e| e.1).collect();
    assert_eq!(ka, kb);
    assert_eq!(kb, vec![8, 8, 7, 2]);
}

#[test]
fn centroid_probing_every_cell_matches_linear_scores() {
    let mut cen = CentroidIndex::new(3, 3);
    let mut lin = LinearIndex::new();
    let tokens = [2usize, 1, 3, 1, 2];
    for (i, &t) in tokens.iter().enumerate() {
        cen.insert(100 + i, t);
        lin.insert(100 + i);
    }
    // Nine tokens, each assigned to one of three cells.
    cen.build(&vec![0, 2, 1, 2, 0, 1, 1, 0, 2]);
    let score = [4u64, 9, 1, 9, 6];
    let cs = |t: usize, c: usize| ((t * 7 + c * 3) % 5) as u64;
    let a = cen.search(2, cs, |d: usize| score[d], 4);
    let b = lin.search(|d: usize| score[d], 4);
    let ka: Vec<u64> = a.iter().map(|e| e.1).collect();
    let kb: Vec<u64> = b.iter().map(|e| e.1).collect();
    assert_eq!(ka, kb);
    assert_eq!(kb, vec![9, 9, 6, 4]);
}

#[test]
fn centroid_rebuild_keeps_earlier_documents() {
    let mut idx = CentroidIndex::new(1, 1);
    idx.insert(10, 1);
    idx.build(&vec![0]);
    idx.insert(11, 1);
    // Every token inserted so far is assigned again.
    idx.build(&vec![0, 0]);
    let r = idx.candidates(1, &|_t: usize, _c: usize| 0u64);
    assert_eq!(r, vec![0, 1]);
}

#[test]
fn centroid_full_probe_matches_linear_over_documents_with_tokens() {
    let mut cen = CentroidIndex::new(2, 2);
    let tokens = [2usize, 0, 1, 3, 0];
    for (i, &t) in tokens.iter().enumerate() {
        cen.insert(100 + i, t);
    }
    cen.build(&vec![0, 1, 1, 0, 1, 0]);
    let score = [4u64, 9, 1, 7, 8];
    let a = cen.search(1, |_t: usize, c: usize| c as u64, |d: usize| score[d], 5);
    // A linear scan over the documents that hold a token: positions 0, 2 and 3.
    let held = [0usize, 2, 3];
    let mut lin = LinearIndex::new();
    for &p in &held {
        lin.insert(100 + p);
    }
    let b = lin.search(|d: usize| score[held[d]], 5);
    assert_eq!(a, b);
    assert_eq!(a, vec![(103, 7), (100, 4), (102, 1)]);
}
