use rand::rngs::SmallRng;
use rand::{Rng, SeedableRng};
use vecsearch::pdx::{nearest_pairs, ChunkedColumnarIndex, ColumnarIndex, RowMajorIndex};
use vecsearch::recall::count_in_u64;

fn key(x: f32) -> u64 {
    if x.is_nan() {
        return u64::MAX;
    }
    let x = if x == 0.0 { 0.0 } else { x };
    let b = x.to_bits();
    let o = if b & 0x8000_0000 != 0 { !b } else { b | 0x8000_0000 };
    o as u64
}

fn random_vecs(n: usize, dim: usize, seed: u64) -> Vec<Vec<f32>> {
    let mut rng = SmallRng::seed_from_u64(seed);
    (0..n).map(|_| (0..dim).map(|_| rng.gen::<f32>()).collect()).collect()
}

fn l2sq(a: &[f32], b: &[f32]) -> f32 {
    a.iter().zip(b).map(|(x, y)| (x - y).powi(2)).sum()
}

/// The columnar kernel: accumulate dimension by dimension.
fn l2sq_columnar(query: &[f32], columns: &[Vec<f32>], n: usize) -> Vec<f32> {
    let mut acc = vec![0.0f32; n];
    for (d, &qd) in query.iter().enumerate() {
        let col = &columns[d];
        for i in 0..n {
            let diff = qd - col[i];
            acc[i] += diff * diff;
        }
    }
    acc
}

fn recall_at_k(ground_truth: &[(u64, u64)], result: &[(u64, u64)], k: usize) -> f64 {
    let gt: Vec<u64> = ground_truth.iter().take(k).map(|(id, _)| *id).collect();
    let res: Vec<u64> = result.iter().take(k).map(|(id, _)| *id).collect();
    count_in_u64(&res, &gt) as f64 / k as f64
}

#[test]
fn row_and_col_agree_on_nearest_neighbour() {
    let vecs = random_vecs(500, 64, 1);
    let query: Vec<f32> = random_vecs(1, 64, 99)[0].clone();

    let mut row = RowMajorIndex::new(64);
    let mut col = ColumnarIndex::new(64);
    for (i, v) in vecs.iter().enumerate() {
        row.insert(i as u64, v.len());
        col.insert(i as u64, v.len());
    }
    let columns: Vec<Vec<f32>> = (0..64).map(|d| vecs.iter().map(|v| v[d]).collect()).collect();
    let col_dists = l2sq_columnar(&query, &columns, vecs.len());

    let r_row = row.search(10, |p: usize| key(l2sq(&query, &vecs[p])));
    let r_col = col.search(10, |p: usize| key(col_dists[p]));
    assert_eq!(r_row.len(), r_col.len());
    assert_eq!(r_row[0].0, r_col[0].0, "top-1 id differs");
    assert!((recall_at_k(&r_row, &r_col, 10) - 1.0).abs() < 1e-9);
}

/// A tiled index with the vectors it holds.
struct Chunked {
    idx: ChunkedColumnarIndex,
    vecs: Vec<Vec<f32>>,
}

impl Chunked {
    fn new(dim: usize, tile_size: usize) -> Self {
        Chunked { idx: ChunkedColumnarIndex::new(dim, tile_size), vecs: Vec::new() }
    }

    fn insert(&mut self, id: u64, v: &[f32]) {
        self.idx.insert(id, v.len());
        self.vecs.push(v.to_vec());
    }

    fn search(&self, query: &[f32], k: usize, prune_dims: usize) -> Vec<(u64, u64)> {
        let pdims = prune_dims.min(self.idx.dim);
        self.idx.search(
            k,
            prune_dims,
            |p: usize| key(l2sq(&query[..pdims], &self.vecs[p][..pdims])),
            |p: usize| key(l2sq(query, &self.vecs[p])),
            key(f32::MAX),
        )
    }
}

#[test]
fn chunked_index_top1_matches_row_major() {
    let vecs = random_vecs(1000, 32, 7);
    let query: Vec<f32> = random_vecs(1, 32, 42)[0].clone();
    let mut row = RowMajorIndex::new(32);
    let mut chunked = Chunked::new(32, 256);
    for (i, v) in vecs.iter().enumerate() {
        row.insert(i as u64, v.len());
        chunked.insert(i as u64, v);
    }
    let r_row = row.search(1, |p: usize| key(l2sq(&query, &vecs[p])));
    let r_chunked = chunked.search(&query, 1, 0);
    assert_eq!(r_row[0].0, r_chunked[0].0, "chunked top-1 id differs");
}

#[test]
fn pruned_chunked_recall_acceptable() {
    let vecs = random_vecs(2048, 128, 13);
    let query: Vec<f32> = random_vecs(1, 128, 77)[0].clone();
    let mut row = RowMajorIndex::new(128);
    let mut chunked = Chunked::new(128, 256);
    for (i, v) in vecs.iter().enumerate() {
        row.insert(i as u64, v.len());
        chunked.insert(i as u64, v);
    }
    let gt = row.search(10, |p: usize| key(l2sq(&query, &vecs[p])));
    let res = chunked.search(&query, 10, 16);
    let recall = recall_at_k(&gt, &res, 10);
    assert!(recall >= 0.80, "pruned recall@10 = {recall:.2} < 0.80");
}

#[test]
fn unpruned_chunked_scan_equals_row_major_scan() {
    let vecs = random_vecs(300, 8, 3);
    let query: Vec<f32> = random_vecs(1, 8, 4)[0].clone();
    let mut row = RowMajorIndex::new(8);
    let mut chunked = Chunked::new(8, 7);
    for (i, v) in vecs.iter().enumerate() {
        row.insert((i * 3 % 17) as u64, v.len());
        chunked.insert((i * 3 % 17) as u64, v);
    }
    assert_eq!(row.search(25, |p: usize| key(l2sq(&query, &vecs[p]))), chunked.search(&query, 25, 0));
}

#[test]
fn tiles_fill_up_to_tile_size() {
    let mut idx = ChunkedColumnarIndex::new(2, 3);
    assert!(idx.is_empty());
    for id in 0..7u64 {
        idx.insert(id, 2);
    }
    assert_eq!(idx.len(), 7);
    // Tiles of 3, 3 and 1: a full scan sees every entry once.
    let keys = [6u64, 5, 4, 3, 2, 1, 0];
    let r = idx.search(7, 0, |_p: usize| 0u64, |p: usize| keys[p], u64::MAX);
    assert_eq!(r, vec![(6, 0), (5, 1), (4, 2), (3, 3), (2, 4), (1, 5), (0, 6)]);
}

#[test]
fn far_tile_is_pruned_when_partials_exceed_kth() {
    let mut idx = ChunkedColumnarIndex::new(1, 2);
    for id in 0..4u64 {
        idx.insert(id, 1);
    }
    // Tile 0 (positions 0, 1) is near; tile 1 (positions 2, 3) is far even on
    // the partial keys, and its full keys would otherwise win.
    let partial = [1u64, 1, 9, 9];
    let full = [1u64, 2, 0, 0];
    let r = idx.search(2, 1, |p: usize| partial[p], |p: usize| full[p], 100);
    assert_eq!(r, vec![(0, 1), (1, 2)]);
    // Without pruning the far tile is scored.
    let r = idx.search(2, 0, |p: usize| partial[p], |p: usize| full[p], 100);
    assert_eq!(r, vec![(2, 0), (3, 0)]);
}

#[test]
fn nearest_pairs_orders_by_key_then_id() {
    let vals = vec![(7u64, 50u64), (7, 40), (3, 30), (7, 50)];
    assert_eq!(nearest_pairs(&vals, 3), vec![(30, 3), (40, 7), (50, 7)]);
    assert_eq!(nearest_pairs(&vals, 9).len(), 4);
}

#[test]
fn pruning_with_a_lower_bound_keeps_results() {
    let vecs = random_vecs(700, 24, 31);
    let mut chunked = Chunked::new(24, 64);
    for (i, v) in vecs.iter().enumerate() {
        chunked.insert(i as u64, v);
    }
    for qs in 0..5u64 {
        let query: Vec<f32> = random_vecs(1, 24, 500 + qs)[0].clone();
        for pd in [1usize, 4, 12, 24, 40] {
            assert_eq!(chunked.search(&query, 10, pd), chunked.search(&query, 10, 0));
        }
    }
}
