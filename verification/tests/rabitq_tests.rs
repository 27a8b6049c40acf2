use rand::rngs::StdRng;
use rand::{Rng, SeedableRng};
use vecsearch::rabitq::{hamming, pack_bits, BitFlatStore, FlatStore, IvfBitStore};
use vecsearch::recall::count_in;

fn key(x: f32) -> u64 {
    if x.is_nan() {
        return u64::MAX;
    }
    let x = if x == 0.0 { 0.0 } else { x };
    let b = x.to_bits();
    let o = if b & 0x8000_0000 != 0 { !b } else { b | 0x8000_0000 };
    o as u64
}

fn l2_distance(a: &[f32], b: &[f32]) -> f32 {
    a.iter().zip(b.iter()).map(|(x, y)| (x - y) * (x - y)).sum::<f32>().sqrt()
}

/// Random sign flips and 1-bit codes, as the encoder of the bit stores makes them.
struct Encoder {
    dim: usize,
    signs: Vec<f32>,
}

struct BitVector {
    bits: Vec<u64>,
    norm: f32,
    dim: usize,
}

impl Encoder {
    fn new(dim: usize, seed: u64) -> Self {
        let mut rng = StdRng::seed_from_u64(seed);
        let signs = (0..dim).map(|_| if rng.gen_bool(0.5) { 1.0_f32 } else { -1.0_f32 }).collect();
        Encoder { dim, signs }
    }

    fn encode(&self, v: &[f32]) -> BitVector {
        assert_eq!(v.len(), self.dim);
        let norm = v.iter().map(|x| x * x).sum::<f32>().sqrt();
        let pos: Vec<bool> = v.iter().zip(self.signs.iter()).map(|(&val, &s)| val * s > 0.0).collect();
        BitVector { bits: pack_bits(&pos), norm, dim: self.dim }
    }
}

fn estimated_l2_sq(a: &BitVector, b: &BitVector) -> f32 {
    let h = hamming(&a.bits, &b.bits) as f32;
    let d = a.dim as f32;
    let ip = a.norm * b.norm * (d - 2.0 * h) / d;
    a.norm * a.norm + b.norm * b.norm - 2.0 * ip
}

fn random_vecs(n: usize, dim: usize, seed: u64) -> Vec<Vec<f32>> {
    let mut rng = StdRng::seed_from_u64(seed);
    (0..n).map(|_| (0..dim).map(|_| rng.gen_range(-1.0..1.0f32)).collect()).collect()
}

fn recall_at_k(pred: &[(usize, u64)], gt: &[(usize, u64)], k: usize) -> f32 {
    let mut gt_ids: Vec<usize> = gt.iter().take(k).map(|(id, _)| *id).collect();
    gt_ids.sort();
    gt_ids.dedup();
    let mut pred_ids: Vec<usize> = pred.iter().take(k).map(|(id, _)| *id).collect();
    pred_ids.sort();
    pred_ids.dedup();
    count_in(&gt_ids, &pred_ids) as f32 / k as f32
}

fn flat_search(store: &FlatStore, vecs: &[Vec<f32>], q: &[f32], k: usize) -> Vec<(usize, u64)> {
    store.search(|p: usize| key(l2_distance(q, &vecs[p])), k)
}

fn bit_search(store: &BitFlatStore, enc: &Encoder, codes: &[BitVector], vecs: &[Vec<f32>], q: &[f32], k: usize) -> Vec<(usize, u64)> {
    let qb = enc.encode(q);
    store.search(|p: usize| key(estimated_l2_sq(&qb, &codes[p])), |p: usize| key(l2_distance(q, &vecs[p])), k)
}

/// Lloyd's k-means as the IVF build runs it: uniform initial picks, 15 rounds.
fn kmeans(vecs: &[Vec<f32>], nlist: usize, dim: usize) -> (Vec<Vec<f32>>, Vec<usize>) {
    let step = vecs.len() / nlist;
    let mut centroids: Vec<Vec<f32>> = (0..nlist).map(|i| vecs[i * step].clone()).collect();
    let assign = |cs: &Vec<Vec<f32>>| -> Vec<usize> {
        vecs.iter()
            .map(|v| {
                cs.iter()
                    .enumerate()
                    .map(|(i, c)| (i, l2_distance(v, c)))
                    .min_by(|a, b| a.1.partial_cmp(&b.1).unwrap_or(std::cmp::Ordering::Equal))
                    .map(|(i, _)| i)
                    .unwrap_or(0)
            })
            .collect()
    };
    for _ in 0..15 {
        let a = assign(&centroids);
        let mut sums = vec![vec![0.0f32; dim]; nlist];
        let mut counts = vec![0usize; nlist];
        for (v, &cell) in vecs.iter().zip(&a) {
            for (s, x) in sums[cell].iter_mut().zip(v.iter()) {
                *s += x;
            }
            counts[cell] += 1;
        }
        centroids = sums
            .iter()
            .enumerate()
            .map(|(i, s)| if counts[i] > 0 { s.iter().map(|x| x / counts[i] as f32).collect() } else { centroids[i].clone() })
            .collect();
    }
    let a = assign(&centroids);
    (centroids, a)
}

struct Ivf {
    store: IvfBitStore,
    centroids: Vec<Vec<f32>>,
    codes: Vec<BitVector>,
    vecs: Vec<Vec<f32>>,
    enc: Encoder,
}

impl Ivf {
    fn build(vecs: &[Vec<f32>], dim: usize, nlist: usize, nprobe: usize, rescore_k: usize) -> Ivf {
        let mut store = IvfBitStore::new(dim, nlist, nprobe, rescore_k);
        let enc = Encoder::new(dim, 0xdeadbeef);
        let n_cells = store.effective_nlist(vecs.len());
        let (centroids, assign) = kmeans(vecs, n_cells, dim);
        store.build((0..vecs.len()).collect(), &assign);
        let codes = vecs.iter().map(|v| enc.encode(v)).collect();
        Ivf { store, centroids, codes, vecs: vecs.to_vec(), enc }
    }

    fn search(&self, q: &[f32], k: usize) -> Vec<(usize, u64)> {
        let qb = self.enc.encode(q);
        self.store.search(
            |c: usize| key(l2_distance(q, &self.centroids[c])),
            |p: usize| key(estimated_l2_sq(&qb, &self.codes[p])),
            |p: usize| key(l2_distance(q, &self.vecs[p])),
            k,
        )
    }
}

#[test]
fn identical_vectors_have_zero_hamming() {
    let enc = Encoder::new(64, 1);
    let v: Vec<f32> = (0..64).map(|i| i as f32).collect();
    let a = enc.encode(&v);
    let b = enc.encode(&v);
    assert_eq!(hamming(&a.bits, &b.bits), 0);
}

#[test]
fn opposite_vectors_have_max_hamming() {
    let enc = Encoder::new(64, 1);
    let v: Vec<f32> = (0..64).map(|i| (i as f32) + 1.0).collect();
    let neg: Vec<f32> = v.iter().map(|x| -x).collect();
    let a = enc.encode(&v);
    let b = enc.encode(&neg);
    assert_eq!(hamming(&a.bits, &b.bits), 64);
}

#[test]
fn flat_returns_exact_nearest_neighbor() {
    let vecs = random_vecs(200, 32, 1);
    let mut store = FlatStore::new(32);
    for i in 0..vecs.len() {
        store.insert(i);
    }
    let results = flat_search(&store, &vecs, &vecs[0], 1);
    assert_eq!(results[0].0, 0, "exact NN must be the query itself");
    assert_eq!(results[0].1, key(0.0), "distance to self must be ~0");
}

#[test]
fn bit_flat_rescore_achieves_reasonable_recall() {
    let vecs = random_vecs(500, 64, 7);
    let enc = Encoder::new(64, 0xdeadbeef);
    let mut flat = FlatStore::new(64);
    let mut bit = BitFlatStore::new(64, true, 64);
    let mut codes = Vec::new();
    for (i, v) in vecs.iter().enumerate() {
        flat.insert(i);
        bit.insert(i);
        codes.push(enc.encode(v));
    }
    let mut total = 0.0f32;
    let n_q = 30;
    for qi in 0..n_q {
        let q = &vecs[qi * 13 % 500];
        let gt = flat_search(&flat, &vecs, q, 10);
        let ap = bit_search(&bit, &enc, &codes, &vecs, q, 10);
        total += recall_at_k(&ap, &gt, 10);
    }
    let avg = total / n_q as f32;
    assert!(avg >= 0.25, "recall@10 too low: {avg:.3} (expected ≥0.25)");
}

#[test]
fn bit_flat_memory_less_than_flat() {
    let mut flat = FlatStore::new(128);
    let mut bit = BitFlatStore::new(128, false, 0);
    for i in 0..1000 {
        flat.insert(i);
        bit.insert(i);
    }
    assert!(bit.memory_bytes() < flat.memory_bytes(), "bit store must use less memory than flat f32 store");
}

#[test]
fn ivf_builds_without_panic() {
    let vecs = random_vecs(300, 64, 99);
    let ivf = Ivf::build(&vecs, 64, 10, 3, 30);
    assert_eq!(ivf.store.n_centroids, 10);
}

#[test]
fn ivf_returns_k_results() {
    let vecs = random_vecs(400, 64, 55);
    let ivf = Ivf::build(&vecs, 64, 8, 2, 32);
    let results = ivf.search(&vecs[0], 10);
    assert_eq!(results.len(), 10);
}

#[test]
fn ivf_achieves_reasonable_recall() {
    let vecs = random_vecs(600, 64, 13);
    let mut flat = FlatStore::new(64);
    for i in 0..vecs.len() {
        flat.insert(i);
    }
    let ivf = Ivf::build(&vecs, 64, 15, 4, 40);
    let mut total = 0.0f32;
    let n_q = 30;
    for qi in 0..n_q {
        let q = &vecs[qi * 17 % 600];
        let gt = flat_search(&flat, &vecs, q, 10);
        let ap = ivf.search(q, 10);
        total += recall_at_k(&ap, &gt, 10);
    }
    let avg = total / n_q as f32;
    assert!(avg >= 0.25, "IVF recall@10 too low: {avg:.3} (expected ≥0.25)");
}

#[test]
fn pack_bits_sets_exactly_the_true_positions() {
    let mut pos = vec![false; 70];
    pos[0] = true;
    pos[63] = true;
    pos[64] = true;
    pos[69] = true;
    let w = pack_bits(&pos);
    assert_eq!(w.len(), 2);
    assert_eq!(w[0], 1u64 | (1u64 << 63));
    assert_eq!(w[1], 1u64 | (1u64 << 5));
    assert!(pack_bits(&Vec::new()).is_empty());
}

#[test]
fn hamming_counts_differing_bits_over_common_words() {
    assert_eq!(hamming(&vec![0b1011, 0], &vec![0b0001, u64::MAX]), 2 + 64);
    assert_eq!(hamming(&vec![u64::MAX], &vec![0, 5, 6]), 64);
    assert_eq!(hamming(&vec![7], &vec![1]), hamming(&vec![1], &vec![7]));
}

#[test]
fn memory_formulas() {
    let mut flat = FlatStore::new(10);
    let mut bit = BitFlatStore::new(10, true, 4);
    for i in 0..3 {
        flat.insert(i);
        bit.insert(i);
    }
    assert_eq!(flat.memory_bytes(), 3 * 10 * 4);
    assert_eq!(bit.memory_bytes(), 3 * (8 + 4 + 8) + 3 * 10 * 4);
}

#[test]
fn bit_store_without_rescore_returns_estimated_order() {
    let mut bit = BitFlatStore::new(4, false, 0);
    for i in 0..4 {
        bit.insert(100 + i);
    }
    let est = [9u64, 2, 5, 2];
    let r = bit.search(|p: usize| est[p], |_p: usize| 0u64, 3);
    assert_eq!(r, vec![(101, 2), (103, 2), (102, 5)]);
}

#[test]
fn bit_store_rescore_reorders_candidates() {
    let mut bit = BitFlatStore::new(4, true, 3);
    for i in 0..4 {
        bit.insert(i);
    }
    let est = [1u64, 2, 3, 4];
    let exact = [30u64, 20, 10, 0];
    // Candidates are positions 0, 1, 2 (the 3 best estimates); exact order 2, 1.
    let r = bit.search(|p: usize| est[p], |p: usize| exact[p], 2);
    assert_eq!(r, vec![(2, 10), (1, 20)]);
}

#[test]
fn ivf_groups_positions_by_cell_and_probes_nearest() {
    let mut ivf = IvfBitStore::new(2, 2, 1, 0);
    ivf.build(vec![10, 11, 12, 13], &vec![0, 1, 0, 1]);
    assert_eq!(ivf.n_centroids, 2);
    assert_eq!(ivf.cells, vec![vec![0, 2], vec![1, 3]]);
    assert_eq!(ivf.memory_bytes(), 2 * 2 * 4 + 4 * (8 + 4 + 8));
    let centroid = [5u64, 1];
    let est = [0u64, 3, 0, 1];
    let exact = [0u64, 7, 0, 2];
    // Cell 1 is nearest; its positions 1 and 3 are rescored.
    let r = ivf.search(|c: usize| centroid[c], |p: usize| est[p], |p: usize| exact[p], 5);
    assert_eq!(r, vec![(13, 2), (11, 7)]);
}

#[test]
fn empty_ivf_returns_nothing() {
    let ivf = IvfBitStore::new(4, 3, 2, 5);
    let r = ivf.search(|_c: usize| 0u64, |_p: usize| 0u64, |_p: usize| 0u64, 3);
    assert!(r.is_empty());
}

#[test]
fn full_rescore_gives_exact_distances() {
    let vecs = random_vecs(80, 32, 21);
    let enc = Encoder::new(32, 0xdeadbeef);
    let mut flat = FlatStore::new(32);
    let mut bit = BitFlatStore::new(32, true, 80);
    let mut codes = Vec::new();
    for (i, v) in vecs.iter().enumerate() {
        flat.insert(i);
        bit.insert(i);
        codes.push(enc.encode(v));
    }
    let q = &vecs[3];
    let a = flat_search(&flat, &vecs, q, 10);
    let b = bit_search(&bit, &enc, &codes, &vecs, q, 10);
    let ka: Vec<u64> = a.iter().map(|e| e.1).collect();
    let kb: Vec<u64> = b.iter().map(|e| e.1).collect();
    assert_eq!(ka, kb);
}

#[test]
fn full_probe_gives_exact_distances() {
    let vecs = random_vecs(120, 16, 41);
    let mut flat = FlatStore::new(16);
    for i in 0..vecs.len() {
        flat.insert(i);
    }
    let ivf = Ivf::build(&vecs, 16, 6, 6, 120);
    for qi in 0..5 {
        let q = &vecs[qi * 11];
        let a: Vec<u64> = flat_search(&flat, &vecs, q, 10).iter().map(|e| e.1).collect();
        let b: Vec<u64> = ivf.search(q, 10).iter().map(|e| e.1).collect();
        assert_eq!(a, b);
    }
}

#[test]
fn each_position_sits_in_one_cell() {
    let vecs = random_vecs(90, 8, 43);
    let ivf = Ivf::build(&vecs, 8, 7, 2, 10);
    let mut seen = vec![0usize; vecs.len()];
    for cell in &ivf.store.cells {
        for &p in cell {
            seen[p] += 1;
        }
    }
    assert!(seen.iter().all(|&c| c == 1));
}

#[test]
fn complementary_sign_patterns_differ_in_every_dimension() {
    for &dim in &[1usize, 63, 64, 65, 130, 200] {
        let pos: Vec<bool> = (0..dim).map(|i| (i * 7 + 3) % 5 < 2).collect();
        let neg: Vec<bool> = pos.iter().map(|b| !b).collect();
        let a = pack_bits(&pos);
        let b = pack_bits(&neg);
        assert_eq!(hamming(&a, &b) as usize, dim);
        assert_eq!(hamming(&b, &a) as usize, dim);
    }
}

#[test]
fn full_rescore_and_full_probe_give_exact_ids_for_distinct_distances() {
    let vecs = random_vecs(80, 16, 77);
    let enc = Encoder::new(16, 0xfeed);
    let mut flat = FlatStore::new(16);
    let mut bit = BitFlatStore::new(16, true, 80);
    let mut codes = Vec::new();
    for (i, v) in vecs.iter().enumerate() {
        flat.insert(i);
        bit.insert(i);
        codes.push(enc.encode(v));
    }
    let ivf = Ivf::build(&vecs, 16, 5, 5, 80);
    let q = &vecs[9];
    let a = flat_search(&flat, &vecs, q, 10);
    let mut keys: Vec<u64> = vecs.iter().map(|v| key(l2_distance(q, v))).collect();
    keys.sort();
    keys.dedup();
    assert_eq!(keys.len(), vecs.len(), "distances are distinct");
    assert_eq!(bit_search(&bit, &enc, &codes, &vecs, q, 10), a);
    assert_eq!(ivf.search(q, 10), a);
}
