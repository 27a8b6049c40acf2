use vecsearch::nsw::NswGraph;
use vecsearch::recall::count_in;

fn key(x: f32) -> u64 {
    if x.is_nan() {
        return u64::MAX;
    }
    let x = if x == 0.0 { 0.0 } else { x };
    let b = x.to_bits();
    let o = if b & 0x8000_0000 != 0 { !b } else { b | 0x8000_0000 };
    o as u64
}

fn unkey(k: u64) -> f32 {
    let o = k as u32;
    let b = if o & 0x8000_0000 != 0 { o & 0x7fff_ffff } else { !o };
    f32::from_bits(b)
}

fn l2_sq(a: &[f32], b: &[f32]) -> f32 {
    a.iter().zip(b).map(|(x, y)| (x - y) * (x - y)).sum()
}

fn lcg(s: &mut u64) -> f32 {
    *s = s.wrapping_mul(6_364_136_223_846_793_005).wrapping_add(1_442_695_040_888_963_407);
    ((*s >> 33) as f32 / (1u64 << 31) as f32) - 1.0
}

fn make_vec(dim: usize, seed: u64) -> Vec<f32> {
    let mut s = seed;
    let v: Vec<f32> = (0..dim).map(|_| lcg(&mut s)).collect();
    let norm: f32 = v.iter().map(|x| x * x).sum::<f32>().sqrt().max(1e-9);
    v.into_iter().map(|x| x / norm).collect()
}

/// A graph together with the vectors it indexes.
struct Store {
    g: NswGraph,
    vecs: Vec<Vec<f32>>,
}

impl Store {
    fn new(dim: usize, m: usize) -> Self {
        Store { g: NswGraph::new(dim, m), vecs: Vec::new() }
    }

    fn insert(&mut self, v: Vec<f32>) {
        self.vecs.push(v);
        let vecs = &self.vecs;
        self.g.insert(|i: usize, j: usize| key(l2_sq(&vecs[i], &vecs[j])));
    }

    fn beam(&self, q: &[f32], k: usize, ef: usize) -> (Vec<(usize, u64)>, u64) {
        let s = self.g.beam_search(|p: usize| key(l2_sq(q, &self.vecs[p])), k, ef);
        (s.hits, s.dist_ops)
    }

    fn dabs(&self, q: &[f32], k: usize, ef: usize, gamma: f32) -> (Vec<(usize, u64)>, u64) {
        let s = self.g.dabs_search(
            |p: usize| key(l2_sq(q, &self.vecs[p])),
            k,
            ef,
            |kk: u64| key((1.0 + gamma) * unkey(kk)),
        );
        (s.hits, s.dist_ops)
    }

    fn brute(&self, q: &[f32], k: usize) -> Vec<usize> {
        self.g.brute_force(|p: usize| key(l2_sq(q, &self.vecs[p])), k)
    }
}

fn recall_at_k(truth: &[usize], approx: &[(usize, u64)]) -> f64 {
    let ids: Vec<usize> = approx.iter().map(|h| h.0).collect();
    count_in(&truth.to_vec(), &ids) as f64 / truth.len() as f64
}

#[test]
fn beam_and_dabs_return_k_results() {
    let mut s = Store::new(16, 8);
    for i in 0..200u64 {
        s.insert(make_vec(16, i * 1337 + 1));
    }
    let q = make_vec(16, 9_999);
    let k = 10;
    let ef = 64;
    let (bs, _) = s.beam(&q, k, ef);
    let (dabs, _) = s.dabs(&q, k, ef, 2.0);
    assert_eq!(bs.len(), k);
    assert_eq!(dabs.len(), k);
}

#[test]
fn dabs_gamma0_always_fewer_or_equal_dist_ops() {
    let mut s = Store::new(32, 12);
    for i in 0..500u64 {
        s.insert(make_vec(32, i * 1337 + 7));
    }
    let nq = 50;
    for qi in 0..nq as u64 {
        let q = make_vec(32, qi * 9_999 + 3);
        let (_, std_ops) = s.beam(&q, 10, 64);
        let (_, dabs_ops) = s.dabs(&q, 10, 64, 0.0);
        assert!(dabs_ops <= std_ops, "query {qi}: DABS(γ=0) used {dabs_ops} ops but standard used only {std_ops}");
    }
}

#[test]
fn dabs_gamma2_maintains_recall() {
    let mut s = Store::new(32, 12);
    let n = 1_000u64;
    for i in 0..n {
        s.insert(make_vec(32, i * 1337 + 1));
    }
    let nq = 100;
    let k = 10;
    let ef = 64;
    let mut total_recall_std = 0.0f64;
    let mut total_recall_dabs = 0.0f64;
    for qi in 0..nq as u64 {
        let q = make_vec(32, qi * 9_999 + 5);
        let truth = s.brute(&q, k);
        let (std_hits, _) = s.beam(&q, k, ef);
        let (dabs_hits, _) = s.dabs(&q, k, ef, 2.0);
        total_recall_std += recall_at_k(&truth, &std_hits);
        total_recall_dabs += recall_at_k(&truth, &dabs_hits);
    }
    let avg_std = total_recall_std / nq as f64;
    let avg_dabs = total_recall_dabs / nq as f64;
    assert!(avg_dabs >= avg_std - 0.05, "DABS recall {avg_dabs:.3} too far below standard {avg_std:.3}");
}

#[test]
fn empty_graph_searches_return_nothing() {
    let g = NswGraph::new(4, 2);
    let r = g.beam_search(|_p: usize| 0u64, 3, 8);
    assert!(r.hits.is_empty());
    assert_eq!(r.dist_ops, 0);
    assert!(g.is_empty());
}

#[test]
fn first_nodes_link_to_nearest_earlier_nodes() {
    // Points on a line: node i sits at 10·i.
    let mut g = NswGraph::new(1, 2);
    let pos: Vec<u64> = (0..6u64).map(|i| i * 10).collect();
    for _ in 0..6 {
        g.insert(|i: usize, j: usize| pos[i].abs_diff(pos[j]));
    }
    assert_eq!(g.len(), 6);
    // Node 5's two nearest earlier nodes are 4 and 3.
    assert_eq!(g.neighbors[5], vec![4, 3]);
    // Node 1 linked to 0 and later gained back-links from nodes 2 and 3.
    assert_eq!(g.neighbors[1], vec![0, 2, 3]);
    assert!(g.neighbors[0].contains(&1));
    // Every list stays within 2m entries.
    for l in &g.neighbors {
        assert!(l.len() <= 4);
    }
}

#[test]
fn brute_force_orders_by_key_then_id() {
    let mut g = NswGraph::new(1, 2);
    for _ in 0..5 {
        g.insert(|i: usize, j: usize| (i as u64).abs_diff(j as u64));
    }
    let keys = [7u64, 3, 9, 3, 1];
    assert_eq!(g.brute_force(|p: usize| keys[p], 3), vec![4, 1, 3]);
}

#[test]
fn dabs_with_identity_threshold_never_costs_more() {
    let mut s = Store::new(8, 4);
    for i in 0..150u64 {
        s.insert(make_vec(8, i * 31 + 2));
    }
    for qi in 0..20u64 {
        let q = make_vec(8, qi * 7 + 11);
        let (_, a) = s.beam(&q, 5, 20);
        let (_, b) = s.dabs(&q, 5, 20, 0.0);
        assert!(b <= a);
    }
}

#[test]
fn smaller_dabs_threshold_never_costs_more() {
    let mut st = Store::new(16, 8);
    for i in 0..400u64 {
        st.insert(make_vec(16, 1000 + i));
    }
    for qi in 0..10u64 {
        let q = make_vec(16, 50_000 + qi);
        let mut last = 0u64;
        for &gamma in &[0.0f32, 0.5, 1.0, 2.0, 4.0] {
            let (_, ops) = st.dabs(&q, 10, 64, gamma);
            assert!(ops >= last, "a larger gamma stopped earlier");
            last = ops;
        }
    }
}

#[test]
fn graph_neighbour_lists_are_bounded_distinct_and_loop_free() {
    let m = 4usize;
    let mut st = Store::new(8, m);
    for i in 0..120u64 {
        st.insert(make_vec(8, 7 + i));
    }
    let n = st.g.neighbors.len();
    for i in 0..n {
        let l = &st.g.neighbors[i];
        assert!(l.len() <= 2 * m);
        for (a, &x) in l.iter().enumerate() {
            assert!(x < n && x != i);
            assert!(!l[a + 1..].contains(&x));
        }
    }
}
