use vecsearch::codeq::{brute_force_knn, knn_from_codes, members_with, CodeTable, ConsistencyStats, Code};
use vecsearch::recall::count_in;

fn code(fill: u8) -> Code {
    [fill; 8]
}

#[test]
fn default_stats_are_zero() {
    let s = ConsistencyStats::default();
    assert_eq!(s.total_vectors, 0);
    assert_eq!(s.stale_count, 0);
    assert_eq!(s.reassignments, 0);
    assert_eq!(s.drift_triggers, 0);
    let f = ConsistencyStats::fresh(12);
    assert_eq!(f.total_vectors, 12);
    assert_eq!(f.stale_count, 0);
}

#[test]
fn append_increases_size() {
    let mut t = CodeTable::new(vec![code(0), code(1)]);
    let before = t.stats.total_vectors;
    t.append(code(2));
    assert_eq!(t.stats.total_vectors, before + 1);
    assert_eq!(t.codes.len(), 3);
}

#[test]
fn delete_decreases_size_by_swap_remove() {
    let mut t = CodeTable::new(vec![code(0), code(1), code(2)]);
    let before = t.stats.total_vectors;
    t.delete(0, false);
    assert_eq!(t.stats.total_vectors, before - 1);
    assert_eq!(t.codes, vec![code(2), code(1)]);
}

#[test]
fn delete_saturates_counters() {
    let mut t = CodeTable::new(vec![code(0)]);
    t.stats.total_vectors = 0;
    t.delete(0, true);
    assert_eq!(t.stats.total_vectors, 0);
    assert_eq!(t.stats.stale_count, 0);
}

#[test]
fn members_with_lists_matching_codes() {
    let mut a = code(0);
    a[3] = 7;
    let codes = vec![a, code(7), code(0), a];
    assert_eq!(members_with(&codes, 3, 7), vec![0, 1, 3]);
    assert_eq!(members_with(&codes, 0, 7), vec![1]);
}

#[test]
fn lazy_insert_queues_shared_centroids_and_caps_stale() {
    let mut t = CodeTable::new(vec![code(1), code(2)]);
    // The new code shares every subspace with entry 0.
    t.insert_lazy(code(1));
    assert_eq!(t.pending, vec![0; 8]);
    assert_eq!(t.stats.total_vectors, 3);
    // Eight queued marks, capped by the three vectors.
    assert_eq!(t.stats.stale_count, 3);
    assert!(t.stats.stale_count <= t.stats.total_vectors);
}

#[test]
fn flush_fixes_stale_codes_and_empties_queue() {
    let mut t = CodeTable::new(vec![code(1), code(2)]);
    t.insert_lazy(code(1));
    let correct = [code(9), code(2), code(1)];
    t.flush(|i: usize| correct[i], true);
    assert!(t.pending.is_empty());
    assert_eq!(t.stats.stale_count, 0);
    assert_eq!(t.codes[0], code(9));
    // Entry 0 was queued eight times but is reassigned once.
    assert_eq!(t.stats.reassignments, 1);
    assert_eq!(t.stats.drift_triggers, 1);
}

#[test]
fn reassign_moves_changed_members_only() {
    let mut t = CodeTable::new(vec![code(4), code(4), code(5)]);
    t.reassign(&vec![0, 1], 2, |i: usize, _m: usize| if i == 0 { 6 } else { 4 });
    assert_eq!(t.codes[0][2], 6);
    assert_eq!(t.codes[1], code(4));
    assert_eq!(t.stats.reassignments, 1);
}

#[test]
fn knn_lut_is_deterministic() {
    let keys = [5u64, 1, 9, 1, 3];
    let r1 = knn_from_codes(|i: usize| keys[i], 5, 3);
    let r2 = knn_from_codes(|i: usize| keys[i], 5, 3);
    assert_eq!(r1, r2);
    assert_eq!(r1, vec![(1, 1), (3, 1), (4, 3)]);
}

#[test]
fn brute_force_knn_returns_positions() {
    let keys = [5u64, 1, 9, 1, 3];
    assert_eq!(brute_force_knn(|i: usize| keys[i], 5, 2), vec![1, 3]);
    assert!(brute_force_knn(|i: usize| keys[i], 5, 0).is_empty());
}

#[test]
fn lib_recall_at_k_perfect() {
    // Every ground-truth id is predicted.
    let gt = vec![0usize, 1, 2, 3, 4];
    let predicted: Vec<usize> = gt.clone();
    let hits = count_in(&gt, &predicted);
    assert!((hits as f64 / gt.len() as f64 - 1.0).abs() < 1e-9);
}
