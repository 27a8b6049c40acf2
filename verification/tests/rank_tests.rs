use vecsearch::lex::lex_select;
use vecsearch::oracle::score_positions;
use vecsearch::rank::{nearest_below, select_top_k, top_k_ascending, top_k_descending};
use vecsearch::recall::{count_distinct, count_in};

#[test]
fn ascending_selection_is_stable() {
    let items = vec![(0usize, 5u64), (1, 2), (2, 5), (3, 1), (4, 2)];
    assert_eq!(top_k_ascending(&items, 3), vec![(3, 1), (1, 2), (4, 2)]);
    assert_eq!(top_k_ascending(&items, 10).len(), 5);
    assert!(top_k_ascending(&items, 0).is_empty());
}

#[test]
fn descending_selection_is_stable() {
    let items = vec![(0usize, 5u64), (1, 2), (2, 5), (3, 1)];
    assert_eq!(top_k_descending(&items, 2), vec![(0, 5), (2, 5)]);
    assert_eq!(select_top_k(&items, 4, true), vec![(0, 5), (2, 5), (1, 2), (3, 1)]);
}

#[test]
fn selected_keys_do_not_depend_on_input_order() {
    let a = vec![(0usize, 9u64), (1, 3), (2, 7), (3, 3), (4, 1)];
    let b = vec![(7usize, 3u64), (8, 1), (9, 9), (5, 3), (6, 7)];
    let ka: Vec<u64> = top_k_ascending(&a, 4).iter().map(|e| e.1).collect();
    let kb: Vec<u64> = top_k_ascending(&b, 4).iter().map(|e| e.1).collect();
    assert_eq!(ka, kb);
    assert_eq!(ka, vec![1, 3, 3, 7]);
}

#[test]
fn lex_selection_orders_by_key_then_id() {
    let vals = vec![(2u64, 9u64), (1, 4), (2, 3), (1, 4), (0, 8)];
    assert_eq!(lex_select(&vals, 4), vec![(0, 8), (1, 4), (1, 4), (2, 3)]);
}

#[test]
fn scoring_positions_asks_every_index() {
    let keys = [4u64, 0, 7];
    assert_eq!(score_positions(&|i: usize| keys[i], 3), vec![(0, 4), (1, 0), (2, 7)]);
}

#[test]
fn hit_and_distinct_counts() {
    assert_eq!(count_in(&vec![1, 2, 2, 9], &vec![2, 3, 1]), 3);
    assert_eq!(count_in(&vec![], &vec![2]), 0);
    assert_eq!(count_distinct(&vec![4, 4, 1, 4, 2]), 3);
}

#[test]
fn nearest_below_picks_first_minimum_under_bound() {
    let keys = [9u64, 4, 7, 4, 12];
    assert_eq!(nearest_below(&|i: usize| keys[i], 5, 100), 1);
    assert_eq!(nearest_below(&|i: usize| keys[i], 5, 4), 0);
    assert_eq!(nearest_below(&|i: usize| keys[i], 0, 100), 0);
    assert_eq!(nearest_below(&|i: usize| keys[i], 1, 5), 0);
}
