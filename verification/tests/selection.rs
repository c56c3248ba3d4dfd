use gtboost::combos::{index_pairs, index_quads, index_triples};
use gtboost::groups::{all_rows, group_rows};
use gtboost::num::Num;
use gtboost::order::{rank_ascending, rank_by_key, rank_descending, RankKey};
use gtboost::robust::{
    auc_order, count_hits, median_positions, positive_rank_sum, settle_huber_delta, stride_rows,
    trimmed_positions,
};
use gtboost::select::{collect_kept, is_positive, keep_all, positive_flags, select_positive, select_top};
use gtboost::tally::tally;

fn num(x: f64) -> Num {
    Num { bits: x.to_bits() }
}

fn nums(v: &[f64]) -> Vec<Num> {
    v.iter().map(|&x| num(x)).collect()
}

#[test]
fn ranking_puts_high_keys_first_and_keeps_ties_in_order() {
    assert_eq!(rank_descending(&vec![3, 9, 3, 10]), vec![3, 1, 0, 2]);
    assert_eq!(rank_descending(&vec![]), Vec::<usize>::new());
}

#[test]
fn ascending_ranking_keeps_ties_in_order() {
    assert_eq!(rank_ascending(&vec![3, 9, 3, -10]), vec![3, 0, 2, 1]);
}

#[test]
fn keys_break_ties_by_their_names() {
    let key = |score: i64, first: usize, second: usize| RankKey { score, first, second };
    let order = rank_by_key(&vec![key(5, 2, 3), key(7, 1, 9), key(5, 1, 4), key(5, 1, 2)]);
    assert_eq!(order, vec![1, 3, 2, 0]);
}

#[test]
fn combinations_come_in_order() {
    assert_eq!(index_pairs(3), vec![(0, 1), (0, 2), (1, 2)]);
    assert_eq!(index_pairs(1), vec![]);
    assert_eq!(index_triples(4), vec![(0, 1, 2), (0, 1, 3), (0, 2, 3), (1, 2, 3)]);
    assert_eq!(index_quads(4), vec![(0, 1, 2, 3)]);
    assert_eq!(index_quads(6).len(), 15);
}

#[test]
fn kept_indices_are_collected() {
    assert_eq!(collect_kept(&vec![true, false, true, true]), vec![0, 2, 3]);
    assert_eq!(keep_all(3), vec![true, true, true]);
}

#[test]
fn positive_means_above_zero() {
    assert!(is_positive(&num(1e-300)));
    assert!(!is_positive(&num(0.0)));
    assert!(!is_positive(&num(-0.0)));
    assert!(!is_positive(&num(f64::NAN)));
    assert_eq!(positive_flags(&nums(&[1.0, -1.0, f64::INFINITY])), vec![true, false, true]);
}

#[test]
fn the_best_are_selected() {
    let scores = nums(&[0.5, 2.0, -1.0, 2.0, 1.0]);
    assert_eq!(select_top(&scores, &keep_all(5), 3), vec![1, 3, 4]);
    assert_eq!(select_top(&scores, &vec![true, false, true, false, false], 3), vec![0, 2]);
    assert_eq!(select_positive(&scores, 10), vec![1, 3, 4, 0]);
    assert_eq!(select_positive(&scores, 2), vec![1, 3]);
}

#[test]
fn rows_are_grouped_by_key() {
    let keys: Vec<i64> = vec![7, 8, 7, 9, 8];
    let g = group_rows(&keys, &all_rows(5));
    assert_eq!(g.keys, vec![7, 8, 9]);
    assert_eq!(g.rows, vec![vec![0, 2], vec![1, 4], vec![3]]);
    assert_eq!(g.group_of, vec![0, 1, 0, 2, 1]);
    assert_eq!(g.count(1), 2);
    let part = group_rows(&keys, &vec![4, 0]);
    assert_eq!(part.keys, vec![8, 7]);
    assert_eq!(part.rows, vec![vec![4], vec![0]]);
}

#[test]
fn values_are_counted() {
    assert_eq!(tally(&vec![2, 0, 2, 2], 4), vec![1, 0, 3, 0]);
}

#[test]
fn medians_lie_in_the_middle() {
    assert_eq!(median_positions(&nums(&[])), None);
    assert_eq!(median_positions(&nums(&[5.0, 1.0, 3.0])), Some((2, 2)));
    assert_eq!(median_positions(&nums(&[5.0, 1.0, 3.0, 4.0])), Some((2, 3)));
}

#[test]
fn scale_rows_are_spread_over_large_data() {
    assert_eq!(stride_rows(4), vec![0, 1, 2, 3]);
    assert_eq!(stride_rows(0), Vec::<usize>::new());
    let rows = stride_rows(40_000);
    assert_eq!(rows[..4], [0, 3, 6, 9]);
    assert_eq!(rows.len(), 13_334);
}

#[test]
fn few_values_are_not_trimmed() {
    assert_eq!(trimmed_positions(&nums(&[9.0, 1.0, 5.0])), vec![0, 1, 2]);
}

#[test]
fn a_tenth_is_trimmed_at_either_end() {
    let v: Vec<Num> = (0..20).map(|i| num(19.0 - i as f64)).collect();
    let kept = trimmed_positions(&v);
    assert_eq!(kept.len(), 16);
    assert_eq!(kept[0], 17);
    assert_eq!(kept[15], 2);
}

#[test]
fn hits_are_targets_above_one_half() {
    assert_eq!(count_hits(&nums(&[0.0, 0.5, 0.51, 1.0]), 4), 2);
}

#[test]
fn the_auc_needs_both_classes() {
    let preds = nums(&[0.3, 0.1, 0.2]);
    assert_eq!(auc_order(&nums(&[1.0, 0.0, 1.0]), &preds, 3), Some(vec![1, 2, 0]));
    assert_eq!(auc_order(&nums(&[1.0, 1.0, 1.0]), &preds, 3), None);
    assert_eq!(auc_order(&nums(&[0.0, 0.0, 0.0]), &preds, 3), None);
    assert_eq!(auc_order(&nums(&[1.0, 0.0]), &preds, 3), None);
    assert_eq!(auc_order(&nums(&[]), &nums(&[]), 0), None);
}

#[test]
fn ranks_of_ties_are_averaged() {
    // Ascending order 1, 2, 0 with a tie between 2 and 0: the hits 0 and 2 share rank 2.5.
    let y = nums(&[1.0, 0.0, 1.0]);
    assert_eq!(positive_rank_sum(&y, &vec![1, 2, 0], &vec![1, 3]), 10);
    assert_eq!(positive_rank_sum(&y, &vec![1, 2, 0], &vec![1, 2, 3]), 10);
    assert_eq!(positive_rank_sum(&nums(&[1.0, 0.0]), &vec![0, 1], &vec![1, 2]), 2);
}

#[test]
fn huber_cutoffs_need_residuals_that_spread() {
    assert_eq!(settle_huber_delta(4, &num(2.0), &num(2.69)), num(2.69));
    assert_eq!(settle_huber_delta(3, &num(2.0), &num(2.69)), num(0.0));
    assert_eq!(settle_huber_delta(4, &num(1e-12), &num(1.0)), num(0.0));
    assert_eq!(settle_huber_delta(4, &num(f64::INFINITY), &num(1.0)), num(0.0));
}
