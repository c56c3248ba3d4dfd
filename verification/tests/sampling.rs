use gtboost::goss::{
    goss_from_draws, goss_importance_form, goss_importance_multi, goss_rates, goss_select, keys_of, ImportanceForm,
    RowScale,
};
use gtboost::masks::{mask_of, plan_views, view_mask, FeatureSampling};
use gtboost::num::Num;
use gtboost::sampling::{
    antithetic_windows, exchange_front, items_at, rows_up_to, sample_with_repetition, sample_without_repetition,
    subsample_indices_from_pool, subsample_indices_rate, RoundSampling,
};
use rand::rngs::StdRng;
use rand::SeedableRng;

fn num(x: f64) -> Num {
    Num { bits: x.to_bits() }
}

fn nums(v: &[f64]) -> Vec<Num> {
    v.iter().map(|&x| num(x)).collect()
}

fn distinct(list: &[u32]) -> bool {
    let mut sorted = list.to_vec();
    sorted.sort_unstable();
    sorted.windows(2).all(|w| w[0] != w[1])
}

#[test]
fn draws_exchange_items_to_the_front() {
    assert_eq!(exchange_front(&vec![10, 20, 30, 40], &vec![2, 1, 3]), vec![30, 20, 40]);
    assert_eq!(exchange_front(&vec![10, 20], &vec![]), Vec::<u32>::new());
}

#[test]
fn samples_without_repetition_stay_distinct() {
    let mut rng = StdRng::seed_from_u64(5);
    let pool: Vec<u32> = (100..200).collect();
    let sample = sample_without_repetition(&mut rng, &pool, 40);
    assert_eq!(sample.len(), 40);
    assert!(distinct(&sample));
    assert!(sample.iter().all(|r| pool.contains(r)));
    assert_ne!(sample, pool[..40].to_vec());
}

#[test]
fn samples_with_repetition_stay_in_the_pool() {
    let mut rng = StdRng::seed_from_u64(5);
    let pool: Vec<u32> = vec![3, 5, 8];
    let sample = sample_with_repetition(&mut rng, &pool, 30);
    assert_eq!(sample.len(), 30);
    assert!(sample.iter().all(|r| pool.contains(r)));
    assert!(pool.iter().all(|r| sample.contains(r)));
    assert_eq!(items_at(&pool, &vec![2, 2, 0]), vec![8, 8, 3]);
}

#[test]
fn a_full_rate_takes_the_whole_pool() {
    let mut rng = StdRng::seed_from_u64(1);
    let pool: Vec<u32> = vec![9, 4, 6];
    assert_eq!(subsample_indices_from_pool(&mut rng, &pool, &num(3.0), false), pool);
    assert_eq!(subsample_indices_from_pool(&mut rng, &vec![], &num(3.0), false), Vec::<u32>::new());
    assert_eq!(subsample_indices_from_pool(&mut rng, &pool, &num(0.2), false).len(), 1);
    assert_eq!(subsample_indices_rate(&mut rng, 4, &num(4.0), false), vec![0, 1, 2, 3]);
    assert_eq!(subsample_indices_rate(&mut rng, 10, &num(6.9), false).len(), 6);
    assert_eq!(subsample_indices_rate(&mut rng, 10, &num(6.9), true).len(), 6);
}

#[test]
fn windows_go_round_the_permutation() {
    let windows = antithetic_windows(&vec![0, 1, 2, 3, 4, 5], 3, 4);
    assert_eq!(windows, vec![vec![0, 1, 2, 3], vec![2, 3, 4, 5], vec![4, 5, 0, 1]]);
    assert!(windows.iter().all(|w| distinct(w)));
}

#[test]
fn rounds_draw_one_sample_for_each_subtree() {
    let mut rng = StdRng::seed_from_u64(3);
    let plain = RoundSampling {
        n_sub: 3,
        rate: num(0.5),
        product: num(5.0),
        bootstrap: false,
        antithetic: false,
    };
    let out = plain.round_subsamples(&mut rng, 10);
    assert_eq!(out.len(), 3);
    assert!(out.iter().all(|s| s.len() == 5 && distinct(s)));
    let spread = RoundSampling { antithetic: true, ..plain };
    let windows = spread.round_subsamples_from_pool(&mut rng, &rows_up_to(10));
    assert_eq!(windows.len(), 3);
    assert!(windows.iter().all(|s| s.len() == 5 && distinct(s)));
    let first_two: Vec<u32> = windows[0].iter().chain(windows[1].iter()).copied().collect();
    let mut seen = first_two.clone();
    seen.sort_unstable();
    seen.dedup();
    assert_eq!(seen.len(), 8);
}

#[test]
fn important_rows_stay_and_others_are_drawn() {
    let sample = goss_from_draws(&vec![3, 1, 0, 2], 2, &vec![1]);
    assert_eq!(sample.selected, vec![3, 1, 2]);
    assert_eq!(sample.scales, vec![RowScale::Unused, RowScale::Top, RowScale::Other, RowScale::Top]);
}

#[test]
fn gradients_select_rows_once() {
    let mut rng = StdRng::seed_from_u64(9);
    let importance: Vec<Num> = (0..50).map(|i| num(i as f64)).collect();
    let sample = goss_select(&mut rng, &importance, &num(10.4), &num(15.9));
    assert_eq!(sample.selected.len(), 25);
    assert!(distinct(&sample.selected));
    for row in 40..50 {
        assert!(sample.selected.contains(&row));
        assert_eq!(sample.scales[row as usize], RowScale::Top);
    }
    assert_eq!(sample.scales.iter().filter(|s| **s == RowScale::Other).count(), 15);
}

#[test]
fn rates_are_held_to_their_range() {
    assert_eq!(goss_rates(&num(0.0), &num(-1.0)), (num(0.01), num(0.0)));
    assert_eq!(goss_rates(&num(2.0), &num(2.0)), (num(0.99), num(0.99)));
    assert_eq!(goss_rates(&num(0.25), &num(0.1)), (num(0.25), num(0.1)));
}

#[test]
fn a_row_counts_by_its_highest_class() {
    let values = nums(&[1.0, 5.0, 2.0, 0.5, 7.0, f64::NAN]);
    assert_eq!(goss_importance_multi(&values, 2, 3), nums(&[7.0, 5.0]));
    assert_eq!(keys_of(&nums(&[1.0, 2.0])).len(), 2);
}

#[test]
fn masks_admit_what_is_picked() {
    assert_eq!(mask_of(4, &vec![2, 0, 3], 2), vec![true, false, true, false]);
}

#[test]
fn feature_masks_have_the_wanted_size() {
    let mut rng = StdRng::seed_from_u64(2);
    let half = FeatureSampling { rate: num(0.5), product: num(5.0), diversity: num(0.0), usage_len: 0 };
    let mask = half.make_feature_mask(&mut rng, 10, &vec![]);
    assert_eq!(mask.iter().filter(|m| **m).count(), 5);
    let all = FeatureSampling { rate: num(1.0), product: num(10.0), diversity: num(0.0), usage_len: 0 };
    assert_eq!(all.make_feature_mask(&mut rng, 10, &vec![]), vec![true; 10]);
    let diverse = FeatureSampling { rate: num(0.5), product: num(2.0), diversity: num(0.3), usage_len: 4 };
    assert!(diverse.needs_scores(4));
    let scored = diverse.make_feature_mask(&mut rng, 4, &nums(&[0.1, 0.9, 0.4, 0.2]));
    assert_eq!(scored, vec![false, true, true, false]);
}

#[test]
fn views_join_raw_features_and_one_group() {
    let groups = vec![0, 1, 0, 2, 2];
    let plan = plan_views(&groups, 5, 1, 1, 0).unwrap();
    assert_eq!(plan.raw, vec![0, 2]);
    assert_eq!(plan.aux_id, 2);
    assert_eq!(plan.aux, vec![3, 4]);
    assert!(plan_views(&vec![0, 0], 2, 0, 1, 0).is_none());
    assert!(plan_views(&vec![1, 1], 2, 0, 1, 0).is_none());
    assert!(plan_views(&groups, 4, 0, 1, 0).is_none());
    let mask = view_mask(&groups, &plan, &vec![3, 4, 0, 2], 2, 2, 4);
    assert_eq!(mask, vec![false, false, true, true, true]);
}

#[test]
fn subtree_masks_hold_to_their_view() {
    let mut rng = StdRng::seed_from_u64(4);
    let groups = vec![0, 1, 0, 2, 2];
    let plan = plan_views(&groups, 5, 0, 1, 0);
    assert_eq!(plan.as_ref().unwrap().aux_id, 1);
    let full = FeatureSampling { rate: num(1.0), product: num(5.0), diversity: num(0.0), usage_len: 0 };
    let mask = full.make_feature_mask_for_subtree(&mut rng, 5, &groups, &plan, &num(3.0), &vec![]);
    assert_eq!(mask, vec![true, true, true, false, false]);
    let none = full.make_feature_mask_for_subtree(&mut rng, 5, &groups, &None, &num(3.0), &vec![]);
    assert_eq!(none, vec![true; 5]);
}

#[test]
fn windows_cover_rows_evenly() {
    let rows: Vec<u32> = (0..10).collect();
    let windows = antithetic_windows(&rows, 4, 7);
    let held: Vec<usize> = rows.iter().map(|r| windows.iter().filter(|w| w.contains(r)).count()).collect();
    // Four windows of seven rows in ten: two or three windows for each row.
    assert!(held.iter().all(|&h| h == 2 || h == 3));
    assert_eq!(held.iter().sum::<usize>(), 28);
}

#[test]
fn rounds_at_the_full_rate_take_all_rows() {
    let mut rng = StdRng::seed_from_u64(3);
    let full = RoundSampling { n_sub: 2, rate: num(1.0), product: num(4.0), bootstrap: false, antithetic: false };
    assert_eq!(full.round_subsamples(&mut rng, 4), vec![vec![0, 1, 2, 3]; 2]);
    let pool = vec![9, 4, 6, 1];
    assert_eq!(full.round_subsamples_from_pool(&mut rng, &pool), vec![pool.clone(); 2]);
}

#[test]
fn row_importance_goes_by_the_mode() {
    assert_eq!(goss_importance_form(&"classic".to_string()), ImportanceForm::Gradient);
    assert_eq!(goss_importance_form(&"newton".to_string()), ImportanceForm::Gain);
    assert_eq!(goss_importance_form(&"Classic".to_string()), ImportanceForm::Gain);
}
