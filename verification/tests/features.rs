use gtboost::guided::{
    active_bins, best_tuple, choice_bin, choice_in_range, choose_lookup, guided_pairs, guided_singles, guided_triples,
    guides_lookups, joint_applies, joint_lookup, leaf_qualifies, lookup_columns, GuidedCatChoice, ScoredTuples,
};
use gtboost::interactions::{
    audit_split, category_pair_limit, count_pairs, count_splits, demoted_features, extend_raw_matrix, flatten_feature,
    fold_rows, numeric_features, numeric_pairs, plan_interactions, product_is_stable, rank_pairs, select_products,
    stable_pairs_apply,
};
use gtboost::num::Num;
use gtboost::pressure::{main_effect_from_scored_pressures, EffectEvidence};
use gtboost::prior_cut::{cut_positions, prior_bin_count, prior_columns, settle_prior};
use gtboost::prior::{
    base_weight, can_cut, choose_prior, collect_finite, cut_column, effects_accepted, has_signal, prior_cycles,
    prior_weight, sort_values, PriorKind, VerticalPrior,
};
use gtboost::task::Task;
use gtboost::tree::{BinnedData, DecisionTree, NO_FEATURE};

fn num(x: f64) -> Num {
    Num { bits: x.to_bits() }
}

fn nums(v: &[f64]) -> Vec<Num> {
    v.iter().map(|&x| num(x)).collect()
}

fn categories(n_bins: Vec<usize>, columns: Vec<Vec<u16>>) -> BinnedData {
    let n_features = columns.len();
    let n_rows = columns[0].len();
    let bins: Vec<u16> = columns.into_iter().flatten().collect();
    BinnedData {
        n_rows,
        n_features,
        missing_bin: 999,
        bin_indices: bins.clone(),
        is_categorical: vec![true; n_features],
        cll_is_categorical: vec![true; n_features],
        cll_n_bins: n_bins,
        cll_hash_bins: bins,
    }
}

fn stump() -> DecisionTree {
    DecisionTree {
        split_features: vec![NO_FEATURE],
        split_bins: vec![0],
        left_children: vec![0],
        right_children: vec![0],
        missing_goes_left: vec![false],
        is_cat_split: vec![false],
        cat_left_masks: vec![vec![]],
        is_cat_pair: vec![false],
        pair_routes: vec![vec![]],
        is_oblique_split: vec![false],
        oblique_features: vec![],
        values: nums(&[0.0]),
        cat_lookups: vec![None],
        ramp_k: 0,
        ramp_features: vec![],
        ramp_slopes: vec![],
        leaf_pair_features: vec![],
        leaf_pair_slopes: vec![],
        quad_n_interactions: 0,
        quad_slopes: vec![],
    }
}

#[test]
fn lookups_are_guided_for_many_classes() {
    let data = categories(vec![3, 1, 4], vec![vec![0], vec![0], vec![0]]);
    assert_eq!(lookup_columns(&data), vec![0, 2]);
    assert!(guides_lookups(&num(1.0), 3, 2));
    assert!(!guides_lookups(&num(0.0), 3, 2));
    assert!(!guides_lookups(&num(1.0), 2, 2));
    assert!(!guides_lookups(&num(1.0), 3, 1));
    assert!(leaf_qualifies(&stump(), 0, 8, 3));
    assert!(!leaf_qualifies(&stump(), 0, 7, 3));
    assert!(!leaf_qualifies(&stump(), 0, 11, 6));
    assert_eq!(active_bins(&nums(&[0.5, 2.0, 1.0]), &num(1.0)), vec![1, 2]);
}

#[test]
fn gaining_features_go_on() {
    assert_eq!(guided_singles(&nums(&[0.2, 0.9, f64::NAN, 0.5]), &vec![2, 2, 5, 1]), Some(vec![1, 0]));
    assert_eq!(guided_singles(&nums(&[0.2, -0.9]), &vec![2, 2]), None);
}

#[test]
fn pairs_are_exact_where_they_are_small() {
    let data = categories(vec![3, 4, 400], vec![vec![0], vec![0], vec![0]]);
    let pairs = guided_pairs(&data, &vec![0, 1, 2], 1000);
    assert_eq!(pairs.len(), 3);
    assert_eq!((pairs[0].feature, pairs[0].feature2, pairs[0].n_bins, pairs[0].pair_stride), (0, 1, 12, 4));
    assert_eq!(pairs[2].pair_stride, 0);
    assert_eq!(pairs[2].n_bins, 32);
    let triples = guided_triples(&data, &vec![0, 1, 2], 1000, 3);
    assert!(triples.iter().all(|t| t.n_bins == 4800));
    assert_eq!(guided_triples(&data, &vec![0, 1], 1000, 3).len(), 0);
}

#[test]
fn the_best_tuple_is_chosen() {
    let data = categories(vec![3, 4], vec![vec![0], vec![0]]);
    assert_eq!(best_tuple(&nums(&[0.3, 0.8]), &vec![2, 2], 2), Some(1));
    assert_eq!(best_tuple(&nums(&[0.3, 0.8]), &vec![2, 1], 2), Some(0));
    assert_eq!(best_tuple(&nums(&[-0.3]), &vec![2], 2), None);
    let pair = GuidedCatChoice { feature: 0, feature2: 1, feature3: NO_FEATURE, n_bins: 12, pair_stride: 4, triple_stride: 0 };
    let pairs = ScoredTuples { choices: vec![pair], gains: nums(&[0.5]), active: vec![3] };
    let none = ScoredTuples { choices: vec![], gains: vec![], active: vec![] };
    assert_eq!(choose_lookup(&data, 1, &num(0.4), &pairs, &none).feature2, 1);
    let single = choose_lookup(&data, 1, &num(0.6), &pairs, &none);
    assert_eq!((single.feature, single.feature2, single.n_bins), (1, NO_FEATURE, 4));
}

#[test]
fn rows_fall_into_bins_of_a_choice() {
    let data = categories(vec![3, 4], vec![vec![2, 0, 999], vec![1, 3, 0]]);
    let pair = GuidedCatChoice { feature: 0, feature2: 1, feature3: NO_FEATURE, n_bins: 12, pair_stride: 4, triple_stride: 0 };
    assert!(choice_in_range(&data, &pair));
    assert_eq!((0..3).map(|r| choice_bin(&data, &pair, r)).collect::<Vec<Option<usize>>>(), vec![Some(9), Some(3), None]);
    let hashed = GuidedCatChoice { pair_stride: 0, n_bins: 8, ..pair };
    assert_eq!(choice_bin(&data, &hashed, 0), Some((2 * 257 + 1) % 8));
    let outside = GuidedCatChoice { feature: 7, ..pair };
    assert!(!choice_in_range(&data, &outside));
}

#[test]
fn joint_lookups_fill_missing_bins_with_the_base() {
    assert!(joint_applies(&num(1.0), 3, 5, 5, 15));
    assert!(!joint_applies(&num(1.0), 3, 5, 4, 15));
    let pair = GuidedCatChoice { feature: 0, feature2: 1, feature3: NO_FEATURE, n_bins: 2, pair_stride: 2, triple_stride: 0 };
    let lookup = joint_lookup(&pair, &num(0.25), &vec![Some(num(0.5)), None]);
    assert_eq!(lookup.bin_values, nums(&[0.5, 0.25]));
    assert_eq!(lookup.default_value, num(0.25));
    assert_eq!((lookup.feature, lookup.feature2), (0, 1));
}

#[test]
fn interactions_are_planned_by_task() {
    let plan = plan_interactions(true, true, Task::Binary, 2, 2, 0, 100, 50).unwrap();
    assert!(plan.numeric && plan.categorical);
    assert_eq!((plan.max_pairs, plan.warmup_rounds), (10, 15));
    let large = plan_interactions(true, true, Task::Regression, 2, 2, 7, 5000, 50).unwrap();
    assert!(!large.categorical);
    assert_eq!((large.max_pairs, large.warmup_rounds), (7, 6));
    assert!(plan_interactions(true, true, Task::Regression, 1, 2, 0, 100, 50).is_none());
    assert_eq!(plan_interactions(true, false, Task::Binary, 2, 0, 0, 100, 4).unwrap().warmup_rounds, 4);
}

#[test]
fn pairs_are_ranked_and_joined() {
    let pairs = vec![(0, 1), (0, 2), (1, 2)];
    assert_eq!(rank_pairs(&pairs, &nums(&[0.5, 0.9, 0.5]), 2), vec![(0, 2), (0, 1)]);
    assert_eq!(select_products(&vec![(1, 2), (0, 1)], &vec![(0, 2), (1, 2), (0, 1)], 3), vec![(1, 2), (0, 2), (0, 1)]);
    assert_eq!(category_pair_limit(20), 8);
    assert_eq!(numeric_pairs(&vec![5, 2, 9]), vec![(2, 5), (5, 9), (2, 9)]);
    assert_eq!(numeric_features(&vec![true, false], 3), vec![1, 2]);
}

#[test]
fn stable_products_need_rows_and_agreement() {
    assert!(stable_pairs_apply(64, 2, 128, 2));
    assert!(!stable_pairs_apply(63, 2, 128, 2));
    assert!(!stable_pairs_apply(64, 129, 64 * 129, 129));
    assert!(!stable_pairs_apply(64, 2, 127, 2));
    let x = nums(&[1.0, 2.0, f64::NAN, 2.0, 3.0, 4.0, 5.0, 6.0]);
    let y = nums(&[0.0, 0.0, 0.0, 0.0]);
    assert_eq!(fold_rows(&x, &y, 4, 2, 0, 1, 0), vec![0, 2]);
    assert_eq!(fold_rows(&x, &y, 4, 2, 0, 1, 1), vec![3]);
    assert!(product_is_stable(&num(0.1), &num(0.03), &num(1.0)));
    assert!(!product_is_stable(&num(0.0), &num(0.03), &num(1.0)));
    assert!(!product_is_stable(&num(0.1), &num(0.02), &num(1.0)));
}

#[test]
fn splits_and_pairs_are_counted() {
    assert_eq!(count_splits(&vec![0, NO_FEATURE, 2, 0, 9], 3), vec![2, 0, 1]);
    let counted = count_pairs(&vec![(0, 1), (2, 3), (0, 1)]);
    let at = counted.pairs.iter().position(|p| *p == (0, 1)).unwrap();
    assert_eq!(counted.pairs.len(), 2);
    assert_eq!(counted.counts[at], 2);
}

#[test]
fn columns_are_added_to_rows() {
    let (x, width) = extend_raw_matrix(&nums(&[1.0, 2.0, 3.0, 4.0]), 2, 2, &vec![nums(&[7.0, 8.0])]);
    assert_eq!(width, 3);
    assert_eq!(x, nums(&[1.0, 2.0, 7.0, 3.0, 4.0, 8.0]));
    assert_eq!(extend_raw_matrix(&nums(&[1.0]), 1, 1, &vec![]).0, nums(&[1.0]));
}

#[test]
fn wide_categories_are_flattened() {
    let mut data = categories(vec![3, 4], vec![vec![2, 0, 999], vec![1, 3, 0]]);
    assert_eq!(demoted_features(&data, &vec![true, true], &vec![100, 3], 64, true), vec![0]);
    assert_eq!(demoted_features(&data, &vec![true, true], &vec![100, 3], 64, false), Vec::<usize>::new());
    flatten_feature(&mut data, 0);
    assert_eq!(data.bin_indices, vec![0, 0, 999, 1, 3, 0]);
    assert_eq!(data.cll_is_categorical, vec![false, true]);
}

#[test]
fn one_row_in_five_is_held_back() {
    let (select, honest) = audit_split(200, 5).unwrap();
    assert_eq!(honest.len(), 40);
    assert_eq!(honest[..6], [0, 5, 12, 22, 27, 29]);
    assert_eq!(select.len(), 160);
    assert!(audit_split(159, 5).is_none());
}

#[test]
fn values_have_bins_between_edges() {
    let edges = nums(&[1.0, 2.0, 3.0]);
    let bins: Vec<usize> =
        [0.5, 1.0, 1.5, 3.0, 9.0, f64::NAN].iter().map(|v| VerticalPrior::bin_index(&edges, &num(*v))).collect();
    assert_eq!(bins, vec![0, 0, 1, 2, 3, 4]);
}

#[test]
fn a_prior_sums_the_effects_of_a_row() {
    let prior = VerticalPrior {
        mean: num(0.5),
        edges: vec![nums(&[1.0]), nums(&[2.0])],
        effects: vec![nums(&[0.1, 0.2, 0.0]), nums(&[0.3, 0.4, 0.0])],
    };
    assert!(prior.is_active());
    assert_eq!(prior.predict_row(&nums(&[5.0, 1.0])), nums(&[0.2, 0.3]));
    assert!(prior.predicts_rows(4, 2, 2));
    assert!(!prior.predicts_rows(3, 2, 2));
    assert!(!VerticalPrior::none().is_active());
}

#[test]
fn priors_are_for_regression_and_two_classes() {
    assert_eq!(choose_prior(true, Task::Regression, 2, 2, 4, 2), PriorKind::Regression);
    assert_eq!(choose_prior(true, Task::Binary, 2, 2, 4, 2), PriorKind::Binary);
    assert_eq!(choose_prior(true, Task::Poisson, 2, 2, 4, 2), PriorKind::Off);
    assert_eq!(choose_prior(false, Task::Binary, 2, 2, 4, 2), PriorKind::Off);
    assert_eq!(choose_prior(true, Task::Binary, 2, 2, 3, 2), PriorKind::Off);
    assert_eq!(choose_prior(true, Task::Binary, 2, 2, 4, 1), PriorKind::Off);
}

#[test]
fn columns_are_cut_at_distinct_values() {
    let x = nums(&[3.0, 0.0, f64::NAN, 0.0, 1.0, 0.0, 2.0, 0.0]);
    let values = collect_finite(&x, 4, 2, 0);
    assert_eq!(values, nums(&[3.0, 1.0, 2.0]));
    let sorted = sort_values(&values);
    assert_eq!(sorted, nums(&[1.0, 2.0, 3.0]));
    assert!(can_cut(&sorted, 3));
    assert!(!can_cut(&sorted, 4));
    assert!(!can_cut(&nums(&[1.0, 1.0, 1.0]), 3));
    assert_eq!(cut_column(&sorted, &vec![0, 0, 2]), nums(&[1.0, 3.0]));
    assert_eq!(prior_cycles(0), 1);
    assert_eq!(prior_cycles(99), 8);
    assert!(effects_accepted(&num(0.9), &num(1.0)));
    assert!(!effects_accepted(&num(1.0), &num(1.0)));
    assert!(has_signal(&vec![nums(&[0.0, 1e-6])]));
    assert!(!has_signal(&vec![nums(&[0.0, 1e-13])]));
}

#[test]
fn weights_must_be_usable() {
    let weights = Some(nums(&[2.0, -1.0, f64::NAN]));
    assert_eq!(prior_weight(&weights, 0), num(2.0));
    assert_eq!(prior_weight(&weights, 1), num(1.0));
    assert_eq!(prior_weight(&weights, 9), num(1.0));
    assert_eq!(prior_weight(&None, 0), num(1.0));
    assert_eq!(base_weight(&num(2.0)), num(2.0));
    assert_eq!(base_weight(&num(-2.0)), num(0.0));
    assert_eq!(base_weight(&num(f64::INFINITY)), num(0.0));
}

#[test]
fn main_effects_are_taken_where_they_dominate() {
    let strong = EffectEvidence {
        total: num(10.0),
        best: num(9.0),
        share: num(0.9),
        min_share: num(0.5),
        ratio: num(9.0),
        floor: num(0.1),
    };
    assert_eq!(main_effect_from_scored_pressures(&vec![4, 2], &strong), Some(4));
    let weak = EffectEvidence { share: num(0.2), ratio: num(1.1), ..strong };
    assert_eq!(main_effect_from_scored_pressures(&vec![4, 2], &weak), None);
}

#[test]
fn columns_are_cut_at_even_shares() {
    assert_eq!(cut_positions(9, 4), vec![2, 4, 6]);
    assert_eq!(cut_positions(2, 4), vec![0, 1, 1]);
    assert_eq!(cut_positions(1, 1), Vec::<usize>::new());
    for n in [8usize, 30, 101] {
        let by_float: Vec<usize> =
            (1..7).map(|q| ((q as f64) * ((n - 1) as f64) / 7.0).round() as usize).collect();
        assert_eq!(cut_positions(n, 7), by_float);
    }
}

#[test]
fn bins_follow_the_square_root() {
    assert_eq!(prior_bin_count(100, 100), 10);
    assert_eq!(prior_bin_count(3, 3), 4);
    assert_eq!(prior_bin_count(10_000, 9), 4);
    assert_eq!(prior_bin_count(10_000, 30), 5);
    assert_eq!(prior_bin_count(1_000_000, 1_000_000), 64);
    assert_eq!(prior_bin_count(90, 91), 9);
    assert_eq!(prior_bin_count(91, 91), 10);
}

#[test]
fn priors_cut_numeric_columns_only() {
    let x = nums(&[
        1.0, 5.0, 1.0, //
        2.0, 5.0, 2.0, //
        3.0, 5.0, 3.0, //
        4.0, 5.0, f64::NAN, //
        5.0, 5.0, 5.0,
    ]);
    let r = prior_columns(PriorKind::Regression, &x, 5, 3, &vec![true, false, false]);
    assert_eq!(r.effects, vec![1, 1, 4]);
    assert_eq!(r.edges[2], nums(&[2.0, 3.0]));
    assert_eq!(r.bins, vec![vec![0; 5], vec![0; 5], vec![0, 0, 1, 3, 2]]);
    let undeclared = prior_columns(PriorKind::Regression, &x, 5, 3, &vec![true]);
    assert_eq!(undeclared.effects[0], 5);
    let fewer = prior_columns(PriorKind::Binary, &x, 5, 3, &Vec::new());
    assert_eq!(fewer.effects, vec![1, 1, 1]);
}

#[test]
fn priors_are_kept_where_they_say_something() {
    let x = nums(&[1.0, 5.0, 2.0, 5.0, 3.0, 5.0, 4.0, 5.0, 5.0, 5.0]);
    let columns = || prior_columns(PriorKind::Regression, &x, 5, 2, &Vec::new());
    let effects: Vec<Vec<Num>> =
        columns().effects.iter().map(|&n| (0..n).map(|b| num(0.5 + b as f64)).collect()).collect();
    let kept = settle_prior(PriorKind::Regression, num(2.0), columns(), effects.clone());
    assert!(kept.is_active());
    assert_eq!(kept.mean, num(2.0));
    assert!(!settle_prior(PriorKind::Off, num(2.0), columns(), effects.clone()).is_active());
    let silent: Vec<Vec<Num>> = effects.iter().map(|e| vec![num(0.0); e.len()]).collect();
    assert!(!settle_prior(PriorKind::Regression, num(2.0), columns(), silent).is_active());
    // A training row finds the effects of the bins it was fitted in.
    let bins = columns().bins;
    for row in 0..5 {
        let fitted: Vec<Num> =
            (0..2).filter(|&f| effects[f].len() > 1).map(|f| effects[f][bins[f][row]]).collect();
        assert_eq!(kept.predict_row(&x[2 * row..2 * row + 2].to_vec()), fitted);
        assert_eq!(fitted.len(), 1);
    }
    assert_eq!(kept.predict_row(&nums(&[3.0, 5.0])), vec![num(0.5 + bins[0][2] as f64)]);
}
