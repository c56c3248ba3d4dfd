use gtboost::columns::{pairs_among, CtrPart, DerivedColumn, DerivedCounts};
use gtboost::ctr_select::{
    best_features, class_indicator, ctr_pair_candidates, ctr_single_candidates, ctr_triple_candidates, CtrSettings,
};
use gtboost::evidence::{evidence_outputs, lifts_are_differences};
use gtboost::expert::{vceg_shadow_shift, shadow_position};
use gtboost::expert_plan::{
    expert_columns, expert_goes_on, experts_sought, shadow_rows, shadow_threshold, shadow_trials, spread_columns,
    ExpertLeaf, ExpertRows, BUILD_SALT, CALIBRATION_SALT,
};
use gtboost::gradients::{settle_range, side_weight, trim_range};
use gtboost::guided::guided_leaves;
use gtboost::hashing::{ctr_pair_key, ctr_triple_key};
use gtboost::model::GTBoostModel;
use gtboost::multiclass::{tree_class, GrowPolicy};
use gtboost::num::Num;
use gtboost::rounds::{
    best_trees, excluded_bucket, leaf_survives, step_overshoots, tree_of_round, LeafFit, LookupFit, RowSet,
    ScoreUpdate, SplitKinds,
};
use gtboost::task::Task;
use gtboost::tree::{BinnedData, DecisionTree, NO_FEATURE};

fn num(x: f64) -> Num {
    Num { bits: x.to_bits() }
}

fn nums(v: &[f64]) -> Vec<Num> {
    v.iter().map(|&x| num(x)).collect()
}

/// A model with the usual settings.
fn model(task: &str) -> GTBoostModel {
    GTBoostModel::new(
        num(0.3), // learning_rate
        6, // max_depth
        num(1.0), // subsample_rate
        num(0.0), // base_score
        false, // vertical_init
        2, // vertical_init_cycles
        num(1.0), // lambda_reg
        num(0.0), // gamma
        num(1.0), // min_child_weight
        num(1.0), // colsample_bytree
        task.to_string(), // task
        256, // num_bins
        None, // seed
        "depthwise".to_string(), // grow_policy
        0, // max_leaves
        0, // n_refine
        0, // n_leaf_splits
        0, // refine_every
        0, // early_stopping_rounds
        "auto".to_string(), // eval_metric
        0, // verbose
        num(0.0), // l1_reg
        num(1.0), // refine_alpha
        false, // honest
        num(0.5), // honest_fraction
        false, // honest_arbitration
        Vec::new(), // feature_gain_prior
        num(0.0), // thermal
        false, // stein_leaves
        false, // stein_levels
        num(0.5), // thermal_n_exp
        num(1.0), // thermal_depth_gamma
        num(1.0), // colsample_bylevel
        1, // n_trees_per_round
        Vec::new(), // cat_features
        num(0.0), // grad_clip
        num(0.0), // random_strength
        num(0.0), // bagging_temperature
        num(0.0), // huber_delta
        num(0.0), // cat_smooth
        num(0.0), // cat_lookup_smooth
        Vec::new(), // monotone_constraints
        0, // max_cat_bins
        false, // leaf_linear
        false, // leaf_quadratic
        0, // leaf_correction
        num(0.0), // grad_momentum
        num(0.0), // gain_penalty
        num(0.0), // split_pessimism
        num(0.0), // cat_audit_strength
        num(0.0), // split_contrast_penalty
        num(0.0), // signal_gate
        false, // supervised_bins
        0, // fold_ordered
        false, // cat_fold_evidence
        12, // cfe_max_pairs
        8, // cfe_max_triples
        6, // cfe_max_quads
        num(20.0), // cfe_smooth
        true, // cfe_demote_raw
        64, // cfe_demote_min_card
        false, // self_score_splits
        false, // hetero_trees
        num(0.0), // dart_rate
        num(0.0), // max_delta_step
        0, // main_effect_interval
        1, // main_effect_depth
        false, // cyclic_features
        0, // cyclic_max_features_per_round
        false, // auto_interactions
        false, // auto_cat_interactions
        20, // max_interaction_features
        num(0.0), // lambda_schedule
        false, // use_bootstrap
        false, // extra_trees
        num(0.0), // label_smooth
        false, // multi_output_tree
        false, // multiclass_pair_sequence
        0, // complement_debias_mode
        "".to_string(), // phase_schedule
        num(0.0), // ncl_lambda
        false, // adaptive_cyclic_order
        false, // cyclic_partner_features
        num(0.0), // cyclic_partner_min_pressure_ratio
        8, // cyclic_partner_bins
        false, // cyclic_feature_reuse
        0, // cyclic_revisit_trees
        false, // adaptive_root_anchor
        false, // sparse_oblique_splits
        false, // interval_splits
        num(0.0), // adam_beta2
        num(1e-8), // adam_eps
        num(0.0), // ortho_alpha
        "newton".to_string(), // split_criterion
        num(0.0), // rank_mix_alpha
        num(0.0), // rank_mix_start_frac
        num(1.0), // rank_pair_temperature
        num(0.0), // binary_focus_gamma
        num(0.0), // binary_focus_end_frac
        num(0.0), // residual_focus_alpha
        num(2.0), // residual_focus_max_scale
        "full".to_string(), // residual_focus_mode
        "equal".to_string(), // residual_focus_hessian_mode
        num(0.0), // residual_focus_redescend_tau
        Vec::new(), // feature_view_groups
        num(0.0), // leaf_trim_pct
        false, // leaf_median
        num(0.0), // leaf_median_blend
        num(0.0), // leaf_mad_clip
        num(0.0), // leaf_adaptive_blend_kappa
        false, // ordered_boost
        num(0.0), // goss_top_rate
        num(0.0), // goss_other_rate
        false, // keep_all_trees
        false, // corrective_block_refit
        16, // corrective_blocks
        num(1.0), // corrective_lambda
        num(1.0), // corrective_blend
        num(0.0), // corrective_audit_fraction
        false, // leaf_eb
        10, // leaf_eb_min_trees
        num(1.0), // leaf_eb_scale
        num(0.0), // leaf_sibling_smooth
        num(0.0), // hierarchical_shrinkage
        false, // multiclass_coupled_leaves
        Vec::new(), // class_weights
        false, // adaptive_leaf_experts
        false, // adaptive_cat_lookup_smooth
        num(0.0), // cat_offset_smooth
        0, // cat_offset_passes
        false, // expert_leaf_admission
        64, // expert_min_leaf
        num(0.0), // newton_decrement_cap
        num(0.0), // lookahead_alpha
        num(0.0), // sign_confidence_gamma
        num(0.0), // soft_predict_bandwidth
        num(0.0), // soft_leaf_bandwidth
        1, // soft_leaf_passes
        num(0.0), // leaf_var_shrink
        num(1.0), // jensen_train_temp
        false, // jit_catpair_enabled
        4, // jit_catpair_top_k
        8, // jit_catpair_k_buckets
        512, // jit_catpair_min_node_rows
        2, // jit_catpair_max_node_depth
        num(1.05), // jit_catpair_gain_margin
        false, // jit_ltso_enabled
    )
}

fn split_tree() -> DecisionTree {
    DecisionTree {
        split_features: vec![0, NO_FEATURE, NO_FEATURE],
        split_bins: vec![0, 0, 0],
        left_children: vec![1, 0, 0],
        right_children: vec![2, 0, 0],
        missing_goes_left: vec![true, false, false],
        is_cat_split: vec![false; 3],
        cat_left_masks: vec![vec![]; 3],
        is_cat_pair: vec![false; 3],
        pair_routes: vec![vec![]; 3],
        is_oblique_split: vec![false; 3],
        oblique_features: vec![],
        values: nums(&[0.0, 1.0, 2.0]),
        cat_lookups: vec![None, None, None],
        ramp_k: 0,
        ramp_features: vec![],
        ramp_slopes: vec![],
        leaf_pair_features: vec![],
        leaf_pair_slopes: vec![],
        quad_n_interactions: 0,
        quad_slopes: vec![],
    }
}

/// Twelve rows; the first four go left.
fn split_data() -> BinnedData {
    let mut bins: Vec<u16> = vec![0; 4];
    bins.extend(vec![1; 8]);
    bins.extend(vec![5; 12]);
    BinnedData {
        n_rows: 12,
        n_features: 2,
        missing_bin: 999,
        bin_indices: bins.clone(),
        is_categorical: vec![false, true],
        cll_is_categorical: vec![false, true],
        cll_n_bins: vec![2, 2],
        cll_hash_bins: bins,
    }
}

#[test]
fn derived_columns_come_in_order() {
    let counts = DerivedCounts {
        products: 1,
        buckets: 1,
        singles: 2,
        pairs: 1,
        triples: 1,
        evidence: 1,
        residual: 1,
        virtuals: 1,
    };
    let rows = counts.derived_columns(false);
    assert_eq!(
        rows,
        vec![
            DerivedColumn::Product(0),
            DerivedColumn::Bucket(0),
            DerivedColumn::Single(0, CtrPart::Encoding),
            DerivedColumn::Single(0, CtrPart::Count),
            DerivedColumn::Single(1, CtrPart::Encoding),
            DerivedColumn::Single(1, CtrPart::Count),
            DerivedColumn::Pair(0, CtrPart::Encoding),
            DerivedColumn::Pair(0, CtrPart::Count),
            DerivedColumn::Pair(0, CtrPart::Residual),
            DerivedColumn::Triple(0, CtrPart::Encoding),
            DerivedColumn::Triple(0, CtrPart::Count),
            DerivedColumn::Triple(0, CtrPart::Residual),
            DerivedColumn::Evidence(0),
            DerivedColumn::ResidualEvidence(0),
        ]
    );
    let bins = counts.derived_columns(true);
    assert_eq!(bins[..rows.len()].to_vec(), rows);
    assert_eq!(bins[rows.len()..].to_vec(), vec![DerivedColumn::Virtual(0)]);
    assert_eq!(pairs_among(&vec![(0, 1), (1, 2), (0, 2)], &vec![2, 0]), vec![2]);
}

#[test]
fn target_statistics_have_settings() {
    let settings = CtrSettings {
        enabled: true,
        task: Task::Binary,
        top_features: 4,
        min_count: 0,
        permutations: 0,
        smooth: num(0.0),
    };
    assert!(settings.applies(1, 1));
    assert!(!settings.applies(0, 1));
    assert!(!CtrSettings { top_features: 0, ..settings }.applies(1, 1));
    assert!(!CtrSettings { enabled: false, ..settings }.applies(1, 1));
    assert_eq!((settings.least_rows(), settings.orders(), settings.smoothing()), (1, 1, num(1e-12)));
    let other = CtrSettings { min_count: 3, permutations: 2, smooth: num(5.0), ..settings };
    assert_eq!((other.least_rows(), other.orders(), other.smoothing()), (3, 2, num(5.0)));
}

#[test]
fn categories_with_two_groups_are_scored() {
    // Feature 0 is constant, feature 1 has two values, feature 2 is no category.
    let x: Vec<Num> = (0..10).flat_map(|r| nums(&[7.0, (r % 2) as f64, r as f64])).collect();
    let cat = vec![true, true, false];
    let list = ctr_single_candidates(&x, 10, 3, &cat, Task::Binary);
    assert_eq!(list.len(), 1);
    assert_eq!(list[0].members, vec![1]);
    assert_eq!(list[0].keys[..3], [0, 1, 0]);
    assert_eq!(list[0].groups.rows[1], vec![1, 3, 5, 7, 9]);
    assert_eq!(ctr_single_candidates(&x, 10, 3, &cat, Task::Multiclass).len(), 2);
    assert_eq!(best_features(&vec![4, 7, 9], &nums(&[0.1, -1.0, 0.5]), 5), vec![9, 4]);
    assert_eq!(best_features(&vec![4, 7, 9], &nums(&[0.1, 0.2, 0.5]), 1), vec![9]);
}

#[test]
fn tuples_with_large_groups_are_scored() {
    // Features 0 and 1 have two values each, feature 2 has a value for each row.
    let x: Vec<Num> = (0..20).flat_map(|r| nums(&[(r % 2) as f64, (r / 10) as f64, r as f64])).collect();
    let pairs = ctr_pair_candidates(&x, 20, 3, &vec![1, 0, 2], 1);
    assert_eq!(pairs.len(), 1);
    assert_eq!(pairs[0].members, vec![1, 0]);
    assert_eq!(pairs[0].keys[1], ctr_pair_key(0, 1));
    assert_eq!(pairs[0].groups.keys.len(), 4);
    assert_eq!(ctr_pair_candidates(&x, 20, 3, &vec![1, 0, 2], 6).len(), 0);
    let same = vec![1, 0, 0];
    let triples = ctr_triple_candidates(&x, 20, 3, &same, 1, Task::Binary);
    assert_eq!(triples.len(), 1);
    assert_eq!(triples[0].keys[1], ctr_triple_key(0, 1, 1));
    assert_eq!(ctr_triple_candidates(&x, 20, 3, &same, 1, Task::Regression).len(), 0);
    assert_eq!(ctr_triple_candidates(&x, 20, 3, &vec![1, 0], 1, Task::Binary).len(), 0);
}

#[test]
fn labels_are_told_by_class() {
    let y = nums(&[0.0, 1.2, 2.0, -1.0, f64::NAN]);
    assert_eq!(class_indicator(&y, 1), vec![false, true, false, false, false]);
    assert_eq!(class_indicator(&y, 0), vec![true, false, false, false, false]);
    assert_eq!(evidence_outputs(Task::Binary, &y), Some(1));
    assert_eq!(evidence_outputs(Task::Multiclass, &y), Some(3));
    assert_eq!(evidence_outputs(Task::Multiclass, &nums(&[0.0])), None);
    assert!(lifts_are_differences(Task::Regression));
    assert!(!lifts_are_differences(Task::Multiclass));
}

#[test]
fn experts_are_sought_in_large_leaves() {
    let (tree, data) = (split_tree(), split_data());
    assert_eq!(expert_columns(&data), vec![0]);
    assert!(experts_sought(true, 1, 1, 1));
    assert!(!experts_sought(true, 1, 0, 1));
    let rows = ExpertRows {
        build: vec![0, 1, 2, 4, 5, 6, 7],
        calibration: vec![3, 8, 9],
        min_build: 3,
        min_calibration: 2,
    };
    let leaves = rows.expert_leaves(&tree, &data, &vec![NO_FEATURE, NO_FEATURE, 0], 1);
    assert_eq!(leaves.len(), 1);
    assert_eq!(leaves[0].node, 2);
    assert_eq!(leaves[0].build, vec![4, 5, 6, 7]);
    assert_eq!(leaves[0].calibration, vec![8, 9]);
    assert_eq!(leaves[0].path, vec![0]);
    assert_eq!(spread_columns(&nums(&[0.0, 1.0, 1e-13])), vec![1]);
    assert!(expert_goes_on(&nums(&[1.0, 2.0]), &num(0.5)));
    assert!(!expert_goes_on(&nums(&[1.0, f64::NAN]), &num(0.5)));
    assert!(!expert_goes_on(&nums(&[1.0]), &num(1e-9)));
}

#[test]
fn shadow_trials_turn_both_row_lists() {
    assert_eq!(shadow_trials(20, 5, 5), 8);
    assert_eq!(shadow_trials(3, 5, 5), 3);
    assert_eq!(shadow_trials(3, 1, 5), 0);
    let leaf = ExpertLeaf {
        node: 2,
        build: vec![10, 11, 12, 13, 14],
        calibration: vec![20, 21, 22],
        path: vec![],
    };
    let (build, calibration) = shadow_rows(3, &leaf, 1);
    let a = vceg_shadow_shift(3, 5, 2, 1, BUILD_SALT);
    let b = vceg_shadow_shift(3, 3, 2, 1, CALIBRATION_SALT);
    assert!((0..5).all(|p| build[p] == leaf.build[shadow_position(p, a, 5)]));
    assert!((0..3).all(|p| calibration[p] == leaf.calibration[shadow_position(p, b, 3)]));
    assert!((0..5).all(|p| build[p] != leaf.build[p]));
    assert_eq!(shadow_threshold(&vec![Some(num(-1.0)), None]), num(0.0));
    assert_eq!(shadow_threshold(&vec![Some(num(1.0)), Some(num(3.0)), None]), num(3.0));
}

#[test]
fn score_ranges_are_settled() {
    assert_eq!(side_weight(&num(1.0), &(num(2.0), num(3.0))), num(3.0));
    assert_eq!(side_weight(&num(0.5), &(num(2.0), num(3.0))), num(2.0));
    let range = (num(-9.0), num(9.0));
    assert_eq!(trim_range(&range, &num(1.0), &num(-8.0), &num(20.0)), (num(-8.0), num(9.0)));
    assert_eq!(trim_range(&range, &num(0.0), &num(-8.0), &num(20.0)), range);
    let around = (num(1.0), num(3.0));
    assert_eq!(settle_range(0, &range, &num(-9.0), &around), (num(-1.0), num(1.0)));
    assert_eq!(settle_range(5, &range, &num(-9.0), &around), range);
    assert_eq!(settle_range(5, &(num(2.0), num(2.0)), &num(2.0), &around), around);
    assert_eq!(settle_range(5, &(num(f64::NEG_INFINITY), num(2.0)), &num(0.0), &around), around);
}

#[test]
fn lookups_are_sought_in_large_leaves() {
    let rows: Vec<u32> = (0..12).collect();
    let leaves = guided_leaves(&split_tree(), &split_data(), &rows, 3);
    assert_eq!(leaves.len(), 1);
    assert_eq!(leaves[0].node, 2);
    assert_eq!(leaves[0].rows, vec![4, 5, 6, 7, 8, 9, 10, 11]);
    assert_eq!(guided_leaves(&split_tree(), &split_data(), &rows, 5).len(), 0);
}

#[test]
fn shared_trees_are_planned() {
    let mut s = model("multiclass").settings;
    let plain = s.plan_shared_tree(3);
    assert_eq!((plain.leaves, plain.lookups, plain.update), (LeafFit::Newton, LookupFit::AsBuilt, ScoreUpdate::LeaveOneOut));
    s.leaf_median = true;
    assert_eq!(s.plan_shared_tree(3).leaves, LeafFit::Robust);
    s.honest = true;
    s.cat_lookup_smooth = num(1.0);
    let honest = s.plan_shared_tree(3);
    assert_eq!(honest.leaves, LeafFit::Honest);
    assert!(honest.refits_lookups);
    assert_eq!(honest.lookups, LookupFit::Single(RowSet::Structure));
    assert_eq!(honest.update, ScoreUpdate::Direct);
    s.adaptive_leaf_experts = true;
    assert_eq!(s.plan_shared_tree(3).lookups, LookupFit::Guided(RowSet::Estimation));
    assert_eq!(s.plan_shared_tree(2).lookups, LookupFit::Best(RowSet::Estimation));
    assert!(!s.plan_shared_tree(3).joint);
    s.multiclass_joint_cll = true;
    s.multiclass_coupled_leaves = true;
    assert!(s.plan_shared_tree(3).joint && s.plan_shared_tree(3).coupled);
    s.prob_avg = true;
    assert!(!s.plan_shared_tree(3).coupled);
}

#[test]
fn single_trees_are_planned() {
    let mut s = model("multiclass").settings;
    assert_eq!(s.plan_single_tree(0).leaves, LeafFit::AsBuilt);
    assert_eq!(s.plan_single_tree(0).update, ScoreUpdate::LeaveOneOut);
    s.cat_lookup_smooth = num(1.0);
    assert_eq!(s.plan_single_tree(0).lookups, LookupFit::AsBuilt);
    s.grow_policy = "oblivious".to_string();
    assert_eq!(s.plan_single_tree(0).lookups, LookupFit::Single(RowSet::Sample));
    s.honest = true;
    assert!(!s.plan_single_tree(5).refits_lookups);
    s.adaptive_leaf_experts = true;
    assert_eq!(s.plan_single_tree(5).lookups, LookupFit::Best(RowSet::Estimation));
    assert_eq!(s.plan_single_tree(0).lookups, LookupFit::Best(RowSet::Structure));
    assert_eq!(s.build_smoothing(), num(0.0));
    assert!(s.scores_experts());
}

#[test]
fn ordered_trees_are_planned() {
    let mut s = model("multiclass").settings;
    s.multiclass_coupled_leaves = true;
    s.adaptive_leaf_experts = true;
    let plan = s.plan_ordered_tree();
    assert!(plan.coupled);
    assert_eq!((plan.leaves, plan.lookups, plan.update), (LeafFit::Newton, LookupFit::Best(RowSet::Sample), ScoreUpdate::Direct));
    assert_eq!((0..6).map(|t| excluded_bucket(t, 2, 3)).collect::<Vec<usize>>(), vec![0, 0, 1, 1, 2, 2]);
}

#[test]
fn rounds_are_planned() {
    let mut s = model("multiclass").settings;
    s.prob_avg = true;
    s.n_trees_per_round = 3;
    let one = s.plan_shared_round(1, 3);
    assert!(one.frequencies && one.parallel && !one.guided && !one.extra_trees);
    assert!(!s.plan_shared_round(2, 3).frequencies);
    s.ncl_lambda = num(0.5);
    assert!(!s.plan_shared_round(1, 3).parallel);
    assert!(s.decorrelates(0, 3));
    assert!(!s.decorrelates(2, 3));
    assert!(!s.keeps_marks(4));
    s.n_refine = 1;
    assert!(s.keeps_marks(4) && !s.keeps_marks(0));
    assert_eq!(s.leaf_limit(), 64);
    s.max_leaves = 31;
    assert_eq!(s.leaf_limit(), 31);
    assert!(!s.stops_early(true));
    s.early_stopping_rounds = 5;
    assert!(s.stops_early(true) && !s.stops_early(false));
    assert_eq!(s.decrement_cap(), num(1.0));
    s.newton_decrement_cap = num(0.5);
    assert_eq!(s.decrement_cap(), num(0.5));
    assert!(!s.blends_refits());
    s.refine_alpha = num(0.9);
    assert!(s.blends_refits());
}

#[test]
fn steps_and_leaves_are_judged() {
    assert!(step_overshoots(&num(2.0), &num(1.0)));
    assert!(!step_overshoots(&num(1.0), &num(1.0)));
    assert!(!step_overshoots(&num(f64::INFINITY), &num(1.0)));
    assert!(leaf_survives(&num(1e-9)));
    assert!(!leaf_survives(&num(1e-10)));
    assert_eq!(best_trees(4, 3, 2), 24);
}

#[test]
fn trees_of_a_round_serve_their_classes() {
    for k in 0..3 {
        for sub in 0..2 {
            let t = tree_of_round(12, 3, 2, k, sub);
            assert_eq!(t, 6 + 2 * k + sub);
            assert_eq!(tree_class(t, 2, 3), k);
        }
    }
}

#[test]
fn split_kinds_follow_the_settings() {
    let mut s = model("multiclass").settings;
    for policy in [GrowPolicy::Depthwise, GrowPolicy::Leafwise, GrowPolicy::Oblivious] {
        assert_eq!(s.split_kinds(policy, 1), SplitKinds::none());
    }
    s.interval_splits = true;
    s.sparse_oblique_splits = true;
    s.jit_catpair_enabled = true;
    assert_eq!(
        s.split_kinds(GrowPolicy::Depthwise, 1),
        SplitKinds { interval: true, oblique: true, cat_pair: true }
    );
    assert_eq!(
        s.split_kinds(GrowPolicy::Leafwise, 1),
        SplitKinds { interval: false, oblique: false, cat_pair: true }
    );
    assert_eq!(s.split_kinds(GrowPolicy::Oblivious, 1), SplitKinds::none());
    assert_eq!(s.split_kinds(GrowPolicy::Depthwise, 3), SplitKinds::none());
}
