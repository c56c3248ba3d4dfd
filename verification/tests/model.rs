use gtboost::dataset::{effective_bins, GTBoostDataset, Matrix};
use gtboost::errors::{decimal_text, ModelError};
use gtboost::fit::{
    compute_base_scores_for_fit, leaf_split_pass, pad_constraints, run_warmup_trees, settle_rate, settle_share,
    weighted_or_plain, AnnealedShare, BaseScore, FitInput, WarmupLoss,
};
use gtboost::model::{GTBoostModel, MODEL_FORMAT_VERSION};
use gtboost::num::Num;
use gtboost::predict::{
    checkpoint_major, expected_length, BinLayout, CheckpointPlan, ScoreStart, TreeRate, TreeTraits, TreeWalk,
};
use gtboost::report::ModelSnapshot;
use gtboost::sampling::sample_without_repetition;
use gtboost::task::Task;
use gtboost::tree::{BinnedData, CatLookup, DecisionTree, NO_FEATURE};

fn num(x: f64) -> Num {
    Num { bits: x.to_bits() }
}

fn nums(v: &[f64]) -> Vec<Num> {
    v.iter().map(|&x| num(x)).collect()
}

/// A model with the usual settings.
fn model(task: &str) -> GTBoostModel {
    GTBoostModel::new(
        num(0.3), // learning_rate
        6, // max_depth
        num(1.0), // subsample_rate
        num(0.0), // base_score
        false, // vertical_init
        2, // vertical_init_cycles
        num(1.0), // lambda_reg
        num(0.0), // gamma
        num(1.0), // min_child_weight
        num(1.0), // colsample_bytree
        task.to_string(), // task
        256, // num_bins
        None, // seed
        "depthwise".to_string(), // grow_policy
        0, // max_leaves
        0, // n_refine
        0, // n_leaf_splits
        0, // refine_every
        0, // early_stopping_rounds
        "auto".to_string(), // eval_metric
        0, // verbose
        num(0.0), // l1_reg
        num(1.0), // refine_alpha
        false, // honest
        num(0.5), // honest_fraction
        false, // honest_arbitration
        Vec::new(), // feature_gain_prior
        num(0.0), // thermal
        false, // stein_leaves
        false, // stein_levels
        num(0.5), // thermal_n_exp
        num(1.0), // thermal_depth_gamma
        num(1.0), // colsample_bylevel
        1, // n_trees_per_round
        Vec::new(), // cat_features
        num(0.0), // grad_clip
        num(0.0), // random_strength
        num(0.0), // bagging_temperature
        num(0.0), // huber_delta
        num(0.0), // cat_smooth
        num(0.0), // cat_lookup_smooth
        Vec::new(), // monotone_constraints
        0, // max_cat_bins
        false, // leaf_linear
        false, // leaf_quadratic
        0, // leaf_correction
        num(0.0), // grad_momentum
        num(0.0), // gain_penalty
        num(0.0), // split_pessimism
        num(0.0), // cat_audit_strength
        num(0.0), // split_contrast_penalty
        num(0.0), // signal_gate
        false, // supervised_bins
        0, // fold_ordered
        false, // cat_fold_evidence
        12, // cfe_max_pairs
        8, // cfe_max_triples
        6, // cfe_max_quads
        num(20.0), // cfe_smooth
        true, // cfe_demote_raw
        64, // cfe_demote_min_card
        false, // self_score_splits
        false, // hetero_trees
        num(0.0), // dart_rate
        num(0.0), // max_delta_step
        0, // main_effect_interval
        1, // main_effect_depth
        false, // cyclic_features
        0, // cyclic_max_features_per_round
        false, // auto_interactions
        false, // auto_cat_interactions
        20, // max_interaction_features
        num(0.0), // lambda_schedule
        false, // use_bootstrap
        false, // extra_trees
        num(0.0), // label_smooth
        false, // multi_output_tree
        false, // multiclass_pair_sequence
        0, // complement_debias_mode
        "".to_string(), // phase_schedule
        num(0.0), // ncl_lambda
        false, // adaptive_cyclic_order
        false, // cyclic_partner_features
        num(0.0), // cyclic_partner_min_pressure_ratio
        8, // cyclic_partner_bins
        false, // cyclic_feature_reuse
        0, // cyclic_revisit_trees
        false, // adaptive_root_anchor
        false, // sparse_oblique_splits
        false, // interval_splits
        num(0.0), // adam_beta2
        num(1e-8), // adam_eps
        num(0.0), // ortho_alpha
        "newton".to_string(), // split_criterion
        num(0.0), // rank_mix_alpha
        num(0.0), // rank_mix_start_frac
        num(1.0), // rank_pair_temperature
        num(0.0), // binary_focus_gamma
        num(0.0), // binary_focus_end_frac
        num(0.0), // residual_focus_alpha
        num(2.0), // residual_focus_max_scale
        "full".to_string(), // residual_focus_mode
        "equal".to_string(), // residual_focus_hessian_mode
        num(0.0), // residual_focus_redescend_tau
        Vec::new(), // feature_view_groups
        num(0.0), // leaf_trim_pct
        false, // leaf_median
        num(0.0), // leaf_median_blend
        num(0.0), // leaf_mad_clip
        num(0.0), // leaf_adaptive_blend_kappa
        false, // ordered_boost
        num(0.0), // goss_top_rate
        num(0.0), // goss_other_rate
        false, // keep_all_trees
        false, // corrective_block_refit
        16, // corrective_blocks
        num(1.0), // corrective_lambda
        num(1.0), // corrective_blend
        num(0.0), // corrective_audit_fraction
        false, // leaf_eb
        10, // leaf_eb_min_trees
        num(1.0), // leaf_eb_scale
        num(0.0), // leaf_sibling_smooth
        num(0.0), // hierarchical_shrinkage
        false, // multiclass_coupled_leaves
        Vec::new(), // class_weights
        false, // adaptive_leaf_experts
        false, // adaptive_cat_lookup_smooth
        num(0.0), // cat_offset_smooth
        0, // cat_offset_passes
        false, // expert_leaf_admission
        64, // expert_min_leaf
        num(0.0), // newton_decrement_cap
        num(0.0), // lookahead_alpha
        num(0.0), // sign_confidence_gamma
        num(0.0), // soft_predict_bandwidth
        num(0.0), // soft_leaf_bandwidth
        1, // soft_leaf_passes
        num(0.0), // leaf_var_shrink
        num(1.0), // jensen_train_temp
        false, // jit_catpair_enabled
        4, // jit_catpair_top_k
        8, // jit_catpair_k_buckets
        512, // jit_catpair_min_node_rows
        2, // jit_catpair_max_node_depth
        num(1.05), // jit_catpair_gain_margin
        false, // jit_ltso_enabled
    )
}

/// One split on `feature` with two leaves.
fn split(feature: u32) -> DecisionTree {
    DecisionTree {
        split_features: vec![feature, NO_FEATURE, NO_FEATURE],
        split_bins: vec![0, 0, 0],
        left_children: vec![1, 0, 0],
        right_children: vec![2, 0, 0],
        missing_goes_left: vec![true, false, false],
        is_cat_split: vec![false; 3],
        cat_left_masks: vec![vec![]; 3],
        is_cat_pair: vec![false; 3],
        pair_routes: vec![vec![]; 3],
        is_oblique_split: vec![false; 3],
        oblique_features: vec![NO_FEATURE; 6],
        values: nums(&[0.0, 1.0, 2.0]),
        cat_lookups: vec![None, None, None],
        ramp_k: 0,
        ramp_features: vec![],
        ramp_slopes: vec![],
        leaf_pair_features: vec![],
        leaf_pair_slopes: vec![],
        quad_n_interactions: 0,
        quad_slopes: vec![],
    }
}

fn bins(n_features: usize) -> BinnedData {
    BinnedData {
        n_rows: 2,
        n_features,
        missing_bin: 999,
        bin_indices: vec![0; 2 * n_features],
        is_categorical: vec![false; n_features],
        cll_is_categorical: vec![false; n_features],
        cll_n_bins: vec![2; n_features],
        cll_hash_bins: vec![0; 2 * n_features],
    }
}

/// A trained model of two features with a tree for each entry.
fn trained(task: &str, features: &[u32]) -> GTBoostModel {
    let mut m = model(task);
    m.trained.trees = features.iter().map(|f| split(*f)).collect();
    m.trained.binned = Some(bins(2));
    m.trained.n_features = 2;
    m
}

const PLAIN: TreeTraits = TreeTraits { plain_axis: true, binned_plain: true, binned_ramp: true, self_score: false };

const ODD: TreeTraits = TreeTraits { plain_axis: false, binned_plain: false, binned_ramp: false, self_score: false };

#[test]
fn settings_are_brought_into_range() {
    let m = model("binary");
    assert_eq!(m.settings.learning_rate, num(0.3));
    assert_eq!(m.settings.seed, 0);
    assert_eq!(m.settings.num_bins, 256);
    assert_eq!(m.settings.cfe_max_pairs, 12);
    assert_eq!(m.settings.vertical_init_cycles, 2);
    assert_eq!(m.settings.goss_mode, "newton");
    assert_eq!(m.settings.jit_catpair_k_buckets, 8);
    assert_eq!(m.settings.rank_pair_temperature, num(1.0));
    assert_eq!(m.task_name(), "binary");
    assert_eq!((m.n_trees(), m.n_classes(), m.best_tree_count()), (0, 0, 0));
    assert_eq!(m.val_loss_history(), vec![]);
}

#[test]
fn soft_widths_are_held_to_ten() {
    let mut m = model("binary");
    m.set_soft_predict_bandwidth(num(0.5));
    assert_eq!(m.settings.soft_predict_bandwidth, num(0.5));
    m.set_soft_predict_bandwidth(num(-1.0));
    assert_eq!(m.settings.soft_predict_bandwidth, num(0.0));
    m.set_soft_predict_bandwidth(num(11.0));
    assert_eq!(m.settings.soft_predict_bandwidth, num(10.0));
}

#[test]
fn datasets_are_checked() {
    let matrix = |rows: usize, cols: usize| Matrix { data: nums(&vec![0.0; rows * cols]), n_rows: rows, n_cols: cols };
    let make = |y: usize, cat: usize, ex: Option<Matrix>, ey: Option<usize>| {
        GTBoostDataset::new(
            matrix(3, 2),
            nums(&vec![0.0; y]),
            vec![true; cat],
            64,
            32,
            ex,
            ey.map(|n| nums(&vec![0.0; n])),
            num(-1.0),
        )
    };
    assert_eq!(make(2, 0, None, None).err(), Some(ModelError::TargetLength { got: 2, rows: 3 }));
    assert_eq!(make(3, 1, None, None).err(), Some(ModelError::CategoryLength { got: 1, width: 2 }));
    assert_eq!(make(3, 0, Some(matrix(2, 3)), Some(2)).err(), Some(ModelError::EvalWidth { got: 3, width: 2 }));
    assert_eq!(make(3, 0, Some(matrix(2, 2)), Some(1)).err(), Some(ModelError::EvalTargetLength { got: 1, rows: 2 }));
    assert_eq!(make(3, 0, Some(matrix(2, 2)), None).err(), Some(ModelError::EvalIncomplete));
    let d = make(3, 0, Some(matrix(2, 2)), Some(2)).unwrap();
    assert_eq!((d.n_rows(), d.n_features(), d.n_features_raw(), d.has_eval()), (3, 2, 2, true));
    assert_eq!(d.cat_features, vec![false, false]);
    assert_eq!(d.split_pessimism, num(0.0));
    assert!(!make(3, 2, None, None).unwrap().has_eval());
    assert_eq!(effective_bins(256, 100), 32);
    assert_eq!(effective_bins(256, 400), 100);
    assert_eq!(effective_bins(16, 400), 16);
}

fn input(n_rows: usize, y: &[f64]) -> FitInput {
    FitInput {
        n_rows,
        n_features: 2,
        y: nums(y),
        n_rounds: 10,
        init_scores: None,
        weights: None,
        eval_rows: None,
        eval_init_scores: None,
        max_threads: 4,
    }
}

#[test]
fn fits_refuse_wrong_lengths() {
    let y = [0.0, 1.0, 2.0];
    let mut m = model("multiclass");
    let refused = |m: &mut GTBoostModel, i: FitInput| m.fit(&i).err();
    assert_eq!(
        refused(&mut m, FitInput { init_scores: Some(3), ..input(3, &y) }),
        Some(ModelError::InitScoreLength { got: 3, expected: 9 })
    );
    assert_eq!(
        refused(&mut m, FitInput { weights: Some(2), ..input(3, &y) }),
        Some(ModelError::SampleWeightLength { got: 2, rows: 3 })
    );
    assert_eq!(
        refused(&mut m, FitInput { eval_init_scores: Some(2), ..input(3, &y) }),
        Some(ModelError::EvalInitScoreWithoutEval)
    );
    assert_eq!(
        refused(&mut m, FitInput { eval_init_scores: Some(2), eval_rows: Some(2), ..input(3, &y) }),
        Some(ModelError::EvalInitScoreLength { got: 2, expected: 6 })
    );
    assert!(m.fit(&FitInput { init_scores: Some(9), weights: Some(3), ..input(3, &y) }).is_ok());
    let mut single = model("regression");
    assert_eq!(
        refused(&mut single, FitInput { init_scores: Some(9), ..input(3, &y) }),
        Some(ModelError::InitScoreLength { got: 9, expected: 3 })
    );
}

#[test]
fn a_fit_forgets_the_last_one() {
    let mut m = trained("regression", &[0, 1]);
    m.trained.val_losses = nums(&[1.0]);
    m.trained.best_round = 1;
    m.trained.dart_tree_weights = nums(&[1.0, 2.0]);
    let kept = m.fit(&FitInput { weights: Some(1), ..input(3, &[0.0, 0.0, 0.0]) });
    assert!(kept.is_err());
    assert_eq!(m.n_trees(), 2);
    assert_eq!(m.trained.n_features, 2);
    m.fit(&input(3, &[0.0, 0.0, 0.0])).unwrap();
    assert_eq!(m.n_trees(), 0);
    assert_eq!(m.val_loss_history(), vec![]);
    assert_eq!(m.tree_weights(), vec![]);
    assert_eq!(m.best_tree_count(), 0);
}

#[test]
fn threads_follow_the_work() {
    let mut m = model("regression");
    assert_eq!(m.fit(&input(100, &[])).unwrap().threads, 1);
    // 60000 rows of 2 features over 10 rounds are 1.2 million cells.
    assert_eq!(m.fit(&input(60_000, &[])).unwrap().threads, 3);
    assert_eq!(m.fit(&input(6_000_000, &[])).unwrap().threads, 4);
}

#[test]
fn bins_are_merged_by_the_targets() {
    let mut m = model("regression");
    let plain = m.fit(&input(1000, &[])).unwrap();
    assert_eq!((plain.bins, plain.first_bins, plain.merge_outputs), (250, 250, None));
    m.settings.supervised_bins = true;
    let merged = m.fit(&input(1000, &[])).unwrap();
    assert_eq!((merged.bins, merged.first_bins, merged.merge_outputs), (250, 500, Some(1)));
    m.settings.task = "multiclass".to_string();
    assert_eq!(m.fit(&input(1000, &[2.0])).unwrap().merge_outputs, Some(3));
    assert_eq!(m.fit(&input(1000, &[0.0])).unwrap().merge_outputs, Some(2));
}

#[test]
fn derived_features_are_planned() {
    let mut m = model("binary");
    let none = m.fit(&input(100, &[])).unwrap();
    assert!(none.interactions.is_none() && none.derives.is_none() && !none.keeps_eval);
    m.settings.jit_ltso_enabled = true;
    let numeric = m.fit(&input(100, &[])).unwrap();
    assert_eq!(numeric.derives, Some(3));
    assert!(numeric.keeps_eval);
    m.settings.cat_features = vec![true, false];
    assert_eq!(m.fit(&input(100, &[])).unwrap().derives, Some(1));
    m.settings.task = "poisson".to_string();
    assert_eq!(m.fit(&input(100, &[])).unwrap().derives, None);
    m.settings.auto_interactions = true;
    m.settings.cat_features = vec![];
    assert_eq!(m.fit(&input(100, &[])).unwrap().interactions.unwrap().max_pairs, 20);
}

fn dataset() -> GTBoostDataset {
    GTBoostDataset::new(
        Matrix { data: nums(&[0.0; 6]), n_rows: 3, n_cols: 2 },
        nums(&[0.0, 1.0, 1.0]),
        vec![true, false],
        64,
        32,
        None,
        None,
        num(0.0),
    )
    .unwrap()
}

#[test]
fn shared_bins_must_match_the_model() {
    let d = dataset();
    let mut m = model("binary");
    m.settings.ordered_ctr = true;
    assert_eq!(m.fit_binned(&d, 5, None, None, 2), Err(ModelError::CachedBinsUnusable));
    m.settings.ordered_ctr = false;
    assert_eq!(m.fit_binned(&d, 5, None, None, 2), Err(ModelError::BinsDiffer { model: 256, dataset: 64 }));
    m.settings.num_bins = 64;
    assert_eq!(m.fit_binned(&d, 5, None, None, 2), Err(ModelError::CategoryBinsDiffer { model: 0, dataset: 32 }));
    m.settings.max_cat_bins = 32;
    m.settings.cat_features = vec![false, false];
    assert_eq!(m.fit_binned(&d, 5, None, None, 2), Err(ModelError::CategoriesDiffer));
    m.settings.cat_features = vec![];
    assert_eq!(
        m.fit_binned(&d, 5, Some(2), None, 2),
        Err(ModelError::InitScoreLength { got: 2, expected: 3 })
    );
    assert_eq!(m.settings.cat_features, vec![true, false]);
    assert_eq!(m.fit_binned(&d, 5, None, Some(4), 2), Err(ModelError::SampleWeightLength { got: 4, rows: 3 }));
    assert_eq!(m.fit_binned(&d, 5, Some(3), Some(3), 2), Ok(1));
    assert_eq!(m.trained.n_features, 2);
}

#[test]
fn predictions_need_a_trained_model() {
    let m = model("regression");
    assert_eq!(m.predict(3, 2, None, &vec![]).err(), Some(ModelError::NotTrained));
    assert_eq!(
        m.predict(3, 2, Some(2), &vec![]).err(),
        Some(ModelError::PredictInitScoreLength { got: 2, expected: 3 })
    );
    assert_eq!(
        m.predict_truncated(3, 2, 1, Some(2), &vec![]).err(),
        Some(ModelError::TruncatedInitScoreLength { got: 2, expected: 3 })
    );
    assert_eq!(m.predict_pruned(2, &vec![]).err(), Some(ModelError::NotTrained));
    assert_eq!(m.predict_with_tree_mask(2, &vec![], &vec![]).err(), Some(ModelError::NotTrained));
    assert_eq!(m.predict_checkpoints(2, &vec![1], false, &vec![]).err(), Some(ModelError::NotTrained));
    assert!(m.predict_checkpoints(2, &vec![], false, &vec![]).unwrap().is_none());
    assert_eq!(m.leaf_indices(&vec![], 0).err(), Some(ModelError::NotTrained));
    let multi = model("multiclass");
    assert_eq!(
        multi.predict_checkpoints(2, &vec![], false, &vec![]).err(),
        Some(ModelError::CheckpointsOfMulticlass)
    );
    assert_eq!(expected_length(Task::Multiclass, 4, 3), 12);
    assert_eq!(expected_length(Task::Multiclass, 4, 0), 4);
    assert_eq!(expected_length(Task::Binary, 4, 3), 4);
}

#[test]
fn a_prediction_walks_all_trees() {
    let mut m = trained("regression", &[0, 1, 0]);
    m.trained.dart_tree_weights = nums(&[0.5, 2.0]);
    let plan = m.predict(2, 2, None, &vec![PLAIN; 3]).unwrap();
    assert_eq!(plan.layout, BinLayout::RowMajor);
    assert_eq!(plan.start, ScoreStart::Base);
    assert_eq!(plan.steps.iter().map(|s| s.tree).collect::<Vec<usize>>(), vec![0, 1, 2]);
    assert_eq!(plan.steps.iter().map(|s| s.weight).collect::<Vec<Num>>(), nums(&[0.5, 2.0, 1.0]));
    assert!(plan.steps.iter().all(|s| s.walk == TreeWalk::RowMajorPlain));
    let given = m.predict(2, 2, Some(2), &vec![ODD; 3]).unwrap();
    assert_eq!(given.start, ScoreStart::Given);
    assert_eq!(given.layout, BinLayout::ColumnMajor);
    assert!(given.steps.iter().all(|s| s.walk == TreeWalk::Bins));
    let wider = m.predict(2, 3, None, &vec![PLAIN; 3]).unwrap();
    assert_eq!(wider.layout, BinLayout::Unbinned);
    assert!(wider.steps.iter().all(|s| s.walk == TreeWalk::RawPlainAxis));
    m.set_soft_predict_bandwidth(num(1.0));
    let soft = m.predict(2, 2, None, &vec![PLAIN; 3]).unwrap();
    assert!(soft.steps.iter().all(|s| s.walk == TreeWalk::RawSoft));
    let scored = TreeTraits { self_score: true, ..ODD };
    assert_eq!(m.predict(2, 2, None, &vec![scored; 3]).unwrap().steps[0].walk, TreeWalk::RawScored);
}

#[test]
fn poisson_scores_are_exponentiated() {
    let m = trained("poisson", &[0]);
    assert!(m.predict(2, 2, None, &vec![PLAIN]).unwrap().exponentiates);
    assert!(m.predict_truncated(2, 2, 1, None, &vec![PLAIN]).unwrap().exponentiates);
    assert!(!m.predict_with_tree_mask(2, &vec![], &vec![PLAIN]).unwrap().exponentiates);
}

#[test]
fn classes_share_the_trees() {
    let mut m = trained("multiclass", &[0, 1, 0, 1]);
    m.trained.n_classes = 2;
    let plan = m.predict(2, 2, None, &vec![PLAIN; 4]).unwrap();
    assert_eq!(plan.steps.iter().map(|s| s.class).collect::<Vec<usize>>(), vec![0, 1, 0, 1]);
    assert_eq!(plan.start, ScoreStart::Zero);
    m.trained.class_base_scores = nums(&[0.1, 0.2]);
    m.trained.multiclass_trees_per_class = 2;
    let pairs = m.predict(2, 2, None, &vec![PLAIN; 4]).unwrap();
    assert_eq!(pairs.steps.iter().map(|s| s.class).collect::<Vec<usize>>(), vec![0, 0, 1, 1]);
    assert_eq!(pairs.start, ScoreStart::Classes);
    assert_eq!(m.predict(2, 2, Some(4), &vec![PLAIN; 4]).unwrap().start, ScoreStart::Given);
    m.settings.prob_avg = true;
    m.trained.dart_tree_weights = nums(&[9.0, 9.0, 9.0, 9.0]);
    let averaged = m.predict(2, 2, None, &vec![PLAIN; 4]).unwrap();
    assert!(averaged.averages);
    assert_eq!(averaged.start, ScoreStart::Zero);
    assert_eq!(averaged.steps[0].weight, num(1.0));
    assert_eq!(m.multiclass_trees_per_class_round(), 2);
}

#[test]
fn truncating_nothing_scores_alike() {
    let mut m = trained("regression", &[0, 1, 0]);
    m.trained.dart_tree_weights = nums(&[0.5, 2.0, 3.0]);
    let full = m.predict(2, 2, None, &vec![PLAIN; 3]).unwrap();
    let cut = m.predict_truncated(2, 2, 99, None, &vec![PLAIN; 3]).unwrap();
    assert_eq!(full.steps, cut.steps);
    assert_eq!(full.start, cut.start);
    assert_eq!(m.predict_truncated(2, 2, 2, None, &vec![PLAIN; 3]).unwrap().steps, full.steps[..2].to_vec());
}

#[test]
fn checkpoints_are_prefixes() {
    let m = trained("binary", &[0, 1, 0]);
    let pass: CheckpointPlan = m.predict_checkpoints(2, &vec![2, 0, 9], false, &vec![PLAIN; 3]).unwrap().unwrap();
    assert_eq!(pass.checkpoints, vec![2, 0, 3]);
    assert_eq!(pass.plan.steps.len(), 3);
    assert_eq!(pass.taken_after(0), vec![1]);
    assert_eq!(pass.taken_after(2), vec![0]);
    assert_eq!(pass.taken_after(3), vec![2]);
    assert_eq!(pass.taken_after(1), Vec::<usize>::new());
    let cut = m.predict_truncated(2, 2, 2, None, &vec![PLAIN; 3]).unwrap();
    assert_eq!(pass.plan.steps[..2].to_vec(), cut.steps);
    assert_eq!(
        checkpoint_major(&vec![nums(&[1.0, 2.0]), nums(&[3.0, 4.0]), nums(&[5.0, 6.0])], 2),
        nums(&[1.0, 3.0, 5.0, 2.0, 4.0, 6.0])
    );
}

#[test]
fn masks_skip_trees() {
    let mut m = trained("regression", &[0, 1, 0, 1]);
    m.trained.dart_tree_weights = nums(&[0.5, 0.5, 0.5, 0.5]);
    let plan = m.predict_with_tree_mask(2, &vec![1, 0, 7], &vec![PLAIN; 4]).unwrap();
    assert_eq!(plan.steps.iter().map(|s| s.tree).collect::<Vec<usize>>(), vec![0, 2, 3]);
    assert!(plan.steps.iter().all(|s| s.weight == num(1.0) && s.walk == TreeWalk::Raw));
    let all = m.predict_with_tree_mask(2, &vec![1, 1], &vec![PLAIN; 4]).unwrap();
    assert_eq!(all.steps.len(), 4);
    assert!(plan.divisors.is_empty());
}

#[test]
fn masked_classes_are_averaged_over_their_own_trees() {
    let mut m = trained("multiclass", &[0, 1, 0, 1, 0, 1]);
    m.trained.n_classes = 3;
    m.trained.multiclass_trees_per_class = 2;
    m.settings.prob_avg = true;
    let plan = m.predict_with_tree_mask(2, &vec![1, 1, 0, 1, 0, 0], &vec![PLAIN; 6]).unwrap();
    assert_eq!(plan.divisors, vec![2, 1, 1]);
    assert_eq!(m.predict(1, 2, None, &vec![PLAIN; 6]).unwrap().divisors, vec![2, 2, 2]);
}

#[test]
fn pruning_changes_the_walk_alone() {
    let mut m = trained("binary", &[0, 1]);
    m.trained.dart_tree_weights = nums(&[0.5, 2.0]);
    let pruned = m.predict_pruned(2, &vec![PLAIN; 2]).unwrap();
    assert!(pruned.steps.iter().all(|s| s.walk == TreeWalk::RawPruned));
    let full = m.predict(2, 2, None, &vec![PLAIN; 2]).unwrap();
    assert_eq!(pruned.steps[1].weight, full.steps[1].weight);
    assert_eq!(pruned.start, full.start);
}

#[test]
fn leaves_are_listed_row_by_row() {
    let m = trained("binary", &[0, 1]);
    assert_eq!(m.leaf_indices(&vec![vec![1, 2, 1], vec![2, 2, 1]], 3), Ok(vec![1, 2, 2, 2, 1, 1]));
}

#[test]
fn tree_weights_are_checked() {
    let mut m = trained("binary", &[0, 1]);
    assert_eq!(m.set_tree_weights(nums(&[1.0])), Err(ModelError::WeightLength { got: 1, trees: 2 }));
    assert_eq!(m.set_tree_weights(nums(&[1.0, -0.5])), Err(ModelError::WeightValue));
    assert_eq!(m.set_tree_weights(nums(&[1.0, f64::NAN])), Err(ModelError::WeightValue));
    assert_eq!(m.tree_weights(), vec![]);
    assert_eq!(m.set_tree_weights(nums(&[1.0, 0.0])), Ok(()));
    assert_eq!(m.tree_weights(), nums(&[1.0, 0.0]));
    assert_eq!(m.set_tree_weights(vec![]), Ok(()));
    assert_eq!(m.tree_weights(), vec![]);
}

#[test]
fn trees_are_described() {
    let mut m = trained("binary", &[0, 1, 0, 1, 0]);
    m.trained.trees[1].is_cat_split[0] = true;
    m.trained.trees[2].is_oblique_split[0] = true;
    m.trained.trees[2].oblique_features[0] = 1;
    m.trained.trees[2].oblique_features[1] = 0;
    m.trained.trees[3].is_cat_pair[0] = true;
    m.trained.trees[4].is_cat_split[0] = true;
    m.trained.binned.as_mut().unwrap().is_categorical = vec![false, true];
    let ops = m.split_op_counts();
    assert_eq!((ops.axis, ops.categorical, ops.interval, ops.oblique, ops.cat_pair), (1, 1, 1, 1, 1));
    assert_eq!(m.feature_split_counts(), vec![3, 3]);
    assert_eq!(ops.axis + ops.categorical + ops.interval + ops.oblique + ops.cat_pair, 5);
    let splits = ops.axis + ops.categorical + ops.interval + ops.cat_pair + 2 * ops.oblique;
    assert_eq!(m.feature_split_counts().iter().sum::<usize>(), splits);
    assert_eq!(m.tree_info(), vec![(3, 2); 5]);
    let plain = trained("binary", &[0, 1, 0]).split_op_counts();
    assert_eq!((plain.axis, plain.categorical, plain.interval, plain.oblique, plain.cat_pair), (3, 0, 0, 0, 0));
    let none = model("binary").split_op_counts();
    assert_eq!((none.axis, none.categorical, none.interval, none.oblique, none.cat_pair), (0, 0, 0, 0, 0));
    assert_eq!(model("binary").feature_split_counts(), vec![0]);
}

#[test]
fn lookups_are_counted() {
    let lookup = |f2: u32, f3: u32, is_numeric: bool, n: usize| {
        Some(CatLookup {
            feature: 0,
            feature2: f2,
            feature3: f3,
            bin_values: nums(&vec![0.0; n]),
            default_value: num(0.0),
            is_numeric,
            n_coarse_bins: 0,
            pair_stride: 0,
            triple_stride: 0,
        })
    };
    let mut m = trained("multiclass", &[0, 1]);
    m.trained.trees[0].cat_lookups = vec![None, lookup(NO_FEATURE, NO_FEATURE, false, 3), lookup(1, NO_FEATURE, false, 4)];
    m.trained.trees[1].cat_lookups = vec![lookup(1, 2, true, 5), lookup(1, 2, false, 6), None];
    assert_eq!(m.lookup_op_counts(), (1, 1, 1, 1, 18));
}

#[test]
fn corrections_stop_at_the_first_refusal() {
    let m = trained("binary", &[0, 1]);
    let deltas = nums(&[0.1, 0.2]);
    let lengths = m.add_leaf_corrections(&vec![0], &vec![1, 1], &deltas);
    assert_eq!(lengths.refused, Some(ModelError::CorrectionLengths));
    let tree = m.add_leaf_corrections(&vec![0, 5], &vec![1, 1], &deltas);
    assert_eq!(tree.list.len(), 1);
    assert_eq!(tree.refused, Some(ModelError::TreeOutOfRange { tree: 5, trees: 2 }));
    let node = m.add_leaf_corrections(&vec![1, 0], &vec![9, 1], &deltas);
    assert_eq!(node.list.len(), 0);
    assert_eq!(node.refused, Some(ModelError::NodeOutOfRange { node: 9, tree: 1 }));
    let inner = m.add_leaf_corrections(&vec![1, 0], &vec![2, 0], &deltas);
    assert_eq!(inner.refused, Some(ModelError::NotALeaf { node: 0, tree: 0 }));
    let good = m.add_leaf_corrections(&vec![1, 0], &vec![2, 1], &deltas);
    assert!(good.refused.is_none());
    assert_eq!((good.list[1].tree, good.list[1].node, good.list[1].delta), (0, 1, num(0.2)));
}

#[test]
fn saved_models_are_read_again() {
    assert!(model("binary").save_model().is_err_and(|e| e == ModelError::NotTrainedForSave));
    let mut m = trained("binary", &[0, 1]);
    m.trained.tree_in_sample = vec![vec![1]];
    m.trained.dart_tree_weights = nums(&[1.0, 2.0]);
    let snapshot = m.save_model().unwrap();
    assert_eq!(snapshot.format_version, MODEL_FORMAT_VERSION);
    let back = GTBoostModel::load_model(snapshot).unwrap();
    assert_eq!(back.n_trees(), 2);
    assert_eq!(back.tree_weights(), nums(&[1.0, 2.0]));
    assert_eq!(back.trained.tree_in_sample.len(), 0);
    assert_eq!(back.trained.binned.as_ref().unwrap().bin_indices.len(), 0);
    assert_eq!(back.predict(2, 2, None, &vec![PLAIN; 2]).unwrap().layout, BinLayout::RowMajor);
    let other = ModelSnapshot { format_version: 2, model: back };
    assert!(GTBoostModel::load_model(other).is_err_and(|e| e == ModelError::FormatVersion { found: 2, expected: 1 }));
}

#[test]
fn derived_columns_make_rows_wider() {
    let mut m = trained("binary", &[0]);
    assert!(!m.raw_matrix_extensions_active());
    m.trained.sumdiff_pairs = vec![(0, 1)];
    assert!(!m.raw_matrix_extensions_active());
    m.trained.ctr.pair_features = vec![(0, 1)];
    assert!(m.raw_matrix_extensions_active());
}

#[test]
fn category_tuples_need_two_categories() {
    let mut m = trained("binary", &[0]);
    let mut d = bins(2);
    d.cll_is_categorical = vec![true, true];
    assert!(m.cat_tuple_config(&d).is_none());
    m.settings.cat_tuple_lookups = true;
    m.settings.cat_lookup_smooth = num(1.0);
    let c = m.cat_tuple_config(&d).unwrap();
    assert!(c.enabled);
    assert_eq!(c.max_order, m.settings.cat_tuple_max_order);
    d.cll_n_bins = vec![2, 1];
    assert!(m.cat_tuple_config(&d).is_none());
}

#[test]
fn sampling_rates_change_over_rounds() {
    let mut m = model("binary");
    m.settings.goss_top_rate = num(0.2);
    assert_eq!(m.goss_schedule(0, 10), None);
    assert_eq!(m.goss_annealed_a(0, 10, &num(0.7)), num(0.2));
    m.settings.goss_anneal = num(0.5);
    let annealed = |round: usize, n_rounds: usize| {
        let share = m.goss_schedule(round, n_rounds).map_or(0.0, |s| s.left as f64 / s.of as f64);
        m.goss_annealed_a(round, n_rounds, &num(0.2 + 0.5 * share))
    };
    assert_eq!(m.goss_schedule(0, 10), Some(AnnealedShare { left: 10, of: 10 }));
    assert_eq!(m.goss_schedule(4, 10), Some(AnnealedShare { left: 6, of: 10 }));
    assert_eq!(m.goss_schedule(10, 10), None);
    assert_eq!(annealed(0, 10), num(0.7));
    assert_eq!(annealed(5, 10), num(0.45));
    assert_eq!(annealed(0, 1), num(0.7));
    assert_eq!(annealed(10, 10), num(0.2));
    assert_eq!(m.goss_annealed_a(0, 10, &num(1.7)), num(0.99));
}

#[test]
fn features_of_trees_are_marked() {
    let mut m = trained("binary", &[1, 0, 7]);
    assert!(m.refresh_feature_usage_ema(2).is_none());
    m.settings.diversity_penalty = num(0.1);
    assert_eq!(
        m.refresh_feature_usage_ema(2),
        Some(vec![vec![false, true], vec![true, false], vec![false, false]])
    );
}

#[test]
fn base_scores_go_by_the_task() {
    assert_eq!(compute_base_scores_for_fit(Task::Regression, 0), BaseScore::Mean);
    assert_eq!(compute_base_scores_for_fit(Task::Binary, 1), BaseScore::LogOdds { weighted: false });
    assert_eq!(compute_base_scores_for_fit(Task::Binary, 2), BaseScore::LogOdds { weighted: true });
    assert_eq!(compute_base_scores_for_fit(Task::Poisson, 0), BaseScore::LogMean);
    assert_eq!(compute_base_scores_for_fit(Task::Multiclass, 0), BaseScore::Classes);
    assert_eq!(compute_base_scores_for_fit(Task::Rank, 0), BaseScore::Unchanged);
    assert_eq!(weighted_or_plain(&num(2.0), &num(1.0), &num(3.0)), num(2.0));
    assert_eq!(weighted_or_plain(&num(2.0), &num(0.0), &num(3.0)), num(3.0));
    assert_eq!(settle_share(&num(0.0)), num(1e-6));
    assert_eq!(settle_share(&num(1.0)), num(1.0 - 1e-6));
    assert_eq!(settle_share(&num(0.5)), num(0.5));
    assert_eq!(settle_rate(&num(0.0)), num(1e-6));
    assert_eq!(settle_rate(&num(3.0)), num(3.0));
}

#[test]
fn warmup_trees_are_small() {
    let plan = run_warmup_trees(Task::Multiclass, &num(1.0), 9, u64::MAX, 2);
    assert_eq!((plan.base, plan.loss, plan.max_depth, plan.seed), (BaseScore::Mean, WarmupLoss::Squared, 6, 1));
    assert_eq!(run_warmup_trees(Task::Regression, &num(1.0), 3, 0, 0).loss, WarmupLoss::Huber);
    assert_eq!(run_warmup_trees(Task::Regression, &num(0.0), 3, 0, 0).loss, WarmupLoss::Squared);
    assert_eq!(run_warmup_trees(Task::Binary, &num(0.0), 3, 0, 0).base, BaseScore::LogOdds { weighted: false });
    assert_eq!(run_warmup_trees(Task::Poisson, &num(0.0), 3, 0, 0).loss, WarmupLoss::Poisson);
    let leaf = leaf_split_pass(Task::Regression, &num(0.0), 5000);
    assert!(leaf.analytic && leaf.parallel);
    let huber = leaf_split_pass(Task::Regression, &num(1.0), 4999);
    assert!(!huber.analytic && !huber.parallel);
}

#[test]
fn derived_features_are_not_constrained() {
    assert_eq!(pad_constraints(&vec![1, -1], 4), vec![1, -1, 0, 0]);
    assert_eq!(pad_constraints(&vec![1, -1], 1), vec![1]);
}

#[test]
fn fits_draw_from_the_seed() {
    let mut m = model("binary");
    m.settings.seed = 5;
    let pool: Vec<u32> = (0..100).collect();
    let a = sample_without_repetition(&mut m.training_rng(), &pool, 20);
    let b = sample_without_repetition(&mut m.training_rng(), &pool, 20);
    assert_eq!(a, b);
    m.settings.seed = 6;
    assert_ne!(a, sample_without_repetition(&mut m.training_rng(), &pool, 20));
}

#[test]
fn errors_have_words() {
    assert_eq!(decimal_text(0), "0");
    assert_eq!(decimal_text(90210), "90210");
    assert_eq!(
        ModelError::InitScoreLength { got: 3, expected: 9 }.message(),
        "init_score length (3) must equal expected length (9)"
    );
    assert_eq!(
        ModelError::SampleWeightLength { got: 3, rows: 9 }.message(),
        "sample_weight length (3) must equal n_rows (9)"
    );
    assert_eq!(ModelError::EvalInitScoreWithoutEval.message(), "eval_init_score requires eval_x/eval_y");
    assert_eq!(
        ModelError::EvalInitScoreLength { got: 1, expected: 2 }.message(),
        "eval_init_score length (1) must equal expected length (2)"
    );
    assert_eq!(
        ModelError::PredictInitScoreLength { got: 1, expected: 2 }.message(),
        "predict: init_score length (1) must equal expected length (2)"
    );
    assert_eq!(
        ModelError::TruncatedInitScoreLength { got: 1, expected: 2 }.message(),
        "predict_truncated: init_score length (1) must equal expected length (2)"
    );
    assert_eq!(
        ModelError::CheckpointsOfMulticlass.message(),
        "predict_checkpoints: multiclass not supported (use predict_truncated)"
    );
    assert_eq!(ModelError::NotTrained.message(), "Model not trained yet. Call fit() first.");
    assert_eq!(
        ModelError::NotTrainedForSave.message(),
        "Model not trained yet. Call fit() before save_model()."
    );
    assert_eq!(
        ModelError::FormatVersion { found: 2, expected: 1 }.message(),
        "unsupported model format version 2 (expected 1)"
    );
    assert_eq!(
        ModelError::WeightLength { got: 1, trees: 2 }.message(),
        "tree weight length (1) must equal number of trees (2)"
    );
    assert_eq!(ModelError::WeightValue.message(), "tree weights must be finite and non-negative");
    assert_eq!(ModelError::CorrectionLengths.message(), "tree_idx, node_idx and delta must have equal lengths");
    assert_eq!(ModelError::TreeOutOfRange { tree: 5, trees: 2 }.message(), "tree_idx 5 out of range (2 trees)");
    assert_eq!(ModelError::NodeOutOfRange { node: 9, tree: 1 }.message(), "node_idx 9 out of range for tree 1");
    assert_eq!(ModelError::NotALeaf { node: 0, tree: 1 }.message(), "node 0 of tree 1 is not a leaf");
    assert_eq!(
        ModelError::BinsDiffer { model: 256, dataset: 64 }.message(),
        "model num_bins (256) must match GTBoostDataset num_bins (64)"
    );
    assert_eq!(
        ModelError::CategoryBinsDiffer { model: 0, dataset: 32 }.message(),
        "model max_cat_bins (0) must match GTBoostDataset max_cat_bins (32)"
    );
    assert_eq!(
        ModelError::CategoriesDiffer.message(),
        "model cat_features must match GTBoostDataset cat_features"
    );
    assert_eq!(
        ModelError::CachedBinsUnusable.message(),
        "fit_binned cannot reuse cached bins when auto_interactions, auto_cat_interactions, ordered_ctr, or \
         jit_ltso_enabled are active; use normal fit() for those configs"
    );
}

#[test]
fn categories_offset_the_scores_of_rows() {
    let mut m = model("binary");
    let mut first = std::collections::HashMap::new();
    first.insert(3i64, num(0.5));
    let mut third = std::collections::HashMap::new();
    third.insert(-1i64, num(-0.25));
    m.trained.cat_offset_maps = vec![first, std::collections::HashMap::new(), third];
    assert_eq!(m.row_offsets(&nums(&[3.9, 3.0, -1.0])), nums(&[0.5, -0.25]));
    assert_eq!(m.row_offsets(&nums(&[f64::NAN, 3.0, 2.0])), Vec::<Num>::new());
    assert_eq!(m.row_offsets(&nums(&[3.0])), nums(&[0.5]));
}

#[test]
fn leaves_of_rows_can_be_corrected() {
    let m = trained("binary", &[0, 1]);
    let turns = [vec![true, false, true], vec![false, true, true]];
    let leaves: Vec<Vec<u32>> = m.trained.trees.iter().map(|t| t.leaves_by_turns(&turns.to_vec())).collect();
    assert_eq!(leaves, vec![vec![1, 2]; 2]);
    let listed = m.leaf_indices(&leaves, 2).unwrap();
    assert_eq!(listed, vec![1, 1, 2, 2]);
    let all = m.add_leaf_corrections(&vec![0, 1, 0, 1], &listed, &nums(&[0.5; 4]));
    assert!(all.refused.is_none());
    assert_eq!(all.list.len(), 4);
}

#[test]
fn trees_are_multiplied_by_a_rate() {
    assert_eq!(trained("binary", &[0]).predict(1, 2, None, &vec![PLAIN]).unwrap().rate, TreeRate::Learning);
    let mut m = trained("multiclass", &[0, 1, 0, 1]);
    m.trained.n_classes = 2;
    m.trained.multiclass_trees_per_class = 2;
    assert_eq!(m.predict(1, 2, None, &vec![PLAIN; 4]).unwrap().rate, TreeRate::Scaled);
    m.settings.prob_avg = true;
    assert_eq!(m.predict(1, 2, None, &vec![PLAIN; 4]).unwrap().rate, TreeRate::One);
}

#[test]
fn training_starts_where_predictions_start() {
    let mut m = trained("multiclass", &[0, 1]);
    m.trained.n_classes = 2;
    assert_eq!(m.training_start(false), ScoreStart::Zero);
    m.trained.class_base_scores = nums(&[0.1, 0.2]);
    assert_eq!(m.training_start(false), ScoreStart::Classes);
    assert_eq!(m.training_start(true), ScoreStart::Given);
    assert_eq!(m.predict(1, 2, None, &vec![PLAIN; 2]).unwrap().start, ScoreStart::Classes);
    assert_eq!(m.predict(1, 2, Some(2), &vec![PLAIN; 2]).unwrap().start, ScoreStart::Given);
}

#[test]
fn datasets_are_fitted_as_their_matrix() {
    let y = [0.0, 1.0, 1.0];
    let d = dataset();
    let set = |m: &mut GTBoostModel| {
        m.settings.num_bins = 64;
        m.settings.max_cat_bins = 32;
        m.settings.cat_features = vec![true, false];
    };
    let mut from_matrix = trained("binary", &[0, 1]);
    let mut from_dataset = trained("binary", &[0, 1]);
    set(&mut from_matrix);
    set(&mut from_dataset);
    let wrong = from_matrix.fit(&FitInput { weights: Some(2), ..input(3, &y) }).err();
    assert_eq!(wrong, from_dataset.fit_binned(&d, 10, None, Some(2), 4).err());
    assert_eq!(wrong, Some(ModelError::SampleWeightLength { got: 2, rows: 3 }));
    let plan = from_matrix.fit(&input(3, &y)).unwrap();
    assert_eq!(from_dataset.fit_binned(&d, 10, None, None, 4), Ok(plan.threads));
    assert_eq!((plan.bins, plan.first_bins, plan.merge_outputs), (32, 32, None));
    assert_eq!((from_matrix.n_trees(), from_dataset.n_trees()), (0, 0));
    assert_eq!(from_matrix.trained.n_features, from_dataset.trained.n_features);
}

#[test]
fn rows_are_planned_alike() {
    let m = trained("binary", &[0, 1]);
    let many = m.predict(50, 2, None, &vec![PLAIN; 2]).unwrap();
    let alone = m.predict(1, 2, None, &vec![PLAIN; 2]).unwrap();
    assert_eq!(many.start, alone.start);
    assert_eq!(many.divisors, alone.divisors);
    assert_eq!(many.steps, alone.steps);
    assert_eq!(many.steps.len(), 2);
}
