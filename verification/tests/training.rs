use gtboost::corrective::{
    audit_plan, binary_audit_accepts, binary_eval_accepts, expand_weights, first_refit_step, next_refit_step,
    plan_blocks, regression_audit_accepts, regression_eval_accepts, rows_suffice, solution_usable, RefitRequest,
    RefitStep,
};
use gtboost::early_stop::EarlyStopping;
use gtboost::gradients::{
    adapts_huber, binary_class_weights, choose_eval_loss, choose_gradients, finite_bounds, multiclass_weight, rank_bin,
    rank_histogram, rank_opponents, split_classes, EvalLoss, GradientForm,
};
use gtboost::hashing::hash_fold;
use gtboost::multiclass::{
    bucket_rng, bucket_seed, choose_honest_mode, class_counts, class_labels, count_classes, count_trees_kept, cut_tail,
    estimation_rows, grow_policy_from_name, honest_share, ordered_buckets, plan_buckets, plan_leave_one_out,
    plan_shared_subtree, plan_subtree, rows_in_bucket, sample_bits, split_honestly, tree_class, unbiased_scores,
    FitCourse, FitStep, GrowPolicy, HonestMode, LambdaScale, MulticlassSettings, SubtreePlan,
};
use gtboost::num::Num;
use gtboost::pressure::{
    adaptive_subtree_count_by_pressure, best_cyclic_partner_by_pair_pressure, correction_changes, correction_solvable,
    correction_strength, correction_targets,
    cyclic_feature_order_by_pressure, first_best, judge_pressure, main_effect_candidates, main_effect_due,
    main_effect_from_scored_pressures, make_adaptive_feature_mask_by_pressure, max_cyclic_feature_pressure, pair_cells,
    pressure_bins, rows_absent, settle_fold_pressure, sibling_block_applies, take_adaptive_root_anchor_by_pressure,
    take_best_cyclic_feature_by_pressure, take_cyclic_feature_by_residual_auction, CyclicSettings, EffectEvidence,
    PressureVerdict,
};
use gtboost::task::{task_from_name, Task};
use gtboost::tree::{BinnedData, DecisionTree, NO_FEATURE};
use rand::rngs::StdRng;
use rand::SeedableRng;

fn num(x: f64) -> Num {
    Num { bits: x.to_bits() }
}

fn nums(v: &[f64]) -> Vec<Num> {
    v.iter().map(|&x| num(x)).collect()
}

fn binned(n_rows: usize, columns: Vec<Vec<u16>>) -> BinnedData {
    let n_features = columns.len();
    let bins: Vec<u16> = columns.into_iter().flatten().collect();
    BinnedData {
        n_rows,
        n_features,
        missing_bin: 999,
        bin_indices: bins.clone(),
        is_categorical: vec![false; n_features],
        cll_is_categorical: vec![false; n_features],
        cll_n_bins: vec![2; n_features],
        cll_hash_bins: bins,
    }
}

#[test]
fn tasks_have_names() {
    assert_eq!(task_from_name(&"regression".to_string()), Task::Regression);
    assert_eq!(task_from_name(&"binary".to_string()), Task::Binary);
    assert_eq!(task_from_name(&"multiclass".to_string()), Task::Multiclass);
    assert_eq!(task_from_name(&"poisson".to_string()), Task::Poisson);
    assert_eq!(task_from_name(&"rank".to_string()), Task::Rank);
    assert_eq!(task_from_name(&"Binary".to_string()), Task::Other);
}

#[test]
fn blocks_part_the_trees() {
    let b = plan_blocks(10, 3);
    assert_eq!(b.starts, vec![0, 3, 6]);
    assert_eq!(b.ends, vec![3, 6, 10]);
    assert_eq!(b.block_of_tree, vec![0, 0, 0, 1, 1, 1, 2, 2, 2, 2]);
    let w = expand_weights(&b, &nums(&[1.0, 2.0, 3.0]), 10);
    assert_eq!(w[2], num(1.0));
    assert_eq!(w[3], num(2.0));
    assert_eq!(w[9], num(3.0));
}

#[test]
fn a_refit_needs_trees_and_rows() {
    let request = RefitRequest {
        enabled: true,
        task: Task::Regression,
        n_rows: 100,
        n_targets: 100,
        learning_rate: num(0.1),
        n_trees: 20,
        min_trees: 16,
        dart_rate: num(0.0),
        max_blocks: 64,
    };
    assert_eq!(request.block_count(), Some(20));
    assert_eq!(RefitRequest { max_blocks: 8, ..request }.block_count(), Some(8));
    assert_eq!(RefitRequest { enabled: false, ..request }.block_count(), None);
    assert_eq!(RefitRequest { task: Task::Poisson, ..request }.block_count(), None);
    assert_eq!(RefitRequest { n_targets: 99, ..request }.block_count(), None);
    assert_eq!(RefitRequest { learning_rate: num(0.0), ..request }.block_count(), None);
    assert_eq!(RefitRequest { n_trees: 15, ..request }.block_count(), None);
    assert_eq!(RefitRequest { dart_rate: num(0.1), ..request }.block_count(), None);
    assert_eq!(RefitRequest { n_rows: 20, n_targets: 20, ..request }.block_count(), None);
}

#[test]
fn audit_folds_come_from_the_seed() {
    let plan = audit_plan(Task::Regression, 7, &num(0.2), &num(5.0), 400, 4).unwrap();
    assert_eq!(plan.folds, 5);
    let seed = 7 ^ 0xC0B1_0C0A_7E57_5EED;
    assert!((0..400).all(|row| plan.fold_of_row[row] == hash_fold(row, seed, 5)));
    let binary = audit_plan(Task::Binary, 7, &num(0.2), &num(5.0), 400, 4).unwrap();
    assert_eq!(binary.fold_of_row[3], hash_fold(3, 7 ^ 0xB10C_C0A7_E57B_1A5E, 5));
    assert!(audit_plan(Task::Binary, 7, &num(0.0), &num(5.0), 400, 4).is_none());
    assert!(audit_plan(Task::Binary, 7, &num(0.2), &num(5.0), 79, 4).is_none());
}

#[test]
fn a_refit_is_installed_after_all_steps() {
    let mut step = first_refit_step(2);
    let mut taken = Vec::new();
    while step != RefitStep::Install && step != RefitStep::Keep {
        taken.push(step);
        step = next_refit_step(step, true, 2, true);
    }
    assert_eq!(step, RefitStep::Install);
    assert_eq!(
        taken,
        vec![
            RefitStep::SolveFold(0),
            RefitStep::ScoreFold(0),
            RefitStep::SolveFold(1),
            RefitStep::ScoreFold(1),
            RefitStep::JudgeAudit,
            RefitStep::SolveAll,
            RefitStep::JudgeEval,
        ]
    );
    assert_eq!(next_refit_step(RefitStep::JudgeAudit, false, 2, true), RefitStep::Keep);
    assert_eq!(next_refit_step(RefitStep::SolveAll, true, 2, false), RefitStep::Install);
    assert_eq!(first_refit_step(0), RefitStep::SolveAll);
}

#[test]
fn refits_are_judged_by_their_losses() {
    assert!(rows_suffice(5, 4, &num(1.0)));
    assert!(!rows_suffice(4, 4, &num(1.0)));
    assert!(!rows_suffice(5, 4, &num(0.0)));
    assert!(!rows_suffice(5, 4, &num(f64::INFINITY)));
    assert!(solution_usable(&nums(&[1.0, 2.0]), 2));
    assert!(!solution_usable(&nums(&[1.0, f64::NAN]), 2));
    assert!(!solution_usable(&nums(&[1.0]), 2));
    assert!(binary_audit_accepts(&num(1.0), &num(0.5), &num(0.6), &num(0.9)));
    assert!(!binary_audit_accepts(&num(1.0), &num(0.5), &num(0.95), &num(0.9)));
    assert!(!binary_audit_accepts(&num(0.0), &num(0.5), &num(0.6), &num(0.9)));
    assert!(regression_audit_accepts(24, &num(1.0), &num(0.5), &num(0.9), &num(-1.0)));
    assert!(!regression_audit_accepts(23, &num(1.0), &num(0.5), &num(0.9), &num(-1.0)));
    assert!(!regression_audit_accepts(24, &num(1.0), &num(0.5), &num(0.9), &num(0.1)));
    assert!(binary_eval_accepts(&num(1.0), &num(0.5), &num(0.6), &num(0.9)));
    assert!(!binary_eval_accepts(&num(f64::NAN), &num(0.5), &num(0.6), &num(0.9)));
    assert!(regression_eval_accepts(&num(1.0), &num(0.5), &num(0.9), &num(0.0)));
    assert!(!regression_eval_accepts(&num(1.0), &num(0.95), &num(0.9), &num(0.0)));
}

#[test]
fn training_stops_when_losses_stall() {
    let losses = [3.0, 2.0, 2.0, 2.5, f64::NAN, 1.0];
    let mut watch = EarlyStopping::start();
    let mut history: Vec<Num> = Vec::new();
    let mut verdicts = Vec::new();
    for l in losses {
        verdicts.push(watch.observe(&history, &num(l), 3));
        history.push(num(l));
    }
    assert_eq!(verdicts, vec![false, false, false, false, true, false]);
    assert_eq!(watch.best_round, 6);
    assert_eq!(watch.best_loss, num(1.0));
    assert_eq!(watch.stale, 0);
}

#[test]
fn the_first_of_equal_losses_is_best() {
    let mut watch = EarlyStopping::start();
    watch.observe(&vec![], &num(2.0), 5);
    watch.observe(&nums(&[2.0]), &num(2.0), 5);
    assert_eq!(watch.best_round, 1);
    assert_eq!(watch.stale, 1);
}

#[test]
fn trees_go_round_the_classes() {
    assert_eq!((0..8).map(|t| tree_class(t, 1, 3)).collect::<Vec<usize>>(), vec![0, 1, 2, 0, 1, 2, 0, 1]);
    assert_eq!((0..8).map(|t| tree_class(t, 2, 3)).collect::<Vec<usize>>(), vec![0, 0, 1, 1, 2, 2, 0, 0]);
}

#[test]
fn ordered_rounds_add_trees_for_each_bucket() {
    let settings = MulticlassSettings {
        multi_output_tree: true,
        ordered_boost: true,
        prob_avg: false,
        honest: false,
        n_trees_per_round: 2,
        ordered_n_buckets: 4,
    };
    assert!(settings.use_ordered(10));
    assert_eq!(settings.bucket_count(10), 4);
    assert_eq!(settings.bucket_count(3), 3);
    assert_eq!(settings.round_trees_per_class(10), 8);
    let honest = MulticlassSettings { honest: true, ..settings };
    assert!(!honest.use_ordered(10));
    assert_eq!(honest.round_trees_per_class(10), 2);
}

#[test]
fn labels_span_the_classes() {
    let y = nums(&[0.0, 2.7, 1.0, f64::NAN, -3.0]);
    assert_eq!(count_classes(&y), 3);
    assert_eq!(class_labels(&y), vec![0, 2, 1, 0, 0]);
    assert_eq!(count_classes(&vec![]), 1);
}

#[test]
fn pools_leave_out_their_bucket() {
    assert_eq!(rows_in_bucket(&vec![0, 1, 2, 0, 1], 1), vec![1, 4]);
    let plan = plan_buckets(vec![0, 1, 2, 0, 1], 3);
    assert_eq!(plan.rows, vec![vec![0, 3], vec![1, 4], vec![2]]);
    assert_eq!(plan.pools, vec![vec![1, 4, 2], vec![0, 3, 2], vec![0, 3, 1, 4]]);
}

#[test]
fn random_buckets_are_even() {
    assert_eq!(bucket_seed(1), 9002);
    let plan = ordered_buckets(&mut bucket_rng(5), 22, 4);
    assert_eq!(plan.rows.iter().map(|r| r.len()).collect::<Vec<usize>>(), vec![6, 6, 5, 5]);
    assert_eq!(plan.pools[0].len(), 16);
    assert_eq!(plan.bucket_of, ordered_buckets(&mut bucket_rng(5), 22, 4).bucket_of);
    assert_ne!(plan.bucket_of, (0..22).map(|i| i % 4).collect::<Vec<usize>>());
}

#[test]
fn unbiased_scores_come_from_the_own_bucket() {
    // Two buckets, two rows, two classes.
    let shadow = nums(&[0.0, 1.0, 2.0, 3.0, 4.0, 5.0, 6.0, 7.0]);
    assert_eq!(unbiased_scores(&shadow, &vec![1, 0], 2, 2), nums(&[4.0, 5.0, 2.0, 3.0]));
}

#[test]
fn mixed_subtrees_take_turns() {
    let own = plan_subtree(false, 3, 1, 6, GrowPolicy::Depthwise, true);
    assert_eq!((own.depth, own.lambda, own.oblivious, own.extra_trees), (6, LambdaScale::Same, false, true));
    let shallow = plan_subtree(true, 3, 1, 6, GrowPolicy::Depthwise, true);
    assert_eq!(
        (shallow.depth, shallow.lambda, shallow.oblivious, shallow.extra_trees),
        (5, LambdaScale::Double, true, false)
    );
    let deep = plan_subtree(true, 3, 2, 6, GrowPolicy::Oblivious, true);
    assert_eq!((deep.depth, deep.lambda, deep.oblivious, deep.extra_trees), (7, LambdaScale::Half, false, true));
    assert_eq!(plan_subtree(true, 3, 1, 2, GrowPolicy::Depthwise, true).depth, 2);
    assert_eq!(grow_policy_from_name(&"leafwise".to_string()), GrowPolicy::Leafwise);
    assert_eq!(grow_policy_from_name(&"oblivious".to_string()), GrowPolicy::Oblivious);
    assert_eq!(grow_policy_from_name(&"adaptive".to_string()), GrowPolicy::Depthwise);
}

#[test]
fn honest_trees_keep_rows_apart() {
    let mut rng = StdRng::seed_from_u64(1);
    let sample: Vec<u32> = vec![1, 3, 5, 7];
    let off = split_honestly(&mut rng, &sample, 8, HonestMode::Off, 0);
    assert_eq!(off.structure, sample);
    assert_eq!(off.estimation, Vec::<u32>::new());
    let out = split_honestly(&mut rng, &sample, 8, HonestMode::OutOfSample, 0);
    assert_eq!(out.structure, sample);
    assert_eq!(out.estimation, vec![0, 2, 4, 6]);
    let cut = split_honestly(&mut rng, &sample, 8, HonestMode::Cut, 1);
    assert_eq!(cut.structure.len(), 3);
    assert_eq!(cut.estimation.len(), 1);
    let mut all: Vec<u32> = cut.structure.iter().chain(cut.estimation.iter()).copied().collect();
    all.sort_unstable();
    assert_eq!(all, sample);
    assert_eq!(choose_honest_mode(false, &num(0.5), &num(0.5)), HonestMode::Off);
    assert_eq!(choose_honest_mode(true, &num(0.0), &num(0.5)), HonestMode::OutOfSample);
    assert_eq!(choose_honest_mode(true, &num(0.0), &num(1.0)), HonestMode::Cut);
    assert_eq!(choose_honest_mode(true, &num(0.5), &num(0.5)), HonestMode::Cut);
    assert_eq!(honest_share(&num(0.5)), num(0.5));
    assert_eq!(honest_share(&num(0.01)), num(0.1));
    assert_eq!(honest_share(&num(2.0)), num(0.9));
    assert_eq!(estimation_rows(&num(2.5), 10), 3);
    assert_eq!(estimation_rows(&num(99.0), 10), 10);
    assert_eq!(cut_tail(&vec![1, 2, 3], 2), (vec![1], vec![2, 3]));
    assert_eq!(sample_bits(&sample, 8), vec![0b1010_1010]);
}

#[test]
fn shared_subtrees_carry_their_shape() {
    let mut rng = StdRng::seed_from_u64(1);
    let shape = plan_subtree(false, 1, 0, 4, GrowPolicy::Depthwise, false);
    let plan = plan_shared_subtree(&mut rng, &vec![0, 1, 2, 3], 4, HonestMode::Cut, &num(2.0), shape);
    assert_eq!(plan.shape, shape);
    assert_eq!(plan.split.estimation.len(), 2);
    let other = plan_shared_subtree(&mut rng, &vec![0, 1, 2, 3], 4, HonestMode::Off, &num(2.0), shape);
    assert_ne!(plan.seed, other.seed);
    let made = SubtreePlan::assemble(plan.split, shape, 77);
    assert_eq!((made.seed, made.shape, made.split.estimation.len()), (77, shape, 2));
}

#[test]
fn rows_that_built_a_leaf_are_left_out() {
    let tree = DecisionTree {
        split_features: vec![0, NO_FEATURE, NO_FEATURE],
        split_bins: vec![0, 0, 0],
        left_children: vec![1, 0, 0],
        right_children: vec![2, 0, 0],
        missing_goes_left: vec![true, false, false],
        is_cat_split: vec![false; 3],
        cat_left_masks: vec![vec![]; 3],
        is_cat_pair: vec![false; 3],
        pair_routes: vec![vec![]; 3],
        is_oblique_split: vec![false; 3],
        oblique_features: vec![],
        values: nums(&[0.0, 1.0, 2.0]),
        cat_lookups: vec![None, None, None],
        ramp_k: 0,
        ramp_features: vec![],
        ramp_slopes: vec![],
        leaf_pair_features: vec![],
        leaf_pair_slopes: vec![],
        quad_n_interactions: 0,
        quad_slopes: vec![],
    };
    let data = binned(4, vec![vec![0, 0, 1, 1]]);
    let r = plan_leave_one_out(&tree, &data, &vec![0, 1, 2], 4);
    assert_eq!(r.leaf, vec![1, 1, 2, 2]);
    assert_eq!(r.built, vec![2, 2, 1, 1]);
    assert_eq!(r.left_out, vec![true, true, false, false]);
    assert_eq!(class_counts(&vec![0, 2, 3], &vec![1, 0, 1, 0], 2), vec![1, 2]);
}

#[test]
fn a_fit_runs_its_course() {
    let course = FitCourse { n_rounds: 2, evaluates: true, refine_every: 2, n_leaf_splits: 1, n_refine: 1 };
    let mut step = course.first_step();
    let mut taken = Vec::new();
    while step != FitStep::Done {
        taken.push(step);
        step = course.next_step(step, false);
    }
    assert_eq!(
        taken,
        vec![
            FitStep::Build(0),
            FitStep::Evaluate(0),
            FitStep::Build(1),
            FitStep::Evaluate(1),
            FitStep::Refine(1),
            FitStep::Trim,
            FitStep::SplitLeaves(0),
            FitStep::RefineSplit(0),
            FitStep::RefineAll,
            FitStep::Prune,
        ]
    );
    assert_eq!(course.next_step(FitStep::Evaluate(0), true), FitStep::Trim);
    assert_eq!(count_trees_kept(12, 2, 3, true, false), 6);
    assert_eq!(count_trees_kept(12, 2, 3, true, true), 12);
    assert_eq!(count_trees_kept(12, 2, 3, false, false), 12);
}

#[test]
fn gradients_go_by_the_task() {
    let y = nums(&[1.0, 0.0, 1.0]);
    let form = |task, delta, alpha| choose_gradients(task, &num(delta), &num(alpha), &y);
    assert_eq!(form(Task::Regression, 0.0, 0.0), GradientForm::Squared);
    assert_eq!(form(Task::Regression, 1.0, 0.0), GradientForm::Huber);
    assert_eq!(form(Task::Binary, 0.0, 0.0), GradientForm::LogLoss);
    assert_eq!(form(Task::Binary, 0.0, 0.5), GradientForm::ExactPairs);
    assert_eq!(form(Task::Poisson, 0.0, 0.0), GradientForm::Poisson);
    assert_eq!(form(Task::Rank, 0.0, 0.0), GradientForm::Opponents);
    assert_eq!(form(Task::Other, 0.0, 0.0), GradientForm::Squared);
    let one_class = nums(&[1.0, 1.0]);
    assert_eq!(choose_gradients(Task::Rank, &num(0.0), &num(0.0), &one_class), GradientForm::PlainLogLoss);
    assert_eq!(choose_gradients(Task::Binary, &num(0.0), &num(0.5), &one_class), GradientForm::LogLoss);
    let large: Vec<Num> = (0..4000).map(|i| num((i % 2) as f64)).collect();
    assert_eq!(choose_gradients(Task::Binary, &num(0.0), &num(0.5), &large), GradientForm::HistogramPairs);
    assert!(adapts_huber(&num(-1.0)));
    assert!(!adapts_huber(&num(0.0)));
}

#[test]
fn opponents_are_of_the_other_class() {
    let y = nums(&[1.0, 0.0, 1.0, 0.0, 0.0]);
    assert_eq!(split_classes(&y), (vec![0, 2], vec![1, 3, 4]));
    assert_eq!(rank_opponents(&y), Some(vec![1, 2, 4, 2, 0]));
    assert_eq!(rank_opponents(&nums(&[1.0, 1.0])), None);
}

#[test]
fn class_weights_must_be_usable() {
    assert_eq!(binary_class_weights(&nums(&[2.0])), (num(1.0), num(1.0)));
    assert_eq!(binary_class_weights(&nums(&[2.0, 3.0])), (num(2.0), num(3.0)));
    assert_eq!(binary_class_weights(&nums(&[0.0, f64::INFINITY])), (num(1.0), num(1.0)));
    assert_eq!(multiclass_weight(&nums(&[2.0, 3.0]), 2, 1), num(3.0));
    assert_eq!(multiclass_weight(&nums(&[2.0, 3.0]), 3, 1), num(1.0));
}

#[test]
fn scores_fall_into_rank_bins() {
    let low = rank_bin(&num(-100.0), &num(-5.0));
    let high = rank_bin(&num(100.0), &num(1e9));
    assert_eq!(low, 0);
    assert!(high > low);
    let counts = rank_histogram(&vec![0, 2], &vec![3, 4, 3]);
    assert_eq!(counts[3], 2);
    assert_eq!(counts[4], 0);
    let (lo, hi, n) = finite_bounds(&nums(&[f64::NAN, 2.0, -1.0, f64::INFINITY]));
    assert_eq!((lo, hi, n), (num(-1.0), num(2.0), 2));
}

#[test]
fn evaluation_losses_go_by_task_and_metric() {
    assert_eq!(choose_eval_loss(Task::Regression, "auc", true), EvalLoss::SquaredError);
    assert_eq!(choose_eval_loss(Task::Binary, "auto", true), EvalLoss::LogLoss);
    assert_eq!(choose_eval_loss(Task::Binary, "AUC", true), EvalLoss::AucError);
    assert_eq!(choose_eval_loss(Task::Binary, "auc", false), EvalLoss::LogLoss);
    assert_eq!(choose_eval_loss(Task::Poisson, "auto", true), EvalLoss::PoissonDeviance);
}

#[test]
fn pressure_is_taken_over_bins_and_folds() {
    let data = binned(4, vec![vec![0, 3, 999, 1], vec![0, 0, 0, 0]]);
    let p = pressure_bins(&data, 0).unwrap();
    assert_eq!(p.width, 4);
    assert_eq!(p.bins, vec![Some(0), Some(3), None, Some(1)]);
    assert_eq!(p.folds, vec![0, 1, 1, 0]);
    assert_eq!(pressure_bins(&data, 1).unwrap().folds, vec![1, 0, 0, 1]);
    assert!(pressure_bins(&data, 2).is_none());
}

#[test]
fn pressure_is_judged_and_settled() {
    assert_eq!(judge_pressure(&num(0.0), 4, &num(1.0), &num(0.0), 100), PressureVerdict::Zero);
    assert_eq!(judge_pressure(&num(5.0), 4, &num(1.0), &num(0.0), 100), PressureVerdict::Score);
    assert_eq!(settle_fold_pressure(&num(-1.0)), num(0.0));
    assert_eq!(settle_fold_pressure(&num(f64::INFINITY)), num(0.0));
    assert_eq!(settle_fold_pressure(&num(2.0)), num(2.0));
}

#[test]
fn features_are_ordered_by_pressure() {
    assert_eq!(cyclic_feature_order_by_pressure(&nums(&[0.1, 0.9, 0.1])), vec![1, 0, 2]);
    assert_eq!(max_cyclic_feature_pressure(&nums(&[0.1, 0.9, -4.0])), num(0.9));
    assert_eq!(max_cyclic_feature_pressure(&nums(&[-0.1])), num(0.0));
    assert_eq!(first_best(&nums(&[1.0, 3.0, 3.0]), &vec![true, true, true], &num(0.0)), Some(1));
    assert_eq!(first_best(&nums(&[1.0, 3.0, 3.0]), &vec![true, false, true], &num(0.0)), Some(2));
    assert_eq!(first_best(&nums(&[f64::NAN]), &vec![true], &num(0.0)), None);
    assert_eq!(best_cyclic_partner_by_pair_pressure(0, &nums(&[9.0, 1.0, 2.0]), &num(0.5)), Some(2));
    assert_eq!(best_cyclic_partner_by_pair_pressure(0, &nums(&[9.0, 1.0, 2.0]), &num(2.0)), None);
    assert_eq!(best_cyclic_partner_by_pair_pressure(5, &nums(&[9.0, 1.0]), &num(0.0)), None);
}

#[test]
fn subtrees_follow_the_effective_dimension() {
    assert_eq!(adaptive_subtree_count_by_pressure(1, 9, &num(5.0), &num(4.0)), 1);
    assert_eq!(adaptive_subtree_count_by_pressure(8, 1, &num(5.0), &num(4.0)), 8);
    assert_eq!(adaptive_subtree_count_by_pressure(8, 9, &num(1.0), &num(4.0)), 1);
    assert_eq!(adaptive_subtree_count_by_pressure(8, 9, &num(5.0), &num(4.9)), 4);
    assert_eq!(adaptive_subtree_count_by_pressure(8, 9, &num(5.0), &num(40.0)), 8);
}

#[test]
fn main_effects_must_stand_out() {
    assert_eq!(main_effect_candidates(&nums(&[0.5, 2.0, 1.0]), Some(1)), vec![2, 0]);
    let evidence = EffectEvidence {
        total: num(10.0),
        best: num(9.0),
        share: num(0.9),
        min_share: num(0.5),
        ratio: num(9.0),
        floor: num(0.1),
    };
    assert_eq!(main_effect_from_scored_pressures(&vec![], &evidence), None);
    assert!(main_effect_due(3, 2));
    assert!(!main_effect_due(3, 3));
    assert!(!main_effect_due(0, 2));
}

#[test]
fn rounds_have_subtrees_for_their_features() {
    let plain = CyclicSettings {
        cyclic_features: false,
        adaptive_cyclic_order: true,
        cyclic_feature_reuse: true,
        cyclic_revisit_trees: 0,
        cyclic_max_features_per_round: 0,
        n_trees_per_round: 3,
    };
    assert_eq!(plain.subtrees_per_boosting_round(7), 3);
    assert_eq!(plain.cyclic_revisit_budget(), 3);
    let cyclic = CyclicSettings { cyclic_features: true, ..plain };
    assert_eq!(cyclic.subtrees_per_boosting_round(7), 10);
    let few = CyclicSettings { cyclic_max_features_per_round: 2, cyclic_revisit_trees: 99, ..cyclic };
    assert_eq!(few.subtrees_per_boosting_round(7), 18);
    let no_reuse = CyclicSettings { cyclic_feature_reuse: false, ..few };
    assert_eq!(no_reuse.subtrees_per_boosting_round(7), 2);
}

#[test]
fn features_are_taken_one_by_one() {
    let mut remaining = vec![4, 6, 9];
    assert_eq!(take_best_cyclic_feature_by_pressure(&mut remaining, &nums(&[0.1, 0.7, 0.3])), Some(6));
    assert_eq!(remaining, vec![4, 9]);
    let mut usage = vec![0, 2];
    assert_eq!(take_cyclic_feature_by_residual_auction(&mut usage, &nums(&[0.1, 0.3])), Some(1));
    assert_eq!(usage, vec![0, 3]);
    let mut anchors = vec![0, 0];
    let anchor = take_adaptive_root_anchor_by_pressure(&mut anchors, &nums(&[0.0, 0.5]), &nums(&[9.0, 0.1]));
    assert_eq!(anchor, Some(1));
    assert_eq!(anchors, vec![0, 1]);
    let mut counts = vec![5, 5, 5];
    let mask = make_adaptive_feature_mask_by_pressure(&mut counts, &nums(&[0.2, 0.9, 0.4]), &num(2.0));
    assert_eq!(mask, vec![false, true, true]);
    assert_eq!(counts, vec![5, 6, 6]);
}

#[test]
fn pairs_of_features_form_a_grid() {
    let data = binned(3, vec![vec![0, 1, 999], vec![1, 0, 0]]);
    let cells = pair_cells(&data, &vec![2, 2], 0, 1, 2).unwrap();
    assert_eq!(cells, vec![Some(1), Some(2), None]);
    assert!(pair_cells(&data, &vec![2, 2], 0, 0, 2).is_none());
}

#[test]
fn sibling_blocks_need_matching_lengths() {
    assert!(sibling_block_applies(2, 10, 10, None, 0, 0));
    assert!(!sibling_block_applies(1, 10, 10, None, 0, 0));
    assert!(!sibling_block_applies(2, 10, 9, None, 0, 0));
    assert!(sibling_block_applies(2, 10, 10, Some(2), 10, 10));
    assert!(!sibling_block_applies(2, 10, 10, Some(3), 10, 10));
    assert!(correction_changes(&nums(&[0.0, 0.01])));
    assert!(!correction_changes(&nums(&[0.0, 0.0001])));
    assert_eq!(rows_absent(&vec![0b101], 4), vec![1, 3]);
}

#[test]
fn a_stalled_training_keeps_the_best_rounds() {
    let course = FitCourse { n_rounds: 8, evaluates: true, refine_every: 0, n_leaf_splits: 0, n_refine: 0 };
    let all = nums(&[3.0, 2.0, 2.5, 2.0, 9.0, 1.0, 1.0, 1.0]);
    let (patience, trees_per_round) = (3, 2);
    let mut watch = EarlyStopping::start();
    let mut losses: Vec<Num> = Vec::new();
    let mut trees = 0;
    let mut step = course.first_step();
    while step != FitStep::Done {
        let mut stops = false;
        match step {
            FitStep::Build(_) => trees += trees_per_round,
            FitStep::Evaluate(r) => {
                stops = watch.observe(&losses, &all[r], patience);
                losses.push(all[r]);
            }
            FitStep::Trim => trees = count_trees_kept(trees, watch.best_round, trees_per_round, true, false),
            _ => {}
        }
        step = course.next_step(step, stops);
    }
    // The second round is the best of five, and three rounds brought no lower loss.
    assert_eq!(losses, all[..5].to_vec());
    assert_eq!(watch.best_round, 2);
    assert_eq!(trees, 4);
}

#[test]
fn a_training_without_evaluation_runs_all_rounds() {
    let course = FitCourse { n_rounds: 3, evaluates: false, refine_every: 2, n_leaf_splits: 1, n_refine: 1 };
    let mut trees = 0;
    let mut step = course.first_step();
    while step != FitStep::Done {
        match step {
            FitStep::Build(_) => trees += 4,
            FitStep::Evaluate(_) => panic!("there are no rows to evaluate on"),
            FitStep::Trim => trees = count_trees_kept(trees, 0, 4, false, false),
            _ => {}
        }
        step = course.next_step(step, false);
    }
    assert_eq!(trees, 12);
}

#[test]
fn corrections_are_held_to_a_range() {
    assert!(correction_solvable(&num(1e-17)));
    assert!(!correction_solvable(&num(1e-18)));
    assert!(!correction_solvable(&num(f64::NAN)));
    assert!(!correction_solvable(&num(f64::INFINITY)));
    assert_eq!(correction_targets(&nums(&[-1.0, 0.5, 7.0])), nums(&[0.0, 0.5, 2.5]));
    assert_eq!(correction_strength(&num(1.5)), num(1.0));
    assert_eq!(correction_strength(&num(0.25)), num(0.25));
}
