//! The model: its settings, what training leaves in it, and what it tells of itself.

use crate::bits::{
    EIGHT, E_MINUS_12, E_MINUS_4, E_MINUS_5, E_MINUS_6, FIVE, FOUR, HALF, MINUS_ONE, ONE, POINT_05,
    POINT_49, POINT_9, POINT_99, POINT_9999, TEN, THIRTY, TWENTY, TWENTY_FIVE, TWO,
};
use crate::ctr_tables::CtrTables;
use crate::num::{saturate, Num};
use crate::prior::VerticalPrior;
use crate::select::at_most;
use crate::tree::{BinnedData, DecisionTree};
use std::collections::HashMap;
use vstd::prelude::*;

verus! {

/// The version of the stored form of a model.
pub const MODEL_FORMAT_VERSION: u32 = 1;

/// `x`, but at least `lo`.
pub open spec fn raised(x: int, lo: int) -> int {
    if x > lo {
        x
    } else {
        lo
    }
}

fn at_least(x: usize, lo: usize) -> (r: usize)
    ensures
        r == raised(x as int, lo as int),
{
    if x > lo {
        x
    } else {
        lo
    }
}

fn no_more(x: usize, hi: usize) -> (r: usize)
    ensures
        r == at_most(x as int, hi as int),
{
    if x <= hi {
        x
    } else {
        hi
    }
}

fn between(x: usize, lo: usize, hi: usize) -> (r: usize)
    requires
        lo <= hi,
    ensures
        r == saturate(x as int, lo as int, hi as int),
{
    if x < lo {
        lo
    } else if x > hi {
        hi
    } else {
        x
    }
}

/// The settings of a model, held to the ranges in which they make sense.
#[derive(Clone)]
pub struct Settings {
    pub max_depth: usize,
    pub learning_rate: Num,
    pub subsample_rate: Num,
    pub vertical_init: bool,
    pub vertical_init_cycles: usize,
    pub lambda_reg: Num,
    pub gamma: Num,
    pub min_child_weight: Num,
    pub colsample_bytree: Num,
    pub task: String,
    pub num_bins: usize,
    pub seed: u64,
    pub grow_policy: String,
    pub max_leaves: usize,
    pub n_refine: usize,
    pub n_leaf_splits: usize,
    pub refine_every: usize,
    pub early_stopping_rounds: usize,
    pub eval_metric: String,
    pub verbose: usize,
    pub l1_reg: Num,
    pub refine_alpha: Num,
    pub honest: bool,
    pub honest_fraction: Num,
    pub honest_arbitration: bool,
    pub feature_gain_prior: Vec<Num>,
    pub thermal: Num,
    pub stein_leaves: bool,
    pub stein_levels: bool,
    pub thermal_n_exp: Num,
    pub thermal_depth_gamma: Num,
    pub split_audit_fraction: Num,
    pub colsample_bylevel: Num,
    pub lr_decay: Num,
    pub n_trees_per_round: usize,
    pub cat_features: Vec<bool>,
    pub grad_clip: Num,
    pub random_strength: Num,
    pub bagging_temperature: Num,
    pub huber_delta: Num,
    pub cat_smooth: Num,
    pub cat_lookup_smooth: Num,
    pub monotone_constraints: Vec<i8>,
    pub max_cat_bins: usize,
    pub ramp: bool,
    pub ramp_lambda: Num,
    pub ramp_k: usize,
    pub leaf_linear: bool,
    pub leaf_quadratic: bool,
    pub leaf_correction: usize,
    pub grad_momentum: Num,
    pub gain_penalty: Num,
    pub split_pessimism: Num,
    pub cat_prototype_bins: usize,
    pub cat_audit_strength: Num,
    pub split_contrast_penalty: Num,
    pub signal_gate: Num,
    pub supervised_bins: bool,
    pub fold_ordered: usize,
    pub cat_fold_evidence: bool,
    pub cfe_folds: usize,
    pub cfe_max_pairs: usize,
    pub cfe_max_triples: usize,
    pub cfe_max_quads: usize,
    pub cfe_dual_prior: bool,
    pub cfe_counter: bool,
    pub cfe_aggmax: bool,
    pub cfe_smooth: Num,
    pub cfe_demote_raw: bool,
    pub cfe_demote_min_card: usize,
    pub cfe_residual_rounds: usize,
    pub self_score_splits: bool,
    pub hetero_trees: bool,
    pub dart_rate: Num,
    pub max_delta_step: Num,
    pub main_effect_interval: usize,
    pub main_effect_depth: usize,
    pub cyclic_features: bool,
    pub cyclic_max_features_per_round: usize,
    pub auto_interactions: bool,
    pub auto_cat_interactions: bool,
    pub max_interaction_features: usize,
    pub lambda_schedule: Num,
    pub use_bootstrap: bool,
    pub extra_trees: bool,
    pub label_smooth: Num,
    pub multi_output_tree: bool,
    pub multiclass_pair_sequence: bool,
    pub prob_avg: bool,
    pub honest_tau: Num,
    pub complement_debias_mode: u8,
    pub phase_schedule: String,
    pub ncl_lambda: Num,
    pub adaptive_cyclic_order: bool,
    pub cyclic_partner_features: bool,
    pub cyclic_partner_min_pressure_ratio: Num,
    pub cyclic_partner_bins: usize,
    pub cyclic_feature_reuse: bool,
    pub cyclic_revisit_trees: usize,
    pub cyclic_revisit_min_pressure_ratio: Num,
    pub adaptive_feature_mask: bool,
    pub adaptive_feature_mask_penalty: Num,
    pub adaptive_root_anchor: bool,
    pub adaptive_root_anchor_penalty: Num,
    pub sparse_oblique_splits: bool,
    pub interval_splits: bool,
    pub sibling_block_correction: Num,
    pub adam_beta2: Num,
    pub adam_eps: Num,
    pub ortho_alpha: Num,
    pub split_criterion: String,
    pub rank_mix_alpha: Num,
    pub rank_mix_start_frac: Num,
    pub rank_pair_temperature: Num,
    pub binary_focus_gamma: Num,
    pub binary_focus_end_frac: Num,
    pub residual_focus_alpha: Num,
    pub residual_focus_max_scale: Num,
    pub residual_focus_mode: String,
    pub residual_focus_hessian_mode: String,
    pub residual_focus_redescend_tau: Num,
    pub feature_view_groups: Vec<u32>,
    pub leaf_trim_pct: Num,
    pub leaf_median: bool,
    pub leaf_median_blend: Num,
    pub leaf_mad_clip: Num,
    pub leaf_adaptive_blend_kappa: Num,
    pub ordered_boost: bool,
    pub ordered_n_buckets: usize,
    pub goss_top_rate: Num,
    pub goss_other_rate: Num,
    pub goss_mode: String,
    pub goss_anneal: Num,
    pub keep_all_trees: bool,
    pub corrective_block_refit: bool,
    pub corrective_blocks: usize,
    pub corrective_lambda: Num,
    pub corrective_blend: Num,
    pub corrective_min_trees: usize,
    pub corrective_audit_fraction: Num,
    pub corrective_min_rel_improve: Num,
    pub leaf_eb: bool,
    pub leaf_eb_min_trees: usize,
    pub leaf_eb_scale: Num,
    pub leaf_sibling_smooth: Num,
    pub hierarchical_shrinkage: Num,
    pub multiclass_coupled_leaves: bool,
    pub multiclass_joint_cll: bool,
    pub class_weights: Vec<Num>,
    pub adaptive_leaf_experts: bool,
    pub adaptive_cat_lookup_smooth: bool,
    pub cat_offset_smooth: Num,
    pub cat_offset_passes: usize,
    pub ordered_ctr: bool,
    pub ordered_ctr_top_features: usize,
    pub ordered_ctr_smooth: Num,
    pub ordered_ctr_permutations: usize,
    pub ordered_ctr_min_count: usize,
    pub cat_tuple_lookups: bool,
    pub cat_tuple_max_order: usize,
    pub cat_tuple_top_features: usize,
    pub cat_tuple_hash_bins: usize,
    pub cat_tuple_min_leaf: usize,
    pub cat_tuple_gain_margin: Num,
    pub expert_leaf_admission: bool,
    pub expert_max_terms: usize,
    pub expert_min_leaf: usize,
    pub expert_min_cal: usize,
    pub expert_ridge_lambda: Num,
    pub expert_alpha_max: Num,
    pub expert_param_penalty: Num,
    pub expert_se_multiplier: Num,
    pub expert_epsilon: Num,
    pub expert_shadow_trials: usize,
    pub antithetic_subtrees: bool,
    pub newton_decrement_cap: Num,
    pub lookahead_alpha: Num,
    pub sign_confidence_gamma: Num,
    pub soft_predict_bandwidth: Num,
    pub soft_leaf_bandwidth: Num,
    pub soft_leaf_passes: usize,
    pub leaf_var_shrink: Num,
    pub jensen_train_temp: Num,
    pub diversity_penalty: Num,
    pub diversity_decay: Num,
    pub jit_catpair_enabled: bool,
    pub jit_catpair_top_k: usize,
    pub jit_catpair_k_buckets: u8,
    pub jit_catpair_min_node_rows: usize,
    pub jit_catpair_max_node_depth: usize,
    pub jit_catpair_gain_margin: Num,
    pub jit_ltso_enabled: bool,
}

/// A fitted evidence table: for each key its group, and for each group its
/// count and its sums.
#[derive(Clone)]
pub struct EvidenceTable {
    pub index: HashMap<i64, usize>,
    pub counts: Vec<Num>,
    pub sums: Vec<Vec<Num>>,
}

/// What training leaves in a model.
#[derive(Clone)]
pub struct Trained {
    pub base_score: Num,
    pub class_base_scores: Vec<Num>,
    pub vertical_prior: VerticalPrior,
    pub cfe_tuples: Vec<Vec<usize>>,
    pub cfe_tables: Vec<EvidenceTable>,
    pub cfe_prior: Vec<Num>,
    pub cfe_n_out: usize,
    pub cfe_resid_tables: Vec<EvidenceTable>,
    pub cfe_resid_prior: Num,
    pub cat_offset_maps: Vec<HashMap<i64, Num>>,
    pub ctr: CtrTables,
    pub feature_usage_ema: Vec<Num>,
    pub val_losses: Vec<Num>,
    pub best_round: usize,
    pub trees: Vec<DecisionTree>,
    pub dart_tree_weights: Vec<Num>,
    pub binned: Option<BinnedData>,
    pub n_features: usize,
    pub n_classes: usize,
    pub multiclass_trees_per_class: usize,
    pub multiclass_tree_lr_scale: Num,
    pub tree_in_sample: Vec<Vec<u64>>,
    pub numeric_interaction_pairs: Vec<(usize, usize)>,
    pub numeric_interaction_edges: Vec<Vec<Num>>,
    pub categorical_interaction_pairs: Vec<(usize, usize)>,
    pub categorical_interaction_edges: Vec<Vec<Num>>,
    pub sumdiff_pairs: Vec<(usize, usize)>,
    pub sumdiff_edges: Vec<Vec<Num>>,
}

impl Trained {
    /// Nothing of a training is left, but for the base scores, the bins and the width.
    pub open spec fn cleared(&self) -> bool {
        &&& self.vertical_prior.idle()
        &&& self.cfe_tuples@.len() == 0
        &&& self.cfe_tables@.len() == 0
        &&& self.cfe_prior@.len() == 0
        &&& self.cfe_n_out == 0
        &&& self.cfe_resid_tables@.len() == 0
        &&& self.cfe_resid_prior.bits == 0
        &&& self.cat_offset_maps@.len() == 0
        &&& self.ctr.empty()
        &&& self.feature_usage_ema@.len() == 0
        &&& self.val_losses@.len() == 0
        &&& self.best_round == 0
        &&& self.trees@.len() == 0
        &&& self.dart_tree_weights@.len() == 0
        &&& self.n_classes == 0
        &&& self.multiclass_trees_per_class == 1
        &&& self.multiclass_tree_lr_scale.bits == ONE
        &&& self.tree_in_sample@.len() == 0
        &&& self.numeric_interaction_pairs@.len() == 0
        &&& self.numeric_interaction_edges@.len() == 0
        &&& self.categorical_interaction_pairs@.len() == 0
        &&& self.categorical_interaction_edges@.len() == 0
        &&& self.sumdiff_pairs@.len() == 0
        &&& self.sumdiff_edges@.len() == 0
    }

    /// A state before any training.
    pub fn start(base_score: Num) -> (r: Trained)
        ensures
            r.cleared(),
            r.base_score == base_score,
            r.class_base_scores@.len() == 0,
            r.binned is None,
            r.n_features == 0,
    {
        Trained {
            base_score,
            class_base_scores: Vec::new(),
            vertical_prior: VerticalPrior::none(),
            cfe_tuples: Vec::new(),
            cfe_tables: Vec::new(),
            cfe_prior: Vec::new(),
            cfe_n_out: 0,
            cfe_resid_tables: Vec::new(),
            cfe_resid_prior: Num { bits: 0 },
            cat_offset_maps: Vec::new(),
            ctr: CtrTables::none(),
            feature_usage_ema: Vec::new(),
            val_losses: Vec::new(),
            best_round: 0,
            trees: Vec::new(),
            dart_tree_weights: Vec::new(),
            binned: None,
            n_features: 0,
            n_classes: 0,
            multiclass_trees_per_class: 1,
            multiclass_tree_lr_scale: Num { bits: ONE },
            tree_in_sample: Vec::new(),
            numeric_interaction_pairs: Vec::new(),
            numeric_interaction_edges: Vec::new(),
            categorical_interaction_pairs: Vec::new(),
            categorical_interaction_edges: Vec::new(),
            sumdiff_pairs: Vec::new(),
            sumdiff_edges: Vec::new(),
        }
    }

    /// Forgets a training; the base scores, the bins and the width stay.
    pub fn clear_trained_state_for_fit(&mut self)
        ensures
            final(self).cleared(),
            final(self).base_score == old(self).base_score,
            final(self).class_base_scores == old(self).class_base_scores,
            final(self).binned == old(self).binned,
            final(self).n_features == old(self).n_features,
    {
        self.vertical_prior = VerticalPrior::none();
        self.cfe_tuples = Vec::new();
        self.cfe_tables = Vec::new();
        self.cfe_prior = Vec::new();
        self.cfe_n_out = 0;
        self.cfe_resid_tables = Vec::new();
        self.cfe_resid_prior = Num { bits: 0 };
        self.cat_offset_maps = Vec::new();
        self.ctr = CtrTables::none();
        self.feature_usage_ema = Vec::new();
        self.val_losses = Vec::new();
        self.best_round = 0;
        self.trees = Vec::new();
        self.dart_tree_weights = Vec::new();
        self.n_classes = 0;
        self.multiclass_trees_per_class = 1;
        self.multiclass_tree_lr_scale = Num { bits: ONE };
        self.tree_in_sample = Vec::new();
        self.numeric_interaction_pairs = Vec::new();
        self.numeric_interaction_edges = Vec::new();
        self.categorical_interaction_pairs = Vec::new();
        self.categorical_interaction_edges = Vec::new();
        self.sumdiff_pairs = Vec::new();
        self.sumdiff_edges = Vec::new();
    }
}

/// A model.
#[derive(Clone)]
pub struct GTBoostModel {
    pub settings: Settings,
    pub trained: Trained,
}

impl GTBoostModel {
    /// A model before any training. Numbers out of their range are brought into it.
    pub fn new(
        learning_rate: Num,
        max_depth: usize,
        subsample_rate: Num,
        base_score: Num,
        vertical_init: bool,
        vertical_init_cycles: usize,
        lambda_reg: Num,
        gamma: Num,
        min_child_weight: Num,
        colsample_bytree: Num,
        task: String,
        num_bins: usize,
        seed: Option<u64>,
        grow_policy: String,
        max_leaves: usize,
        n_refine: usize,
        n_leaf_splits: usize,
        refine_every: usize,
        early_stopping_rounds: usize,
        eval_metric: String,
        verbose: usize,
        l1_reg: Num,
        refine_alpha: Num,
        honest: bool,
        honest_fraction: Num,
        honest_arbitration: bool,
        feature_gain_prior: Vec<Num>,
        thermal: Num,
        stein_leaves: bool,
        stein_levels: bool,
        thermal_n_exp: Num,
        thermal_depth_gamma: Num,
        colsample_bylevel: Num,
        n_trees_per_round: usize,
        cat_features: Vec<bool>,
        grad_clip: Num,
        random_strength: Num,
        bagging_temperature: Num,
        huber_delta: Num,
        cat_smooth: Num,
        cat_lookup_smooth: Num,
        monotone_constraints: Vec<i8>,
        max_cat_bins: usize,
        leaf_linear: bool,
        leaf_quadratic: bool,
        leaf_correction: usize,
        grad_momentum: Num,
        gain_penalty: Num,
        split_pessimism: Num,
        cat_audit_strength: Num,
        split_contrast_penalty: Num,
        signal_gate: Num,
        supervised_bins: bool,
        fold_ordered: usize,
        cat_fold_evidence: bool,
        cfe_max_pairs: usize,
        cfe_max_triples: usize,
        cfe_max_quads: usize,
        cfe_smooth: Num,
        cfe_demote_raw: bool,
        cfe_demote_min_card: usize,
        self_score_splits: bool,
        hetero_trees: bool,
        dart_rate: Num,
        max_delta_step: Num,
        main_effect_interval: usize,
        main_effect_depth: usize,
        cyclic_features: bool,
        cyclic_max_features_per_round: usize,
        auto_interactions: bool,
        auto_cat_interactions: bool,
        max_interaction_features: usize,
        lambda_schedule: Num,
        use_bootstrap: bool,
        extra_trees: bool,
        label_smooth: Num,
        multi_output_tree: bool,
        multiclass_pair_sequence: bool,
        complement_debias_mode: u8,
        phase_schedule: String,
        ncl_lambda: Num,
        adaptive_cyclic_order: bool,
        cyclic_partner_features: bool,
        cyclic_partner_min_pressure_ratio: Num,
        cyclic_partner_bins: usize,
        cyclic_feature_reuse: bool,
        cyclic_revisit_trees: usize,
        adaptive_root_anchor: bool,
        sparse_oblique_splits: bool,
        interval_splits: bool,
        adam_beta2: Num,
        adam_eps: Num,
        ortho_alpha: Num,
        split_criterion: String,
        rank_mix_alpha: Num,
        rank_mix_start_frac: Num,
        rank_pair_temperature: Num,
        binary_focus_gamma: Num,
        binary_focus_end_frac: Num,
        residual_focus_alpha: Num,
        residual_focus_max_scale: Num,
        residual_focus_mode: String,
        residual_focus_hessian_mode: String,
        residual_focus_redescend_tau: Num,
        feature_view_groups: Vec<u32>,
        leaf_trim_pct: Num,
        leaf_median: bool,
        leaf_median_blend: Num,
        leaf_mad_clip: Num,
        leaf_adaptive_blend_kappa: Num,
        ordered_boost: bool,
        goss_top_rate: Num,
        goss_other_rate: Num,
        keep_all_trees: bool,
        corrective_block_refit: bool,
        corrective_blocks: usize,
        corrective_lambda: Num,
        corrective_blend: Num,
        corrective_audit_fraction: Num,
        leaf_eb: bool,
        leaf_eb_min_trees: usize,
        leaf_eb_scale: Num,
        leaf_sibling_smooth: Num,
        hierarchical_shrinkage: Num,
        multiclass_coupled_leaves: bool,
        class_weights: Vec<Num>,
        adaptive_leaf_experts: bool,
        adaptive_cat_lookup_smooth: bool,
        cat_offset_smooth: Num,
        cat_offset_passes: usize,
        expert_leaf_admission: bool,
        expert_min_leaf: usize,
        newton_decrement_cap: Num,
        lookahead_alpha: Num,
        sign_confidence_gamma: Num,
        soft_predict_bandwidth: Num,
        soft_leaf_bandwidth: Num,
        soft_leaf_passes: usize,
        leaf_var_shrink: Num,
        jensen_train_temp: Num,
        jit_catpair_enabled: bool,
        jit_catpair_top_k: usize,
        jit_catpair_k_buckets: u8,
        jit_catpair_min_node_rows: usize,
        jit_catpair_max_node_depth: usize,
        jit_catpair_gain_margin: Num,
        jit_ltso_enabled: bool,
    ) -> (r: GTBoostModel)
        ensures
            r.trained.cleared(),
            r.trained.base_score == base_score,
            r.trained.class_base_scores@.len() == 0,
            r.trained.binned is None,
            r.trained.n_features == 0,
            r.settings.max_depth == max_depth,
            r.settings.learning_rate == learning_rate,
            r.settings.subsample_rate == subsample_rate,
            r.settings.vertical_init == vertical_init,
            r.settings.vertical_init_cycles == raised(vertical_init_cycles as int, 1),
            r.settings.lambda_reg == lambda_reg,
            r.settings.gamma == gamma,
            r.settings.min_child_weight == min_child_weight,
            r.settings.colsample_bytree == colsample_bytree,
            r.settings.task == task,
            r.settings.num_bins == num_bins,
            r.settings.seed == (match seed {
                Some(s) => s,
                None => 0,
            }),
            r.settings.grow_policy == grow_policy,
            r.settings.max_leaves == max_leaves,
            r.settings.n_refine == n_refine,
            r.settings.n_leaf_splits == n_leaf_splits,
            r.settings.refine_every == refine_every,
            r.settings.early_stopping_rounds == early_stopping_rounds,
            r.settings.eval_metric == eval_metric,
            r.settings.verbose == verbose,
            r.settings.l1_reg == l1_reg,
            r.settings.refine_alpha == refine_alpha,
            r.settings.honest == honest,
            r.settings.honest_fraction == honest_fraction,
            r.settings.honest_arbitration == honest_arbitration,
            r.settings.feature_gain_prior == feature_gain_prior,
            r.settings.thermal == thermal.larger(Num { bits: 0 }),
            r.settings.stein_leaves == stein_leaves,
            r.settings.stein_levels == stein_levels,
            r.settings.thermal_n_exp == thermal_n_exp,
            r.settings.thermal_depth_gamma == thermal_depth_gamma,
            r.settings.split_audit_fraction == (Num { bits: 0 }),
            r.settings.colsample_bylevel == colsample_bylevel,
            r.settings.lr_decay == (Num { bits: ONE }),
            r.settings.n_trees_per_round == raised(n_trees_per_round as int, 1),
            r.settings.cat_features == cat_features,
            r.settings.grad_clip == grad_clip,
            r.settings.random_strength == random_strength,
            r.settings.bagging_temperature == bagging_temperature,
            r.settings.huber_delta == huber_delta,
            r.settings.cat_smooth == cat_smooth,
            r.settings.cat_lookup_smooth == cat_lookup_smooth,
            r.settings.monotone_constraints == monotone_constraints,
            r.settings.max_cat_bins == max_cat_bins,
            r.settings.ramp == false,
            r.settings.ramp_lambda == (Num { bits: TEN }),
            r.settings.ramp_k == 1,
            r.settings.leaf_linear == leaf_linear,
            r.settings.leaf_quadratic == leaf_quadratic,
            r.settings.leaf_correction == leaf_correction,
            r.settings.grad_momentum == grad_momentum.clamped(Num { bits: 0 }, Num { bits: POINT_99 }),
            r.settings.gain_penalty == gain_penalty.larger(Num { bits: 0 }),
            r.settings.split_pessimism == split_pessimism.larger(Num { bits: 0 }),
            r.settings.cat_prototype_bins == 0,
            r.settings.cat_audit_strength == cat_audit_strength.larger(Num { bits: 0 }),
            r.settings.split_contrast_penalty == split_contrast_penalty.larger(Num { bits: 0 }),
            r.settings.signal_gate == signal_gate.larger(Num { bits: 0 }),
            r.settings.supervised_bins == supervised_bins,
            r.settings.fold_ordered == (if fold_ordered == 1 {
                2
            } else {
                at_most(fold_ordered as int, 16)
            }),
            r.settings.cat_fold_evidence == cat_fold_evidence,
            r.settings.cfe_folds == 5,
            r.settings.cfe_max_pairs == at_most(cfe_max_pairs as int, 64),
            r.settings.cfe_max_triples == at_most(cfe_max_triples as int, 64),
            r.settings.cfe_max_quads == at_most(cfe_max_quads as int, 64),
            r.settings.cfe_dual_prior == false,
            r.settings.cfe_counter == false,
            r.settings.cfe_aggmax == true,
            r.settings.cfe_smooth == cfe_smooth.larger(Num { bits: E_MINUS_6 }),
            r.settings.cfe_demote_raw == cfe_demote_raw,
            r.settings.cfe_demote_min_card == raised(cfe_demote_min_card as int, 2),
            r.settings.cfe_residual_rounds == 0,
            r.settings.self_score_splits == self_score_splits,
            r.settings.hetero_trees == hetero_trees,
            r.settings.dart_rate == dart_rate.clamped(Num { bits: 0 }, Num { bits: POINT_9 }),
            r.settings.max_delta_step == max_delta_step.larger(Num { bits: 0 }),
            r.settings.main_effect_interval == main_effect_interval,
            r.settings.main_effect_depth == saturate(main_effect_depth as int, 1, 4),
            r.settings.cyclic_features == cyclic_features,
            r.settings.cyclic_max_features_per_round == cyclic_max_features_per_round,
            r.settings.auto_interactions == auto_interactions,
            r.settings.auto_cat_interactions == auto_cat_interactions,
            r.settings.max_interaction_features == max_interaction_features,
            r.settings.lambda_schedule == lambda_schedule.larger(Num { bits: 0 }),
            r.settings.use_bootstrap == use_bootstrap,
            r.settings.extra_trees == extra_trees,
            r.settings.label_smooth == label_smooth.clamped(Num { bits: 0 }, Num { bits: HALF }),
            r.settings.multi_output_tree == multi_output_tree,
            r.settings.multiclass_pair_sequence == multiclass_pair_sequence,
            r.settings.prob_avg == false,
            r.settings.honest_tau == (Num { bits: 0 }),
            r.settings.complement_debias_mode == at_most(complement_debias_mode as int, 3),
            r.settings.phase_schedule == phase_schedule,
            r.settings.ncl_lambda == ncl_lambda.larger(Num { bits: 0 }),
            r.settings.adaptive_cyclic_order == adaptive_cyclic_order,
            r.settings.cyclic_partner_features == cyclic_partner_features,
            r.settings.cyclic_partner_min_pressure_ratio == cyclic_partner_min_pressure_ratio.clamped(Num { bits: 0 }, Num { bits: TEN }),
            r.settings.cyclic_partner_bins == saturate(cyclic_partner_bins as int, 2, 32),
            r.settings.cyclic_feature_reuse == cyclic_feature_reuse,
            r.settings.cyclic_revisit_trees == cyclic_revisit_trees,
            r.settings.cyclic_revisit_min_pressure_ratio == (Num { bits: 0 }),
            r.settings.adaptive_feature_mask == false,
            r.settings.adaptive_feature_mask_penalty == (Num { bits: HALF }),
            r.settings.adaptive_root_anchor == adaptive_root_anchor,
            r.settings.adaptive_root_anchor_penalty == (Num { bits: HALF }),
            r.settings.sparse_oblique_splits == sparse_oblique_splits,
            r.settings.interval_splits == interval_splits,
            r.settings.sibling_block_correction == (Num { bits: 0 }),
            r.settings.adam_beta2 == adam_beta2.clamped(Num { bits: 0 }, Num { bits: POINT_9999 }),
            r.settings.adam_eps == adam_eps.larger(Num { bits: E_MINUS_12 }),
            r.settings.ortho_alpha == ortho_alpha.clamped(Num { bits: 0 }, Num { bits: TWO }),
            r.settings.split_criterion == split_criterion,
            r.settings.rank_mix_alpha == rank_mix_alpha.clamped(Num { bits: 0 }, Num { bits: ONE }),
            r.settings.rank_mix_start_frac == rank_mix_start_frac.clamped(Num { bits: 0 }, Num { bits: ONE }),
            r.settings.rank_pair_temperature == rank_pair_temperature.clamped(Num { bits: POINT_05 }, Num { bits: TWENTY }),
            r.settings.binary_focus_gamma == binary_focus_gamma.clamped(Num { bits: 0 }, Num { bits: FOUR }),
            r.settings.binary_focus_end_frac == binary_focus_end_frac.clamped(Num { bits: 0 }, Num { bits: ONE }),
            r.settings.residual_focus_alpha == residual_focus_alpha.clamped(Num { bits: 0 }, Num { bits: FOUR }),
            r.settings.residual_focus_max_scale == residual_focus_max_scale.larger(Num { bits: ONE }).smaller(Num { bits: EIGHT }),
            r.settings.residual_focus_mode == residual_focus_mode,
            r.settings.residual_focus_hessian_mode == residual_focus_hessian_mode,
            r.settings.residual_focus_redescend_tau == residual_focus_redescend_tau.larger(Num { bits: 0 }),
            r.settings.feature_view_groups == feature_view_groups,
            r.settings.leaf_trim_pct == leaf_trim_pct.clamped(Num { bits: 0 }, Num { bits: POINT_49 }),
            r.settings.leaf_median == leaf_median,
            r.settings.leaf_median_blend == leaf_median_blend.clamped(Num { bits: 0 }, Num { bits: ONE }),
            r.settings.leaf_mad_clip == leaf_mad_clip.larger(Num { bits: 0 }),
            r.settings.leaf_adaptive_blend_kappa == leaf_adaptive_blend_kappa.larger(Num { bits: 0 }),
            r.settings.ordered_boost == ordered_boost,
            r.settings.ordered_n_buckets == 4,
            r.settings.goss_top_rate == goss_top_rate.clamped(Num { bits: 0 }, Num { bits: POINT_99 }),
            r.settings.goss_other_rate == goss_other_rate.clamped(Num { bits: 0 }, Num { bits: POINT_99 }),
            r.settings.goss_mode@ == "newton"@,
            r.settings.goss_anneal == (Num { bits: 0 }),
            r.settings.keep_all_trees == keep_all_trees,
            r.settings.corrective_block_refit == corrective_block_refit,
            r.settings.corrective_blocks == saturate(corrective_blocks as int, 1, 256),
            r.settings.corrective_lambda == corrective_lambda.larger(Num { bits: 0 }),
            r.settings.corrective_blend == corrective_blend.clamped(Num { bits: 0 }, Num { bits: ONE }),
            r.settings.corrective_min_trees == 16,
            r.settings.corrective_audit_fraction == corrective_audit_fraction.clamped(Num { bits: 0 }, Num { bits: HALF }),
            r.settings.corrective_min_rel_improve == (Num { bits: 0 }),
            r.settings.leaf_eb == leaf_eb,
            r.settings.leaf_eb_min_trees == raised(leaf_eb_min_trees as int, 5),
            r.settings.leaf_eb_scale == leaf_eb_scale.larger(Num { bits: 0 }),
            r.settings.leaf_sibling_smooth == leaf_sibling_smooth.clamped(Num { bits: 0 }, Num { bits: HALF }),
            r.settings.hierarchical_shrinkage == hierarchical_shrinkage.larger(Num { bits: 0 }),
            r.settings.multiclass_coupled_leaves == multiclass_coupled_leaves,
            r.settings.multiclass_joint_cll == false,
            r.settings.class_weights == class_weights,
            r.settings.adaptive_leaf_experts == adaptive_leaf_experts,
            r.settings.adaptive_cat_lookup_smooth == adaptive_cat_lookup_smooth,
            r.settings.cat_offset_smooth == cat_offset_smooth.larger(Num { bits: 0 }),
            r.settings.cat_offset_passes == at_most(cat_offset_passes as int, 4),
            r.settings.ordered_ctr == false,
            r.settings.ordered_ctr_top_features == 16,
            r.settings.ordered_ctr_smooth == (Num { bits: THIRTY }),
            r.settings.ordered_ctr_permutations == 1,
            r.settings.ordered_ctr_min_count == 2,
            r.settings.cat_tuple_lookups == false,
            r.settings.cat_tuple_max_order == 3,
            r.settings.cat_tuple_top_features == 5,
            r.settings.cat_tuple_hash_bins == 128,
            r.settings.cat_tuple_min_leaf == 64,
            r.settings.cat_tuple_gain_margin == (Num { bits: POINT_05 }),
            r.settings.expert_leaf_admission == expert_leaf_admission,
            r.settings.expert_max_terms == 2,
            r.settings.expert_min_leaf == expert_min_leaf,
            r.settings.expert_min_cal == 12,
            r.settings.expert_ridge_lambda == (Num { bits: TWENTY_FIVE }),
            r.settings.expert_alpha_max == (Num { bits: ONE }),
            r.settings.expert_param_penalty == (Num { bits: E_MINUS_4 }),
            r.settings.expert_se_multiplier == (Num { bits: HALF }),
            r.settings.expert_epsilon == (Num { bits: E_MINUS_5 }),
            r.settings.expert_shadow_trials == 0,
            r.settings.antithetic_subtrees == false,
            r.settings.newton_decrement_cap == newton_decrement_cap.larger(Num { bits: 0 }),
            r.settings.lookahead_alpha == lookahead_alpha.clamped(Num { bits: 0 }, Num { bits: TWO }),
            r.settings.sign_confidence_gamma == sign_confidence_gamma.clamped(Num { bits: 0 }, Num { bits: FIVE }),
            r.settings.soft_predict_bandwidth == soft_predict_bandwidth.clamped(Num { bits: 0 }, Num { bits: FIVE }),
            r.settings.soft_leaf_bandwidth == soft_leaf_bandwidth.clamped(Num { bits: MINUS_ONE }, Num { bits: FIVE }),
            r.settings.soft_leaf_passes == at_most(soft_leaf_passes as int, 6),
            r.settings.leaf_var_shrink == leaf_var_shrink.clamped(Num { bits: 0 }, Num { bits: FIVE }),
            r.settings.jensen_train_temp == jensen_train_temp.clamped(Num { bits: HALF }, Num { bits: FIVE }),
            r.settings.diversity_penalty == (Num { bits: 0 }),
            r.settings.diversity_decay == (Num { bits: POINT_9 }),
            r.settings.jit_catpair_enabled == jit_catpair_enabled,
            r.settings.jit_catpair_top_k == raised(jit_catpair_top_k as int, 2),
            r.settings.jit_catpair_k_buckets == saturate(jit_catpair_k_buckets as int, 2, 8),
            r.settings.jit_catpair_min_node_rows == raised(jit_catpair_min_node_rows as int, 16),
            r.settings.jit_catpair_max_node_depth == jit_catpair_max_node_depth,
            r.settings.jit_catpair_gain_margin == jit_catpair_gain_margin.larger(Num { bits: ONE }),
            r.settings.jit_ltso_enabled == jit_ltso_enabled,
    {
        GTBoostModel {
            settings: Settings {
                max_depth,
                learning_rate,
                subsample_rate,
                vertical_init,
                vertical_init_cycles: at_least(vertical_init_cycles, 1),
                lambda_reg,
                gamma,
                min_child_weight,
                colsample_bytree,
                task,
                num_bins,
                seed: match seed {
                    Some(s) => s,
                    None => 0,
                },
                grow_policy,
                max_leaves,
                n_refine,
                n_leaf_splits,
                refine_every,
                early_stopping_rounds,
                eval_metric,
                verbose,
                l1_reg,
                refine_alpha,
                honest,
                honest_fraction,
                honest_arbitration,
                feature_gain_prior,
                thermal: thermal.max(&(Num { bits: 0 })),
                stein_leaves,
                stein_levels,
                thermal_n_exp,
                thermal_depth_gamma,
                split_audit_fraction: Num { bits: 0 },
                colsample_bylevel,
                lr_decay: Num { bits: ONE },
                n_trees_per_round: at_least(n_trees_per_round, 1),
                cat_features,
                grad_clip,
                random_strength,
                bagging_temperature,
                huber_delta,
                cat_smooth,
                cat_lookup_smooth,
                monotone_constraints,
                max_cat_bins,
                ramp: false,
                ramp_lambda: Num { bits: TEN },
                ramp_k: 1,
                leaf_linear,
                leaf_quadratic,
                leaf_correction,
                grad_momentum: grad_momentum.clamp(&(Num { bits: 0 }), &(Num { bits: POINT_99 })),
                gain_penalty: gain_penalty.max(&(Num { bits: 0 })),
                split_pessimism: split_pessimism.max(&(Num { bits: 0 })),
                cat_prototype_bins: 0,
                cat_audit_strength: cat_audit_strength.max(&(Num { bits: 0 })),
                split_contrast_penalty: split_contrast_penalty.max(&(Num { bits: 0 })),
                signal_gate: signal_gate.max(&(Num { bits: 0 })),
                supervised_bins,
                fold_ordered: if fold_ordered == 1 { 2 } else { no_more(fold_ordered, 16) },
                cat_fold_evidence,
                cfe_folds: 5,
                cfe_max_pairs: no_more(cfe_max_pairs, 64),
                cfe_max_triples: no_more(cfe_max_triples, 64),
                cfe_max_quads: no_more(cfe_max_quads, 64),
                cfe_dual_prior: false,
                cfe_counter: false,
                cfe_aggmax: true,
                cfe_smooth: cfe_smooth.max(&(Num { bits: E_MINUS_6 })),
                cfe_demote_raw,
                cfe_demote_min_card: at_least(cfe_demote_min_card, 2),
                cfe_residual_rounds: 0,
                self_score_splits,
                hetero_trees,
                dart_rate: dart_rate.clamp(&(Num { bits: 0 }), &(Num { bits: POINT_9 })),
                max_delta_step: max_delta_step.max(&(Num { bits: 0 })),
                main_effect_interval,
                main_effect_depth: between(main_effect_depth, 1, 4),
                cyclic_features,
                cyclic_max_features_per_round,
                auto_interactions,
                auto_cat_interactions,
                max_interaction_features,
                lambda_schedule: lambda_schedule.max(&(Num { bits: 0 })),
                use_bootstrap,
                extra_trees,
                label_smooth: label_smooth.clamp(&(Num { bits: 0 }), &(Num { bits: HALF })),
                multi_output_tree,
                multiclass_pair_sequence,
                prob_avg: false,
                honest_tau: Num { bits: 0 },
                complement_debias_mode: if complement_debias_mode < 3 { complement_debias_mode } else { 3 },
                phase_schedule,
                ncl_lambda: ncl_lambda.max(&(Num { bits: 0 })),
                adaptive_cyclic_order,
                cyclic_partner_features,
                cyclic_partner_min_pressure_ratio: cyclic_partner_min_pressure_ratio.clamp(&(Num { bits: 0 }), &(Num { bits: TEN })),
                cyclic_partner_bins: between(cyclic_partner_bins, 2, 32),
                cyclic_feature_reuse,
                cyclic_revisit_trees,
                cyclic_revisit_min_pressure_ratio: Num { bits: 0 },
                adaptive_feature_mask: false,
                adaptive_feature_mask_penalty: Num { bits: HALF },
                adaptive_root_anchor,
                adaptive_root_anchor_penalty: Num { bits: HALF },
                sparse_oblique_splits,
                interval_splits,
                sibling_block_correction: Num { bits: 0 },
                adam_beta2: adam_beta2.clamp(&(Num { bits: 0 }), &(Num { bits: POINT_9999 })),
                adam_eps: adam_eps.max(&(Num { bits: E_MINUS_12 })),
                ortho_alpha: ortho_alpha.clamp(&(Num { bits: 0 }), &(Num { bits: TWO })),
                split_criterion,
                rank_mix_alpha: rank_mix_alpha.clamp(&(Num { bits: 0 }), &(Num { bits: ONE })),
                rank_mix_start_frac: rank_mix_start_frac.clamp(&(Num { bits: 0 }), &(Num { bits: ONE })),
                rank_pair_temperature: rank_pair_temperature.clamp(&(Num { bits: POINT_05 }), &(Num { bits: TWENTY })),
                binary_focus_gamma: binary_focus_gamma.clamp(&(Num { bits: 0 }), &(Num { bits: FOUR })),
                binary_focus_end_frac: binary_focus_end_frac.clamp(&(Num { bits: 0 }), &(Num { bits: ONE })),
                residual_focus_alpha: residual_focus_alpha.clamp(&(Num { bits: 0 }), &(Num { bits: FOUR })),
                residual_focus_max_scale: residual_focus_max_scale.max(&(Num { bits: ONE })).min(&(Num { bits: EIGHT })),
                residual_focus_mode,
                residual_focus_hessian_mode,
                residual_focus_redescend_tau: residual_focus_redescend_tau.max(&(Num { bits: 0 })),
                feature_view_groups,
                leaf_trim_pct: leaf_trim_pct.clamp(&(Num { bits: 0 }), &(Num { bits: POINT_49 })),
                leaf_median,
                leaf_median_blend: leaf_median_blend.clamp(&(Num { bits: 0 }), &(Num { bits: ONE })),
                leaf_mad_clip: leaf_mad_clip.max(&(Num { bits: 0 })),
                leaf_adaptive_blend_kappa: leaf_adaptive_blend_kappa.max(&(Num { bits: 0 })),
                ordered_boost,
                ordered_n_buckets: 4,
                goss_top_rate: goss_top_rate.clamp(&(Num { bits: 0 }), &(Num { bits: POINT_99 })),
                goss_other_rate: goss_other_rate.clamp(&(Num { bits: 0 }), &(Num { bits: POINT_99 })),
                goss_mode: "newton".to_string(),
                goss_anneal: Num { bits: 0 },
                keep_all_trees,
                corrective_block_refit,
                corrective_blocks: between(corrective_blocks, 1, 256),
                corrective_lambda: corrective_lambda.max(&(Num { bits: 0 })),
                corrective_blend: corrective_blend.clamp(&(Num { bits: 0 }), &(Num { bits: ONE })),
                corrective_min_trees: 16,
                corrective_audit_fraction: corrective_audit_fraction.clamp(&(Num { bits: 0 }), &(Num { bits: HALF })),
                corrective_min_rel_improve: Num { bits: 0 },
                leaf_eb,
                leaf_eb_min_trees: at_least(leaf_eb_min_trees, 5),
                leaf_eb_scale: leaf_eb_scale.max(&(Num { bits: 0 })),
                leaf_sibling_smooth: leaf_sibling_smooth.clamp(&(Num { bits: 0 }), &(Num { bits: HALF })),
                hierarchical_shrinkage: hierarchical_shrinkage.max(&(Num { bits: 0 })),
                multiclass_coupled_leaves,
                multiclass_joint_cll: false,
                class_weights,
                adaptive_leaf_experts,
                adaptive_cat_lookup_smooth,
                cat_offset_smooth: cat_offset_smooth.max(&(Num { bits: 0 })),
                cat_offset_passes: no_more(cat_offset_passes, 4),
                ordered_ctr: false,
                ordered_ctr_top_features: 16,
                ordered_ctr_smooth: Num { bits: THIRTY },
                ordered_ctr_permutations: 1,
                ordered_ctr_min_count: 2,
                cat_tuple_lookups: false,
                cat_tuple_max_order: 3,
                cat_tuple_top_features: 5,
                cat_tuple_hash_bins: 128,
                cat_tuple_min_leaf: 64,
                cat_tuple_gain_margin: Num { bits: POINT_05 },
                expert_leaf_admission,
                expert_max_terms: 2,
                expert_min_leaf,
                expert_min_cal: 12,
                expert_ridge_lambda: Num { bits: TWENTY_FIVE },
                expert_alpha_max: Num { bits: ONE },
                expert_param_penalty: Num { bits: E_MINUS_4 },
                expert_se_multiplier: Num { bits: HALF },
                expert_epsilon: Num { bits: E_MINUS_5 },
                expert_shadow_trials: 0,
                antithetic_subtrees: false,
                newton_decrement_cap: newton_decrement_cap.max(&(Num { bits: 0 })),
                lookahead_alpha: lookahead_alpha.clamp(&(Num { bits: 0 }), &(Num { bits: TWO })),
                sign_confidence_gamma: sign_confidence_gamma.clamp(&(Num { bits: 0 }), &(Num { bits: FIVE })),
                soft_predict_bandwidth: soft_predict_bandwidth.clamp(&(Num { bits: 0 }), &(Num { bits: FIVE })),
                soft_leaf_bandwidth: soft_leaf_bandwidth.clamp(&(Num { bits: MINUS_ONE }), &(Num { bits: FIVE })),
                soft_leaf_passes: no_more(soft_leaf_passes, 6),
                leaf_var_shrink: leaf_var_shrink.clamp(&(Num { bits: 0 }), &(Num { bits: FIVE })),
                jensen_train_temp: jensen_train_temp.clamp(&(Num { bits: HALF }), &(Num { bits: FIVE })),
                diversity_penalty: Num { bits: 0 },
                diversity_decay: Num { bits: POINT_9 },
                jit_catpair_enabled,
                jit_catpair_top_k: at_least(jit_catpair_top_k, 2),
                jit_catpair_k_buckets: if jit_catpair_k_buckets < 2 { 2 } else if jit_catpair_k_buckets > 8 { 8 } else { jit_catpair_k_buckets },
                jit_catpair_min_node_rows: at_least(jit_catpair_min_node_rows, 16),
                jit_catpair_max_node_depth,
                jit_catpair_gain_margin: jit_catpair_gain_margin.max(&(Num { bits: ONE })),
                jit_ltso_enabled,
            },
            trained: Trained::start(base_score),
        }
    }
}

/// A number that is raised to a least one is no lower than either, and one of them.
pub proof fn law_raised_numbers_reach_the_least(x: int, lo: int)
    ensures
        raised(x, lo) >= x && raised(x, lo) >= lo,
        raised(x, lo) == x || raised(x, lo) == lo,
{
}

/// A cleared model has no trees, weights, tables, pairs or losses, and counts as trained for
/// no class and up to no round.
pub proof fn law_cleared_models_hold_nothing(t: Trained)
    requires
        t.cleared(),
    ensures
        t.trees@.len() == 0 && t.dart_tree_weights@.len() == 0 && t.tree_in_sample@.len() == 0,
        t.vertical_prior.effects@.len() == 0 && t.vertical_prior.edges@.len() == 0 && t.vertical_prior.mean.bits == 0,
        t.ctr.features@.len() == 0 && t.ctr.pair_features@.len() == 0 && t.ctr.triple_features@.len() == 0,
        t.ctr.maps@.len() == 0 && t.ctr.pair_maps@.len() == 0 && t.ctr.triple_maps@.len() == 0 && t.ctr.prior.bits == 0,
        t.ctr.count_maps@.len() == 0 && t.ctr.pair_count_maps@.len() == 0 && t.ctr.triple_count_maps@.len() == 0
            && t.ctr.priors@.len() == 0,
        t.cfe_tuples@.len() == 0 && t.cfe_tables@.len() == 0 && t.cfe_prior@.len() == 0 && t.cfe_n_out == 0,
        t.cfe_resid_tables@.len() == 0 && t.cfe_resid_prior.bits == 0 && t.cat_offset_maps@.len() == 0,
        t.feature_usage_ema@.len() == 0 && t.val_losses@.len() == 0 && t.best_round == 0 && t.n_classes == 0,
        t.multiclass_trees_per_class == 1 && t.multiclass_tree_lr_scale.bits == 0x3ff0_0000_0000_0000,
        t.numeric_interaction_pairs@.len() == 0 && t.numeric_interaction_edges@.len() == 0,
        t.categorical_interaction_pairs@.len() == 0 && t.categorical_interaction_edges@.len() == 0,
        t.sumdiff_pairs@.len() == 0 && t.sumdiff_edges@.len() == 0,
{
}

} // verus!
