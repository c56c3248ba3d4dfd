//! What a fit checks and settles before the trees are grown.

use crate::bits::{E_MINUS_6, POINT_01, POINT_99, POINT_999999};
use crate::dataset::{bins_for, effective_bins, GTBoostDataset};
use crate::errors::ModelError;
use crate::interactions::{numeric_features, numeric_flags, plan_interactions, seeks_categories, InteractionPlan};
use crate::model::{raised, GTBoostModel, Settings, Trained};
use crate::multiclass::{class_span, count_classes, label_class};
use crate::num::{capped_product, multiply_capped, saturate, Num};
use crate::predict::{expected_length, given_length, wrong_length};
use crate::pressure::CyclicSettings;
use crate::random::{held_words, seeded, words_of_seed};
use crate::select::{at_most, collect_kept, is_positive, kept_indices, positive};
use crate::task::{task_from_name, task_named, Task};
use crate::tree::{BinnedData, DecisionTree, NO_FEATURE};
use rand::rngs::StdRng;
use vstd::prelude::*;

verus! {

/// The least number of cells that a thread is started for.
pub const THREAD_WORK: usize = 400_000;

/// The rows and targets of a fit, with the lengths of what comes beside them.
pub struct FitInput {
    pub n_rows: usize,
    pub n_features: usize,
    pub y: Vec<Num>,
    pub n_rounds: usize,
    pub init_scores: Option<usize>,
    pub weights: Option<usize>,
    pub eval_rows: Option<usize>,
    pub eval_init_scores: Option<usize>,
    pub max_threads: usize,
}

/// What a fit has settled.
#[derive(Clone, Copy, PartialEq, Eq, Structural, Debug)]
pub struct FitPlan {
    pub threads: usize,
    /// The bins of a feature in the end.
    pub bins: usize,
    /// The bins that a feature is first cut into.
    pub first_bins: usize,
    /// The score columns that neighbouring bins are merged by, if they are.
    pub merge_outputs: Option<usize>,
    pub interactions: Option<InteractionPlan>,
    /// The raw evaluation rows are kept.
    pub keeps_eval: bool,
    /// Derived features are searched for, with at most this many taken.
    pub derives: Option<usize>,
}

/// Scores that come with rows are wrong, with the error that says so.
pub open spec fn init_refusal(task: Task, given: Option<usize>, n_rows: int, n_classes: int) -> bool {
    wrong_length(given, given_length(task, n_rows, n_classes))
}

/// Why a fit is refused, if it is.
pub open spec fn fit_refusal(task: Task, input: FitInput) -> Option<ModelError> {
    let k = class_span(input.y@, input.y@.len());
    if init_refusal(task, input.init_scores, input.n_rows as int, k) {
        Some(
            ModelError::InitScoreLength {
                got: input.init_scores->0,
                expected: given_length(task, input.n_rows as int, k) as usize,
            },
        )
    } else if wrong_length(input.weights, input.n_rows as int) {
        Some(ModelError::SampleWeightLength { got: input.weights->0, rows: input.n_rows })
    } else if input.eval_init_scores is Some && input.eval_rows is None {
        Some(ModelError::EvalInitScoreWithoutEval)
    } else if input.eval_init_scores is Some && init_refusal(
        task,
        input.eval_init_scores,
        input.eval_rows->0 as int,
        k,
    ) {
        Some(
            ModelError::EvalInitScoreLength {
                got: input.eval_init_scores->0,
                expected: given_length(task, input.eval_rows->0 as int, k) as usize,
            },
        )
    } else {
        None
    }
}

/// The threads for a fit: one for each so many cells that all trees together
/// pass over, at least one and at most `most`.
pub open spec fn thread_count(n_rows: int, width: int, n_rounds: int, subtrees: int, n_classes: int, most: int) -> int {
    let trees = capped_product(capped_product(raised(n_rounds, 1), subtrees), n_classes);
    saturate(capped_product(capped_product(n_rows, width), trees) / THREAD_WORK as int, 1, most)
}

fn count_threads(n_rows: usize, width: usize, n_rounds: usize, subtrees: usize, n_classes: usize, most: usize) -> (r: usize)
    requires
        most >= 1,
    ensures
        r == thread_count(
            n_rows as int,
            width as int,
            n_rounds as int,
            subtrees as int,
            n_classes as int,
            most as int,
        ),
{
    let rounds: usize = if n_rounds > 1 { n_rounds } else { 1 };
    let trees: usize = multiply_capped(multiply_capped(rounds, subtrees), n_classes);
    let work: usize = multiply_capped(multiply_capped(n_rows, width), trees);
    let wanted: usize = work / THREAD_WORK;
    if wanted < 1 {
        1
    } else if wanted > most {
        most
    } else {
        wanted
    }
}

/// The bins that a feature is first cut into where the targets decide which are
/// merged: four times as many as asked for, up to 512 and to half of the rows.
pub open spec fn first_bins(bins: int, n_rows: int) -> int {
    raised(at_most(at_most(capped_product(bins, 4), 512), raised(n_rows / 2, 32)), bins)
}

fn count_first_bins(bins: usize, n_rows: usize) -> (r: usize)
    ensures
        r == first_bins(bins as int, n_rows as int),
{
    let four: usize = multiply_capped(bins, 4);
    let a: usize = if four <= 512 { four } else { 512 };
    let room: usize = if n_rows / 2 > 32 { n_rows / 2 } else { 32 };
    let b: usize = if a <= room { a } else { room };
    if b > bins {
        b
    } else {
        bins
    }
}

/// The classes that scores are given for: one, but for a task of many classes.
pub open spec fn task_classes(task: Task, y: Seq<Num>) -> int {
    if task == Task::Multiclass {
        class_span(y, y.len())
    } else {
        1
    }
}

impl Settings {
    pub open spec fn cyclic(&self) -> CyclicSettings {
        CyclicSettings {
            cyclic_features: self.cyclic_features,
            adaptive_cyclic_order: self.adaptive_cyclic_order,
            cyclic_feature_reuse: self.cyclic_feature_reuse,
            cyclic_revisit_trees: self.cyclic_revisit_trees,
            cyclic_max_features_per_round: self.cyclic_max_features_per_round,
            n_trees_per_round: self.n_trees_per_round,
        }
    }

    fn cyclic_settings(&self) -> (r: CyclicSettings)
        ensures
            r == self.cyclic(),
    {
        CyclicSettings {
            cyclic_features: self.cyclic_features,
            adaptive_cyclic_order: self.adaptive_cyclic_order,
            cyclic_feature_reuse: self.cyclic_feature_reuse,
            cyclic_revisit_trees: self.cyclic_revisit_trees,
            cyclic_max_features_per_round: self.cyclic_max_features_per_round,
            n_trees_per_round: self.n_trees_per_round,
        }
    }

    /// These settings are `before` with other category flags.
    pub open spec fn adopts(&self, before: Settings, flags: Seq<bool>) -> bool {
        &&& self.cat_features@ == flags
        &&& *self == (Settings { cat_features: self.cat_features, ..before })
    }

    /// The threads for a fit on the bins of a dataset.
    pub open spec fn binned_threads(&self, dataset: GTBoostDataset, n_rounds: usize, max_threads: usize) -> int {
        thread_count(
            dataset.n_rows as int,
            dataset.n_binned as int,
            n_rounds as int,
            self.cyclic().subtrees(dataset.n_binned as int),
            task_classes(task_named(self.task@), dataset.y_data@),
            max_threads as int,
        )
    }

    fn count_binned_threads(&self, dataset: &GTBoostDataset, n_rounds: usize, n_classes: usize, max_threads: usize) -> (r:
        usize)
        requires
            dataset.n_binned + 16 <= usize::MAX,
            max_threads >= 1,
            n_classes == task_classes(task_named(self.task@), dataset.y_data@),
        ensures
            r == self.binned_threads(*dataset, n_rounds, max_threads),
    {
        let cyclic: CyclicSettings = self.cyclic_settings();
        let subtrees: usize = cyclic.subtrees_per_boosting_round(dataset.n_binned);
        count_threads(dataset.n_rows, dataset.n_binned, n_rounds, subtrees, n_classes, max_threads)
    }

    fn adopt_categories(&mut self, flags: &Vec<bool>)
        ensures
            final(self).adopts(*old(self), flags@),
    {
        self.cat_features = copy_flags(flags);
    }

    /// The numeric features among the first `n`.
    pub open spec fn numeric(&self, n: nat) -> Seq<usize> {
        kept_indices(numeric_flags(self.cat_features@, n))
    }

    /// The categorical features among the first `n`.
    pub open spec fn categorical(&self, n: nat) -> Seq<usize> {
        kept_indices(crate::ctr::categorical_flags(self.cat_features@, n))
    }

    /// What a fit settles.
    pub open spec fn fit_planned(&self, input: FitInput, plan: FitPlan) -> bool {
        let task = task_named(self.task@);
        let n_numeric = self.numeric(input.n_features as nat).len();
        let n_categorical = self.categorical(input.n_features as nat).len();
        &&& plan.threads == thread_count(
            input.n_rows as int,
            input.n_features as int,
            input.n_rounds as int,
            self.cyclic().subtrees(input.n_features as int),
            task_classes(task, input.y@),
            input.max_threads as int,
        )
        &&& plan.bins == bins_for(self.num_bins as int, input.n_rows as int)
        &&& plan.first_bins == (if self.supervised_bins {
            first_bins(plan.bins as int, input.n_rows as int)
        } else {
            plan.bins as int
        })
        &&& plan.merge_outputs is Some <==> self.supervised_bins && plan.first_bins > plan.bins
        &&& plan.merge_outputs matches Some(n) ==> n == (if task == Task::Multiclass {
            raised(task_classes(task, input.y@), 2)
        } else {
            1
        })
        &&& plan.interactions is Some <==> (self.auto_interactions && n_numeric >= 2) || seeks_categories(
            self.auto_cat_interactions,
            n_categorical as int,
            task,
        )
        &&& plan.interactions matches Some(p) ==> {
            &&& p.numeric == self.auto_interactions
            &&& p.categorical == seeks_categories(self.auto_cat_interactions, n_categorical as int, task)
            &&& p.max_pairs == (if self.max_interaction_features > 0 {
                self.max_interaction_features
            } else {
                10
            })
            &&& p.warmup_rounds == at_most(
                if input.n_rows >= 5000 {
                    6
                } else {
                    15
                },
                input.n_rounds as int,
            )
        }
        &&& plan.keeps_eval == (self.auto_interactions || self.jit_ltso_enabled || (self.vertical_init && task
            == Task::Regression && input.init_scores is None))
        &&& plan.derives is Some <==> self.jit_ltso_enabled && input.n_features >= 2 && (task == Task::Regression
            || task == Task::Binary) && n_numeric > 0
        &&& plan.derives matches Some(n) ==> n == (if n_categorical == 0 {
            3int
        } else {
            1
        })
    }
}

impl Trained {
    /// This is `before`, cleared for a fit of so many features.
    pub open spec fn restarts(&self, before: Trained, n_features: usize) -> bool {
        &&& self.cleared()
        &&& self.n_features == n_features
        &&& self.base_score == before.base_score
        &&& self.class_base_scores == before.class_base_scores
        &&& self.binned == before.binned
    }

    fn restart(&mut self, n_features: usize)
        ensures
            final(self).restarts(*old(self), n_features),
    {
        self.n_features = n_features;
        self.clear_trained_state_for_fit();
    }
}

/// What is wrong with lengths that come beside the rows.
fn check_lengths(task: Task, input: &FitInput, n_classes: usize) -> (r: Option<ModelError>)
    requires
        n_classes >= 1,
        task == Task::Multiclass ==> n_classes == class_span(input.y@, input.y@.len()),
    ensures
        r == fit_refusal(task, *input),
{
    let expected: usize = expected_length(task, input.n_rows, n_classes);
    match input.init_scores {
        Some(n) => {
            if n != expected {
                return Some(ModelError::InitScoreLength { got: n, expected });
            }
        },
        None => {},
    }
    match input.weights {
        Some(n) => {
            if n != input.n_rows {
                return Some(ModelError::SampleWeightLength { got: n, rows: input.n_rows });
            }
        },
        None => {},
    }
    match input.eval_init_scores {
        Some(n) => match input.eval_rows {
            None => Some(ModelError::EvalInitScoreWithoutEval),
            Some(rows) => {
                let eval_expected: usize = expected_length(task, rows, n_classes);
                if n != eval_expected {
                    Some(ModelError::EvalInitScoreLength { got: n, expected: eval_expected })
                } else {
                    None
                }
            },
        },
        None => None,
    }
}

/// Why a fit on shared bins is refused before its scores and weights are looked at.
pub open spec fn shared_bins_refusal(settings: Settings, dataset: GTBoostDataset) -> Option<ModelError> {
    if settings.auto_interactions || settings.auto_cat_interactions || settings.ordered_ctr
        || settings.jit_ltso_enabled {
        Some(ModelError::CachedBinsUnusable)
    } else if settings.num_bins != dataset.num_bins {
        Some(ModelError::BinsDiffer { model: settings.num_bins, dataset: dataset.num_bins })
    } else if settings.max_cat_bins != dataset.max_cat_bins {
        Some(ModelError::CategoryBinsDiffer { model: settings.max_cat_bins, dataset: dataset.max_cat_bins })
    } else if settings.cat_features@.len() > 0 && settings.cat_features@ != dataset.cat_features@ {
        Some(ModelError::CategoriesDiffer)
    } else {
        None
    }
}

/// The lengths that come beside the rows of a dataset, as a fit's input.
pub open spec fn lengths_refusal(task: Task, dataset: GTBoostDataset, init: Option<usize>, weights: Option<usize>) -> Option<
    ModelError,
> {
    let k = class_span(dataset.y_data@, dataset.y_data@.len());
    if init_refusal(task, init, dataset.n_rows as int, k) {
        Some(
            ModelError::InitScoreLength {
                got: init->0,
                expected: given_length(task, dataset.n_rows as int, k) as usize,
            },
        )
    } else if wrong_length(weights, dataset.n_rows as int) {
        Some(ModelError::SampleWeightLength { got: weights->0, rows: dataset.n_rows })
    } else {
        None
    }
}

fn refuse_shared_bins(settings: &Settings, dataset: &GTBoostDataset) -> (r: Option<ModelError>)
    ensures
        r == shared_bins_refusal(*settings, *dataset),
{
    if settings.auto_interactions || settings.auto_cat_interactions || settings.ordered_ctr
        || settings.jit_ltso_enabled {
        return Some(ModelError::CachedBinsUnusable);
    }
    if settings.num_bins != dataset.num_bins {
        return Some(ModelError::BinsDiffer { model: settings.num_bins, dataset: dataset.num_bins });
    }
    if settings.max_cat_bins != dataset.max_cat_bins {
        return Some(
            ModelError::CategoryBinsDiffer { model: settings.max_cat_bins, dataset: dataset.max_cat_bins },
        );
    }
    if settings.cat_features.len() > 0 && !same_flags(&settings.cat_features, &dataset.cat_features) {
        return Some(ModelError::CategoriesDiffer);
    }
    None
}

fn refuse_dataset(
    task: Task,
    dataset: &GTBoostDataset,
    n_classes: usize,
    init: Option<usize>,
    weights: Option<usize>,
) -> (r: Option<ModelError>)
    requires
        task == Task::Multiclass ==> n_classes == class_span(dataset.y_data@, dataset.y_data@.len()),
    ensures
        r == lengths_refusal(task, *dataset, init, weights),
{
    let expected: usize = expected_length(task, dataset.n_rows, n_classes);
    match init {
        Some(n) => {
            if n != expected {
                return Some(ModelError::InitScoreLength { got: n, expected });
            }
        },
        None => {},
    }
    match weights {
        Some(n) => {
            if n != dataset.n_rows {
                return Some(ModelError::SampleWeightLength { got: n, rows: dataset.n_rows });
            }
        },
        None => {},
    }
    None
}

fn same_flags(a: &Vec<bool>, b: &Vec<bool>) -> (r: bool)
    ensures
        r == (a@ == b@),
{
    if a.len() != b.len() {
        return false;
    }
    let mut i: usize = 0;
    while i < a.len()
        invariant
            i <= a@.len(),
            a@.len() == b@.len(),
            forall|k: int| 0 <= k < i ==> #[trigger] a@[k] == b@[k],
        decreases a@.len() - i,
    {
        if a[i] != b[i] {
            return false;
        }
        i = i + 1;
    }
    assert(a@ =~= b@);
    true
}

fn copy_flags(a: &Vec<bool>) -> (r: Vec<bool>)
    ensures
        r@ == a@,
{
    let mut r: Vec<bool> = Vec::new();
    let mut i: usize = 0;
    while i < a.len()
        invariant
            i <= a@.len(),
            r@ == a@.take(i as int),
        decreases a@.len() - i,
    {
        r.push(a[i]);
        assert(r@ =~= a@.take(i + 1));
        i = i + 1;
    }
    assert(a@.take(i as int) =~= a@);
    r
}

/// The settings of splits by tuples of categories.
#[derive(Clone, Copy, PartialEq, Eq, Structural, Debug)]
pub struct CatTupleConfig {
    pub enabled: bool,
    pub max_order: usize,
    pub top_features: usize,
    pub hash_bins: usize,
    pub min_leaf: usize,
    pub gain_margin: Num,
}

/// A categorical feature with two bins or more.
pub open spec fn splits_by_category(data: BinnedData, c: int) -> bool {
    c < data.cll_is_categorical@.len() && data.cll_is_categorical@[c] && c < data.cll_n_bins@.len()
        && data.cll_n_bins@[c] >= 2
}

/// The categorical features with two bins or more.
pub open spec fn category_columns(data: BinnedData) -> Seq<usize> {
    kept_indices(Seq::new(data.n_features as nat, |c: int| splits_by_category(data, c)))
}

/// A part of the annealing, as a fraction of rounds.
#[derive(Clone, Copy, PartialEq, Eq, Structural, Debug)]
pub struct AnnealedShare {
    pub left: usize,
    pub of: usize,
}

/// The part of the annealing that a round has: one less the share of the rounds
/// that are behind.
pub open spec fn annealed_share(anneal: Num, round: int, n_rounds: int) -> Option<AnnealedShare> {
    if anneal.at_most(Num { bits: 0 }) || round >= n_rounds {
        None
    } else {
        Some(AnnealedShare { left: (n_rounds - round) as usize, of: n_rounds as usize })
    }
}

impl GTBoostModel {
    /// Labels are whole numbers that a class can have, where the task has classes.
    pub open spec fn labels_fit(&self, y: Seq<Num>) -> bool {
        self.task() == Task::Multiclass ==> forall|i: int|
            0 <= i < y.len() ==> label_class(#[trigger] y[i]) < usize::MAX
    }

    /// Checks a fit's input, clears what an earlier fit has left, and settles
    /// threads, bins and which features are derived. The width is taken over in any case.
    pub fn fit(&mut self, input: &FitInput) -> (r: Result<FitPlan, ModelError>)
        requires
            old(self).labels_fit(input.y@),
            input.n_features + 16 <= usize::MAX,
            input.max_threads >= 1,
        ensures
            final(self).settings == old(self).settings,
            final(self).trained.n_features == input.n_features,
            match r {
                Err(e) => fit_refusal(old(self).task(), *input) == Some(e) && final(self).trained == (Trained {
                    n_features: input.n_features,
                    ..old(self).trained
                }),
                Ok(plan) => {
                    &&& fit_refusal(old(self).task(), *input) is None
                    &&& old(self).settings.fit_planned(*input, plan)
                    &&& final(self).trained.restarts(old(self).trained, input.n_features)
                },
            },
    {
        self.trained.n_features = input.n_features;
        let task: Task = task_from_name(&self.settings.task);
        let multi: bool = match task {
            Task::Multiclass => true,
            _ => false,
        };
        let n_classes: usize = if multi { count_classes(&input.y) } else { 1 };
        match check_lengths(task, input, n_classes) {
            Some(e) => {
                return Err(e);
            },
            None => {},
        }
        let cyclic: CyclicSettings = self.settings.cyclic_settings();
        let subtrees: usize = cyclic.subtrees_per_boosting_round(input.n_features);
        let threads: usize = count_threads(
            input.n_rows,
            input.n_features,
            input.n_rounds,
            subtrees,
            n_classes,
            input.max_threads,
        );
        let bins: usize = effective_bins(self.settings.num_bins, input.n_rows);
        let first: usize = if self.settings.supervised_bins { count_first_bins(bins, input.n_rows) } else { bins };
        let merge_outputs: Option<usize> = if self.settings.supervised_bins && first > bins {
            Some(
                if multi && n_classes < 2 {
                    2
                } else {
                    n_classes
                },
            )
        } else {
            None
        };
        let numeric: Vec<usize> = numeric_features(&self.settings.cat_features, input.n_features);
        let categorical: Vec<usize> = crate::ctr::categorical_features(&self.settings.cat_features, input.n_features);
        let interactions: Option<InteractionPlan> = plan_interactions(
            self.settings.auto_interactions,
            self.settings.auto_cat_interactions,
            task,
            numeric.len(),
            categorical.len(),
            self.settings.max_interaction_features,
            input.n_rows,
            input.n_rounds,
        );
        let regression: bool = match task {
            Task::Regression => true,
            _ => false,
        };
        let binary: bool = match task {
            Task::Binary => true,
            _ => false,
        };
        let keeps_eval: bool = self.settings.auto_interactions || self.settings.jit_ltso_enabled || (
        self.settings.vertical_init && regression && input.init_scores.is_none());
        let derives: Option<usize> = if self.settings.jit_ltso_enabled && input.n_features >= 2 && (regression
            || binary) && numeric.len() > 0 {
            Some(
                if categorical.len() == 0 {
                    3
                } else {
                    1
                },
            )
        } else {
            None
        };
        self.trained.clear_trained_state_for_fit();
        Ok(FitPlan { threads, bins, first_bins: first, merge_outputs, interactions, keeps_eval, derives })
    }

    /// Checks a fit on the bins of a dataset, takes over its category flags and
    /// width, clears what an earlier fit has left, and tells the threads to use.
    pub fn fit_binned(
        &mut self,
        dataset: &GTBoostDataset,
        n_rounds: usize,
        init_scores: Option<usize>,
        weights: Option<usize>,
        max_threads: usize,
    ) -> (r: Result<usize, ModelError>)
        requires
            old(self).labels_fit(dataset.y_data@),
            dataset.n_binned + 16 <= usize::MAX,
            max_threads >= 1,
        ensures
            ({
                let before = *old(self);
                let after = *final(self);
                let first = shared_bins_refusal(before.settings, *dataset);
                let second = lengths_refusal(before.task(), *dataset, init_scores, weights);
                if first is Some {
                    r == Err::<usize, ModelError>(first->0) && after == before
                } else {
                    &&& after.settings.adopts(before.settings, dataset.cat_features@)
                    &&& second is Some ==> r == Err::<usize, ModelError>(second->0) && after.trained == before.trained
                    &&& second is None ==> after.trained.restarts(before.trained, dataset.n_binned) && r == Ok::<
                        usize,
                        ModelError,
                    >(before.settings.binned_threads(*dataset, n_rounds, max_threads) as usize)
                }
            }),
    {
        match refuse_shared_bins(&self.settings, dataset) {
            Some(e) => {
                return Err(e);
            },
            None => {},
        }
        self.settings.adopt_categories(&dataset.cat_features);
        let task: Task = task_from_name(&self.settings.task);
        let multi: bool = match task {
            Task::Multiclass => true,
            _ => false,
        };
        let n_classes: usize = if multi { count_classes(&dataset.y_data) } else { 1 };
        match refuse_dataset(task, dataset, n_classes, init_scores, weights) {
            Some(e) => {
                return Err(e);
            },
            None => {},
        }
        let threads: usize = self.settings.count_binned_threads(dataset, n_rounds, n_classes, max_threads);
        self.trained.restart(dataset.n_binned);
        Ok(threads)
    }

    /// Training has left pairs, tables or tuples that derive columns.
    pub open spec fn extends_rows(&self) -> bool {
        self.trained.numeric_interaction_pairs@.len() > 0 || self.trained.categorical_interaction_pairs@.len() > 0
            || self.trained.ctr.features@.len() > 0 || self.trained.ctr.pair_features@.len() > 0
            || self.trained.ctr.triple_features@.len() > 0 || self.trained.cfe_tuples@.len() > 0
            || self.trained.cfe_resid_tables@.len() > 0
    }

    /// Whether rows are extended by derived columns before they are predicted.
    pub fn raw_matrix_extensions_active(&self) -> (r: bool)
        ensures
            r == self.extends_rows(),
    {
        self.trained.numeric_interaction_pairs.len() > 0 || self.trained.categorical_interaction_pairs.len() > 0
            || self.trained.ctr.features.len() > 0 || self.trained.ctr.pair_features.len() > 0
            || self.trained.ctr.triple_features.len() > 0 || self.trained.cfe_tuples.len() > 0
            || self.trained.cfe_resid_tables.len() > 0
    }

    /// The generator that a fit draws from, started from the model's seed.
    pub fn training_rng(&self) -> (rng: StdRng)
        ensures
            held_words(rng) == words_of_seed(self.settings.seed),
    {
        seeded(self.settings.seed)
    }

    pub fn multiclass_trees_per_class_round(&self) -> (r: usize)
        ensures
            r == self.trees_per_class(),
    {
        if self.trained.multiclass_trees_per_class > 1 {
            self.trained.multiclass_trees_per_class
        } else {
            1
        }
    }

    /// Tuples are on and smoothed, the task is no regression, and two features are categorical.
    pub open spec fn seeks_tuples(&self, data: BinnedData) -> bool {
        self.settings.cat_tuple_lookups && !self.settings.cat_lookup_smooth.at_most(Num { bits: 0 }) && self.task()
            != Task::Regression && category_columns(data).len() >= 2
    }

    /// How splits by tuples of categories are looked for: not in a regression,
    /// nor without smoothing, nor with fewer than two categorical features.
    pub fn cat_tuple_config(&self, data: &BinnedData) -> (r: Option<CatTupleConfig>)
        ensures
            r is Some <==> self.seeks_tuples(*data),
            r matches Some(c) ==> c == (CatTupleConfig {
                enabled: true,
                max_order: self.settings.cat_tuple_max_order,
                top_features: self.settings.cat_tuple_top_features,
                hash_bins: self.settings.cat_tuple_hash_bins,
                min_leaf: self.settings.cat_tuple_min_leaf,
                gain_margin: self.settings.cat_tuple_gain_margin,
            }),
    {
        let zero: Num = Num { bits: 0 };
        let regression: bool = match task_from_name(&self.settings.task) {
            Task::Regression => true,
            _ => false,
        };
        if !self.settings.cat_tuple_lookups || self.settings.cat_lookup_smooth.le(&zero) || regression {
            return None;
        }
        let mut flags: Vec<bool> = Vec::new();
        let mut c: usize = 0;
        while c < data.n_features
            invariant
                c <= data.n_features,
                flags@.len() == c,
                forall|k: int| 0 <= k < c ==> #[trigger] flags@[k] == splits_by_category(*data, k),
            decreases data.n_features - c,
        {
            flags.push(
                c < data.cll_is_categorical.len() && data.cll_is_categorical[c] && c < data.cll_n_bins.len()
                    && data.cll_n_bins[c] >= 2,
            );
            c = c + 1;
        }
        assert(flags@ =~= Seq::new(data.n_features as nat, |c: int| splits_by_category(*data, c)));
        let columns: Vec<usize> = collect_kept(&flags);
        if columns.len() < 2 {
            return None;
        }
        Some(
            CatTupleConfig {
                enabled: true,
                max_order: self.settings.cat_tuple_max_order,
                top_features: self.settings.cat_tuple_top_features,
                hash_bins: self.settings.cat_tuple_hash_bins,
                min_leaf: self.settings.cat_tuple_min_leaf,
                gain_margin: self.settings.cat_tuple_gain_margin,
            },
        )
    }

    /// How much of the annealing a round has: the rounds that are not behind, of
    /// all rounds. Nothing where none is set or no round is left.
    pub fn goss_schedule(&self, round: usize, n_rounds: usize) -> (r: Option<AnnealedShare>)
        ensures
            r == annealed_share(self.settings.goss_anneal, round as int, n_rounds as int),
    {
        let zero: Num = Num { bits: 0 };
        if self.settings.goss_anneal.le(&zero) || round >= n_rounds {
            return None;
        }
        Some(AnnealedShare { left: n_rounds - round, of: n_rounds })
    }

    /// The rate that is set, or the raised one while annealing goes on.
    pub open spec fn annealed_rate(&self, round: int, n_rounds: int, raised: Num) -> Num {
        if annealed_share(self.settings.goss_anneal, round, n_rounds) is None {
            self.settings.goss_top_rate
        } else {
            raised.clamped(Num { bits: POINT_01 }, Num { bits: POINT_99 })
        }
    }

    /// The share of rows with large gradients that a round keeps: the one that
    /// is set or, where the round has a share of the annealing, `raised`, held
    /// to 0.01 and 0.99. `raised` is the one that is set plus that share of the
    /// annealing.
    pub fn goss_annealed_a(&self, round: usize, n_rounds: usize, raised: &Num) -> (r: Num)
        ensures
            r == self.annealed_rate(round as int, n_rounds as int, *raised),
    {
        match self.goss_schedule(round, n_rounds) {
            None => self.settings.goss_top_rate,
            Some(share) => {
                let low: Num = Num { bits: POINT_01 };
                let high: Num = Num { bits: POINT_99 };
                raised.clamp(&low, &high)
            },
        }
    }

    /// The features whose running usage each tree adds to, tree by tree; nothing
    /// where usage is not penalised.
    pub fn refresh_feature_usage_ema(&self, n_features: usize) -> (r: Option<Vec<Vec<bool>>>)
        ensures
            r is None <==> self.settings.diversity_penalty.at_most(Num { bits: 0 }),
            r matches Some(rows) ==> {
                &&& rows@.len() == self.trained.trees@.len()
                &&& forall|t: int|
                    0 <= t < rows@.len() ==> (#[trigger] rows@[t])@ == seen_features(
                        self.trained.trees@[t],
                        n_features as nat,
                    )
            },
    {
        let zero: Num = Num { bits: 0 };
        if self.settings.diversity_penalty.le(&zero) {
            return None;
        }
        let mut rows: Vec<Vec<bool>> = Vec::new();
        let mut t: usize = 0;
        while t < self.trained.trees.len()
            invariant
                t <= self.trained.trees@.len(),
                rows@.len() == t,
                forall|k: int|
                    0 <= k < t ==> (#[trigger] rows@[k])@ == seen_features(self.trained.trees@[k], n_features as nat),
            decreases self.trained.trees@.len() - t,
        {
            rows.push(mark_seen(&self.trained.trees[t], n_features));
            t = t + 1;
        }
        Some(rows)
    }
}

/// Which of the first `n` features a tree splits on.
pub open spec fn seen_features(tree: DecisionTree, n: nat) -> Seq<bool> {
    Seq::new(n, |f: int| splits_on(tree, f, tree.split_features@.len()))
}

/// Whether one of the first `n` nodes splits on feature `f`.
pub open spec fn splits_on(tree: DecisionTree, f: int, n: nat) -> bool {
    exists|node: int| 0 <= node < n && #[trigger] tree.split_features@[node] == f && f != NO_FEATURE
}

fn mark_seen(tree: &DecisionTree, n_features: usize) -> (seen: Vec<bool>)
    ensures
        seen@ == seen_features(*tree, n_features as nat),
{
    let mut seen: Vec<bool> = vec![false; n_features];
    let mut node: usize = 0;
    while node < tree.split_features.len()
        invariant
            node <= tree.split_features@.len(),
            seen@.len() == n_features,
            forall|f: int| 0 <= f < n_features ==> #[trigger] seen@[f] == splits_on(*tree, f, node as nat),
        decreases tree.split_features@.len() - node,
    {
        let f: u32 = tree.split_features[node];
        let before = Ghost(seen@);
        if f != NO_FEATURE && (f as usize) < n_features {
            seen.set(f as usize, true);
        }
        assert forall|g: int| 0 <= g < n_features implies #[trigger] seen@[g] == splits_on(*tree, g, (node + 1) as nat) by {
            assert(before@[g] == splits_on(*tree, g, node as nat));
            if splits_on(*tree, g, node as nat) {
                let w = choose|w: int| 0 <= w < node && #[trigger] tree.split_features@[w] == g && g != NO_FEATURE;
                assert(tree.split_features@[w] == g);
            }
            if f == g && f != NO_FEATURE {
                assert(tree.split_features@[node as int] == g);
            }
        }
        node = node + 1;
    }
    assert(seen@ =~= seen_features(*tree, n_features as nat));
    seen
}

/// How the score that a fit starts from is found.
#[derive(Clone, Copy, PartialEq, Eq, Structural, Debug)]
pub enum BaseScore {
    /// The mean of the targets.
    Mean,
    /// The log odds of the share of positive targets.
    LogOdds { weighted: bool },
    /// The logarithm of the mean.
    LogMean,
    /// One score for each class, from smoothed counts.
    Classes,
    /// The one that is set.
    Unchanged,
}

/// What the base score of a task is.
pub open spec fn base_of_task(task: Task, n_class_weights: int) -> BaseScore {
    match task {
        Task::Regression => BaseScore::Mean,
        Task::Binary => BaseScore::LogOdds { weighted: n_class_weights >= 2 },
        Task::Poisson => BaseScore::LogMean,
        Task::Multiclass => BaseScore::Classes,
        _ => BaseScore::Unchanged,
    }
}

/// How the base score of a task is found; class weights count where there are two.
pub fn compute_base_scores_for_fit(task: Task, n_class_weights: usize) -> (r: BaseScore)
    ensures
        r == base_of_task(task, n_class_weights as int),
{
    match task {
        Task::Regression => BaseScore::Mean,
        Task::Binary => BaseScore::LogOdds { weighted: n_class_weights >= 2 },
        Task::Poisson => BaseScore::LogMean,
        Task::Multiclass => BaseScore::Classes,
        _ => BaseScore::Unchanged,
    }
}

/// The quotient, or `plain` where there is nothing to divide by.
pub open spec fn weighted_value(quotient: Num, total: Num, plain: Num) -> Num {
    if positive(total) {
        quotient
    } else {
        plain
    }
}

/// A quotient by a sum of weights, or `plain` where the weights add up to nothing.
pub fn weighted_or_plain(quotient: &Num, total: &Num, plain: &Num) -> (r: Num)
    ensures
        r == weighted_value(*quotient, *total, *plain),
{
    if is_positive(total) {
        *quotient
    } else {
        *plain
    }
}

/// A share from a millionth to all but a millionth.
pub open spec fn held_share(share: Num) -> Num {
    share.clamped(Num { bits: E_MINUS_6 }, Num { bits: POINT_999999 })
}

/// A share, held off from zero and one.
pub fn settle_share(share: &Num) -> (r: Num)
    ensures
        r == held_share(*share),
{
    let low: Num = Num { bits: E_MINUS_6 };
    let high: Num = Num { bits: POINT_999999 };
    share.clamp(&low, &high)
}

/// A rate of a millionth or more.
pub open spec fn held_rate(rate: Num) -> Num {
    rate.larger(Num { bits: E_MINUS_6 })
}

/// A rate, held off from zero.
pub fn settle_rate(rate: &Num) -> (r: Num)
    ensures
        r == held_rate(*rate),
{
    let low: Num = Num { bits: E_MINUS_6 };
    rate.max(&low)
}

/// How the leaves of grown trees are split once more.
#[derive(Clone, Copy, PartialEq, Eq, Structural, Debug)]
pub struct LeafSplitPlan {
    /// Gradients without a tree come from those with it.
    pub analytic: bool,
    /// Rows are walked in parallel.
    pub parallel: bool,
}

/// Squared errors have a closed form, and many rows are walked in parallel.
pub open spec fn leaf_split_plan(task: Task, huber_delta: Num, n_rows: int) -> LeafSplitPlan {
    LeafSplitPlan {
        analytic: task == Task::Regression && huber_delta.at_most(Num { bits: 0 }),
        parallel: n_rows >= 5000,
    }
}

pub fn leaf_split_pass(task: Task, huber_delta: &Num, n_rows: usize) -> (r: LeafSplitPlan)
    ensures
        r == leaf_split_plan(task, *huber_delta, n_rows as int),
{
    let zero: Num = Num { bits: 0 };
    let regression: bool = match task {
        Task::Regression => true,
        _ => false,
    };
    LeafSplitPlan { analytic: regression && huber_delta.le(&zero), parallel: n_rows >= 5000 }
}

/// The loss that warmup trees are grown for.
#[derive(Clone, Copy, PartialEq, Eq, Structural, Debug)]
pub enum WarmupLoss {
    Squared,
    Huber,
    Logistic,
    Poisson,
}

/// How a warmup tree is grown.
#[derive(Clone, Copy, PartialEq, Eq, Structural, Debug)]
pub struct WarmupPlan {
    pub base: BaseScore,
    pub loss: WarmupLoss,
    pub max_depth: usize,
    pub seed: u64,
}

/// How a warmup tree is grown: shallow, on the loss of the task, with a seed of its round.
pub open spec fn warmup_plan(task: Task, huber_delta: Num, max_depth: int, seed: u64, round: usize) -> WarmupPlan {
    WarmupPlan {
        base: match task {
            Task::Binary => BaseScore::LogOdds { weighted: false },
            Task::Poisson => BaseScore::LogMean,
            _ => BaseScore::Mean,
        },
        loss: match task {
            Task::Regression => if positive(huber_delta) {
                WarmupLoss::Huber
            } else {
                WarmupLoss::Squared
            },
            Task::Binary => WarmupLoss::Logistic,
            Task::Poisson => WarmupLoss::Poisson,
            _ => WarmupLoss::Squared,
        },
        max_depth: at_most(max_depth, 6) as usize,
        seed: seed.wrapping_add(round as u64),
    }
}

/// How the warmup tree of a round is grown. Classes are told apart by their
/// labels, as in a regression.
pub fn run_warmup_trees(task: Task, huber_delta: &Num, max_depth: usize, seed: u64, round: usize) -> (r: WarmupPlan)
    ensures
        r == warmup_plan(task, *huber_delta, max_depth as int, seed, round),
{
    let base: BaseScore = match task {
        Task::Binary => BaseScore::LogOdds { weighted: false },
        Task::Poisson => BaseScore::LogMean,
        _ => BaseScore::Mean,
    };
    let loss: WarmupLoss = match task {
        Task::Regression => if is_positive(huber_delta) {
            WarmupLoss::Huber
        } else {
            WarmupLoss::Squared
        },
        Task::Binary => WarmupLoss::Logistic,
        Task::Poisson => WarmupLoss::Poisson,
        _ => WarmupLoss::Squared,
    };
    WarmupPlan {
        base,
        loss,
        max_depth: if max_depth <= 6 { max_depth } else { 6 },
        seed: seed.wrapping_add(round as u64),
    }
}

/// The constraints of the first `n` features: those given, and none for the rest.
pub fn pad_constraints(given: &Vec<i8>, n: usize) -> (r: Vec<i8>)
    ensures
        r@.len() == n,
        forall|f: int|
            0 <= f < n ==> #[trigger] r@[f] == if f < given@.len() {
                given@[f]
            } else {
                0
            },
{
    let mut r: Vec<i8> = Vec::new();
    let mut f: usize = 0;
    while f < n
        invariant
            f <= n,
            r@.len() == f,
            forall|k: int|
                0 <= k < f ==> #[trigger] r@[k] == if k < given@.len() {
                    given@[k]
                } else {
                    0
                },
        decreases n - f,
    {
        r.push(
            if f < given.len() {
                given[f]
            } else {
                0
            },
        );
        f = f + 1;
    }
    r
}

/// The annealing falls from the whole of it in the first round by the same part
/// from round to round, and is used up after the last one.
pub proof fn law_annealing_falls(anneal: Num, round: int, n_rounds: int)
    requires
        !anneal.at_most(Num { bits: 0 }),
        0 <= round < n_rounds <= usize::MAX,
    ensures
        annealed_share(anneal, round, n_rounds) matches Some(share) && share.of == n_rounds && share.left == n_rounds
            - round,
        annealed_share(anneal, 0, n_rounds) matches Some(whole) && whole.left == whole.of,
        annealed_share(anneal, n_rounds, n_rounds) is None,
{
}

/// A fit on the bins of a dataset plans what a fit on its raw matrix plans, as
/// long as nothing is derived from the raw columns: it is refused for the same
/// reasons, runs on as many threads, cuts features into as many bins without
/// merging any, and starts from the same cleared state. The dataset is only
/// read, so every further model finds it as it is.
pub proof fn law_dataset_fits_as_matrix(
    settings: Settings,
    before: Trained,
    from_matrix: Trained,
    from_dataset: Trained,
    input: FitInput,
    dataset: GTBoostDataset,
    plan: FitPlan,
)
    requires
        dataset.n_rows == input.n_rows,
        dataset.n_features_raw == input.n_features,
        dataset.n_binned == input.n_features,
        dataset.y_data@ == input.y@,
        dataset.num_bins == settings.num_bins,
        dataset.max_cat_bins == settings.max_cat_bins,
        dataset.cat_features@ == settings.cat_features@ || settings.cat_features@.len() == 0,
        input.eval_init_scores is None,
        !settings.auto_interactions,
        !settings.auto_cat_interactions,
        !settings.ordered_ctr,
        !settings.jit_ltso_enabled,
        !settings.supervised_bins,
        settings.fit_planned(input, plan),
        from_matrix.restarts(before, input.n_features),
        from_dataset.restarts(before, dataset.n_binned),
    ensures
        shared_bins_refusal(settings, dataset) is None,
        lengths_refusal(task_named(settings.task@), dataset, input.init_scores, input.weights) == fit_refusal(
            task_named(settings.task@),
            input,
        ),
        settings.binned_threads(dataset, input.n_rounds, input.max_threads) == plan.threads,
        plan.bins == bins_for(dataset.num_bins as int, dataset.n_rows as int),
        plan.first_bins == plan.bins,
        plan.merge_outputs is None,
        plan.interactions is None,
        plan.derives is None,
        from_matrix.cleared() && from_dataset.cleared(),
        from_matrix.n_features == from_dataset.n_features,
        from_matrix.base_score == from_dataset.base_score,
        from_matrix.class_base_scores == from_dataset.class_base_scores,
{
}

/// A fit is refused exactly where something that comes with the rows has another length
/// than they have: scores, one for each row and class, or weights, one for each row; and
/// where evaluation scores come without evaluation rows.
pub proof fn law_fits_check_lengths(task: Task, input: FitInput)
    requires
        class_span(input.y@, input.y@.len()) >= 1,
        input.n_rows * class_span(input.y@, input.y@.len()) <= usize::MAX,
        input.eval_rows matches Some(n) ==> n * class_span(input.y@, input.y@.len()) <= usize::MAX,
    ensures
        ({
            let per_row = if task == Task::Multiclass {
                class_span(input.y@, input.y@.len())
            } else {
                1
            };
            let scores_fit = input.init_scores matches Some(n) ==> n == input.n_rows * per_row;
            let weights_fit = input.weights matches Some(n) ==> n == input.n_rows;
            let eval_known = input.eval_init_scores is Some ==> input.eval_rows is Some;
            let eval_fit = input.eval_init_scores matches Some(n) ==> input.eval_rows matches Some(m) ==> n == m
                * per_row;
            &&& fit_refusal(task, input) is None <==> scores_fit && weights_fit && eval_known && eval_fit
            &&& fit_refusal(task, input) == Some(ModelError::EvalInitScoreWithoutEval) <==> scores_fit && weights_fit
                && !eval_known
            &&& (fit_refusal(task, input) is Some && fit_refusal(task, input)->0 is InitScoreLength) <==> !scores_fit
            &&& (fit_refusal(task, input) is Some && fit_refusal(task, input)->0 is SampleWeightLength) <==> scores_fit
                && !weights_fit
            &&& !scores_fit ==> fit_refusal(task, input) == Some(
                ModelError::InitScoreLength {
                    got: input.init_scores->0,
                    expected: (input.n_rows * per_row) as usize,
                },
            )
        }),
{
    let k = class_span(input.y@, input.y@.len());
    assert(input.n_rows * 1 == input.n_rows);
    if task == Task::Multiclass {
        assert(raised(k, 1) == k);
    }
}

/// Work is shared out by its size: no thread is started for less than its least share,
/// and none is missing where there is a share for it.
pub proof fn law_threads_have_work(n_rows: int, width: int, n_rounds: int, subtrees: int, n_classes: int, most: int)
    requires
        0 <= n_rows,
        0 <= width,
        1 <= n_rounds,
        0 <= subtrees,
        0 <= n_classes,
        1 <= most,
        n_rounds * subtrees <= usize::MAX,
        n_rounds * subtrees * n_classes <= usize::MAX,
        n_rows * width <= usize::MAX,
        n_rows * width * (n_rounds * subtrees * n_classes) <= usize::MAX,
    ensures
        ({
            let work = n_rows * width * (n_rounds * subtrees * n_classes);
            let t = thread_count(n_rows, width, n_rounds, subtrees, n_classes, most);
            &&& 1 <= t <= most
            &&& t > 1 ==> t * 400_000 <= work
            &&& t < most ==> work < (t + 1) * 400_000
        }),
{
    let work = n_rows * width * (n_rounds * subtrees * n_classes);
    assert(raised(n_rounds, 1) == n_rounds);
    assert(work >= 0) by (nonlinear_arith)
        requires
            work == n_rows * width * (n_rounds * subtrees * n_classes),
            0 <= n_rows,
            0 <= width,
            1 <= n_rounds,
            0 <= subtrees,
            0 <= n_classes,
    ;
}

/// A feature is first cut at least as finely as in the end, no more than four times as
/// finely, and where more finely, into no more than five hundred and twelve bins, with two
/// rows each on the mean beyond thirty-two.
pub proof fn law_first_cuts_are_finer(bins: int, n_rows: int)
    requires
        0 <= bins,
        bins * 4 <= usize::MAX,
        0 <= n_rows,
    ensures
        bins <= first_bins(bins, n_rows) <= bins * 4,
        first_bins(bins, n_rows) <= bins || first_bins(bins, n_rows) <= 512,
        first_bins(bins, n_rows) <= bins || first_bins(bins, n_rows) <= 32 || 2 * first_bins(bins, n_rows) <= n_rows,
        bins * 4 <= 512 && (bins * 4 <= 32 || bins * 8 <= n_rows) ==> first_bins(bins, n_rows) == bins * 4,
        bins <= 512 < bins * 4 && n_rows >= 1024 ==> first_bins(bins, n_rows) == 512,
{
}

/// Only tasks with many classes have more than one; there are then as many as the labels
/// reach.
pub proof fn law_only_multiclass_tasks_have_classes(task: Task, y: Seq<Num>)
    ensures
        task != Task::Multiclass ==> task_classes(task, y) == 1,
        task == Task::Multiclass ==> task_classes(task, y) == class_span(y, y.len()),
{
}

/// What a fit has settled follows its settings: bins are merged only where they are
/// supervised and there are more of them at first; interactions and derived features are
/// sought only where they are set and there are features for them; and no warmup outlasts
/// the fit.
pub proof fn law_fits_follow_settings(s: Settings, input: FitInput, plan: FitPlan)
    requires
        s.fit_planned(input, plan),
    ensures
        !s.supervised_bins ==> plan.first_bins == plan.bins && plan.merge_outputs is None,
        plan.merge_outputs is Some <==> plan.first_bins > plan.bins,
        plan.merge_outputs matches Some(n) ==> n >= 1 && (n > 1 <==> task_named(s.task@) == Task::Multiclass),
        plan.interactions is Some ==> s.auto_interactions || s.auto_cat_interactions,
        s.auto_interactions && s.numeric(input.n_features as nat).len() >= 2 ==> plan.interactions is Some,
        plan.interactions matches Some(p) ==> p.warmup_rounds <= input.n_rounds && p.warmup_rounds <= 15
            && p.max_pairs > 0 && (s.max_interaction_features > 0 ==> p.max_pairs == s.max_interaction_features)
            && p.numeric == s.auto_interactions && (p.categorical ==> s.auto_cat_interactions),
        plan.interactions matches Some(p) ==> input.n_rows < 5000 && input.n_rounds >= 15 ==> p.warmup_rounds == 15,
        plan.interactions matches Some(p) ==> input.n_rows >= 5000 && input.n_rounds >= 6 ==> p.warmup_rounds == 6,
        plan.derives is Some ==> s.jit_ltso_enabled && s.numeric(input.n_features as nat).len() > 0,
        plan.derives matches Some(n) ==> n == (if s.categorical(input.n_features as nat).len() > 0 {
            1int
        } else {
            3
        }),
        s.auto_interactions || s.jit_ltso_enabled ==> plan.keeps_eval,
        plan.keeps_eval ==> s.auto_interactions || s.jit_ltso_enabled || s.vertical_init,
{
}

/// Bins that were cut beforehand serve a model exactly where it derives no columns, asks
/// for the same bins and names the same categories, if it names any.
pub proof fn law_shared_bins_suit_the_model(s: Settings, d: GTBoostDataset)
    ensures
        shared_bins_refusal(s, d) is None <==> {
            &&& !(s.auto_interactions || s.auto_cat_interactions || s.ordered_ctr || s.jit_ltso_enabled)
            &&& s.num_bins == d.num_bins
            &&& s.max_cat_bins == d.max_cat_bins
            &&& s.cat_features@.len() == 0 || s.cat_features@ == d.cat_features@
        },
        shared_bins_refusal(s, d) matches Some(ModelError::BinsDiffer { model, dataset }) ==> model != dataset && model
            == s.num_bins && dataset == d.num_bins,
        shared_bins_refusal(s, d) matches Some(ModelError::CategoryBinsDiffer { model, dataset }) ==> model != dataset
            && model == s.max_cat_bins && dataset == d.max_cat_bins,
        shared_bins_refusal(s, d) == Some(ModelError::CategoriesDiffer) ==> s.cat_features@ != d.cat_features@,
        s.auto_interactions || s.auto_cat_interactions || s.ordered_ctr || s.jit_ltso_enabled ==> shared_bins_refusal(
            s,
            d,
        ) == Some(ModelError::CachedBinsUnusable),
{
}

/// The columns for tuples of categories are the categorical ones with two bins or more.
pub proof fn law_category_columns_have_bins(data: BinnedData, c: usize)
    ensures
        category_columns(data).contains(c) <==> {
            &&& c < data.n_features
            &&& c < data.cll_is_categorical@.len() && data.cll_is_categorical@[c as int]
            &&& c < data.cll_n_bins@.len() && data.cll_n_bins@[c as int] > 1
        },
{
    crate::select::law_kept_are_those_marked(
        Seq::new(data.n_features as nat, |c: int| splits_by_category(data, c)),
        c,
    );
}

/// A tree uses the features that its nodes split on.
pub proof fn law_trees_use_what_they_split_on(tree: DecisionTree, n: nat, f: int, node: int)
    requires
        0 <= f < n,
        0 <= node < tree.split_features@.len(),
    ensures
        tree.split_features@[node] == f && f < u32::MAX ==> seen_features(tree, n)[f],
        seen_features(tree, n)[f] ==> f < u32::MAX && exists|k: int|
            0 <= k < tree.split_features@.len() && #[trigger] tree.split_features@[k] == f,
        seen_features(tree, n).len() == n,
{
    if tree.split_features@[node] == f && f < u32::MAX {
        assert(splits_on(tree, f, tree.split_features@.len()));
    }
}

/// Every task starts from its own score: the mean, the log odds, the log of the mean or
/// one score for each class; other tasks from the one that is set. Warmup trees start from
/// the same, without weights, and classes there from the mean of their labels.
pub proof fn law_tasks_start_from_their_score(task: Task, n_class_weights: int, delta: Num, depth: int, seed: u64, round: usize)
    requires
        0 <= depth <= usize::MAX,
    ensures
        base_of_task(task, n_class_weights) == BaseScore::Mean <==> task == Task::Regression,
        base_of_task(task, n_class_weights) == BaseScore::LogMean <==> task == Task::Poisson,
        base_of_task(task, n_class_weights) == BaseScore::Classes <==> task == Task::Multiclass,
        task == Task::Binary && n_class_weights >= 2 ==> base_of_task(task, n_class_weights) == (BaseScore::LogOdds {
            weighted: true,
        }),
        task == Task::Binary && n_class_weights < 2 ==> base_of_task(task, n_class_weights) == (BaseScore::LogOdds {
            weighted: false,
        }),
        task == Task::Rank || task == Task::Other ==> base_of_task(task, n_class_weights) == BaseScore::Unchanged,
        ({
            let plan = warmup_plan(task, delta, depth, seed, round);
            &&& task == Task::Regression || task == Task::Binary || task == Task::Poisson ==> plan.base == base_of_task(
                task,
                0,
            )
            &&& task == Task::Multiclass || task == Task::Rank || task == Task::Other ==> plan.base == BaseScore::Mean
            &&& plan.loss == WarmupLoss::Logistic <==> task == Task::Binary
            &&& plan.loss == WarmupLoss::Poisson <==> task == Task::Poisson
            &&& plan.loss == WarmupLoss::Huber <==> task == Task::Regression && 0 < delta.bits <= 0x7ff0_0000_0000_0000
            &&& plan.max_depth <= 6 && plan.max_depth <= depth && (plan.max_depth == 6 || plan.max_depth == depth)
            &&& plan.seed == seed.wrapping_add(round as u64)
        }),
{
}

/// Shares stay off from zero and one and rates off from zero; what lies between is kept.
pub proof fn law_shares_and_rates_are_held(share: Num, rate: Num)
    requires
        share.finite(),
        rate.finite(),
    ensures
        ({
            let low = Num { bits: 0x3eb0_c6f7_a0b5_ed8d };
            let high = Num { bits: 0x3fef_fffd_e721_0be9 };
            &&& low.scaled() <= share.scaled() <= high.scaled() ==> held_share(share) == share
            &&& share.scaled() < low.scaled() ==> held_share(share) == low
            &&& high.scaled() < share.scaled() ==> held_share(share) == high
            &&& low.scaled() <= rate.scaled() ==> held_rate(rate) == rate
            &&& rate.scaled() < low.scaled() ==> held_rate(rate) == low
        }),
{
    crate::num::law_key_orders_values(share, Num { bits: E_MINUS_6 });
    crate::num::law_key_orders_values(Num { bits: POINT_999999 }, share);
    crate::num::law_key_orders_values(rate, Num { bits: E_MINUS_6 });
}

/// Weights count where they add up to something, and leaves have a closed form exactly in
/// regressions on squared errors.
pub proof fn law_weights_count_where_there_are_any(
    quotient: Num,
    total: Num,
    plain: Num,
    task: Task,
    delta: Num,
    n_rows: int,
)
    requires
        total.finite(),
        delta.finite(),
    ensures
        total.scaled() > 0 ==> weighted_value(quotient, total, plain) == quotient,
        total.scaled() <= 0 ==> weighted_value(quotient, total, plain) == plain,
        leaf_split_plan(task, delta, n_rows).analytic <==> task == Task::Regression && delta.scaled() <= 0,
        leaf_split_plan(task, delta, n_rows).parallel <==> n_rows >= 5000,
{
    let zero = Num { bits: 0 };
    assert(crate::num::scaled_magnitude(0) == 0);
    assert(zero.scaled() == 0);
    crate::num::law_key_orders_values(zero, total);
    crate::num::law_key_orders_values(delta, zero);
}

/// Nothing is annealed at a strength of zero or below, nor after the last round.
pub proof fn law_annealing_is_as_set(anneal: Num, round: int, n_rounds: int)
    requires
        anneal.finite(),
        0 <= round,
        0 <= n_rounds <= usize::MAX,
    ensures
        annealed_share(anneal, round, n_rounds) is Some <==> anneal.scaled() > 0 && round < n_rounds,
{
    let zero = Num { bits: 0 };
    assert(crate::num::scaled_magnitude(0) == 0);
    assert(zero.scaled() == 0);
    crate::num::law_key_orders_values(anneal, zero);
}

/// A model that takes over the categories of a dataset changes nothing else of its settings.
pub proof fn law_categories_are_adopted_alone(after: Settings, before: Settings, flags: Seq<bool>)
    requires
        after.adopts(before, flags),
    ensures
        after.cat_features@ == flags,
        after == (Settings { cat_features: after.cat_features, ..before }),
        after.task == before.task && after.num_bins == before.num_bins && after.seed == before.seed,
        after.learning_rate == before.learning_rate && after.max_depth == before.max_depth && after.honest
            == before.honest,
{
}

/// A model without derived columns predicts rows as they are, and a cleared one has none.
pub proof fn law_rows_are_extended_by_what_was_derived(model: GTBoostModel)
    ensures
        model.trained.cleared() ==> !model.extends_rows(),
        !model.extends_rows() <==> {
            &&& model.trained.numeric_interaction_pairs@.len() == 0
            &&& model.trained.categorical_interaction_pairs@.len() == 0
            &&& model.trained.ctr.features@.len() == 0
            &&& model.trained.ctr.pair_features@.len() == 0
            &&& model.trained.ctr.triple_features@.len() == 0
            &&& model.trained.cfe_tuples@.len() == 0
            &&& model.trained.cfe_resid_tables@.len() == 0
        },
{
}

/// Splits by tuples are sought exactly where they are set and smoothed and two features are
/// categorical, in any task but a regression; while annealing goes on, the share of rows kept
/// is the raised one, held to what can be sampled, and else the one that is set.
pub proof fn law_tuples_and_shares_are_as_set(model: GTBoostModel, data: BinnedData, round: int, n_rounds: int, raised: Num)
    requires
        model.settings.cat_lookup_smooth.finite(),
        model.settings.goss_anneal.finite(),
        raised.finite(),
        0 <= round,
        0 <= n_rounds <= usize::MAX,
    ensures
        model.seeks_tuples(data) <==> model.settings.cat_tuple_lookups && model.settings.cat_lookup_smooth.scaled() > 0
            && model.task() != Task::Regression && category_columns(data).len() > 1,
        !(model.settings.goss_anneal.scaled() > 0 && round < n_rounds) ==> model.annealed_rate(round, n_rounds, raised)
            == model.settings.goss_top_rate,
        model.settings.goss_anneal.scaled() > 0 && round < n_rounds ==> {
            let low = Num { bits: 0x3f84_7ae1_47ae_147b };
            let high = Num { bits: 0x3fef_ae14_7ae1_47ae };
            let rate = model.annealed_rate(round, n_rounds, raised);
            &&& low.scaled() <= raised.scaled() <= high.scaled() ==> rate == raised
            &&& raised.scaled() < low.scaled() ==> rate == low
            &&& high.scaled() < raised.scaled() ==> rate == high
        },
{
    let zero = Num { bits: 0 };
    assert(crate::num::scaled_magnitude(0) == 0);
    assert(zero.scaled() == 0);
    crate::num::law_key_orders_values(model.settings.cat_lookup_smooth, zero);
    law_annealing_is_as_set(model.settings.goss_anneal, round, n_rounds);
    crate::num::law_key_orders_values(raised, Num { bits: POINT_01 });
    crate::num::law_key_orders_values(Num { bits: POINT_99 }, raised);
}

} // verus!
