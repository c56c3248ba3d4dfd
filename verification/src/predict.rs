//! Planning of predictions: which trees add to which score, how each is walked
//! and with what weight.

use crate::bits::ONE;
use crate::errors::ModelError;
use crate::model::{raised, GTBoostModel};
use crate::multiclass::{class_of_tree, tree_class};
use crate::num::{capped_product, multiply_capped, saturate, Num};
use crate::select::{at_most, collect_kept, is_positive, kept_indices, positive};
use crate::tally::{count_of, tally};
use crate::task::{task_from_name, task_named, Task};
use std::collections::HashMap;
use vstd::prelude::*;

verus! {

broadcast use vstd::std_specs::hash::group_hash_axioms;

/// What a tree's walk may rely on.
#[derive(Clone, Copy, PartialEq, Eq, Structural, Debug)]
pub struct TreeTraits {
    /// Splits on raw values of single features only.
    pub plain_axis: bool,
    /// Splits on bins, with plain leaf values.
    pub binned_plain: bool,
    /// Splits on bins, with plain or sloped leaf values.
    pub binned_ramp: bool,
    /// Splits on the running score.
    pub self_score: bool,
}

/// How the bins of the rows are laid out.
#[derive(Clone, Copy, PartialEq, Eq, Structural, Debug)]
pub enum BinLayout {
    RowMajor,
    ColumnMajor,
    Unbinned,
}

/// How a tree is walked.
#[derive(Clone, Copy, PartialEq, Eq, Structural, Debug)]
pub enum TreeWalk {
    RowMajorPlain,
    RowMajorRamp,
    BinsScored,
    BinsPlain,
    Bins,
    RawScored,
    RawSoft,
    RawPlainAxis,
    Raw,
    RawPruned,
}

/// What a row's score starts from.
#[derive(Clone, Copy, PartialEq, Eq, Structural, Debug)]
pub enum ScoreStart {
    /// The scores given with the rows.
    Given,
    /// The fitted prior.
    Prior,
    /// The base score.
    Base,
    /// The base scores of the classes.
    Classes,
    Zero,
}

/// What the value of a tree is multiplied by, beside its weight.
#[derive(Clone, Copy, PartialEq, Eq, Structural, Debug)]
pub enum TreeRate {
    One,
    /// The learning rate.
    Learning,
    /// The learning rate times the scale of the trees of several classes.
    Scaled,
}

/// What a prediction is made of.
#[derive(Clone, Copy, PartialEq, Eq, Structural, Debug)]
pub enum PredictKind {
    /// All trees.
    Full,
    /// The first trees.
    Truncated,
    /// The trees that a mask admits.
    Masked,
    /// All trees, with their deep splits faded.
    Pruned,
}

/// One tree's part in a score.
#[derive(Clone, Copy, PartialEq, Eq, Structural, Debug)]
pub struct PlannedTree {
    pub tree: usize,
    pub class: usize,
    pub weight: Num,
    pub walk: TreeWalk,
}

/// The plan of a prediction.
pub struct PredictPlan {
    pub layout: BinLayout,
    pub start: ScoreStart,
    pub rate: TreeRate,
    /// Tree values are class probabilities, averaged.
    pub averages: bool,
    /// The score is exponentiated.
    pub exponentiates: bool,
    /// Category offsets are added.
    pub cat_offsets: bool,
    /// Category bins are made beside the others.
    pub lookup_bins: bool,
    /// What the sum of each class is divided by, where sums are averaged.
    pub divisors: Vec<usize>,
    pub steps: Vec<PlannedTree>,
}

pub open spec fn all_binned(traits: Seq<TreeTraits>, n: int) -> bool {
    forall|t: int| 0 <= t < n ==> (#[trigger] traits[t]).binned_ramp
}

/// The layout of the bins: none for soft walks or where the rows have another
/// width than the training rows, by row where every tree can be walked that way.
pub open spec fn bin_layout(soft: bool, width: int, trained_width: int, traits: Seq<TreeTraits>, n: int) -> BinLayout {
    if soft || width != trained_width {
        BinLayout::Unbinned
    } else if all_binned(traits, n) {
        BinLayout::RowMajor
    } else {
        BinLayout::ColumnMajor
    }
}

/// How a tree is walked.
pub open spec fn tree_walk(
    kind: PredictKind,
    multiclass: bool,
    averages: bool,
    layout: BinLayout,
    soft: bool,
    traits: TreeTraits,
) -> TreeWalk {
    match kind {
        PredictKind::Masked => if !multiclass && traits.self_score {
            TreeWalk::RawScored
        } else {
            TreeWalk::Raw
        },
        PredictKind::Pruned => if !multiclass && traits.self_score {
            TreeWalk::RawScored
        } else {
            TreeWalk::RawPruned
        },
        _ => match layout {
            BinLayout::RowMajor => if traits.binned_plain {
                TreeWalk::RowMajorPlain
            } else {
                TreeWalk::RowMajorRamp
            },
            BinLayout::ColumnMajor => if !multiclass && traits.self_score {
                TreeWalk::BinsScored
            } else if traits.binned_plain {
                TreeWalk::BinsPlain
            } else {
                TreeWalk::Bins
            },
            BinLayout::Unbinned => if !multiclass && traits.self_score {
                TreeWalk::RawScored
            } else if kind == PredictKind::Truncated {
                TreeWalk::Raw
            } else if soft {
                TreeWalk::RawSoft
            } else if traits.plain_axis && (!multiclass || averages) {
                TreeWalk::RawPlainAxis
            } else {
                TreeWalk::Raw
            },
        },
    }
}

fn walk_of(
    kind: PredictKind,
    multiclass: bool,
    averages: bool,
    layout: BinLayout,
    soft: bool,
    traits: TreeTraits,
) -> (r: TreeWalk)
    ensures
        r == tree_walk(kind, multiclass, averages, layout, soft, traits),
{
    match kind {
        PredictKind::Masked => if !multiclass && traits.self_score {
            TreeWalk::RawScored
        } else {
            TreeWalk::Raw
        },
        PredictKind::Pruned => if !multiclass && traits.self_score {
            TreeWalk::RawScored
        } else {
            TreeWalk::RawPruned
        },
        _ => match layout {
            BinLayout::RowMajor => if traits.binned_plain {
                TreeWalk::RowMajorPlain
            } else {
                TreeWalk::RowMajorRamp
            },
            BinLayout::ColumnMajor => if !multiclass && traits.self_score {
                TreeWalk::BinsScored
            } else if traits.binned_plain {
                TreeWalk::BinsPlain
            } else {
                TreeWalk::Bins
            },
            BinLayout::Unbinned => {
                let truncated: bool = match kind {
                    PredictKind::Truncated => true,
                    _ => false,
                };
                if !multiclass && traits.self_score {
                    TreeWalk::RawScored
                } else if truncated {
                    TreeWalk::Raw
                } else if soft {
                    TreeWalk::RawSoft
                } else if traits.plain_axis && (!multiclass || averages) {
                    TreeWalk::RawPlainAxis
                } else {
                    TreeWalk::Raw
                }
            },
        },
    }
}

/// The weight of tree `t`: the one stored for it, and one where there is none.
pub open spec fn tree_weight(weights: Seq<Num>, t: int) -> Num {
    if t < weights.len() {
        weights[t]
    } else {
        Num { bits: ONE }
    }
}

/// The trees below `n` that a mask admits; a tree beyond the mask is admitted.
pub open spec fn mask_flags(mask: Seq<u8>, n: nat) -> Seq<bool> {
    Seq::new(n, |t: int| !(t < mask.len() && mask[t] == 0))
}

/// The trees below `n`.
pub open spec fn first_trees(n: nat) -> Seq<usize> {
    Seq::new(n, |t: int| t as usize)
}

/// The length that scores given with rows must have.
pub open spec fn given_length(task: Task, n_rows: int, n_classes: int) -> int {
    if task == Task::Multiclass {
        capped_product(n_rows, raised(n_classes, 1))
    } else {
        n_rows
    }
}

/// The length that scores given with rows must have.
pub fn expected_length(task: Task, n_rows: usize, n_classes: usize) -> (r: usize)
    ensures
        r == given_length(task, n_rows as int, n_classes as int),
{
    match task {
        Task::Multiclass => {
            let k: usize = if n_classes > 1 { n_classes } else { 1 };
            multiply_capped(n_rows, k)
        },
        _ => n_rows,
    }
}

/// Whether scores given with rows have the wrong length.
pub open spec fn wrong_length(given: Option<usize>, expected: int) -> bool {
    given matches Some(n) && n != expected
}

impl GTBoostModel {
    pub open spec fn task(&self) -> Task {
        task_named(self.settings.task@)
    }

    /// The trees that a round adds to each class.
    pub open spec fn trees_per_class(&self) -> int {
        raised(self.trained.multiclass_trees_per_class as int, 1)
    }

    /// Whether tree values are class probabilities that are averaged.
    pub open spec fn averages(&self) -> bool {
        self.task() == Task::Multiclass && self.settings.prob_avg && self.trees_per_class() > 1
    }

    pub open spec fn soft(&self) -> bool {
        positive(self.settings.soft_predict_bandwidth)
    }

    /// A trained multi-class model has classes.
    pub open spec fn classes_known(&self) -> bool {
        self.task() == Task::Multiclass && self.trained.trees@.len() > 0 ==> self.trained.n_classes > 0
    }

    /// What scores start from.
    pub open spec fn score_start(&self, kind: PredictKind, given: bool) -> ScoreStart {
        let uses_given = given && (kind == PredictKind::Full || kind == PredictKind::Truncated);
        if self.task() == Task::Multiclass {
            if self.averages() {
                ScoreStart::Zero
            } else if uses_given {
                ScoreStart::Given
            } else if self.trained.class_base_scores@.len() == self.trained.n_classes {
                ScoreStart::Classes
            } else {
                ScoreStart::Zero
            }
        } else if uses_given {
            ScoreStart::Given
        } else if self.trained.vertical_prior.effects@.len() > 0 {
            ScoreStart::Prior
        } else {
            ScoreStart::Base
        }
    }

    /// What trees are multiplied by.
    pub open spec fn tree_rate(&self) -> TreeRate {
        if self.averages() {
            TreeRate::One
        } else if self.task() == Task::Multiclass {
            TreeRate::Scaled
        } else {
            TreeRate::Learning
        }
    }

    /// What the training of several classes starts from.
    pub open spec fn trained_from(&self, given: bool) -> ScoreStart {
        if given {
            ScoreStart::Given
        } else if self.trained.class_base_scores@.len() == self.trained.n_classes {
            ScoreStart::Classes
        } else {
            ScoreStart::Zero
        }
    }

    /// The scores that the training of several classes starts from: those given
    /// with the rows, or else the base scores of the classes.
    pub fn training_start(&self, given: bool) -> (r: ScoreStart)
        ensures
            r == self.trained_from(given),
    {
        if given {
            ScoreStart::Given
        } else if self.trained.class_base_scores.len() == self.trained.n_classes {
            ScoreStart::Classes
        } else {
            ScoreStart::Zero
        }
    }

    /// The part of tree `t`.
    pub open spec fn planned_tree(&self, kind: PredictKind, layout: BinLayout, traits: Seq<TreeTraits>, t: usize) -> PlannedTree {
        let multi = self.task() == Task::Multiclass;
        PlannedTree {
            tree: t,
            class: (if multi {
                class_of_tree(t as int, self.trees_per_class(), self.trained.n_classes as int)
            } else {
                0
            }) as usize,
            weight: if self.averages() || kind == PredictKind::Masked {
                Num { bits: ONE }
            } else {
                tree_weight(self.trained.dart_tree_weights@, t as int)
            },
            walk: tree_walk(
                kind,
                multi,
                self.averages(),
                layout,
                kind == PredictKind::Full && self.soft(),
                traits[t as int],
            ),
        }
    }

    /// The parts of the trees in `uses`.
    pub open spec fn planned_trees(&self, kind: PredictKind, layout: BinLayout, traits: Seq<TreeTraits>, uses: Seq<usize>) -> Seq<
        PlannedTree,
    > {
        Seq::new(uses.len(), |i: int| self.planned_tree(kind, layout, traits, uses[i]))
    }

    /// The classes that the trees in `uses` add to, tree by tree.
    pub open spec fn classes_of(&self, uses: Seq<usize>) -> Seq<usize> {
        Seq::new(
            uses.len(),
            |i: int| class_of_tree(uses[i] as int, self.trees_per_class(), self.trained.n_classes as int) as usize,
        )
    }

    /// What the sum of each class is divided by, where sums are averaged: under a
    /// mask the number of its trees in `uses`, if there are any, and otherwise
    /// the trees that a round adds to it.
    pub open spec fn class_divisors(&self, kind: PredictKind, uses: Seq<usize>) -> Seq<usize> {
        if !self.averages() {
            Seq::empty()
        } else {
            Seq::new(
                self.trained.n_classes as nat,
                |k: int|
                    (if kind == PredictKind::Masked {
                        raised(count_of(self.classes_of(uses), k as usize) as int, 1)
                    } else {
                        self.trees_per_class()
                    }) as usize,
            )
        }
    }

    fn divide_classes(&self, masked: bool, averages: bool, tpc: usize, uses: &Vec<usize>) -> (list: Vec<usize>)
        requires
            averages == self.averages(),
            tpc == self.trees_per_class(),
            tpc >= 1,
            uses@.len() > 0 ==> self.trained.n_classes > 0,
        ensures
            masked ==> list@ == self.class_divisors(PredictKind::Masked, uses@),
            !masked ==> forall|kind: PredictKind|
                kind != PredictKind::Masked ==> list@ == #[trigger] self.class_divisors(kind, uses@),
    {
        let mut list: Vec<usize> = Vec::new();
        if !averages {
            assert(list@ =~= Seq::empty());
            return list;
        }
        let n: usize = self.trained.n_classes;
        let mut classes: Vec<usize> = Vec::new();
        let mut i: usize = 0;
        while i < uses.len()
            invariant
                i <= uses@.len(),
                n == self.trained.n_classes,
                uses@.len() > 0 ==> n > 0,
                tpc == self.trees_per_class(),
                tpc >= 1,
                classes@.len() == i,
                forall|k: int|
                    0 <= k < i ==> #[trigger] classes@[k] < n && classes@[k] == class_of_tree(
                        uses@[k] as int,
                        tpc as int,
                        n as int,
                    ),
            decreases uses@.len() - i,
        {
            classes.push(tree_class(uses[i], tpc, n));
            i = i + 1;
        }
        assert(classes@ =~= self.classes_of(uses@));
        let counts: Vec<usize> = tally(&classes, n);
        let mut k: usize = 0;
        while k < n
            invariant
                k <= n,
                counts@.len() == n,
                forall|v: usize| v < n ==> counts@[v as int] == #[trigger] count_of(classes@, v),
                list@.len() == k,
                forall|c: int|
                    0 <= c < k ==> #[trigger] list@[c] == (if masked {
                        raised(count_of(classes@, c as usize) as int, 1)
                    } else {
                        tpc as int
                    }),
            decreases n - k,
        {
            assert(counts@[k as int] == count_of(classes@, k));
            let d: usize = if !masked {
                tpc
            } else if counts[k] > 1 {
                counts[k]
            } else {
                1
            };
            list.push(d);
            k = k + 1;
        }
        assert(masked ==> list@ =~= self.class_divisors(PredictKind::Masked, uses@));
        assert forall|kind: PredictKind| !masked && kind != PredictKind::Masked implies list@
            == #[trigger] self.class_divisors(kind, uses@) by {
            assert(list@ =~= self.class_divisors(kind, uses@));
        }
        list
    }

    /// `plan` is the plan over the trees in `uses`, for rows of `width` features.
    pub open spec fn is_plan(
        &self,
        plan: PredictPlan,
        kind: PredictKind,
        traits: Seq<TreeTraits>,
        uses: Seq<usize>,
        n_considered: int,
        width: int,
        given: bool,
    ) -> bool {
        let raw = kind == PredictKind::Masked || kind == PredictKind::Pruned;
        let layout = if raw {
            BinLayout::Unbinned
        } else {
            bin_layout(
                kind == PredictKind::Full && self.soft(),
                width,
                self.trained.binned->0.n_features as int,
                traits,
                n_considered,
            )
        };
        &&& plan.layout == layout
        &&& plan.start == self.score_start(kind, given)
        &&& plan.rate == self.tree_rate()
        &&& plan.averages == self.averages()
        &&& plan.exponentiates == (kind != PredictKind::Masked && self.task() == Task::Poisson)
        &&& plan.cat_offsets == ((kind == PredictKind::Full || kind == PredictKind::Pruned) && self.task()
            == Task::Binary && self.trained.cat_offset_maps@.len() > 0)
        &&& plan.lookup_bins == (layout == BinLayout::ColumnMajor && positive(self.settings.cat_lookup_smooth))
        &&& plan.divisors@ == self.class_divisors(kind, uses)
        &&& plan.steps@ == self.planned_trees(kind, layout, traits, uses)
    }

    fn make_plan(
        &self,
        kind: PredictKind,
        traits: &Vec<TreeTraits>,
        uses: &Vec<usize>,
        n_considered: usize,
        width: usize,
        given: bool,
    ) -> (plan: PredictPlan)
        requires
            self.trained.binned is Some,
            self.classes_known(),
            traits@.len() == self.trained.trees@.len(),
            n_considered <= traits@.len(),
            forall|i: int| 0 <= i < uses@.len() ==> #[trigger] uses@[i] < traits@.len(),
        ensures
            self.is_plan(plan, kind, traits@, uses@, n_considered as int, width as int, given),
    {
        let task: Task = task_from_name(&self.settings.task);
        let multi: bool = match task {
            Task::Multiclass => true,
            _ => false,
        };
        let poisson: bool = match task {
            Task::Poisson => true,
            _ => false,
        };
        let binary: bool = match task {
            Task::Binary => true,
            _ => false,
        };
        let full: bool = match kind {
            PredictKind::Full => true,
            _ => false,
        };
        let masked: bool = match kind {
            PredictKind::Masked => true,
            _ => false,
        };
        let pruned: bool = match kind {
            PredictKind::Pruned => true,
            _ => false,
        };
        let raw: bool = masked || pruned;
        let tpc: usize = if self.trained.multiclass_trees_per_class > 1 {
            self.trained.multiclass_trees_per_class
        } else {
            1
        };
        let averages: bool = multi && self.settings.prob_avg && tpc > 1;
        let soft: bool = full && is_positive(&self.settings.soft_predict_bandwidth);
        let trained_width: usize = match &self.trained.binned {
            Some(b) => b.n_features,
            None => 0,
        };
        let mut every: bool = true;
        let mut t: usize = 0;
        while t < n_considered
            invariant
                t <= n_considered <= traits@.len(),
                every == all_binned(traits@, t as int),
            decreases n_considered - t,
        {
            if !traits[t].binned_ramp {
                every = false;
            }
            t = t + 1;
        }
        let layout: BinLayout = if raw || soft || width != trained_width {
            BinLayout::Unbinned
        } else if every {
            BinLayout::RowMajor
        } else {
            BinLayout::ColumnMajor
        };
        let uses_given: bool = given && !raw;
        let start: ScoreStart = if multi {
            if averages {
                ScoreStart::Zero
            } else if uses_given {
                ScoreStart::Given
            } else if self.trained.class_base_scores.len() == self.trained.n_classes {
                ScoreStart::Classes
            } else {
                ScoreStart::Zero
            }
        } else if uses_given {
            ScoreStart::Given
        } else if self.trained.vertical_prior.is_active() {
            ScoreStart::Prior
        } else {
            ScoreStart::Base
        };
        let rate: TreeRate = if averages {
            TreeRate::One
        } else if multi {
            TreeRate::Scaled
        } else {
            TreeRate::Learning
        };
        let one: Num = Num { bits: ONE };
        let mut steps: Vec<PlannedTree> = Vec::new();
        let mut i: usize = 0;
        while i < uses.len()
            invariant
                i <= uses@.len(),
                multi == (self.task() == Task::Multiclass),
                tpc == self.trees_per_class(),
                tpc >= 1,
                averages == self.averages(),
                masked == (kind == PredictKind::Masked),
                soft == (kind == PredictKind::Full && self.soft()),
                one.bits == ONE,
                self.classes_known(),
                traits@.len() == self.trained.trees@.len(),
                forall|k: int| 0 <= k < uses@.len() ==> #[trigger] uses@[k] < traits@.len(),
                steps@.len() == i,
                forall|k: int|
                    0 <= k < i ==> #[trigger] steps@[k] == self.planned_tree(kind, layout, traits@, uses@[k]),
            decreases uses@.len() - i,
        {
            let t: usize = uses[i];
            assert(uses@[i as int] < traits@.len());
            let class: usize = if multi { tree_class(t, tpc, self.trained.n_classes) } else { 0 };
            let weight: Num = if averages || masked || t >= self.trained.dart_tree_weights.len() {
                one
            } else {
                self.trained.dart_tree_weights[t]
            };
            steps.push(
                PlannedTree {
                    tree: t,
                    class,
                    weight,
                    walk: walk_of(kind, multi, averages, layout, soft, traits[t]),
                },
            );
            i = i + 1;
        }
        let lookup_bins: bool = match layout {
            BinLayout::ColumnMajor => is_positive(&self.settings.cat_lookup_smooth),
            _ => false,
        };
        proof {
            if uses@.len() > 0 {
                assert(uses@[0] < traits@.len());
            }
        }
        let divisors: Vec<usize> = if multi {
            self.divide_classes(masked, averages, tpc, uses)
        } else {
            Vec::new()
        };
        assert(divisors@ =~= self.class_divisors(kind, uses@));
        let uses_seq = Ghost(uses@);
        assert(steps@ =~= self.planned_trees(kind, layout, traits@, uses_seq@));
        PredictPlan {
            layout,
            start,
            rate,
            averages,
            exponentiates: !masked && poisson,
            cat_offsets: (full || pruned) && binary && self.trained.cat_offset_maps.len() > 0,
            lookup_bins,
            divisors,
            steps,
        }
    }

    fn first_uses(&self, n: usize) -> (uses: Vec<usize>)
        ensures
            uses@ == first_trees(n as nat),
    {
        let uses: Vec<usize> = crate::groups::all_rows(n);
        assert(uses@ =~= first_trees(n as nat));
        uses
    }

    /// The plan of a prediction with all trees for rows of `width` features
    /// (derived ones included). `given` is the length of scores given with the rows.
    pub fn predict(&self, n_rows: usize, width: usize, given: Option<usize>, traits: &Vec<TreeTraits>) -> (r: Result<
        PredictPlan,
        ModelError,
    >)
        requires
            self.classes_known(),
            traits@.len() == self.trained.trees@.len(),
        ensures
            ({
                let expected = given_length(self.task(), n_rows as int, self.trained.n_classes as int);
                match r {
                    Err(e) => if wrong_length(given, expected) {
                        e == (ModelError::PredictInitScoreLength { got: given->0, expected: expected as usize })
                    } else {
                        self.trained.binned is None && e == ModelError::NotTrained
                    },
                    Ok(plan) => {
                        &&& !wrong_length(given, expected)
                        &&& self.trained.binned is Some
                        &&& self.is_plan(
                            plan,
                            PredictKind::Full,
                            traits@,
                            first_trees(self.trained.trees@.len()),
                            self.trained.trees@.len() as int,
                            width as int,
                            given is Some,
                        )
                    },
                }
            }),
    {
        let expected: usize = expected_length(
            task_from_name(&self.settings.task),
            n_rows,
            self.trained.n_classes,
        );
        match given {
            Some(n) => {
                if n != expected {
                    return Err(ModelError::PredictInitScoreLength { got: n, expected });
                }
            },
            None => {},
        }
        if self.trained.binned.is_none() {
            return Err(ModelError::NotTrained);
        }
        let n: usize = self.trained.trees.len();
        let uses: Vec<usize> = self.first_uses(n);
        Ok(self.make_plan(PredictKind::Full, traits, &uses, n, width, given.is_some()))
    }

    /// The plan of a prediction with the first `n_trees` trees.
    pub fn predict_truncated(
        &self,
        n_rows: usize,
        width: usize,
        n_trees: usize,
        given: Option<usize>,
        traits: &Vec<TreeTraits>,
    ) -> (r: Result<PredictPlan, ModelError>)
        requires
            self.classes_known(),
            traits@.len() == self.trained.trees@.len(),
        ensures
            ({
                let expected = given_length(self.task(), n_rows as int, self.trained.n_classes as int);
                let n = at_most(n_trees as int, self.trained.trees@.len() as int);
                match r {
                    Err(e) => if wrong_length(given, expected) {
                        e == (ModelError::TruncatedInitScoreLength { got: given->0, expected: expected as usize })
                    } else {
                        self.trained.binned is None && e == ModelError::NotTrained
                    },
                    Ok(plan) => {
                        &&& !wrong_length(given, expected)
                        &&& self.trained.binned is Some
                        &&& self.is_plan(
                            plan,
                            PredictKind::Truncated,
                            traits@,
                            first_trees(n as nat),
                            n,
                            width as int,
                            given is Some,
                        )
                    },
                }
            }),
    {
        let expected: usize = expected_length(
            task_from_name(&self.settings.task),
            n_rows,
            self.trained.n_classes,
        );
        match given {
            Some(n) => {
                if n != expected {
                    return Err(ModelError::TruncatedInitScoreLength { got: n, expected });
                }
            },
            None => {},
        }
        if self.trained.binned.is_none() {
            return Err(ModelError::NotTrained);
        }
        let all: usize = self.trained.trees.len();
        let n: usize = if n_trees < all { n_trees } else { all };
        let uses: Vec<usize> = self.first_uses(n);
        Ok(self.make_plan(PredictKind::Truncated, traits, &uses, n, width, given.is_some()))
    }

    /// The plan of a prediction with all trees, their deep splits faded.
    pub fn predict_pruned(&self, width: usize, traits: &Vec<TreeTraits>) -> (r: Result<PredictPlan, ModelError>)
        requires
            self.classes_known(),
            traits@.len() == self.trained.trees@.len(),
        ensures
            r matches Err(e) ==> e == ModelError::NotTrained,
            r is Err <==> self.trained.binned is None,
            r matches Ok(plan) ==> self.is_plan(
                plan,
                PredictKind::Pruned,
                traits@,
                first_trees(self.trained.trees@.len()),
                self.trained.trees@.len() as int,
                width as int,
                false,
            ),
    {
        if self.trained.binned.is_none() {
            return Err(ModelError::NotTrained);
        }
        let n: usize = self.trained.trees.len();
        let uses: Vec<usize> = self.first_uses(n);
        Ok(self.make_plan(PredictKind::Pruned, traits, &uses, n, width, false))
    }

    /// The plan of a prediction with the trees that a mask admits: those
    /// without a zero in it.
    pub fn predict_with_tree_mask(&self, width: usize, mask: &Vec<u8>, traits: &Vec<TreeTraits>) -> (r: Result<
        PredictPlan,
        ModelError,
    >)
        requires
            self.classes_known(),
            traits@.len() == self.trained.trees@.len(),
        ensures
            r matches Err(e) ==> e == ModelError::NotTrained,
            r is Err <==> self.trained.binned is None,
            r matches Ok(plan) ==> self.is_plan(
                plan,
                PredictKind::Masked,
                traits@,
                kept_indices(mask_flags(mask@, self.trained.trees@.len())),
                self.trained.trees@.len() as int,
                width as int,
                false,
            ),
    {
        if self.trained.binned.is_none() {
            return Err(ModelError::NotTrained);
        }
        let n: usize = self.trained.trees.len();
        let mut flags: Vec<bool> = Vec::new();
        let mut t: usize = 0;
        while t < n
            invariant
                t <= n,
                flags@.len() == t,
                forall|k: int| 0 <= k < t ==> #[trigger] flags@[k] == !(k < mask@.len() && mask@[k] == 0),
            decreases n - t,
        {
            flags.push(!(t < mask.len() && mask[t] == 0));
            t = t + 1;
        }
        assert(flags@ =~= mask_flags(mask@, n as nat));
        let uses: Vec<usize> = collect_kept(&flags);
        proof {
            crate::select::lemma_kept_indices(flags@);
        }
        Ok(self.make_plan(PredictKind::Masked, traits, &uses, n, width, false))
    }

    /// The plan of one pass that takes the score after each of several numbers
    /// of trees. Nothing is planned without such a number.
    pub fn predict_checkpoints(
        &self,
        width: usize,
        checkpoints: &Vec<usize>,
        given: bool,
        traits: &Vec<TreeTraits>,
    ) -> (r: Result<Option<CheckpointPlan>, ModelError>)
        requires
            self.classes_known(),
            traits@.len() == self.trained.trees@.len(),
        ensures
            match r {
                Err(e) => if self.task() == Task::Multiclass {
                    e == ModelError::CheckpointsOfMulticlass
                } else {
                    checkpoints@.len() > 0 && self.trained.binned is None && e == ModelError::NotTrained
                },
                Ok(None) => self.task() != Task::Multiclass && checkpoints@.len() == 0,
                Ok(Some(c)) => {
                    let n = highest(capped(checkpoints@, self.trained.trees@.len() as int));
                    &&& self.task() != Task::Multiclass
                    &&& checkpoints@.len() > 0
                    &&& self.trained.binned is Some
                    &&& c.checkpoints@ == capped(checkpoints@, self.trained.trees@.len() as int)
                    &&& self.is_plan(
                        c.plan,
                        PredictKind::Truncated,
                        traits@,
                        first_trees(n as nat),
                        n,
                        width as int,
                        given,
                    )
                },
            },
    {
        let multi: bool = match task_from_name(&self.settings.task) {
            Task::Multiclass => true,
            _ => false,
        };
        if multi {
            return Err(ModelError::CheckpointsOfMulticlass);
        }
        if checkpoints.len() == 0 {
            return Ok(None);
        }
        if self.trained.binned.is_none() {
            return Err(ModelError::NotTrained);
        }
        let all: usize = self.trained.trees.len();
        let mut list: Vec<usize> = Vec::new();
        let mut n: usize = 0;
        let mut i: usize = 0;
        assert(capped(checkpoints@, all as int).take(0) =~= Seq::empty());
        while i < checkpoints.len()
            invariant
                i <= checkpoints@.len(),
                list@ == capped(checkpoints@, all as int).take(i as int),
                n == highest(list@),
                n <= all,
            decreases checkpoints@.len() - i,
        {
            let c: usize = if checkpoints[i] < all { checkpoints[i] } else { all };
            let before = Ghost(list@);
            list.push(c);
            assert(list@.drop_last() =~= before@);
            assert(list@ =~= capped(checkpoints@, all as int).take(i + 1));
            if c > n {
                n = c;
            }
            i = i + 1;
        }
        assert(list@ =~= capped(checkpoints@, all as int));
        let uses: Vec<usize> = self.first_uses(n);
        let plan: PredictPlan = self.make_plan(PredictKind::Truncated, traits, &uses, n, width, given);
        Ok(Some(CheckpointPlan { plan, checkpoints: list }))
    }

    /// The leaves of all rows, row by row: `leaves` holds them tree by tree.
    pub fn leaf_indices(&self, leaves: &Vec<Vec<u32>>, n_rows: usize) -> (r: Result<Vec<u32>, ModelError>)
        requires
            leaves@.len() == self.trained.trees@.len(),
            n_rows * leaves@.len() <= usize::MAX,
            forall|t: int| 0 <= t < leaves@.len() ==> (#[trigger] leaves@[t])@.len() == n_rows,
        ensures
            r matches Err(e) ==> e == ModelError::NotTrained,
            r is Err <==> self.trained.binned is None,
            r matches Ok(out) ==> {
                &&& out@.len() == n_rows * leaves@.len()
                &&& forall|row: int, t: int|
                    #![trigger out@[row * leaves@.len() + t]]
                    0 <= row < n_rows && 0 <= t < leaves@.len() ==> out@[row * leaves@.len() + t] == leaves@[t]@[row]
            },
    {
        if self.trained.binned.is_none() {
            return Err(ModelError::NotTrained);
        }
        let n: usize = leaves.len();
        let mut out: Vec<u32> = Vec::new();
        let mut row: usize = 0;
        assert(0 * n == 0) by (nonlinear_arith);
        while row < n_rows
            invariant
                row <= n_rows,
                n == leaves@.len(),
                forall|t: int| 0 <= t < leaves@.len() ==> (#[trigger] leaves@[t])@.len() == n_rows,
                out@.len() == row * n,
                forall|r: int, t: int|
                    #![trigger out@[r * n + t]]
                    0 <= r < row && 0 <= t < n ==> out@[r * n + t] == leaves@[t]@[r],
            decreases n_rows - row,
        {
            let mut t: usize = 0;
            while t < n
                invariant
                    t <= n,
                    row < n_rows,
                    n == leaves@.len(),
                    forall|k: int| 0 <= k < leaves@.len() ==> (#[trigger] leaves@[k])@.len() == n_rows,
                    out@.len() == row * n + t,
                    forall|r: int, k: int|
                        #![trigger out@[r * n + k]]
                        0 <= r < row && 0 <= k < n ==> out@[r * n + k] == leaves@[k]@[r],
                    forall|k: int|
                        #![trigger out@[row * n + k]]
                        0 <= k < t ==> out@[row * n + k] == leaves@[k]@[row as int],
                decreases n - t,
            {
                let before = Ghost(out@);
                assert(leaves@[t as int]@.len() == n_rows);
                out.push(leaves[t][row]);
                assert forall|r: int, k: int|
                    #![trigger out@[r * n + k]]
                    0 <= r < row && 0 <= k < n implies out@[r * n + k] == leaves@[k]@[r] by {
                    crate::tree::lemma_cell(r, k, row as int, n as int);
                    assert(out@[r * n + k] == before@[r * n + k]);
                }
                t = t + 1;
            }
            assert((row + 1) * n == row * n + n) by (nonlinear_arith);
            row = row + 1;
        }
        Ok(out)
    }
}

/// The offset that a category table holds for a value, if it holds one.
pub open spec fn offset_of(table: Map<i64, Num>, v: Num) -> Option<Num> {
    let key = saturate(v.truncated(), i64::MIN as int, i64::MAX as int) as i64;
    if v.finite() && table.contains_key(key) {
        Some(table[key])
    } else {
        None
    }
}

/// The offsets of the first `n` features of a row, in feature order.
pub open spec fn offsets_on(tables: Seq<HashMap<i64, Num>>, row: Seq<Num>, n: nat) -> Seq<Num>
    decreases n,
{
    if n == 0 {
        Seq::empty()
    } else {
        let rest = offsets_on(tables, row, (n - 1) as nat);
        if n <= row.len() && offset_of(tables[n - 1]@, row[n - 1]) is Some {
            rest.push(offset_of(tables[n - 1]@, row[n - 1])->Some_0)
        } else {
            rest
        }
    }
}

impl GTBoostModel {
    /// The offsets that the category tables add to the score of a raw row.
    pub fn row_offsets(&self, row: &Vec<Num>) -> (list: Vec<Num>)
        ensures
            list@ == offsets_on(
                self.trained.cat_offset_maps@,
                row@,
                self.trained.cat_offset_maps@.len(),
            ),
    {
        let mut list: Vec<Num> = Vec::new();
        let mut f: usize = 0;
        while f < self.trained.cat_offset_maps.len()
            invariant
                f <= self.trained.cat_offset_maps@.len(),
                list@ == offsets_on(self.trained.cat_offset_maps@, row@, f as nat),
            decreases self.trained.cat_offset_maps@.len() - f,
        {
            if f < row.len() && row[f].is_finite() {
                let key: i64 = row[f].to_i64();
                match self.trained.cat_offset_maps[f].get(&key) {
                    Some(offset) => {
                        list.push(*offset);
                    },
                    None => {},
                }
            }
            f = f + 1;
        }
        list
    }
}

/// The plan of a prediction at several numbers of trees.
pub struct CheckpointPlan {
    pub plan: PredictPlan,
    pub checkpoints: Vec<usize>,
}

/// The numbers, none above `most`.
pub open spec fn capped(list: Seq<usize>, most: int) -> Seq<usize> {
    Seq::new(list.len(), |i: int| at_most(list[i] as int, most) as usize)
}

/// The highest of the numbers, zero without one.
pub open spec fn highest(list: Seq<usize>) -> int
    decreases list.len(),
{
    if list.len() == 0 {
        0
    } else if list.last() > highest(list.drop_last()) {
        list.last() as int
    } else {
        highest(list.drop_last())
    }
}

pub proof fn lemma_highest(list: Seq<usize>, i: int)
    requires
        0 <= i < list.len(),
    ensures
        list[i] <= highest(list),
    decreases list.len(),
{
    if i < list.len() - 1 {
        assert(list.drop_last()[i] == list[i]);
        lemma_highest(list.drop_last(), i);
    }
}

impl CheckpointPlan {
    /// The checkpoints whose score is taken after `done` trees.
    pub fn taken_after(&self, done: usize) -> (list: Vec<usize>)
        ensures
            list@ == kept_indices(Seq::new(self.checkpoints@.len(), |i: int| self.checkpoints@[i] == done)),
    {
        let mut flags: Vec<bool> = Vec::new();
        let mut i: usize = 0;
        while i < self.checkpoints.len()
            invariant
                i <= self.checkpoints@.len(),
                flags@.len() == i,
                forall|k: int| 0 <= k < i ==> #[trigger] flags@[k] == (self.checkpoints@[k] == done),
            decreases self.checkpoints@.len() - i,
        {
            flags.push(self.checkpoints[i] == done);
            i = i + 1;
        }
        assert(flags@ =~= Seq::new(self.checkpoints@.len(), |i: int| self.checkpoints@[i] == done));
        collect_kept(&flags)
    }
}

/// The scores of all rows and checkpoints, checkpoint by checkpoint: `per_row`
/// holds them row by row.
pub fn checkpoint_major(per_row: &Vec<Vec<Num>>, n_checkpoints: usize) -> (out: Vec<Num>)
    requires
        n_checkpoints * per_row@.len() <= usize::MAX,
        forall|row: int| 0 <= row < per_row@.len() ==> (#[trigger] per_row@[row])@.len() == n_checkpoints,
    ensures
        out@.len() == n_checkpoints * per_row@.len(),
        forall|c: int, row: int|
            #![trigger out@[c * per_row@.len() + row]]
            0 <= c < n_checkpoints && 0 <= row < per_row@.len() ==> out@[c * per_row@.len() + row] == per_row@[row]@[c],
{
    let n: usize = per_row.len();
    let mut out: Vec<Num> = Vec::new();
    let mut c: usize = 0;
    assert(0 * n == 0) by (nonlinear_arith);
    while c < n_checkpoints
        invariant
            c <= n_checkpoints,
            n == per_row@.len(),
            forall|row: int| 0 <= row < n ==> (#[trigger] per_row@[row])@.len() == n_checkpoints,
            out@.len() == c * n,
            forall|k: int, row: int|
                #![trigger out@[k * n + row]]
                0 <= k < c && 0 <= row < n ==> out@[k * n + row] == per_row@[row]@[k],
        decreases n_checkpoints - c,
    {
        let mut row: usize = 0;
        while row < n
            invariant
                row <= n,
                c < n_checkpoints,
                n == per_row@.len(),
                forall|r: int| 0 <= r < n ==> (#[trigger] per_row@[r])@.len() == n_checkpoints,
                out@.len() == c * n + row,
                forall|k: int, r: int|
                    #![trigger out@[k * n + r]]
                    0 <= k < c && 0 <= r < n ==> out@[k * n + r] == per_row@[r]@[k],
                forall|r: int|
                    #![trigger out@[c * n + r]]
                    0 <= r < row ==> out@[c * n + r] == per_row@[r]@[c as int],
            decreases n - row,
        {
            let before = Ghost(out@);
            assert(per_row@[row as int]@.len() == n_checkpoints);
            out.push(per_row[row][c]);
            assert forall|k: int, r: int|
                #![trigger out@[k * n + r]]
                0 <= k < c && 0 <= r < n implies out@[k * n + r] == per_row@[r]@[k] by {
                crate::tree::lemma_cell(k, r, c as int, n as int);
                assert(out@[k * n + r] == before@[k * n + r]);
            }
            row = row + 1;
        }
        assert((c + 1) * n == c * n + n) by (nonlinear_arith);
        c = c + 1;
    }
    out
}

/// A prediction with at least as many trees as there are adds the same trees to
/// the same classes with the same weights as a prediction with all of them, and
/// starts from the same scores.
pub proof fn law_truncating_nothing(
    model: GTBoostModel,
    full: PredictPlan,
    cut: PredictPlan,
    traits: Seq<TreeTraits>,
    n_trees: int,
    width: int,
    given: bool,
)
    requires
        n_trees >= model.trained.trees@.len(),
        model.is_plan(
            full,
            PredictKind::Full,
            traits,
            first_trees(model.trained.trees@.len()),
            model.trained.trees@.len() as int,
            width,
            given,
        ),
        model.is_plan(
            cut,
            PredictKind::Truncated,
            traits,
            first_trees(at_most(n_trees, model.trained.trees@.len() as int) as nat),
            at_most(n_trees, model.trained.trees@.len() as int),
            width,
            given,
        ),
    ensures
        full.start == cut.start,
        full.rate == cut.rate,
        full.divisors@ == cut.divisors@,
        full.steps@.len() == cut.steps@.len(),
        forall|i: int|
            #![trigger full.steps@[i]]
            0 <= i < full.steps@.len() ==> full.steps@[i].tree == cut.steps@[i].tree && full.steps@[i].class
                == cut.steps@[i].class && full.steps@[i].weight == cut.steps@[i].weight,
{
}

/// Rows are scored independently of each other: what a row's score is made of
/// is settled by the model and the width of the rows, so the plan for many rows
/// is the one for each of them alone.
pub proof fn law_rows_are_planned_alike(
    model: GTBoostModel,
    many: PredictPlan,
    alone: PredictPlan,
    kind: PredictKind,
    traits: Seq<TreeTraits>,
    uses: Seq<usize>,
    n_considered: int,
    width: int,
    given: bool,
)
    requires
        model.is_plan(many, kind, traits, uses, n_considered, width, given),
        model.is_plan(alone, kind, traits, uses, n_considered, width, given),
    ensures
        many.layout == alone.layout,
        many.start == alone.start,
        many.rate == alone.rate,
        many.averages == alone.averages,
        many.exponentiates == alone.exponentiates,
        many.cat_offsets == alone.cat_offsets,
        many.lookup_bins == alone.lookup_bins,
        many.divisors@ == alone.divisors@,
        many.steps@ == alone.steps@,
{
}

/// A prediction of several classes starts from the scores that training started
/// from, unless probabilities are averaged.
pub proof fn law_prediction_starts_as_training(
    model: GTBoostModel,
    plan: PredictPlan,
    kind: PredictKind,
    traits: Seq<TreeTraits>,
    uses: Seq<usize>,
    n_considered: int,
    width: int,
    given: bool,
)
    requires
        model.is_plan(plan, kind, traits, uses, n_considered, width, given),
        model.task() == Task::Multiclass,
        !model.averages(),
        kind == PredictKind::Full || kind == PredictKind::Truncated,
    ensures
        plan.start == model.trained_from(given),
        plan.rate == TreeRate::Scaled,
{
}

/// Fading deep splits changes nothing but how the trees are walked: the same
/// trees add to the same classes with the same weights as in a prediction
/// without given scores, from the same start and with the same last steps.
pub proof fn law_pruning_scores_alike(
    model: GTBoostModel,
    full: PredictPlan,
    pruned: PredictPlan,
    traits: Seq<TreeTraits>,
    width: int,
)
    requires
        model.is_plan(
            full,
            PredictKind::Full,
            traits,
            first_trees(model.trained.trees@.len()),
            model.trained.trees@.len() as int,
            width,
            false,
        ),
        model.is_plan(
            pruned,
            PredictKind::Pruned,
            traits,
            first_trees(model.trained.trees@.len()),
            model.trained.trees@.len() as int,
            width,
            false,
        ),
    ensures
        full.start == pruned.start,
        full.rate == pruned.rate,
        full.averages == pruned.averages,
        full.divisors@ == pruned.divisors@,
        full.exponentiates == pruned.exponentiates,
        full.cat_offsets == pruned.cat_offsets,
        full.steps@.len() == pruned.steps@.len(),
        forall|i: int|
            #![trigger full.steps@[i]]
            0 <= i < full.steps@.len() ==> full.steps@[i].tree == pruned.steps@[i].tree && full.steps@[i].class
                == pruned.steps@[i].class && full.steps@[i].weight == pruned.steps@[i].weight,
{
}

/// The score at a checkpoint is that of a prediction cut to as many trees: the
/// first trees of the one pass are those of the cut prediction, with the same
/// weights, and both start from the same scores.
pub proof fn law_checkpoint_is_truncation(
    model: GTBoostModel,
    pass: CheckpointPlan,
    cut: PredictPlan,
    checkpoints: Seq<usize>,
    c: int,
    traits: Seq<TreeTraits>,
    width: int,
    given: bool,
)
    requires
        model.trained.trees@.len() <= usize::MAX,
        0 <= c < checkpoints.len(),
        pass.checkpoints@ == capped(checkpoints, model.trained.trees@.len() as int),
        model.is_plan(
            pass.plan,
            PredictKind::Truncated,
            traits,
            first_trees(highest(pass.checkpoints@) as nat),
            highest(pass.checkpoints@),
            width,
            given,
        ),
        model.is_plan(
            cut,
            PredictKind::Truncated,
            traits,
            first_trees(at_most(checkpoints[c] as int, model.trained.trees@.len() as int) as nat),
            at_most(checkpoints[c] as int, model.trained.trees@.len() as int),
            width,
            given,
        ),
    ensures
        pass.plan.start == cut.start,
        pass.plan.rate == cut.rate,
        pass.checkpoints@[c] == cut.steps@.len(),
        pass.checkpoints@[c] <= pass.plan.steps@.len(),
        forall|i: int|
            #![trigger cut.steps@[i]]
            0 <= i < pass.checkpoints@[c] ==> pass.plan.steps@[i].tree == cut.steps@[i].tree
                && pass.plan.steps@[i].weight == cut.steps@[i].weight,
{
    lemma_highest(pass.checkpoints@, c);
}

/// A mask without a zero admits every tree.
pub proof fn law_full_mask_admits_all(mask: Seq<u8>, n: nat)
    requires
        forall|t: int| 0 <= t < mask.len() ==> #[trigger] mask[t] != 0,
    ensures
        kept_indices(mask_flags(mask, n)) == first_trees(n),
    decreases n,
{
    if n > 0 {
        law_full_mask_admits_all(mask, (n - 1) as nat);
        assert(mask_flags(mask, n).drop_last() =~= mask_flags(mask, (n - 1) as nat));
        assert(mask_flags(mask, n).last());
        assert(kept_indices(mask_flags(mask, n)) =~= first_trees(n));
    } else {
        assert(kept_indices(mask_flags(mask, 0)) =~= first_trees(0));
    }
}

/// A prediction of one score starts from the prior wherever one is in force, as
/// training did; from the base score only where the prior is idle; and from the
/// scores given with the rows where there are any, but for masks and fading, which
/// take none.
pub proof fn law_one_score_starts_from_the_prior(
    model: GTBoostModel,
    plan: PredictPlan,
    kind: PredictKind,
    traits: Seq<TreeTraits>,
    uses: Seq<usize>,
    n_considered: int,
    width: int,
    given: bool,
)
    requires
        model.is_plan(plan, kind, traits, uses, n_considered, width, given),
        model.settings.task@ != "multiclass"@,
    ensures
        !given && model.trained.vertical_prior.effects@.len() > 0 ==> plan.start == ScoreStart::Prior,
        !given && model.trained.vertical_prior.effects@.len() == 0 ==> plan.start == ScoreStart::Base,
        given && (kind == PredictKind::Full || kind == PredictKind::Truncated) ==> plan.start == ScoreStart::Given,
        plan.start != ScoreStart::Zero && plan.start != ScoreStart::Classes,
        plan.rate == TreeRate::Learning,
        !plan.averages,
        forall|i: int| 0 <= i < plan.steps@.len() ==> (#[trigger] plan.steps@[i]).class == 0,
{
    lemma_task_names();
}

proof fn lemma_task_names()
    ensures
        "regression"@ != "multiclass"@,
        "binary"@ != "multiclass"@,
        "poisson"@ != "multiclass"@,
        "rank"@ != "multiclass"@,
        "binary"@ != "regression"@,
        "poisson"@ != "regression"@,
        "poisson"@ != "binary"@,
{
    reveal_strlit("regression");
    reveal_strlit("binary");
    reveal_strlit("multiclass");
    reveal_strlit("poisson");
    reveal_strlit("rank");
    assert("regression"@[0] == 'r' && "binary"@[0] == 'b' && "multiclass"@[0] == 'm' && "poisson"@[0] == 'p'
        && "rank"@[0] == 'r');
}

/// The trees of a prediction are those in use, in their order, each with the
/// weight that is set for it and one where none is set; masked and averaged
/// predictions weigh all trees alike.
pub proof fn law_trees_are_weighed_as_set(
    model: GTBoostModel,
    plan: PredictPlan,
    kind: PredictKind,
    traits: Seq<TreeTraits>,
    uses: Seq<usize>,
    n_considered: int,
    width: int,
    given: bool,
    i: int,
)
    requires
        model.is_plan(plan, kind, traits, uses, n_considered, width, given),
        0 <= i < uses.len(),
    ensures
        ({
            let t = uses[i];
            let weights = model.trained.dart_tree_weights@;
            let step = plan.steps@[i];
            &&& plan.steps@.len() == uses.len()
            &&& step.tree == t
            &&& kind != PredictKind::Masked && !plan.averages && t < weights.len() ==> step.weight == weights[t as int]
            &&& kind == PredictKind::Masked || plan.averages || t >= weights.len() ==> step.weight.bits
                == 0x3ff0_0000_0000_0000
        }),
{
}

/// A mask leaves out exactly the trees that it marks with zero.
pub proof fn law_masks_leave_out_zeros(mask: Seq<u8>, n: nat, t: usize)
    requires
        n <= usize::MAX,
    ensures
        kept_indices(mask_flags(mask, n)).contains(t) <==> t < n && (t >= mask.len() || mask[t as int] != 0),
{
    crate::select::law_kept_are_those_marked(mask_flags(mask, n), t);
}

/// How many steps of a plan add to class `k`.
pub open spec fn steps_of_class(steps: Seq<PlannedTree>, k: usize) -> nat
    decreases steps.len(),
{
    if steps.len() == 0 {
        0
    } else {
        steps_of_class(steps.drop_last(), k) + if steps.last().class == k {
            1nat
        } else {
            0
        }
    }
}

proof fn lemma_steps_of_class(
    model: GTBoostModel,
    kind: PredictKind,
    layout: BinLayout,
    traits: Seq<TreeTraits>,
    uses: Seq<usize>,
    k: usize,
)
    requires
        model.task() == Task::Multiclass,
    ensures
        count_of(model.classes_of(uses), k) == steps_of_class(model.planned_trees(kind, layout, traits, uses), k),
    decreases uses.len(),
{
    if uses.len() > 0 {
        lemma_steps_of_class(model, kind, layout, traits, uses.drop_last(), k);
        assert(model.classes_of(uses).drop_last() =~= model.classes_of(uses.drop_last()));
        assert(model.planned_trees(kind, layout, traits, uses).drop_last() =~= model.planned_trees(
            kind,
            layout,
            traits,
            uses.drop_last(),
        ));
    }
}

/// Averaged probabilities are divided, class by class: by the trees that the mask
/// leaves of the class, one where it leaves none, and without a mask by the trees
/// that each class has in a round.
pub proof fn law_averages_are_divided_by_class(
    model: GTBoostModel,
    plan: PredictPlan,
    kind: PredictKind,
    traits: Seq<TreeTraits>,
    uses: Seq<usize>,
    n_considered: int,
    width: int,
    given: bool,
    k: usize,
)
    requires
        model.is_plan(plan, kind, traits, uses, n_considered, width, given),
        plan.averages,
        k < model.trained.n_classes,
        uses.len() <= usize::MAX,
    ensures
        plan.divisors@.len() == model.trained.n_classes,
        kind == PredictKind::Masked ==> plan.divisors@[k as int] == if steps_of_class(plan.steps@, k) > 0 {
            steps_of_class(plan.steps@, k)
        } else {
            1
        },
        kind != PredictKind::Masked ==> plan.divisors@[k as int] == model.trained.multiclass_trees_per_class,
        model.settings.prob_avg && model.trained.multiclass_trees_per_class > 1,
{
    lemma_steps_of_class(model, kind, plan.layout, traits, uses, k);
    lemma_count_bounded(model.classes_of(uses), k);
}

proof fn lemma_count_bounded(s: Seq<usize>, v: usize)
    ensures
        count_of(s, v) <= s.len(),
    decreases s.len(),
{
    if s.len() > 0 {
        lemma_count_bounded(s.drop_last(), v);
    }
}

/// Scores are exponentiated exactly for counts, and category offsets are added
/// exactly for two classes, in predictions that are not masked; a cut prediction
/// takes no offsets.
pub proof fn law_scores_are_finished_by_task(
    model: GTBoostModel,
    plan: PredictPlan,
    kind: PredictKind,
    traits: Seq<TreeTraits>,
    uses: Seq<usize>,
    n_considered: int,
    width: int,
    given: bool,
)
    requires
        model.is_plan(plan, kind, traits, uses, n_considered, width, given),
    ensures
        kind != PredictKind::Masked ==> (plan.exponentiates <==> model.settings.task@ == "poisson"@),
        kind == PredictKind::Masked ==> !plan.exponentiates && !plan.cat_offsets,
        kind == PredictKind::Full || kind == PredictKind::Pruned ==> (plan.cat_offsets <==> model.settings.task@
            == "binary"@ && model.trained.cat_offset_maps@.len() > 0),
        kind == PredictKind::Truncated ==> !plan.cat_offsets,
{
    lemma_task_names();
    assert("poisson"@ != "multiclass"@ && "binary"@ != "multiclass"@);
}

/// Rows are walked by their bins only where they have the width of the training
/// rows and splits are not softened, and row by row only where every tree can be;
/// a tree that reads the running score of one output is told of it in every walk
/// that is not row by row.
pub proof fn law_walks_suit_the_rows(
    model: GTBoostModel,
    plan: PredictPlan,
    kind: PredictKind,
    traits: Seq<TreeTraits>,
    uses: Seq<usize>,
    n_considered: int,
    width: int,
    given: bool,
    i: int,
)
    requires
        model.is_plan(plan, kind, traits, uses, n_considered, width, given),
        0 <= i < uses.len(),
    ensures
        ({
            let walk = plan.steps@[i].walk;
            let one = model.settings.task@ != "multiclass"@;
            let scored = one && traits[uses[i] as int].self_score;
            let soft = kind == PredictKind::Full && (Num { bits: 0 }).below(model.settings.soft_predict_bandwidth);
            let binned = walk == TreeWalk::RowMajorPlain || walk == TreeWalk::RowMajorRamp || walk
                == TreeWalk::BinsScored || walk == TreeWalk::BinsPlain || walk == TreeWalk::Bins;
            &&& binned <==> plan.layout != BinLayout::Unbinned
            &&& plan.layout != BinLayout::Unbinned ==> width == model.trained.binned->0.n_features && !soft && kind
                != PredictKind::Masked && kind != PredictKind::Pruned
            &&& (kind == PredictKind::Full || kind == PredictKind::Truncated) && width
                == model.trained.binned->0.n_features && !soft ==> plan.layout != BinLayout::Unbinned
            &&& plan.layout == BinLayout::RowMajor ==> forall|t: int|
                0 <= t < n_considered ==> (#[trigger] traits[t]).binned_ramp
            &&& scored && plan.layout != BinLayout::RowMajor ==> walk == TreeWalk::BinsScored || walk
                == TreeWalk::RawScored
            &&& walk == TreeWalk::BinsScored || walk == TreeWalk::RawScored ==> scored
            &&& walk == TreeWalk::RawSoft ==> soft
            &&& soft && !scored ==> walk == TreeWalk::RawSoft
            &&& walk == TreeWalk::RawPruned <==> kind == PredictKind::Pruned && !scored
            &&& walk == TreeWalk::RowMajorPlain || walk == TreeWalk::BinsPlain ==> traits[uses[i] as int].binned_plain
            &&& walk == TreeWalk::RawPlainAxis ==> traits[uses[i] as int].plain_axis
        }),
{
    lemma_task_names();
}

/// With many classes a prediction starts from the scores that are given, or from those of
/// the classes where there is one for each; averages start from nothing, and so do classes
/// without scores. Masked and pruned predictions take no given scores.
pub proof fn law_classes_start_from_their_scores(
    model: GTBoostModel,
    plan: PredictPlan,
    kind: PredictKind,
    traits: Seq<TreeTraits>,
    uses: Seq<usize>,
    n_considered: int,
    width: int,
    given: bool,
)
    requires
        model.is_plan(plan, kind, traits, uses, n_considered, width, given),
        model.settings.task@ == "multiclass"@,
    ensures
        ({
            let tpc = model.trained.multiclass_trees_per_class;
            let takes = given && (kind == PredictKind::Full || kind == PredictKind::Truncated);
            let told = model.trained.class_base_scores@.len() == model.trained.n_classes;
            &&& plan.averages <==> model.settings.prob_avg && tpc > 1
            &&& plan.averages ==> plan.start == ScoreStart::Zero && plan.rate == TreeRate::One
            &&& !plan.averages ==> plan.rate == TreeRate::Scaled && plan.divisors@.len() == 0
            &&& !plan.averages && takes ==> plan.start == ScoreStart::Given
            &&& !plan.averages && !takes && told ==> plan.start == ScoreStart::Classes
            &&& !plan.averages && !takes && !told ==> plan.start == ScoreStart::Zero
        }),
{
    lemma_task_names();
}

/// Every tree adds to its own class: the trees of a round go class by class, as many for
/// each as a round has for it.
pub proof fn law_trees_add_to_their_class(
    model: GTBoostModel,
    plan: PredictPlan,
    kind: PredictKind,
    traits: Seq<TreeTraits>,
    uses: Seq<usize>,
    n_considered: int,
    width: int,
    given: bool,
    i: int,
    round: int,
    k: int,
    sub: int,
)
    requires
        model.is_plan(plan, kind, traits, uses, n_considered, width, given),
        model.settings.task@ == "multiclass"@,
        0 <= i < uses.len(),
        0 <= round,
        0 <= k < model.trained.n_classes,
        0 <= sub,
        sub < model.trained.multiclass_trees_per_class || sub == 0,
        uses[i] == (round * model.trained.n_classes + k) * (if model.trained.multiclass_trees_per_class > 1 {
            model.trained.multiclass_trees_per_class as int
        } else {
            1
        }) + sub,
    ensures
        plan.steps@[i].class == k,
{
    lemma_task_names();
    crate::multiclass::law_tree_layout(
        round,
        k,
        sub,
        model.trees_per_class(),
        model.trained.n_classes as int,
    );
}

/// Rows are laid out row by row exactly where every tree that counts can read them so, and
/// plain trees are walked plainly; lookup bins are made exactly for columns of bins with
/// lookups to smooth.
pub proof fn law_plain_trees_are_walked_plainly(
    model: GTBoostModel,
    plan: PredictPlan,
    kind: PredictKind,
    traits: Seq<TreeTraits>,
    uses: Seq<usize>,
    n_considered: int,
    width: int,
    given: bool,
    i: int,
)
    requires
        model.is_plan(plan, kind, traits, uses, n_considered, width, given),
        0 <= i < uses.len(),
    ensures
        ({
            let walk = plan.steps@[i].walk;
            let tree = traits[uses[i] as int];
            let multi = model.settings.task@ == "multiclass"@;
            let scored = !multi && tree.self_score;
            &&& plan.layout == BinLayout::ColumnMajor ==> exists|t: int|
                0 <= t < n_considered && !(#[trigger] traits[t]).binned_ramp
            &&& plan.layout == BinLayout::RowMajor ==> (walk == TreeWalk::RowMajorPlain <==> tree.binned_plain)
            &&& plan.layout == BinLayout::ColumnMajor && !scored ==> (walk == TreeWalk::BinsPlain <==> tree.binned_plain)
            &&& plan.layout == BinLayout::ColumnMajor ==> (walk == TreeWalk::BinsScored <==> scored)
            &&& kind == PredictKind::Masked && !scored ==> walk == TreeWalk::Raw
            &&& kind == PredictKind::Truncated && plan.layout == BinLayout::Unbinned && !scored ==> walk == TreeWalk::Raw
            &&& kind == PredictKind::Full && plan.layout == BinLayout::Unbinned && !scored && !positive(
                model.settings.soft_predict_bandwidth,
            ) ==> (walk == TreeWalk::RawPlainAxis <==> tree.plain_axis && (!multi || plan.averages))
            &&& plan.lookup_bins <==> plan.layout == BinLayout::ColumnMajor && 0 < model.settings.cat_lookup_smooth.bits
                <= 0x7ff0_0000_0000_0000
        }),
{
    lemma_task_names();
}

/// Masked and pruned predictions start as if no scores were given; training starts from given
/// scores, and else from those of the classes exactly where there is one for each.
pub proof fn law_other_kinds_take_no_scores(model: GTBoostModel, kind: PredictKind, given: bool)
    requires
        kind == PredictKind::Masked || kind == PredictKind::Pruned,
    ensures
        model.score_start(kind, given) == model.score_start(kind, false),
        model.score_start(kind, given) != ScoreStart::Given,
        model.trained_from(true) == ScoreStart::Given,
        model.trained_from(false) == ScoreStart::Classes <==> model.trained.class_base_scores@.len()
            == model.trained.n_classes,
        model.trained_from(false) != ScoreStart::Given,
{
}

/// Scores that come with rows have one number for each row, or for each row and class.
pub proof fn law_given_scores_have_a_length(task: Task, n_rows: int, n_classes: int, given: Option<usize>)
    requires
        0 <= n_rows,
        0 <= n_classes,
        n_rows * n_classes <= usize::MAX,
        n_rows <= usize::MAX,
    ensures
        task != Task::Multiclass ==> given_length(task, n_rows, n_classes) == n_rows,
        task == Task::Multiclass && n_classes >= 1 ==> given_length(task, n_rows, n_classes) == n_rows * n_classes,
        task == Task::Multiclass && n_classes == 0 ==> given_length(task, n_rows, n_classes) == n_rows,
        wrong_length(given, n_rows) <==> given is Some && given != Some(n_rows as usize),
{
    assert(n_rows * 1 == n_rows);
}

/// A category's offset is the one that is kept under its key, and a value without one, or
/// that is not finite, has none; offsets stand in the order of the features.
pub proof fn law_offsets_are_of_categories(tables: Seq<HashMap<i64, Num>>, row: Seq<Num>, n: nat)
    requires
        n < tables.len(),
    ensures
        ({
            let before = offsets_on(tables, row, n);
            let after = offsets_on(tables, row, n + 1);
            let v = row[n as int];
            let key = crate::hashing::single_key(v);
            let known = n < row.len() && v.finite() && tables[n as int]@.contains_key(key);
            &&& known ==> after == before.push(tables[n as int]@[key])
            &&& !known ==> after == before
        }),
        offsets_on(tables, row, 0).len() == 0,
{
}

/// Checkpoints beyond the last tree are taken after it, and the walk goes up to the highest.
pub proof fn law_checkpoints_stay_among_trees(list: Seq<usize>, most: int, i: int)
    requires
        0 <= i < list.len(),
        0 <= most <= usize::MAX,
    ensures
        capped(list, most).len() == list.len(),
        capped(list, most)[i] <= most,
        list[i] <= most ==> capped(list, most)[i] == list[i],
        list[i] > most ==> capped(list, most)[i] == most,
        list[i] <= highest(list),
        exists|k: int| 0 <= k < list.len() && #[trigger] list[k] == highest(list),
    decreases list.len(),
{
    let rest = list.drop_last();
    if rest.len() > 0 {
        law_checkpoints_stay_among_trees(
            rest,
            most,
            if i < rest.len() {
                i
            } else {
                0
            },
        );
        let k = choose|k: int| 0 <= k < rest.len() && #[trigger] rest[k] == highest(rest);
        assert(list[k] == highest(rest));
        assert(list[list.len() - 1] == list.last());
        if i < rest.len() {
            assert(rest[i] == list[i]);
        }
    } else {
        assert(highest(rest) == 0);
        assert(list[0] == list.last());
        assert(list[0] == highest(list));
    }
}

} // verus!
