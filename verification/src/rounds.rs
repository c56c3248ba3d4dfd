//! What is done to the trees of a round for many classes: how their leaves are
//! fitted, which lookups they get, and how the scores of the rows follow.

use crate::bits::{E_MINUS_10, ONE};
use crate::model::Settings;
use crate::multiclass::{grow_policy_from_name, policy_named, GrowPolicy};
use crate::num::Num;
use crate::select::{is_positive, positive};
use vstd::prelude::*;

verus! {

/// Rows of a subtree.
#[derive(Clone, Copy, PartialEq, Eq, Structural, Debug)]
pub enum RowSet {
    /// The rows that were sampled.
    Sample,
    /// Those of them that the splits were found on.
    Structure,
    /// Those that are kept for the leaves.
    Estimation,
}

/// The kinds of splits that a tree may have beside those of single features on a
/// threshold or by categories.
#[derive(Clone, Copy, PartialEq, Eq, Structural, Debug)]
pub struct SplitKinds {
    /// Between two bounds.
    pub interval: bool,
    /// On a combination of two features.
    pub oblique: bool,
    /// On a pair of categories.
    pub cat_pair: bool,
}

impl SplitKinds {
    pub fn none() -> (r: SplitKinds)
        ensures
            r == (SplitKinds { interval: false, oblique: false, cat_pair: false }),
    {
        SplitKinds { interval: false, oblique: false, cat_pair: false }
    }
}

/// How leaves are fitted.
#[derive(Clone, Copy, PartialEq, Eq, Structural, Debug)]
pub enum LeafFit {
    /// They stay as they were built.
    AsBuilt,
    /// Anew on all sampled rows.
    Newton,
    /// Anew on all sampled rows, by robust sums.
    Robust,
    /// Anew on the estimation rows, by robust sums.
    Honest,
}

/// Which lookups leaves get.
#[derive(Clone, Copy, PartialEq, Eq, Structural, Debug)]
pub enum LookupFit {
    /// None beyond those that were built.
    AsBuilt,
    /// Those of the choices for all classes.
    Guided(RowSet),
    /// The best for each leaf.
    Best(RowSet),
    /// Those of single categories.
    Single(RowSet),
}

/// How a tree is added to the scores of the training rows.
#[derive(Clone, Copy, PartialEq, Eq, Structural, Debug)]
pub enum ScoreUpdate {
    /// The value of each row's leaf.
    Direct,
    /// The value of each row's leaf without the row itself.
    LeaveOneOut,
}

/// What is done to a tree of one class.
#[derive(Clone, Copy, PartialEq, Eq, Structural, Debug)]
pub struct TreePlan {
    pub leaves: LeafFit,
    /// Lookups that were built are fitted on the estimation rows.
    pub refits_lookups: bool,
    /// Leaf values come from all classes together.
    pub coupled: bool,
    pub lookups: LookupFit,
    /// Lookups come from all classes together.
    pub joint: bool,
    pub update: ScoreUpdate,
}

/// What holds for all trees of a round.
#[derive(Clone, Copy, PartialEq, Eq, Structural, Debug)]
pub struct RoundPlan {
    /// All second derivatives are one, and leaves hold class frequencies.
    pub frequencies: bool,
    /// Subtrees are built in parallel.
    pub parallel: bool,
    /// Lookups are chosen for all classes together.
    pub guided: bool,
    /// Subtrees split at random.
    pub extra_trees: bool,
}

impl Settings {
    /// Whether leaves are fitted by robust sums.
    pub open spec fn robust(&self) -> bool {
        positive(self.leaf_trim_pct) || self.leaf_median || positive(self.leaf_median_blend) || positive(
            self.leaf_mad_clip,
        ) || positive(self.leaf_adaptive_blend_kappa)
    }

    /// Whether the leaves of all classes are fitted together.
    pub open spec fn couples(&self) -> bool {
        self.multiclass_coupled_leaves && !self.prob_avg
    }

    pub open spec fn guides(&self, n_classes: int) -> bool {
        self.adaptive_leaf_experts && positive(self.cat_lookup_smooth) && n_classes >= 3
    }

    /// What is done to a tree whose structure all classes share.
    pub open spec fn shared_tree_plan(&self, n_classes: int) -> TreePlan {
        TreePlan {
            leaves: if self.honest {
                LeafFit::Honest
            } else if self.robust() {
                LeafFit::Robust
            } else {
                LeafFit::Newton
            },
            refits_lookups: self.honest && positive(self.cat_lookup_smooth) && !self.adaptive_leaf_experts,
            coupled: self.couples(),
            lookups: if self.adaptive_leaf_experts {
                let rows = if self.honest {
                    RowSet::Estimation
                } else {
                    RowSet::Sample
                };
                if self.guides(n_classes) {
                    LookupFit::Guided(rows)
                } else {
                    LookupFit::Best(rows)
                }
            } else if positive(self.cat_lookup_smooth) {
                LookupFit::Single(
                    if self.honest {
                        RowSet::Structure
                    } else {
                        RowSet::Sample
                    },
                )
            } else {
                LookupFit::AsBuilt
            },
            joint: self.multiclass_joint_cll && self.couples() && self.guides(n_classes),
            update: if !self.couples() && !self.honest {
                ScoreUpdate::LeaveOneOut
            } else {
                ScoreUpdate::Direct
            },
        }
    }

    /// What is done to a tree that was built for one class.
    pub open spec fn single_tree_plan(&self, n_estimation: int) -> TreePlan {
        let oblivious = policy_named(self.grow_policy@) == GrowPolicy::Oblivious;
        let built = if self.honest {
            RowSet::Structure
        } else {
            RowSet::Sample
        };
        TreePlan {
            leaves: if self.honest {
                LeafFit::Honest
            } else {
                LeafFit::AsBuilt
            },
            refits_lookups: self.honest && positive(self.cat_lookup_smooth) && !self.adaptive_leaf_experts
                && !oblivious,
            coupled: false,
            lookups: if self.adaptive_leaf_experts {
                LookupFit::Best(
                    if self.honest && n_estimation > 0 {
                        RowSet::Estimation
                    } else {
                        built
                    },
                )
            } else if positive(self.cat_lookup_smooth) && oblivious {
                LookupFit::Single(built)
            } else {
                LookupFit::AsBuilt
            },
            joint: false,
            update: if self.honest {
                ScoreUpdate::Direct
            } else {
                ScoreUpdate::LeaveOneOut
            },
        }
    }

    fn uses_robust(&self) -> (r: bool)
        ensures
            r == self.robust(),
    {
        is_positive(&self.leaf_trim_pct) || self.leaf_median || is_positive(&self.leaf_median_blend) || is_positive(
            &self.leaf_mad_clip,
        ) || is_positive(&self.leaf_adaptive_blend_kappa)
    }

    /// What is done to a tree whose structure all classes share.
    pub fn plan_shared_tree(&self, n_classes: usize) -> (r: TreePlan)
        ensures
            r == self.shared_tree_plan(n_classes as int),
    {
        let coupled: bool = self.multiclass_coupled_leaves && !self.prob_avg;
        let smooth: bool = is_positive(&self.cat_lookup_smooth);
        let guided: bool = self.adaptive_leaf_experts && smooth && n_classes >= 3;
        let leaves: LeafFit = if self.honest {
            LeafFit::Honest
        } else if self.uses_robust() {
            LeafFit::Robust
        } else {
            LeafFit::Newton
        };
        let lookups: LookupFit = if self.adaptive_leaf_experts {
            let rows: RowSet = if self.honest { RowSet::Estimation } else { RowSet::Sample };
            if guided {
                LookupFit::Guided(rows)
            } else {
                LookupFit::Best(rows)
            }
        } else if smooth {
            LookupFit::Single(
                if self.honest {
                    RowSet::Structure
                } else {
                    RowSet::Sample
                },
            )
        } else {
            LookupFit::AsBuilt
        };
        TreePlan {
            leaves,
            refits_lookups: self.honest && smooth && !self.adaptive_leaf_experts,
            coupled,
            lookups,
            joint: self.multiclass_joint_cll && coupled && guided,
            update: if !coupled && !self.honest { ScoreUpdate::LeaveOneOut } else { ScoreUpdate::Direct },
        }
    }

    /// What is done to a tree that was built for one class; `n_estimation` is
    /// the number of its estimation rows.
    pub fn plan_single_tree(&self, n_estimation: usize) -> (r: TreePlan)
        ensures
            r == self.single_tree_plan(n_estimation as int),
    {
        let oblivious: bool = match grow_policy_from_name(&self.grow_policy) {
            GrowPolicy::Oblivious => true,
            _ => false,
        };
        let smooth: bool = is_positive(&self.cat_lookup_smooth);
        let built: RowSet = if self.honest { RowSet::Structure } else { RowSet::Sample };
        let lookups: LookupFit = if self.adaptive_leaf_experts {
            LookupFit::Best(
                if self.honest && n_estimation > 0 {
                    RowSet::Estimation
                } else {
                    built
                },
            )
        } else if smooth && oblivious {
            LookupFit::Single(built)
        } else {
            LookupFit::AsBuilt
        };
        TreePlan {
            leaves: if self.honest { LeafFit::Honest } else { LeafFit::AsBuilt },
            refits_lookups: self.honest && smooth && !self.adaptive_leaf_experts && !oblivious,
            coupled: false,
            lookups,
            joint: false,
            update: if self.honest { ScoreUpdate::Direct } else { ScoreUpdate::LeaveOneOut },
        }
    }

    /// What an ordered round does to a tree: all of it on the sampled rows.
    pub open spec fn ordered_tree_plan(&self) -> TreePlan {
        TreePlan {
            leaves: if self.robust() {
                LeafFit::Robust
            } else {
                LeafFit::Newton
            },
            refits_lookups: false,
            coupled: self.multiclass_coupled_leaves,
            lookups: if self.adaptive_leaf_experts {
                LookupFit::Best(RowSet::Sample)
            } else if positive(self.cat_lookup_smooth) {
                LookupFit::Single(RowSet::Sample)
            } else {
                LookupFit::AsBuilt
            },
            joint: false,
            update: ScoreUpdate::Direct,
        }
    }

    /// What is done to a tree of an ordered round.
    pub fn plan_ordered_tree(&self) -> (r: TreePlan)
        ensures
            r == self.ordered_tree_plan(),
    {
        TreePlan {
            leaves: if self.uses_robust() { LeafFit::Robust } else { LeafFit::Newton },
            refits_lookups: false,
            coupled: self.multiclass_coupled_leaves,
            lookups: if self.adaptive_leaf_experts {
                LookupFit::Best(RowSet::Sample)
            } else if is_positive(&self.cat_lookup_smooth) {
                LookupFit::Single(RowSet::Sample)
            } else {
                LookupFit::AsBuilt
            },
            joint: false,
            update: ScoreUpdate::Direct,
        }
    }

    /// Whether losses on evaluation rows may end a fit.
    pub fn stops_early(&self, has_eval: bool) -> (r: bool)
        ensures
            r == (self.early_stopping_rounds > 0 && has_eval),
    {
        self.early_stopping_rounds > 0 && has_eval
    }

    /// The cap that is set, or one where it is not above zero.
    pub open spec fn longest_step(&self) -> Num {
        if positive(self.newton_decrement_cap) {
            self.newton_decrement_cap
        } else {
            Num { bits: ONE }
        }
    }

    /// The longest step of leaves that are fitted together: as set, or one.
    pub fn decrement_cap(&self) -> (r: Num)
        ensures
            r == self.longest_step(),
    {
        if is_positive(&self.newton_decrement_cap) {
            self.newton_decrement_cap
        } else {
            Num { bits: ONE }
        }
    }

    /// Whether refitted values are blended with those before.
    pub fn blends_refits(&self) -> (r: bool)
        ensures
            r == self.refine_alpha.below(Num { bits: ONE }),
    {
        let one: Num = Num { bits: ONE };
        self.refine_alpha.lt(&one)
    }

    /// What the settings ask of a round.
    pub open spec fn round_plan(&self, n_rounds: int, n_classes: int) -> RoundPlan {
        RoundPlan {
            frequencies: self.prob_avg && n_rounds == 1,
            parallel: self.prob_avg && n_rounds == 1 && self.ncl_lambda.at_most(Num { bits: 0 })
                && self.n_trees_per_round > 1,
            guided: self.guides(n_classes),
            extra_trees: self.extra_trees && self.prob_avg,
        }
    }

    /// What holds for all trees of a round of shared structures.
    pub fn plan_shared_round(&self, n_rounds: usize, n_classes: usize) -> (r: RoundPlan)
        ensures
            r == self.round_plan(n_rounds as int, n_classes as int),
    {
        let zero: Num = Num { bits: 0 };
        RoundPlan {
            frequencies: self.prob_avg && n_rounds == 1,
            parallel: self.prob_avg && n_rounds == 1 && self.ncl_lambda.le(&zero) && self.n_trees_per_round > 1,
            guided: self.adaptive_leaf_experts && is_positive(&self.cat_lookup_smooth) && n_classes >= 3,
            extra_trees: self.extra_trees && self.prob_avg,
        }
    }

    /// The push is set, and another subtree follows.
    pub open spec fn pushes_on(&self, sub: int, n_sub: int) -> bool {
        positive(self.ncl_lambda) && sub + 1 < n_sub
    }

    /// Whether the next subtree is pushed away from subtree `sub`.
    pub fn decorrelates(&self, sub: usize, n_sub: usize) -> (r: bool)
        requires
            sub < n_sub,
        ensures
            r == self.pushes_on(sub as int, n_sub as int),
    {
        is_positive(&self.ncl_lambda) && sub + 1 < n_sub
    }

    /// Whether the marks of a subtree's sample are kept for later refits.
    pub fn keeps_marks(&self, n_words: usize) -> (r: bool)
        ensures
            r == (self.n_refine > 0 && n_words > 0),
    {
        self.n_refine > 0 && n_words > 0
    }

    /// As many leaves as are set, or as the depth has room for.
    pub open spec fn most_leaves(&self) -> usize {
        if self.max_leaves > 0 {
            self.max_leaves
        } else {
            1usize << self.max_depth
        }
    }

    /// The most leaves of a tree: as set, or as many as its depth has room for.
    pub fn leaf_limit(&self) -> (r: usize)
        requires
            self.max_depth < usize::BITS,
        ensures
            r == self.most_leaves(),
    {
        if self.max_leaves > 0 {
            self.max_leaves
        } else {
            1usize << self.max_depth
        }
    }

    /// The kinds of splits that a tree of a round may have: trees for one class
    /// those that are set, as far as their growth has room for them.
    pub open spec fn kinds_of(&self, policy: GrowPolicy, n_outputs: int) -> SplitKinds {
        let wide = n_outputs <= 1 && policy == GrowPolicy::Depthwise;
        SplitKinds {
            interval: wide && self.interval_splits,
            oblique: wide && self.sparse_oblique_splits,
            cat_pair: n_outputs <= 1 && policy != GrowPolicy::Oblivious && self.jit_catpair_enabled,
        }
    }

    pub fn split_kinds(&self, policy: GrowPolicy, n_outputs: usize) -> (r: SplitKinds)
        ensures
            r == self.kinds_of(policy, n_outputs as int),
    {
        let wide: bool = n_outputs <= 1 && match policy {
            GrowPolicy::Depthwise => true,
            _ => false,
        };
        let paired: bool = n_outputs <= 1 && match policy {
            GrowPolicy::Oblivious => false,
            _ => true,
        };
        SplitKinds {
            interval: wide && self.interval_splits,
            oblique: wide && self.sparse_oblique_splits,
            cat_pair: paired && self.jit_catpair_enabled,
        }
    }

    /// None where leaves choose their experts, else the one that is set.
    pub open spec fn smoothing_built(&self) -> Num {
        if self.adaptive_leaf_experts {
            Num { bits: 0 }
        } else {
            self.cat_lookup_smooth
        }
    }

    /// The lookup smoothing that a tree for one class is built with.
    pub fn build_smoothing(&self) -> (r: Num)
        ensures
            r == self.smoothing_built(),
    {
        if self.adaptive_leaf_experts {
            Num { bits: 0 }
        } else {
            self.cat_lookup_smooth
        }
    }

    /// Whether splits are scored by what leaf experts make of them.
    pub fn scores_experts(&self) -> (r: bool)
        ensures
            r == (self.adaptive_leaf_experts || self.leaf_linear || positive(self.cat_lookup_smooth)),
    {
        self.adaptive_leaf_experts || self.leaf_linear || is_positive(&self.cat_lookup_smooth)
    }
}

/// Whether a leaf's value without a row is taken anew: enough is left of its
/// second derivatives and the penalty.
pub fn leaf_survives(denominator: &Num) -> (r: bool)
    ensures
        r == (Num { bits: E_MINUS_10 }).below(*denominator),
{
    let least: Num = Num { bits: E_MINUS_10 };
    least.lt(denominator)
}

/// The square of the step is finite and above that of the cap.
pub open spec fn overshoots(square: Num, cap_square: Num) -> bool {
    square.finite() && cap_square.below(square)
}

/// Whether a step is too long: its square is finite and above the square of the cap.
pub fn step_overshoots(square: &Num, cap_square: &Num) -> (r: bool)
    ensures
        r == overshoots(*square, *cap_square),
{
    square.is_finite() && cap_square.lt(square)
}

/// The trees of a round leave one bucket out after another, each for all its subtrees.
pub open spec fn bucket_left_out(t: int, n_sub: int) -> int {
    t / n_sub
}

/// The bucket that tree `t` of an ordered round leaves out.
pub fn excluded_bucket(t: usize, n_sub: usize, n_buckets: usize) -> (r: usize)
    requires
        n_sub > 0,
        t < n_sub * n_buckets,
    ensures
        r == bucket_left_out(t as int, n_sub as int),
        r < n_buckets,
{
    proof {
        vstd::arithmetic::div_mod::lemma_fundamental_div_mod(t as int, n_sub as int);
        let q = t as int / n_sub as int;
        assert(q < n_buckets) by (nonlinear_arith)
            requires
                t == n_sub * q + t as int % n_sub as int,
                0 <= t as int % n_sub as int,
                t < n_sub * n_buckets,
                n_sub > 0,
        ;
    }
    t / n_sub
}

/// The number of trees at the best round.
pub fn best_trees(best_round: usize, n_classes: usize, trees_per_class: usize) -> (r: usize)
    requires
        best_round * (n_classes * trees_per_class) <= usize::MAX,
        n_classes * trees_per_class <= usize::MAX,
    ensures
        r == best_round * (n_classes * trees_per_class),
{
    best_round * (n_classes * trees_per_class)
}

/// Where the tree of class `k` and subtree `sub` stands among the trees of a
/// round that ends the list of `n_trees`.
pub open spec fn round_position(n_trees: int, n_classes: int, n_sub: int, k: int, sub: int) -> int {
    n_trees - n_classes * n_sub + k * n_sub + sub
}

pub fn tree_of_round(n_trees: usize, n_classes: usize, n_sub: usize, k: usize, sub: usize) -> (r: usize)
    requires
        n_classes * n_sub <= n_trees,
        k < n_classes,
        sub < n_sub,
    ensures
        r == round_position(n_trees as int, n_classes as int, n_sub as int, k as int, sub as int),
        r < n_trees,
{
    assert(k * n_sub + sub < n_classes * n_sub) by (nonlinear_arith)
        requires
            k < n_classes,
            sub < n_sub,
    ;
    assert(k * n_sub >= 0) by (nonlinear_arith);
    n_trees - n_classes * n_sub + (k * n_sub + sub)
}

/// The trees of a round are told apart by class and subtree, and each serves
/// its class when rounds of equal size came before.
pub proof fn law_round_positions(rounds: int, n_classes: int, n_sub: int, k: int, sub: int)
    requires
        rounds >= 1,
        0 <= k < n_classes,
        0 <= sub < n_sub,
    ensures
        ({
            let n_trees = rounds * (n_classes * n_sub);
            crate::multiclass::class_of_tree(round_position(n_trees, n_classes, n_sub, k, sub), n_sub, n_classes) == k
        }),
{
    let n_trees = rounds * (n_classes * n_sub);
    crate::multiclass::law_tree_layout(rounds - 1, k, sub, n_sub, n_classes);
    assert(round_position(n_trees, n_classes, n_sub, k, sub) == crate::multiclass::tree_position(
        rounds - 1,
        k,
        sub,
        n_sub,
        n_classes,
    )) by (nonlinear_arith)
        requires
            n_trees == rounds * (n_classes * n_sub),
    ;
}

/// Leaves of shared trees are fitted on the estimation rows exactly in honest trees, and
/// robustly exactly where a setting asks for it; scores leave a row out of its own leaf
/// exactly where leaves are neither honest nor coupled.
pub proof fn law_shared_leaves_follow_settings(s: Settings, n_classes: int)
    ensures
        ({
            let plan = s.shared_tree_plan(n_classes);
            let robust = s.leaf_median || positive(s.leaf_trim_pct) || positive(s.leaf_median_blend) || positive(
                s.leaf_mad_clip,
            ) || positive(s.leaf_adaptive_blend_kappa);
            &&& plan.leaves == LeafFit::Honest <==> s.honest
            &&& plan.leaves == LeafFit::Robust <==> !s.honest && robust
            &&& plan.leaves == LeafFit::Newton <==> !s.honest && !robust
            &&& plan.coupled <==> s.multiclass_coupled_leaves && !s.prob_avg
            &&& plan.update == ScoreUpdate::LeaveOneOut <==> !s.honest && !plan.coupled
            &&& plan.joint <==> plan.coupled && s.multiclass_joint_cll && s.guides(n_classes)
            &&& plan.refits_lookups <==> s.honest && plan.lookups == LookupFit::Single(RowSet::Structure)
        }),
{
}

/// Lookups of shared trees are chosen leaf by leaf exactly where leaves have experts, for
/// all classes together from three classes on; they are fitted on rows that the splits
/// were not found on in honest trees, and on all sampled rows else.
pub proof fn law_shared_lookups_follow_settings(s: Settings, n_classes: int)
    ensures
        ({
            let plan = s.shared_tree_plan(n_classes);
            let guided = s.adaptive_leaf_experts && n_classes >= 3 && positive(s.cat_lookup_smooth);
            &&& guided ==> plan.lookups == LookupFit::Guided(
                if s.honest {
                    RowSet::Estimation
                } else {
                    RowSet::Sample
                },
            )
            &&& s.adaptive_leaf_experts && !guided ==> plan.lookups == LookupFit::Best(
                if s.honest {
                    RowSet::Estimation
                } else {
                    RowSet::Sample
                },
            )
            &&& !s.adaptive_leaf_experts && positive(s.cat_lookup_smooth) ==> plan.lookups == LookupFit::Single(
                if s.honest {
                    RowSet::Structure
                } else {
                    RowSet::Sample
                },
            )
            &&& !s.adaptive_leaf_experts && !positive(s.cat_lookup_smooth) ==> plan.lookups == LookupFit::AsBuilt
            &&& s.round_plan(1, n_classes).guided == guided
        }),
{
}

/// A tree for one class keeps its leaves unless it is honest, and never shares what is
/// fitted; its rows are left out of their own leaves unless others fitted them. Only an
/// oblivious one gets single lookups afterwards, and only the others refit those they
/// were built with.
pub proof fn law_single_trees_follow_settings(s: Settings, n_estimation: int)
    ensures
        ({
            let plan = s.single_tree_plan(n_estimation);
            let oblivious = policy_named(s.grow_policy@) == GrowPolicy::Oblivious;
            let smooth = positive(s.cat_lookup_smooth);
            &&& plan.leaves == LeafFit::Honest <==> s.honest
            &&& plan.leaves == LeafFit::AsBuilt <==> !s.honest
            &&& plan.update == ScoreUpdate::Direct <==> s.honest
            &&& !plan.coupled && !plan.joint
            &&& plan.refits_lookups <==> s.honest && smooth && !s.adaptive_leaf_experts && !oblivious
            &&& plan.lookups == LookupFit::AsBuilt <==> !s.adaptive_leaf_experts && !(smooth && oblivious)
            &&& s.adaptive_leaf_experts ==> plan.lookups == LookupFit::Best(
                if !s.honest {
                    RowSet::Sample
                } else if n_estimation > 0 {
                    RowSet::Estimation
                } else {
                    RowSet::Structure
                },
            )
            &&& !s.adaptive_leaf_experts && smooth && oblivious ==> plan.lookups == LookupFit::Single(
                if s.honest {
                    RowSet::Structure
                } else {
                    RowSet::Sample
                },
            )
        }),
{
}

/// An ordered round treats a tree as a shared one of two classes that is neither honest
/// nor averaged, but adds it to the scores as it is.
pub proof fn law_ordered_trees_are_shared_ones(s: Settings)
    requires
        !s.honest,
        !s.prob_avg,
    ensures
        s.ordered_tree_plan() == (TreePlan { update: ScoreUpdate::Direct, ..s.shared_tree_plan(2) }),
{
}

/// Leaves hold class frequencies exactly where probabilities are averaged over one round;
/// subtrees are built side by side exactly where, besides, there are several that do not
/// push each other away.
pub proof fn law_rounds_follow_settings(s: Settings, n_rounds: int, n_classes: int, sub: int, n_sub: int)
    requires
        0 <= sub < n_sub,
        s.ncl_lambda.finite(),
    ensures
        ({
            let plan = s.round_plan(n_rounds, n_classes);
            &&& plan.frequencies <==> s.prob_avg && n_rounds == 1
            &&& plan.parallel <==> plan.frequencies && s.n_trees_per_round >= 2 && s.ncl_lambda.scaled() <= 0
            &&& plan.extra_trees <==> s.prob_avg && s.extra_trees
            &&& s.pushes_on(sub, n_sub) <==> s.ncl_lambda.scaled() > 0 && sub != n_sub - 1
            &&& plan.parallel ==> !s.pushes_on(sub, n_sub)
        }),
{
    let zero = Num { bits: 0 };
    assert(crate::num::scaled_magnitude(0) == 0);
    assert(zero.scaled() == 0);
    crate::num::law_key_orders_values(s.ncl_lambda, zero);
    crate::num::law_key_orders_values(zero, s.ncl_lambda);
}

/// Steps and leaves have the limits that are set: a cap above zero is kept as it is and
/// one takes the place of any other; without a number of leaves every level doubles them.
pub proof fn law_limits_are_as_set(s: Settings, deeper: Settings)
    requires
        s.max_depth < usize::BITS - 1,
        deeper.max_depth == s.max_depth + 1,
        deeper.max_leaves == s.max_leaves,
    ensures
        0 < s.newton_decrement_cap.bits <= 0x7ff0_0000_0000_0000 ==> s.longest_step() == s.newton_decrement_cap,
        !(0 < s.newton_decrement_cap.bits <= 0x7ff0_0000_0000_0000) ==> s.longest_step().bits == 0x3ff0_0000_0000_0000,
        s.max_leaves > 0 ==> s.most_leaves() == s.max_leaves,
        s.max_leaves == 0 ==> deeper.most_leaves() == 2 * s.most_leaves(),
        s.max_leaves == 0 && s.max_depth == 0 ==> s.most_leaves() == 1,
        s.adaptive_leaf_experts ==> s.smoothing_built().bits == 0,
        !s.adaptive_leaf_experts ==> s.smoothing_built() == s.cat_lookup_smooth,
{
    let d: usize = s.max_depth;
    let e: usize = deeper.max_depth;
    assert(e == d + 1 && d < usize::BITS - 1 ==> 1usize << e == 2 * (1usize << d)) by (bit_vector);
    assert(1usize << 0 == 1) by (bit_vector);
}

/// Splits of the wider kinds are looked for only in trees for one class and only where
/// they are set: between bounds and on combinations in trees that grow by depth, and on
/// pairs of categories in all but oblivious ones.
pub proof fn law_wider_splits_need_room(s: Settings, policy: GrowPolicy, n_outputs: int)
    ensures
        ({
            let kinds = s.kinds_of(policy, n_outputs);
            &&& n_outputs > 1 ==> !kinds.interval && !kinds.oblique && !kinds.cat_pair
            &&& n_outputs <= 1 && policy == GrowPolicy::Depthwise ==> kinds.interval == s.interval_splits
                && kinds.oblique == s.sparse_oblique_splits && kinds.cat_pair == s.jit_catpair_enabled
            &&& n_outputs <= 1 && policy == GrowPolicy::Leafwise ==> !kinds.interval && !kinds.oblique
                && kinds.cat_pair == s.jit_catpair_enabled
            &&& policy == GrowPolicy::Oblivious ==> !kinds.interval && !kinds.oblique && !kinds.cat_pair
        }),
{
}

/// The trees of the last round stand at the end of the list, class by class: one position
/// for each, and the last of them is the last tree.
pub proof fn law_last_round_stands_last(n_trees: int, n_classes: int, n_sub: int, k: int, sub: int)
    requires
        0 <= k < n_classes,
        0 <= sub < n_sub,
    ensures
        n_trees - n_classes * n_sub <= round_position(n_trees, n_classes, n_sub, k, sub) < n_trees,
        round_position(n_trees, n_classes, n_sub, n_classes - 1, n_sub - 1) == n_trees - 1,
        sub + 1 < n_sub ==> round_position(n_trees, n_classes, n_sub, k, sub + 1) == round_position(
            n_trees,
            n_classes,
            n_sub,
            k,
            sub,
        ) + 1,
        k + 1 < n_classes ==> round_position(n_trees, n_classes, n_sub, k + 1, 0) == round_position(
            n_trees,
            n_classes,
            n_sub,
            k,
            n_sub - 1,
        ) + 1,
{
    assert(k * n_sub + sub < n_classes * n_sub && k * n_sub >= 0) by (nonlinear_arith)
        requires
            0 <= k < n_classes,
            0 <= sub < n_sub,
    ;
    assert((n_classes - 1) * n_sub == n_classes * n_sub - n_sub) by (nonlinear_arith);
    assert((k + 1) * n_sub == k * n_sub + n_sub) by (nonlinear_arith);
}

/// A tree of an ordered round leaves out the bucket that stands first in its place: subtree
/// `sub` for bucket `b` leaves out `b`; and a step is cut exactly where it is longer than its
/// cap.
pub proof fn law_ordered_trees_leave_their_bucket_out(b: int, sub: int, n_sub: int, square: Num, cap: Num)
    requires
        0 <= b,
        0 <= sub < n_sub,
        square.finite(),
        cap.finite(),
    ensures
        bucket_left_out(b * n_sub + sub, n_sub) == b,
        overshoots(square, cap) <==> square.scaled() > cap.scaled(),
{
    vstd::arithmetic::div_mod::lemma_fundamental_div_mod_converse(b * n_sub + sub, n_sub, b, sub);
    crate::num::law_key_orders_values(cap, square);
}

} // verus!
