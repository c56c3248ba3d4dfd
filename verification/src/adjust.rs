//! Adjustments of a tree's leaves: which leaves they touch and when they apply.

use crate::bits::{E_MINUS_12, FOUR, ONE, THREE, TWO};
use crate::num::Num;
use crate::select::{is_positive, positive};
use crate::task::Task;
use crate::tree::{DecisionTree, NO_FEATURE};
use vstd::prelude::*;

verus! {

/// The shrinkage of leaves towards zero by their row counts: none without
/// ordered boosting or for averaged probabilities, and otherwise by task.
pub open spec fn leaf_tau(ordered_boost: bool, prob_avg: bool, task: Task) -> Num {
    if !ordered_boost || prob_avg {
        Num { bits: 0 }
    } else {
        match task {
            Task::Multiclass => Num { bits: FOUR },
            Task::Regression | Task::Poisson => Num { bits: TWO },
            _ => Num { bits: THREE },
        }
    }
}

pub fn posterior_leaf_tau(ordered_boost: bool, prob_avg: bool, task: Task) -> (r: Num)
    ensures
        r == leaf_tau(ordered_boost, prob_avg, task),
{
    if !ordered_boost || prob_avg {
        return Num { bits: 0 };
    }
    match task {
        Task::Multiclass => Num { bits: FOUR },
        Task::Regression => Num { bits: TWO },
        Task::Poisson => Num { bits: TWO },
        _ => Num { bits: THREE },
    }
}

/// The adjustments that a finished tree of a class goes through, in this order.
#[derive(Clone, Copy, PartialEq, Eq, Structural, Debug)]
pub struct FinishSteps {
    /// Scale by the decayed learning rate.
    pub decay: bool,
    /// Hold values to the largest step.
    pub clip: bool,
    /// Divide by the number of subtrees.
    pub average: bool,
    /// Shrink by row counts.
    pub shrink: bool,
    /// Shrink towards the parents.
    pub hierarchical: bool,
}

/// The adjustments that the settings ask for.
pub open spec fn finish_steps(
    lr_decay: Num,
    n_rounds: int,
    max_delta_step: Num,
    n_sub: int,
    tau: Num,
    hierarchical: Num,
) -> FinishSteps {
    FinishSteps {
        decay: lr_decay.below(Num { bits: ONE }) && n_rounds > 1,
        clip: positive(max_delta_step),
        average: n_sub > 1,
        shrink: positive(tau),
        hierarchical: !hierarchical.at_most(Num { bits: 0 }),
    }
}

/// The adjustments of a finished tree.
pub fn finalize_multiclass_tree(
    lr_decay: &Num,
    n_rounds: usize,
    max_delta_step: &Num,
    n_sub: usize,
    tau: &Num,
    hierarchical: &Num,
) -> (r: FinishSteps)
    ensures
        r == finish_steps(*lr_decay, n_rounds as int, *max_delta_step, n_sub as int, *tau, *hierarchical),
{
    let one: Num = Num { bits: ONE };
    let zero: Num = Num { bits: 0 };
    FinishSteps {
        decay: lr_decay.lt(&one) && n_rounds > 1,
        clip: is_positive(max_delta_step),
        average: n_sub > 1,
        shrink: is_positive(tau),
        hierarchical: !hierarchical.le(&zero),
    }
}

/// The values held to the range from `-limit` to `limit`.
pub open spec fn clipped(values: Seq<Num>, limit: Num) -> Seq<Num> {
    Seq::new(values.len(), |i: int| values[i].clamped(limit.opposite(), limit))
}

/// Holds leaf values to the range from `-limit` to `limit`.
pub fn clip_values(values: &mut Vec<Num>, limit: &Num)
    requires
        positive(*limit),
    ensures
        final(values)@ == clipped(old(values)@, *limit),
{
    let low: Num = limit.negate();
    let before = Ghost(values@);
    let mut i: usize = 0;
    while i < values.len()
        invariant
            i <= values@.len(),
            values@.len() == before@.len(),
            low == limit.opposite(),
            low.at_most(*limit),
            forall|k: int| 0 <= k < i ==> #[trigger] values@[k] == before@[k].clamped(low, *limit),
            forall|k: int| i <= k < values@.len() ==> #[trigger] values@[k] == before@[k],
        decreases values@.len() - i,
    {
        let v: Num = values[i];
        values.set(i, v.clamp(&low, limit));
        i = i + 1;
    }
    assert(values@ =~= clipped(before@, *limit));
}

/// Whether a node's two children are both leaves.
pub open spec fn has_sibling_leaves(tree: DecisionTree, node: int) -> bool {
    &&& !tree.is_leaf(node)
    &&& tree.left_children@[node] < tree.size()
    &&& tree.right_children@[node] < tree.size()
    &&& tree.is_leaf(tree.left_children@[node] as int)
    &&& tree.is_leaf(tree.right_children@[node] as int)
}

/// The children of the nodes below `n` whose children are both leaves.
pub open spec fn sibling_pairs(tree: DecisionTree, n: nat) -> Seq<(usize, usize)>
    decreases n,
{
    if n == 0 {
        Seq::empty()
    } else if has_sibling_leaves(tree, n - 1) {
        sibling_pairs(tree, (n - 1) as nat).push(
            (tree.left_children@[n - 1] as usize, tree.right_children@[n - 1] as usize),
        )
    } else {
        sibling_pairs(tree, (n - 1) as nat)
    }
}

/// The pairs of sibling leaves whose values are smoothed towards each other;
/// none where smoothing is off.
pub fn apply_hss(tree: &DecisionTree, smooth: &Num) -> (pairs: Vec<(usize, usize)>)
    requires
        tree.well_formed(),
    ensures
        smooth.at_most(Num { bits: 0 }) ==> pairs@.len() == 0,
        !smooth.at_most(Num { bits: 0 }) ==> pairs@ == sibling_pairs(*tree, tree.size() as nat),
{
    let zero: Num = Num { bits: 0 };
    let mut pairs: Vec<(usize, usize)> = Vec::new();
    if smooth.le(&zero) {
        return pairs;
    }
    let n: usize = tree.split_features.len();
    let mut node: usize = 0;
    while node < n
        invariant
            node <= n,
            n == tree.size(),
            tree.well_formed(),
            pairs@ == sibling_pairs(*tree, node as nat),
        decreases n - node,
    {
        if tree.split_features[node] != NO_FEATURE {
            assert(!tree.is_leaf(node as int));
            let left: usize = tree.left_children[node] as usize;
            let right: usize = tree.right_children[node] as usize;
            if tree.split_features[left] == NO_FEATURE && tree.split_features[right] == NO_FEATURE {
                pairs.push((left, right));
            }
        }
        node = node + 1;
    }
    pairs
}

/// The shrinkage is on, and the trees suffice to tell the spread.
pub open spec fn spread_told(enabled: bool, n_trees: int, min_trees: int) -> bool {
    enabled && n_trees >= min_trees
}

/// Whether leaves are shrunk towards the spread of earlier leaves: it is on,
/// and there are trees enough to tell.
pub fn eblp_applies(enabled: bool, n_trees: usize, min_trees: usize) -> (r: bool)
    ensures
        r == spread_told(enabled, n_trees as int, min_trees as int),
{
    enabled && n_trees >= min_trees
}

/// The factor of that shrinkage.
#[derive(Clone, Copy, PartialEq, Eq, Structural, Debug)]
pub enum SpreadFactor {
    /// No shrinkage.
    One,
    /// The spread over itself plus one.
    Ratio,
}

/// No shrinkage where it is off or where fewer than four values are finite.
pub open spec fn spread_factor(applies: bool, n_finite: int) -> SpreadFactor {
    if !applies || n_finite < 4 {
        SpreadFactor::One
    } else {
        SpreadFactor::Ratio
    }
}

/// The factor by the number of finite leaf values: none where the shrinkage is
/// off or the values are too few to tell their spread.
pub fn eblp_shrinkage_factor(applies: bool, n_finite: usize) -> (r: SpreadFactor)
    ensures
        r == spread_factor(applies, n_finite as int),
{
    if !applies || n_finite < 4 {
        SpreadFactor::One
    } else {
        SpreadFactor::Ratio
    }
}

/// The strength is not zero or below, and the task has two classes.
pub open spec fn signs_shrink(gamma: Num, task: Task) -> bool {
    !gamma.at_most(Num { bits: 0 }) && task == Task::Binary
}

/// Whether sign confidence shrinks a model's leaves.
pub fn scs_applies(gamma: &Num, task: Task) -> (r: bool)
    ensures
        r == signs_shrink(*gamma, task),
{
    let zero: Num = Num { bits: 0 };
    let binary: bool = match task {
        Task::Binary => true,
        _ => false,
    };
    !gamma.le(&zero) && binary
}

/// The cap is not zero or below, and there are values and sums to hold to it.
pub open spec fn region_holds(cap: Num, n_values: int, n_sums: int) -> bool {
    !cap.at_most(Num { bits: 0 }) && n_values > 0 && n_sums > 0
}

/// Whether steps are held to a trust region at all.
pub fn trust_region_applies(cap: &Num, n_values: usize, n_sums: usize) -> (r: bool)
    ensures
        r == region_holds(*cap, n_values as int, n_sums as int),
{
    let zero: Num = Num { bits: 0 };
    !cap.le(&zero) && n_values > 0 && n_sums > 0
}

/// The mass is not negligible, and the size exceeds a limit above zero.
pub open spec fn leaves_region(mass: Num, size: Num, limit: Num) -> bool {
    !mass.at_most(Num { bits: E_MINUS_12 }) && !size.at_most(limit) && !limit.at_most(Num { bits: 0 })
}

/// Whether a node's value is cut back: its mass is not negligible, and its size
/// exceeds a limit above zero.
pub fn exceeds_trust_region(mass: &Num, size: &Num, limit: &Num) -> (r: bool)
    ensures
        r == leaves_region(*mass, *size, *limit),
{
    let tiny: Num = Num { bits: E_MINUS_12 };
    let zero: Num = Num { bits: 0 };
    !mass.le(&tiny) && !size.le(limit) && !limit.le(&zero)
}

/// The value of node `node` for class `k` once the jointly fitted values are
/// installed: those of the nodes that a row passed.
pub open spec fn class_value(values: Seq<Num>, fitted: Seq<Num>, counts: Seq<u32>, n_classes: int, k: int, node: int) -> Num {
    if counts[node] > 0 {
        fitted[node * n_classes + k]
    } else {
        values[node]
    }
}

/// Installs the jointly fitted values of class `k`.
pub fn install_class_values(values: &mut Vec<Num>, fitted: &Vec<Num>, counts: &Vec<u32>, n_classes: usize, k: usize)
    requires
        counts@.len() == old(values)@.len(),
        fitted@.len() == old(values)@.len() * n_classes,
        k < n_classes,
    ensures
        final(values)@ == Seq::new(
            old(values)@.len(),
            |node: int| class_value(old(values)@, fitted@, counts@, n_classes as int, k as int, node),
        ),
{
    let before = Ghost(values@);
    let mut node: usize = 0;
    while node < values.len()
        invariant
            node <= values@.len(),
            values@.len() == before@.len(),
            counts@.len() == before@.len(),
            fitted@.len() == before@.len() * n_classes,
            k < n_classes,
            forall|m: int|
                0 <= m < node ==> #[trigger] values@[m] == class_value(
                    before@,
                    fitted@,
                    counts@,
                    n_classes as int,
                    k as int,
                    m,
                ),
            forall|m: int| node <= m < values@.len() ==> #[trigger] values@[m] == before@[m],
        decreases values@.len() - node,
    {
        if counts[node] > 0 {
            proof {
                crate::tree::lemma_cell(node as int, k as int, before@.len() as int, n_classes as int);
                assert(fitted.len() == fitted@.len());
            }
            values.set(node, fitted[node * n_classes + k]);
        }
        node = node + 1;
    }
    assert(values@ =~= Seq::new(
        before@.len(),
        |node: int| class_value(before@, fitted@, counts@, n_classes as int, k as int, node),
    ));
}

/// Leaves are shrunk by their row counts only with ordered boosting and without
/// averaged probabilities: by four with several classes, by two where the target is
/// a number or a count, and by three else.
pub proof fn law_leaf_shrinkage_follows_the_task(ordered_boost: bool, prob_avg: bool, task: Task)
    ensures
        leaf_tau(ordered_boost, prob_avg, task).bits == if ordered_boost && !prob_avg {
            if task == Task::Multiclass {
                0x4010_0000_0000_0000u64
            } else if task == Task::Regression || task == Task::Poisson {
                0x4000_0000_0000_0000u64
            } else {
                0x4008_0000_0000_0000u64
            }
        } else {
            0u64
        },
{
}

/// Every adjustment of a finished tree is made exactly where its own setting asks for
/// it: a decay below one over several rounds, a largest step, several subtrees to
/// average, a shrinkage and a smoothing above zero.
pub proof fn law_adjustments_are_made_as_set(
    lr_decay: Num,
    n_rounds: int,
    max_delta_step: Num,
    n_sub: int,
    tau: Num,
    hierarchical: Num,
)
    requires
        lr_decay.finite(),
        max_delta_step.finite(),
        tau.finite(),
        hierarchical.finite(),
    ensures
        ({
            let steps = finish_steps(lr_decay, n_rounds, max_delta_step, n_sub, tau, hierarchical);
            &&& steps.decay <==> n_rounds >= 2 && lr_decay.scaled() < (Num { bits: 0x3ff0_0000_0000_0000 }).scaled()
            &&& steps.clip <==> max_delta_step.scaled() > 0
            &&& steps.average <==> n_sub >= 2
            &&& steps.shrink <==> tau.scaled() > 0
            &&& steps.hierarchical <==> hierarchical.scaled() > 0
        }),
{
    let zero = Num { bits: 0 };
    assert(crate::num::scaled_magnitude(0) == 0);
    assert(zero.scaled() == 0);
    crate::num::law_key_orders_values(lr_decay, Num { bits: ONE });
    crate::num::law_key_orders_values(zero, max_delta_step);
    crate::num::law_key_orders_values(zero, tau);
    crate::num::law_key_orders_values(hierarchical, zero);
}

/// A clipped value is no larger than the limit on either side; one within the limit is
/// kept as it is, and one beyond it becomes the limit on its side.
pub proof fn law_clipped_values_keep_the_limit(values: Seq<Num>, limit: Num, i: int)
    requires
        limit.finite(),
        limit.scaled() > 0,
        0 <= i < values.len(),
        values[i].finite(),
    ensures
        clipped(values, limit).len() == values.len(),
        -limit.scaled() <= clipped(values, limit)[i].scaled() <= limit.scaled(),
        -limit.scaled() <= values[i].scaled() <= limit.scaled() ==> clipped(values, limit)[i] == values[i],
        values[i].scaled() > limit.scaled() ==> clipped(values, limit)[i].scaled() == limit.scaled(),
        values[i].scaled() < -limit.scaled() ==> clipped(values, limit)[i].scaled() == -limit.scaled(),
{
    let low = limit.opposite();
    let zero = Num { bits: 0 };
    assert(crate::num::scaled_magnitude(0) == 0);
    crate::num::law_key_orders_values(zero, limit);
    assert(low.magnitude() == limit.magnitude());
    assert(low.scaled() == -limit.scaled());
    crate::num::law_key_orders_values(values[i], low);
    crate::num::law_key_orders_values(limit, values[i]);
}

/// Leaves are smoothed in pairs: those of every split whose two children are leaves, and
/// of no other.
pub proof fn law_sibling_leaves_are_paired(tree: DecisionTree, n: nat, l: usize, r: usize)
    ensures
        sibling_pairs(tree, n).contains((l, r)) <==> exists|node: int|
            0 <= node < n && #[trigger] tree.split_features@[node] != u32::MAX && tree.left_children@[node] == l
                && tree.right_children@[node] == r && l < tree.size() && r < tree.size() && tree.split_features@[l as int]
                == u32::MAX && tree.split_features@[r as int] == u32::MAX,
    decreases n,
{
    if n > 0 {
        let rest = sibling_pairs(tree, (n - 1) as nat);
        let all = sibling_pairs(tree, n);
        law_sibling_leaves_are_paired(tree, (n - 1) as nat, l, r);
        if has_sibling_leaves(tree, n - 1) {
            let pair = (tree.left_children@[n - 1] as usize, tree.right_children@[n - 1] as usize);
            assert(all == rest.push(pair));
            if rest.contains((l, r)) {
                let k = choose|k: int| 0 <= k < rest.len() && rest[k] == (l, r);
                assert(all[k] == (l, r));
            }
            if pair == (l, r) {
                assert(all[all.len() - 1] == (l, r));
                assert(tree.split_features@[n - 1] != u32::MAX);
            }
        }
    }
}

/// Leaf values shrink towards their spread only where it can be told: with the setting
/// on, trees enough and four finite values or more.
pub proof fn law_spread_is_told_first(enabled: bool, n_trees: int, min_trees: int, n_finite: int)
    ensures
        spread_factor(spread_told(enabled, n_trees, min_trees), n_finite) == SpreadFactor::Ratio <==> enabled
            && min_trees <= n_trees && n_finite >= 4,
{
}

/// Signs shrink leaves in binary models alone, at a strength above zero, and steps are
/// held to a region exactly where its cap lies above zero: those of some mass that lie
/// beyond it.
pub proof fn law_caps_above_zero_hold(
    gamma: Num,
    task: Task,
    cap: Num,
    n_values: int,
    n_sums: int,
    mass: Num,
    size: Num,
)
    requires
        gamma.finite(),
        cap.finite(),
        mass.finite(),
        size.finite(),
        0 <= n_values,
        0 <= n_sums,
    ensures
        signs_shrink(gamma, task) <==> gamma.scaled() > 0 && task == Task::Binary,
        region_holds(cap, n_values, n_sums) <==> cap.scaled() > 0 && n_values != 0 && n_sums != 0,
        leaves_region(mass, size, cap) <==> mass.scaled() > (Num { bits: 0x3d71_9799_812d_ea11 }).scaled()
            && size.scaled() > cap.scaled() && cap.scaled() > 0,
{
    let zero = Num { bits: 0 };
    assert(crate::num::scaled_magnitude(0) == 0);
    assert(zero.scaled() == 0);
    crate::num::law_key_orders_values(gamma, zero);
    crate::num::law_key_orders_values(cap, zero);
    crate::num::law_key_orders_values(mass, Num { bits: E_MINUS_12 });
    crate::num::law_key_orders_values(size, cap);
}

/// A class's tree takes its own column of the fitted values, at every node that has rows,
/// and keeps its value at every other.
pub proof fn law_classes_take_their_values(
    values: Seq<Num>,
    fitted: Seq<Num>,
    counts: Seq<u32>,
    n_classes: int,
    k: int,
    node: int,
)
    requires
        0 <= node < counts.len(),
    ensures
        counts[node] == 0 ==> class_value(values, fitted, counts, n_classes, k, node) == values[node],
        counts[node] != 0 ==> class_value(values, fitted, counts, n_classes, k, node) == fitted[node * n_classes + k],
{
}

} // verus!
