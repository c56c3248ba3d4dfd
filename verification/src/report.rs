//! What a trained model tells about itself, and what may be changed of it
//! after training.

use crate::bits::TEN;
use crate::errors::ModelError;
use crate::model::{GTBoostModel, Settings, Trained, MODEL_FORMAT_VERSION};
use crate::multiclass::GrowPolicy;
use crate::num::Num;
use crate::predict::{BinLayout, PredictKind, PredictPlan, TreeTraits};
use crate::rounds::SplitKinds;
use crate::tree::{BinnedData, CatLookup, DecisionTree, NO_FEATURE};
use vstd::prelude::*;

verus! {

/// The kinds of splits.
#[derive(Clone, Copy, PartialEq, Eq, Structural, Debug)]
pub enum SplitOp {
    Axis,
    Categorical,
    Interval,
    Oblique,
    CatPair,
}

/// The kinds of lookup tables in leaves.
#[derive(Clone, Copy, PartialEq, Eq, Structural, Debug)]
pub enum LookupOp {
    Single,
    Pair,
    Triple,
    Numeric,
}

/// Whether an entry is set; one beyond the list is not.
pub open spec fn flag_at(flags: Seq<bool>, i: int) -> bool {
    i < flags.len() && flags[i]
}

fn has_flag(flags: &Vec<bool>, i: usize) -> (r: bool)
    ensures
        r == flag_at(flags@, i as int),
{
    i < flags.len() && flags[i]
}

/// The kind of a node's split, nothing for a leaf. A split by categories on a
/// feature that is none is an interval.
pub open spec fn split_op(tree: DecisionTree, node: int, data: BinnedData) -> Option<SplitOp> {
    let feat = tree.split_features@[node];
    if feat == NO_FEATURE {
        None
    } else if flag_at(tree.is_oblique_split@, node) {
        Some(SplitOp::Oblique)
    } else if flag_at(tree.is_cat_pair@, node) {
        Some(SplitOp::CatPair)
    } else if flag_at(tree.is_cat_split@, node) {
        if feat < data.is_categorical@.len() && !data.is_categorical@[feat as int] {
            Some(SplitOp::Interval)
        } else {
            Some(SplitOp::Categorical)
        }
    } else {
        Some(SplitOp::Axis)
    }
}

fn op_of(tree: &DecisionTree, node: usize, data: &BinnedData) -> (r: Option<SplitOp>)
    requires
        node < tree.split_features@.len(),
    ensures
        r == split_op(*tree, node as int, *data),
{
    let feat: u32 = tree.split_features[node];
    if feat == NO_FEATURE {
        None
    } else if has_flag(&tree.is_oblique_split, node) {
        Some(SplitOp::Oblique)
    } else if has_flag(&tree.is_cat_pair, node) {
        Some(SplitOp::CatPair)
    } else if has_flag(&tree.is_cat_split, node) {
        if (feat as usize) < data.is_categorical.len() && !data.is_categorical[feat as usize] {
            Some(SplitOp::Interval)
        } else {
            Some(SplitOp::Categorical)
        }
    } else {
        Some(SplitOp::Axis)
    }
}

/// The splits of a kind among the first `n` nodes of a tree.
pub open spec fn ops_in_tree(tree: DecisionTree, data: BinnedData, op: SplitOp, n: nat) -> nat
    decreases n,
{
    if n == 0 {
        0
    } else {
        ops_in_tree(tree, data, op, (n - 1) as nat) + if split_op(tree, n - 1, data) == Some(op) {
            1nat
        } else {
            0
        }
    }
}

/// The splits of a kind in trees.
pub open spec fn ops_in_trees(trees: Seq<DecisionTree>, data: BinnedData, op: SplitOp) -> nat
    decreases trees.len(),
{
    if trees.len() == 0 {
        0
    } else {
        ops_in_trees(trees.drop_last(), data, op) + ops_in_tree(
            trees.last(),
            data,
            op,
            trees.last().split_features@.len(),
        )
    }
}

/// The nodes of trees.
pub open spec fn nodes_in_trees(trees: Seq<DecisionTree>) -> nat
    decreases trees.len(),
{
    if trees.len() == 0 {
        0
    } else {
        nodes_in_trees(trees.drop_last()) + trees.last().split_features@.len()
    }
}

proof fn lemma_nodes_grow(trees: Seq<DecisionTree>, t: int)
    requires
        0 <= t < trees.len(),
    ensures
        nodes_in_trees(trees.take(t)) + trees[t].split_features@.len() == nodes_in_trees(trees.take(t + 1)),
        nodes_in_trees(trees.take(t + 1)) <= nodes_in_trees(trees),
    decreases trees.len() - t,
{
    assert(trees.take(t + 1).drop_last() =~= trees.take(t));
    if t + 1 < trees.len() {
        lemma_nodes_grow(trees, t + 1);
    } else {
        assert(trees.take(t + 1) =~= trees);
    }
}

/// Numbers of splits by kind.
#[derive(Clone, Copy, PartialEq, Eq, Structural, Debug)]
pub struct OpCounts {
    pub axis: usize,
    pub categorical: usize,
    pub interval: usize,
    pub oblique: usize,
    pub cat_pair: usize,
}

impl OpCounts {
    pub open spec fn of(&self, op: SplitOp) -> usize {
        match op {
            SplitOp::Axis => self.axis,
            SplitOp::Categorical => self.categorical,
            SplitOp::Interval => self.interval,
            SplitOp::Oblique => self.oblique,
            SplitOp::CatPair => self.cat_pair,
        }
    }

    pub open spec fn below(&self, n: int) -> bool {
        forall|op: SplitOp| #[trigger] self.of(op) <= n
    }

    fn count(&mut self, op: Option<SplitOp>)
        requires
            old(self).below(usize::MAX - 1),
        ensures
            forall|o: SplitOp| #[trigger]
                final(self).of(o) == old(self).of(o) + if op == Some(o) {
                    1int
                } else {
                    0
                },
    {
        assert(self.of(SplitOp::Axis) < usize::MAX);
        assert(self.of(SplitOp::Categorical) < usize::MAX);
        assert(self.of(SplitOp::Interval) < usize::MAX);
        assert(self.of(SplitOp::Oblique) < usize::MAX);
        assert(self.of(SplitOp::CatPair) < usize::MAX);
        match op {
            None => {},
            Some(SplitOp::Axis) => {
                self.axis = self.axis + 1;
            },
            Some(SplitOp::Categorical) => {
                self.categorical = self.categorical + 1;
            },
            Some(SplitOp::Interval) => {
                self.interval = self.interval + 1;
            },
            Some(SplitOp::Oblique) => {
                self.oblique = self.oblique + 1;
            },
            Some(SplitOp::CatPair) => {
                self.cat_pair = self.cat_pair + 1;
            },
        }
    }
}

/// The kind of a lookup table.
pub open spec fn lookup_op(lookup: CatLookup) -> LookupOp {
    if lookup.is_numeric {
        LookupOp::Numeric
    } else if lookup.feature3 != NO_FEATURE {
        LookupOp::Triple
    } else if lookup.feature2 != NO_FEATURE {
        LookupOp::Pair
    } else {
        LookupOp::Single
    }
}

/// The lookup tables of a kind among the first `n` leaf slots.
pub open spec fn lookups_of(slots: Seq<Option<CatLookup>>, op: LookupOp) -> nat
    decreases slots.len(),
{
    if slots.len() == 0 {
        0
    } else {
        lookups_of(slots.drop_last(), op) + if slots.last() is Some && lookup_op(slots.last()->0) == op {
            1nat
        } else {
            0
        }
    }
}

/// The bins of the lookup tables.
pub open spec fn lookup_bins(slots: Seq<Option<CatLookup>>) -> nat
    decreases slots.len(),
{
    if slots.len() == 0 {
        0
    } else {
        lookup_bins(slots.drop_last()) + if slots.last() is Some {
            (slots.last()->0).bin_values@.len()
        } else {
            0
        }
    }
}

/// The leaf slots of all trees, tree after tree.
pub open spec fn lookup_slots(trees: Seq<DecisionTree>) -> Seq<Option<CatLookup>>
    decreases trees.len(),
{
    if trees.len() == 0 {
        Seq::empty()
    } else {
        lookup_slots(trees.drop_last()) + trees.last().cat_lookups@
    }
}

proof fn lemma_slots_grow(trees: Seq<DecisionTree>, t: int, i: int)
    requires
        0 <= t < trees.len(),
        0 <= i <= trees[t].cat_lookups@.len(),
    ensures
        lookup_slots(trees.take(t)) + trees[t].cat_lookups@ == lookup_slots(trees.take(t + 1)),
        (lookup_slots(trees.take(t)) + trees[t].cat_lookups@.take(i)).is_prefix_of(lookup_slots(trees)),
    decreases trees.len() - t,
{
    assert(trees.take(t + 1).drop_last() =~= trees.take(t));
    if t + 1 < trees.len() {
        lemma_slots_grow(trees, t + 1, 0);
        assert(lookup_slots(trees.take(t + 1)) + trees[t + 1].cat_lookups@.take(0) =~= lookup_slots(
            trees.take(t + 1),
        ));
    } else {
        assert(trees.take(t + 1) =~= trees);
    }
    let part = lookup_slots(trees.take(t)) + trees[t].cat_lookups@.take(i);
    let all = lookup_slots(trees);
    let whole = lookup_slots(trees.take(t + 1));
    assert(whole.is_prefix_of(all));
    assert(part =~= whole.take(part.len() as int));
    assert(whole =~= all.take(whole.len() as int));
    assert(part =~= all.take(part.len() as int));
}

proof fn lemma_lookups_grow(part: Seq<Option<CatLookup>>, all: Seq<Option<CatLookup>>)
    requires
        part.is_prefix_of(all),
    ensures
        lookup_bins(part) <= lookup_bins(all),
        forall|op: LookupOp| #[trigger] lookups_of(part, op) <= part.len(),
    decreases all.len(), part.len(),
{
    if part.len() < all.len() {
        assert(part.is_prefix_of(all.drop_last())) by {
            assert(part =~= all.drop_last().take(part.len() as int));
        }
        lemma_lookups_grow(part, all.drop_last());
    } else {
        assert(part =~= all);
        if part.len() > 0 {
            assert(part.drop_last().is_prefix_of(part.drop_last()));
            lemma_lookups_grow(part.drop_last(), part.drop_last());
            assert forall|op: LookupOp| #[trigger] lookups_of(part, op) <= part.len() by {
                assert(lookups_of(part.drop_last(), op) <= part.len() - 1);
            }
        }
    }
}

/// How often a node splits on feature `f`; a split on two features counts for both.
pub open spec fn node_uses(tree: DecisionTree, node: int, f: int) -> nat {
    if tree.split_features@[node] == NO_FEATURE {
        0
    } else if flag_at(tree.is_oblique_split@, node) {
        oblique_use(tree, node * 2, f) + oblique_use(tree, node * 2 + 1, f)
    } else if tree.split_features@[node] == f {
        1
    } else {
        0
    }
}

/// Whether a slot of a split on two features names feature `f`.
pub open spec fn oblique_use(tree: DecisionTree, slot: int, f: int) -> nat {
    if slot < tree.oblique_features@.len() && tree.oblique_features@[slot] == f && f != NO_FEATURE {
        1
    } else {
        0
    }
}

pub open spec fn uses_in_tree(tree: DecisionTree, f: int, n: nat) -> nat
    decreases n,
{
    if n == 0 {
        0
    } else {
        uses_in_tree(tree, f, (n - 1) as nat) + node_uses(tree, n - 1, f)
    }
}

pub open spec fn uses_in_trees(trees: Seq<DecisionTree>, f: int) -> nat
    decreases trees.len(),
{
    if trees.len() == 0 {
        0
    } else {
        uses_in_trees(trees.drop_last(), f) + uses_in_tree(trees.last(), f, trees.last().split_features@.len())
    }
}

/// The leaves among the first `n` nodes of a tree.
pub open spec fn leaves_in_tree(tree: DecisionTree, n: nat) -> nat
    decreases n,
{
    if n == 0 {
        0
    } else {
        leaves_in_tree(tree, (n - 1) as nat) + if tree.is_leaf(n - 1) {
            1nat
        } else {
            0
        }
    }
}

/// A weight that trees may have.
pub open spec fn weight_allowed(w: Num) -> bool {
    w.finite() && !w.below(Num { bits: 0 })
}

/// Adds one to the entry of a feature that has one.
fn count_feature(counts: &mut Vec<usize>, f: u32)
    requires
        f < old(counts)@.len() ==> old(counts)@[f as int] < usize::MAX,
    ensures
        final(counts)@.len() == old(counts)@.len(),
        forall|i: int|
            0 <= i < old(counts)@.len() ==> #[trigger] final(counts)@[i] == old(counts)@[i] + if i == f {
                1int
            } else {
                0
            },
{
    if (f as usize) < counts.len() {
        let c: usize = counts[f as usize] + 1;
        counts.set(f as usize, c);
    }
}

fn oblique_slot(tree: &DecisionTree, slot: usize) -> (r: u32)
    ensures
        r == if slot < tree.oblique_features@.len() {
            tree.oblique_features@[slot as int]
        } else {
            NO_FEATURE
        },
{
    if slot < tree.oblique_features.len() {
        tree.oblique_features[slot]
    } else {
        NO_FEATURE
    }
}

/// A correction of a leaf value.
#[derive(Clone, Copy, PartialEq, Eq, Structural, Debug)]
pub struct Correction {
    pub tree: usize,
    pub node: usize,
    pub delta: Num,
}

/// Why a correction is refused, if it is.
pub open spec fn correction_refusal(trees: Seq<DecisionTree>, tree: u32, node: u32) -> Option<ModelError> {
    if tree >= trees.len() {
        Some(ModelError::TreeOutOfRange { tree: tree as usize, trees: trees.len() as usize })
    } else if node >= trees[tree as int].values@.len() {
        Some(ModelError::NodeOutOfRange { node: node as usize, tree: tree as usize })
    } else if node < trees[tree as int].split_features@.len() && trees[tree as int].split_features@[node as int]
        != NO_FEATURE {
        Some(ModelError::NotALeaf { node: node as usize, tree: tree as usize })
    } else {
        None
    }
}

fn refuse_correction(trees: &Vec<DecisionTree>, tree: u32, node: u32) -> (r: Option<ModelError>)
    ensures
        r == correction_refusal(trees@, tree, node),
{
    let t: usize = tree as usize;
    let nd: usize = node as usize;
    if t >= trees.len() {
        return Some(ModelError::TreeOutOfRange { tree: t, trees: trees.len() });
    }
    if nd >= trees[t].values.len() {
        return Some(ModelError::NodeOutOfRange { node: nd, tree: t });
    }
    if nd < trees[t].split_features.len() && trees[t].split_features[nd] != NO_FEATURE {
        return Some(ModelError::NotALeaf { node: nd, tree: t });
    }
    None
}

/// The correction that entry `i` of the lists asks for.
pub open spec fn correction_at(tree_idx: Seq<u32>, node_idx: Seq<u32>, delta: Seq<Num>, i: int) -> Correction {
    Correction { tree: tree_idx[i] as usize, node: node_idx[i] as usize, delta: delta[i] }
}

/// Corrections to carry out, and the error of the first that is refused.
pub struct Corrections {
    pub list: Vec<Correction>,
    pub refused: Option<ModelError>,
}

/// A model as it is written.
#[derive(Clone)]
pub struct ModelSnapshot {
    pub format_version: u32,
    pub model: GTBoostModel,
}

impl ModelSnapshot {
    /// The snapshot of a model: all of it, but for the bins of the training rows
    /// and the marks of the rows that the trees were grown on.
    pub open spec fn shows(&self, model: GTBoostModel) -> bool {
        &&& self.format_version == MODEL_FORMAT_VERSION
        &&& self.model.settings == model.settings
        &&& self.model.trained == (Trained {
            tree_in_sample: self.model.trained.tree_in_sample,
            binned: self.model.trained.binned,
            ..model.trained
        })
        &&& self.model.trained.tree_in_sample@.len() == 0
        &&& self.model.trained.binned is Some
        &&& model.trained.binned is Some
        &&& (self.model.trained.binned->0).strips(model.trained.binned->0)
    }
}

impl GTBoostModel {
    /// The width of the soft splits in predictions, from zero to ten.
    pub fn set_soft_predict_bandwidth(&mut self, bw: Num)
        ensures
            final(self).settings.soft_predict_bandwidth == bw.clamped(
                Num { bits: 0 },
                Num { bits: TEN },
            ),
            final(self).trained == old(self).trained,
            *final(self) == (GTBoostModel { settings: final(self).settings, trained: old(self).trained }),
            final(self).settings == (Settings {
                soft_predict_bandwidth: final(self).settings.soft_predict_bandwidth,
                ..old(self).settings
            }),
    {
        let lo: Num = Num { bits: 0 };
        let hi: Num = Num { bits: TEN };
        self.settings.soft_predict_bandwidth = bw.clamp(&lo, &hi);
    }

    /// The number of nodes and of leaves of each tree.
    pub fn tree_info(&self) -> (list: Vec<(usize, usize)>)
        ensures
            list@.len() == self.trained.trees@.len(),
            forall|t: int|
                #![trigger list@[t]]
                0 <= t < list@.len() ==> {
                    &&& list@[t].0 == self.trained.trees@[t].size()
                    &&& list@[t].1 == leaves_in_tree(
                        self.trained.trees@[t],
                        self.trained.trees@[t].split_features@.len(),
                    )
                },
    {
        let mut list: Vec<(usize, usize)> = Vec::new();
        let mut t: usize = 0;
        while t < self.trained.trees.len()
            invariant
                t <= self.trained.trees@.len(),
                list@.len() == t,
                forall|k: int|
                    #![trigger list@[k]]
                    0 <= k < t ==> {
                        &&& list@[k].0 == self.trained.trees@[k].size()
                        &&& list@[k].1 == leaves_in_tree(
                            self.trained.trees@[k],
                            self.trained.trees@[k].split_features@.len(),
                        )
                    },
            decreases self.trained.trees@.len() - t,
        {
            let tree: &DecisionTree = &self.trained.trees[t];
            let mut leaves: usize = 0;
            let mut node: usize = 0;
            while node < tree.split_features.len()
                invariant
                    node <= tree.split_features@.len(),
                    leaves <= node,
                    leaves == leaves_in_tree(*tree, node as nat),
                decreases tree.split_features@.len() - node,
            {
                if tree.split_features[node] == NO_FEATURE {
                    leaves = leaves + 1;
                }
                node = node + 1;
            }
            list.push((node, leaves));
            t = t + 1;
        }
        list
    }

    /// The weights of the trees; without any, each tree has weight one.
    pub fn tree_weights(&self) -> (r: Vec<Num>)
        ensures
            r@ == self.trained.dart_tree_weights@,
    {
        copy_nums(&self.trained.dart_tree_weights)
    }

    /// Sets the weights of the trees. An empty list gives each tree weight one.
    pub fn set_tree_weights(&mut self, weights: Vec<Num>) -> (r: Result<(), ModelError>)
        ensures
            ({
                let n = old(self).trained.trees@.len();
                if weights@.len() == 0 || (weights@.len() == n && forall|i: int|
                    0 <= i < weights@.len() ==> weight_allowed(#[trigger] weights@[i])) {
                    &&& r is Ok
                    &&& final(self).trained.dart_tree_weights@ == weights@
                    &&& final(self).settings == old(self).settings
                    &&& final(self).trained == (Trained {
                        dart_tree_weights: final(self).trained.dart_tree_weights,
                        ..old(self).trained
                    })
                } else {
                    &&& *final(self) == *old(self)
                    &&& r == if weights@.len() != n {
                        Err::<(), ModelError>(ModelError::WeightLength { got: weights@.len() as usize, trees: n as usize })
                    } else {
                        Err(ModelError::WeightValue)
                    }
                }
            }),
    {
        if weights.len() == 0 {
            self.trained.dart_tree_weights = Vec::new();
            assert(self.trained.dart_tree_weights@ =~= weights@);
            return Ok(());
        }
        let n: usize = self.trained.trees.len();
        if weights.len() != n {
            return Err(ModelError::WeightLength { got: weights.len(), trees: n });
        }
        let zero: Num = Num { bits: 0 };
        let mut i: usize = 0;
        while i < weights.len()
            invariant
                i <= weights@.len(),
                zero.bits == 0,
                *self == *old(self),
                weights@.len() == n,
                weights@.len() > 0,
                n == old(self).trained.trees@.len(),
                forall|k: int| 0 <= k < i ==> weight_allowed(#[trigger] weights@[k]),
            decreases weights@.len() - i,
        {
            if !weights[i].is_finite() || weights[i].lt(&zero) {
                assert(!weight_allowed(weights@[i as int]));
                return Err(ModelError::WeightValue);
            }
            i = i + 1;
        }
        self.trained.dart_tree_weights = weights;
        Ok(())
    }

    pub fn task_name(&self) -> (r: String)
        ensures
            r@ == self.settings.task@,
    {
        self.settings.task.clone()
    }

    pub fn n_classes(&self) -> (r: usize)
        ensures
            r == self.trained.n_classes,
    {
        self.trained.n_classes
    }

    pub fn n_trees(&self) -> (r: usize)
        ensures
            r == self.trained.trees@.len(),
    {
        self.trained.trees.len()
    }

    /// The losses on the evaluation rows, round by round.
    pub fn val_loss_history(&self) -> (r: Vec<Num>)
        ensures
            r@ == self.trained.val_losses@,
    {
        copy_nums(&self.trained.val_losses)
    }

    /// The number of trees at the lowest loss on the evaluation rows.
    pub fn best_tree_count(&self) -> (r: usize)
        ensures
            r == self.trained.best_round,
    {
        self.trained.best_round
    }

    /// How many splits of each kind the trees have.
    pub fn split_op_counts(&self) -> (r: OpCounts)
        requires
            nodes_in_trees(self.trained.trees@) <= usize::MAX,
        ensures
            self.trained.binned is None ==> forall|op: SplitOp| #[trigger] r.of(op) == 0,
            self.trained.binned matches Some(data) ==> forall|op: SplitOp| #[trigger]
                r.of(op) == ops_in_trees(self.trained.trees@, data, op),
    {
        let mut counts: OpCounts = OpCounts { axis: 0, categorical: 0, interval: 0, oblique: 0, cat_pair: 0 };
        match &self.trained.binned {
            None => counts,
            Some(data) => {
                let trees: &Vec<DecisionTree> = &self.trained.trees;
                let mut t: usize = 0;
                assert(trees@.take(0) =~= Seq::empty());
                while t < trees.len()
                    invariant
                        t <= trees@.len(),
                        nodes_in_trees(trees@) <= usize::MAX,
                        counts.below(nodes_in_trees(trees@.take(t as int)) as int),
                        forall|op: SplitOp| #[trigger] counts.of(op) == ops_in_trees(trees@.take(t as int), *data, op),
                    decreases trees@.len() - t,
                {
                    let tree: &DecisionTree = &trees[t];
                    let n: usize = tree.split_features.len();
                    let ghost base = nodes_in_trees(trees@.take(t as int));
                    proof {
                        lemma_nodes_grow(trees@, t as int);
                    }
                    let mut node: usize = 0;
                    while node < n
                        invariant
                            node <= n,
                            n == tree.split_features@.len(),
                            base + n <= usize::MAX,
                            counts.below(base + node),
                            forall|op: SplitOp| #[trigger]
                                counts.of(op) == ops_in_trees(trees@.take(t as int), *data, op) + ops_in_tree(
                                    *tree,
                                    *data,
                                    op,
                                    node as nat,
                                ),
                        decreases n - node,
                    {
                        let op: Option<SplitOp> = op_of(tree, node, data);
                        counts.count(op);
                        node = node + 1;
                    }
                    assert(trees@.take(t + 1).drop_last() =~= trees@.take(t as int));
                    assert(trees@.take(t + 1).last() == *tree);
                    t = t + 1;
                }
                assert(trees@.take(t as int) =~= trees@);
                counts
            },
        }
    }

    /// How many lookup tables of each kind the leaves have, in the order of one
    /// category, two, three and a number, and how many bins they have together.
    pub fn lookup_op_counts(&self) -> (r: (usize, usize, usize, usize, usize))
        requires
            lookup_slots(self.trained.trees@).len() <= usize::MAX,
            lookup_bins(lookup_slots(self.trained.trees@)) <= usize::MAX,
        ensures
            ({
                let slots = lookup_slots(self.trained.trees@);
                &&& r.0 == lookups_of(slots, LookupOp::Single)
                &&& r.1 == lookups_of(slots, LookupOp::Pair)
                &&& r.2 == lookups_of(slots, LookupOp::Triple)
                &&& r.3 == lookups_of(slots, LookupOp::Numeric)
                &&& r.4 == lookup_bins(slots)
            }),
    {
        let trees: &Vec<DecisionTree> = &self.trained.trees;
        let mut single: usize = 0;
        let mut pair: usize = 0;
        let mut triple: usize = 0;
        let mut numeric: usize = 0;
        let mut bins: usize = 0;
        let mut t: usize = 0;
        assert(trees@.take(0) =~= Seq::empty());
        while t < trees.len()
            invariant
                t <= trees@.len(),
                lookup_slots(trees@).len() <= usize::MAX,
                lookup_bins(lookup_slots(trees@)) <= usize::MAX,
                single == lookups_of(lookup_slots(trees@.take(t as int)), LookupOp::Single),
                pair == lookups_of(lookup_slots(trees@.take(t as int)), LookupOp::Pair),
                triple == lookups_of(lookup_slots(trees@.take(t as int)), LookupOp::Triple),
                numeric == lookups_of(lookup_slots(trees@.take(t as int)), LookupOp::Numeric),
                bins == lookup_bins(lookup_slots(trees@.take(t as int))),
            decreases trees@.len() - t,
        {
            let slots: &Vec<Option<CatLookup>> = &trees[t].cat_lookups;
            let ghost before = lookup_slots(trees@.take(t as int));
            let mut i: usize = 0;
            assert(before + slots@.take(0) =~= before);
            while i < slots.len()
                invariant
                    i <= slots@.len(),
                    t < trees@.len(),
                    slots@ == trees@[t as int].cat_lookups@,
                    before == lookup_slots(trees@.take(t as int)),
                    lookup_slots(trees@).len() <= usize::MAX,
                    lookup_bins(lookup_slots(trees@)) <= usize::MAX,
                    single == lookups_of(before + slots@.take(i as int), LookupOp::Single),
                    pair == lookups_of(before + slots@.take(i as int), LookupOp::Pair),
                    triple == lookups_of(before + slots@.take(i as int), LookupOp::Triple),
                    numeric == lookups_of(before + slots@.take(i as int), LookupOp::Numeric),
                    bins == lookup_bins(before + slots@.take(i as int)),
                decreases slots@.len() - i,
            {
                proof {
                    let next = before + slots@.take(i + 1);
                    assert(next.drop_last() =~= before + slots@.take(i as int));
                    assert(next.last() == slots@[i as int]);
                    lemma_slots_grow(trees@, t as int, i + 1);
                    lemma_lookups_grow(next, lookup_slots(trees@));
                    assert(lookups_of(next, LookupOp::Single) <= next.len());
                    assert(lookups_of(next, LookupOp::Pair) <= next.len());
                    assert(lookups_of(next, LookupOp::Triple) <= next.len());
                    assert(lookups_of(next, LookupOp::Numeric) <= next.len());
                }
                match &slots[i] {
                    None => {},
                    Some(lookup) => {
                        bins = bins + lookup.bin_values.len();
                        if lookup.is_numeric {
                            numeric = numeric + 1;
                        } else if lookup.feature3 != NO_FEATURE {
                            triple = triple + 1;
                        } else if lookup.feature2 != NO_FEATURE {
                            pair = pair + 1;
                        } else {
                            single = single + 1;
                        }
                    },
                }
                i = i + 1;
            }
            proof {
                lemma_slots_grow(trees@, t as int, 0);
                assert(slots@.take(i as int) =~= slots@);
            }
            t = t + 1;
        }
        assert(trees@.take(t as int) =~= trees@);
        (single, pair, triple, numeric, bins)
    }

    /// How often the trees split on each feature. There is at least one entry.
    pub fn feature_split_counts(&self) -> (counts: Vec<usize>)
        requires
            2 * nodes_in_trees(self.trained.trees@) <= usize::MAX,
        ensures
            counts@.len() == if self.trained.n_features > 1 {
                self.trained.n_features
            } else {
                1
            },
            forall|f: int|
                0 <= f < counts@.len() ==> #[trigger] counts@[f] == if f == NO_FEATURE {
                    0
                } else {
                    uses_in_trees(self.trained.trees@, f)
                },
    {
        let width: usize = if self.trained.n_features > 1 { self.trained.n_features } else { 1 };
        let mut counts: Vec<usize> = vec![0; width];
        let trees: &Vec<DecisionTree> = &self.trained.trees;
        let mut t: usize = 0;
        assert(trees@.take(0) =~= Seq::empty());
        while t < trees.len()
            invariant
                t <= trees@.len(),
                counts@.len() == width,
                2 * nodes_in_trees(trees@) <= usize::MAX,
                forall|f: int|
                    0 <= f < width ==> #[trigger] counts@[f] <= 2 * nodes_in_trees(trees@.take(t as int)),
                forall|f: int|
                    0 <= f < width ==> #[trigger] counts@[f] == if f == NO_FEATURE {
                        0
                    } else {
                        uses_in_trees(trees@.take(t as int), f)
                    },
            decreases trees@.len() - t,
        {
            let tree: &DecisionTree = &trees[t];
            let n: usize = tree.split_features.len();
            let ghost base = nodes_in_trees(trees@.take(t as int));
            proof {
                lemma_nodes_grow(trees@, t as int);
            }
            let mut node: usize = 0;
            while node < n
                invariant
                    node <= n,
                    n == tree.split_features@.len(),
                    counts@.len() == width,
                    2 * (base + n) <= usize::MAX,
                    forall|f: int| 0 <= f < width ==> #[trigger] counts@[f] <= 2 * (base + node),
                    forall|f: int|
                        0 <= f < width ==> #[trigger] counts@[f] == if f == NO_FEATURE {
                            0
                        } else {
                            uses_in_trees(trees@.take(t as int), f) + uses_in_tree(*tree, f, node as nat)
                        },
                decreases n - node,
            {
                let f: u32 = tree.split_features[node];
                if f != NO_FEATURE {
                    if has_flag(&tree.is_oblique_split, node) {
                        let a: u32 = oblique_slot(tree, node * 2);
                        if a != NO_FEATURE {
                            count_feature(&mut counts, a);
                        }
                        let b: u32 = oblique_slot(tree, node * 2 + 1);
                        if b != NO_FEATURE {
                            count_feature(&mut counts, b);
                        }
                    } else {
                        count_feature(&mut counts, f);
                    }
                }
                node = node + 1;
            }
            assert(trees@.take(t + 1).drop_last() =~= trees@.take(t as int));
            assert(trees@.take(t + 1).last() == *tree);
            t = t + 1;
        }
        assert(trees@.take(t as int) =~= trees@);
        counts
    }

    /// What is written of a model that has bins and trees.
    pub fn save_model(self) -> (r: Result<ModelSnapshot, ModelError>)
        ensures
            match r {
                Err(e) => (self.trained.binned is None || self.trained.trees@.len() == 0) && e
                    == ModelError::NotTrainedForSave,
                Ok(snapshot) => self.trained.binned is Some && self.trained.trees@.len() > 0 && snapshot.shows(self),
            },
    {
        let mut model: GTBoostModel = self;
        if model.trained.binned.is_none() || model.trained.trees.len() == 0 {
            return Err(ModelError::NotTrainedForSave);
        }
        let bins: Option<BinnedData> = model.trained.binned;
        model.trained.binned = match bins {
            Some(data) => Some(data.strip_training_storage_for_prediction()),
            None => None,
        };
        model.trained.tree_in_sample = Vec::new();
        Ok(ModelSnapshot { format_version: MODEL_FORMAT_VERSION, model })
    }

    /// The model of a snapshot, if it was written in this format.
    pub fn load_model(snapshot: ModelSnapshot) -> (r: Result<GTBoostModel, ModelError>)
        ensures
            match r {
                Err(e) => snapshot.format_version != MODEL_FORMAT_VERSION && e == (ModelError::FormatVersion {
                    found: snapshot.format_version as usize,
                    expected: MODEL_FORMAT_VERSION as usize,
                }),
                Ok(model) => snapshot.format_version == MODEL_FORMAT_VERSION && model == snapshot.model,
            },
    {
        if snapshot.format_version != MODEL_FORMAT_VERSION {
            return Err(
                ModelError::FormatVersion {
                    found: snapshot.format_version as usize,
                    expected: MODEL_FORMAT_VERSION as usize,
                },
            );
        }
        Ok(snapshot.model)
    }

    /// The corrections of leaf values that lists of trees, nodes and amounts ask
    /// for: all of them, or those before the first that is refused.
    pub fn add_leaf_corrections(&self, tree_idx: &Vec<u32>, node_idx: &Vec<u32>, delta: &Vec<Num>) -> (r: Corrections)
        ensures
            tree_idx@.len() != node_idx@.len() || node_idx@.len() != delta@.len() ==> r.list@.len() == 0
                && r.refused == Some(ModelError::CorrectionLengths),
            tree_idx@.len() == node_idx@.len() && node_idx@.len() == delta@.len() ==> {
                let trees = self.trained.trees@;
                let n = r.list@.len();
                &&& n <= delta@.len()
                &&& forall|i: int|
                    0 <= i < n ==> #[trigger] r.list@[i] == correction_at(tree_idx@, node_idx@, delta@, i)
                &&& forall|i: int|
                    0 <= i < n ==> correction_refusal(trees, #[trigger] tree_idx@[i], node_idx@[i]) is None
                &&& n == delta@.len() ==> r.refused is None
                &&& n < delta@.len() ==> r.refused is Some && r.refused == correction_refusal(
                    trees,
                    tree_idx@[n as int],
                    node_idx@[n as int],
                )
            },
    {
        let mut list: Vec<Correction> = Vec::new();
        if tree_idx.len() != node_idx.len() || node_idx.len() != delta.len() {
            return Corrections { list, refused: Some(ModelError::CorrectionLengths) };
        }
        let trees: &Vec<DecisionTree> = &self.trained.trees;
        let mut i: usize = 0;
        while i < delta.len()
            invariant
                i <= delta@.len(),
                tree_idx@.len() == node_idx@.len(),
                node_idx@.len() == delta@.len(),
                trees@ == self.trained.trees@,
                list@.len() == i,
                forall|k: int| 0 <= k < i ==> #[trigger] list@[k] == correction_at(tree_idx@, node_idx@, delta@, k),
                forall|k: int| 0 <= k < i ==> correction_refusal(trees@, #[trigger] tree_idx@[k], node_idx@[k]) is None,
            decreases delta@.len() - i,
        {
            let refused: Option<ModelError> = refuse_correction(trees, tree_idx[i], node_idx[i]);
            if refused.is_some() {
                return Corrections { list, refused };
            }
            list.push(Correction { tree: tree_idx[i] as usize, node: node_idx[i] as usize, delta: delta[i] });
            i = i + 1;
        }
        Corrections { list, refused: None }
    }
}

fn copy_nums(list: &Vec<Num>) -> (r: Vec<Num>)
    ensures
        r@ == list@,
{
    let mut r: Vec<Num> = Vec::new();
    let mut i: usize = 0;
    while i < list.len()
        invariant
            i <= list@.len(),
            r@ == list@.take(i as int),
        decreases list@.len() - i,
    {
        r.push(list[i]);
        assert(r@ =~= list@.take(i + 1));
        i = i + 1;
    }
    assert(list@.take(i as int) =~= list@);
    r
}

/// What is written can be read: a snapshot of a model is accepted, and what is
/// read predicts as the model did, with the same settings, trees, weights, base
/// scores and tables.
pub proof fn law_saved_models_load(model: GTBoostModel, snapshot: ModelSnapshot, kind: PredictKind, given: bool)
    requires
        snapshot.shows(model),
    ensures
        snapshot.format_version == MODEL_FORMAT_VERSION,
        snapshot.model.settings == model.settings,
        snapshot.model.trained.trees == model.trained.trees,
        snapshot.model.trained.dart_tree_weights == model.trained.dart_tree_weights,
        snapshot.model.score_start(kind, given) == model.score_start(kind, given),
        forall|layout: BinLayout, traits: Seq<TreeTraits>, t: usize| #[trigger]
            snapshot.model.planned_tree(kind, layout, traits, t) == model.planned_tree(kind, layout, traits, t),
        forall|plan: PredictPlan, traits: Seq<TreeTraits>, uses: Seq<usize>, n: int, width: int| #[trigger]
            snapshot.model.is_plan(plan, kind, traits, uses, n, width, given) == model.is_plan(
                plan,
                kind,
                traits,
                uses,
                n,
                width,
                given,
            ),
{
    assert forall|layout: BinLayout, traits: Seq<TreeTraits>, uses: Seq<usize>| #[trigger]
        snapshot.model.planned_trees(kind, layout, traits, uses) == model.planned_trees(kind, layout, traits, uses) by {
        assert(snapshot.model.planned_trees(kind, layout, traits, uses) =~= model.planned_trees(
            kind,
            layout,
            traits,
            uses,
        ));
    }
}

/// Every leaf that is given back for a row can be corrected: whatever turns a
/// row takes in a tree, a correction of the leaf that they lead to is refused on
/// no ground.
pub proof fn law_leaves_take_corrections(
    model: GTBoostModel,
    leaves: Seq<Vec<u32>>,
    out: Seq<u32>,
    n_rows: int,
    row: int,
    t: int,
    turns: Seq<bool>,
)
    requires
        leaves.len() == model.trained.trees@.len(),
        leaves.len() <= u32::MAX,
        0 <= row < n_rows,
        0 <= t < leaves.len(),
        model.trained.trees@[t].well_formed(),
        leaves[t]@[row] == model.trained.trees@[t].turned_leaf(turns, 0),
        out[row * leaves.len() + t] == leaves[t]@[row],
    ensures
        out[row * leaves.len() + t] == model.trained.trees@[t].turned_leaf(turns, 0),
        correction_refusal(model.trained.trees@, t as u32, out[row * leaves.len() + t]) is None,
{
    model.trained.trees@[t].lemma_turns_end(turns, 0);
}

/// The uses of the features below `w` at a node.
spec fn node_total(tree: DecisionTree, node: int, w: nat) -> nat
    decreases w,
{
    if w == 0 {
        0
    } else {
        node_total(tree, node, (w - 1) as nat) + node_uses(tree, node, w - 1)
    }
}

/// The uses of the features below `w` at the first `n` nodes of a tree.
spec fn tree_total(tree: DecisionTree, n: nat, w: nat) -> nat
    decreases w,
{
    if w == 0 {
        0
    } else {
        tree_total(tree, n, (w - 1) as nat) + uses_in_tree(tree, w - 1, n)
    }
}

/// The uses of the features below `w` in trees.
spec fn trees_total(trees: Seq<DecisionTree>, w: nat) -> nat
    decreases w,
{
    if w == 0 {
        0
    } else {
        trees_total(trees, (w - 1) as nat) + uses_in_trees(trees, w - 1)
    }
}

proof fn lemma_totals_split(trees: Seq<DecisionTree>, tree: DecisionTree, n: nat, w: nat)
    ensures
        tree_total(tree, 0, w) == 0,
        n > 0 ==> tree_total(tree, n, w) == tree_total(tree, (n - 1) as nat, w) + node_total(tree, n - 1, w),
        trees.len() == 0 ==> trees_total(trees, w) == 0,
        trees.len() > 0 ==> trees_total(trees, w) == trees_total(trees.drop_last(), w) + tree_total(
            trees.last(),
            trees.last().split_features@.len(),
            w,
        ),
    decreases w,
{
    if w > 0 {
        lemma_totals_split(trees, tree, n, (w - 1) as nat);
    }
}

/// One where a feature number is below `w`, and zero otherwise.
spec fn one_below(f: u32, w: nat) -> nat {
    if f != NO_FEATURE && f < w {
        1
    } else {
        0
    }
}

spec fn slot_feature(tree: DecisionTree, slot: int) -> u32 {
    if slot < tree.oblique_features@.len() {
        tree.oblique_features@[slot]
    } else {
        NO_FEATURE
    }
}

proof fn lemma_node_total(tree: DecisionTree, node: int, w: nat)
    requires
        0 <= node < tree.split_features@.len(),
    ensures
        node_total(tree, node, w) == (if tree.split_features@[node] == NO_FEATURE {
            0
        } else if flag_at(tree.is_oblique_split@, node) {
            one_below(slot_feature(tree, node * 2), w) + one_below(slot_feature(tree, node * 2 + 1), w)
        } else {
            one_below(tree.split_features@[node], w)
        }),
    decreases w,
{
    if w > 0 {
        lemma_node_total(tree, node, (w - 1) as nat);
    }
}

/// The splits of a tree are on features below `w`, both of those on two.
pub open spec fn splits_below(tree: DecisionTree, w: int) -> bool {
    forall|node: int|
        0 <= node < tree.split_features@.len() && #[trigger] tree.split_features@[node] != NO_FEATURE ==> {
            if flag_at(tree.is_oblique_split@, node) {
                &&& node * 2 + 1 < tree.oblique_features@.len()
                &&& tree.oblique_features@[node * 2] != NO_FEATURE
                &&& tree.oblique_features@[node * 2] < w
                &&& tree.oblique_features@[node * 2 + 1] != NO_FEATURE
                &&& tree.oblique_features@[node * 2 + 1] < w
            } else {
                tree.split_features@[node] < w
            }
        }
}

/// The splits of all kinds in a tree, those on two features twice.
spec fn weighted_ops(tree: DecisionTree, data: BinnedData, n: nat) -> nat {
    ops_in_tree(tree, data, SplitOp::Axis, n) + ops_in_tree(tree, data, SplitOp::Categorical, n) + ops_in_tree(
        tree,
        data,
        SplitOp::Interval,
        n,
    ) + ops_in_tree(tree, data, SplitOp::CatPair, n) + 2 * ops_in_tree(tree, data, SplitOp::Oblique, n)
}

proof fn lemma_tree_ops(tree: DecisionTree, data: BinnedData, n: nat, w: nat)
    requires
        n <= tree.split_features@.len(),
        splits_below(tree, w as int),
    ensures
        tree_total(tree, n, w) == weighted_ops(tree, data, n),
    decreases n,
{
    lemma_totals_split(Seq::empty(), tree, n, w);
    if n > 0 {
        lemma_tree_ops(tree, data, (n - 1) as nat, w);
        lemma_node_total(tree, n - 1, w);
        assert(tree.split_features@[n - 1] == NO_FEATURE || tree.split_features@[n - 1] != NO_FEATURE);
    }
}

proof fn lemma_trees_ops(trees: Seq<DecisionTree>, data: BinnedData, w: nat)
    requires
        forall|t: int| 0 <= t < trees.len() ==> splits_below(#[trigger] trees[t], w as int),
    ensures
        trees_total(trees, w) == ops_in_trees(trees, data, SplitOp::Axis) + ops_in_trees(
            trees,
            data,
            SplitOp::Categorical,
        ) + ops_in_trees(trees, data, SplitOp::Interval) + ops_in_trees(trees, data, SplitOp::CatPair) + 2
            * ops_in_trees(trees, data, SplitOp::Oblique),
    decreases trees.len(),
{
    if trees.len() == 0 {
        lemma_totals_split(trees, trees[0], 0, w);
    } else {
        let last = trees.last();
        lemma_totals_split(trees, last, 0, w);
        assert(splits_below(trees[trees.len() - 1], w as int));
        assert forall|t: int| 0 <= t < trees.drop_last().len() implies splits_below(
            #[trigger] trees.drop_last()[t],
            w as int,
        ) by {
            assert(trees.drop_last()[t] == trees[t]);
        }
        lemma_trees_ops(trees.drop_last(), data, w);
        lemma_tree_ops(last, data, last.split_features@.len(), w);
    }
}

/// The sum of a list of counts.
pub open spec fn sum_of(counts: Seq<usize>) -> nat
    decreases counts.len(),
{
    if counts.len() == 0 {
        0
    } else {
        sum_of(counts.drop_last()) + counts.last() as nat
    }
}

proof fn lemma_counts_total(counts: Seq<usize>, trees: Seq<DecisionTree>)
    requires
        forall|f: int| 0 <= f < counts.len() ==> #[trigger] counts[f] == uses_in_trees(trees, f),
    ensures
        sum_of(counts) == trees_total(trees, counts.len()),
    decreases counts.len(),
{
    if counts.len() > 0 {
        let rest = counts.drop_last();
        assert forall|f: int| 0 <= f < rest.len() implies #[trigger] rest[f] == uses_in_trees(trees, f) by {
            assert(rest[f] == counts[f]);
        }
        lemma_counts_total(rest, trees);
    }
}

/// Feature counts add up to the splits of all kinds: a split counts once, one on
/// two features once for each of them, and a leaf never.
pub proof fn law_feature_counts_add_up(trees: Seq<DecisionTree>, data: BinnedData, counts: Seq<usize>, ops: OpCounts)
    requires
        forall|t: int| 0 <= t < trees.len() ==> splits_below(#[trigger] trees[t], counts.len() as int),
        forall|f: int|
            0 <= f < counts.len() ==> #[trigger] counts[f] == if f == NO_FEATURE {
                0
            } else {
                uses_in_trees(trees, f)
            },
        forall|op: SplitOp| #[trigger] ops.of(op) == ops_in_trees(trees, data, op),
    ensures
        sum_of(counts) == ops.axis + ops.categorical + ops.interval + ops.cat_pair + 2 * ops.oblique,
{
    assert forall|f: int| 0 <= f < counts.len() implies #[trigger] counts[f] == uses_in_trees(trees, f) by {
        if f == NO_FEATURE {
            lemma_no_feature_unused(trees);
        }
    }
    lemma_counts_total(counts, trees);
    lemma_trees_ops(trees, data, counts.len());
    assert(ops.of(SplitOp::Axis) == ops.axis);
    assert(ops.of(SplitOp::Categorical) == ops.categorical);
    assert(ops.of(SplitOp::Interval) == ops.interval);
    assert(ops.of(SplitOp::CatPair) == ops.cat_pair);
    assert(ops.of(SplitOp::Oblique) == ops.oblique);
}

proof fn lemma_no_feature_in_tree(tree: DecisionTree, n: nat)
    ensures
        uses_in_tree(tree, NO_FEATURE as int, n) == 0,
    decreases n,
{
    if n > 0 {
        lemma_no_feature_in_tree(tree, (n - 1) as nat);
    }
}

proof fn lemma_no_feature_unused(trees: Seq<DecisionTree>)
    ensures
        uses_in_trees(trees, NO_FEATURE as int) == 0,
    decreases trees.len(),
{
    if trees.len() > 0 {
        lemma_no_feature_unused(trees.drop_last());
        lemma_no_feature_in_tree(trees.last(), trees.last().split_features@.len());
    }
}

/// The splits among the first `n` nodes of a tree.
pub open spec fn splits_in_tree(tree: DecisionTree, n: nat) -> nat
    decreases n,
{
    if n == 0 {
        0
    } else {
        splits_in_tree(tree, (n - 1) as nat) + if tree.is_leaf(n - 1) {
            0nat
        } else {
            1
        }
    }
}

/// The splits of trees.
pub open spec fn splits_in_trees(trees: Seq<DecisionTree>) -> nat
    decreases trees.len(),
{
    if trees.len() == 0 {
        0
    } else {
        splits_in_trees(trees.drop_last()) + splits_in_tree(trees.last(), trees.last().split_features@.len())
    }
}

/// Whether a node of the trees has a split of a kind.
pub open spec fn grown(trees: Seq<DecisionTree>, data: BinnedData, op: SplitOp) -> bool {
    exists|t: int, node: int|
        #![trigger split_op(trees[t], node, data)]
        0 <= t < trees.len() && 0 <= node < trees[t].size() && split_op(trees[t], node, data) == Some(op)
}

proof fn lemma_tree_splits(tree: DecisionTree, data: BinnedData, n: nat)
    ensures
        ops_in_tree(tree, data, SplitOp::Axis, n) + ops_in_tree(tree, data, SplitOp::Categorical, n) + ops_in_tree(
            tree,
            data,
            SplitOp::Interval,
            n,
        ) + ops_in_tree(tree, data, SplitOp::Oblique, n) + ops_in_tree(tree, data, SplitOp::CatPair, n)
            == splits_in_tree(tree, n),
    decreases n,
{
    if n > 0 {
        lemma_tree_splits(tree, data, (n - 1) as nat);
    }
}

proof fn lemma_trees_splits(trees: Seq<DecisionTree>, data: BinnedData)
    ensures
        ops_in_trees(trees, data, SplitOp::Axis) + ops_in_trees(trees, data, SplitOp::Categorical) + ops_in_trees(
            trees,
            data,
            SplitOp::Interval,
        ) + ops_in_trees(trees, data, SplitOp::Oblique) + ops_in_trees(trees, data, SplitOp::CatPair)
            == splits_in_trees(trees),
    decreases trees.len(),
{
    if trees.len() > 0 {
        lemma_trees_splits(trees.drop_last(), data);
        lemma_tree_splits(trees.last(), data, trees.last().split_features@.len());
    }
}

proof fn lemma_tree_without(tree: DecisionTree, data: BinnedData, op: SplitOp, n: nat)
    requires
        n <= tree.size(),
        forall|node: int| 0 <= node < tree.size() ==> #[trigger] split_op(tree, node, data) != Some(op),
    ensures
        ops_in_tree(tree, data, op, n) == 0,
    decreases n,
{
    if n > 0 {
        lemma_tree_without(tree, data, op, (n - 1) as nat);
    }
}

proof fn lemma_trees_without(trees: Seq<DecisionTree>, data: BinnedData, op: SplitOp)
    requires
        !grown(trees, data, op),
    ensures
        ops_in_trees(trees, data, op) == 0,
    decreases trees.len(),
{
    if trees.len() > 0 {
        let rest = trees.drop_last();
        let last = trees.last();
        assert forall|node: int| 0 <= node < last.size() implies #[trigger] split_op(last, node, data) != Some(op) by {
            assert(trees[trees.len() - 1] == last);
        }
        if grown(rest, data, op) {
            let (t, node) = choose|t: int, node: int|
                #![trigger split_op(rest[t], node, data)]
                0 <= t < rest.len() && 0 <= node < rest[t].size() && split_op(rest[t], node, data) == Some(op);
            assert(split_op(trees[t], node, data) == Some(op));
        }
        lemma_trees_without(rest, data, op);
        lemma_tree_without(last, data, op, last.split_features@.len());
    }
}

/// Every split is counted as one kind, and a kind that no tree was grown with is
/// not counted: where trees have neither intervals nor splits on two features,
/// the splits are those on a threshold and those by categories, and on data
/// without categories the former alone.
pub proof fn law_split_kinds_are_those_grown(trees: Seq<DecisionTree>, data: BinnedData, ops: OpCounts)
    requires
        forall|op: SplitOp| #[trigger] ops.of(op) == ops_in_trees(trees, data, op),
    ensures
        ops.axis + ops.categorical + ops.interval + ops.oblique + ops.cat_pair == splits_in_trees(trees),
        forall|op: SplitOp| !#[trigger] grown(trees, data, op) ==> ops.of(op) == 0,
        !grown(trees, data, SplitOp::Interval) && !grown(trees, data, SplitOp::Oblique) && !grown(
            trees,
            data,
            SplitOp::CatPair,
        ) ==> ops.axis + ops.categorical == splits_in_trees(trees),
        (forall|f: int| 0 <= f < data.is_categorical@.len() ==> !#[trigger] data.is_categorical@[f]) && (forall|t: int|
            0 <= t < trees.len() ==> splits_below(#[trigger] trees[t], data.is_categorical@.len() as int))
            ==> ops.categorical == 0,
{
    lemma_trees_splits(trees, data);
    assert(ops.of(SplitOp::Axis) == ops.axis);
    assert(ops.of(SplitOp::Categorical) == ops.categorical);
    assert(ops.of(SplitOp::Interval) == ops.interval);
    assert(ops.of(SplitOp::CatPair) == ops.cat_pair);
    assert(ops.of(SplitOp::Oblique) == ops.oblique);
    assert forall|op: SplitOp| !#[trigger] grown(trees, data, op) implies ops.of(op) == 0 by {
        lemma_trees_without(trees, data, op);
    }
    if (forall|f: int| 0 <= f < data.is_categorical@.len() ==> !#[trigger] data.is_categorical@[f]) && (forall|t: int|
        0 <= t < trees.len() ==> splits_below(#[trigger] trees[t], data.is_categorical@.len() as int)) {
        if grown(trees, data, SplitOp::Categorical) {
            let (t, node) = choose|t: int, node: int|
                #![trigger split_op(trees[t], node, data)]
                0 <= t < trees.len() && 0 <= node < trees[t].size() && split_op(trees[t], node, data) == Some(
                    SplitOp::Categorical,
                );
            assert(splits_below(trees[t], data.is_categorical@.len() as int));
            assert(!data.is_categorical@[trees[t].split_features@[node] as int]);
        }
    }
}

/// Whether a split is of a kind that a tree may have.
pub open spec fn kind_admitted(kinds: SplitKinds, op: SplitOp) -> bool {
    match op {
        SplitOp::Interval => kinds.interval,
        SplitOp::Oblique => kinds.oblique,
        SplitOp::CatPair => kinds.cat_pair,
        _ => true,
    }
}

/// Every tree was asked for with the kinds of splits that the settings give it,
/// and has no other.
pub open spec fn grown_as_set(
    settings: Settings,
    trees: Seq<DecisionTree>,
    data: BinnedData,
    policies: Seq<GrowPolicy>,
    outputs: Seq<int>,
) -> bool {
    forall|t: int, node: int|
        #![trigger split_op(trees[t], node, data)]
        0 <= t < trees.len() && 0 <= node < trees[t].size() ==> match split_op(trees[t], node, data) {
            Some(op) => kind_admitted(settings.kinds_of(policies[t], outputs[t]), op),
            None => true,
        }
}

/// Kinds of splits that are not set are not counted: whatever way trees grow,
/// where intervals, combinations of features and pairs of categories are off,
/// all splits are on a threshold or by categories.
pub proof fn law_split_kinds_follow_settings(
    settings: Settings,
    trees: Seq<DecisionTree>,
    data: BinnedData,
    policies: Seq<GrowPolicy>,
    outputs: Seq<int>,
    ops: OpCounts,
)
    requires
        forall|op: SplitOp| #[trigger] ops.of(op) == ops_in_trees(trees, data, op),
        grown_as_set(settings, trees, data, policies, outputs),
    ensures
        !settings.interval_splits ==> ops.interval == 0,
        !settings.sparse_oblique_splits ==> ops.oblique == 0,
        !settings.jit_catpair_enabled ==> ops.cat_pair == 0,
        !settings.interval_splits && !settings.sparse_oblique_splits && !settings.jit_catpair_enabled ==> ops.axis
            + ops.categorical == splits_in_trees(trees),
{
    law_split_kinds_are_those_grown(trees, data, ops);
    assert(ops.of(SplitOp::Interval) == ops.interval);
    assert(ops.of(SplitOp::Oblique) == ops.oblique);
    assert(ops.of(SplitOp::CatPair) == ops.cat_pair);
    assert(!settings.interval_splits ==> !grown(trees, data, SplitOp::Interval));
    assert(!settings.sparse_oblique_splits ==> !grown(trees, data, SplitOp::Oblique));
    assert(!settings.jit_catpair_enabled ==> !grown(trees, data, SplitOp::CatPair));
}

/// A split is told by its marks: oblique before pairs of categories before sets of bins,
/// which are intervals on numeric features; leaves are none, and without marks a split is
/// one on a threshold.
pub proof fn law_splits_are_told_by_marks(tree: DecisionTree, node: int, data: BinnedData)
    requires
        0 <= node,
    ensures
        ({
            let f = tree.split_features@[node];
            let oblique = node < tree.is_oblique_split@.len() && tree.is_oblique_split@[node];
            let pair = node < tree.is_cat_pair@.len() && tree.is_cat_pair@[node];
            let set = node < tree.is_cat_split@.len() && tree.is_cat_split@[node];
            let numeric = f < data.is_categorical@.len() && !data.is_categorical@[f as int];
            let op = split_op(tree, node, data);
            &&& op is None <==> f == u32::MAX
            &&& op == Some(SplitOp::Oblique) <==> f != u32::MAX && oblique
            &&& op == Some(SplitOp::CatPair) <==> f != u32::MAX && !oblique && pair
            &&& op == Some(SplitOp::Interval) <==> f != u32::MAX && !oblique && !pair && set && numeric
            &&& op == Some(SplitOp::Categorical) <==> f != u32::MAX && !oblique && !pair && set && !numeric
            &&& op == Some(SplitOp::Axis) <==> f != u32::MAX && !oblique && !pair && !set
        }),
{
}

/// A split counts once for its feature, and an oblique one once for each of its two.
pub proof fn law_splits_count_for_their_features(tree: DecisionTree, node: int, f: int)
    requires
        0 <= node,
        0 <= f < u32::MAX,
    ensures
        ({
            let oblique = node < tree.is_oblique_split@.len() && tree.is_oblique_split@[node];
            let both = 2 * node + 1 < tree.oblique_features@.len();
            &&& tree.split_features@[node] == u32::MAX ==> node_uses(tree, node, f) == 0
            &&& tree.split_features@[node] != u32::MAX && !oblique ==> (node_uses(tree, node, f) == 1
                <==> tree.split_features@[node] == f) && node_uses(tree, node, f) <= 1
            &&& tree.split_features@[node] != u32::MAX && oblique && both ==> node_uses(tree, node, f) == (if tree.oblique_features@[2
                * node] == f {
                1int
            } else {
                0
            }) + (if tree.oblique_features@[2 * node + 1] == f {
                1int
            } else {
                0
            })
        }),
{
}

/// Every lookup in leaves is of one kind: numeric, or by the number of features it reads;
/// the kinds add up to all of them.
pub proof fn law_lookups_are_of_one_kind(slots: Seq<Option<CatLookup>>, l: CatLookup)
    ensures
        lookup_op(l) == LookupOp::Numeric <==> l.is_numeric,
        lookup_op(l) == LookupOp::Single <==> !l.is_numeric && l.feature2 == u32::MAX && l.feature3 == u32::MAX,
        lookup_op(l) == LookupOp::Pair <==> !l.is_numeric && l.feature2 != u32::MAX && l.feature3 == u32::MAX,
        lookup_op(l) == LookupOp::Triple <==> !l.is_numeric && l.feature3 != u32::MAX,
        lookups_of(slots, LookupOp::Single) + lookups_of(slots, LookupOp::Pair) + lookups_of(slots, LookupOp::Triple)
            + lookups_of(slots, LookupOp::Numeric) == crate::select::kept_indices(
            Seq::new(slots.len(), |i: int| slots[i] is Some),
        ).len(),
    decreases slots.len(),
{
    if slots.len() > 0 {
        law_lookups_are_of_one_kind(slots.drop_last(), l);
        let flags = Seq::new(slots.len(), |i: int| slots[i] is Some);
        assert(flags.drop_last() =~= Seq::new(slots.drop_last().len(), |i: int| slots.drop_last()[i] is Some));
    }
}

/// Lookups are counted one by one, with all their bins, over the trees in their order, and so
/// are the uses of a feature.
pub proof fn law_lookups_are_counted(
    slots: Seq<Option<CatLookup>>,
    slot: Option<CatLookup>,
    trees: Seq<DecisionTree>,
    tree: DecisionTree,
    op: LookupOp,
    f: int,
)
    ensures
        lookups_of(slots.push(slot), op) == lookups_of(slots, op) + (if slot is Some && lookup_op(slot->0) == op {
            1nat
        } else {
            0
        }),
        lookup_bins(slots.push(slot)) == lookup_bins(slots) + (if slot is Some {
            (slot->0).bin_values@.len()
        } else {
            0
        }),
        lookup_slots(trees.push(tree)) == lookup_slots(trees) + tree.cat_lookups@,
        uses_in_trees(trees.push(tree), f) == uses_in_trees(trees, f) + uses_in_tree(
            tree,
            f,
            tree.split_features@.len(),
        ),
        lookups_of(Seq::empty(), op) == 0 && lookup_bins(Seq::empty()) == 0,
{
    assert(slots.push(slot).drop_last() =~= slots);
    assert(trees.push(tree).drop_last() =~= trees);
}

/// Every node of a tree is a leaf or a split.
pub proof fn law_nodes_are_leaves_or_splits(tree: DecisionTree, n: nat)
    requires
        n <= tree.split_features@.len(),
    ensures
        leaves_in_tree(tree, n) + splits_in_tree(tree, n) == n,
        n > 0 ==> (leaves_in_tree(tree, n) - leaves_in_tree(tree, (n - 1) as nat) == 1 <==> tree.split_features@[n - 1]
            == u32::MAX),
    decreases n,
{
    if n > 0 {
        law_nodes_are_leaves_or_splits(tree, (n - 1) as nat);
    }
}

/// A tree may have any weight that is finite and not below zero.
pub proof fn law_weights_are_not_below_zero(w: Num)
    ensures
        w.finite() ==> (weight_allowed(w) <==> w.scaled() >= 0),
        !w.finite() ==> !weight_allowed(w),
{
    if w.finite() {
        let zero = Num { bits: 0 };
        assert(crate::num::scaled_magnitude(0) == 0);
        assert(zero.scaled() == 0);
        crate::num::law_key_orders_values(w, zero);
    }
}

/// A correction is taken exactly where it names a leaf of a tree that is there, and a
/// refusal says what is missing first: the tree, the node, or that it is a leaf.
pub proof fn law_corrections_name_leaves(trees: Seq<DecisionTree>, tree: u32, node: u32)
    requires
        trees.len() <= usize::MAX,
    ensures
        ({
            let there = tree < trees.len();
            let t = trees[tree as int];
            let inside = there && node < t.values@.len();
            let leaf = inside && (node >= t.split_features@.len() || t.split_features@[node as int] == u32::MAX);
            &&& correction_refusal(trees, tree, node) is None <==> leaf
            &&& !there ==> correction_refusal(trees, tree, node) == Some(
                ModelError::TreeOutOfRange { tree: tree as usize, trees: trees.len() as usize },
            )
            &&& there && !inside ==> correction_refusal(trees, tree, node) == Some(
                ModelError::NodeOutOfRange { node: node as usize, tree: tree as usize },
            )
            &&& inside && !leaf ==> correction_refusal(trees, tree, node) == Some(
                ModelError::NotALeaf { node: node as usize, tree: tree as usize },
            )
        }),
{
}

/// A correction goes to the tree and the node that stand beside it.
pub proof fn law_corrections_go_where_told(tree_idx: Seq<u32>, node_idx: Seq<u32>, delta: Seq<Num>, i: int)
    ensures
        correction_at(tree_idx, node_idx, delta, i).tree == tree_idx[i],
        correction_at(tree_idx, node_idx, delta, i).node == node_idx[i],
        correction_at(tree_idx, node_idx, delta, i).delta == delta[i],
{
}

/// What is written of a model is all of it but the bins of the training rows and the marks
/// of the samples.
pub proof fn law_snapshots_hold_the_model(model: GTBoostModel, snapshot: ModelSnapshot)
    requires
        snapshot.shows(model),
    ensures
        ({
            let t = model.trained;
            let s = snapshot.model.trained;
            &&& snapshot.format_version == 1
            &&& s.base_score == t.base_score && s.class_base_scores == t.class_base_scores
            &&& s.vertical_prior == t.vertical_prior && s.ctr == t.ctr
            &&& s.cfe_tuples == t.cfe_tuples && s.cfe_tables == t.cfe_tables && s.cfe_prior == t.cfe_prior
            &&& s.cfe_n_out == t.cfe_n_out && s.cfe_resid_tables == t.cfe_resid_tables && s.cfe_resid_prior
                == t.cfe_resid_prior
            &&& s.cat_offset_maps == t.cat_offset_maps && s.feature_usage_ema == t.feature_usage_ema
            &&& s.val_losses == t.val_losses && s.best_round == t.best_round
            &&& s.trees == t.trees && s.dart_tree_weights == t.dart_tree_weights
            &&& s.n_features == t.n_features && s.n_classes == t.n_classes
            &&& s.multiclass_trees_per_class == t.multiclass_trees_per_class && s.multiclass_tree_lr_scale
                == t.multiclass_tree_lr_scale
            &&& s.numeric_interaction_pairs == t.numeric_interaction_pairs && s.numeric_interaction_edges
                == t.numeric_interaction_edges
            &&& s.categorical_interaction_pairs == t.categorical_interaction_pairs && s.categorical_interaction_edges
                == t.categorical_interaction_edges
            &&& s.sumdiff_pairs == t.sumdiff_pairs && s.sumdiff_edges == t.sumdiff_edges
            &&& s.tree_in_sample@.len() == 0
            &&& s.binned is Some && s.binned->0.bin_indices@.len() == 0 && s.binned->0.cll_hash_bins@.len() == 0
            &&& s.binned->0.n_features == (t.binned->0).n_features && s.binned->0.missing_bin == (t.binned->0).missing_bin
            &&& s.binned->0.is_categorical == (t.binned->0).is_categorical && s.binned->0.cll_is_categorical
                == (t.binned->0).cll_is_categorical
            &&& s.binned->0.cll_n_bins == (t.binned->0).cll_n_bins && s.binned->0.n_rows == (t.binned->0).n_rows
        }),
{
}

} // verus!
