//! The course of an expert admission: which leaves are looked at, on which
//! rows, and which shadow trials an expert has to beat.

use crate::bits::{E_MINUS_12, E_MINUS_9};
use crate::expert::{
    is_numeric, path_candidates, path_numeric, shadow_position, shadow_shift, shadow_source, vceg_shadow_shift,
};
use crate::leaves::{rows_by_leaf, rows_ending};
use crate::num::Num;
use crate::select::{at_most, collect_kept, kept_indices};
use crate::tree::{BinnedData, DecisionTree, NO_FEATURE};
use vstd::prelude::*;

verus! {

/// What turns the build rows of a shadow trial.
pub const BUILD_SALT: u64 = 0xD1B5_4A32_D192_ED03;

/// What turns the calibration rows of a shadow trial.
pub const CALIBRATION_SALT: u64 = 0xA24B_AED4_963E_E407;

/// Which features may carry a slope.
pub open spec fn numeric_columns(data: BinnedData) -> Seq<bool> {
    Seq::new(data.n_features as nat, |f: int| is_numeric(data.is_categorical@, data.n_features as int, f))
}

/// The features that may carry a slope.
pub fn expert_columns(data: &BinnedData) -> (list: Vec<usize>)
    ensures
        list@ == kept_indices(numeric_columns(*data)),
{
    let mut flags: Vec<bool> = Vec::new();
    let mut f: usize = 0;
    while f < data.n_features
        invariant
            f <= data.n_features,
            flags@.len() == f,
            forall|k: int| 0 <= k < f ==> #[trigger] flags@[k] == numeric_columns(*data)[k],
        decreases data.n_features - f,
    {
        flags.push(!(f < data.is_categorical.len() && data.is_categorical[f]));
        f = f + 1;
    }
    assert(flags@ =~= numeric_columns(*data));
    collect_kept(&flags)
}

/// Experts are admitted, and there are rows of both kinds and columns.
pub open spec fn sought(admitted: bool, n_build: int, n_calibration: int, n_columns: int) -> bool {
    admitted && n_build > 0 && n_calibration > 0 && n_columns > 0
}

/// Whether any experts are sought: they are admitted, and there are rows and features for them.
pub fn experts_sought(admitted: bool, n_build: usize, n_calibration: usize, n_columns: usize) -> (r: bool)
    ensures
        r == sought(admitted, n_build as int, n_calibration as int, n_columns as int),
{
    admitted && n_build > 0 && n_calibration > 0 && n_columns > 0
}

/// A leaf that an expert is sought for, with its rows and the numeric features on its path.
pub struct ExpertLeaf {
    pub node: usize,
    pub build: Vec<u32>,
    pub calibration: Vec<u32>,
    pub path: Vec<usize>,
}

/// What the leaves are looked at for.
pub struct ExpertRows {
    pub build: Vec<u32>,
    pub calibration: Vec<u32>,
    pub min_build: usize,
    pub min_calibration: usize,
}

impl ExpertRows {
    /// Whether an expert is sought for a node: it is a leaf with rows enough of both kinds.
    pub open spec fn qualifies(&self, tree: DecisionTree, data: BinnedData, node: int) -> bool {
        &&& tree.is_leaf(node)
        &&& rows_ending(tree, data, self.build@, node).len() >= self.min_build
        &&& rows_ending(tree, data, self.calibration@, node).len() >= self.min_calibration
    }

    pub open spec fn qualifying(&self, tree: DecisionTree, data: BinnedData) -> Seq<bool> {
        Seq::new(tree.size() as nat, |node: int| self.qualifies(tree, data, node))
    }

    /// `leaf` is what is known of a node.
    pub open spec fn describes(
        &self,
        leaf: ExpertLeaf,
        tree: DecisionTree,
        data: BinnedData,
        path_features: Seq<u32>,
        k: int,
        node: int,
    ) -> bool {
        &&& leaf.node == node
        &&& leaf.build@ == rows_ending(tree, data, self.build@, node)
        &&& leaf.calibration@ == rows_ending(tree, data, self.calibration@, node)
        &&& leaf.path@ == path_numeric(path_features, node * k, k as nat, data.is_categorical@, data.n_features as int)
    }

    /// The leaves that an expert is sought for; `path_features` has `k` slots for each node.
    pub fn expert_leaves(&self, tree: &DecisionTree, data: &BinnedData, path_features: &Vec<u32>, k: usize) -> (list:
        Vec<ExpertLeaf>)
        requires
            tree.fits(*data),
            tree.size() * k <= usize::MAX,
            forall|i: int| 0 <= i < self.build@.len() ==> #[trigger] self.build@[i] < data.n_rows,
            forall|i: int| 0 <= i < self.calibration@.len() ==> #[trigger] self.calibration@[i] < data.n_rows,
        ensures
            ({
                let kept = kept_indices(self.qualifying(*tree, *data));
                &&& list@.len() == kept.len()
                &&& forall|p: int|
                    0 <= p < list@.len() ==> self.describes(
                        #[trigger] list@[p],
                        *tree,
                        *data,
                        path_features@,
                        k as int,
                        kept[p] as int,
                    )
            }),
    {
        let build_rows: Vec<Vec<u32>> = rows_by_leaf(tree, data, &self.build);
        let calibration_rows: Vec<Vec<u32>> = rows_by_leaf(tree, data, &self.calibration);
        let n: usize = tree.split_features.len();
        let ghost flags = self.qualifying(*tree, *data);
        let mut list: Vec<ExpertLeaf> = Vec::new();
        let mut node: usize = 0;
        assert(flags.take(0) =~= Seq::empty());
        while node < n
            invariant
                node <= n,
                n == tree.size(),
                n == tree.split_features@.len(),
                tree.size() * k <= usize::MAX,
                build_rows@.len() == n,
                calibration_rows@.len() == n,
                forall|i: int|
                    0 <= i < n ==> (#[trigger] build_rows@[i])@ == rows_ending(*tree, *data, self.build@, i),
                forall|i: int|
                    0 <= i < n ==> (#[trigger] calibration_rows@[i])@ == rows_ending(
                        *tree,
                        *data,
                        self.calibration@,
                        i,
                    ),
                flags == self.qualifying(*tree, *data),
                list@.len() == kept_indices(flags.take(node as int)).len(),
                forall|p: int|
                    0 <= p < list@.len() ==> self.describes(
                        #[trigger] list@[p],
                        *tree,
                        *data,
                        path_features@,
                        k as int,
                        kept_indices(flags.take(node as int))[p] as int,
                    ),
            decreases n - node,
        {
            assert(flags.take(node + 1).drop_last() =~= flags.take(node as int));
            assert(flags.take(node + 1).last() == flags[node as int]);
            if tree.split_features[node] == NO_FEATURE && build_rows[node].len() >= self.min_build
                && calibration_rows[node].len() >= self.min_calibration {
                assert(node * k + k <= n * k) by (nonlinear_arith)
                    requires
                        node + 1 <= n,
                ;
                let path: Vec<usize> = path_candidates(path_features, node, k, &data.is_categorical, data.n_features);
                let build: Vec<u32> = build_rows[node].clone();
                let calibration: Vec<u32> = calibration_rows[node].clone();
                assert(build@ =~= build_rows@[node as int]@);
                assert(calibration@ =~= calibration_rows@[node as int]@);
                list.push(ExpertLeaf { node, build, calibration, path });
            }
            node = node + 1;
        }
        assert(flags.take(n as int) =~= flags);
        list
    }
}

/// The features whose spread on the build rows is large enough to carry a slope.
pub fn spread_columns(spreads: &Vec<Num>) -> (list: Vec<usize>)
    ensures
        list@ == kept_indices(Seq::new(spreads@.len(), |i: int| (Num { bits: E_MINUS_12 }).below(spreads@[i]))),
{
    let least: Num = Num { bits: E_MINUS_12 };
    let mut flags: Vec<bool> = Vec::new();
    let mut i: usize = 0;
    while i < spreads.len()
        invariant
            i <= spreads@.len(),
            least.bits == E_MINUS_12,
            flags@.len() == i,
            forall|k: int| 0 <= k < i ==> #[trigger] flags@[k] == (Num { bits: E_MINUS_12 }).below(spreads@[k]),
        decreases spreads@.len() - i,
    {
        flags.push(least.lt(&spreads[i]));
        i = i + 1;
    }
    assert(flags@ =~= Seq::new(spreads@.len(), |i: int| (Num { bits: E_MINUS_12 }).below(spreads@[i])));
    collect_kept(&flags)
}

/// All terms are finite, and the step is not negligible.
pub open spec fn goes_on(terms: Seq<Num>, step: Num) -> bool {
    (forall|i: int| 0 <= i < terms.len() ==> (#[trigger] terms[i]).finite()) && !step.at_most(Num { bits: E_MINUS_9 })
}

/// Whether a solved expert goes on: its terms are finite and its step is not negligible.
pub fn expert_goes_on(terms: &Vec<Num>, step: &Num) -> (r: bool)
    ensures
        r == goes_on(terms@, *step),
{
    let mut i: usize = 0;
    while i < terms.len()
        invariant
            i <= terms@.len(),
            forall|k: int| 0 <= k < i ==> (#[trigger] terms@[k]).finite(),
        decreases terms@.len() - i,
    {
        if !terms[i].is_finite() {
            return false;
        }
        i = i + 1;
    }
    let least: Num = Num { bits: E_MINUS_9 };
    !step.le(&least)
}

/// How many shadow trials are run: up to eight, and none where a side has one row only.
pub open spec fn trials(asked: int, n_build: int, n_calibration: int) -> int {
    if n_build > 1 && n_calibration > 1 {
        at_most(asked, 8)
    } else {
        0
    }
}

/// The number of shadow trials: as asked, eight at most, and none with a single row of either kind.
pub fn shadow_trials(asked: usize, n_build: usize, n_calibration: usize) -> (r: usize)
    ensures
        r == trials(asked as int, n_build as int, n_calibration as int),
{
    if n_build > 1 && n_calibration > 1 {
        if asked <= 8 {
            asked
        } else {
            8
        }
    } else {
        0
    }
}

/// The rows that stand in for `rows`, turned by `shift` places.
pub open spec fn turned(rows: Seq<u32>, shift: int) -> Seq<u32> {
    Seq::new(rows.len(), |p: int| rows[shadow_source(p, shift, rows.len() as int)])
}

fn turn_rows(rows: &Vec<u32>, shift: usize) -> (r: Vec<u32>)
    requires
        shift < rows@.len() || rows@.len() == 0,
    ensures
        r@ == turned(rows@, shift as int),
{
    let mut r: Vec<u32> = Vec::new();
    let mut p: usize = 0;
    while p < rows.len()
        invariant
            p <= rows@.len(),
            shift < rows@.len() || rows@.len() == 0,
            r@.len() == p,
            forall|q: int| 0 <= q < p ==> #[trigger] r@[q] == turned(rows@, shift as int)[q],
        decreases rows@.len() - p,
    {
        r.push(rows[shadow_position(p, shift, rows.len())]);
        p = p + 1;
    }
    assert(r@ =~= turned(rows@, shift as int));
    r
}

/// The rows that stand in for the build and calibration rows of a leaf in a shadow trial.
pub fn shadow_rows(seed: u64, leaf: &ExpertLeaf, trial: usize) -> (r: (Vec<u32>, Vec<u32>))
    ensures
        r.0@ == turned(
            leaf.build@,
            shadow_shift(seed, leaf.build@.len() as usize, leaf.node, trial, BUILD_SALT),
        ),
        r.1@ == turned(
            leaf.calibration@,
            shadow_shift(seed, leaf.calibration@.len() as usize, leaf.node, trial, CALIBRATION_SALT),
        ),
{
    let a: usize = vceg_shadow_shift(seed, leaf.build.len(), leaf.node, trial, BUILD_SALT);
    let b: usize = vceg_shadow_shift(seed, leaf.calibration.len(), leaf.node, trial, CALIBRATION_SALT);
    (turn_rows(&leaf.build, a), turn_rows(&leaf.calibration, b))
}

/// The highest gain of the first `n` shadow trials that came to one, zero at least.
pub open spec fn highest_gain(gains: Seq<Option<Num>>, n: nat) -> Num
    decreases n,
{
    if n == 0 {
        Num { bits: 0 }
    } else {
        match gains[n - 1] {
            Some(g) => highest_gain(gains, (n - 1) as nat).larger(g),
            None => highest_gain(gains, (n - 1) as nat),
        }
    }
}

/// The gain that an expert has to beat.
pub fn shadow_threshold(gains: &Vec<Option<Num>>) -> (r: Num)
    ensures
        r == highest_gain(gains@, gains@.len()),
{
    let mut r: Num = Num { bits: 0 };
    let mut i: usize = 0;
    while i < gains.len()
        invariant
            i <= gains@.len(),
            r == highest_gain(gains@, i as nat),
        decreases gains@.len() - i,
    {
        match &gains[i] {
            Some(g) => {
                r = r.max(g);
            },
            None => {},
        }
        i = i + 1;
    }
    r
}

/// A search that lacks rows of either kind, or columns, is not made, and shadows are
/// turned only where turning moves a row on both sides.
pub proof fn law_searches_need_both_sides(admitted: bool, asked: int, n_build: int, n_calibration: int, n_columns: int)
    requires
        0 <= n_build,
        0 <= n_calibration,
        0 <= n_columns,
        0 <= asked,
    ensures
        sought(admitted, n_build, n_calibration, n_columns) <==> admitted && n_build != 0 && n_calibration != 0
            && n_columns != 0,
        0 <= trials(asked, n_build, n_calibration) <= 8,
        trials(asked, n_build, n_calibration) > 0 ==> n_build >= 2 && n_calibration >= 2,
        n_build >= 2 && n_calibration >= 2 && asked <= 8 ==> trials(asked, n_build, n_calibration) == asked,
        n_build >= 2 && n_calibration >= 2 && asked > 8 ==> trials(asked, n_build, n_calibration) == 8,
{
}

/// One term that is not finite, or a step too small to move, stops an expert.
pub proof fn law_lost_experts_stop(terms: Seq<Num>, step: Num, i: int)
    ensures
        0 <= i < terms.len() && !terms[i].finite() ==> !goes_on(terms, step),
        step.finite() && (step.bits <= 0x3e11_2e0b_e826_d695 || step.bits >= 0x8000_0000_0000_0000) ==> !goes_on(
            terms,
            step,
        ),
        (forall|k: int| 0 <= k < terms.len() ==> (#[trigger] terms[k]).finite()) && 0x3e11_2e0b_e826_d695 < step.bits
            < 0x8000_0000_0000_0000 ==> goes_on(terms, step),
{
}

/// The columns looked at are the numeric ones.
pub proof fn law_columns_looked_at_are_numeric(data: BinnedData, f: usize)
    ensures
        kept_indices(numeric_columns(data)).contains(f) <==> f < data.n_features && !(f < data.is_categorical@.len()
            && data.is_categorical@[f as int]),
{
    crate::select::law_kept_are_those_marked(numeric_columns(data), f);
}

/// The leaves looked at are those where enough rows of both kinds end.
pub proof fn law_leaves_looked_at_hold_rows(rows: ExpertRows, tree: DecisionTree, data: BinnedData, node: usize)
    requires
        tree.size() <= usize::MAX,
    ensures
        kept_indices(rows.qualifying(tree, data)).contains(node) <==> {
            &&& node < tree.size()
            &&& tree.is_leaf(node as int)
            &&& rows_ending(tree, data, rows.build@, node as int).len() >= rows.min_build
            &&& rows_ending(tree, data, rows.calibration@, node as int).len() >= rows.min_calibration
        },
{
    crate::select::law_kept_are_those_marked(rows.qualifying(tree, data), node);
}

/// A shadow holds the rows of its leaf, each in the place of another, and none is
/// lost: every row stands somewhere.
pub proof fn law_shadows_keep_rows(rows: Seq<u32>, shift: int, p: int)
    requires
        0 < shift < rows.len(),
        0 <= p < rows.len(),
    ensures
        turned(rows, shift).len() == rows.len(),
        turned(rows, shift)[p] == rows[if p + shift < rows.len() {
            p + shift
        } else {
            p + shift - rows.len()
        }],
        turned(rows, shift).contains(rows[p]),
{
    let n = rows.len() as int;
    crate::expert::law_shadows_go_round(p, shift, n, 0, 0, 0, 0, 0);
    let q = if p >= shift {
        p - shift
    } else {
        p - shift + n
    };
    crate::expert::law_shadows_go_round(q, shift, n, 0, 0, 0, 0, 0);
    assert(turned(rows, shift)[q] == rows[p]);
}

/// An expert has to beat every shadow: the threshold is no less than any gain of
/// theirs, nor than zero, and one of these.
pub proof fn law_threshold_is_above_shadows(gains: Seq<Option<Num>>, n: nat, i: int)
    requires
        0 <= i < n <= gains.len(),
    ensures
        !highest_gain(gains, n).nan(),
        (Num { bits: 0 }).at_most(highest_gain(gains, n)),
        gains[i] matches Some(g) ==> !g.nan() ==> g.at_most(highest_gain(gains, n)),
        highest_gain(gains, n).bits == 0 || exists|k: int|
            0 <= k < n && #[trigger] gains[k] == Some(highest_gain(gains, n)),
    decreases n,
{
    lemma_highest_gain(gains, n);
    lemma_highest_gain(gains, (n - 1) as nat);
    if i < n - 1 {
        law_threshold_is_above_shadows(gains, (n - 1) as nat, i);
    }
}

proof fn lemma_highest_gain(gains: Seq<Option<Num>>, n: nat)
    requires
        n <= gains.len(),
    ensures
        !highest_gain(gains, n).nan(),
        (Num { bits: 0 }).at_most(highest_gain(gains, n)),
        highest_gain(gains, n).bits == 0 || exists|k: int|
            0 <= k < n && #[trigger] gains[k] == Some(highest_gain(gains, n)),
    decreases n,
{
    if n > 0 {
        lemma_highest_gain(gains, (n - 1) as nat);
        let before = highest_gain(gains, (n - 1) as nat);
        if highest_gain(gains, n) != before {
            assert(gains[n - 1] == Some(highest_gain(gains, n)));
        }
    }
}

/// What is told of a leaf is its own: the build rows and the calibration rows that end in
/// it, each of their kind.
pub proof fn law_leaves_are_told_their_rows(
    rows: ExpertRows,
    leaf: ExpertLeaf,
    tree: DecisionTree,
    data: BinnedData,
    path_features: Seq<u32>,
    k: int,
    node: int,
    row: u32,
)
    requires
        rows.describes(leaf, tree, data, path_features, k, node),
    ensures
        leaf.node == node,
        leaf.build@.contains(row) <==> rows.build@.contains(row) && tree.leaf_of(data, row as int) == node,
        leaf.calibration@.contains(row) <==> rows.calibration@.contains(row) && tree.leaf_of(data, row as int) == node,
        leaf.path@.no_duplicates(),
{
    crate::leaves::law_rows_end_in_one_leaf(tree, data, rows.build@, Seq::empty(), node, row);
    crate::leaves::law_rows_end_in_one_leaf(tree, data, rows.calibration@, Seq::empty(), node, row);
    crate::expert::law_candidates_are_on_the_path(
        path_features,
        node * k,
        k as nat,
        data.is_categorical@,
        data.n_features as int,
        0,
    );
}

} // verus!
