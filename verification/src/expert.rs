//! Admission of linear experts into leaves: the rows are parted into build and
//! calibration rows, the best features of a leaf are picked, and an expert
//! replaces a leaf's value where the calibration rows speak for it.

use crate::bits::{E_MINUS_9, POINT_55};
use crate::hashing::{scramble, scrambled, GOLDEN, MIX_A};
use crate::num::Num;
use crate::select::{all_kept, is_positive, is_top, keep_all, positive, select_top};
use crate::task::Task;
use crate::tree::{DecisionTree, NO_FEATURE};
use vstd::prelude::*;
use vstd::seq_lib::to_multiset_build;

verus! {

/// The settings that decide whether a model admits experts at all.
pub struct ExpertSettings {
    pub enabled: bool,
    pub task: Task,
    pub prob_avg: bool,
    pub honest: bool,
    pub leaf_linear: bool,
    pub leaf_quadratic: bool,
    pub ramp: bool,
    pub leaf_correction: usize,
    pub cat_lookup_smooth: Num,
    pub n_trees_per_round: usize,
}

impl ExpertSettings {
    /// Whether the settings leave room for experts.
    pub open spec fn compatible(&self) -> bool {
        &&& self.enabled
        &&& self.task == Task::Regression || self.task == Task::Binary
        &&& !self.prob_avg
        &&& !self.honest
        &&& !self.leaf_linear
        &&& !self.leaf_quadratic
        &&& !self.ramp
        &&& self.leaf_correction == 0
        &&& !positive(self.cat_lookup_smooth)
        &&& self.n_trees_per_round == 1
    }

    /// Experts are admitted where the settings allow it and a feature is numeric.
    pub fn should_use_expert_leaf_admission(&self, is_categorical: &Vec<bool>) -> (r: bool)
        ensures
            r == (self.compatible() && exists|f: int| 0 <= f < is_categorical@.len() && !#[trigger] is_categorical@[f]),
    {
        let fits: bool = match self.task {
            Task::Regression => true,
            Task::Binary => true,
            _ => false,
        };
        if !self.enabled || !fits || self.prob_avg || self.honest || self.leaf_linear || self.leaf_quadratic
            || self.ramp || self.leaf_correction > 0 || is_positive(&self.cat_lookup_smooth) || self.n_trees_per_round
            != 1 {
            return false;
        }
        let mut f: usize = 0;
        while f < is_categorical.len()
            invariant
                f <= is_categorical@.len(),
                self.compatible(),
                forall|k: int| 0 <= k < f ==> #[trigger] is_categorical@[k],
            decreases is_categorical@.len() - f,
        {
            if !is_categorical[f] {
                return true;
            }
            f = f + 1;
        }
        false
    }
}

/// The salt of a subtree's row partition.
pub open spec fn partition_salt(seed: u64, round: usize, sub_idx: usize) -> u64 {
    seed.wrapping_add((round as u64).wrapping_mul(GOLDEN)).wrapping_add((sub_idx as u64).wrapping_mul(MIX_A))
}

/// Whether a row is held back for calibration: one in four, by its hash.
pub open spec fn held_back(row: u32, salt: u64) -> bool {
    scrambled((row as u64).wrapping_add(salt)) & 3 == 0
}

/// The rows of a list that are held back, or those that are not, in list order.
pub open spec fn rows_held(list: Seq<u32>, salt: u64, held: bool) -> Seq<u32>
    decreases list.len(),
{
    if list.len() == 0 {
        Seq::empty()
    } else if held_back(list.last(), salt) == held {
        rows_held(list.drop_last(), salt, held).push(list.last())
    } else {
        rows_held(list.drop_last(), salt, held)
    }
}

/// Build and calibration rows part the list: together they hold every row as
/// often as the list does, and a row is held back or not by its hash alone.
pub proof fn law_partition_is_complete(list: Seq<u32>, salt: u64)
    ensures
        rows_held(list, salt, false).len() + rows_held(list, salt, true).len() == list.len(),
        rows_held(list, salt, false).to_multiset().add(rows_held(list, salt, true).to_multiset())
            == list.to_multiset(),
        forall|i: int| 0 <= i < rows_held(list, salt, true).len() ==> held_back(#[trigger] rows_held(list, salt, true)[i], salt),
        forall|i: int|
            0 <= i < rows_held(list, salt, false).len() ==> !held_back(#[trigger] rows_held(list, salt, false)[i], salt),
    decreases list.len(),
{
    broadcast use {vstd::multiset::group_multiset_axioms, vstd::seq_lib::group_to_multiset_ensures};

    if list.len() > 0 {
        let rest = list.drop_last();
        law_partition_is_complete(rest, salt);
        let x = list.last();
        to_multiset_build(rest, x);
        to_multiset_build(rows_held(rest, salt, true), x);
        to_multiset_build(rows_held(rest, salt, false), x);
        assert(rest.push(x) =~= list);
        assert(rows_held(list, salt, false).to_multiset().add(rows_held(list, salt, true).to_multiset())
            =~= list.to_multiset());
    } else {
        assert(list =~= Seq::empty());
        assert(rows_held(list, salt, false).to_multiset().add(rows_held(list, salt, true).to_multiset())
            =~= list.to_multiset());
    }
}

/// Parts rows into build rows and calibration rows, or nothing where either
/// part is too small.
pub fn vceg_partition_indices(
    indices: &Vec<u32>,
    seed: u64,
    round: usize,
    sub_idx: usize,
    min_build: usize,
    min_cal: usize,
) -> (r: Option<(Vec<u32>, Vec<u32>)>)
    ensures
        ({
            let salt = partition_salt(seed, round, sub_idx);
            let build = rows_held(indices@, salt, false);
            let cal = rows_held(indices@, salt, true);
            &&& r is Some <==> build.len() >= min_build && cal.len() >= min_cal
            &&& r matches Some(p) ==> p.0@ == build && p.1@ == cal
        }),
{
    let salt: u64 = seed.wrapping_add((round as u64).wrapping_mul(GOLDEN)).wrapping_add(
        (sub_idx as u64).wrapping_mul(MIX_A),
    );
    let mut build: Vec<u32> = Vec::new();
    let mut cal: Vec<u32> = Vec::new();
    let mut i: usize = 0;
    assert(indices@.take(0) =~= Seq::empty());
    while i < indices.len()
        invariant
            i <= indices@.len(),
            build@ == rows_held(indices@.take(i as int), salt, false),
            cal@ == rows_held(indices@.take(i as int), salt, true),
        decreases indices@.len() - i,
    {
        let row: u32 = indices[i];
        assert(indices@.take(i + 1).drop_last() =~= indices@.take(i as int));
        assert(indices@.take(i + 1).last() == row);
        let x: u64 = scramble((row as u64).wrapping_add(salt));
        if x & 3 == 0 {
            cal.push(row);
        } else {
            build.push(row);
        }
        i = i + 1;
    }
    assert(indices@.take(indices@.len() as int) =~= indices@);
    if build.len() >= min_build && cal.len() >= min_cal {
        Some((build, cal))
    } else {
        None
    }
}

/// By how many places the rows of a leaf are turned in a shadow trial.
pub open spec fn shadow_shift(seed: u64, len: usize, node: usize, trial: usize, salt: u64) -> int {
    if len <= 1 {
        0
    } else {
        1 + (scrambled(
            seed.wrapping_add(salt).wrapping_add((node as u64).wrapping_mul(GOLDEN)).wrapping_add(
                (trial as u64).wrapping_mul(MIX_A),
            ),
        ) as usize) as int % (len - 1)
    }
}

pub fn vceg_shadow_shift(seed: u64, len: usize, node: usize, trial: usize, salt: u64) -> (r: usize)
    ensures
        r == shadow_shift(seed, len, node, trial, salt),
        len > 1 ==> 1 <= r < len,
{
    if len <= 1 {
        return 0;
    }
    let x: u64 = scramble(
        seed.wrapping_add(salt).wrapping_add((node as u64).wrapping_mul(GOLDEN)).wrapping_add(
            (trial as u64).wrapping_mul(MIX_A),
        ),
    );
    1 + (#[verifier::truncate] (x as usize)) % (len - 1)
}

/// The position whose row stands in for the row at `pos` in a shadow trial.
pub open spec fn shadow_source(pos: int, shift: int, len: int) -> int {
    (pos + shift) % len
}

pub fn shadow_position(pos: usize, shift: usize, len: usize) -> (r: usize)
    requires
        pos < len,
        shift < len,
    ensures
        r == shadow_source(pos as int, shift as int, len as int),
        r < len,
{
    if shift < len - pos {
        proof {
            vstd::arithmetic::div_mod::lemma_small_mod((pos + shift) as nat, len as nat);
        }
        pos + shift
    } else {
        proof {
            vstd::arithmetic::div_mod::lemma_mod_add_multiples_vanish(pos + shift - len, len as int);
            vstd::arithmetic::div_mod::lemma_small_mod((pos + shift - len) as nat, len as nat);
        }
        shift - (len - pos)
    }
}

/// In a shadow trial no row stands in for itself, and no two rows share one.
pub proof fn law_shadow_moves_rows(p: int, q: int, shift: int, len: int)
    requires
        0 < shift < len,
        0 <= p < q < len,
    ensures
        shadow_source(p, shift, len) != p,
        shadow_source(q, shift, len) != q,
        shadow_source(p, shift, len) != shadow_source(q, shift, len),
{
    lemma_turn(p, shift, len);
    lemma_turn(q, shift, len);
}

proof fn lemma_turn(p: int, shift: int, len: int)
    requires
        0 < shift < len,
        0 <= p < len,
    ensures
        shadow_source(p, shift, len) == (if p + shift < len {
            p + shift
        } else {
            p + shift - len
        }),
{
    if p + shift < len {
        vstd::arithmetic::div_mod::lemma_small_mod((p + shift) as nat, len as nat);
    } else {
        vstd::arithmetic::div_mod::lemma_mod_add_multiples_vanish(p + shift - len, len);
        vstd::arithmetic::div_mod::lemma_small_mod((p + shift - len) as nat, len as nat);
    }
}

/// Whether a feature may carry an expert's slope: it exists and is numeric.
pub open spec fn is_numeric(is_categorical: Seq<bool>, n_features: int, f: int) -> bool {
    f < n_features && !(f < is_categorical.len() && is_categorical[f])
}

/// The numeric features on a leaf's path, each once, among the first `j` path slots.
pub open spec fn path_numeric(
    path_features: Seq<u32>,
    base: int,
    j: nat,
    is_categorical: Seq<bool>,
    n_features: int,
) -> Seq<usize>
    decreases j,
{
    if j == 0 {
        Seq::empty()
    } else {
        let rest = path_numeric(path_features, base, (j - 1) as nat, is_categorical, n_features);
        let at = base + j - 1;
        if at < path_features.len() && path_features[at] != NO_FEATURE && is_numeric(
            is_categorical,
            n_features,
            path_features[at] as int,
        ) && !rest.contains(path_features[at] as usize) {
            rest.push(path_features[at] as usize)
        } else {
            rest
        }
    }
}

fn list_contains(list: &Vec<usize>, f: usize) -> (r: bool)
    ensures
        r == list@.contains(f),
{
    let mut i: usize = 0;
    while i < list.len()
        invariant
            i <= list@.len(),
            forall|k: int| 0 <= k < i ==> #[trigger] list@[k] != f,
        decreases list@.len() - i,
    {
        if list[i] == f {
            return true;
        }
        i = i + 1;
    }
    false
}

/// The numeric features on the path of a leaf with `k` path slots.
pub fn path_candidates(
    path_features: &Vec<u32>,
    node: usize,
    k: usize,
    is_categorical: &Vec<bool>,
    n_features: usize,
) -> (list: Vec<usize>)
    requires
        node * k + k <= usize::MAX,
    ensures
        list@ == path_numeric(path_features@, node * k, k as nat, is_categorical@, n_features as int),
{
    assert(node * k >= 0) by (nonlinear_arith);
    let base: usize = node * k;
    let mut list: Vec<usize> = Vec::new();
    let mut j: usize = 0;
    while j < k
        invariant
            j <= k,
            base == node * k,
            base + k <= usize::MAX,
            list@ == path_numeric(path_features@, base as int, j as nat, is_categorical@, n_features as int),
        decreases k - j,
    {
        let at: usize = base + j;
        if at < path_features.len() && path_features[at] != NO_FEATURE {
            let f: usize = path_features[at] as usize;
            if f < n_features && !(f < is_categorical.len() && is_categorical[f]) && !list_contains(&list, f) {
                list.push(f);
            }
        }
        j = j + 1;
    }
    list
}

/// The number of terms of an expert: between one and four.
pub fn expert_terms(max_terms: usize) -> (k: usize)
    ensures
        k == crate::num::saturate(max_terms as int, 1, 4),
{
    if max_terms < 1 {
        1
    } else if max_terms > 4 {
        4
    } else {
        max_terms
    }
}

/// The best `k` of the scored features, by falling score, equal scores by feature.
pub fn expert_features(scores: &Vec<Num>, features: &Vec<usize>, k: usize) -> (picked: Vec<usize>)
    requires
        scores@.len() == features@.len(),
        forall|i: int, j: int|
            #![trigger features@[i], features@[j]]
            0 <= i < j < features@.len() ==> features@[i] < features@[j],
    ensures
        exists|top: Seq<usize>| #[trigger]
            is_top(scores@, all_kept(scores@.len()), k as int, top) && picked@ == Seq::new(
                top.len(),
                |p: int| features@[top[p] as int],
            ),
{
    let keep: Vec<bool> = keep_all(scores.len());
    let top: Vec<usize> = select_top(scores, &keep, k);
    let mut picked: Vec<usize> = Vec::new();
    let mut p: usize = 0;
    while p < top.len()
        invariant
            p <= top@.len(),
            picked@.len() == p,
            forall|q: int| 0 <= q < top@.len() ==> (#[trigger] top@[q]) < features@.len(),
            forall|q: int| 0 <= q < p ==> #[trigger] picked@[q] == features@[top@[q] as int],
        decreases top@.len() - p,
    {
        picked.push(features[top[p]]);
        p = p + 1;
    }
    assert(picked@ =~= Seq::new(top@.len(), |p: int| features@[top@[p] as int]));
    picked
}

/// How many features were searched: those on the path where all picked ones are on
/// it, else all numeric ones.
pub open spec fn searched(picked: Seq<usize>, path: Seq<usize>, n_numeric: int) -> int {
    if path.len() > 0 && forall|i: int| 0 <= i < picked.len() ==> path.contains(#[trigger] picked[i]) {
        path.len() as int
    } else {
        n_numeric
    }
}

/// The number of features that an expert was chosen from: those on the leaf's
/// path where all its features lie there, and all numeric ones otherwise.
pub fn search_width(picked: &Vec<usize>, path: &Vec<usize>, n_numeric: usize) -> (r: usize)
    ensures
        r == searched(picked@, path@, n_numeric as int),
{
    if path.len() == 0 {
        return n_numeric;
    }
    let mut i: usize = 0;
    while i < picked.len()
        invariant
            i <= picked@.len(),
            forall|k: int| 0 <= k < i ==> path@.contains(#[trigger] picked@[k]),
        decreases picked@.len() - i,
    {
        if !list_contains(path, picked[i]) {
            assert(!path@.contains(picked@[i as int]));
            return n_numeric;
        }
        i = i + 1;
    }
    path.len()
}

/// The number of values above zero.
pub open spec fn positives(v: Seq<Num>) -> nat
    decreases v.len(),
{
    if v.len() == 0 {
        0
    } else {
        positives(v.drop_last()) + (if positive(v.last()) {
            1nat
        } else {
            0
        })
    }
}

/// How many calibration rows an expert wins.
pub fn count_wins(diffs: &Vec<Num>) -> (n: usize)
    ensures
        n == positives(diffs@),
        n <= diffs@.len(),
{
    let mut n: usize = 0;
    let mut i: usize = 0;
    assert(diffs@.take(0) =~= Seq::empty());
    while i < diffs.len()
        invariant
            i <= diffs@.len(),
            n <= i,
            n == positives(diffs@.take(i as int)),
        decreases diffs@.len() - i,
    {
        assert(diffs@.take(i + 1).drop_last() =~= diffs@.take(i as int));
        assert(diffs@.take(i + 1).last() == diffs@[i as int]);
        if is_positive(&diffs[i]) {
            n = n + 1;
        }
        i = i + 1;
    }
    assert(diffs@.take(diffs@.len() as int) =~= diffs@);
    n
}

/// The expert wins often enough, and by more than the bound.
pub open spec fn expert_passes(win_rate: Num, robust_gain: Num, bound: Num) -> bool {
    (Num { bits: POINT_55 }).at_most(win_rate) && bound.below(robust_gain)
}

/// Whether an expert is admitted: it wins at least 55 percent of the
/// calibration rows, and its robust gain exceeds the bound of shadow gain and penalty.
pub fn expert_admitted(win_rate: &Num, robust_gain: &Num, bound: &Num) -> (r: bool)
    ensures
        r == expert_passes(*win_rate, *robust_gain, *bound),
{
    let least: Num = Num { bits: POINT_55 };
    least.le(win_rate) && bound.lt(robust_gain)
}

/// An expert for one leaf: its intercept, and one slope per feature.
pub struct LeafExpert {
    pub intercept: Num,
    pub features: Vec<usize>,
    pub slopes: Vec<Num>,
}

/// The expert of `node`, if it has one.
pub open spec fn expert_at(experts: Seq<Option<LeafExpert>>, node: int) -> Option<LeafExpert> {
    if 0 <= node < experts.len() {
        experts[node]
    } else {
        None
    }
}

/// Experts of at most `k` terms, with a slope for each feature.
pub open spec fn experts_sized(experts: Seq<Option<LeafExpert>>, k: int) -> bool {
    forall|node: int|
        0 <= node < experts.len() ==> match #[trigger] experts[node] {
            Some(e) => {
                &&& e.features@.len() == e.slopes@.len()
                &&& e.features@.len() <= k
                &&& forall|j: int| 0 <= j < e.features@.len() ==> (#[trigger] e.features@[j]) <= u32::MAX
            },
            None => true,
        }
}

/// The ramp feature in slot `i` of a table of `k` slots per node.
pub open spec fn ramp_feature_at(experts: Seq<Option<LeafExpert>>, k: int, i: int) -> u32 {
    match expert_at(experts, i / k) {
        Some(e) => if i % k < e.features@.len() {
            e.features@[i % k] as u32
        } else {
            NO_FEATURE
        },
        None => NO_FEATURE,
    }
}

/// The ramp slope in slot `i` of a table of `k` slots per node.
pub open spec fn ramp_slope_at(experts: Seq<Option<LeafExpert>>, k: int, i: int) -> Num {
    match expert_at(experts, i / k) {
        Some(e) => if i % k < e.features@.len() {
            e.slopes@[i % k]
        } else {
            Num { bits: 0 }
        },
        None => Num { bits: 0 },
    }
}

/// Whether any leaf has an expert.
pub open spec fn any_expert(experts: Seq<Option<LeafExpert>>) -> bool {
    exists|node: int| 0 <= node < experts.len() && (#[trigger] experts[node]) is Some
}

/// There are values, and their deviation is finite and not negligible.
pub open spec fn spreads(n_values: int, deviation: Num) -> bool {
    n_values > 0 && deviation.finite() && (Num { bits: E_MINUS_9 }).below(deviation)
}

/// Whether a feature spreads over a leaf widely enough for an expert: it has
/// values there, and their deviation is a number above 1e-9.
pub fn feature_spreads(n_values: usize, deviation: &Num) -> (r: bool)
    ensures
        r == spreads(n_values as int, *deviation),
{
    let least: Num = Num { bits: E_MINUS_9 };
    n_values > 0 && deviation.is_finite() && least.lt(deviation)
}

/// Installs the admitted experts: their leaves take the intercepts as values,
/// and the tree's ramp table is made anew with `k` slots per node. Without an
/// expert the tree stays as it is.
pub fn install_experts(tree: &mut DecisionTree, experts: &Vec<Option<LeafExpert>>, k: usize)
    requires
        old(tree).well_formed(),
        experts@.len() == old(tree).size(),
        0 < k,
        old(tree).size() * k <= usize::MAX,
        experts_sized(experts@, k as int),
        forall|node: int|
            0 <= node < experts@.len() && (#[trigger] experts@[node]) is Some ==> old(tree).is_leaf(node),
    ensures
        !any_expert(experts@) ==> *final(tree) == *old(tree),
        any_expert(experts@) ==> {
            &&& final(tree).values@.len() == old(tree).values@.len()
            &&& forall|node: int|
                0 <= node < old(tree).size() ==> #[trigger] final(tree).values@[node] == (match experts@[node] {
                    Some(e) => e.intercept,
                    None => old(tree).values@[node],
                })
            &&& final(tree).ramp_k == k
            &&& final(tree).ramp_features@.len() == old(tree).size() * k
            &&& final(tree).ramp_slopes@.len() == old(tree).size() * k
            &&& forall|i: int|
                0 <= i < old(tree).size() * k ==> #[trigger] final(tree).ramp_features@[i] == ramp_feature_at(
                    experts@,
                    k as int,
                    i,
                )
            &&& forall|i: int|
                0 <= i < old(tree).size() * k ==> #[trigger] final(tree).ramp_slopes@[i] == ramp_slope_at(
                    experts@,
                    k as int,
                    i,
                )
            &&& *final(tree) == (DecisionTree {
                values: final(tree).values,
                ramp_k: final(tree).ramp_k,
                ramp_features: final(tree).ramp_features,
                ramp_slopes: final(tree).ramp_slopes,
                ..*old(tree)
            })
        },
{
    let n: usize = tree.split_features.len();
    let start = Ghost(*tree);
    let mut values: Vec<Num> = Vec::new();
    let mut features: Vec<u32> = Vec::new();
    let mut slopes: Vec<Num> = Vec::new();
    let mut admitted: bool = false;
    let mut node: usize = 0;
    assert(0 * k == 0) by (nonlinear_arith);
    while node < n
        invariant
            node <= n,
            n == start@.size(),
            *tree == start@,
            start@.well_formed(),
            experts@.len() == n,
            0 < k,
            n * k <= usize::MAX,
            experts_sized(experts@, k as int),
            admitted <==> exists|m: int| 0 <= m < node && (#[trigger] experts@[m]) is Some,
            values@.len() == node,
            forall|m: int|
                0 <= m < node ==> #[trigger] values@[m] == (match experts@[m] {
                    Some(e) => e.intercept,
                    None => start@.values@[m],
                }),
            features@.len() == node * k,
            slopes@.len() == node * k,
            forall|i: int| 0 <= i < node * k ==> #[trigger] features@[i] == ramp_feature_at(experts@, k as int, i),
            forall|i: int| 0 <= i < node * k ==> #[trigger] slopes@[i] == ramp_slope_at(experts@, k as int, i),
        decreases n - node,
    {
        let mut j: usize = 0;
        assert((node + 1) * k == node * k + k) by (nonlinear_arith);
        assert(experts@[node as int] == experts[node as int]);
        while j < k
            invariant
                j <= k,
                node < n,
                experts@.len() == n,
                experts_sized(experts@, k as int),
                features@.len() == node * k + j,
                slopes@.len() == node * k + j,
                forall|i: int|
                    0 <= i < node * k + j ==> #[trigger] features@[i] == ramp_feature_at(experts@, k as int, i),
                forall|i: int|
                    0 <= i < node * k + j ==> #[trigger] slopes@[i] == ramp_slope_at(experts@, k as int, i),
            decreases k - j,
        {
            proof {
                let i = node * k + j;
                assert(k * node == node * k) by (nonlinear_arith);
                vstd::arithmetic::div_mod::lemma_fundamental_div_mod_converse(
                    i,
                    k as int,
                    node as int,
                    j as int,
                );
                assert(expert_at(experts@, i / (k as int)) == experts@[node as int]);
            }
            match &experts[node] {
                Some(e) => {
                    if j < e.features.len() {
                        features.push(e.features[j] as u32);
                        slopes.push(e.slopes[j]);
                    } else {
                        features.push(NO_FEATURE);
                        slopes.push(Num { bits: 0 });
                    }
                },
                None => {
                    features.push(NO_FEATURE);
                    slopes.push(Num { bits: 0 });
                },
            }
            j = j + 1;
        }
        match &experts[node] {
            Some(e) => {
                values.push(e.intercept);
                assert(experts@[node as int] is Some);
                admitted = true;
            },
            None => {
                values.push(tree.values[node]);
            },
        }
        node = node + 1;
    }
    if admitted {
        tree.values = values;
        tree.ramp_k = k;
        tree.ramp_features = features;
        tree.ramp_slopes = slopes;
    }
}

/// An expert is admitted exactly where it wins at least fifty-five times in a hundred
/// and its gain lies above the bound; so a higher gain or a lower bound never
/// shuts it out.
pub proof fn law_experts_beat_their_bound(win_rate: Num, gain: Num, bound: Num)
    requires
        win_rate.finite(),
        gain.finite(),
        bound.finite(),
    ensures
        expert_passes(win_rate, gain, bound) <==> bound.scaled() < gain.scaled() && 0x3fe1_9999_9999_999a
            <= win_rate.bits < 0x7ff0_0000_0000_0000,
{
    crate::num::law_key_orders_values(bound, gain);
}

/// Features that all rows share are not looked at.
pub proof fn law_flat_features_are_passed_over(n_values: int, deviation: Num)
    ensures
        spreads(n_values, deviation) <==> 0 < n_values && 0x3e11_2e0b_e826_d695 < deviation.bits
            < 0x7ff0_0000_0000_0000,
{
}

/// A search counts as one of the path alone only where nothing was picked beside it.
pub proof fn law_searches_count_what_was_open(picked: Seq<usize>, path: Seq<usize>, n_numeric: int, i: int)
    ensures
        path.len() == 0 ==> searched(picked, path, n_numeric) == n_numeric,
        0 <= i < picked.len() && !path.contains(picked[i]) ==> searched(picked, path, n_numeric) == n_numeric,
        path.len() > 0 && (forall|k: int| 0 <= k < picked.len() ==> path.contains(#[trigger] picked[k])) ==> searched(
            picked,
            path,
            n_numeric,
        ) == path.len(),
{
}

/// Experts are sought only where nothing else shapes the leaves: one tree a round, one
/// score, no averaging, no honest rows, no other form of leaf and no correction.
pub proof fn law_experts_stand_alone(s: ExpertSettings)
    ensures
        s.compatible() <==> {
            &&& s.enabled && (s.task == Task::Regression || s.task == Task::Binary)
            &&& s.n_trees_per_round == 1
            &&& !(s.prob_avg || s.honest || s.leaf_linear || s.leaf_quadratic || s.ramp)
            &&& s.leaf_correction == 0
            &&& !(0 < s.cat_lookup_smooth.bits <= 0x7ff0_0000_0000_0000)
        },
{
}

/// One row in four is held back: those whose hash is a multiple of four. A row is
/// held back in one of two lists exactly where it is in the other.
pub proof fn law_one_in_four_is_held_back(row: u32, salt: u64, list: Seq<u32>, i: int)
    ensures
        held_back(row, salt) <==> scrambled((row as u64).wrapping_add(salt)) % 4 == 0,
        0 <= i < list.len() ==> rows_held(list, salt, held_back(list[i], salt)).contains(list[i])
            && !rows_held(list, salt, !held_back(list[i], salt)).contains(list[i]),
    decreases list.len(),
{
    let h: u64 = scrambled((row as u64).wrapping_add(salt));
    assert(h & 3 == 0 <==> h % 4 == 0) by (bit_vector);
    law_partition_is_complete(list, salt);
    if 0 <= i < list.len() {
        let rest = list.drop_last();
        let held = held_back(list[i], salt);
        let all = rows_held(list, salt, held);
        if i < list.len() - 1 {
            law_one_in_four_is_held_back(row, salt, rest, i);
            let sub = rows_held(rest, salt, held);
            assert(rest[i] == list[i]);
            let k = choose|k: int| 0 <= k < sub.len() && sub[k] == list[i];
            assert(all[k] == list[i]);
        } else {
            assert(all[all.len() - 1] == list[i]);
        }
    }
}

/// A shadow reads the row that many places on, from the start again behind the last.
pub proof fn law_shadows_go_round(pos: int, shift: int, len: int, seed: u64, rows: usize, node: usize, trial: usize, salt: u64)
    requires
        0 <= pos < len,
        0 <= shift < len,
    ensures
        shadow_source(pos, shift, len) == if pos + shift < len {
            pos + shift
        } else {
            pos + shift - len
        },
        rows > 1 ==> 0 < shadow_shift(seed, rows, node, trial, salt) < rows,
        rows <= 1 ==> shadow_shift(seed, rows, node, trial, salt) == 0,
{
    if pos + shift < len {
        vstd::arithmetic::div_mod::lemma_small_mod((pos + shift) as nat, len as nat);
    } else {
        vstd::arithmetic::div_mod::lemma_small_mod((pos + shift - len) as nat, len as nat);
        vstd::arithmetic::div_mod::lemma_mod_add_multiples_vanish(pos + shift - len, len);
    }
}

proof fn lemma_path_numeric(
    path_features: Seq<u32>,
    base: int,
    j: nat,
    is_categorical: Seq<bool>,
    n_features: int,
    f: usize,
)
    ensures
        path_numeric(path_features, base, j, is_categorical, n_features).no_duplicates(),
        path_numeric(path_features, base, j, is_categorical, n_features).contains(f) <==> f < n_features && !(f
            < is_categorical.len() && is_categorical[f as int]) && exists|i: int|
            base <= i < base + j && i < path_features.len() && (#[trigger] path_features[i]) == f && path_features[i]
                != u32::MAX,
    decreases j,
{
    if j > 0 {
        let rest = path_numeric(path_features, base, (j - 1) as nat, is_categorical, n_features);
        let all = path_numeric(path_features, base, j, is_categorical, n_features);
        let at = base + j - 1;
        lemma_path_numeric(path_features, base, (j - 1) as nat, is_categorical, n_features, f);
        if all != rest {
            assert(all == rest.push(path_features[at] as usize));
            assert(all.contains(f) <==> rest.contains(f) || f == path_features[at] as usize) by {
                if rest.contains(f) {
                    let k = choose|k: int| 0 <= k < rest.len() && rest[k] == f;
                    assert(all[k] == f);
                }
                if f == path_features[at] as usize {
                    assert(all[all.len() - 1] == f);
                }
            }
        }
    }
}

/// The candidates of a leaf are the numeric features that its path splits on, each
/// once.
pub proof fn law_candidates_are_on_the_path(
    path_features: Seq<u32>,
    base: int,
    k: nat,
    is_categorical: Seq<bool>,
    n_features: int,
    f: usize,
)
    ensures
        ({
            let list = path_numeric(path_features, base, k, is_categorical, n_features);
            &&& list.no_duplicates()
            &&& list.contains(f) <==> f < n_features && !(f < is_categorical.len() && is_categorical[f as int])
                && exists|i: int|
                base <= i < base + k && i < path_features.len() && (#[trigger] path_features[i]) == f
                    && path_features[i] != u32::MAX
        }),
{
    lemma_path_numeric(path_features, base, k, is_categorical, n_features, f);
}

/// Wins are counted one by one: those of two lists add up, and a difference counts
/// exactly where it lies above zero.
pub proof fn law_wins_add_up(a: Seq<Num>, b: Seq<Num>, v: Num)
    ensures
        positives(a + b) == positives(a) + positives(b),
        positives(seq![v]) == if 0 < v.bits <= 0x7ff0_0000_0000_0000 {
            1nat
        } else {
            0
        },
    decreases b.len(),
{
    reveal_with_fuel(positives, 2);
    assert(seq![v].drop_last() =~= Seq::<Num>::empty());
    if b.len() > 0 {
        law_wins_add_up(a, b.drop_last(), v);
        assert((a + b).drop_last() =~= a + b.drop_last());
        assert((a + b).last() == b.last());
    } else {
        assert(a + b =~= a);
    }
}

/// Every leaf has its expert's features and slopes in its own slots, in their order,
/// and the slots that are left over stand empty.
pub proof fn law_experts_fill_their_slots(experts: Seq<Option<LeafExpert>>, k: int, node: int, j: int)
    requires
        experts_sized(experts, k),
        0 <= node < experts.len(),
        0 <= j < k,
    ensures
        match experts[node] {
            Some(e) => if j < e.features@.len() {
                &&& ramp_feature_at(experts, k, node * k + j) == e.features@[j]
                &&& ramp_slope_at(experts, k, node * k + j) == e.slopes@[j]
            } else {
                &&& ramp_feature_at(experts, k, node * k + j) == u32::MAX
                &&& ramp_slope_at(experts, k, node * k + j).bits == 0
            },
            None => {
                &&& ramp_feature_at(experts, k, node * k + j) == u32::MAX
                &&& ramp_slope_at(experts, k, node * k + j).bits == 0
            },
        },
{
    vstd::arithmetic::div_mod::lemma_fundamental_div_mod_converse(node * k + j, k, node, j);
}

} // verus!
