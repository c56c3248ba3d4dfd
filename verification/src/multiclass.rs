//! Planning of multi-class training: tree layout, ordered buckets, the plan
//! of each shared tree, and the course of the rounds.

use crate::bits::{ONE, POINT_1, POINT_9};
use crate::bitset::{bitvec_new, bitvec_set, has_bit};
use crate::evidence::{is_deal, shuffled_deal};
use crate::leaves::{rows_by_leaf, rows_ending};
use crate::num::{saturate, Num};
use crate::pressure::{absent_flags, rows_absent};
use crate::random::{draw_word, held_words, seeded, shuffle, words_of_seed};
use crate::ctr::row_list;
use crate::select::{collect_kept, kept_indices, lemma_kept_indices};
use crate::tree::{lemma_cell, BinnedData, DecisionTree};
use rand::rngs::StdRng;
use vstd::prelude::*;
use vstd::seq_lib::{to_multiset_contains, to_multiset_len};

verus! {

/// The class that tree `t` adds to.
pub open spec fn class_of_tree(t: int, trees_per_class: int, n_classes: int) -> int {
    (t / trees_per_class) % n_classes
}

/// Where subtree `sub` of class `k` in `round` stands in the list of trees.
pub open spec fn tree_position(round: int, k: int, sub: int, trees_per_class: int, n_classes: int) -> int {
    (round * n_classes + k) * trees_per_class + sub
}

pub fn tree_class(t: usize, trees_per_class: usize, n_classes: usize) -> (k: usize)
    requires
        trees_per_class > 0,
        n_classes > 0,
    ensures
        k == class_of_tree(t as int, trees_per_class as int, n_classes as int),
        k < n_classes,
{
    (t / trees_per_class) % n_classes
}

/// Trees are stored round by round, class by class: the tree of a class is
/// read back as that class's, and no two trees share a position.
pub proof fn law_tree_layout(round: int, k: int, sub: int, tpc: int, n_classes: int)
    requires
        0 <= round,
        0 <= k < n_classes,
        0 <= sub < tpc,
    ensures
        ({
            let t = tree_position(round, k, sub, tpc, n_classes);
            &&& class_of_tree(t, tpc, n_classes) == k
            &&& t / (tpc * n_classes) == round
            &&& t % tpc == sub
        }),
{
    let g = round * n_classes + k;
    let t = tree_position(round, k, sub, tpc, n_classes);
    vstd::arithmetic::div_mod::lemma_fundamental_div_mod_converse(t, tpc, g, sub);
    vstd::arithmetic::div_mod::lemma_fundamental_div_mod_converse(g, n_classes, round, k);
    assert(g >= 0) by (nonlinear_arith)
        requires
            g == round * n_classes + k,
            round >= 0,
            k >= 0,
            n_classes >= 0,
    ;
    assert(t >= 0) by (nonlinear_arith)
        requires
            t == g * tpc + sub,
            g >= 0,
            tpc >= 0,
            sub >= 0,
    ;
    vstd::arithmetic::div_mod::lemma_div_denominator(t, tpc, n_classes);
}

/// With one tree for each class and round, tree `t` serves class `t % n_classes`.
pub proof fn law_single_trees_take_turns(t: int, n_classes: int)
    requires
        0 <= t,
        n_classes > 0,
    ensures
        class_of_tree(t, 1, n_classes) == t % n_classes,
{
    vstd::arithmetic::div_mod::lemma_div_basics_2(t);
}

/// The settings that shape the rounds of multi-class training.
pub struct MulticlassSettings {
    pub multi_output_tree: bool,
    pub ordered_boost: bool,
    pub prob_avg: bool,
    pub honest: bool,
    pub n_trees_per_round: usize,
    pub ordered_n_buckets: usize,
}

impl MulticlassSettings {
    /// Whether gradients come from ordered buckets.
    pub open spec fn ordered(&self, n_rows: int) -> bool {
        self.ordered_boost && self.multi_output_tree && !self.prob_avg && !self.honest && n_rows >= 2
    }

    /// The number of ordered buckets.
    pub open spec fn buckets(&self, n_rows: int) -> int {
        if !self.ordered(n_rows) {
            1
        } else if self.ordered_n_buckets < n_rows {
            self.ordered_n_buckets as int
        } else {
            n_rows
        }
    }

    /// The trees that a round adds to each class.
    pub open spec fn trees_per_class(&self, n_rows: int) -> int {
        if self.multi_output_tree {
            self.n_trees_per_round * self.buckets(n_rows)
        } else {
            self.n_trees_per_round as int
        }
    }

    pub fn use_ordered(&self, n_rows: usize) -> (r: bool)
        ensures
            r == self.ordered(n_rows as int),
    {
        self.ordered_boost && self.multi_output_tree && !self.prob_avg && !self.honest && n_rows >= 2
    }

    pub fn bucket_count(&self, n_rows: usize) -> (r: usize)
        ensures
            r == self.buckets(n_rows as int),
    {
        if !self.use_ordered(n_rows) {
            1
        } else if self.ordered_n_buckets < n_rows {
            self.ordered_n_buckets
        } else {
            n_rows
        }
    }

    pub fn round_trees_per_class(&self, n_rows: usize) -> (r: usize)
        requires
            self.trees_per_class(n_rows as int) <= usize::MAX,
        ensures
            r == self.trees_per_class(n_rows as int),
    {
        if self.multi_output_tree {
            self.n_trees_per_round * self.bucket_count(n_rows)
        } else {
            self.n_trees_per_round
        }
    }
}

/// The class of a label: its integer part.
pub open spec fn label_class(y: Num) -> int {
    y.counted()
}

/// One more than the highest class among the first `n` labels.
pub open spec fn class_span(y: Seq<Num>, n: nat) -> int
    decreases n,
{
    if n == 0 {
        1
    } else {
        let rest = class_span(y, (n - 1) as nat);
        if label_class(y[n - 1]) + 1 > rest {
            label_class(y[n - 1]) + 1
        } else {
            rest
        }
    }
}

/// The number of classes that the labels span.
pub fn count_classes(y: &Vec<Num>) -> (k: usize)
    requires
        forall|i: int| 0 <= i < y@.len() ==> label_class(#[trigger] y@[i]) < usize::MAX,
    ensures
        k == class_span(y@, y@.len()),
        k >= 1,
        forall|i: int| 0 <= i < y@.len() ==> label_class(#[trigger] y@[i]) < k,
{
    let mut k: usize = 1;
    let mut i: usize = 0;
    while i < y.len()
        invariant
            i <= y@.len(),
            k >= 1,
            forall|j: int| 0 <= j < y@.len() ==> label_class(#[trigger] y@[j]) < usize::MAX,
            k == class_span(y@, i as nat),
            forall|j: int| 0 <= j < i ==> label_class(#[trigger] y@[j]) < k,
        decreases y@.len() - i,
    {
        let c: usize = y[i].to_usize();
        assert(label_class(y@[i as int]) < usize::MAX);
        if c + 1 > k {
            k = c + 1;
        }
        i = i + 1;
    }
    k
}

/// The classes of all labels.
pub fn class_labels(y: &Vec<Num>) -> (classes: Vec<usize>)
    ensures
        classes@ == Seq::new(y@.len(), |i: int| label_class(y@[i]) as usize),
{
    let mut classes: Vec<usize> = Vec::new();
    let mut i: usize = 0;
    while i < y.len()
        invariant
            i <= y@.len(),
            classes@.len() == i,
            forall|k: int| 0 <= k < i ==> #[trigger] classes@[k] == label_class(y@[k]),
        decreases y@.len() - i,
    {
        classes.push(y[i].to_usize());
        i = i + 1;
    }
    assert(classes@ =~= Seq::new(y@.len(), |i: int| label_class(y@[i]) as usize));
    classes
}

/// Which rows lie in bucket `b`.
pub open spec fn bucket_flags(bucket_of: Seq<usize>, b: int) -> Seq<bool> {
    Seq::new(bucket_of.len(), |row: int| bucket_of[row] == b)
}

/// The rows of bucket `b`, in order.
pub open spec fn bucket_members(bucket_of: Seq<usize>, b: int) -> Seq<usize> {
    kept_indices(bucket_flags(bucket_of, b))
}

/// The rows of the buckets below `m` but `excluded`, bucket by bucket.
pub open spec fn pool_members(bucket_of: Seq<usize>, excluded: int, m: nat) -> Seq<usize>
    decreases m,
{
    if m == 0 {
        Seq::empty()
    } else if m - 1 == excluded {
        pool_members(bucket_of, excluded, (m - 1) as nat)
    } else {
        pool_members(bucket_of, excluded, (m - 1) as nat) + bucket_members(bucket_of, m - 1)
    }
}

/// The rows of each bucket, and for each bucket the rows of all the others.
pub struct OrderedBuckets {
    pub bucket_of: Vec<usize>,
    pub rows: Vec<Vec<usize>>,
    pub pools: Vec<Vec<usize>>,
}

impl OrderedBuckets {
    pub open spec fn planned(&self, n_rows: int, n_buckets: int) -> bool {
        &&& self.bucket_of@.len() == n_rows
        &&& forall|row: int| 0 <= row < n_rows ==> #[trigger] self.bucket_of@[row] < n_buckets
        &&& self.rows@.len() == n_buckets
        &&& self.pools@.len() == n_buckets
        &&& forall|b: int|
            0 <= b < n_buckets ==> (#[trigger] self.rows@[b])@ == bucket_members(self.bucket_of@, b)
        &&& forall|b: int|
            0 <= b < n_buckets ==> (#[trigger] self.pools@[b])@ == pool_members(
                self.bucket_of@,
                b,
                n_buckets as nat,
            )
    }
}

/// The training pool of a bucket leaves out exactly its own rows: a row is in
/// the pool where it is in another bucket, so a row's ordered gradient never
/// comes from a tree that saw it.
pub proof fn law_pool_excludes_own_bucket(bucket_of: Seq<usize>, excluded: int, m: nat, row: usize)
    requires
        bucket_of.len() <= usize::MAX,
        row < bucket_of.len(),
    ensures
        pool_members(bucket_of, excluded, m).contains(row) <==> bucket_of[row as int] < m && bucket_of[row as int]
            != excluded,
    decreases m,
{
    if m > 0 {
        law_pool_excludes_own_bucket(bucket_of, excluded, (m - 1) as nat, row);
        let rest = pool_members(bucket_of, excluded, (m - 1) as nat);
        let own = bucket_members(bucket_of, m - 1);
        lemma_kept_indices(bucket_flags(bucket_of, m - 1));
        assert(own.contains(row) <==> bucket_of[row as int] == m - 1) by {
            if own.contains(row) {
                let p = choose|p: int| 0 <= p < own.len() && own[p] == row;
                assert(bucket_flags(bucket_of, m - 1)[own[p] as int]);
            }
            if bucket_of[row as int] == m - 1 {
                assert(bucket_flags(bucket_of, m - 1)[row as int]);
            }
        }
        if m - 1 != excluded {
            let all = rest + own;
            if rest.contains(row) {
                let p = choose|p: int| 0 <= p < rest.len() && rest[p] == row;
                assert(all[p] == row);
            }
            if own.contains(row) {
                let p = choose|p: int| 0 <= p < own.len() && own[p] == row;
                assert(all[rest.len() + p] == row);
            }
            if all.contains(row) {
                let p = choose|p: int| 0 <= p < all.len() && all[p] == row;
                if p < rest.len() {
                    assert(rest[p] == row);
                } else {
                    assert(own[p - rest.len()] == row);
                }
            }
        }
    }
}

/// The rows of bucket `b`, in order.
pub fn rows_in_bucket(bucket_of: &Vec<usize>, b: usize) -> (rows: Vec<usize>)
    ensures
        rows@ == bucket_members(bucket_of@, b as int),
{
    let mut flags: Vec<bool> = Vec::new();
    let mut i: usize = 0;
    while i < bucket_of.len()
        invariant
            i <= bucket_of@.len(),
            flags@.len() == i,
            forall|k: int| 0 <= k < i ==> #[trigger] flags@[k] == (bucket_of@[k] == b),
        decreases bucket_of@.len() - i,
    {
        flags.push(bucket_of[i] == b);
        i = i + 1;
    }
    assert(flags@ =~= bucket_flags(bucket_of@, b as int));
    collect_kept(&flags)
}

/// The buckets and pools of a deal of the rows.
pub fn plan_buckets(bucket_of: Vec<usize>, n_buckets: usize) -> (plan: OrderedBuckets)
    requires
        forall|row: int| 0 <= row < bucket_of@.len() ==> #[trigger] bucket_of@[row] < n_buckets,
    ensures
        plan.planned(bucket_of@.len() as int, n_buckets as int),
        plan.bucket_of@ == bucket_of@,
{
    let mut rows: Vec<Vec<usize>> = Vec::new();
    let mut b: usize = 0;
    while b < n_buckets
        invariant
            b <= n_buckets,
            rows@.len() == b,
            forall|k: int| 0 <= k < b ==> (#[trigger] rows@[k])@ == bucket_members(bucket_of@, k),
        decreases n_buckets - b,
    {
        rows.push(rows_in_bucket(&bucket_of, b));
        b = b + 1;
    }
    let mut pools: Vec<Vec<usize>> = Vec::new();
    let mut excluded: usize = 0;
    while excluded < n_buckets
        invariant
            excluded <= n_buckets,
            rows@.len() == n_buckets,
            forall|k: int| 0 <= k < n_buckets ==> (#[trigger] rows@[k])@ == bucket_members(bucket_of@, k),
            pools@.len() == excluded,
            forall|k: int|
                0 <= k < excluded ==> (#[trigger] pools@[k])@ == pool_members(bucket_of@, k, n_buckets as nat),
        decreases n_buckets - excluded,
    {
        let mut pool: Vec<usize> = Vec::new();
        let mut m: usize = 0;
        while m < n_buckets
            invariant
                m <= n_buckets,
                rows@.len() == n_buckets,
                forall|k: int| 0 <= k < n_buckets ==> (#[trigger] rows@[k])@ == bucket_members(bucket_of@, k),
                pool@ == pool_members(bucket_of@, excluded as int, m as nat),
            decreases n_buckets - m,
        {
            if m != excluded {
                let mut more: Vec<usize> = rows[m].clone();
                assert(more@ =~= rows@[m as int]@);
                pool.append(&mut more);
            }
            m = m + 1;
        }
        pools.push(pool);
        excluded = excluded + 1;
    }
    OrderedBuckets { bucket_of, rows, pools }
}

/// The seed of the ordered buckets.
pub fn bucket_seed(seed: u64) -> (r: u64)
    ensures
        r == seed.wrapping_add(9001),
{
    seed.wrapping_add(9001)
}

/// The generator that the rows are dealt into buckets with.
pub fn bucket_rng(seed: u64) -> (rng: StdRng)
    ensures
        held_words(rng) == words_of_seed(seed.wrapping_add(9001)),
{
    seeded(bucket_seed(seed))
}

/// Random ordered buckets of the rows.
pub fn ordered_buckets(rng: &mut StdRng, n_rows: usize, n_buckets: usize) -> (plan: OrderedBuckets)
    requires
        n_buckets > 0,
    ensures
        plan.planned(n_rows as int, n_buckets as int),
        exists|perm: Seq<usize>| #[trigger]
            is_deal(plan.bucket_of@, perm, n_buckets as int) && perm.to_multiset() == row_list(
                n_rows as nat,
            ).to_multiset(),
{
    let bucket_of: Vec<usize> = shuffled_deal(rng, n_rows, n_buckets);
    plan_buckets(bucket_of, n_buckets)
}

/// Where the shadow score of a row's class stands: bucket by bucket, row by row.
pub open spec fn shadow_position(bucket: int, row: int, k: int, n_rows: int, n_classes: int) -> int {
    (bucket * n_rows + row) * n_classes + k
}

/// Shadow scores of different buckets, rows or classes stand apart, inside a
/// table of one score for each.
pub proof fn law_shadow_scores_stand_apart(b: int, row: int, k: int, n_buckets: int, n_rows: int, n_classes: int)
    requires
        0 <= b < n_buckets,
        0 <= row < n_rows,
        0 <= k < n_classes,
    ensures
        ({
            let p = shadow_position(b, row, k, n_rows, n_classes);
            &&& 0 <= p < n_buckets * n_rows * n_classes
            &&& p % n_classes == k
            &&& (p / n_classes) % n_rows == row
            &&& (p / n_classes) / n_rows == b
        }),
{
    let g = b * n_rows + row;
    let p = shadow_position(b, row, k, n_rows, n_classes);
    lemma_cell(b, row, n_buckets, n_rows);
    lemma_cell(g, k, n_buckets * n_rows, n_classes);
    vstd::arithmetic::div_mod::lemma_fundamental_div_mod_converse(p, n_classes, g, k);
    vstd::arithmetic::div_mod::lemma_fundamental_div_mod_converse(g, n_rows, b, row);
}

/// The scores that a row's gradient is taken from: those of its own bucket's shadow.
pub fn unbiased_scores(shadow: &Vec<Num>, bucket_of: &Vec<usize>, n_buckets: usize, n_classes: usize) -> (scores: Vec<Num>)
    requires
        shadow@.len() == n_buckets * bucket_of@.len() * n_classes,
        forall|row: int| 0 <= row < bucket_of@.len() ==> #[trigger] bucket_of@[row] < n_buckets,
    ensures
        scores@.len() == bucket_of@.len() * n_classes,
        forall|row: int, k: int|
            #![trigger scores@[row * n_classes + k]]
            0 <= row < bucket_of@.len() && 0 <= k < n_classes ==> scores@[row * n_classes + k] == shadow@[shadow_position(
                bucket_of@[row] as int,
                row,
                k,
                bucket_of@.len() as int,
                n_classes as int,
            )],
{
    let n_rows: usize = bucket_of.len();
    let mut scores: Vec<Num> = Vec::new();
    let mut row: usize = 0;
    assert(0 * n_classes == 0) by (nonlinear_arith);
    while row < n_rows
        invariant
            row <= n_rows,
            n_rows == bucket_of@.len(),
            shadow@.len() == n_buckets * n_rows * n_classes,
            forall|r: int| 0 <= r < n_rows ==> #[trigger] bucket_of@[r] < n_buckets,
            scores@.len() == row * n_classes,
            forall|r: int, k: int|
                #![trigger scores@[r * n_classes + k]]
                0 <= r < row && 0 <= k < n_classes ==> scores@[r * n_classes + k] == shadow@[shadow_position(
                    bucket_of@[r] as int,
                    r,
                    k,
                    n_rows as int,
                    n_classes as int,
                )],
        decreases n_rows - row,
    {
        let b: usize = bucket_of[row];
        let mut k: usize = 0;
        while k < n_classes
            invariant
                k <= n_classes,
                row < n_rows,
                n_rows == bucket_of@.len(),
                b == bucket_of@[row as int],
                b < n_buckets,
                shadow@.len() == n_buckets * n_rows * n_classes,
                scores@.len() == row * n_classes + k,
                forall|r: int, j: int|
                    #![trigger scores@[r * n_classes + j]]
                    0 <= r < row && 0 <= j < n_classes ==> scores@[r * n_classes + j] == shadow@[shadow_position(
                        bucket_of@[r] as int,
                        r,
                        j,
                        n_rows as int,
                        n_classes as int,
                    )],
                forall|j: int|
                    #![trigger scores@[row * n_classes + j]]
                    0 <= j < k ==> scores@[row * n_classes + j] == shadow@[shadow_position(
                        b as int,
                        row as int,
                        j,
                        n_rows as int,
                        n_classes as int,
                    )],
            decreases n_classes - k,
        {
            proof {
                assert(shadow.len() == shadow@.len());
                lemma_cell(b as int, row as int, n_buckets as int, n_rows as int);
                lemma_cell(b * n_rows + row, k as int, n_buckets * n_rows, n_classes as int);
                assert(b * n_rows + row <= (b * n_rows + row) * n_classes) by (nonlinear_arith)
                    requires
                        b * n_rows + row >= 0,
                        n_classes >= 1,
                ;
            }
            let old_scores = Ghost(scores@);
            scores.push(shadow[(b * n_rows + row) * n_classes + k]);
            assert forall|r: int, j: int|
                #![trigger scores@[r * n_classes + j]]
                0 <= r < row && 0 <= j < n_classes implies scores@[r * n_classes + j] == shadow@[shadow_position(
                bucket_of@[r] as int,
                r,
                j,
                n_rows as int,
                n_classes as int,
            )] by {
                lemma_cell(r, j, row as int, n_classes as int);
                assert(scores@[r * n_classes + j] == old_scores@[r * n_classes + j]);
            }
            k = k + 1;
        }
        assert((row + 1) * n_classes == row * n_classes + n_classes) by (nonlinear_arith);
        row = row + 1;
    }
    scores
}

/// How trees grow.
#[derive(Clone, Copy, PartialEq, Eq, Structural, Debug)]
pub enum GrowPolicy {
    Leafwise,
    Oblivious,
    Depthwise,
}

pub open spec fn policy_named(name: Seq<char>) -> GrowPolicy {
    if name == "leafwise"@ {
        GrowPolicy::Leafwise
    } else if name == "oblivious"@ {
        GrowPolicy::Oblivious
    } else {
        GrowPolicy::Depthwise
    }
}

/// The growth policy of a name; every other name grows trees by depth.
pub fn grow_policy_from_name(name: &String) -> (r: GrowPolicy)
    ensures
        r == policy_named(name@),
{
    if *name == "leafwise".to_string() {
        GrowPolicy::Leafwise
    } else if *name == "oblivious".to_string() {
        GrowPolicy::Oblivious
    } else {
        GrowPolicy::Depthwise
    }
}

/// What the ridge strength of a subtree is multiplied with.
#[derive(Clone, Copy, PartialEq, Eq, Structural, Debug)]
pub enum LambdaScale {
    Same,
    Double,
    Half,
}

/// The shape of one shared subtree.
#[derive(Clone, Copy, PartialEq, Eq, Structural, Debug)]
pub struct SubtreeShape {
    pub depth: usize,
    pub lambda: LambdaScale,
    pub oblivious: bool,
    pub extra_trees: bool,
}

/// The shape of subtree `sub`: the model's own, or with mixed trees one of
/// three in turn (the model's own, a shallower one that grows the other way,
/// and a deeper one that grows by depth).
pub open spec fn subtree_shape(
    hetero: bool,
    n_sub: int,
    sub: int,
    max_depth: int,
    policy: GrowPolicy,
    extra_trees: bool,
) -> SubtreeShape {
    let own = SubtreeShape {
        depth: max_depth as usize,
        lambda: LambdaScale::Same,
        oblivious: policy == GrowPolicy::Oblivious,
        extra_trees,
    };
    if !hetero || n_sub < 3 || sub % 3 == 0 {
        own
    } else if sub % 3 == 1 {
        SubtreeShape {
            depth: (if max_depth > 3 {
                max_depth - 1
            } else {
                2
            }) as usize,
            lambda: LambdaScale::Double,
            oblivious: policy != GrowPolicy::Oblivious,
            extra_trees: false,
        }
    } else {
        SubtreeShape { depth: (max_depth + 1) as usize, lambda: LambdaScale::Half, oblivious: false, extra_trees }
    }
}

pub fn plan_subtree(
    hetero: bool,
    n_sub: usize,
    sub: usize,
    max_depth: usize,
    policy: GrowPolicy,
    extra_trees: bool,
) -> (r: SubtreeShape)
    requires
        max_depth < usize::MAX,
    ensures
        r == subtree_shape(hetero, n_sub as int, sub as int, max_depth as int, policy, extra_trees),
{
    let oblivious: bool = match policy {
        GrowPolicy::Oblivious => true,
        _ => false,
    };
    if !hetero || n_sub < 3 || sub % 3 == 0 {
        SubtreeShape { depth: max_depth, lambda: LambdaScale::Same, oblivious, extra_trees }
    } else if sub % 3 == 1 {
        SubtreeShape {
            depth: if max_depth > 3 { max_depth - 1 } else { 2 },
            lambda: LambdaScale::Double,
            oblivious: !oblivious,
            extra_trees: false,
        }
    } else {
        SubtreeShape { depth: max_depth + 1, lambda: LambdaScale::Half, oblivious: false, extra_trees }
    }
}

/// How a subtree's rows are used: some to find its splits, others to fit its leaves.
pub struct HonestSplit {
    pub structure: Vec<u32>,
    pub estimation: Vec<u32>,
    /// The rows of the sample as bits, where the leaves are fitted on all others.
    pub in_sample: Vec<u64>,
}

/// How an honest tree parts its rows.
#[derive(Clone, Copy, PartialEq, Eq, Structural, Debug)]
pub enum HonestMode {
    /// All rows serve both ends.
    Off,
    /// The leaves are fitted on the rows outside the sample.
    OutOfSample,
    /// The sample is shuffled and cut.
    Cut,
}

pub open spec fn honest_mode(honest: bool, fraction: Num, rate: Num) -> HonestMode {
    if !honest {
        HonestMode::Off
    } else if fraction.at_most(Num { bits: 0 }) && rate.below(Num { bits: ONE }) {
        HonestMode::OutOfSample
    } else {
        HonestMode::Cut
    }
}

pub fn choose_honest_mode(honest: bool, fraction: &Num, rate: &Num) -> (r: HonestMode)
    ensures
        r == honest_mode(honest, *fraction, *rate),
{
    let zero: Num = Num { bits: 0 };
    let one: Num = Num { bits: ONE };
    if !honest {
        HonestMode::Off
    } else if fraction.le(&zero) && rate.lt(&one) {
        HonestMode::OutOfSample
    } else {
        HonestMode::Cut
    }
}

/// Row indices as row numbers.
pub open spec fn as_numbers(rows: Seq<usize>) -> Seq<u32> {
    Seq::new(rows.len(), |i: int| rows[i] as u32)
}

/// The sample as bits.
pub fn sample_bits(indices: &Vec<u32>, n_rows: usize) -> (bits: Vec<u64>)
    requires
        n_rows <= u32::MAX,
        forall|i: int| 0 <= i < indices@.len() ==> #[trigger] indices@[i] < n_rows,
    ensures
        bits@.len() == (n_rows + 63) / 64,
        forall|row: int| 0 <= row < n_rows ==> (#[trigger] has_bit(bits@, row) <==> indices@.contains(row as u32)),
{
    let mut bits: Vec<u64> = bitvec_new(n_rows);
    let mut i: usize = 0;
    while i < indices.len()
        invariant
            i <= indices@.len(),
            bits@.len() == (n_rows + 63) / 64,
            forall|k: int| 0 <= k < indices@.len() ==> #[trigger] indices@[k] < n_rows,
            forall|row: int|
                0 <= row ==> (#[trigger] has_bit(bits@, row) <==> exists|k: int|
                    0 <= k < i && (#[trigger] indices@[k]) as int == row),
        decreases indices@.len() - i,
    {
        let row: usize = indices[i] as usize;
        let before = Ghost(bits@);
        assert(row / 64 < bits@.len());
        bitvec_set(&mut bits, row);
        assert forall|r: int| 0 <= r implies (#[trigger] has_bit(bits@, r) <==> exists|k: int|
            0 <= k < i + 1 && (#[trigger] indices@[k]) as int == r) by {
            assert(has_bit(bits@, r) <==> has_bit(before@, r) || r == row);
            if r == row {
                assert(indices@[i as int] as int == r);
            }
        }
        i = i + 1;
    }
    assert forall|row: int| 0 <= row < n_rows implies (#[trigger] has_bit(bits@, row) <==> indices@.contains(row as u32)) by {
        if has_bit(bits@, row) {
            let k = choose|k: int| 0 <= k < indices@.len() && (#[trigger] indices@[k]) as int == row;
            assert(indices@[k] == row as u32);
        }
        if indices@.contains(row as u32) {
            let k = choose|k: int| 0 <= k < indices@.len() && indices@[k] == row as u32;
            assert(indices@[k] as int == row);
        }
    }
    bits
}

/// The rows outside a sample, as row numbers.
fn complement_numbers(bits: &Vec<u64>, n_rows: usize) -> (list: Vec<u32>)
    requires
        n_rows <= u32::MAX,
    ensures
        list@ == as_numbers(kept_indices(absent_flags(bits@, n_rows as nat))),
{
    let rows: Vec<usize> = rows_absent(bits, n_rows);
    proof {
        lemma_kept_indices(absent_flags(bits@, n_rows as nat));
    }
    let mut list: Vec<u32> = Vec::new();
    let mut i: usize = 0;
    while i < rows.len()
        invariant
            i <= rows@.len(),
            n_rows <= u32::MAX,
            forall|k: int| 0 <= k < rows@.len() ==> (#[trigger] rows@[k]) < n_rows,
            list@.len() == i,
            forall|k: int| 0 <= k < i ==> #[trigger] list@[k] == rows@[k] as u32,
        decreases rows@.len() - i,
    {
        list.push(rows[i] as u32);
        i = i + 1;
    }
    assert(list@ =~= as_numbers(rows@));
    list
}

/// Cuts a list: the last `tail` items go to the second part.
pub fn cut_tail(list: &Vec<u32>, tail: usize) -> (r: (Vec<u32>, Vec<u32>))
    requires
        tail <= list@.len(),
    ensures
        r.0@ == list@.take(list@.len() - tail),
        r.1@ == list@.skip(list@.len() - tail),
{
    let mid: usize = list.len() - tail;
    let mut head: Vec<u32> = Vec::new();
    let mut back: Vec<u32> = Vec::new();
    let mut i: usize = 0;
    while i < list.len()
        invariant
            i <= list@.len(),
            mid <= list@.len(),
            head@ == list@.take(if i < mid { i as int } else { mid as int }),
            back@ == list@.subrange(mid as int, if i < mid { mid as int } else { i as int }),
        decreases list@.len() - i,
    {
        if i < mid {
            head.push(list[i]);
            assert(head@ =~= list@.take(i + 1));
        } else {
            back.push(list[i]);
        }
        i = i + 1;
        assert(back@ =~= list@.subrange(mid as int, if i < mid { mid as int } else { i as int }));
    }
    assert(head@ =~= list@.take(mid as int));
    assert(back@ =~= list@.skip(mid as int));
    (head, back)
}

impl HonestSplit {
    /// What every split of a sample meets.
    pub open spec fn splits(&self, indices: Seq<u32>, n_rows: int, mode: HonestMode, tail: int) -> bool {
        match mode {
            HonestMode::Off => self.structure@ == indices && self.estimation@.len() == 0 && self.in_sample@.len() == 0,
            HonestMode::OutOfSample => {
                &&& self.structure@ == indices
                &&& forall|row: int|
                    0 <= row < n_rows ==> (#[trigger] has_bit(self.in_sample@, row) <==> indices.contains(row as u32))
                &&& self.estimation@ == as_numbers(kept_indices(absent_flags(self.in_sample@, n_rows as nat)))
            },
            HonestMode::Cut => {
                &&& self.estimation@.len() == tail
                &&& (self.structure@ + self.estimation@).to_multiset() == indices.to_multiset()
                &&& self.in_sample@.len() == 0
            },
        }
    }
}

/// Parts the rows of a sample for an honest tree; `tail` rows are kept for the
/// leaves where the sample is cut.
pub fn split_honestly(rng: &mut StdRng, indices: &Vec<u32>, n_rows: usize, mode: HonestMode, tail: usize) -> (r: HonestSplit)
    requires
        n_rows <= u32::MAX,
        forall|i: int| 0 <= i < indices@.len() ==> #[trigger] indices@[i] < n_rows,
        tail <= indices@.len(),
    ensures
        r.splits(indices@, n_rows as int, mode, tail as int),
{
    match mode {
        HonestMode::Off => {
            let structure: Vec<u32> = indices.clone();
            assert(structure@ =~= indices@);
            HonestSplit { structure, estimation: Vec::new(), in_sample: Vec::new() }
        },
        HonestMode::OutOfSample => {
            let structure: Vec<u32> = indices.clone();
            assert(structure@ =~= indices@);
            let in_sample: Vec<u64> = sample_bits(indices, n_rows);
            let estimation: Vec<u32> = complement_numbers(&in_sample, n_rows);
            HonestSplit { structure, estimation, in_sample }
        },
        HonestMode::Cut => {
            let mut mixed: Vec<u32> = indices.clone();
            assert(mixed@ =~= indices@);
            shuffle(rng, &mut mixed);
            proof {
                to_multiset_len(mixed@);
                to_multiset_len(indices@);
            }
            let parts: (Vec<u32>, Vec<u32>) = cut_tail(&mixed, tail);
            assert(parts.0@ + parts.1@ =~= mixed@);
            HonestSplit { structure: parts.0, estimation: parts.1, in_sample: Vec::new() }
        },
    }
}

/// The share of the sample that is held for the leaves: from a tenth to nine tenths.
pub open spec fn share_held(fraction: Num) -> Num {
    fraction.clamped(Num { bits: POINT_1 }, Num { bits: POINT_9 })
}

/// The share of a sample that the leaves are fitted on, where it is cut.
pub fn honest_share(fraction: &Num) -> (r: Num)
    ensures
        r == share_held(*fraction),
{
    let low: Num = Num { bits: POINT_1 };
    let high: Num = Num { bits: POINT_9 };
    fraction.clamp(&low, &high)
}

/// The product rounded to a whole number of rows, within the sample's size.
pub open spec fn estimation_count(product: Num, n: int) -> int {
    saturate(
        if product.nan() {
            0
        } else {
            product.rounded()
        },
        0,
        n,
    )
}

/// The number of rows kept for the leaves: the rounded product of the
/// sample's size and the fraction.
pub fn estimation_rows(product: &Num, n: usize) -> (r: usize)
    ensures
        r == estimation_count(*product, n as int),
{
    let k: usize = product.round_to_usize();
    if k > n {
        n
    } else {
        k
    }
}

/// The rows that an honest tree's splits are found on and those that its
/// leaves are fitted on are disjoint: out of sample in any case, and with a cut
/// sample where the sample repeats no row.
pub proof fn law_honest_rows_part(split: HonestSplit, indices: Seq<u32>, n_rows: int, mode: HonestMode, tail: int, row: int)
    requires
        split.splits(indices, n_rows, mode, tail),
        0 <= row < n_rows <= u32::MAX,
        mode == HonestMode::OutOfSample || (mode == HonestMode::Cut && indices.no_duplicates()),
    ensures
        !(split.structure@.contains(row as u32) && split.estimation@.contains(row as u32)),
        mode == HonestMode::OutOfSample || indices.contains(row as u32) ==> split.structure@.contains(row as u32)
            || split.estimation@.contains(row as u32),
{
    let structure = split.structure@;
    let est = split.estimation@;
    if mode == HonestMode::OutOfSample {
        let flags = absent_flags(split.in_sample@, n_rows as nat);
        let kept = kept_indices(flags);
        lemma_kept_indices(flags);
        assert(has_bit(split.in_sample@, row) <==> indices.contains(row as u32));
        if est.contains(row as u32) {
            let p = choose|p: int| 0 <= p < est.len() && est[p] == row as u32;
            assert(kept[p] < flags.len() && flags[kept[p] as int]);
            assert(kept[p] as int == row);
        }
        if !has_bit(split.in_sample@, row) {
            assert(flags[row]);
            let p = choose|p: int| 0 <= p < kept.len() && kept[p] == row as usize;
            assert(est[p] == row as u32);
        }
    } else {
        let all = structure + est;
        indices.lemma_multiset_has_no_duplicates();
        all.lemma_multiset_has_no_duplicates_conv();
        if structure.contains(row as u32) && est.contains(row as u32) {
            let p = choose|p: int| 0 <= p < structure.len() && structure[p] == row as u32;
            let q = choose|q: int| 0 <= q < est.len() && est[q] == row as u32;
            assert(all[p] == all[structure.len() + q]);
        }
        if indices.contains(row as u32) {
            to_multiset_contains(indices, row as u32);
            to_multiset_contains(all, row as u32);
            let p = choose|p: int| 0 <= p < all.len() && all[p] == row as u32;
            if p < structure.len() {
                assert(structure[p] == row as u32);
            } else {
                assert(est[p - structure.len()] == row as u32);
            }
        }
    }
}

/// The plan of one shared subtree of a round.
pub struct SubtreePlan {
    pub split: HonestSplit,
    pub shape: SubtreeShape,
    pub seed: u64,
}

impl SubtreePlan {
    /// The plan of a subtree from its parts: `seed` is the word that was drawn for it.
    pub fn assemble(split: HonestSplit, shape: SubtreeShape, seed: u64) -> (plan: SubtreePlan)
        ensures
            plan == (SubtreePlan { split, shape, seed }),
    {
        SubtreePlan { split, shape, seed }
    }
}

/// Plans a shared subtree from its sample, with a seed drawn for it.
pub fn plan_shared_subtree(
    rng: &mut StdRng,
    indices: &Vec<u32>,
    n_rows: usize,
    mode: HonestMode,
    product: &Num,
    shape: SubtreeShape,
) -> (plan: SubtreePlan)
    requires
        n_rows <= u32::MAX,
        forall|i: int| 0 <= i < indices@.len() ==> #[trigger] indices@[i] < n_rows,
    ensures
        plan.shape == shape,
        plan.split.splits(
            indices@,
            n_rows as int,
            mode,
            estimation_count(*product, indices@.len() as int),
        ),
{
    let tail: usize = estimation_rows(product, indices.len());
    let split: HonestSplit = split_honestly(rng, indices, n_rows, mode, tail);
    let seed: u64 = draw_word(rng);
    SubtreePlan::assemble(split, shape, seed)
}

/// Whether a row's score leaves its own gradient out of its leaf's value: it
/// was built on, and its leaf holds another built-on row.
pub open spec fn leaves_one_out(tree: DecisionTree, data: BinnedData, built: Seq<u32>, row: int) -> bool {
    built.contains(row as u32) && rows_ending(tree, data, built, tree.leaf_of(data, row)).len() > 1
}

/// The leaf of each row, whether its score leaves the row out, and how many
/// built-on rows the leaf holds.
pub struct LeaveOneOut {
    pub leaf: Vec<usize>,
    pub left_out: Vec<bool>,
    pub built: Vec<usize>,
}

/// Plans the scores of all rows under a tree built on `built`.
pub fn plan_leave_one_out(tree: &DecisionTree, data: &BinnedData, built: &Vec<u32>, n_rows: usize) -> (r: LeaveOneOut)
    requires
        tree.fits(*data),
        n_rows <= data.n_rows,
        n_rows <= u32::MAX,
        forall|i: int| 0 <= i < built@.len() ==> #[trigger] built@[i] < n_rows,
    ensures
        r.leaf@ == Seq::new(n_rows as nat, |row: int| tree.leaf_of(*data, row) as usize),
        r.left_out@ == Seq::new(n_rows as nat, |row: int| leaves_one_out(*tree, *data, built@, row)),
        r.built@ == Seq::new(
            n_rows as nat,
            |row: int| rows_ending(*tree, *data, built@, tree.leaf_of(*data, row)).len() as usize,
        ),
{
    let by_leaf: Vec<Vec<u32>> = rows_by_leaf(tree, data, built);
    let bits: Vec<u64> = sample_bits(built, n_rows);
    let mut leaf: Vec<usize> = Vec::new();
    let mut left_out: Vec<bool> = Vec::new();
    let mut count: Vec<usize> = Vec::new();
    let mut row: usize = 0;
    while row < n_rows
        invariant
            row <= n_rows <= data.n_rows,
            n_rows <= u32::MAX,
            tree.fits(*data),
            by_leaf@.len() == tree.size(),
            forall|node: int|
                0 <= node < tree.size() ==> (#[trigger] by_leaf@[node])@ == rows_ending(*tree, *data, built@, node),
            forall|k: int| 0 <= k < n_rows ==> (#[trigger] has_bit(bits@, k) <==> built@.contains(k as u32)),
            leaf@.len() == row,
            left_out@.len() == row,
            count@.len() == row,
            forall|k: int| 0 <= k < row ==> #[trigger] leaf@[k] == tree.leaf_of(*data, k),
            forall|k: int| 0 <= k < row ==> #[trigger] left_out@[k] == leaves_one_out(*tree, *data, built@, k),
            forall|k: int|
                0 <= k < row ==> #[trigger] count@[k] == rows_ending(
                    *tree,
                    *data,
                    built@,
                    tree.leaf_of(*data, k),
                ).len(),
        decreases n_rows - row,
    {
        let l: usize = tree.route_to_leaf(data, row);
        let c: usize = by_leaf[l].len();
        assert(by_leaf@[l as int]@ == rows_ending(*tree, *data, built@, l as int));
        let in_built: bool = crate::bitset::bitvec_test(&bits, row);
        assert(has_bit(bits@, row as int) <==> built@.contains(row as u32));
        leaf.push(l);
        left_out.push(in_built && c > 1);
        count.push(c);
        row = row + 1;
    }
    assert(leaf@ =~= Seq::new(n_rows as nat, |row: int| tree.leaf_of(*data, row) as usize));
    assert(left_out@ =~= Seq::new(n_rows as nat, |row: int| leaves_one_out(*tree, *data, built@, row)));
    assert(count@ =~= Seq::new(
        n_rows as nat,
        |row: int| rows_ending(*tree, *data, built@, tree.leaf_of(*data, row)).len() as usize,
    ));
    LeaveOneOut { leaf, left_out, built: count }
}

/// How many of the listed rows are of class `k`.
pub open spec fn rows_of_class(list: Seq<u32>, classes: Seq<usize>, k: int) -> nat
    decreases list.len(),
{
    if list.len() == 0 {
        0
    } else {
        rows_of_class(list.drop_last(), classes, k) + (if classes[list.last() as int] == k {
            1nat
        } else {
            0
        })
    }
}

proof fn lemma_rows_of_class(list: Seq<u32>, classes: Seq<usize>, k: int)
    ensures
        rows_of_class(list, classes, k) <= list.len(),
    decreases list.len(),
{
    if list.len() > 0 {
        lemma_rows_of_class(list.drop_last(), classes, k);
    }
}

/// How many of the listed rows are of each class.
pub fn class_counts(list: &Vec<u32>, classes: &Vec<usize>, n_classes: usize) -> (counts: Vec<usize>)
    requires
        forall|i: int| 0 <= i < list@.len() ==> #[trigger] list@[i] < classes@.len(),
        forall|i: int| 0 <= i < classes@.len() ==> #[trigger] classes@[i] < n_classes,
    ensures
        counts@ == Seq::new(n_classes as nat, |k: int| rows_of_class(list@, classes@, k) as usize),
{
    let mut counts: Vec<usize> = Vec::new();
    let mut k: usize = 0;
    while k < n_classes
        invariant
            k <= n_classes,
            counts@.len() == k,
            forall|j: int| 0 <= j < k ==> #[trigger] counts@[j] == 0,
        decreases n_classes - k,
    {
        counts.push(0);
        k = k + 1;
    }
    let mut i: usize = 0;
    assert(list@.take(0) =~= Seq::empty());
    while i < list.len()
        invariant
            i <= list@.len(),
            counts@.len() == n_classes,
            forall|j: int| 0 <= j < list@.len() ==> #[trigger] list@[j] < classes@.len(),
            forall|j: int| 0 <= j < classes@.len() ==> #[trigger] classes@[j] < n_classes,
            forall|j: int|
                0 <= j < n_classes ==> #[trigger] counts@[j] == rows_of_class(list@.take(i as int), classes@, j),
        decreases list@.len() - i,
    {
        let c: usize = classes[list[i] as usize];
        let before = Ghost(counts@);
        assert(list@.take(i + 1).drop_last() =~= list@.take(i as int));
        assert(list@.take(i + 1).last() == list@[i as int]);
        proof {
            lemma_rows_of_class(list@.take(i as int), classes@, c as int);
            assert(counts@[c as int] == rows_of_class(list@.take(i as int), classes@, c as int));
        }
        let n: usize = counts[c];
        counts.set(c, n + 1);
        assert forall|j: int| 0 <= j < n_classes implies #[trigger] counts@[j] == rows_of_class(
            list@.take(i + 1),
            classes@,
            j,
        ) by {
            assert(before@[j] == rows_of_class(list@.take(i as int), classes@, j));
        }
        i = i + 1;
    }
    assert(list@.take(list@.len() as int) =~= list@);
    proof {
        assert forall|j: int| 0 <= j < n_classes implies counts@[j] == rows_of_class(list@, classes@, j) as usize by {
            lemma_rows_of_class(list@, classes@, j);
        }
    }
    assert(counts@ =~= Seq::new(n_classes as nat, |k: int| rows_of_class(list@, classes@, k) as usize));
    counts
}

/// A step of multi-class training.
#[derive(Clone, Copy, PartialEq, Eq, Structural, Debug)]
pub enum FitStep {
    /// Build the trees of a round.
    Build(usize),
    /// Take the evaluation loss of a round.
    Evaluate(usize),
    /// Refit the leaves of all trees after a round.
    Refine(usize),
    /// Cut the trees back to the best round.
    Trim,
    /// Try to split leaves, in the given pass.
    SplitLeaves(usize),
    /// Refit all leaves once, after the given pass.
    RefineSplit(usize),
    /// Refit all leaves as often as set.
    RefineAll,
    /// Merge similar leaves.
    Prune,
    Done,
}

/// The course of training.
#[derive(Clone, Copy, PartialEq, Eq, Structural, Debug)]
pub struct FitCourse {
    pub n_rounds: usize,
    pub evaluates: bool,
    pub refine_every: usize,
    pub n_leaf_splits: usize,
    pub n_refine: usize,
}

impl FitCourse {
    pub open spec fn refines_after(&self, round: int) -> bool {
        self.refine_every > 0 && (round + 1) % self.refine_every as int == 0
    }

    pub open spec fn after_round(&self, round: int) -> FitStep {
        if round + 1 < self.n_rounds {
            FitStep::Build((round + 1) as usize)
        } else {
            FitStep::Trim
        }
    }

    pub open spec fn after_split(&self, pass: int) -> FitStep {
        if pass < self.n_leaf_splits {
            FitStep::SplitLeaves(pass as usize)
        } else if self.n_refine > 0 {
            FitStep::RefineAll
        } else {
            FitStep::Done
        }
    }

    pub open spec fn first(&self) -> FitStep {
        if self.n_rounds > 0 {
            FitStep::Build(0)
        } else {
            FitStep::Trim
        }
    }

    /// The step after `step`; `stop` is the verdict of an evaluation.
    pub open spec fn next(&self, step: FitStep, stop: bool) -> FitStep {
        match step {
            FitStep::Build(r) => if self.evaluates {
                FitStep::Evaluate(r)
            } else if self.refines_after(r as int) {
                FitStep::Refine(r)
            } else {
                self.after_round(r as int)
            },
            FitStep::Evaluate(r) => if stop {
                FitStep::Trim
            } else if self.refines_after(r as int) {
                FitStep::Refine(r)
            } else {
                self.after_round(r as int)
            },
            FitStep::Refine(r) => self.after_round(r as int),
            FitStep::Trim => self.after_split(0),
            FitStep::SplitLeaves(p) => FitStep::RefineSplit(p),
            FitStep::RefineSplit(p) => self.after_split(p + 1),
            FitStep::RefineAll => FitStep::Prune,
            FitStep::Prune => FitStep::Done,
            FitStep::Done => FitStep::Done,
        }
    }

    /// The step belongs to this course.
    pub open spec fn in_course(&self, step: FitStep) -> bool {
        match step {
            FitStep::Build(r) => r < self.n_rounds,
            FitStep::Evaluate(r) => r < self.n_rounds && self.evaluates,
            FitStep::Refine(r) => r < self.n_rounds,
            FitStep::SplitLeaves(p) => p < self.n_leaf_splits,
            FitStep::RefineSplit(p) => p < self.n_leaf_splits,
            _ => true,
        }
    }

    /// A bound on the steps that are left.
    pub open spec fn left(&self, step: FitStep) -> int {
        let tail = 2 * self.n_leaf_splits + 4;
        match step {
            FitStep::Build(r) => 3 * (self.n_rounds - r) + tail,
            FitStep::Evaluate(r) => 3 * (self.n_rounds - r) - 1 + tail,
            FitStep::Refine(r) => 3 * (self.n_rounds - r) - 2 + tail,
            FitStep::Trim => tail,
            FitStep::SplitLeaves(p) => 2 * (self.n_leaf_splits - p) + 3,
            FitStep::RefineSplit(p) => 2 * (self.n_leaf_splits - p) + 2,
            FitStep::RefineAll => 2,
            FitStep::Prune => 1,
            FitStep::Done => 0,
        }
    }

    pub fn first_step(&self) -> (r: FitStep)
        ensures
            r == self.first(),
            self.in_course(r),
    {
        if self.n_rounds > 0 {
            FitStep::Build(0)
        } else {
            FitStep::Trim
        }
    }

    fn refine_due(&self, round: usize) -> (r: bool)
        requires
            round < self.n_rounds,
        ensures
            r == self.refines_after(round as int),
    {
        self.refine_every > 0 && (round + 1) % self.refine_every == 0
    }

    fn round_done(&self, round: usize) -> (r: FitStep)
        requires
            round < self.n_rounds,
        ensures
            r == self.after_round(round as int),
    {
        if round + 1 < self.n_rounds {
            FitStep::Build(round + 1)
        } else {
            FitStep::Trim
        }
    }

    fn split_done(&self, pass: usize) -> (r: FitStep)
        ensures
            r == self.after_split(pass as int),
    {
        if pass < self.n_leaf_splits {
            FitStep::SplitLeaves(pass)
        } else if self.n_refine > 0 {
            FitStep::RefineAll
        } else {
            FitStep::Done
        }
    }

    /// The step after `step`.
    pub fn next_step(&self, step: FitStep, stop: bool) -> (r: FitStep)
        requires
            self.in_course(step),
        ensures
            r == self.next(step, stop),
            self.in_course(r),
    {
        match step {
            FitStep::Build(r) => if self.evaluates {
                FitStep::Evaluate(r)
            } else if self.refine_due(r) {
                FitStep::Refine(r)
            } else {
                self.round_done(r)
            },
            FitStep::Evaluate(r) => if stop {
                FitStep::Trim
            } else if self.refine_due(r) {
                FitStep::Refine(r)
            } else {
                self.round_done(r)
            },
            FitStep::Refine(r) => self.round_done(r),
            FitStep::Trim => self.split_done(0),
            FitStep::SplitLeaves(p) => FitStep::RefineSplit(p),
            FitStep::RefineSplit(p) => self.split_done(p + 1),
            FitStep::RefineAll => FitStep::Prune,
            FitStep::Prune => FitStep::Done,
            FitStep::Done => FitStep::Done,
        }
    }
}

/// Every step brings the end of training nearer, whatever the evaluations say.
pub proof fn law_training_ends(course: FitCourse, step: FitStep, stop: bool)
    requires
        course.in_course(step),
        step != FitStep::Done,
    ensures
        course.in_course(course.next(step, stop)),
        0 <= course.left(course.next(step, stop)) < course.left(step),
{
}

/// The number of trees that stay: those up to the best round, where rounds
/// were evaluated and not all trees are kept.
pub open spec fn trees_kept(n_trees: int, best_round: int, trees_per_round: int, evaluates: bool, keep_all: bool) -> int {
    if evaluates && !keep_all && best_round * trees_per_round < n_trees {
        best_round * trees_per_round
    } else {
        n_trees
    }
}

pub fn count_trees_kept(n_trees: usize, best_round: usize, trees_per_round: usize, evaluates: bool, keep_all: bool) -> (r: usize)
    requires
        best_round * trees_per_round <= usize::MAX,
    ensures
        r == trees_kept(n_trees as int, best_round as int, trees_per_round as int, evaluates, keep_all),
        r <= n_trees,
{
    if evaluates && !keep_all && best_round * trees_per_round < n_trees {
        best_round * trees_per_round
    } else {
        n_trees
    }
}

/// Gradients come from ordered buckets exactly where trees serve all classes at once and
/// neither averaging nor honest rows take their place; there are then as many buckets as
/// are set, one row each at most, and every bucket has its own trees.
pub proof fn law_buckets_are_used_as_set(s: MulticlassSettings, n_rows: int)
    requires
        0 <= n_rows,
    ensures
        s.ordered(n_rows) <==> s.ordered_boost && s.multi_output_tree && !(s.prob_avg || s.honest) && n_rows > 1,
        s.ordered(n_rows) && s.ordered_n_buckets <= n_rows ==> s.buckets(n_rows) == s.ordered_n_buckets,
        s.ordered(n_rows) && s.ordered_n_buckets > n_rows ==> s.buckets(n_rows) == n_rows,
        !s.ordered(n_rows) ==> s.buckets(n_rows) == 1 && s.trees_per_class(n_rows) == s.n_trees_per_round,
        s.ordered(n_rows) ==> s.trees_per_class(n_rows) == s.n_trees_per_round * s.buckets(n_rows),
{
}

/// The classes of labels reach up to the highest label: every label's class is among
/// them, and the last class has a label unless it is the first.
pub proof fn law_classes_reach_to_the_highest_label(y: Seq<Num>, n: nat, i: int, c: int)
    requires
        0 <= i < n <= y.len(),
        0 <= c <= usize::MAX,
    ensures
        y[i].finite() && c * vstd::arithmetic::power2::pow2(1074) <= y[i].scaled() < (c + 1)
            * vstd::arithmetic::power2::pow2(1074) ==> label_class(y[i]) == c && c < class_span(y, n),
        y[i].nan() ==> label_class(y[i]) == 0,
        label_class(y[i]) < class_span(y, n),
        class_span(y, n) == 1 || exists|k: int| 0 <= k < n && label_class(#[trigger] y[k]) + 1 == class_span(y, n),
    decreases n,
{
    if y[i].finite() && c * vstd::arithmetic::power2::pow2(1074) <= y[i].scaled() < (c + 1)
        * vstd::arithmetic::power2::pow2(1074) {
        lemma_whole_part(y[i], c);
    }
    if n > 1 {
        law_classes_reach_to_the_highest_label(
            y,
            (n - 1) as nat,
            if i < n - 1 {
                i
            } else {
                0
            },
            c,
        );
    }
    if class_span(y, n) != class_span(y, (n - 1) as nat) {
        assert(label_class(y[n - 1]) + 1 == class_span(y, n));
    } else if n == 1 {
        assert(class_span(y, 0) == 1);
    }
}

proof fn lemma_whole_part(v: Num, k: int)
    requires
        v.finite(),
        0 <= k <= usize::MAX,
        k * vstd::arithmetic::power2::pow2(1074) <= v.scaled() < (k + 1) * vstd::arithmetic::power2::pow2(1074),
    ensures
        v.counted() == k,
{
    crate::num::law_truncation_drops_the_fraction(v);
    vstd::arithmetic::power2::lemma_pow2_pos(1074);
    let u = vstd::arithmetic::power2::pow2(1074) as int;
    let t = v.truncated();
    let s = v.scaled();
    if !v.negative() {
        assert(t == k) by (nonlinear_arith)
            requires
                u > 0,
                t * u <= s < (t + 1) * u,
                k * u <= s < (k + 1) * u,
        ;
    } else {
        assert(s <= 0) by {
            crate::num::law_key_orders_values(v, Num { bits: 0 });
            assert(crate::num::scaled_magnitude(0) == 0);
        }
        assert(k == 0 && t == 0) by (nonlinear_arith)
            requires
                u > 0,
                0 <= k,
                s <= 0,
                k * u <= s < (k + 1) * u,
                (t - 1) * u < s <= t * u,
        ;
    }
}

/// The rows of a bucket are those that were dealt to it.
pub proof fn law_buckets_hold_their_rows(bucket_of: Seq<usize>, b: int, row: usize)
    requires
        bucket_of.len() <= usize::MAX,
    ensures
        bucket_members(bucket_of, b).contains(row) <==> row < bucket_of.len() && bucket_of[row as int] == b,
{
    crate::select::law_kept_are_those_marked(bucket_flags(bucket_of, b), row);
}

/// Each of the two other ways to grow has its name, and every other name grows by depth.
pub proof fn law_growth_is_named(name: Seq<char>)
    ensures
        policy_named(name) == GrowPolicy::Leafwise <==> name == seq!['l', 'e', 'a', 'f', 'w', 'i', 's', 'e'],
        policy_named(name) == GrowPolicy::Oblivious <==> name == seq!['o', 'b', 'l', 'i', 'v', 'i', 'o', 'u', 's'],
{
    reveal_strlit("leafwise");
    reveal_strlit("oblivious");
    assert("leafwise"@ =~= seq!['l', 'e', 'a', 'f', 'w', 'i', 's', 'e']);
    assert("oblivious"@ =~= seq!['o', 'b', 'l', 'i', 'v', 'i', 'o', 'u', 's']);
}

/// Mixed subtrees take three shapes in turn: the model's own, one a level shallower but
/// never below two that grows the other way under twice the penalty and searches all
/// thresholds, and one a level deeper that grows node by node under half of it. All others
/// have the model's own shape.
pub proof fn law_mixed_subtrees_take_turns(
    hetero: bool,
    n_sub: int,
    sub: int,
    max_depth: int,
    policy: GrowPolicy,
    extra_trees: bool,
)
    requires
        0 <= sub,
        0 <= max_depth < usize::MAX,
    ensures
        ({
            let s = subtree_shape(hetero, n_sub, sub, max_depth, policy, extra_trees);
            let mixed = hetero && n_sub >= 3;
            let oblivious = policy == GrowPolicy::Oblivious;
            &&& s.lambda == LambdaScale::Same <==> !mixed || sub % 3 == 0
            &&& s.lambda == LambdaScale::Double <==> mixed && sub % 3 == 1
            &&& s.lambda == LambdaScale::Half <==> mixed && sub % 3 == 2
            &&& s.lambda == LambdaScale::Same ==> s.depth == max_depth && s.oblivious == oblivious && s.extra_trees
                == extra_trees
            &&& s.lambda == LambdaScale::Double ==> s.depth >= 2 && s.oblivious != oblivious && !s.extra_trees
            &&& s.lambda == LambdaScale::Double && max_depth >= 3 ==> s.depth + 1 == max_depth
            &&& s.lambda == LambdaScale::Double && max_depth < 3 ==> s.depth == 2
            &&& s.lambda == LambdaScale::Half ==> s.depth == max_depth + 1 && !s.oblivious && s.extra_trees
                == extra_trees
            &&& s == subtree_shape(hetero, n_sub, sub + 3, max_depth, policy, extra_trees)
        }),
{
}

/// Honest trees fit their leaves on the rows outside the sample where no share is set and
/// there are such rows, and else on a share of the sample.
pub proof fn law_honest_rows_are_chosen_as_set(honest: bool, fraction: Num, rate: Num)
    requires
        fraction.finite(),
        rate.finite(),
    ensures
        honest_mode(honest, fraction, rate) == HonestMode::Off <==> !honest,
        honest_mode(honest, fraction, rate) == HonestMode::OutOfSample <==> honest && fraction.scaled() <= 0
            && rate.scaled() < (Num { bits: 0x3ff0_0000_0000_0000 }).scaled(),
{
    let zero = Num { bits: 0 };
    assert(crate::num::scaled_magnitude(0) == 0);
    assert(zero.scaled() == 0);
    crate::num::law_key_orders_values(fraction, zero);
    crate::num::law_key_orders_values(rate, Num { bits: ONE });
}

/// The share held for the leaves is the one that is set, from a tenth to nine tenths, and
/// the rows are its part of the sample to the nearest row.
pub proof fn law_honest_shares_are_as_set(fraction: Num, product: Num, n: int)
    requires
        fraction.finite(),
        product.finite(),
        0 <= n,
    ensures
        ({
            let low = Num { bits: 0x3fb9_9999_9999_999a };
            let high = Num { bits: 0x3fec_cccc_cccc_cccd };
            &&& low.scaled() <= fraction.scaled() <= high.scaled() ==> share_held(fraction) == fraction
            &&& fraction.scaled() < low.scaled() ==> share_held(fraction) == low
            &&& high.scaled() < fraction.scaled() ==> share_held(fraction) == high
        }),
        0 <= estimation_count(product, n) <= n,
        0 <= product.scaled() <= n * vstd::arithmetic::power2::pow2(1074) ==> {
            let r = estimation_count(product, n);
            (2 * r - 1) * vstd::arithmetic::power2::pow2(1074) <= 2 * product.scaled() <= (2 * r + 1)
                * vstd::arithmetic::power2::pow2(1074)
        },
{
    crate::num::law_key_orders_values(fraction, Num { bits: POINT_1 });
    crate::num::law_key_orders_values(Num { bits: POINT_9 }, fraction);
    crate::num::law_rounding_is_to_the_nearest(product);
    vstd::arithmetic::power2::lemma_pow2_pos(1074);
    let u = vstd::arithmetic::power2::pow2(1074) as int;
    let t = product.rounded();
    let s = product.scaled();
    if 0 <= s <= n * u {
        assert(0 <= t <= n) by (nonlinear_arith)
            requires
                u > 0,
                0 <= s <= n * u,
                (2 * t - 1) * u <= 2 * s <= (2 * t + 1) * u,
                (2 * t - 1) * u < 2 * s || 2 * s < (2 * t + 1) * u,
        ;
    }
}

/// A row is left out of its leaf's estimate exactly where the leaf was fitted on it and
/// on another row besides.
pub proof fn law_rows_leave_their_own_leaf(tree: DecisionTree, data: BinnedData, built: Seq<u32>, row: u32, i: int, j: int)
    ensures
        leaves_one_out(tree, data, built, row as int) ==> built.contains(row),
        0 <= i < j < built.len() && built[i] == row && tree.leaf_of(data, built[j] as int) == tree.leaf_of(
            data,
            row as int,
        ) ==> leaves_one_out(tree, data, built, row as int),
        0 <= i < j < built.len() && built[j] == row && tree.leaf_of(data, built[i] as int) == tree.leaf_of(
            data,
            row as int,
        ) ==> leaves_one_out(tree, data, built, row as int),
        rows_ending(tree, data, built, tree.leaf_of(data, row as int)) == seq![row] ==> !leaves_one_out(
            tree,
            data,
            built,
            row as int,
        ),
{
    let node = tree.leaf_of(data, row as int);
    if 0 <= i < j < built.len() && tree.leaf_of(data, built[i] as int) == node && tree.leaf_of(data, built[j] as int)
        == node {
        let a = built.take(j);
        let b = built.skip(j);
        assert(a + b =~= built);
        crate::leaves::law_rows_end_in_one_leaf(tree, data, a, b, node, built[i]);
        crate::leaves::law_rows_end_in_one_leaf(tree, data, b, Seq::empty(), node, built[j]);
        assert(a[i] == built[i]);
        assert(b[0] == built[j]);
        assert(rows_ending(tree, data, a, node).contains(built[i]));
        assert(rows_ending(tree, data, b, node).contains(built[j]));
        assert(rows_ending(tree, data, a, node).len() >= 1);
        assert(rows_ending(tree, data, b, node).len() >= 1);
    }
}

/// The rows of a class are counted one by one: those of two lists add up, and one row
/// counts for its own class alone.
pub proof fn law_class_counts_add_up(a: Seq<u32>, b: Seq<u32>, classes: Seq<usize>, row: u32, k: int)
    ensures
        rows_of_class(a + b, classes, k) == rows_of_class(a, classes, k) + rows_of_class(b, classes, k),
        rows_of_class(seq![row], classes, k) == if classes[row as int] == k {
            1nat
        } else {
            0
        },
    decreases b.len(),
{
    reveal_with_fuel(rows_of_class, 2);
    assert(seq![row].drop_last() =~= Seq::<u32>::empty());
    if b.len() > 0 {
        law_class_counts_add_up(a, b.drop_last(), classes, row, k);
        assert((a + b).drop_last() =~= a + b.drop_last());
        assert((a + b).last() == b.last());
    } else {
        assert(a + b =~= a);
    }
}

/// Training keeps the trees up to the best round where there was a round to choose, and
/// all of them else; it never adds any.
pub proof fn law_trees_are_kept_to_the_best_round(
    n_trees: int,
    best_round: int,
    trees_per_round: int,
    evaluates: bool,
    keep_all: bool,
)
    ensures
        !evaluates || keep_all ==> trees_kept(n_trees, best_round, trees_per_round, evaluates, keep_all) == n_trees,
        evaluates && !keep_all && best_round * trees_per_round <= n_trees ==> trees_kept(
            n_trees,
            best_round,
            trees_per_round,
            evaluates,
            keep_all,
        ) == best_round * trees_per_round,
        trees_kept(n_trees, best_round, trees_per_round, evaluates, keep_all) <= n_trees,
        evaluates && !keep_all ==> trees_kept(n_trees, best_round, trees_per_round, evaluates, keep_all) <= best_round
            * trees_per_round,
{
}

/// A bucket's trees are fitted on all rows but its own.
pub proof fn law_buckets_pool_the_others(plan: OrderedBuckets, n_rows: int, n_buckets: int, b: int, row: usize)
    requires
        plan.planned(n_rows, n_buckets),
        0 <= b < n_buckets,
        row < n_rows <= usize::MAX,
    ensures
        plan.rows@[b]@.contains(row) <==> plan.bucket_of@[row as int] == b,
        plan.pools@[b]@.contains(row) <==> plan.bucket_of@[row as int] != b,
        plan.rows@.len() == n_buckets && plan.pools@.len() == n_buckets,
{
    law_buckets_hold_their_rows(plan.bucket_of@, b, row);
    law_pool_excludes_own_bucket(plan.bucket_of@, b, n_buckets as nat, row);
    assert(plan.bucket_of@[row as int] < n_buckets);
}

} // verus!
