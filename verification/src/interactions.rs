//! Feature interactions: which pairs are looked at, how they are ranked, and
//! which derived columns the matrix gets.

use crate::bits::POINT_025;
use crate::combos::{index_pairs, is_pair_list};
use crate::ctr::categorical_flags;
use crate::groups::{all_rows, group_rows, rows_with_key, KeyGroups};
use crate::num::Num;
use crate::order::{is_key_ranking, rank_by_key, RankKey};
use crate::select::{at_most, collect_kept, is_positive, kept_indices, lemma_kept_indices, positive};
use crate::task::Task;
use crate::tree::{lemma_cell, BinnedData, NO_FEATURE};
use vstd::prelude::*;

verus! {

/// Which of the first `n` features are not flagged as categorical.
pub open spec fn numeric_flags(cat_features: Seq<bool>, n: nat) -> Seq<bool> {
    Seq::new(n, |f: int| !(f < cat_features.len() && cat_features[f]))
}

/// The features that are not flagged as categorical.
pub fn numeric_features(cat_features: &Vec<bool>, n_features: usize) -> (list: Vec<usize>)
    ensures
        list@ == kept_indices(numeric_flags(cat_features@, n_features as nat)),
{
    let mut flags: Vec<bool> = Vec::new();
    let mut f: usize = 0;
    while f < n_features
        invariant
            f <= n_features,
            flags@.len() == f,
            forall|k: int| 0 <= k < f ==> #[trigger] flags@[k] == !(k < cat_features@.len() && cat_features@[k]),
        decreases n_features - f,
    {
        flags.push(!(f < cat_features.len() && cat_features[f]));
        f = f + 1;
    }
    assert(flags@ =~= numeric_flags(cat_features@, n_features as nat));
    collect_kept(&flags)
}

/// Every feature is numeric or categorical, and none is both.
pub proof fn law_features_part(cat_features: Seq<bool>, n: nat, f: usize)
    requires
        n <= usize::MAX,
        f < n,
    ensures
        kept_indices(numeric_flags(cat_features, n)).contains(f) <==> !kept_indices(
            categorical_flags(cat_features, n),
        ).contains(f),
{
    let a = numeric_flags(cat_features, n);
    let b = categorical_flags(cat_features, n);
    lemma_kept_indices(a);
    lemma_kept_indices(b);
    if kept_indices(a).contains(f) {
        let p = choose|p: int| 0 <= p < kept_indices(a).len() && kept_indices(a)[p] == f;
        assert(a[kept_indices(a)[p] as int]);
    }
    if kept_indices(b).contains(f) {
        let p = choose|p: int| 0 <= p < kept_indices(b).len() && kept_indices(b)[p] == f;
        assert(b[kept_indices(b)[p] as int]);
    }
    assert(a[f as int] || b[f as int]);
}

/// What a fit looks for.
#[derive(Clone, Copy, PartialEq, Eq, Structural, Debug)]
pub struct InteractionPlan {
    pub numeric: bool,
    pub categorical: bool,
    pub max_pairs: usize,
    pub warmup_rounds: usize,
}

/// Whether pairs of categories are looked for.
pub open spec fn seeks_categories(auto_cat: bool, n_categorical: int, task: Task) -> bool {
    auto_cat && n_categorical >= 2 && task != Task::Regression && task != Task::Poisson
}

/// What a fit looks for, or nothing: products of numeric features where there
/// are two, pairs of categories where there are two and the task has classes.
/// Large data get fewer warmup rounds.
pub fn plan_interactions(
    auto_numeric: bool,
    auto_cat: bool,
    task: Task,
    n_numeric: usize,
    n_categorical: usize,
    max_features: usize,
    n_rows: usize,
    n_rounds: usize,
) -> (r: Option<InteractionPlan>)
    ensures
        r is Some <==> (auto_numeric && n_numeric >= 2) || seeks_categories(auto_cat, n_categorical as int, task),
        r matches Some(p) ==> {
            &&& p.numeric == auto_numeric
            &&& p.categorical == seeks_categories(auto_cat, n_categorical as int, task)
            &&& p.max_pairs == (if max_features > 0 {
                max_features
            } else {
                10
            })
            &&& p.warmup_rounds == at_most(
                if n_rows >= 5000 {
                    6
                } else {
                    15
                },
                n_rounds as int,
            )
        },
{
    let classes: bool = match task {
        Task::Regression => false,
        Task::Poisson => false,
        _ => true,
    };
    let categorical: bool = auto_cat && n_categorical >= 2 && classes;
    if !((auto_numeric && n_numeric >= 2) || categorical) {
        return None;
    }
    let cap: usize = if n_rows >= 5000 { 6 } else { 15 };
    Some(
        InteractionPlan {
            numeric: auto_numeric,
            categorical,
            max_pairs: if max_features > 0 { max_features } else { 10 },
            warmup_rounds: if cap < n_rounds { cap } else { n_rounds },
        },
    )
}

/// The keys by which scored pairs are ranked.
pub open spec fn pair_keys(pairs: Seq<(usize, usize)>, scores: Seq<Num>) -> Seq<RankKey> {
    Seq::new(
        pairs.len(),
        |i: int| RankKey { score: scores[i].key() as i64, first: pairs[i].0, second: pairs[i].1 },
    )
}

/// The pairs in the order of a ranking, `limit` at most.
pub open spec fn ranked_pairs(pairs: Seq<(usize, usize)>, order: Seq<usize>, limit: int) -> Seq<(usize, usize)> {
    Seq::new(at_most(limit, order.len() as int) as nat, |i: int| pairs[order[i] as int])
}

/// The best `limit` pairs: by falling score, equal scores by the pair.
pub fn rank_pairs(pairs: &Vec<(usize, usize)>, scores: &Vec<Num>, limit: usize) -> (best: Vec<(usize, usize)>)
    requires
        pairs@.len() == scores@.len(),
        forall|i: int| 0 <= i < scores@.len() ==> !(#[trigger] scores@[i]).nan(),
    ensures
        exists|order: Seq<usize>| #[trigger]
            is_key_ranking(pair_keys(pairs@, scores@), order) && best@ == ranked_pairs(pairs@, order, limit as int),
{
    let mut keys: Vec<RankKey> = Vec::new();
    let mut i: usize = 0;
    while i < pairs.len()
        invariant
            i <= pairs@.len(),
            pairs@.len() == scores@.len(),
            keys@.len() == i,
            forall|k: int| 0 <= k < i ==> #[trigger] keys@[k] == pair_keys(pairs@, scores@)[k],
        decreases pairs@.len() - i,
    {
        let (a, b) = pairs[i];
        keys.push(RankKey { score: scores[i].order_key(), first: a, second: b });
        i = i + 1;
    }
    assert(keys@ =~= pair_keys(pairs@, scores@));
    let order: Vec<usize> = rank_by_key(&keys);
    let mut best: Vec<(usize, usize)> = Vec::new();
    let mut t: usize = 0;
    while t < order.len() && t < limit
        invariant
            t <= limit,
            t <= order@.len(),
            is_key_ranking(pair_keys(pairs@, scores@), order@),
            best@.len() == t,
            forall|k: int| 0 <= k < t ==> #[trigger] best@[k] == pairs@[order@[k] as int],
        decreases order@.len() - t,
    {
        assert(order@[t as int] < pairs@.len());
        best.push(pairs[order[t]]);
        t = t + 1;
    }
    assert(best@ =~= ranked_pairs(pairs@, order@, limit as int));
    best
}

/// `list` with the pairs of `more` that it lacks, up to `limit` in all.
pub open spec fn pairs_joined(list: Seq<(usize, usize)>, more: Seq<(usize, usize)>, n: nat, limit: int) -> Seq<
    (usize, usize),
>
    decreases n,
{
    if n == 0 {
        list
    } else {
        let rest = pairs_joined(list, more, (n - 1) as nat, limit);
        if rest.len() < limit && !rest.contains(more[n - 1]) {
            rest.push(more[n - 1])
        } else {
            rest
        }
    }
}

fn has_pair(list: &Vec<(usize, usize)>, p: (usize, usize)) -> (r: bool)
    ensures
        r == list@.contains(p),
{
    let mut i: usize = 0;
    while i < list.len()
        invariant
            i <= list@.len(),
            forall|k: int| 0 <= k < i ==> #[trigger] list@[k] != p,
        decreases list@.len() - i,
    {
        let q: (usize, usize) = list[i];
        if q.0 == p.0 && q.1 == p.1 {
            assert(list@[i as int] == p);
            return true;
        }
        i = i + 1;
    }
    false
}

/// How many of the stable pairs are taken: half of all, one at least.
pub open spec fn stable_share(max_pairs: int) -> int {
    at_most(
        if max_pairs / 2 > 1 {
            max_pairs / 2
        } else {
            1
        },
        max_pairs,
    )
}

/// The pairs whose products a model uses: first the best stable pairs, up to
/// half of all, then the pairs that warmup trees split on together. None twice.
pub fn select_products(stable: &Vec<(usize, usize)>, scored: &Vec<(usize, usize)>, max_pairs: usize) -> (list: Vec<
    (usize, usize),
>)
    ensures
        list@ == pairs_joined(
            pairs_joined(
                Seq::empty(),
                stable@,
                at_most(stable_share(max_pairs as int), stable@.len() as int) as nat,
                stable_share(max_pairs as int),
            ),
            scored@,
            scored@.len(),
            max_pairs as int,
        ),
{
    let half: usize = if max_pairs / 2 > 1 { max_pairs / 2 } else { 1 };
    let share: usize = if half < max_pairs { half } else { max_pairs };
    let take: usize = if share < stable.len() { share } else { stable.len() };
    let mut list: Vec<(usize, usize)> = Vec::new();
    let mut i: usize = 0;
    while i < take
        invariant
            i <= take <= stable@.len(),
            take <= share,
            share == stable_share(max_pairs as int),
            list@ == pairs_joined(Seq::empty(), stable@, i as nat, share as int),
            list@.len() <= i,
        decreases take - i,
    {
        if !has_pair(&list, stable[i]) {
            list.push(stable[i]);
        }
        i = i + 1;
    }
    let head = Ghost(list@);
    let mut j: usize = 0;
    while j < scored.len()
        invariant
            j <= scored@.len(),
            list@ == pairs_joined(head@, scored@, j as nat, max_pairs as int),
        decreases scored@.len() - j,
    {
        if list.len() < max_pairs && !has_pair(&list, scored[j]) {
            list.push(scored[j]);
        }
        j = j + 1;
    }
    list
}

/// Joining keeps every pair once, and no more than allowed.
pub proof fn law_products_are_distinct(list: Seq<(usize, usize)>, more: Seq<(usize, usize)>, n: nat, limit: int)
    requires
        list.no_duplicates(),
        list.len() <= limit,
        n <= more.len(),
    ensures
        pairs_joined(list, more, n, limit).no_duplicates(),
        pairs_joined(list, more, n, limit).len() <= limit,
    decreases n,
{
    if n > 0 {
        law_products_are_distinct(list, more, (n - 1) as nat, limit);
    }
}

/// How many pairs of categories are kept: eight at most.
pub fn category_pair_limit(max_pairs: usize) -> (r: usize)
    ensures
        r == at_most(max_pairs as int, 8),
{
    if max_pairs < 8 {
        max_pairs
    } else {
        8
    }
}

/// Whether stable pairs are looked for: enough rows, between 2 and 128 numeric
/// features, and a matrix that holds all its cells.
pub fn stable_pairs_apply(n_rows: usize, n_numeric: usize, n_cells: usize, n_features: usize) -> (r: bool)
    ensures
        r == (n_rows >= 64 && 2 <= n_numeric <= 128 && n_cells >= n_rows * n_features),
{
    if n_rows < 64 || n_numeric < 2 || n_numeric > 128 {
        return false;
    }
    match n_rows.checked_mul(n_features) {
        Some(n) => n_cells >= n,
        None => false,
    }
}

/// Whether row `row` counts in parity fold `fold` for a product of two
/// features: its target and both values are finite.
pub open spec fn counts_in_fold(x: Seq<Num>, y: Seq<Num>, n_features: int, a: int, b: int, fold: int, row: int) -> bool {
    row % 2 == fold && x[row * n_features + a].finite() && x[row * n_features + b].finite() && y[row].finite()
}

/// The rows of a parity fold that count for a pair of features (a feature with
/// itself gives the rows that count for it alone).
pub fn fold_rows(x: &Vec<Num>, y: &Vec<Num>, n_rows: usize, n_features: usize, a: usize, b: usize, fold: usize) -> (rows: Vec<
    usize,
>)
    requires
        n_rows * n_features <= x@.len(),
        n_rows <= y@.len(),
        a < n_features,
        b < n_features,
        fold < 2,
    ensures
        rows@ == kept_indices(
            Seq::new(
                n_rows as nat,
                |row: int|
                    counts_in_fold(x@, y@, n_features as int, a as int, b as int, fold as int, row),
            ),
        ),
{
    let mut flags: Vec<bool> = Vec::new();
    let mut row: usize = 0;
    while row < n_rows
        invariant
            row <= n_rows,
            n_rows * n_features <= x@.len(),
            n_rows <= y@.len(),
            a < n_features,
            b < n_features,
            flags@.len() == row,
            forall|k: int|
                0 <= k < row ==> #[trigger] flags@[k] == counts_in_fold(
                    x@,
                    y@,
                    n_features as int,
                    a as int,
                    b as int,
                    fold as int,
                    k,
                ),
        decreases n_rows - row,
    {
        proof {
            lemma_cell(row as int, a as int, n_rows as int, n_features as int);
            lemma_cell(row as int, b as int, n_rows as int, n_features as int);
            assert(x.len() == x@.len());
        }
        flags.push(
            row % 2 == fold && x[row * n_features + a].is_finite() && x[row * n_features + b].is_finite()
                && y[row].is_finite(),
        );
        row = row + 1;
    }
    assert(flags@ =~= Seq::new(
        n_rows as nat,
        |row: int| counts_in_fold(x@, y@, n_features as int, a as int, b as int, fold as int, row),
    ));
    collect_kept(&flags)
}

/// The folds agree, the surplus is not small, and the score is finite and above zero.
pub open spec fn stable_product(agreement: Num, surplus: Num, score: Num) -> bool {
    !agreement.at_most(Num { bits: 0 }) && !surplus.at_most(Num { bits: POINT_025 }) && score.finite() && positive(score)
}

/// Whether a product is stable: its correlation has the same sign in both
/// folds (`agreement` is their product), it exceeds those of its features by
/// more than 0.025 in both (`surplus` is the smaller excess), and its score is
/// finite and above zero.
pub fn product_is_stable(agreement: &Num, surplus: &Num, score: &Num) -> (r: bool)
    ensures
        r == stable_product(*agreement, *surplus, *score),
{
    let zero: Num = Num { bits: 0 };
    let least: Num = Num { bits: POINT_025 };
    !agreement.le(&zero) && !surplus.le(&least) && score.is_finite() && is_positive(score)
}

/// The numeric pairs to score, in lexicographic order of their positions,
/// each with its lower feature first.
pub fn numeric_pairs(features: &Vec<usize>) -> (pairs: Vec<(usize, usize)>)
    ensures
        exists|list: Seq<(usize, usize)>| #[trigger]
            is_pair_list(features@.len() as int, list) && pairs@ == Seq::new(
                list.len(),
                |p: int|
                    {
                        let a = features@[list[p].0 as int];
                        let b = features@[list[p].1 as int];
                        if a <= b {
                            (a, b)
                        } else {
                            (b, a)
                        }
                    },
            ),
{
    let list: Vec<(usize, usize)> = index_pairs(features.len());
    let mut pairs: Vec<(usize, usize)> = Vec::new();
    let mut p: usize = 0;
    while p < list.len()
        invariant
            p <= list@.len(),
            is_pair_list(features@.len() as int, list@),
            pairs@.len() == p,
            forall|q: int|
                0 <= q < p ==> #[trigger] pairs@[q] == ({
                    let a = features@[list@[q].0 as int];
                    let b = features@[list@[q].1 as int];
                    if a <= b {
                        (a, b)
                    } else {
                        (b, a)
                    }
                }),
        decreases list@.len() - p,
    {
        let (i, j) = list[p];
        assert(list@[p as int].0 < list@[p as int].1 < features@.len());
        let a: usize = features[i];
        let b: usize = features[j];
        if a <= b {
            pairs.push((a, b));
        } else {
            pairs.push((b, a));
        }
        p = p + 1;
    }
    assert(pairs@ =~= Seq::new(
        list@.len(),
        |p: int|
            {
                let a = features@[list@[p].0 as int];
                let b = features@[list@[p].1 as int];
                if a <= b {
                    (a, b)
                } else {
                    (b, a)
                }
            },
    ));
    pairs
}

/// How often feature `f` is split on among the first `n` splits of a list.
pub open spec fn split_count(splits: Seq<u32>, n: nat, f: int) -> nat
    decreases n,
{
    if n == 0 {
        0
    } else {
        split_count(splits, (n - 1) as nat, f) + (if splits[n - 1] == f && f != NO_FEATURE {
            1nat
        } else {
            0
        })
    }
}

proof fn lemma_split_count(splits: Seq<u32>, n: nat, f: int)
    ensures
        split_count(splits, n, f) <= n,
    decreases n,
{
    if n > 0 {
        lemma_split_count(splits, (n - 1) as nat, f);
    }
}

/// How often each feature is split on; a split on a feature beyond them is passed over.
pub fn count_splits(splits: &Vec<u32>, n_features: usize) -> (counts: Vec<usize>)
    ensures
        counts@.len() == n_features,
        forall|f: int| 0 <= f < n_features && f != NO_FEATURE ==> #[trigger] counts@[f] == split_count(splits@, splits@.len(), f),
        n_features > NO_FEATURE ==> counts@[NO_FEATURE as int] == 0,
{
    let mut counts: Vec<usize> = Vec::new();
    let mut f: usize = 0;
    while f < n_features
        invariant
            f <= n_features,
            counts@.len() == f,
            forall|k: int| 0 <= k < f ==> #[trigger] counts@[k] == 0,
        decreases n_features - f,
    {
        counts.push(0);
        f = f + 1;
    }
    let mut i: usize = 0;
    while i < splits.len()
        invariant
            i <= splits@.len(),
            counts@.len() == n_features,
            forall|k: int| 0 <= k < n_features ==> #[trigger] counts@[k] == split_count(splits@, i as nat, k),
        decreases splits@.len() - i,
    {
        let s: u32 = splits[i];
        let before = Ghost(counts@);
        if s != NO_FEATURE && (s as usize) < n_features {
            let c: usize = counts[s as usize];
            proof {
                lemma_split_count(splits@, i as nat, s as int);
                assert(c == split_count(splits@, i as nat, s as int));
            }
            counts.set(s as usize, c + 1);
        }
        assert forall|k: int| 0 <= k < n_features implies #[trigger] counts@[k] == split_count(
            splits@,
            (i + 1) as nat,
            k,
        ) by {
            assert(before@[k] == split_count(splits@, i as nat, k));
        }
        i = i + 1;
    }
    proof {
        if n_features > NO_FEATURE {
            lemma_no_feature(splits@, splits@.len());
        }
    }
    counts
}

proof fn lemma_no_feature(splits: Seq<u32>, n: nat)
    ensures
        split_count(splits, n, NO_FEATURE as int) == 0,
    decreases n,
{
    if n > 0 {
        lemma_no_feature(splits, (n - 1) as nat);
    }
}

/// The key of a pair of features.
pub open spec fn pair_code(a: u32, b: u32) -> i64 {
    (a * 0x8000_0000 + b) as i64
}

/// Pairs that occur, each once, with how often it does.
pub struct PairCounts {
    pub pairs: Vec<(u32, u32)>,
    pub counts: Vec<usize>,
}

/// How often `p` occurs among the first `n` pairs of a list.
pub open spec fn pair_count(list: Seq<(u32, u32)>, n: nat, p: (u32, u32)) -> nat
    decreases n,
{
    if n == 0 {
        0
    } else {
        pair_count(list, (n - 1) as nat, p) + (if list[n - 1] == p {
            1nat
        } else {
            0
        })
    }
}

proof fn lemma_pair_rows(list: Seq<(u32, u32)>, keys: Seq<i64>, rows: Seq<usize>, n: nat, p: (u32, u32))
    requires
        n <= list.len(),
        list.len() == keys.len(),
        rows.len() == list.len(),
        forall|i: int| 0 <= i < rows.len() ==> #[trigger] rows[i] == i,
        forall|i: int| 0 <= i < list.len() ==> (#[trigger] list[i]).0 < 0x8000_0000 && list[i].1 < 0x8000_0000,
        forall|i: int| 0 <= i < list.len() ==> #[trigger] keys[i] == pair_code(list[i].0, list[i].1),
        p.0 < 0x8000_0000,
        p.1 < 0x8000_0000,
    ensures
        rows_with_key(keys, rows.take(n as int), pair_code(p.0, p.1)).len() == pair_count(list, n, p),
    decreases n,
{
    if n > 0 {
        lemma_pair_rows(list, keys, rows, (n - 1) as nat, p);
        assert(rows.take(n as int).drop_last() =~= rows.take(n - 1));
        assert(rows.take(n as int).last() == rows[n - 1]);
        assert(rows[n - 1] == n - 1);
        assert(keys[n - 1] == pair_code(list[n - 1].0, list[n - 1].1));
        let q = list[n - 1];
        assert(q.0 < 0x8000_0000 && q.1 < 0x8000_0000);
        assert(pair_code(q.0, q.1) == pair_code(p.0, p.1) <==> q == p);
    }
}

/// Counts how often each pair of features is split on together.
pub fn count_pairs(list: &Vec<(u32, u32)>) -> (r: PairCounts)
    requires
        forall|i: int| 0 <= i < list@.len() ==> (#[trigger] list@[i]).0 < 0x8000_0000 && list@[i].1 < 0x8000_0000,
    ensures
        r.pairs@.len() == r.counts@.len(),
        r.pairs@.no_duplicates(),
        forall|i: int| 0 <= i < list@.len() ==> r.pairs@.contains(#[trigger] list@[i]),
        forall|g: int|
            0 <= g < r.pairs@.len() ==> list@.contains(#[trigger] r.pairs@[g]) && r.counts@[g] == pair_count(
                list@,
                list@.len(),
                r.pairs@[g],
            ),
{
    let mut keys: Vec<i64> = Vec::new();
    let mut i: usize = 0;
    while i < list.len()
        invariant
            i <= list@.len(),
            forall|k: int| 0 <= k < list@.len() ==> (#[trigger] list@[k]).0 < 0x8000_0000 && list@[k].1 < 0x8000_0000,
            keys@.len() == i,
            forall|k: int| 0 <= k < i ==> #[trigger] keys@[k] == pair_code(list@[k].0, list@[k].1),
        decreases list@.len() - i,
    {
        let (a, b) = list[i];
        keys.push((a as i64) * 0x8000_0000 + (b as i64));
        i = i + 1;
    }
    let rows: Vec<usize> = all_rows(list.len());
    let groups: KeyGroups = group_rows(&keys, &rows);
    let mut pairs: Vec<(u32, u32)> = Vec::new();
    let mut counts: Vec<usize> = Vec::new();
    let mut g: usize = 0;
    proof {
        crate::groups::lemma_distinct_keys(keys@, rows@);
    }
    while g < groups.keys.len()
        invariant
            g <= groups.keys@.len(),
            groups.groups(keys@, rows@),
            keys@.len() == list@.len(),
            rows@.len() == list@.len(),
            forall|k: int| 0 <= k < rows@.len() ==> #[trigger] rows@[k] == k,
            forall|k: int| 0 <= k < list@.len() ==> (#[trigger] list@[k]).0 < 0x8000_0000 && list@[k].1 < 0x8000_0000,
            forall|k: int| 0 <= k < list@.len() ==> #[trigger] keys@[k] == pair_code(list@[k].0, list@[k].1),
            pairs@.len() == g,
            counts@.len() == g,
            forall|h: int|
                0 <= h < g ==> {
                    &&& list@.contains(#[trigger] pairs@[h])
                    &&& pair_code(pairs@[h].0, pairs@[h].1) == groups.keys@[h]
                    &&& counts@[h] == pair_count(list@, list@.len(), pairs@[h])
                },
        decreases groups.keys@.len() - g,
    {
        let members: &Vec<usize> = &groups.rows[g];
        proof {
            lemma_group_nonempty(keys@, rows@, g as int);
            crate::groups::lemma_rows_with_key(keys@, rows@, groups.keys@[g as int]);
            assert(groups.rows@[g as int]@ == rows_with_key(keys@, rows@, groups.keys@[g as int]));
            assert(rows@.contains(members@[0]));
        }
        let row: usize = members[0];
        let p: (u32, u32) = list[row];
        proof {
            assert(keys@[row as int] == groups.keys@[g as int]);
            assert(list@[row as int] == p);
            lemma_pair_rows(list@, keys@, rows@, list@.len(), p);
            assert(rows@.take(list@.len() as int) =~= rows@);
        }
        pairs.push(p);
        counts.push(members.len());
        g = g + 1;
    }
    proof {
        assert forall|a: int, b: int| 0 <= a < b < pairs@.len() implies pairs@[a] != pairs@[b] by {
            assert(pair_code(pairs@[a].0, pairs@[a].1) == groups.keys@[a]);
            assert(pair_code(pairs@[b].0, pairs@[b].1) == groups.keys@[b]);
        }
        assert forall|i: int| 0 <= i < list@.len() implies pairs@.contains(#[trigger] list@[i]) by {
            assert(rows@[i] == i);
            assert(groups.group_of@[i] < groups.keys@.len());
            let h = groups.group_of@[i] as int;
            assert(groups.keys@[h] == keys@[rows@[i] as int]);
            let q = pairs@[h];
            assert(list@.contains(q));
            let k = choose|k: int| 0 <= k < list@.len() && list@[k] == q;
            assert(list@[k].0 < 0x8000_0000 && list@[k].1 < 0x8000_0000);
            assert(pair_code(q.0, q.1) == pair_code(list@[i].0, list@[i].1));
            assert(q == list@[i]);
        }
    }
    PairCounts { pairs, counts }
}

/// A listed key has a row.
proof fn lemma_group_nonempty(keys: Seq<i64>, list: Seq<usize>, g: int)
    requires
        0 <= g < crate::groups::distinct_keys(keys, list).len(),
    ensures
        rows_with_key(keys, list, crate::groups::distinct_keys(keys, list)[g]).len() > 0,
    decreases list.len(),
{
    let all = crate::groups::distinct_keys(keys, list);
    let rest = crate::groups::distinct_keys(keys, list.drop_last());
    if list.len() > 0 {
        if g < rest.len() {
            lemma_group_nonempty(keys, list.drop_last(), g);
            assert(all[g] == rest[g]);
        }
    }
}

/// The cell of an extended matrix: first the raw columns, then the extra ones.
pub open spec fn extended_cell(x: Seq<Num>, extra: Seq<Vec<Num>>, n_raw: int, row: int, col: int) -> Num {
    if col < n_raw {
        x[row * n_raw + col]
    } else {
        extra[col - n_raw]@[row]
    }
}

/// Adds columns to a row-major matrix.
pub fn extend_raw_matrix(x: &Vec<Num>, n_rows: usize, n_raw: usize, extra: &Vec<Vec<Num>>) -> (r: (Vec<Num>, usize))
    requires
        x@.len() == n_rows * n_raw,
        n_rows * (n_raw + extra@.len()) <= usize::MAX,
        n_raw + extra@.len() <= usize::MAX,
        forall|c: int| 0 <= c < extra@.len() ==> (#[trigger] extra@[c])@.len() == n_rows,
    ensures
        r.1 == n_raw + extra@.len(),
        r.0@.len() == n_rows * (n_raw + extra@.len()),
        forall|row: int, col: int|
            #![trigger r.0@[row * (n_raw + extra@.len()) + col]]
            0 <= row < n_rows && 0 <= col < n_raw + extra@.len() ==> r.0@[row * (n_raw + extra@.len()) + col]
                == extended_cell(x@, extra@, n_raw as int, row, col),
        extra@.len() == 0 ==> r.0@ == x@,
{
    let total: usize = n_raw + extra.len();
    let mut out: Vec<Num> = Vec::new();
    let mut row: usize = 0;
    assert(0 * total == 0) by (nonlinear_arith);
    while row < n_rows
        invariant
            row <= n_rows,
            total == n_raw + extra@.len(),
            x@.len() == n_rows * n_raw,
            n_rows * total <= usize::MAX,
            forall|c: int| 0 <= c < extra@.len() ==> (#[trigger] extra@[c])@.len() == n_rows,
            out@.len() == row * total,
            forall|r: int, c: int|
                #![trigger out@[r * total + c]]
                0 <= r < row && 0 <= c < total ==> out@[r * total + c] == extended_cell(
                    x@,
                    extra@,
                    n_raw as int,
                    r,
                    c,
                ),
        decreases n_rows - row,
    {
        let mut col: usize = 0;
        while col < total
            invariant
                col <= total,
                row < n_rows,
                total == n_raw + extra@.len(),
                x@.len() == n_rows * n_raw,
                forall|c: int| 0 <= c < extra@.len() ==> (#[trigger] extra@[c])@.len() == n_rows,
                out@.len() == row * total + col,
                forall|r: int, c: int|
                    #![trigger out@[r * total + c]]
                    0 <= r < row && 0 <= c < total ==> out@[r * total + c] == extended_cell(
                        x@,
                        extra@,
                        n_raw as int,
                        r,
                        c,
                    ),
                forall|c: int|
                    #![trigger out@[row * total + c]]
                    0 <= c < col ==> out@[row * total + c] == extended_cell(
                        x@,
                        extra@,
                        n_raw as int,
                        row as int,
                        c,
                    ),
            decreases total - col,
        {
            let before = Ghost(out@);
            if col < n_raw {
                proof {
                    lemma_cell(row as int, col as int, n_rows as int, n_raw as int);
                    assert(x.len() == x@.len());
                }
                out.push(x[row * n_raw + col]);
            } else {
                assert(extra@[col - n_raw]@.len() == n_rows);
                out.push(extra[col - n_raw][row]);
            }
            assert forall|r: int, c: int|
                #![trigger out@[r * total + c]]
                0 <= r < row && 0 <= c < total implies out@[r * total + c] == extended_cell(
                x@,
                extra@,
                n_raw as int,
                r,
                c,
            ) by {
                lemma_cell(r, c, row as int, total as int);
                assert(out@[r * total + c] == before@[r * total + c]);
            }
            col = col + 1;
        }
        assert((row + 1) * total == row * total + total) by (nonlinear_arith);
        row = row + 1;
    }
    proof {
        if extra@.len() == 0 {
            assert forall|i: int| 0 <= i < x@.len() implies out@[i] == x@[i] by {
                if total == 0 {
                    assert(n_rows * total == 0) by (nonlinear_arith)
                        requires
                            total == 0,
                    ;
                } else {
                    vstd::arithmetic::div_mod::lemma_fundamental_div_mod(i, total as int);
                    let r = i / (total as int);
                    let c = i % (total as int);
                    assert(total * r == r * total) by (nonlinear_arith);
                    if r >= n_rows {
                        assert(r * total >= n_rows * total) by (nonlinear_arith)
                            requires
                                r >= n_rows,
                                total >= 0,
                        ;
                    }
                    vstd::arithmetic::div_mod::lemma_div_pos_is_pos(i, total as int);
                    assert(out@[r * total + c] == extended_cell(x@, extra@, n_raw as int, r, c));
                }
            }
            assert(out@ =~= x@);
        }
    }
    (out, total)
}

/// Whether a category is flattened once its evidence stands in for it: it has
/// more bins than allowed, or is binned by number for want of bins.
pub open spec fn is_demoted(data: BinnedData, cat_features: Seq<bool>, n_bins: Seq<usize>, min_card: int, f: int) -> bool {
    &&& f < cat_features.len()
    &&& cat_features[f]
    &&& n_bins[f] > min_card || (f < data.cll_is_categorical@.len() && data.cll_is_categorical@[f] && f
        < data.is_categorical@.len() && !data.is_categorical@[f])
}

/// Flattens feature `f`, and takes its lookup away.
pub fn flatten_feature(data: &mut BinnedData, f: usize)
    requires
        old(data).filled(),
        f < old(data).n_features,
    ensures
        final(data).filled(),
        final(data).n_rows == old(data).n_rows,
        final(data).n_features == old(data).n_features,
        final(data).missing_bin == old(data).missing_bin,
        final(data).is_categorical == old(data).is_categorical,
        final(data).cll_n_bins == old(data).cll_n_bins,
        final(data).cll_hash_bins == old(data).cll_hash_bins,
        forall|row: int, g: int|
            0 <= row < old(data).n_rows && 0 <= g < old(data).n_features ==> #[trigger] final(data).bin(row, g) == (if g
                == f && old(data).bin(row, g) != old(data).missing_bin {
                0
            } else {
                old(data).bin(row, g)
            }),
        final(data).cll_is_categorical@ == (if f < old(data).cll_is_categorical@.len() {
            old(data).cll_is_categorical@.update(f as int, false)
        } else {
            old(data).cll_is_categorical@
        }),
{
    let n: usize = data.n_rows;
    let start = Ghost(*data);
    let mut row: usize = 0;
    while row < n
        invariant
            row <= n,
            n == start@.n_rows,
            f < start@.n_features,
            start@.filled(),
            data.filled(),
            data.n_rows == start@.n_rows,
            data.n_features == start@.n_features,
            data.missing_bin == start@.missing_bin,
            data.is_categorical == start@.is_categorical,
            data.cll_is_categorical == start@.cll_is_categorical,
            data.cll_n_bins == start@.cll_n_bins,
            data.cll_hash_bins == start@.cll_hash_bins,
            forall|i: int|
                0 <= i < data.bin_indices@.len() ==> #[trigger] data.bin_indices@[i] == (if f * n <= i < f * n + row
                    && start@.bin_indices@[i] != start@.missing_bin {
                    0
                } else {
                    start@.bin_indices@[i]
                }),
        decreases n - row,
    {
        proof {
            lemma_cell(f as int, row as int, start@.n_features as int, n as int);
            assert(data.bin_indices.len() == data.bin_indices@.len());
        }
        let i: usize = f * n + row;
        if data.bin_indices[i] != data.missing_bin {
            data.bin_indices.set(i, 0);
        }
        row = row + 1;
    }
    if f < data.cll_is_categorical.len() {
        data.cll_is_categorical.set(f, false);
    }
    proof {
        assert forall|row: int, g: int| 0 <= row < n && 0 <= g < start@.n_features implies #[trigger] data.bin(row, g) == (
        if g == f && start@.bin(row, g) != start@.missing_bin {
            0
        } else {
            start@.bin(row, g)
        }) by {
            lemma_cell(g, row, start@.n_features as int, n as int);
            if g < f {
                lemma_cell(g, row, f as int, n as int);
            } else if g > f {
                assert(g * n >= f * n + n) by (nonlinear_arith)
                    requires
                        g >= f + 1,
                        n >= 0,
                ;
            }
        }
    }
}

/// The features that are flattened.
pub fn demoted_features(
    data: &BinnedData,
    cat_features: &Vec<bool>,
    n_bins: &Vec<usize>,
    min_card: usize,
    active: bool,
) -> (list: Vec<usize>)
    ensures
        !active ==> list@.len() == 0,
        active ==> list@ == kept_indices(
            Seq::new(
                n_bins@.len(),
                |f: int| is_demoted(*data, cat_features@, n_bins@, min_card as int, f),
            ),
        ),
{
    if !active {
        return Vec::new();
    }
    let mut flags: Vec<bool> = Vec::new();
    let mut f: usize = 0;
    while f < n_bins.len()
        invariant
            f <= n_bins@.len(),
            flags@.len() == f,
            forall|k: int|
                0 <= k < f ==> #[trigger] flags@[k] == is_demoted(*data, cat_features@, n_bins@, min_card as int, k),
        decreases n_bins@.len() - f,
    {
        let fallback: bool = f < data.cll_is_categorical.len() && data.cll_is_categorical[f] && f
            < data.is_categorical.len() && !data.is_categorical[f];
        flags.push(f < cat_features.len() && cat_features[f] && (n_bins[f] > min_card || fallback));
        f = f + 1;
    }
    assert(flags@ =~= Seq::new(
        n_bins@.len(),
        |f: int| is_demoted(*data, cat_features@, n_bins@, min_card as int, f),
    ));
    collect_kept(&flags)
}

/// Whether a row is held back from the search for derived features: one in five, by its hash.
pub open spec fn held_for_audit(row: usize, seed: u64) -> bool {
    ((row as u64).wrapping_mul(6364136223846793005).wrapping_add(seed) >> 32) % 5 == 0
}

/// Parts the rows for the search of derived features: those that it selects
/// on, and those that it is judged on. Nothing where there are too few.
pub fn audit_split(n_rows: usize, seed: u64) -> (r: Option<(Vec<usize>, Vec<usize>)>)
    ensures
        ({
            let honest = kept_indices(Seq::new(n_rows as nat, |row: int| held_for_audit(row as usize, seed)));
            let select = kept_indices(Seq::new(n_rows as nat, |row: int| !held_for_audit(row as usize, seed)));
            &&& r is Some <==> n_rows >= 160 && select.len() >= 64 && honest.len() >= 32
            &&& r matches Some(p) ==> p.0@ == select && p.1@ == honest
        }),
{
    let mut held: Vec<bool> = Vec::new();
    let mut free: Vec<bool> = Vec::new();
    let mut row: usize = 0;
    while row < n_rows
        invariant
            row <= n_rows,
            held@.len() == row,
            free@.len() == row,
            forall|k: int| 0 <= k < row ==> #[trigger] held@[k] == held_for_audit(k as usize, seed),
            forall|k: int| 0 <= k < row ==> #[trigger] free@[k] == !held_for_audit(k as usize, seed),
        decreases n_rows - row,
    {
        let h: u64 = ((row as u64).wrapping_mul(6364136223846793005).wrapping_add(seed) >> 32) % 5;
        held.push(h == 0);
        free.push(h != 0);
        row = row + 1;
    }
    assert(held@ =~= Seq::new(n_rows as nat, |row: int| held_for_audit(row as usize, seed)));
    assert(free@ =~= Seq::new(n_rows as nat, |row: int| !held_for_audit(row as usize, seed)));
    let select: Vec<usize> = collect_kept(&free);
    let honest: Vec<usize> = collect_kept(&held);
    if n_rows >= 160 && select.len() >= 64 && honest.len() >= 32 {
        Some((select, honest))
    } else {
        None
    }
}

/// A product is stable exactly where both folds lean the same way, it beats its features
/// by more than the least surplus in both, and its score is finite and above zero.
pub proof fn law_stable_products_agree(agreement: Num, surplus: Num, score: Num)
    requires
        agreement.finite(),
        surplus.finite(),
    ensures
        stable_product(agreement, surplus, score) <==> {
            &&& agreement.scaled() > 0
            &&& surplus.scaled() > (Num { bits: 0x3f99_9999_9999_999a }).scaled()
            &&& 0 < score.bits < 0x7ff0_0000_0000_0000
        },
{
    let zero = Num { bits: 0 };
    assert(crate::num::scaled_magnitude(0) == 0);
    assert(zero.scaled() == 0);
    crate::num::law_key_orders_values(agreement, zero);
    crate::num::law_key_orders_values(surplus, Num { bits: POINT_025 });
}

/// A feature is numeric exactly where it has no flag that says otherwise, and pairs of
/// categories are sought only from two on, for tasks that are neither regressions nor
/// counts.
pub proof fn law_unflagged_features_are_numeric(cat_features: Seq<bool>, n: nat, f: usize, auto_cat: bool, n_cat: int, task: Task)
    requires
        n <= usize::MAX,
    ensures
        kept_indices(numeric_flags(cat_features, n)).contains(f) <==> f < n && (f >= cat_features.len()
            || !cat_features[f as int]),
        kept_indices(categorical_flags(cat_features, n)).contains(f) <==> f < n && f < cat_features.len()
            && cat_features[f as int],
        seeks_categories(auto_cat, n_cat, task) <==> auto_cat && n_cat > 1 && (task == Task::Binary || task
            == Task::Multiclass || task == Task::Rank || task == Task::Other),
{
    crate::select::law_kept_are_those_marked(numeric_flags(cat_features, n), f);
    crate::select::law_kept_are_those_marked(categorical_flags(cat_features, n), f);
}

/// Ranked pairs are the best ones: their scores fall, as many are kept as there is room
/// for, and a pair that is left out scores no higher than one that is kept.
pub proof fn law_ranked_pairs_are_the_best(
    pairs: Seq<(usize, usize)>,
    scores: Seq<Num>,
    order: Seq<usize>,
    limit: int,
    p: int,
    q: int,
)
    requires
        pairs.len() == scores.len(),
        forall|i: int| 0 <= i < scores.len() ==> !(#[trigger] scores[i]).nan(),
        is_key_ranking(pair_keys(pairs, scores), order),
        0 <= limit,
        0 <= p < q < order.len(),
    ensures
        ranked_pairs(pairs, order, limit).len() == at_most(limit, pairs.len() as int),
        p < limit ==> ranked_pairs(pairs, order, limit)[p] == pairs[order[p] as int],
        scores[order[q] as int].at_most(scores[order[p] as int]),
        scores[order[p] as int].key() == scores[order[q] as int].key() ==> pairs[order[p] as int].0 < pairs[order[q] as int].0
            || (pairs[order[p] as int].0 == pairs[order[q] as int].0 && pairs[order[p] as int].1
            <= pairs[order[q] as int].1),
{
    let keys = pair_keys(pairs, scores);
    assert(crate::order::key_precedes(keys, order[p] as int, order[q] as int));
    let a = scores[order[p] as int];
    let b = scores[order[q] as int];
    assert(!a.nan() && !b.nan());
    assert(keys[order[p] as int].score == a.key());
    assert(keys[order[q] as int].score == b.key());
}

/// Joining keeps the pairs that were there, in their places, and adds the others in turn
/// while there is room; with room for all of them none is missing, and nothing else comes
/// in.
pub proof fn law_joined_pairs_fill_the_room(
    list: Seq<(usize, usize)>,
    more: Seq<(usize, usize)>,
    n: nat,
    limit: int,
    p: (usize, usize),
    i: int,
)
    requires
        n <= more.len(),
    ensures
        list.is_prefix_of(pairs_joined(list, more, n, limit)),
        pairs_joined(list, more, n, limit).contains(p) ==> list.contains(p) || more.contains(p),
        0 <= i < n && pairs_joined(list, more, n, limit).len() < limit ==> pairs_joined(list, more, n, limit).contains(
            more[i],
        ),
        pairs_joined(list, more, n, limit).len() <= list.len() + n,
    decreases n,
{
    if n > 0 {
        law_joined_pairs_fill_the_room(list, more, (n - 1) as nat, limit, p, i);
        let rest = pairs_joined(list, more, (n - 1) as nat, limit);
        let all = pairs_joined(list, more, n, limit);
        if all != rest {
            assert(all == rest.push(more[n - 1]));
            if all.contains(p) && !rest.contains(p) {
                let k = choose|k: int| 0 <= k < all.len() && all[k] == p;
                assert(k == rest.len()) by {
                    if k < rest.len() {
                        assert(rest[k] == p);
                    }
                }
                assert(more[n - 1] == p);
            }
            if 0 <= i < n - 1 && all.len() < limit {
                let k = choose|k: int| 0 <= k < rest.len() && rest[k] == more[i];
                assert(all[k] == more[i]);
            }
            if i == n - 1 {
                assert(all[all.len() - 1] == more[i]);
            }
        }
    }
}

/// Half of the room goes to stable pairs, and the only place where there is one.
pub proof fn law_stable_pairs_get_half(max_pairs: int)
    requires
        0 <= max_pairs,
    ensures
        max_pairs >= 2 ==> 2 * stable_share(max_pairs) <= max_pairs < 2 * stable_share(max_pairs) + 2,
        max_pairs == 1 ==> stable_share(max_pairs) == 1,
        max_pairs == 0 ==> stable_share(max_pairs) == 0,
{
}

/// A row with all its numbers counts in one of the two folds, and rows that lack one
/// count in neither; neighbours count in different ones.
pub proof fn law_folds_alternate(x: Seq<Num>, y: Seq<Num>, n_features: int, a: int, b: int, row: int)
    requires
        0 <= row,
    ensures
        ({
            let whole = x[row * n_features + a].finite() && x[row * n_features + b].finite() && y[row].finite();
            &&& counts_in_fold(x, y, n_features, a, b, 0, row) <==> whole && row % 2 == 0
            &&& counts_in_fold(x, y, n_features, a, b, 1, row) <==> whole && row % 2 == 1
        }),
{
}

/// Splits are counted feature by feature: one more at a node is one more for its feature
/// and for no other, and leaves count for none.
pub proof fn law_splits_are_counted(splits: Seq<u32>, node: u32, f: int)
    ensures
        split_count(splits.push(node), splits.len() + 1, f) == split_count(splits, splits.len(), f) + (if node == f
            && node != u32::MAX {
            1int
        } else {
            0
        }),
        split_count(Seq::empty(), 0, f) == 0,
{
    lemma_splits_alike(splits, splits.push(node), splits.len(), f);
}

proof fn lemma_splits_alike(a: Seq<u32>, b: Seq<u32>, n: nat, f: int)
    requires
        n <= a.len(),
        n <= b.len(),
        forall|i: int| 0 <= i < n ==> #[trigger] a[i] == b[i],
    ensures
        split_count(a, n, f) == split_count(b, n, f),
    decreases n,
{
    if n > 0 {
        lemma_splits_alike(a, b, (n - 1) as nat, f);
    }
}

/// Pairs are counted one by one.
pub proof fn law_pairs_are_counted(list: Seq<(u32, u32)>, n: nat, p: (u32, u32), q: (u32, u32))
    requires
        n < list.len(),
    ensures
        list[n as int] == p ==> pair_count(list, n + 1, p) == pair_count(list, n, p) + 1,
        list[n as int] != p ==> pair_count(list, n + 1, p) == pair_count(list, n, p),
        pair_count(list, 0, p) == 0,
        p.0 < 0x8000_0000 && p.1 < 0x8000_0000 && q.0 < 0x8000_0000 && q.1 < 0x8000_0000 && pair_code(p.0, p.1)
            == pair_code(q.0, q.1) ==> p == q,
{
}

/// An extended matrix holds the raw columns as they were, and each added one behind them.
pub proof fn law_extended_rows_keep_raw_ones(x: Seq<Num>, extra: Seq<Vec<Num>>, n_raw: int, row: int, c: int)
    requires
        0 <= c,
    ensures
        c < n_raw ==> extended_cell(x, extra, n_raw, row, c) == x[row * n_raw + c],
        extended_cell(x, extra, n_raw, row, n_raw + c) == extra[c]@[row],
{
}

/// A category is demoted exactly where it has more bins than it may have, or where it is
/// told apart by lookups alone; numeric features never are.
pub proof fn law_only_wide_categories_are_demoted(
    data: BinnedData,
    cat_features: Seq<bool>,
    n_bins: Seq<usize>,
    min_card: int,
    f: int,
)
    requires
        0 <= f < n_bins.len(),
    ensures
        is_demoted(data, cat_features, n_bins, min_card, f) ==> f < cat_features.len() && cat_features[f],
        f < cat_features.len() && cat_features[f] && n_bins[f] > min_card ==> is_demoted(
            data,
            cat_features,
            n_bins,
            min_card,
            f,
        ),
        f < cat_features.len() && cat_features[f] && n_bins[f] <= min_card ==> (is_demoted(
            data,
            cat_features,
            n_bins,
            min_card,
            f,
        ) <==> f < data.cll_is_categorical@.len() && f < data.is_categorical@.len() && data.cll_is_categorical@[f]
            && !data.is_categorical@[f]),
{
}

/// Every row is either held for the audit or selected on, none in both, and about one in
/// five is held: those whose hash is a multiple of five.
pub proof fn law_audit_parts_rows(n_rows: nat, seed: u64, row: usize)
    requires
        n_rows <= usize::MAX,
        row < n_rows,
    ensures
        held_for_audit(row, seed) <==> exists|q: int|
            #[trigger] (5 * q) == ((row as u64).wrapping_mul(6364136223846793005).wrapping_add(seed) >> 32),
        kept_indices(Seq::new(n_rows, |r: int| held_for_audit(r as usize, seed))).contains(row) <==> !kept_indices(
            Seq::new(n_rows, |r: int| !held_for_audit(r as usize, seed)),
        ).contains(row),
        kept_indices(Seq::new(n_rows, |r: int| held_for_audit(r as usize, seed))).len() + kept_indices(
            Seq::new(n_rows, |r: int| !held_for_audit(r as usize, seed)),
        ).len() == n_rows,
{
    let held = Seq::new(n_rows, |r: int| held_for_audit(r as usize, seed));
    let rest = Seq::new(n_rows, |r: int| !held_for_audit(r as usize, seed));
    let h = ((row as u64).wrapping_mul(6364136223846793005).wrapping_add(seed) >> 32) as int;
    assert(5 * (h / 5) == h <==> h % 5 == 0);
    crate::select::law_kept_are_those_marked(held, row);
    crate::select::law_kept_are_those_marked(rest, row);
    crate::select::law_marked_and_unmarked_add_up(held, rest);
}

} // verus!
