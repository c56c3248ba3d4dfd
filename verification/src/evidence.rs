//! Categorical fold evidence: which category tuples get a table, how rows are
//! dealt into cross-fitting folds, and what columns the tables give.

use crate::bits::{NEG_INFINITY, THREE_POINT_605, TWO_POINT_02, TWO_POINT_699};
use crate::combos::{
    index_pairs, index_quads, index_triples, is_pair_list, is_quad_list, is_triple_list,
};
use crate::ctr::{count_label_classes, label_classes, row_list, shuffled_rows};
use crate::groups::{group_rows, rows_with_key, KeyGroups};
use crate::hashing::{cfe_keys, tuple_key, MISSING_KEY};
use crate::num::{saturate, Num};
use crate::random::{held_words, seeded, words_of_seed};
use crate::select::{
    at_most, collect_kept, is_top, kept_indices, lemma_kept_indices, positive, select_positive,
};
use crate::task::Task;
use rand::rngs::StdRng;
use rayon::iter::{IntoParallelRefIterator, ParallelIterator};
use std::collections::HashMap;
use vstd::prelude::*;

verus! {

broadcast use vstd::std_specs::hash::group_hash_axioms;

/// The number of cross-fitting folds: as asked, between 2 and 16, and no more
/// than leave eight rows to a fold, but two at least.
pub open spec fn evidence_fold_count(asked: int, n_rows: int) -> int {
    let a = at_most(saturate(asked, 2, 16), n_rows / 8);
    if a > 2 {
        a
    } else {
        2
    }
}

pub fn evidence_folds(asked: usize, n_rows: usize) -> (r: usize)
    ensures
        r == evidence_fold_count(asked as int, n_rows as int),
        2 <= r <= 16,
{
    let wanted: usize = if asked < 2 {
        2
    } else if asked > 16 {
        16
    } else {
        asked
    };
    let room: usize = n_rows / 8;
    let a: usize = if wanted < room { wanted } else { room };
    if a > 2 {
        a
    } else {
        2
    }
}

/// `dealt[row]` is the rank of `row` in `perm`, modulo `k`: the rows are dealt
/// into `k` hands in the order of `perm`.
pub open spec fn is_deal(dealt: Seq<usize>, perm: Seq<usize>, k: int) -> bool {
    &&& dealt.len() == perm.len()
    &&& forall|rank: int| 0 <= rank < perm.len() ==> dealt[(#[trigger] perm[rank]) as int] == rank % k
}

/// Deals the rows of `perm` into `k` hands.
pub fn deal_rows(perm: &Vec<usize>, k: usize) -> (dealt: Vec<usize>)
    requires
        k > 0,
        perm@.no_duplicates(),
        forall|i: int| 0 <= i < perm@.len() ==> #[trigger] perm@[i] < perm@.len(),
    ensures
        is_deal(dealt@, perm@, k as int),
        forall|row: int| 0 <= row < dealt@.len() ==> #[trigger] dealt@[row] < k,
{
    let n: usize = perm.len();
    let mut dealt: Vec<usize> = Vec::new();
    let mut i: usize = 0;
    while i < n
        invariant
            i <= n,
            k > 0,
            dealt@.len() == i,
            forall|row: int| 0 <= row < dealt@.len() ==> #[trigger] dealt@[row] < k,
        decreases n - i,
    {
        dealt.push(0);
        i = i + 1;
    }
    let mut rank: usize = 0;
    while rank < n
        invariant
            rank <= n,
            n == perm@.len(),
            k > 0,
            perm@.no_duplicates(),
            forall|p: int| 0 <= p < perm@.len() ==> #[trigger] perm@[p] < perm@.len(),
            dealt@.len() == n,
            forall|row: int| 0 <= row < dealt@.len() ==> #[trigger] dealt@[row] < k,
            forall|p: int| 0 <= p < rank ==> dealt@[(#[trigger] perm@[p]) as int] == p % k as int,
        decreases n - rank,
    {
        let row: usize = perm[rank];
        dealt.set(row, rank % k);
        rank = rank + 1;
    }
    dealt
}

/// A random deal of the rows into `k` hands.
pub fn shuffled_deal(rng: &mut StdRng, n_rows: usize, k: usize) -> (dealt: Vec<usize>)
    requires
        k > 0,
    ensures
        exists|perm: Seq<usize>| #[trigger]
            is_deal(dealt@, perm, k as int) && perm.to_multiset() == row_list(n_rows as nat).to_multiset(),
        dealt@.len() == n_rows,
        forall|row: int| 0 <= row < dealt@.len() ==> #[trigger] dealt@[row] < k,
{
    let perm: Vec<usize> = shuffled_rows(rng, n_rows);
    proof {
        lemma_rearranged_rows(perm@, n_rows as nat);
    }
    let dealt: Vec<usize> = deal_rows(&perm, k);
    assert(is_deal(dealt@, perm@, k as int) && perm@.to_multiset() == row_list(n_rows as nat).to_multiset());
    dealt
}

/// A rearrangement of the rows lists no row twice.
pub proof fn lemma_rearranged_rows(perm: Seq<usize>, n: nat)
    requires
        perm.to_multiset() == row_list(n).to_multiset(),
        n <= usize::MAX,
    ensures
        perm.no_duplicates(),
{
    assert(row_list(n).no_duplicates());
    row_list(n).lemma_multiset_has_no_duplicates();
    perm.lemma_multiset_has_no_duplicates_conv();
}

/// The number of ranks below `n` that fall to hand `h` of `k`.
pub open spec fn hand_size(n: nat, k: int, h: int) -> nat
    decreases n,
{
    if n == 0 {
        0
    } else {
        hand_size((n - 1) as nat, k, h) + (if (n - 1) % k == h {
            1nat
        } else {
            0
        })
    }
}

proof fn lemma_hand_size(n: nat, k: int, h: int)
    requires
        0 <= h < k,
    ensures
        hand_size(n, k, h) == n as int / k + (if h < n as int % k {
            1int
        } else {
            0
        }),
    decreases n,
{
    if n == 0 {
        vstd::arithmetic::div_mod::lemma_div_basics(k);
        vstd::arithmetic::div_mod::lemma_small_mod(0, k as nat);
    } else {
        let m = n - 1;
        lemma_hand_size(m as nat, k, h);
        vstd::arithmetic::div_mod::lemma_fundamental_div_mod(m, k);
        let q = m / k;
        let r = m % k;
        assert(0 <= r < k);
        assert(q * k == k * q && (q + 1) * k == q * k + k) by (nonlinear_arith);
        if r + 1 < k {
            vstd::arithmetic::div_mod::lemma_fundamental_div_mod_converse(n as int, k, q, r + 1);
        } else {
            vstd::arithmetic::div_mod::lemma_fundamental_div_mod_converse(n as int, k, q + 1, 0);
        }
    }
}

proof fn lemma_hand_of_prefix(dealt: Seq<usize>, perm: Seq<usize>, k: int, h: int, m: nat)
    requires
        is_deal(dealt, perm, k),
        m <= perm.len(),
    ensures
        rows_in_fold(perm.take(m as int), dealt, h) == hand_size(m, k, h),
    decreases m,
{
    if m > 0 {
        lemma_hand_of_prefix(dealt, perm, k, h, (m - 1) as nat);
        assert(perm.take(m as int).drop_last() =~= perm.take(m - 1));
        assert(dealt[perm[m - 1] as int] == (m - 1) % k);
    }
}

/// A deal is even: of `n` rows a hand gets `n / k`, and one more where its
/// number is below the remainder.
pub proof fn law_deal_is_even(dealt: Seq<usize>, perm: Seq<usize>, k: int, h: int)
    requires
        is_deal(dealt, perm, k),
        0 <= h < k,
    ensures
        rows_in_fold(perm, dealt, h) == perm.len() as int / k + (if h < perm.len() as int % k {
            1int
        } else {
            0
        }),
{
    lemma_hand_of_prefix(dealt, perm, k, h, perm.len());
    assert(perm.take(perm.len() as int) =~= perm);
    lemma_hand_size(perm.len(), k, h);
}

/// The seed of the folds: one for the evidence itself, one for that on residuals.
pub open spec fn fold_seed(seed: u64, residual: bool) -> u64 {
    seed.wrapping_add(
        if residual {
            0xCFE2
        } else {
            0xCFE
        },
    )
}

pub fn evidence_seed(seed: u64, residual: bool) -> (r: u64)
    ensures
        r == fold_seed(seed, residual),
{
    if residual {
        seed.wrapping_add(0xCFE2)
    } else {
        seed.wrapping_add(0xCFE)
    }
}

/// The generator that the folds of the evidence are dealt with.
pub fn evidence_rng(seed: u64, residual: bool) -> (rng: StdRng)
    ensures
        held_words(rng) == words_of_seed(fold_seed(seed, residual)),
{
    seeded(evidence_seed(seed, residual))
}

/// Which rows lie outside fold `f`.
pub open spec fn outside_fold(fold_of: Seq<usize>, f: usize) -> Seq<bool> {
    Seq::new(fold_of.len(), |row: int| fold_of[row] != f)
}

/// The rows outside fold `f`, in order.
pub fn rows_outside_fold(fold_of: &Vec<usize>, f: usize) -> (rows: Vec<usize>)
    ensures
        rows@ == kept_indices(outside_fold(fold_of@, f)),
{
    let mut flags: Vec<bool> = Vec::new();
    let mut i: usize = 0;
    while i < fold_of.len()
        invariant
            i <= fold_of@.len(),
            flags@.len() == i,
            forall|k: int| 0 <= k < i ==> #[trigger] flags@[k] == (fold_of@[k] != f),
        decreases fold_of@.len() - i,
    {
        flags.push(fold_of[i] != f);
        i = i + 1;
    }
    assert(flags@ =~= outside_fold(fold_of@, f));
    collect_kept(&flags)
}

/// The nearest whole number, within the classes.
pub open spec fn nearest_class(y: Num, k: int) -> int {
    at_most(
        if y.nan() {
            0
        } else {
            saturate(y.rounded(), 0, usize::MAX as int)
        },
        k - 1,
    )
}

/// The class of a row's one-hot target: the nearest integer, at most `k - 1`.
pub fn target_class(y: &Num, k: usize) -> (c: usize)
    requires
        k > 0,
    ensures
        c == nearest_class(*y, k as int),
        c < k,
{
    let c: usize = y.round_to_usize();
    if c < k - 1 {
        c
    } else {
        k - 1
    }
}

/// One output, or one for each class where there are several.
pub open spec fn outputs_of(task: Task, y: Seq<Num>) -> Option<usize> {
    if task != Task::Multiclass {
        Some(1usize)
    } else if label_classes(y) >= 2 {
        Some(label_classes(y) as usize)
    } else {
        None
    }
}

/// The outputs that evidence is gathered for: one, or the classes of the labels
/// where the task has many; nothing where there is a single class.
pub fn evidence_outputs(task: Task, y: &Vec<Num>) -> (r: Option<usize>)
    requires
        task == Task::Multiclass ==> forall|i: int|
            0 <= i < y@.len() && (#[trigger] y@[i]).finite() ==> y@[i].rounded() < usize::MAX,
    ensures
        r == outputs_of(task, y@),
{
    match task {
        Task::Multiclass => {
            let k: usize = count_label_classes(y);
            if k < 2 {
                None
            } else {
                Some(k)
            }
        },
        _ => Some(1),
    }
}

/// The bound on the lift of a tuple by its features.
pub open spec fn clip_of_arity(arity: int) -> Num {
    Num {
        bits: if arity == 1 {
            THREE_POINT_605
        } else if arity == 2 {
            TWO_POINT_699
        } else {
            TWO_POINT_02
        },
    }
}

/// The bound on a lift of log odds: lower for a pair than for a single feature,
/// and lower still for every wider tuple.
pub fn cfe_arity_clip(arity: usize) -> (r: Num)
    ensures
        r == clip_of_arity(arity as int),
{
    if arity == 1 {
        Num { bits: THREE_POINT_605 }
    } else if arity == 2 {
        Num { bits: TWO_POINT_699 }
    } else {
        Num { bits: TWO_POINT_02 }
    }
}

/// The seed of a tree in the warm-up model whose residuals give evidence.
pub fn residual_tree_seed(seed: u64, round: u64) -> (r: u64)
    ensures
        r == seed ^ round.wrapping_mul(0x9E37_79B9),
{
    seed ^ round.wrapping_mul(0x9E37_79B9)
}

/// Tasks without classes compare means.
pub open spec fn lifts_by_mean(task: Task) -> bool {
    task != Task::Binary && task != Task::Multiclass
}

/// Whether lifts are differences of means, not of log odds.
pub fn lifts_are_differences(task: Task) -> (r: bool)
    ensures
        r == lifts_by_mean(task),
{
    match task {
        Task::Binary => false,
        Task::Multiclass => false,
        _ => true,
    }
}

/// Evidence is on, and there are rows and categories for it.
pub open spec fn gathers(enabled: bool, n_rows: int, n_categorical: int) -> bool {
    enabled && n_rows >= 40 && n_categorical > 0
}

/// Whether evidence is built at all: it is on, there are 40 rows, and a
/// feature is categorical.
pub fn evidence_applies(enabled: bool, n_rows: usize, n_categorical: usize) -> (r: bool)
    ensures
        r == gathers(enabled, n_rows as int, n_categorical as int),
{
    enabled && n_rows >= 40 && n_categorical > 0
}

/// The features that `picks` names.
pub open spec fn features_at(features: Seq<usize>, picks: Seq<usize>) -> Seq<usize> {
    Seq::new(picks.len(), |i: int| features[picks[i] as int])
}

/// Which scores are above zero.
pub open spec fn positive_scores(scores: Seq<Num>) -> Seq<bool> {
    Seq::new(scores.len(), |i: int| positive(scores[i]))
}

/// The useful single features, best first: those with a score above zero, 64 at most.
pub fn evidence_singles(features: &Vec<usize>, scores: &Vec<Num>) -> (singles: Vec<usize>)
    requires
        features@.len() == scores@.len(),
    ensures
        exists|top: Seq<usize>| #[trigger]
            is_top(scores@, positive_scores(scores@), 64, top) && singles@ == features_at(features@, top),
        singles@.len() <= 64,
        forall|i: int| 0 <= i < singles@.len() ==> features@.contains(#[trigger] singles@[i]),
{
    let top: Vec<usize> = select_positive(scores, 64);
    assert(Seq::new(scores@.len(), |i: int| positive(scores@[i])) =~= positive_scores(scores@));
    let mut singles: Vec<usize> = Vec::new();
    let mut i: usize = 0;
    while i < top.len()
        invariant
            i <= top@.len(),
            forall|p: int| 0 <= p < top@.len() ==> (#[trigger] top@[p]) < features@.len(),
            singles@.len() == i,
            forall|p: int| 0 <= p < i ==> #[trigger] singles@[p] == features@[top@[p] as int],
        decreases top@.len() - i,
    {
        singles.push(features[top[i]]);
        i = i + 1;
    }
    assert(singles@ =~= features_at(features@, top@));
    assert forall|i: int| 0 <= i < singles@.len() implies features@.contains(#[trigger] singles@[i]) by {
        assert(top@[i] < features@.len());
    }
    singles
}

/// The pairs of the twelve best singles.
pub open spec fn pair_tuples(singles: Seq<usize>, list: Seq<(usize, usize)>) -> Seq<Seq<usize>> {
    Seq::new(list.len(), |i: int| seq![singles[list[i].0 as int], singles[list[i].1 as int]])
}

pub open spec fn triple_tuples(singles: Seq<usize>, list: Seq<(usize, usize, usize)>) -> Seq<Seq<usize>> {
    Seq::new(
        list.len(),
        |i: int| seq![singles[list[i].0 as int], singles[list[i].1 as int], singles[list[i].2 as int]],
    )
}

pub open spec fn quad_tuples(singles: Seq<usize>, list: Seq<(usize, usize, usize, usize)>) -> Seq<Seq<usize>> {
    Seq::new(
        list.len(),
        |i: int|
            seq![
                singles[list[i].0 as int],
                singles[list[i].1 as int],
                singles[list[i].2 as int],
                singles[list[i].3 as int],
            ],
    )
}

/// The views of a list of tuples.
pub open spec fn tuple_views(tuples: Seq<Vec<usize>>) -> Seq<Seq<usize>> {
    Seq::new(tuples.len(), |i: int| tuples[i]@)
}

/// The pairs to score: all pairs of the twelve best singles, in lexicographic
/// order of their ranks; none where pairs are off.
pub fn pair_candidates(singles: &Vec<usize>, max_pairs: usize) -> (cands: Vec<Vec<usize>>)
    ensures
        max_pairs == 0 || singles@.len() < 2 ==> cands@.len() == 0,
        max_pairs > 0 && singles@.len() >= 2 ==> exists|list: Seq<(usize, usize)>| #[trigger]
            is_pair_list(at_most(12, singles@.len() as int), list) && tuple_views(cands@) == pair_tuples(
                singles@,
                list,
            ),
        forall|i: int, j: int|
            #![trigger cands@[i]@[j]]
            0 <= i < cands@.len() && 0 <= j < cands@[i]@.len() ==> singles@.contains(cands@[i]@[j]),
{
    let mut cands: Vec<Vec<usize>> = Vec::new();
    if max_pairs == 0 || singles.len() < 2 {
        return cands;
    }
    let n: usize = if singles.len() < 12 { singles.len() } else { 12 };
    let list: Vec<(usize, usize)> = index_pairs(n);
    let mut i: usize = 0;
    while i < list.len()
        invariant
            i <= list@.len(),
            n <= singles@.len(),
            is_pair_list(n as int, list@),
            cands@.len() == i,
            forall|p: int| 0 <= p < i ==> (#[trigger] cands@[p])@ == pair_tuples(singles@, list@)[p],
        decreases list@.len() - i,
    {
        let (a, b) = list[i];
        let mut t: Vec<usize> = Vec::new();
        t.push(singles[a]);
        t.push(singles[b]);
        assert(t@ =~= pair_tuples(singles@, list@)[i as int]);
        cands.push(t);
        i = i + 1;
    }
    assert(tuple_views(cands@) =~= pair_tuples(singles@, list@));
    assert(is_pair_list(at_most(12, singles@.len() as int), list@));
    assert forall|i: int, j: int|
        #![trigger cands@[i]@[j]]
        0 <= i < cands@.len() && 0 <= j < cands@[i]@.len() implies singles@.contains(cands@[i]@[j]) by {
        assert(cands@[i]@ == pair_tuples(singles@, list@)[i]);
        assert(list@[i].0 < list@[i].1 < n);
    }
    cands
}

/// The triples to score: those of the six best singles.
pub fn triple_candidates(singles: &Vec<usize>, max_triples: usize) -> (cands: Vec<Vec<usize>>)
    ensures
        max_triples == 0 || singles@.len() < 3 ==> cands@.len() == 0,
        max_triples > 0 && singles@.len() >= 3 ==> exists|list: Seq<(usize, usize, usize)>| #[trigger]
            is_triple_list(at_most(6, singles@.len() as int), list) && tuple_views(cands@) == triple_tuples(
                singles@,
                list,
            ),
        forall|i: int, j: int|
            #![trigger cands@[i]@[j]]
            0 <= i < cands@.len() && 0 <= j < cands@[i]@.len() ==> singles@.contains(cands@[i]@[j]),
{
    let mut cands: Vec<Vec<usize>> = Vec::new();
    if max_triples == 0 || singles.len() < 3 {
        return cands;
    }
    let n: usize = if singles.len() < 6 { singles.len() } else { 6 };
    let list: Vec<(usize, usize, usize)> = index_triples(n);
    let mut i: usize = 0;
    while i < list.len()
        invariant
            i <= list@.len(),
            n <= singles@.len(),
            is_triple_list(n as int, list@),
            cands@.len() == i,
            forall|p: int| 0 <= p < i ==> (#[trigger] cands@[p])@ == triple_tuples(singles@, list@)[p],
        decreases list@.len() - i,
    {
        let (a, b, c) = list[i];
        let mut t: Vec<usize> = Vec::new();
        t.push(singles[a]);
        t.push(singles[b]);
        t.push(singles[c]);
        assert(t@ =~= triple_tuples(singles@, list@)[i as int]);
        cands.push(t);
        i = i + 1;
    }
    assert(tuple_views(cands@) =~= triple_tuples(singles@, list@));
    assert(is_triple_list(at_most(6, singles@.len() as int), list@));
    assert forall|i: int, j: int|
        #![trigger cands@[i]@[j]]
        0 <= i < cands@.len() && 0 <= j < cands@[i]@.len() implies singles@.contains(cands@[i]@[j]) by {
        assert(cands@[i]@ == triple_tuples(singles@, list@)[i]);
        assert(list@[i].0 < list@[i].1 < list@[i].2 < n);
    }
    cands
}

/// The quadruples to score: those of the six best singles.
pub fn quad_candidates(singles: &Vec<usize>, max_quads: usize) -> (cands: Vec<Vec<usize>>)
    ensures
        max_quads == 0 || singles@.len() < 4 ==> cands@.len() == 0,
        max_quads > 0 && singles@.len() >= 4 ==> exists|list: Seq<(usize, usize, usize, usize)>| #[trigger]
            is_quad_list(at_most(6, singles@.len() as int), list) && tuple_views(cands@) == quad_tuples(
                singles@,
                list,
            ),
        forall|i: int, j: int|
            #![trigger cands@[i]@[j]]
            0 <= i < cands@.len() && 0 <= j < cands@[i]@.len() ==> singles@.contains(cands@[i]@[j]),
{
    let mut cands: Vec<Vec<usize>> = Vec::new();
    if max_quads == 0 || singles.len() < 4 {
        return cands;
    }
    let n: usize = if singles.len() < 6 { singles.len() } else { 6 };
    let list: Vec<(usize, usize, usize, usize)> = index_quads(n);
    let mut i: usize = 0;
    while i < list.len()
        invariant
            i <= list@.len(),
            n <= singles@.len(),
            is_quad_list(n as int, list@),
            cands@.len() == i,
            forall|p: int| 0 <= p < i ==> (#[trigger] cands@[p])@ == quad_tuples(singles@, list@)[p],
        decreases list@.len() - i,
    {
        let (a, b, c, d) = list[i];
        let mut t: Vec<usize> = Vec::new();
        t.push(singles[a]);
        t.push(singles[b]);
        t.push(singles[c]);
        t.push(singles[d]);
        assert(t@ =~= quad_tuples(singles@, list@)[i as int]);
        cands.push(t);
        i = i + 1;
    }
    assert(tuple_views(cands@) =~= quad_tuples(singles@, list@));
    assert(is_quad_list(at_most(6, singles@.len() as int), list@));
    assert forall|i: int, j: int|
        #![trigger cands@[i]@[j]]
        0 <= i < cands@.len() && 0 <= j < cands@[i]@.len() implies singles@.contains(cands@[i]@[j]) by {
        assert(cands@[i]@ == quad_tuples(singles@, list@)[i]);
        assert(list@[i].0 < list@[i].1 < list@[i].2 < list@[i].3 < n);
    }
    cands
}

/// Adds to `tuples` the best candidates with a score above zero, best first,
/// `limit` at most.
pub fn add_best_tuples(tuples: &mut Vec<Vec<usize>>, cands: &Vec<Vec<usize>>, scores: &Vec<Num>, limit: usize)
    requires
        cands@.len() == scores@.len(),
    ensures
        exists|top: Seq<usize>| #[trigger]
            is_top(scores@, positive_scores(scores@), limit as int, top) && tuple_views(final(tuples)@)
                == tuple_views(old(tuples)@) + Seq::new(top.len(), |i: int| cands@[top[i] as int]@),
{
    let top: Vec<usize> = select_positive(scores, limit);
    assert(Seq::new(scores@.len(), |i: int| positive(scores@[i])) =~= positive_scores(scores@));
    let before = Ghost(tuples@);
    let mut i: usize = 0;
    while i < top.len()
        invariant
            i <= top@.len(),
            forall|p: int| 0 <= p < top@.len() ==> (#[trigger] top@[p]) < cands@.len(),
            tuples@.len() == before@.len() + i,
            forall|p: int| 0 <= p < before@.len() ==> #[trigger] tuples@[p] == before@[p],
            forall|p: int|
                #![trigger tuples@[before@.len() + p]]
                0 <= p < i ==> tuples@[before@.len() + p]@ == cands@[top@[p] as int]@,
        decreases top@.len() - i,
    {
        let t: Vec<usize> = cands[top[i]].clone();
        assert(t@ =~= cands@[top@[i as int] as int]@);
        tuples.push(t);
        i = i + 1;
    }
    assert(tuple_views(tuples@) =~= tuple_views(before@) + Seq::new(top@.len(), |i: int| cands@[top@[i] as int]@)) by {
        assert forall|q: int| 0 <= q < tuples@.len() implies tuple_views(tuples@)[q] == (tuple_views(before@)
            + Seq::new(top@.len(), |i: int| cands@[top@[i] as int]@))[q] by {
            if q < before@.len() {
                assert(tuples@[q] == before@[q]);
            } else {
                let p = q - before@.len();
                assert(tuples@[before@.len() + p]@ == cands@[top@[p] as int]@);
            }
        }
    }
}

/// Every feature of a tuple lies below `n_features`.
pub open spec fn tuple_fits(t: Seq<usize>, n_features: int) -> bool {
    forall|j: int| 0 <= j < t.len() ==> #[trigger] t[j] < n_features
}

/// `rayon`'s parallel map over a list of tuples (`par_iter`, `map`, `collect`):
/// the results stand in the order of the tuples, each what `cfe_keys` gives.
#[verifier::external_body]
pub(crate) fn keys_in_parallel(x: &Vec<Num>, n_rows: usize, n_features: usize, tuples: &Vec<Vec<usize>>) -> (keys: Vec<Vec<i64>>)
    requires
        n_rows * n_features <= x@.len(),
        forall|i: int| 0 <= i < tuples@.len() ==> tuple_fits((#[trigger] tuples@[i])@, n_features as int),
    ensures
        keys@.len() == tuples@.len(),
        forall|i: int| 0 <= i < keys@.len() ==> (#[trigger] keys@[i])@.len() == n_rows,
        forall|i: int, row: int|
            #![trigger keys@[i]@[row]]
            0 <= i < keys@.len() && 0 <= row < n_rows ==> keys@[i]@[row] == tuple_key(
                x@,
                row * n_features,
                tuples@[i]@,
            ),
{
    tuples.par_iter().map(|t| cfe_keys(x, n_rows, n_features, t)).collect()
}

/// The keys of every row under every tuple.
pub fn tuple_keys(x: &Vec<Num>, n_rows: usize, n_features: usize, tuples: &Vec<Vec<usize>>) -> (keys: Vec<Vec<i64>>)
    requires
        n_rows * n_features <= x@.len(),
        forall|i: int| 0 <= i < tuples@.len() ==> tuple_fits((#[trigger] tuples@[i])@, n_features as int),
    ensures
        keys@.len() == tuples@.len(),
        forall|i: int| 0 <= i < keys@.len() ==> (#[trigger] keys@[i])@.len() == n_rows,
        forall|i: int, row: int|
            #![trigger keys@[i]@[row]]
            0 <= i < keys@.len() && 0 <= row < n_rows ==> keys@[i]@[row] == tuple_key(
                x@,
                row * n_features,
                tuples@[i]@,
            ),
{
    keys_in_parallel(x, n_rows, n_features, tuples)
}

/// Which rows carry a key.
pub open spec fn keyed(keys: Seq<i64>) -> Seq<bool> {
    Seq::new(keys.len(), |row: int| keys[row] != MISSING_KEY)
}

/// The rows that carry a key, in order.
pub open spec fn keyed_rows(keys: Seq<i64>) -> Seq<usize> {
    kept_indices(keyed(keys))
}

/// How many of the listed rows lie in fold `f`.
pub open spec fn rows_in_fold(list: Seq<usize>, fold_of: Seq<usize>, f: int) -> nat
    decreases list.len(),
{
    if list.len() == 0 {
        0
    } else {
        rows_in_fold(list.drop_last(), fold_of, f) + (if fold_of[list.last() as int] == f {
            1nat
        } else {
            0
        })
    }
}

/// A fold holds no more of the rows than there are.
pub proof fn lemma_rows_in_fold(list: Seq<usize>, fold_of: Seq<usize>, f: int)
    ensures
        rows_in_fold(list, fold_of, f) <= list.len(),
    decreases list.len(),
{
    if list.len() > 0 {
        lemma_rows_in_fold(list.drop_last(), fold_of, f);
    }
}

/// The groups of a tuple's rows, and how many rows of each fall into each fold
/// (group-major).
pub struct EvidenceGroups {
    pub groups: KeyGroups,
    pub rows: Vec<usize>,
    pub fold_counts: Vec<usize>,
}

impl EvidenceGroups {
    pub open spec fn counts(&self, keys: Seq<i64>, fold_of: Seq<usize>, n_folds: int) -> bool {
        &&& self.rows@ == keyed_rows(keys)
        &&& self.groups.groups(keys, keyed_rows(keys))
        &&& self.fold_counts@.len() == self.groups.rows@.len() * n_folds
        &&& forall|g: int, f: int|
            #![trigger self.groups.rows@[g], self.fold_counts@[g * n_folds + f]]
            0 <= g < self.groups.rows@.len() && 0 <= f < n_folds ==> self.fold_counts@[g * n_folds + f]
                == rows_in_fold(self.groups.rows@[g]@, fold_of, f)
    }

    /// How many rows share the key of the row at position `p` of the keyed
    /// rows, outside its own fold.
    pub fn outside_count(
        &self,
        keys: &Vec<i64>,
        fold_of: &Vec<usize>,
        n_folds: usize,
        p: usize,
    ) -> (c: usize)
        requires
            self.counts(keys@, fold_of@, n_folds as int),
            fold_of@.len() == keys@.len(),
            forall|row: int| 0 <= row < fold_of@.len() ==> #[trigger] fold_of@[row] < n_folds,
            p < self.rows@.len(),
        ensures
            ({
                let row = keyed_rows(keys@)[p as int] as int;
                let mates = rows_with_key(keys@, keyed_rows(keys@), keys@[row]);
                c == mates.len() - rows_in_fold(mates, fold_of@, fold_of@[row] as int)
            }),
    {
        proof {
            assert(keys.len() == keys@.len());
            lemma_kept_indices(keyed(keys@));
            assert(keyed_rows(keys@)[p as int] < keys@.len());
        }
        let row: usize = self.rows[p];
        let g: usize = self.groups.group_of[p];
        let f: usize = fold_of[row];
        proof {
            assert(self.groups.group_of@[p as int] < self.groups.keys@.len());
            crate::tree::lemma_cell(g as int, f as int, self.groups.rows@.len() as int, n_folds as int);
            assert(self.groups.rows@[g as int]@ == rows_with_key(
                keys@,
                keyed_rows(keys@),
                self.groups.keys@[g as int],
            ));
            assert(self.fold_counts@[g * n_folds + f] == rows_in_fold(
                self.groups.rows@[g as int]@,
                fold_of@,
                f as int,
            ));
            lemma_rows_in_fold(self.groups.rows@[g as int]@, fold_of@, f as int);
            assert(self.fold_counts.len() == self.fold_counts@.len());
        }
        self.groups.rows[g].len() - self.fold_counts[g * n_folds + f]
    }
}

fn count_in_fold(list: &Vec<usize>, fold_of: &Vec<usize>, f: usize) -> (c: usize)
    requires
        forall|i: int| 0 <= i < list@.len() ==> #[trigger] list@[i] < fold_of@.len(),
    ensures
        c == rows_in_fold(list@, fold_of@, f as int),
{
    let mut c: usize = 0;
    let mut i: usize = 0;
    assert(list@.take(0) =~= Seq::empty());
    while i < list.len()
        invariant
            i <= list@.len(),
            c <= i,
            forall|k: int| 0 <= k < list@.len() ==> #[trigger] list@[k] < fold_of@.len(),
            c == rows_in_fold(list@.take(i as int), fold_of@, f as int),
        decreases list@.len() - i,
    {
        assert(list@.take(i + 1).drop_last() =~= list@.take(i as int));
        assert(list@.take(i + 1).last() == list@[i as int]);
        if fold_of[list[i]] == f {
            c = c + 1;
        }
        i = i + 1;
    }
    assert(list@.take(list@.len() as int) =~= list@);
    c
}

/// Groups the rows of a tuple by key; rows without a key are left out.
pub fn evidence_groups(keys: &Vec<i64>, fold_of: &Vec<usize>, n_folds: usize) -> (e: EvidenceGroups)
    requires
        fold_of@.len() == keys@.len(),
        0 < n_folds,
        keys@.len() * n_folds <= usize::MAX,
    ensures
        e.counts(keys@, fold_of@, n_folds as int),
{
    let mut flags: Vec<bool> = Vec::new();
    let mut i: usize = 0;
    while i < keys.len()
        invariant
            i <= keys@.len(),
            flags@.len() == i,
            forall|k: int| 0 <= k < i ==> #[trigger] flags@[k] == (keys@[k] != MISSING_KEY),
        decreases keys@.len() - i,
    {
        flags.push(keys[i] != MISSING_KEY);
        i = i + 1;
    }
    assert(flags@ =~= keyed(keys@));
    let rows: Vec<usize> = collect_kept(&flags);
    proof {
        assert(keys.len() == keys@.len());
        lemma_kept_indices(keyed(keys@));
    }
    let groups: KeyGroups = group_rows(keys, &rows);
    proof {
        crate::groups::lemma_distinct_keys(keys@, rows@);
        assert(groups.rows@.len() <= keys@.len());
    }
    let mut fold_counts: Vec<usize> = Vec::new();
    let mut g: usize = 0;
    assert(0 * n_folds == 0) by (nonlinear_arith);
    while g < groups.rows.len()
        invariant
            g <= groups.rows@.len(),
            groups.rows@.len() <= keys@.len(),
            fold_of@.len() == keys@.len(),
            rows@ == keyed_rows(keys@),
            forall|p: int| 0 <= p < rows@.len() ==> (#[trigger] rows@[p]) < keys@.len(),
            groups.groups(keys@, rows@),
            fold_counts@.len() == g * n_folds,
            forall|h: int, f: int|
                #![trigger groups.rows@[h], fold_counts@[h * n_folds + f]]
                0 <= h < g && 0 <= f < n_folds ==> fold_counts@[h * n_folds + f] == rows_in_fold(
                    groups.rows@[h]@,
                    fold_of@,
                    f,
                ),
        decreases groups.rows@.len() - g,
    {
        let members: &Vec<usize> = &groups.rows[g];
        proof {
            crate::groups::lemma_rows_with_key(keys@, rows@, groups.keys@[g as int]);
            assert(groups.rows@[g as int]@ == rows_with_key(keys@, rows@, groups.keys@[g as int]));
            assert forall|q: int| 0 <= q < members@.len() implies #[trigger] members@[q] < fold_of@.len() by {
                assert(rows@.contains(members@[q]));
                let p = choose|p: int| 0 <= p < rows@.len() && rows@[p] == members@[q];
                assert(rows@[p] < keys@.len());
            }
        }
        let mut f: usize = 0;
        while f < n_folds
            invariant
                f <= n_folds,
                g < groups.rows@.len(),
                members@ == groups.rows@[g as int]@,
                forall|q: int| 0 <= q < members@.len() ==> #[trigger] members@[q] < fold_of@.len(),
                fold_counts@.len() == g * n_folds + f,
                forall|h: int, k: int|
                    #![trigger groups.rows@[h], fold_counts@[h * n_folds + k]]
                    0 <= h < g && 0 <= k < n_folds ==> fold_counts@[h * n_folds + k] == rows_in_fold(
                        groups.rows@[h]@,
                        fold_of@,
                        k,
                    ),
                forall|k: int|
                    #![trigger fold_counts@[g * n_folds + k]]
                    0 <= k < f ==> fold_counts@[g * n_folds + k] == rows_in_fold(groups.rows@[g as int]@, fold_of@, k),
            decreases n_folds - f,
        {
            let old_counts = Ghost(fold_counts@);
            fold_counts.push(count_in_fold(members, fold_of, f));
            assert forall|h: int, k: int|
                #![trigger groups.rows@[h], fold_counts@[h * n_folds + k]]
                0 <= h < g && 0 <= k < n_folds implies fold_counts@[h * n_folds + k] == rows_in_fold(
                groups.rows@[h]@,
                fold_of@,
                k,
            ) by {
                crate::tree::lemma_cell(h, k, g as int, n_folds as int);
                assert(old_counts@[h * n_folds + k] == rows_in_fold(groups.rows@[h]@, fold_of@, k));
            }
            f = f + 1;
        }
        assert((g + 1) * n_folds == g * n_folds + n_folds) by (nonlinear_arith);
        g = g + 1;
    }
    EvidenceGroups { groups, rows, fold_counts }
}

/// The group of a table that each key belongs to.
pub open spec fn looked_up(index: Map<i64, usize>, keys: Seq<i64>) -> Seq<Option<usize>> {
    Seq::new(
        keys.len(),
        |row: int|
            if keys[row] != MISSING_KEY && index.contains_key(keys[row]) {
                Some(index[keys[row]])
            } else {
                None::<usize>
            },
    )
}

/// Which group of a fitted table each row of new data belongs to: none for a
/// missing key or one that the table does not hold.
pub fn evidence_lookup(index: &HashMap<i64, usize>, keys: &Vec<i64>) -> (found: Vec<Option<usize>>)
    ensures
        found@ == looked_up(index@, keys@),
{
    let mut found: Vec<Option<usize>> = Vec::new();
    let mut row: usize = 0;
    while row < keys.len()
        invariant
            row <= keys@.len(),
            found@.len() == row,
            forall|r: int|
                0 <= r < row ==> #[trigger] found@[r] == (if keys@[r] != MISSING_KEY && index@.contains_key(keys@[r]) {
                    Some(index@[keys@[r]])
                } else {
                    None::<usize>
                }),
        decreases keys@.len() - row,
    {
        let key: i64 = keys[row];
        if key == MISSING_KEY {
            found.push(None);
        } else {
            match index.get(&key) {
                Some(g) => found.push(Some(*g)),
                None => found.push(None),
            }
        }
        row = row + 1;
    }
    assert(found@ =~= looked_up(index@, keys@));
    found
}

/// A column of evidence.
#[derive(Clone, Copy, PartialEq, Eq, Structural, Debug)]
pub enum EvidenceColumn {
    /// The lift of a tuple.
    Lift(usize),
    /// The lift of a tuple under the strong prior.
    StrongLift(usize),
    /// The key frequency of a tuple.
    Frequency(usize),
    /// The evidence of all tuples together.
    Total,
    /// The evidence of the tuples of one arity class together.
    ArityTotal(usize),
    /// The highest lift among the tuples of one arity class.
    ArityMax(usize),
    /// The evidence of all tuples for one class.
    ClassTotal(usize),
    /// The highest lift of all tuples for one class.
    ClassMax(usize),
}

/// The arity class of a tuple: one, two, and three or more features.
pub open spec fn arity_class(arity: int) -> int {
    at_most(arity, 3) - 1
}

/// The columns of one tuple.
pub open spec fn tuple_columns(t: int, dual: bool, counter: bool) -> Seq<EvidenceColumn> {
    let a = seq![EvidenceColumn::Lift(t as usize)];
    let b = if dual {
        a.push(EvidenceColumn::StrongLift(t as usize))
    } else {
        a
    };
    if counter {
        b.push(EvidenceColumn::Frequency(t as usize))
    } else {
        b
    }
}

/// The columns of the first `t` tuples.
pub open spec fn all_tuple_columns(t: nat, dual: bool, counter: bool) -> Seq<EvidenceColumn>
    decreases t,
{
    if t == 0 {
        Seq::empty()
    } else {
        all_tuple_columns((t - 1) as nat, dual, counter) + tuple_columns(t - 1, dual, counter)
    }
}

/// Whether a tuple of arity class `a` is listed.
pub open spec fn has_arity(arities: Seq<usize>, a: int) -> bool {
    exists|i: int| 0 <= i < arities.len() && arity_class((#[trigger] arities[i]) as int) == a
}

/// The aggregate columns of the first `a` arity classes.
pub open spec fn arity_columns(arities: Seq<usize>, a: nat, with_max: bool) -> Seq<EvidenceColumn>
    decreases a,
{
    if a == 0 {
        Seq::empty()
    } else {
        let rest = arity_columns(arities, (a - 1) as nat, with_max);
        if !has_arity(arities, a - 1) {
            rest
        } else if with_max {
            rest.push(EvidenceColumn::ArityTotal((a - 1) as usize)).push(EvidenceColumn::ArityMax((a - 1) as usize))
        } else {
            rest.push(EvidenceColumn::ArityTotal((a - 1) as usize))
        }
    }
}

/// The aggregate columns of the first `k` classes.
pub open spec fn class_columns(k: nat, with_max: bool) -> Seq<EvidenceColumn>
    decreases k,
{
    if k == 0 {
        Seq::empty()
    } else if with_max {
        class_columns((k - 1) as nat, with_max).push(EvidenceColumn::ClassTotal((k - 1) as usize)).push(
            EvidenceColumn::ClassMax((k - 1) as usize),
        )
    } else {
        class_columns((k - 1) as nat, with_max).push(EvidenceColumn::ClassTotal((k - 1) as usize))
    }
}

/// All evidence columns in order, for tuples of the given arities.
pub open spec fn evidence_columns(
    arities: Seq<usize>,
    n_out: int,
    dual: bool,
    counter: bool,
    with_max: bool,
) -> Seq<EvidenceColumn> {
    if n_out == 1 {
        all_tuple_columns(arities.len(), dual, counter).push(EvidenceColumn::Total) + arity_columns(
            arities,
            3,
            with_max,
        )
    } else {
        class_columns(n_out as nat, with_max)
    }
}

/// The evidence columns in order. Training rows and new rows share it: it
/// rests on the tuples alone.
pub fn cfe_emit_columns(
    arities: &Vec<usize>,
    n_out: usize,
    dual_prior: bool,
    counter_on: bool,
    aggmax_on: bool,
) -> (cols: Vec<EvidenceColumn>)
    requires
        forall|i: int| 0 <= i < arities@.len() ==> #[trigger] arities@[i] >= 1,
    ensures
        cols@ == evidence_columns(arities@, n_out as int, dual_prior, counter_on, aggmax_on),
{
    let mut cols: Vec<EvidenceColumn> = Vec::new();
    if n_out == 1 {
        let mut t: usize = 0;
        while t < arities.len()
            invariant
                t <= arities@.len(),
                cols@ == all_tuple_columns(t as nat, dual_prior, counter_on),
            decreases arities@.len() - t,
        {
            let before = Ghost(cols@);
            cols.push(EvidenceColumn::Lift(t));
            if dual_prior {
                cols.push(EvidenceColumn::StrongLift(t));
            }
            if counter_on {
                cols.push(EvidenceColumn::Frequency(t));
            }
            assert(cols@ =~= before@ + tuple_columns(t as int, dual_prior, counter_on));
            t = t + 1;
        }
        cols.push(EvidenceColumn::Total);
        let head = Ghost(cols@);
        let mut a: usize = 0;
        assert(cols@ =~= head@ + arity_columns(arities@, 0, aggmax_on));
        while a < 3
            invariant
                a <= 3,
                forall|i: int| 0 <= i < arities@.len() ==> #[trigger] arities@[i] >= 1,
                cols@ == head@ + arity_columns(arities@, a as nat, aggmax_on),
            decreases 3 - a,
        {
            let before = Ghost(cols@);
            let mut present: bool = false;
            let mut i: usize = 0;
            while i < arities.len()
                invariant
                    i <= arities@.len(),
                    forall|k: int| 0 <= k < arities@.len() ==> #[trigger] arities@[k] >= 1,
                    present <==> exists|k: int| 0 <= k < i && arity_class((#[trigger] arities@[k]) as int) == a,
                decreases arities@.len() - i,
            {
                let class: usize = (if arities[i] < 3 { arities[i] } else { 3 }) - 1;
                if class == a {
                    assert(arity_class(arities@[i as int] as int) == a);
                    present = true;
                }
                i = i + 1;
            }
            if present {
                cols.push(EvidenceColumn::ArityTotal(a));
                if aggmax_on {
                    cols.push(EvidenceColumn::ArityMax(a));
                }
            }
            assert(present <==> has_arity(arities@, a as int));
            assert(cols@ =~= head@ + arity_columns(arities@, (a + 1) as nat, aggmax_on));
            a = a + 1;
        }
    } else {
        let mut k: usize = 0;
        while k < n_out
            invariant
                k <= n_out,
                cols@ == class_columns(k as nat, aggmax_on),
            decreases n_out - k,
        {
            cols.push(EvidenceColumn::ClassTotal(k));
            if aggmax_on {
                cols.push(EvidenceColumn::ClassMax(k));
            }
            k = k + 1;
        }
    }
    cols
}

/// The highest of the first `n` lifts of a row, or nothing finite.
pub open spec fn running_max(lifts: Seq<Num>, n: nat) -> Num
    decreases n,
{
    if n == 0 {
        Num { bits: NEG_INFINITY }
    } else {
        let best = running_max(lifts, (n - 1) as nat);
        if best.below(lifts[n - 1]) {
            lifts[n - 1]
        } else {
            best
        }
    }
}

/// The highest lift, or zero where it is not finite.
pub open spec fn lift_reached(lifts: Seq<Num>) -> Num {
    if running_max(lifts, lifts.len()).finite() {
        running_max(lifts, lifts.len())
    } else {
        Num { bits: 0 }
    }
}

/// The highest of a row's lifts; zero where that is not finite.
pub fn highest_lift(lifts: &Vec<Num>) -> (r: Num)
    ensures
        r == lift_reached(lifts@),
{
    let mut best: Num = Num { bits: NEG_INFINITY };
    let mut i: usize = 0;
    while i < lifts.len()
        invariant
            i <= lifts@.len(),
            best == running_max(lifts@, i as nat),
        decreases lifts@.len() - i,
    {
        if best.lt(&lifts[i]) {
            best = lifts[i];
        }
        i = i + 1;
    }
    if best.is_finite() {
        best
    } else {
        Num { bits: 0 }
    }
}

/// Residual evidence is on, and there are tuples and rows for it in a task with one score.
pub open spec fn gathers_residuals(rounds: int, n_tuples: int, n_rows: int, task: Task) -> bool {
    rounds > 0 && n_tuples > 0 && n_rows >= 80 && (task == Task::Binary || task == Task::Regression)
}

/// Whether residual evidence is built: it is on, there are tuples, at least 80
/// rows, and the task is binary or regression.
pub fn residual_applies(rounds: usize, n_tuples: usize, n_rows: usize, task: Task) -> (r: bool)
    ensures
        r == gathers_residuals(rounds as int, n_tuples as int, n_rows as int, task),
{
    let fits: bool = match task {
        Task::Binary => true,
        Task::Regression => true,
        _ => false,
    };
    rounds > 0 && n_tuples > 0 && n_rows >= 80 && fits
}

/// Whether a feature is a category of more bins than raw splits may use.
pub open spec fn demoted(cat_features: Seq<bool>, n_bins: Seq<usize>, min_card: int, f: int) -> bool {
    f < cat_features.len() && cat_features[f] && n_bins[f] > min_card
}

/// The features that a warmup model may split on: all but high-cardinality categories.
pub fn warmup_mask(cat_features: &Vec<bool>, n_bins: &Vec<usize>, min_card: usize) -> (mask: Vec<bool>)
    ensures
        mask@ == Seq::new(n_bins@.len(), |f: int| !demoted(cat_features@, n_bins@, min_card as int, f)),
{
    let mut mask: Vec<bool> = Vec::new();
    let mut f: usize = 0;
    while f < n_bins.len()
        invariant
            f <= n_bins@.len(),
            mask@.len() == f,
            forall|k: int| 0 <= k < f ==> #[trigger] mask@[k] == !demoted(cat_features@, n_bins@, min_card as int, k),
        decreases n_bins@.len() - f,
    {
        mask.push(!(f < cat_features.len() && cat_features[f] && n_bins[f] > min_card));
        f = f + 1;
    }
    assert(mask@ =~= Seq::new(n_bins@.len(), |f: int| !demoted(cat_features@, n_bins@, min_card as int, f)));
    mask
}

/// Whether fitted evidence has columns for new rows.
pub fn evidence_available(n_tuples: usize, n_out: usize, n_rows: usize) -> (r: bool)
    ensures
        r == (n_tuples > 0 && n_out > 0 && n_rows > 0),
{
    n_tuples > 0 && n_out > 0 && n_rows > 0
}

/// There are between two and sixteen folds, as many as are asked for where that is
/// so and every fold has eight rows or more; where there are more than two, every
/// one has.
pub proof fn law_evidence_folds_hold_rows(asked: int, n_rows: int)
    requires
        0 <= asked,
        0 <= n_rows,
    ensures
        2 <= evidence_fold_count(asked, n_rows) <= 16,
        evidence_fold_count(asked, n_rows) > 2 ==> 8 * evidence_fold_count(asked, n_rows) <= n_rows
            && evidence_fold_count(asked, n_rows) <= asked,
        2 <= asked <= 16 && 8 * asked <= n_rows ==> evidence_fold_count(asked, n_rows) == asked,
        asked > 16 && n_rows >= 128 ==> evidence_fold_count(asked, n_rows) == 16,
{
}

/// The two sets of tables are fitted with folds of their own: no seed serves both,
/// and different seeds never become the same.
pub proof fn law_fold_seeds_differ(a: u64, b: u64)
    ensures
        fold_seed(a, false) != fold_seed(a, true),
        a != b ==> fold_seed(a, false) != fold_seed(b, false) && fold_seed(a, true) != fold_seed(b, true),
{
}

/// The rows outside a fold are exactly those that were dealt to another.
pub proof fn law_folds_leave_their_rows_out(fold_of: Seq<usize>, f: usize, row: usize)
    requires
        fold_of.len() <= usize::MAX,
    ensures
        kept_indices(outside_fold(fold_of, f)).contains(row) <==> row < fold_of.len() && fold_of[row as int] != f,
{
    crate::select::law_kept_are_those_marked(outside_fold(fold_of, f), row);
}

/// A tuple has no key in a row exactly where one of its values is no finite
/// number, and only rows with a key are grouped.
pub proof fn law_tuples_with_gaps_have_no_key(x: Seq<Num>, base: int, feats: Seq<usize>, j: int)
    requires
        0 <= j < feats.len(),
    ensures
        !x[base + feats[j]].finite() ==> tuple_key(x, base, feats) == i64::MIN,
        (forall|i: int| 0 <= i < feats.len() ==> (#[trigger] x[base + feats[i]]).finite()) ==> tuple_key(x, base, feats)
            >= 0,
{
    if forall|i: int| 0 <= i < feats.len() ==> (#[trigger] x[base + feats[i]]).finite() {
        let h: u64 = crate::hashing::tuple_hash(x, base, feats, feats.len());
        assert((h >> 1) <= 0x7fff_ffff_ffff_ffff) by (bit_vector);
    }
}

/// Rows are grouped exactly where they have a key.
pub proof fn law_only_keyed_rows_are_grouped(keys: Seq<i64>, row: usize)
    requires
        keys.len() <= usize::MAX,
    ensures
        keyed_rows(keys).contains(row) <==> row < keys.len() && keys[row as int] != i64::MIN,
{
    crate::select::law_kept_are_those_marked(keyed(keys), row);
}

/// The highest of lifts is one of them, and no lift that is a number lies above it.
pub proof fn law_highest_lift_is_above_all(lifts: Seq<Num>, n: nat, i: int)
    requires
        n <= lifts.len(),
        0 <= i < n,
    ensures
        !running_max(lifts, n).nan(),
        !lifts[i].nan() ==> lifts[i].at_most(running_max(lifts, n)),
        running_max(lifts, n).bits == NEG_INFINITY || exists|k: int|
            0 <= k < n && #[trigger] lifts[k] == running_max(lifts, n),
    decreases n,
{
    lemma_running_max(lifts, n);
    if i < n - 1 {
        law_highest_lift_is_above_all(lifts, (n - 1) as nat, i);
        lemma_running_max(lifts, (n - 1) as nat);
    } else {
        lemma_running_max(lifts, (n - 1) as nat);
    }
}

proof fn lemma_running_max(lifts: Seq<Num>, n: nat)
    requires
        n <= lifts.len(),
    ensures
        !running_max(lifts, n).nan(),
        running_max(lifts, n).bits == NEG_INFINITY || exists|k: int|
            0 <= k < n && #[trigger] lifts[k] == running_max(lifts, n),
    decreases n,
{
    if n > 0 {
        lemma_running_max(lifts, (n - 1) as nat);
        if running_max(lifts, (n - 1) as nat).below(lifts[n - 1]) {
            assert(lifts[n - 1] == running_max(lifts, n));
        }
    }
}

proof fn lemma_tuple_columns_held(t: nat, dual: bool, counter: bool, k: usize)
    requires
        t <= usize::MAX,
    ensures
        ({
            let cols = all_tuple_columns(t, dual, counter);
            &&& cols.contains(EvidenceColumn::Lift(k)) <==> k < t
            &&& cols.contains(EvidenceColumn::StrongLift(k)) <==> k < t && dual
            &&& cols.contains(EvidenceColumn::Frequency(k)) <==> k < t && counter
            &&& forall|i: int|
                0 <= i < cols.len() ==> match #[trigger] cols[i] {
                    EvidenceColumn::Lift(_) | EvidenceColumn::StrongLift(_) | EvidenceColumn::Frequency(_) => true,
                    _ => false,
                }
        }),
    decreases t,
{
    if t > 0 {
        lemma_tuple_columns_held((t - 1) as nat, dual, counter, k);
        let rest = all_tuple_columns((t - 1) as nat, dual, counter);
        let more = tuple_columns(t - 1, dual, counter);
        let cols = all_tuple_columns(t, dual, counter);
        assert(cols == rest + more);
        assert(more[0] == EvidenceColumn::Lift((t - 1) as usize));
        assert(dual ==> more[1] == EvidenceColumn::StrongLift((t - 1) as usize));
        assert(counter && dual ==> more[2] == EvidenceColumn::Frequency((t - 1) as usize));
        assert(counter && !dual ==> more[1] == EvidenceColumn::Frequency((t - 1) as usize));
        assert forall|c: EvidenceColumn| #[trigger] cols.contains(c) == (rest.contains(c) || more.contains(c)) by {
            if rest.contains(c) {
                let i = choose|i: int| 0 <= i < rest.len() && rest[i] == c;
                assert(cols[i] == c);
            }
            if more.contains(c) {
                let i = choose|i: int| 0 <= i < more.len() && more[i] == c;
                assert(cols[rest.len() + i] == c);
            }
            if cols.contains(c) {
                let i = choose|i: int| 0 <= i < cols.len() && cols[i] == c;
                if i < rest.len() {
                    assert(rest[i] == c);
                } else {
                    assert(more[i - rest.len()] == c);
                }
            }
        }
        assert(more.contains(EvidenceColumn::Lift(k)) <==> k == t - 1);
        assert(more.contains(EvidenceColumn::StrongLift(k)) <==> k == t - 1 && dual) by {
            if k == t - 1 && dual {
                assert(more[1] == EvidenceColumn::StrongLift(k));
            }
        }
        assert(more.contains(EvidenceColumn::Frequency(k)) <==> k == t - 1 && counter) by {
            if k == t - 1 && counter {
                assert(more[if dual {
                    2
                } else {
                    1
                }] == EvidenceColumn::Frequency(k));
            }
        }
        assert forall|i: int| 0 <= i < cols.len() implies match #[trigger] cols[i] {
            EvidenceColumn::Lift(_) | EvidenceColumn::StrongLift(_) | EvidenceColumn::Frequency(_) => true,
            _ => false,
        } by {
            if i < rest.len() {
                assert(cols[i] == rest[i]);
            } else {
                assert(cols[i] == more[i - rest.len()]);
            }
        }
    }
}

/// With one output every tuple has its lift among the columns, and its lift under
/// the strong prior and its frequency exactly where they are set.
pub proof fn law_tuples_have_their_columns(
    arities: Seq<usize>,
    dual: bool,
    counter: bool,
    with_max: bool,
    t: usize,
)
    requires
        t < arities.len() <= usize::MAX,
    ensures
        ({
            let cols = evidence_columns(arities, 1, dual, counter, with_max);
            &&& cols.contains(EvidenceColumn::Lift(t))
            &&& dual ==> cols.contains(EvidenceColumn::StrongLift(t))
            &&& counter ==> cols.contains(EvidenceColumn::Frequency(t))
            &&& cols.contains(EvidenceColumn::Total)
        }),
{
    let head = all_tuple_columns(arities.len(), dual, counter);
    let cols = evidence_columns(arities, 1, dual, counter, with_max);
    lemma_tuple_columns_held(arities.len(), dual, counter, t);
    assert forall|c: EvidenceColumn| head.contains(c) implies #[trigger] cols.contains(c) by {
        let i = choose|i: int| 0 <= i < head.len() && head[i] == c;
        assert(cols[i] == c);
    }
    assert(cols[head.len() as int] == EvidenceColumn::Total);
}

proof fn lemma_arity_columns(arities: Seq<usize>, a: nat, with_max: bool, k: usize)
    requires
        a <= 3,
    ensures
        ({
            let cols = arity_columns(arities, a, with_max);
            &&& cols.contains(EvidenceColumn::ArityTotal(k)) <==> k < a && has_arity(arities, k as int)
            &&& cols.contains(EvidenceColumn::ArityMax(k)) <==> k < a && with_max && has_arity(arities, k as int)
        }),
    decreases a,
{
    if a > 0 {
        let rest = arity_columns(arities, (a - 1) as nat, with_max);
        let cols = arity_columns(arities, a, with_max);
        let total = EvidenceColumn::ArityTotal((a - 1) as usize);
        let max = EvidenceColumn::ArityMax((a - 1) as usize);
        lemma_arity_columns(arities, (a - 1) as nat, with_max, k);
        if has_arity(arities, a - 1) {
            assert forall|c: EvidenceColumn| #[trigger] cols.contains(c) == (rest.contains(c) || c == total || (with_max
                && c == max)) by {
                lemma_pushed(rest, total, c);
                if with_max {
                    lemma_pushed(rest.push(total), max, c);
                }
            }
        }
    }
}

proof fn lemma_pushed(s: Seq<EvidenceColumn>, x: EvidenceColumn, c: EvidenceColumn)
    ensures
        s.push(x).contains(c) <==> s.contains(c) || c == x,
{
    if s.contains(c) {
        let i = choose|i: int| 0 <= i < s.len() && s[i] == c;
        assert(s.push(x)[i] == c);
    }
    if c == x {
        assert(s.push(x)[s.len() as int] == c);
    }
    if s.push(x).contains(c) && c != x {
        let i = choose|i: int| 0 <= i < s.push(x).len() && s.push(x)[i] == c;
        assert(s[i] == c);
    }
}

/// With one output the tuples of one feature, of two, and of more have a sum of their own
/// where there are such tuples, and their highest lift where that is set.
pub proof fn law_arities_have_their_columns(
    arities: Seq<usize>,
    dual: bool,
    counter: bool,
    with_max: bool,
    t: int,
    k: usize,
)
    requires
        0 <= t < arities.len() <= usize::MAX,
        arities[t] >= 1,
        k == (if arities[t] == 1 {
            0int
        } else if arities[t] == 2 {
            1
        } else {
            2
        }),
    ensures
        ({
            let cols = evidence_columns(arities, 1, dual, counter, with_max);
            &&& cols.contains(EvidenceColumn::ArityTotal(k))
            &&& with_max ==> cols.contains(EvidenceColumn::ArityMax(k))
        }),
{
    let head = all_tuple_columns(arities.len(), dual, counter).push(EvidenceColumn::Total);
    let tail = arity_columns(arities, 3, with_max);
    let cols = evidence_columns(arities, 1, dual, counter, with_max);
    assert(arity_class(arities[t] as int) == k);
    assert(has_arity(arities, k as int));
    lemma_arity_columns(arities, 3, with_max, k);
    assert forall|c: EvidenceColumn| tail.contains(c) implies #[trigger] cols.contains(c) by {
        let i = choose|i: int| 0 <= i < tail.len() && tail[i] == c;
        assert(cols[head.len() + i] == c);
    }
}

/// With several outputs every class has its sum among the columns, its highest lift exactly
/// where that is set, and nothing else is there.
pub proof fn law_classes_have_their_columns(arities: Seq<usize>, n: nat, dual: bool, counter: bool, with_max: bool, k: usize)
    requires
        n != 1,
        n <= usize::MAX,
    ensures
        ({
            let cols = evidence_columns(arities, n as int, dual, counter, with_max);
            &&& cols.contains(EvidenceColumn::ClassTotal(k)) <==> k < n
            &&& cols.contains(EvidenceColumn::ClassMax(k)) <==> k < n && with_max
            &&& !cols.contains(EvidenceColumn::Total) && !cols.contains(EvidenceColumn::Lift(k))
        }),
{
    lemma_class_columns(n, with_max, k);
}

proof fn lemma_class_columns(n: nat, with_max: bool, k: usize)
    requires
        n <= usize::MAX,
    ensures
        ({
            let cols = class_columns(n, with_max);
            &&& cols.contains(EvidenceColumn::ClassTotal(k)) <==> k < n
            &&& cols.contains(EvidenceColumn::ClassMax(k)) <==> k < n && with_max
            &&& !cols.contains(EvidenceColumn::Total) && !cols.contains(EvidenceColumn::Lift(k))
        }),
    decreases n,
{
    if n > 0 {
        let rest = class_columns((n - 1) as nat, with_max);
        let cols = class_columns(n, with_max);
        let total = EvidenceColumn::ClassTotal((n - 1) as usize);
        let max = EvidenceColumn::ClassMax((n - 1) as usize);
        lemma_class_columns((n - 1) as nat, with_max, k);
        assert forall|c: EvidenceColumn| #[trigger] cols.contains(c) == (rest.contains(c) || c == total || (with_max && c
            == max)) by {
            lemma_pushed(rest, total, c);
            if with_max {
                lemma_pushed(rest.push(total), max, c);
            }
        }
    }
}

/// A category is demoted exactly where it has more bins than it may have.
pub proof fn law_wide_categories_are_demoted(cat_features: Seq<bool>, n_bins: Seq<usize>, min_card: int, f: int)
    requires
        0 <= f < n_bins.len(),
    ensures
        f >= cat_features.len() || !cat_features[f] ==> !demoted(cat_features, n_bins, min_card, f),
        f < cat_features.len() && cat_features[f] ==> (demoted(cat_features, n_bins, min_card, f) <==> min_card
            < n_bins[f]),
{
}

/// Every two of the chosen features are paired, and every three and four of them joined.
pub proof fn law_tuples_join_chosen_features(
    singles: Seq<usize>,
    pairs: Seq<(usize, usize)>,
    triples: Seq<(usize, usize, usize)>,
    quads: Seq<(usize, usize, usize, usize)>,
    i: usize,
    j: usize,
    k: usize,
    l: usize,
)
    requires
        is_pair_list(singles.len() as int, pairs),
        is_triple_list(singles.len() as int, triples),
        is_quad_list(singles.len() as int, quads),
        i < j < k < l < singles.len(),
    ensures
        pair_tuples(singles, pairs).contains(seq![singles[i as int], singles[j as int]]),
        triple_tuples(singles, triples).contains(seq![singles[i as int], singles[j as int], singles[k as int]]),
        quad_tuples(singles, quads).contains(
            seq![singles[i as int], singles[j as int], singles[k as int], singles[l as int]],
        ),
{
    assert(pairs.contains((i, j)));
    let p = choose|p: int| 0 <= p < pairs.len() && pairs[p] == (i, j);
    assert(pair_tuples(singles, pairs)[p] == seq![singles[i as int], singles[j as int]]);
    assert(triples.contains((i, j, k)));
    let q = choose|q: int| 0 <= q < triples.len() && triples[q] == (i, j, k);
    assert(triple_tuples(singles, triples)[q] == seq![singles[i as int], singles[j as int], singles[k as int]]);
    assert(quads.contains((i, j, k, l)));
    let r = choose|r: int| 0 <= r < quads.len() && quads[r] == (i, j, k, l);
    assert(quad_tuples(singles, quads)[r] == seq![
        singles[i as int],
        singles[j as int],
        singles[k as int],
        singles[l as int],
    ]);
}

/// Picks name features by their place, and a score counts exactly above zero.
pub proof fn law_picks_name_features(features: Seq<usize>, picks: Seq<usize>, scores: Seq<Num>, i: int)
    ensures
        features_at(features, picks).len() == picks.len(),
        0 <= i < picks.len() ==> features_at(features, picks)[i] == features[picks[i] as int],
        0 <= i < scores.len() ==> (positive_scores(scores)[i] <==> 0 < scores[i].bits <= 0x7ff0_0000_0000_0000),
{
}

/// A label is the class of its whole number where there is one, and the last class beyond;
/// evidence is gathered for every class of a task that has several, and for one score else.
pub proof fn law_evidence_has_the_outputs_of_the_task(y: Num, k: int, c: int, task: Task, labels: Seq<Num>)
    requires
        1 <= k <= usize::MAX,
        0 <= c <= usize::MAX,
        y.finite(),
        y.scaled() == c * vstd::arithmetic::power2::pow2(1074),
        label_classes(labels) <= usize::MAX,
    ensures
        c < k ==> nearest_class(y, k) == c,
        c >= k ==> nearest_class(y, k) == k - 1,
        task != Task::Multiclass ==> outputs_of(task, labels) == Some(1usize),
        task == Task::Multiclass && label_classes(labels) > 1 ==> outputs_of(task, labels) == Some(
            label_classes(labels) as usize,
        ),
        task == Task::Multiclass && label_classes(labels) <= 1 ==> outputs_of(task, labels) is None,
        lifts_by_mean(task) <==> task == Task::Regression || task == Task::Poisson || task == Task::Rank || task
            == Task::Other,
{
    crate::num::law_rounding_is_to_the_nearest(y);
    vstd::arithmetic::power2::lemma_pow2_pos(1074);
    let u = vstd::arithmetic::power2::pow2(1074) as int;
    let r = y.rounded();
    assert(r == c) by (nonlinear_arith)
        requires
            u > 0,
            (2 * r - 1) * u <= 2 * (c * u) <= (2 * r + 1) * u,
            (2 * r - 1) * u < 2 * (c * u) || 2 * (c * u) < (2 * r + 1) * u,
    ;
}

/// Wider tuples are trusted less: the bound on a lift falls from one feature to two and from
/// two to more, and stays the same from there on.
pub proof fn law_wider_tuples_are_bounded_closer(arity: int)
    requires
        arity >= 3,
    ensures
        clip_of_arity(1).bits == 0x400c_d70a_3d70_a3d7,
        clip_of_arity(2).bits == 0x4005_978d_4fdf_3b64,
        clip_of_arity(arity).bits == 0x4000_28f5_c28f_5c29,
        clip_of_arity(arity).below(clip_of_arity(2)) && clip_of_arity(2).below(clip_of_arity(1)),
{
}

/// Evidence is gathered only with forty rows and a category, that on residuals only with
/// eighty rows and tuples in a binary task or a regression; the lift that a row reaches is the
/// highest of its lifts, or zero where that is not finite.
pub proof fn law_evidence_needs_rows(
    enabled: bool,
    n_rows: int,
    n_categorical: int,
    rounds: int,
    n_tuples: int,
    task: Task,
    lifts: Seq<Num>,
)
    requires
        0 <= n_categorical,
        0 <= rounds,
        0 <= n_tuples,
    ensures
        gathers(enabled, n_rows, n_categorical) <==> enabled && n_rows > 39 && n_categorical != 0,
        gathers_residuals(rounds, n_tuples, n_rows, task) <==> rounds != 0 && n_tuples != 0 && n_rows > 79 && (task
            == Task::Regression || task == Task::Binary),
        lift_reached(lifts).finite(),
        running_max(lifts, lifts.len()).finite() ==> lift_reached(lifts) == running_max(lifts, lifts.len()),
        !running_max(lifts, lifts.len()).finite() ==> lift_reached(lifts).bits == 0,
{
}

} // verus!
