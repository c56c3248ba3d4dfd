//! Which categories, pairs and triples of categories get target statistics.

use crate::bits::E_MINUS_12;
use crate::combos::{index_pairs, index_triples, is_pair_list, is_triple_list};
use crate::ctr::{
    categorical_flags, cell_key, ctr_stats, feature_keys, feature_pair_keys, feature_triple_keys, matrix_holds,
    row_list, tuple_admitted,
};
use crate::evidence::{features_at, positive_scores};
use crate::groups::{distinct_keys, KeyGroups};
use crate::hashing::{pair_key, triple_key};
use crate::num::Num;
use crate::select::{is_top, kept_indices, select_positive};
use crate::task::Task;
use vstd::prelude::*;

verus! {

/// The settings of target statistics.
pub struct CtrSettings {
    pub enabled: bool,
    pub task: Task,
    pub top_features: usize,
    pub min_count: usize,
    pub permutations: usize,
    pub smooth: Num,
}

impl CtrSettings {
    /// Whether statistics are made at all.
    pub fn applies(&self, n_rows: usize, n_features: usize) -> (r: bool)
        ensures
            r == (self.enabled && n_rows > 0 && n_features > 0 && self.top_features > 0),
    {
        self.enabled && n_rows > 0 && n_features > 0 && self.top_features > 0
    }

    /// The rows of the smallest group that counts.
    pub fn least_rows(&self) -> (r: usize)
        ensures
            r == if self.min_count > 1 {
                self.min_count
            } else {
                1
            },
    {
        if self.min_count > 1 {
            self.min_count
        } else {
            1
        }
    }

    /// The number of random orders that are averaged over.
    pub fn orders(&self) -> (r: usize)
        ensures
            r == if self.permutations > 1 {
                self.permutations
            } else {
                1
            },
    {
        if self.permutations > 1 {
            self.permutations
        } else {
            1
        }
    }

    /// The weight of the prior, held off from zero.
    pub fn smoothing(&self) -> (r: Num)
        ensures
            r == self.smooth.larger(Num { bits: E_MINUS_12 }),
    {
        let least: Num = Num { bits: E_MINUS_12 };
        self.smooth.max(&least)
    }
}

/// The keys of a feature.
pub open spec fn single_keys(x: Seq<Num>, n_rows: nat, n_features: int, f: int) -> Seq<i64> {
    Seq::new(n_rows, |row: int| cell_key(x, n_features, row, f))
}

/// The keys of a pair of features.
pub open spec fn pair_keys_of(x: Seq<Num>, n_rows: nat, n_features: int, a: int, b: int) -> Seq<i64> {
    Seq::new(n_rows, |row: int| pair_key(cell_key(x, n_features, row, a), cell_key(x, n_features, row, b)))
}

/// The keys of a triple of features.
pub open spec fn triple_keys_of(x: Seq<Num>, n_rows: nat, n_features: int, a: int, b: int, c: int) -> Seq<i64> {
    Seq::new(
        n_rows,
        |row: int|
            triple_key(
                cell_key(x, n_features, row, a),
                cell_key(x, n_features, row, b),
                cell_key(x, n_features, row, c),
            ),
    )
}

/// The number of groups that keys form.
pub open spec fn group_count(keys: Seq<i64>) -> nat {
    distinct_keys(keys, row_list(keys.len())).len()
}

/// The mean size of the groups is large enough for a table.
pub open spec fn groups_admitted(keys: Seq<i64>, min_count: int) -> bool {
    group_count(keys) >= 2 && keys.len() >= group_count(keys) * (if min_count > 5 {
        min_count
    } else {
        5
    })
}

/// A tuple of features with the keys and groups of the rows.
pub struct CtrCandidate {
    pub members: Vec<usize>,
    pub keys: Vec<i64>,
    pub groups: KeyGroups,
}

impl CtrCandidate {
    pub open spec fn holds(&self, members: Seq<usize>, keys: Seq<i64>) -> bool {
        &&& self.members@ == members
        &&& self.keys@ == keys
        &&& self.groups.groups(keys, row_list(keys.len()))
    }
}

/// The features that are scored: the categorical ones, with two groups at
/// least unless the task has many classes.
pub open spec fn scored_features(x: Seq<Num>, n_rows: nat, n_features: nat, cat: Seq<bool>, task: Task) -> Seq<bool> {
    Seq::new(
        n_features,
        |f: int|
            categorical_flags(cat, n_features)[f] && (task == Task::Multiclass || group_count(
                single_keys(x, n_rows, n_features as int, f),
            ) >= 2),
    )
}

/// The features that are scored, with their keys and groups.
pub fn ctr_single_candidates(
    x: &Vec<Num>,
    n_rows: usize,
    n_features: usize,
    cat_features: &Vec<bool>,
    task: Task,
) -> (list: Vec<CtrCandidate>)
    requires
        matrix_holds(x@, n_rows as int, n_features as int),
    ensures
        ({
            let kept = kept_indices(scored_features(x@, n_rows as nat, n_features as nat, cat_features@, task));
            &&& list@.len() == kept.len()
            &&& forall|p: int|
                0 <= p < list@.len() ==> (#[trigger] list@[p]).holds(
                    seq![kept[p]],
                    single_keys(x@, n_rows as nat, n_features as int, kept[p] as int),
                )
        }),
{
    let multi: bool = match task {
        Task::Multiclass => true,
        _ => false,
    };
    let ghost flags = scored_features(x@, n_rows as nat, n_features as nat, cat_features@, task);
    let mut list: Vec<CtrCandidate> = Vec::new();
    let mut f: usize = 0;
    assert(flags.take(0) =~= Seq::empty());
    while f < n_features
        invariant
            f <= n_features,
            multi == (task == Task::Multiclass),
            matrix_holds(x@, n_rows as int, n_features as int),
            flags == scored_features(x@, n_rows as nat, n_features as nat, cat_features@, task),
            list@.len() == kept_indices(flags.take(f as int)).len(),
            forall|p: int|
                0 <= p < list@.len() ==> (#[trigger] list@[p]).holds(
                    seq![kept_indices(flags.take(f as int))[p]],
                    single_keys(
                        x@,
                        n_rows as nat,
                        n_features as int,
                        kept_indices(flags.take(f as int))[p] as int,
                    ),
                ),
        decreases n_features - f,
    {
        assert(flags.take(f + 1).drop_last() =~= flags.take(f as int));
        assert(flags.take(f + 1).last() == flags[f as int]);
        if f < cat_features.len() && cat_features[f] {
            let keys: Vec<i64> = feature_keys(x, n_rows, n_features, f);
            assert(keys@ =~= single_keys(x@, n_rows as nat, n_features as int, f as int));
            let groups: KeyGroups = ctr_stats(&keys);
            if multi || groups.keys.len() >= 2 {
                let mut members: Vec<usize> = Vec::new();
                members.push(f);
                assert(members@ =~= seq![f]);
                list.push(CtrCandidate { members, keys, groups });
            }
        }
        f = f + 1;
    }
    assert(flags.take(n_features as int) =~= flags);
    list
}

/// The pairs that are scored: those whose groups are large enough.
pub open spec fn scored_pairs(
    x: Seq<Num>,
    n_rows: nat,
    n_features: int,
    features: Seq<usize>,
    min_count: int,
    list: Seq<(usize, usize)>,
) -> Seq<bool> {
    Seq::new(
        list.len(),
        |p: int|
            groups_admitted(
                pair_keys_of(x, n_rows, n_features, features[list[p].0 as int] as int, features[list[p].1 as int] as int),
                min_count,
            ),
    )
}

/// `out` holds the scored pairs in order.
pub open spec fn holds_pairs(
    out: Seq<CtrCandidate>,
    x: Seq<Num>,
    n_rows: nat,
    n_features: int,
    features: Seq<usize>,
    list: Seq<(usize, usize)>,
    kept: Seq<usize>,
) -> bool {
    &&& out.len() == kept.len()
    &&& forall|q: int|
        0 <= q < out.len() ==> (#[trigger] out[q]).holds(
            seq![features[list[kept[q] as int].0 as int], features[list[kept[q] as int].1 as int]],
            pair_keys_of(
                x,
                n_rows,
                n_features,
                features[list[kept[q] as int].0 as int] as int,
                features[list[kept[q] as int].1 as int] as int,
            ),
        )
}

/// The pairs among `features` that are scored, with their keys and groups.
pub fn ctr_pair_candidates(
    x: &Vec<Num>,
    n_rows: usize,
    n_features: usize,
    features: &Vec<usize>,
    min_count: usize,
) -> (out: Vec<CtrCandidate>)
    requires
        matrix_holds(x@, n_rows as int, n_features as int),
        forall|i: int| 0 <= i < features@.len() ==> #[trigger] features@[i] < n_features,
    ensures
        exists|list: Seq<(usize, usize)>| #[trigger]
            is_pair_list(features@.len() as int, list) && holds_pairs(
                out@,
                x@,
                n_rows as nat,
                n_features as int,
                features@,
                list,
                kept_indices(
                    scored_pairs(x@, n_rows as nat, n_features as int, features@, min_count as int, list),
                ),
            ),
{
    let list: Vec<(usize, usize)> = index_pairs(features.len());
    let ghost flags = scored_pairs(x@, n_rows as nat, n_features as int, features@, min_count as int, list@);
    let mut out: Vec<CtrCandidate> = Vec::new();
    let mut p: usize = 0;
    assert(flags.take(0) =~= Seq::empty());
    while p < list.len()
        invariant
            p <= list@.len(),
            matrix_holds(x@, n_rows as int, n_features as int),
            is_pair_list(features@.len() as int, list@),
            forall|i: int| 0 <= i < features@.len() ==> #[trigger] features@[i] < n_features,
            flags == scored_pairs(x@, n_rows as nat, n_features as int, features@, min_count as int, list@),
            holds_pairs(
                out@,
                x@,
                n_rows as nat,
                n_features as int,
                features@,
                list@,
                kept_indices(flags.take(p as int)),
            ),
        decreases list@.len() - p,
    {
        assert(flags.take(p + 1).drop_last() =~= flags.take(p as int));
        assert(flags.take(p + 1).last() == flags[p as int]);
        let (i, j) = list[p];
        assert(list@[p as int].0 < list@[p as int].1 < features@.len());
        assert(features@[i as int] < n_features && features@[j as int] < n_features);
        let keys: Vec<i64> = feature_pair_keys(x, n_rows, n_features, features[i], features[j]);
        assert(keys@ =~= pair_keys_of(
            x@,
            n_rows as nat,
            n_features as int,
            features@[i as int] as int,
            features@[j as int] as int,
        ));
        let groups: KeyGroups = ctr_stats(&keys);
        if tuple_admitted(n_rows, groups.keys.len(), min_count) {
            let mut members: Vec<usize> = Vec::new();
            members.push(features[i]);
            members.push(features[j]);
            assert(members@ =~= seq![features@[i as int], features@[j as int]]);
            out.push(CtrCandidate { members, keys, groups });
        }
        p = p + 1;
    }
    assert(flags.take(list@.len() as int) =~= flags);
    out
}

/// The triples that are scored: those whose groups are large enough.
pub open spec fn scored_triples(
    x: Seq<Num>,
    n_rows: nat,
    n_features: int,
    features: Seq<usize>,
    min_count: int,
    list: Seq<(usize, usize, usize)>,
) -> Seq<bool> {
    Seq::new(
        list.len(),
        |p: int|
            groups_admitted(
                triple_keys_of(
                    x,
                    n_rows,
                    n_features,
                    features[list[p].0 as int] as int,
                    features[list[p].1 as int] as int,
                    features[list[p].2 as int] as int,
                ),
                min_count,
            ),
    )
}

/// `out` holds the scored triples in order.
pub open spec fn holds_triples(
    out: Seq<CtrCandidate>,
    x: Seq<Num>,
    n_rows: nat,
    n_features: int,
    features: Seq<usize>,
    list: Seq<(usize, usize, usize)>,
    kept: Seq<usize>,
) -> bool {
    &&& out.len() == kept.len()
    &&& forall|q: int|
        0 <= q < out.len() ==> (#[trigger] out[q]).holds(
            seq![
                features[list[kept[q] as int].0 as int],
                features[list[kept[q] as int].1 as int],
                features[list[kept[q] as int].2 as int],
            ],
            triple_keys_of(
                x,
                n_rows,
                n_features,
                features[list[kept[q] as int].0 as int] as int,
                features[list[kept[q] as int].1 as int] as int,
                features[list[kept[q] as int].2 as int] as int,
            ),
        )
}

/// The triples among `features` that are scored, with their keys and groups;
/// only a task of two classes has any.
pub fn ctr_triple_candidates(
    x: &Vec<Num>,
    n_rows: usize,
    n_features: usize,
    features: &Vec<usize>,
    min_count: usize,
    task: Task,
) -> (out: Vec<CtrCandidate>)
    requires
        matrix_holds(x@, n_rows as int, n_features as int),
        forall|i: int| 0 <= i < features@.len() ==> #[trigger] features@[i] < n_features,
    ensures
        features@.len() < 3 || task != Task::Binary ==> out@.len() == 0,
        features@.len() >= 3 && task == Task::Binary ==> exists|list: Seq<(usize, usize, usize)>| #[trigger]
            is_triple_list(features@.len() as int, list) && holds_triples(
                out@,
                x@,
                n_rows as nat,
                n_features as int,
                features@,
                list,
                kept_indices(
                    scored_triples(x@, n_rows as nat, n_features as int, features@, min_count as int, list),
                ),
            ),
{
    let mut out: Vec<CtrCandidate> = Vec::new();
    let binary: bool = match task {
        Task::Binary => true,
        _ => false,
    };
    if features.len() < 3 || !binary {
        return out;
    }
    let list: Vec<(usize, usize, usize)> = index_triples(features.len());
    let ghost flags = scored_triples(x@, n_rows as nat, n_features as int, features@, min_count as int, list@);
    let mut p: usize = 0;
    assert(flags.take(0) =~= Seq::empty());
    while p < list.len()
        invariant
            p <= list@.len(),
            matrix_holds(x@, n_rows as int, n_features as int),
            is_triple_list(features@.len() as int, list@),
            forall|i: int| 0 <= i < features@.len() ==> #[trigger] features@[i] < n_features,
            flags == scored_triples(x@, n_rows as nat, n_features as int, features@, min_count as int, list@),
            holds_triples(
                out@,
                x@,
                n_rows as nat,
                n_features as int,
                features@,
                list@,
                kept_indices(flags.take(p as int)),
            ),
        decreases list@.len() - p,
    {
        assert(flags.take(p + 1).drop_last() =~= flags.take(p as int));
        assert(flags.take(p + 1).last() == flags[p as int]);
        let (a, b, c) = list[p];
        assert(list@[p as int].0 < list@[p as int].1 < list@[p as int].2 < features@.len());
        assert(features@[a as int] < n_features && features@[b as int] < n_features && features@[c as int]
            < n_features);
        let keys: Vec<i64> = feature_triple_keys(x, n_rows, n_features, features[a], features[b], features[c]);
        assert(keys@ =~= triple_keys_of(
            x@,
            n_rows as nat,
            n_features as int,
            features@[a as int] as int,
            features@[b as int] as int,
            features@[c as int] as int,
        ));
        let groups: KeyGroups = ctr_stats(&keys);
        if tuple_admitted(n_rows, groups.keys.len(), min_count) {
            let mut members: Vec<usize> = Vec::new();
            members.push(features[a]);
            members.push(features[b]);
            members.push(features[c]);
            assert(members@ =~= seq![features@[a as int], features@[b as int], features@[c as int]]);
            out.push(CtrCandidate { members, keys, groups });
        }
        p = p + 1;
    }
    assert(flags.take(list@.len() as int) =~= flags);
    out
}

/// The features of the best candidates: those with a score above zero, by
/// falling score, at most `limit`.
pub fn best_features(features: &Vec<usize>, scores: &Vec<Num>, limit: usize) -> (best: Vec<usize>)
    requires
        features@.len() == scores@.len(),
    ensures
        exists|top: Seq<usize>| #[trigger]
            is_top(scores@, positive_scores(scores@), limit as int, top) && best@
                == features_at(features@, top),
{
    let top: Vec<usize> = select_positive(scores, limit);
    let mut best: Vec<usize> = Vec::new();
    let mut p: usize = 0;
    while p < top.len()
        invariant
            p <= top@.len(),
            features@.len() == scores@.len(),
            is_top(scores@, positive_scores(scores@), limit as int, top@),
            best@.len() == p,
            forall|q: int| 0 <= q < p ==> #[trigger] best@[q] == features@[top@[q] as int],
        decreases top@.len() - p,
    {
        assert(top@[p as int] < scores@.len());
        best.push(features[top[p]]);
        p = p + 1;
    }
    assert(best@ =~= features_at(features@, top@));
    best
}

/// A label of class `k`: it rounds to it, and is neither negative nor missing.
pub open spec fn in_class(label: Num, k: int) -> bool {
    label.finite() && (Num { bits: 0 }).at_most(label) && crate::num::saturate(label.rounded(), 0, usize::MAX as int) == k
}

/// Which labels are of class `k`.
pub fn class_indicator(y: &Vec<Num>, k: usize) -> (flags: Vec<bool>)
    ensures
        flags@ == Seq::new(y@.len(), |i: int| in_class(y@[i], k as int)),
{
    let zero: Num = Num { bits: 0 };
    let mut flags: Vec<bool> = Vec::new();
    let mut i: usize = 0;
    while i < y.len()
        invariant
            i <= y@.len(),
            zero.bits == 0,
            flags@.len() == i,
            forall|j: int| 0 <= j < i ==> #[trigger] flags@[j] == in_class(y@[j], k as int),
        decreases y@.len() - i,
    {
        flags.push(y[i].is_finite() && zero.le(&y[i]) && y[i].round_to_usize() == k);
        i = i + 1;
    }
    assert(flags@ =~= Seq::new(y@.len(), |i: int| in_class(y@[i], k as int)));
    flags
}

/// Only categorical features are encoded, and no more than are asked for.
pub proof fn law_encoded_features_are_categorical(
    x: Seq<Num>,
    n_rows: nat,
    n_features: nat,
    cat: Seq<bool>,
    task: Task,
    scores: Seq<Num>,
    limit: int,
    top: Seq<usize>,
)
    requires
        n_features <= usize::MAX,
        0 <= limit,
        scores.len() == kept_indices(scored_features(x, n_rows, n_features, cat, task)).len(),
        is_top(scores, positive_scores(scores), limit, top),
    ensures
        ({
            let best = features_at(kept_indices(scored_features(x, n_rows, n_features, cat, task)), top);
            &&& best.len() <= limit
            &&& forall|i: int|
                0 <= i < best.len() ==> #[trigger] best[i] < n_features && best[i] < cat.len() && cat[best[i] as int]
        }),
{
    let flags = scored_features(x, n_rows, n_features, cat, task);
    let kept = kept_indices(flags);
    crate::select::lemma_kept_indices(flags);
    let best = features_at(kept, top);
    assert forall|i: int| 0 <= i < best.len() implies #[trigger] best[i] < n_features && best[i] < cat.len()
        && cat[best[i] as int] by {
        assert(top[i] < scores.len());
        assert(flags[kept[top[i] as int] as int]);
    }
}

/// Pairs and triples are made of features that are encoded by themselves, and
/// no more of either are kept than are asked for.
pub proof fn law_tuples_are_of_encoded_features(
    pairs: Seq<CtrCandidate>,
    triples: Seq<CtrCandidate>,
    x: Seq<Num>,
    n_rows: nat,
    n_features: int,
    features: Seq<usize>,
    pair_list: Seq<(usize, usize)>,
    triple_list: Seq<(usize, usize, usize)>,
    min_count: int,
    pair_scores: Seq<Num>,
    triple_scores: Seq<Num>,
    limit: int,
    best_pairs: Seq<usize>,
    best_triples: Seq<usize>,
)
    requires
        0 <= limit,
        pair_scores.len() == pairs.len(),
        triple_scores.len() == triples.len(),
        is_top(pair_scores, positive_scores(pair_scores), limit, best_pairs),
        is_top(triple_scores, positive_scores(triple_scores), limit, best_triples),
        pair_list.len() <= usize::MAX,
        triple_list.len() <= usize::MAX,
        is_pair_list(features.len() as int, pair_list),
        is_triple_list(features.len() as int, triple_list),
        holds_pairs(
            pairs,
            x,
            n_rows,
            n_features,
            features,
            pair_list,
            kept_indices(scored_pairs(x, n_rows, n_features, features, min_count, pair_list)),
        ),
        holds_triples(
            triples,
            x,
            n_rows,
            n_features,
            features,
            triple_list,
            kept_indices(scored_triples(x, n_rows, n_features, features, min_count, triple_list)),
        ),
    ensures
        best_pairs.len() <= limit,
        best_triples.len() <= limit,
        forall|q: int, i: int|
            #![trigger pairs[q].members@[i]]
            0 <= q < pairs.len() && 0 <= i < pairs[q].members@.len() ==> features.contains(pairs[q].members@[i]),
        forall|q: int, i: int|
            #![trigger triples[q].members@[i]]
            0 <= q < triples.len() && 0 <= i < triples[q].members@.len() ==> features.contains(
                triples[q].members@[i],
            ),
{
    let of_pairs = scored_pairs(x, n_rows, n_features, features, min_count, pair_list);
    let of_triples = scored_triples(x, n_rows, n_features, features, min_count, triple_list);
    crate::select::lemma_kept_indices(of_pairs);
    crate::select::lemma_kept_indices(of_triples);
    assert forall|q: int, i: int|
        #![trigger pairs[q].members@[i]]
        0 <= q < pairs.len() && 0 <= i < pairs[q].members@.len() implies features.contains(pairs[q].members@[i]) by {
        let pick = pair_list[kept_indices(of_pairs)[q] as int];
        assert(pick.0 < pick.1 < features.len());
    }
    assert forall|q: int, i: int|
        #![trigger triples[q].members@[i]]
        0 <= q < triples.len() && 0 <= i < triples[q].members@.len() implies features.contains(
        triples[q].members@[i],
    ) by {
        let pick = triple_list[kept_indices(of_triples)[q] as int];
        assert(pick.0 < pick.1 < pick.2 < features.len());
    }
}

/// A label is in one class at most, and a whole-number one in the class of its
/// number.
pub proof fn law_labels_are_in_one_class(label: Num, k: int, l: int, c: int)
    requires
        0 <= c <= usize::MAX,
    ensures
        in_class(label, k) && in_class(label, l) ==> k == l,
        label.finite() && label.scaled() == c * vstd::arithmetic::power2::pow2(1074) ==> (in_class(label, k) <==> k
            == c),
        !label.finite() || label.below(Num { bits: 0 }) ==> !in_class(label, k),
{
    if label.finite() && label.scaled() == c * vstd::arithmetic::power2::pow2(1074) {
        crate::num::law_rounding_is_to_the_nearest(label);
        vstd::arithmetic::power2::lemma_pow2_pos(1074);
        let u = vstd::arithmetic::power2::pow2(1074) as int;
        let r = label.rounded();
        assert(r == c) by (nonlinear_arith)
            requires
                u > 0,
                (2 * r - 1) * u <= 2 * (c * u) <= (2 * r + 1) * u,
                (2 * r - 1) * u < 2 * (c * u) || 2 * (c * u) < (2 * r + 1) * u,
        ;
        crate::num::law_key_orders_values(Num { bits: 0 }, label);
        assert(crate::num::scaled_magnitude(0) == 0);
        assert(c * u >= 0) by (nonlinear_arith)
            requires
                u > 0,
                c >= 0,
        ;
    }
}

/// A tuple gets a table only where its values form two groups or more, with five
/// rows each on the mean and as many as are asked for; and wherever they do.
pub proof fn law_tables_need_filled_groups(keys: Seq<i64>, min_count: int)
    ensures
        groups_admitted(keys, min_count) ==> group_count(keys) >= 2 && keys.len() >= 5 * group_count(keys) && keys.len()
            >= min_count * group_count(keys),
        group_count(keys) >= 2 && keys.len() >= 5 * group_count(keys) && keys.len() >= min_count * group_count(keys)
            ==> groups_admitted(keys, min_count),
{
    let g = group_count(keys) as int;
    assert(min_count <= 5 ==> min_count * g <= 5 * g) by (nonlinear_arith)
        requires
            g >= 0,
    ;
    assert(min_count > 5 ==> min_count * g >= 5 * g) by (nonlinear_arith)
        requires
            g >= 0,
    ;
    assert(g * min_count == min_count * g && g * 5 == 5 * g) by (nonlinear_arith);
}

/// A feature is scored exactly where it is categorical and its values tell rows
/// apart; with several classes it need not.
pub proof fn law_scored_features_tell_rows_apart(
    x: Seq<Num>,
    n_rows: nat,
    n_features: nat,
    cat: Seq<bool>,
    task: Task,
    f: usize,
    a: int,
    b: int,
)
    requires
        n_features <= usize::MAX,
        n_rows <= usize::MAX,
        f < n_features,
        0 <= a < n_rows,
        0 <= b < n_rows,
    ensures
        ({
            let scored = kept_indices(scored_features(x, n_rows, n_features, cat, task)).contains(f);
            let marked = f < cat.len() && cat[f as int];
            let told = crate::hashing::single_key(x[a * n_features + f]) != crate::hashing::single_key(
                x[b * n_features + f],
            );
            &&& scored ==> marked
            &&& marked && told ==> scored
            &&& marked && task == Task::Multiclass ==> scored
        }),
{
    let flags = scored_features(x, n_rows, n_features, cat, task);
    crate::select::law_kept_are_those_marked(flags, f);
    let keys = single_keys(x, n_rows, n_features as int, f as int);
    let list = row_list(keys.len());
    crate::groups::lemma_distinct_keys(keys, list);
    if keys[a] != keys[b] {
        let ds = distinct_keys(keys, list);
        assert(list[a] == a && list[b] == b);
        assert(ds.contains(keys[list[a] as int]) && ds.contains(keys[list[b] as int]));
        let p = choose|p: int| 0 <= p < ds.len() && ds[p] == keys[a];
        let q = choose|q: int| 0 <= q < ds.len() && ds[q] == keys[b];
        assert(p != q);
        assert(group_count(keys) >= 2);
    }
}

/// Rows that agree in a tuple's categories have the same key, and rows that differ in just
/// one of them have different keys.
pub proof fn law_keys_tell_tuples_apart(x: Seq<Num>, n_rows: nat, n_features: int, a: int, b: int, c: int, r: int, s: int)
    requires
        0 <= r < n_rows,
        0 <= s < n_rows,
    ensures
        ({
            let same_a = crate::hashing::single_key(x[r * n_features + a]) == crate::hashing::single_key(
                x[s * n_features + a],
            );
            let same_b = crate::hashing::single_key(x[r * n_features + b]) == crate::hashing::single_key(
                x[s * n_features + b],
            );
            let same_c = crate::hashing::single_key(x[r * n_features + c]) == crate::hashing::single_key(
                x[s * n_features + c],
            );
            let pairs = pair_keys_of(x, n_rows, n_features, a, b);
            let triples = triple_keys_of(x, n_rows, n_features, a, b, c);
            &&& single_keys(x, n_rows, n_features, a)[r] == single_keys(x, n_rows, n_features, a)[s] <==> same_a
            &&& same_a ==> (pairs[r] == pairs[s] <==> same_b)
            &&& same_b ==> (pairs[r] == pairs[s] <==> same_a)
            &&& same_a && same_b ==> (triples[r] == triples[s] <==> same_c)
            &&& same_a && same_c ==> (triples[r] == triples[s] <==> same_b)
            &&& same_b && same_c ==> (triples[r] == triples[s] <==> same_a)
        }),
{
    let ra = crate::hashing::single_key(x[r * n_features + a]);
    let rb = crate::hashing::single_key(x[r * n_features + b]);
    let rc = crate::hashing::single_key(x[r * n_features + c]);
    let sa = crate::hashing::single_key(x[s * n_features + a]);
    let sb = crate::hashing::single_key(x[s * n_features + b]);
    let sc = crate::hashing::single_key(x[s * n_features + c]);
    if ra == sa && rb != sb {
        crate::hashing::law_pair_keys_tell_categories_apart(ra, rb, sb, rc);
    }
    if ra != sa && rb == sb {
        crate::hashing::law_pair_keys_tell_categories_apart(rb, ra, sa, rc);
    }
    if ra == sa && rb == sb && rc != sc {
        crate::hashing::law_pair_keys_tell_categories_apart(ra, rc, sc, rb);
    }
}

/// A pair of chosen features is scored exactly where its groups are filled, and so is a
/// triple; a candidate holds the features it was made of.
pub proof fn law_candidates_are_of_chosen_features(
    x: Seq<Num>,
    n_rows: nat,
    n_features: int,
    features: Seq<usize>,
    min_count: int,
    pairs: Seq<(usize, usize)>,
    triples: Seq<(usize, usize, usize)>,
    p: usize,
)
    requires
        pairs.len() <= usize::MAX,
        triples.len() <= usize::MAX,
    ensures
        kept_indices(scored_pairs(x, n_rows, n_features, features, min_count, pairs)).contains(p) <==> p < pairs.len()
            && groups_admitted(
            Seq::new(
                n_rows,
                |row: int|
                    crate::hashing::pair_key(
                        crate::hashing::single_key(x[row * n_features + features[pairs[p as int].0 as int]]),
                        crate::hashing::single_key(x[row * n_features + features[pairs[p as int].1 as int]]),
                    ),
            ),
            min_count,
        ),
        kept_indices(scored_triples(x, n_rows, n_features, features, min_count, triples)).contains(p) <==> p
            < triples.len() && groups_admitted(
            Seq::new(
                n_rows,
                |row: int|
                    crate::hashing::triple_key(
                        crate::hashing::single_key(x[row * n_features + features[triples[p as int].0 as int]]),
                        crate::hashing::single_key(x[row * n_features + features[triples[p as int].1 as int]]),
                        crate::hashing::single_key(x[row * n_features + features[triples[p as int].2 as int]]),
                    ),
            ),
            min_count,
        ),
{
    crate::select::law_kept_are_those_marked(scored_pairs(x, n_rows, n_features, features, min_count, pairs), p);
    crate::select::law_kept_are_those_marked(scored_triples(x, n_rows, n_features, features, min_count, triples), p);
    if p < pairs.len() {
        let f = features[pairs[p as int].0 as int];
        let g = features[pairs[p as int].1 as int];
        assert(pair_keys_of(x, n_rows, n_features, f as int, g as int) =~= Seq::new(
            n_rows,
            |row: int|
                crate::hashing::pair_key(
                    crate::hashing::single_key(x[row * n_features + features[pairs[p as int].0 as int]]),
                    crate::hashing::single_key(x[row * n_features + features[pairs[p as int].1 as int]]),
                ),
        ));
    }
    if p < triples.len() {
        let f = features[triples[p as int].0 as int];
        let g = features[triples[p as int].1 as int];
        let h = features[triples[p as int].2 as int];
        assert(triple_keys_of(x, n_rows, n_features, f as int, g as int, h as int) =~= Seq::new(
            n_rows,
            |row: int|
                crate::hashing::triple_key(
                    crate::hashing::single_key(x[row * n_features + features[triples[p as int].0 as int]]),
                    crate::hashing::single_key(x[row * n_features + features[triples[p as int].1 as int]]),
                    crate::hashing::single_key(x[row * n_features + features[triples[p as int].2 as int]]),
                ),
        ));
    }
}

/// A candidate holds the features and the keys it was made of, with the rows of every key.
pub proof fn law_candidates_hold_their_keys(c: CtrCandidate, members: Seq<usize>, keys: Seq<i64>, row: usize)
    requires
        c.holds(members, keys),
        row < keys.len() <= usize::MAX,
    ensures
        c.members@ == members,
        c.keys@ == keys,
        c.groups.keys@.contains(keys[row as int]),
        c.groups.group_of@.len() == keys.len(),
{
    crate::groups::lemma_distinct_keys(keys, row_list(keys.len()));
    assert(row_list(keys.len())[row as int] == row);
}

} // verus!
