//! What the evidence tables hold for later rows, and which columns those get.

use crate::evidence::{
    all_tuple_columns, arity_columns, class_columns, evidence_columns, has_arity, keyed_rows, looked_up, EvidenceGroups,
};
use crate::groups::KeyGroups;
use crate::hashing::{tuple_hash, tuple_key, MISSING_KEY};
use crate::num::Num;
use crate::select::{at_most, lemma_kept_indices};
use std::collections::HashMap;
use vstd::prelude::*;

verus! {

broadcast use vstd::std_specs::hash::group_hash_axioms;

/// `index` gives the place of each listed key, and of no other.
pub open spec fn is_index(index: Map<i64, usize>, keys: Seq<i64>) -> bool {
    &&& forall|k: i64| #[trigger] index.contains_key(k) <==> keys.contains(k)
    &&& forall|k: i64| #[trigger] index.contains_key(k) ==> index[k] < keys.len() && keys[index[k] as int] == k
}

/// The places of the keys of groups.
pub fn index_of_groups(groups: &KeyGroups) -> (index: HashMap<i64, usize>)
    ensures
        is_index(index@, groups.keys@),
{
    let mut index: HashMap<i64, usize> = HashMap::new();
    let mut g: usize = 0;
    while g < groups.keys.len()
        invariant
            g <= groups.keys@.len(),
            is_index(index@, groups.keys@.take(g as int)),
        decreases groups.keys@.len() - g,
    {
        let key: i64 = groups.keys[g];
        let before = Ghost(groups.keys@.take(g as int));
        let map = Ghost(index@);
        index.insert(key, g);
        proof {
            let now = groups.keys@.take(g + 1);
            assert forall|k: i64| #[trigger] index@.contains_key(k) <==> now.contains(k) by {
                if now.contains(k) {
                    let p = choose|p: int| 0 <= p < now.len() && now[p] == k;
                    if p < g {
                        assert(before@[p] == k);
                    }
                }
                if map@.contains_key(k) {
                    let p = choose|p: int| 0 <= p < before@.len() && before@[p] == k;
                    assert(now[p] == k);
                }
                assert(now[g as int] == key);
            }
            assert forall|k: i64| #[trigger] index@.contains_key(k) implies index@[k] < now.len() && now[index@[k] as int]
                == k by {
                if k != key {
                    assert(map@.contains_key(k));
                    assert(before@[map@[k] as int] == k);
                }
            }
        }
        g = g + 1;
    }
    assert(groups.keys@.take(groups.keys@.len() as int) =~= groups.keys@);
    index
}

proof fn lemma_hash_of_cells(x: Seq<Num>, base: int, y: Seq<Num>, at: int, feats: Seq<usize>, n: nat)
    requires
        n <= feats.len(),
        forall|j: int| 0 <= j < feats.len() ==> x[base + #[trigger] feats[j]] == y[at + feats[j]],
    ensures
        tuple_hash(x, base, feats, n) == tuple_hash(y, at, feats, n),
    decreases n,
{
    if n > 0 {
        lemma_hash_of_cells(x, base, y, at, feats, (n - 1) as nat);
        assert(x[base + feats[n - 1]] == y[at + feats[n - 1]]);
    }
}

/// Rows with the same values in the features of a tuple have the same key.
pub proof fn law_key_rests_on_values(x: Seq<Num>, base: int, y: Seq<Num>, at: int, feats: Seq<usize>)
    requires
        forall|j: int| 0 <= j < feats.len() ==> x[base + #[trigger] feats[j]] == y[at + feats[j]],
    ensures
        tuple_key(x, base, feats) == tuple_key(y, at, feats),
{
    lemma_hash_of_cells(x, base, y, at, feats, feats.len());
    if exists|i: int| 0 <= i < feats.len() && !(#[trigger] x[base + feats[i]]).finite() {
        let i = choose|i: int| 0 <= i < feats.len() && !(#[trigger] x[base + feats[i]]).finite();
        assert(x[base + feats[i]] == y[at + feats[i]]);
        assert(!y[at + feats[i]].finite());
    } else {
        assert forall|i: int| 0 <= i < feats.len() implies (#[trigger] y[at + feats[i]]).finite() by {
            assert(x[base + feats[i]] == y[at + feats[i]]);
            assert(x[base + feats[i]].finite());
        }
    }
}

/// A later row with a training row's values in the features of a tuple finds
/// the group of that row in the tuple's table, and none where the training row
/// has none. This holds of both sets of tables, which share the tuples.
pub proof fn law_later_rows_find_their_group(
    tuple: Seq<usize>,
    n_features: int,
    x: Seq<Num>,
    keys: Seq<i64>,
    row: int,
    fold_of: Seq<usize>,
    n_folds: int,
    groups: EvidenceGroups,
    index: Map<i64, usize>,
    later: Seq<Num>,
    later_keys: Seq<i64>,
    at: int,
)
    requires
        keys.len() <= usize::MAX,
        forall|r: int| 0 <= r < keys.len() ==> #[trigger] keys[r] == tuple_key(x, r * n_features, tuple),
        forall|r: int|
            0 <= r < later_keys.len() ==> #[trigger] later_keys[r] == tuple_key(later, r * n_features, tuple),
        groups.counts(keys, fold_of, n_folds),
        is_index(index, groups.groups.keys@),
        0 <= row < keys.len(),
        0 <= at < later_keys.len(),
        forall|j: int|
            0 <= j < tuple.len() ==> x[row * n_features + #[trigger] tuple[j]] == later[at * n_features + tuple[j]],
    ensures
        keys[row] == MISSING_KEY ==> looked_up(index, later_keys)[at] is None,
        keys[row] != MISSING_KEY ==> exists|p: int|
            0 <= p < groups.rows@.len() && #[trigger] groups.rows@[p] == row && looked_up(index, later_keys)[at] == Some(
                groups.groups.group_of@[p],
            ),
{
    law_key_rests_on_values(x, row * n_features, later, at * n_features, tuple);
    assert(later_keys[at] == keys[row]);
    if keys[row] != MISSING_KEY {
        let list = keyed_rows(keys);
        lemma_kept_indices(crate::evidence::keyed(keys));
        assert(crate::evidence::keyed(keys)[row]);
        assert(list.contains(row as usize));
        let p = choose|p: int| 0 <= p < list.len() && list[p] == row;
        crate::groups::lemma_distinct_keys(keys, list);
        let g = groups.groups.group_of@[p];
        assert(g < groups.groups.keys@.len() && groups.groups.keys@[g as int] == keys[row]);
        assert(groups.groups.keys@.contains(keys[row]));
        assert(index.contains_key(keys[row]));
        assert(index[keys[row]] == g);
        assert(groups.rows@[p] == row);
    }
}

/// The arities of tuples.
pub open spec fn arities_of(tuples: Seq<Seq<usize>>) -> Seq<usize> {
    Seq::new(tuples.len(), |t: int| tuples[t].len() as usize)
}

/// The number of arity classes that tuples are of, among the first `a`.
pub open spec fn classes_present(arities: Seq<usize>, a: nat) -> nat
    decreases a,
{
    if a == 0 {
        0
    } else {
        classes_present(arities, (a - 1) as nat) + (if has_arity(arities, a - 1) {
            1nat
        } else {
            0
        })
    }
}

pub open spec fn one_if(b: bool) -> nat {
    if b {
        1
    } else {
        0
    }
}

proof fn lemma_tuple_column_count(t: nat, dual: bool, counter: bool)
    ensures
        all_tuple_columns(t, dual, counter).len() == t * (1 + one_if(dual) + one_if(counter)),
    decreases t,
{
    let each: int = (1 + one_if(dual) + one_if(counter)) as int;
    if t > 0 {
        lemma_tuple_column_count((t - 1) as nat, dual, counter);
        assert((t - 1) * each + each == t * each) by (nonlinear_arith);
    } else {
        assert(0 * each == 0) by (nonlinear_arith);
    }
}

proof fn lemma_arity_column_count(arities: Seq<usize>, a: nat, with_max: bool)
    ensures
        arity_columns(arities, a, with_max).len() == classes_present(arities, a) * (1 + one_if(with_max)),
    decreases a,
{
    let each: int = (1 + one_if(with_max)) as int;
    if a > 0 {
        lemma_arity_column_count(arities, (a - 1) as nat, with_max);
        let c: int = classes_present(arities, (a - 1) as nat) as int;
        assert(c * each + each == (c + 1) * each) by (nonlinear_arith);
    } else {
        assert(0 * each == 0) by (nonlinear_arith);
    }
}

proof fn lemma_class_column_count(k: nat, with_max: bool)
    ensures
        class_columns(k, with_max).len() == k * (1 + one_if(with_max)),
    decreases k,
{
    let each: int = (1 + one_if(with_max)) as int;
    if k > 0 {
        lemma_class_column_count((k - 1) as nat, with_max);
        assert((k - 1) * each + each == k * each) by (nonlinear_arith);
    } else {
        assert(0 * each == 0) by (nonlinear_arith);
    }
}

/// The number of evidence columns follows from the stored tuples, the outputs
/// and the settings, and so is the same for training rows and for later rows.
pub proof fn law_evidence_column_count(
    tuples: Seq<Seq<usize>>,
    n_out: nat,
    dual: bool,
    counter: bool,
    with_max: bool,
)
    ensures
        evidence_columns(arities_of(tuples), n_out as int, dual, counter, with_max).len() == if n_out == 1 {
            tuples.len() * (1 + one_if(dual) + one_if(counter)) + 1 + classes_present(arities_of(tuples), 3) * (1
                + one_if(with_max))
        } else {
            n_out * (1 + one_if(with_max))
        },
{
    lemma_tuple_column_count(tuples.len(), dual, counter);
    lemma_arity_column_count(arities_of(tuples), 3, with_max);
    lemma_class_column_count(n_out, with_max);
}

/// A column of residual evidence.
#[derive(Clone, Copy, PartialEq, Eq, Structural, Debug)]
pub enum ResidualColumn {
    /// The lift of a tuple.
    Lift(usize),
    /// The evidence of all tuples together.
    Total,
}

/// The residual columns in order: one for each tuple with a table, and their
/// total.
pub open spec fn residual_columns(n_tuples: int, n_tables: int) -> Seq<ResidualColumn> {
    Seq::new(at_most(n_tuples, n_tables) as nat, |t: int| ResidualColumn::Lift(t as usize)).push(ResidualColumn::Total)
}

/// The residual columns of training rows and of later rows.
pub fn residual_column_list(n_tuples: usize, n_tables: usize) -> (cols: Vec<ResidualColumn>)
    ensures
        cols@ == residual_columns(n_tuples as int, n_tables as int),
{
    let mut cols: Vec<ResidualColumn> = Vec::new();
    let mut t: usize = 0;
    while t < n_tuples && t < n_tables
        invariant
            t <= n_tuples,
            t <= n_tables,
            cols@ == Seq::new(t as nat, |i: int| ResidualColumn::Lift(i as usize)),
        decreases n_tuples - t,
    {
        cols.push(ResidualColumn::Lift(t));
        t = t + 1;
        assert(cols@ =~= Seq::new(t as nat, |i: int| ResidualColumn::Lift(i as usize)));
    }
    cols.push(ResidualColumn::Total);
    assert(cols@ =~= residual_columns(n_tuples as int, n_tables as int));
    cols
}

/// With a residual table for each tuple, as training leaves them, training rows
/// and later rows get a column for each tuple and one more.
pub proof fn law_residual_column_count(n_tuples: nat)
    ensures
        residual_columns(n_tuples as int, n_tuples as int).len() == n_tuples + 1,
        residual_columns(n_tuples as int, n_tuples as int).last() == ResidualColumn::Total,
        forall|t: int|
            0 <= t < n_tuples && t <= usize::MAX ==> #[trigger] residual_columns(n_tuples as int, n_tuples as int)[t]
                == ResidualColumn::Lift(t as usize),
{
}

/// Evidence on residuals has a column for each tuple with a table and one for their sum.
pub proof fn law_residual_columns_need_tables(n_tuples: int, n_tables: int, t: int)
    requires
        0 <= n_tuples <= usize::MAX,
        0 <= n_tables <= usize::MAX,
    ensures
        ({
            let cols = residual_columns(n_tuples, n_tables);
            &&& 0 <= t < n_tuples && t < n_tables ==> cols[t] == ResidualColumn::Lift(t as usize)
            &&& cols.len() <= n_tuples + 1 && cols.len() <= n_tables + 1
            &&& cols.len() == n_tuples + 1 || cols.len() == n_tables + 1
            &&& cols.last() == ResidualColumn::Total
        }),
{
}

} // verus!
