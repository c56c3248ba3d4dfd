//! Target statistics of categories and category tuples: keys, folds, counts
//! and table lookups.

use crate::bits::E_MINUS_6;
use crate::groups::{
    all_rows, distinct_keys, group_rows, lemma_distinct_keys, lemma_rows_with_key, rows_with_key, KeyGroups,
};
use crate::hashing::{
    ctr_pair_key, ctr_single_key, ctr_triple_key, pair_key, single_key, triple_key,
};
use crate::num::{saturate, Num};
use crate::random::{held_words, seeded, shuffle, words_of_seed};
use crate::select::{collect_kept, kept_indices, lemma_kept_indices};
use crate::tally::{count_of, tally};
use rand::rngs::StdRng;
use vstd::multiset::Multiset;
use vstd::prelude::*;
use vstd::seq_lib::{to_multiset_build, to_multiset_contains, to_multiset_len};

verus! {

broadcast use vstd::std_specs::hash::group_hash_axioms;

/// The key of a row's value of one feature, in a row-major matrix.
pub open spec fn cell_key(x: Seq<Num>, n_features: int, row: int, feat: int) -> i64 {
    single_key(x[row * n_features + feat])
}

/// What is needed to read a cell of a row-major matrix.
pub open spec fn matrix_holds(x: Seq<Num>, n_rows: int, n_features: int) -> bool {
    n_rows * n_features <= x.len()
}

/// The key of a cell.
pub fn read_key(x: &Vec<Num>, n_rows: usize, n_features: usize, row: usize, feat: usize) -> (k: i64)
    requires
        matrix_holds(x@, n_rows as int, n_features as int),
        row < n_rows,
        feat < n_features,
    ensures
        k == cell_key(x@, n_features as int, row as int, feat as int),
{
    assert(row * n_features + feat < n_rows * n_features) by (nonlinear_arith)
        requires
            row < n_rows,
            feat < n_features,
    ;
    assert(row * n_features >= 0) by (nonlinear_arith);
    assert(x.len() == x@.len());
    ctr_single_key(&x[row * n_features + feat])
}

/// The keys of one feature.
pub fn feature_keys(x: &Vec<Num>, n_rows: usize, n_features: usize, feat: usize) -> (keys: Vec<i64>)
    requires
        matrix_holds(x@, n_rows as int, n_features as int),
        feat < n_features,
    ensures
        keys@ == Seq::new(n_rows as nat, |row: int| cell_key(x@, n_features as int, row, feat as int)),
{
    let mut keys: Vec<i64> = Vec::new();
    let mut row: usize = 0;
    while row < n_rows
        invariant
            row <= n_rows,
            matrix_holds(x@, n_rows as int, n_features as int),
            feat < n_features,
            keys@.len() == row,
            forall|r: int| 0 <= r < row ==> #[trigger] keys@[r] == cell_key(x@, n_features as int, r, feat as int),
        decreases n_rows - row,
    {
        keys.push(read_key(x, n_rows, n_features, row, feat));
        row = row + 1;
    }
    assert(keys@ =~= Seq::new(n_rows as nat, |row: int| cell_key(x@, n_features as int, row, feat as int)));
    keys
}

/// The keys of a pair of features.
pub fn feature_pair_keys(x: &Vec<Num>, n_rows: usize, n_features: usize, fi: usize, fj: usize) -> (keys: Vec<i64>)
    requires
        matrix_holds(x@, n_rows as int, n_features as int),
        fi < n_features,
        fj < n_features,
    ensures
        keys@.len() == n_rows,
        forall|r: int|
            0 <= r < n_rows ==> #[trigger] keys@[r] == pair_key(
                cell_key(x@, n_features as int, r, fi as int),
                cell_key(x@, n_features as int, r, fj as int),
            ),
{
    let mut keys: Vec<i64> = Vec::new();
    let mut row: usize = 0;
    while row < n_rows
        invariant
            row <= n_rows,
            matrix_holds(x@, n_rows as int, n_features as int),
            fi < n_features,
            fj < n_features,
            keys@.len() == row,
            forall|r: int|
                0 <= r < row ==> #[trigger] keys@[r] == pair_key(
                    cell_key(x@, n_features as int, r, fi as int),
                    cell_key(x@, n_features as int, r, fj as int),
                ),
        decreases n_rows - row,
    {
        let a: i64 = read_key(x, n_rows, n_features, row, fi);
        let b: i64 = read_key(x, n_rows, n_features, row, fj);
        keys.push(ctr_pair_key(a, b));
        row = row + 1;
    }
    keys
}

/// The keys of a triple of features.
pub fn feature_triple_keys(
    x: &Vec<Num>,
    n_rows: usize,
    n_features: usize,
    fa: usize,
    fb: usize,
    fc: usize,
) -> (keys: Vec<i64>)
    requires
        matrix_holds(x@, n_rows as int, n_features as int),
        fa < n_features,
        fb < n_features,
        fc < n_features,
    ensures
        keys@.len() == n_rows,
        forall|r: int|
            0 <= r < n_rows ==> #[trigger] keys@[r] == triple_key(
                cell_key(x@, n_features as int, r, fa as int),
                cell_key(x@, n_features as int, r, fb as int),
                cell_key(x@, n_features as int, r, fc as int),
            ),
{
    let mut keys: Vec<i64> = Vec::new();
    let mut row: usize = 0;
    while row < n_rows
        invariant
            row <= n_rows,
            matrix_holds(x@, n_rows as int, n_features as int),
            fa < n_features,
            fb < n_features,
            fc < n_features,
            keys@.len() == row,
            forall|r: int|
                0 <= r < row ==> #[trigger] keys@[r] == triple_key(
                    cell_key(x@, n_features as int, r, fa as int),
                    cell_key(x@, n_features as int, r, fb as int),
                    cell_key(x@, n_features as int, r, fc as int),
                ),
        decreases n_rows - row,
    {
        let a: i64 = read_key(x, n_rows, n_features, row, fa);
        let b: i64 = read_key(x, n_rows, n_features, row, fb);
        let c: i64 = read_key(x, n_rows, n_features, row, fc);
        keys.push(ctr_triple_key(a, b, c));
        row = row + 1;
    }
    keys
}

/// The rows from 0 up to `n` as a list.
pub open spec fn row_list(n: nat) -> Seq<usize> {
    Seq::new(n, |i: int| i as usize)
}

/// All rows grouped by their key.
pub fn ctr_stats(keys: &Vec<i64>) -> (g: KeyGroups)
    ensures
        g.groups(keys@, row_list(keys@.len())),
{
    let rows: Vec<usize> = all_rows(keys.len());
    assert(rows@ =~= row_list(keys@.len()));
    group_rows(keys, &rows)
}

/// The number of rows in the groups of `ks` together.
pub open spec fn rows_of_keys(keys: Seq<i64>, list: Seq<usize>, ks: Seq<i64>) -> nat
    decreases ks.len(),
{
    if ks.len() == 0 {
        0
    } else {
        rows_of_keys(keys, list, ks.drop_last()) + rows_with_key(keys, list, ks.last()).len()
    }
}

proof fn lemma_rows_of_other_keys(keys: Seq<i64>, list: Seq<usize>, ks: Seq<i64>)
    requires
        list.len() > 0,
        !ks.contains(keys[list.last() as int]),
    ensures
        rows_of_keys(keys, list, ks) == rows_of_keys(keys, list.drop_last(), ks),
    decreases ks.len(),
{
    if ks.len() > 0 {
        assert(ks[ks.len() - 1] == ks.last());
        assert(!ks.drop_last().contains(keys[list.last() as int])) by {
            if ks.drop_last().contains(keys[list.last() as int]) {
                let p = choose|p: int|
                    0 <= p < ks.drop_last().len() && ks.drop_last()[p] == keys[list.last() as int];
                assert(ks[p] == keys[list.last() as int]);
            }
        }
        lemma_rows_of_other_keys(keys, list, ks.drop_last());
    }
}

proof fn lemma_rows_of_one_key(keys: Seq<i64>, list: Seq<usize>, ks: Seq<i64>)
    requires
        list.len() > 0,
        ks.no_duplicates(),
        ks.contains(keys[list.last() as int]),
    ensures
        rows_of_keys(keys, list, ks) == rows_of_keys(keys, list.drop_last(), ks) + 1,
    decreases ks.len(),
{
    let k = keys[list.last() as int];
    let p = choose|p: int| 0 <= p < ks.len() && ks[p] == k;
    if p == ks.len() - 1 {
        assert(!ks.drop_last().contains(k)) by {
            if ks.drop_last().contains(k) {
                let q = choose|q: int| 0 <= q < ks.drop_last().len() && ks.drop_last()[q] == k;
                assert(ks[q] == k);
            }
        }
        lemma_rows_of_other_keys(keys, list, ks.drop_last());
    } else {
        assert(ks.drop_last()[p] == k);
        assert(ks[ks.len() - 1] != k);
        lemma_rows_of_one_key(keys, list, ks.drop_last());
    }
}

/// The sizes of all groups add up to the number of grouped rows.
pub proof fn law_group_sizes_add_up(keys: Seq<i64>, list: Seq<usize>)
    ensures
        rows_of_keys(keys, list, distinct_keys(keys, list)) == list.len(),
    decreases list.len(),
{
    if list.len() > 0 {
        let rest = list.drop_last();
        law_group_sizes_add_up(keys, rest);
        lemma_distinct_keys(keys, rest);
        let ks = distinct_keys(keys, rest);
        let k = keys[list.last() as int];
        if ks.contains(k) {
            lemma_rows_of_one_key(keys, list, ks);
        } else {
            lemma_rows_of_other_keys(keys, list, ks);
            assert(ks.push(k).drop_last() =~= ks);
            lemma_one_row(keys, list, ks);
        }
    }
}

proof fn lemma_one_row(keys: Seq<i64>, list: Seq<usize>, ks: Seq<i64>)
    requires
        list.len() > 0,
        ks == distinct_keys(keys, list.drop_last()),
        !ks.contains(keys[list.last() as int]),
    ensures
        rows_with_key(keys, list, keys[list.last() as int]).len() == 1,
{
    let rest = list.drop_last();
    let k = keys[list.last() as int];
    lemma_distinct_keys(keys, rest);
    lemma_rows_with_key(keys, rest, k);
    if rows_with_key(keys, rest, k).len() > 0 {
        let r = rows_with_key(keys, rest, k)[0];
        let q = choose|q: int| 0 <= q < rest.len() && rest[q] == r;
        assert(ks.contains(keys[rest[q] as int]));
    }
}

/// The number of rows in those of the first `n` groups that hold `min_count` rows.
pub open spec fn rows_counted(rows: Seq<Vec<usize>>, min_count: int, n: nat) -> nat
    decreases n,
{
    if n == 0 {
        0
    } else {
        rows_counted(rows, min_count, (n - 1) as nat) + (if rows[n - 1]@.len() >= min_count {
            rows[n - 1]@.len()
        } else {
            0
        })
    }
}

proof fn lemma_rows_counted(g: KeyGroups, keys: Seq<i64>, list: Seq<usize>, min_count: int, n: nat)
    requires
        g.groups(keys, list),
        n <= g.rows@.len(),
    ensures
        rows_counted(g.rows@, min_count, n) <= rows_of_keys(keys, list, g.keys@.take(n as int)),
    decreases n,
{
    if n > 0 {
        lemma_rows_counted(g, keys, list, min_count, (n - 1) as nat);
        assert(g.keys@.take(n as int).drop_last() =~= g.keys@.take(n - 1));
        assert(g.rows@[n - 1]@ == rows_with_key(keys, list, g.keys@[n - 1]));
    }
}

proof fn lemma_rows_of_prefix(keys: Seq<i64>, list: Seq<usize>, ks: Seq<i64>, n: int)
    requires
        0 <= n <= ks.len(),
    ensures
        rows_of_keys(keys, list, ks.take(n)) <= rows_of_keys(keys, list, ks),
    decreases ks.len(),
{
    if n < ks.len() {
        lemma_rows_of_prefix(keys, list, ks.drop_last(), n);
        assert(ks.drop_last().take(n) =~= ks.take(n));
    } else {
        assert(ks.take(n) =~= ks);
    }
}

/// Groups with enough rows to be scored, and the number of rows in them.
pub struct ScoredGroups {
    pub groups: Vec<usize>,
    pub total: usize,
}

/// Which groups hold `min_count` rows.
pub open spec fn large_groups(rows: Seq<Vec<usize>>, min_count: int) -> Seq<bool> {
    Seq::new(rows.len(), |g: int| rows[g]@.len() >= min_count)
}

/// The groups of at least `min_count` rows, among the groups of the rows `list`.
pub fn scored_groups(g: &KeyGroups, min_count: usize, keys: &Vec<i64>, list: &Vec<usize>) -> (r: ScoredGroups)
    requires
        g.groups(keys@, list@),
    ensures
        r.groups@ == kept_indices(large_groups(g.rows@, min_count as int)),
        r.total == rows_counted(g.rows@, min_count as int, g.rows@.len()),
        r.total <= list@.len(),
{
    let mut flags: Vec<bool> = Vec::new();
    let mut total: usize = 0;
    let mut i: usize = 0;
    proof {
        law_group_sizes_add_up(keys@, list@);
    }
    while i < g.rows.len()
        invariant
            i <= g.rows@.len(),
            g.groups(keys@, list@),
            rows_of_keys(keys@, list@, g.keys@) == list@.len(),
            flags@.len() == i,
            forall|k: int| 0 <= k < i ==> #[trigger] flags@[k] == (g.rows@[k]@.len() >= min_count),
            total == rows_counted(g.rows@, min_count as int, i as nat),
            total <= list@.len(),
        decreases g.rows@.len() - i,
    {
        let size: usize = g.rows[i].len();
        proof {
            lemma_rows_counted(*g, keys@, list@, min_count as int, (i + 1) as nat);
            lemma_rows_of_prefix(keys@, list@, g.keys@, i + 1);
            assert(list.len() == list@.len());
        }
        flags.push(size >= min_count);
        if size >= min_count {
            total = total + size;
        }
        i = i + 1;
    }
    assert(flags@ =~= large_groups(g.rows@, min_count as int));
    ScoredGroups { groups: collect_kept(&flags), total }
}

/// Which rows have a class.
pub open spec fn labelled(classes: Seq<Option<usize>>) -> Seq<bool> {
    Seq::new(classes.len(), |row: int| classes[row] is Some)
}

/// The classes of the given rows.
pub open spec fn classes_at(classes: Seq<Option<usize>>, rows: Seq<usize>) -> Seq<usize> {
    Seq::new(rows.len(), |i: int| classes[rows[i] as int]->Some_0)
}

/// The rows with a class grouped by key, and how often each class occurs in
/// each group.
pub struct ClassGroups {
    pub rows: Vec<usize>,
    pub groups: KeyGroups,
    pub counts: Vec<Vec<usize>>,
}

impl ClassGroups {
    /// Counts the classes of group `g`.
    pub open spec fn counts_group(&self, classes: Seq<Option<usize>>, n_classes: int, g: int) -> bool {
        &&& self.counts@[g]@.len() == n_classes
        &&& forall|c: usize|
            c < n_classes ==> self.counts@[g]@[c as int] == #[trigger] count_of(
                classes_at(classes, self.groups.rows@[g]@),
                c,
            )
    }

    pub open spec fn holds(&self, keys: Seq<i64>, classes: Seq<Option<usize>>, n_classes: int) -> bool {
        &&& self.rows@ == kept_indices(labelled(classes))
        &&& self.groups.groups(keys, self.rows@)
        &&& self.counts@.len() == self.groups.rows@.len()
        &&& forall|g: int| 0 <= g < self.counts@.len() ==> #[trigger] self.counts_group(classes, n_classes, g)
    }
}

/// Groups the rows that have a class by their key and counts the classes.
pub fn class_groups(keys: &Vec<i64>, classes: &Vec<Option<usize>>, n_classes: usize) -> (r: ClassGroups)
    requires
        keys@.len() == classes@.len(),
        forall|row: int|
            0 <= row < classes@.len() ==> ((#[trigger] classes@[row]) matches Some(c) ==> c < n_classes),
    ensures
        r.holds(keys@, classes@, n_classes as int),
{
    let mut flags: Vec<bool> = Vec::new();
    let mut row: usize = 0;
    while row < classes.len()
        invariant
            row <= classes@.len(),
            flags@.len() == row,
            forall|k: int| 0 <= k < row ==> #[trigger] flags@[k] == (classes@[k] is Some),
        decreases classes@.len() - row,
    {
        flags.push(classes[row].is_some());
        row = row + 1;
    }
    assert(flags@ =~= labelled(classes@));
    let rows: Vec<usize> = collect_kept(&flags);
    proof {
        assert(flags.len() == flags@.len());
        lemma_kept_indices(labelled(classes@));
    }
    let groups: KeyGroups = group_rows(keys, &rows);
    let mut r: ClassGroups = ClassGroups { rows, groups, counts: Vec::new() };
    let mut g: usize = 0;
    while g < r.groups.rows.len()
        invariant
            g <= r.groups.rows@.len(),
            r.counts@.len() == g,
            r.rows@ == kept_indices(labelled(classes@)),
            r.groups.groups(keys@, r.rows@),
            classes@.len() <= usize::MAX,
            forall|k: int|
                0 <= k < classes@.len() ==> ((#[trigger] classes@[k]) matches Some(c) ==> c < n_classes),
            forall|h: int| 0 <= h < g ==> #[trigger] r.counts_group(classes@, n_classes as int, h),
        decreases r.groups.rows@.len() - g,
    {
        let mut list: Vec<usize> = Vec::new();
        let mut i: usize = 0;
        proof {
            lemma_kept_indices(labelled(classes@));
            lemma_rows_with_key(keys@, r.rows@, r.groups.keys@[g as int]);
        }
        while i < r.groups.rows[g].len()
            invariant
                g < r.groups.rows@.len(),
                i <= r.groups.rows@[g as int]@.len(),
                list@.len() == i,
                r.rows@ == kept_indices(labelled(classes@)),
                r.groups.groups(keys@, r.rows@),
                forall|p: int|
                    0 <= p < r.rows@.len() ==> (#[trigger] r.rows@[p]) < classes@.len() && labelled(
                        classes@,
                    )[r.rows@[p] as int],
                forall|p: int|
                    0 <= p < r.groups.rows@[g as int]@.len() ==> r.rows@.contains(
                        #[trigger] r.groups.rows@[g as int]@[p],
                    ),
                forall|k: int|
                    0 <= k < classes@.len() ==> ((#[trigger] classes@[k]) matches Some(c) ==> c < n_classes),
                forall|k: int|
                    0 <= k < i ==> #[trigger] list@[k] == classes@[r.groups.rows@[g as int]@[k] as int]->Some_0
                        && list@[k] < n_classes,
            decreases r.groups.rows@[g as int]@.len() - i,
        {
            let at: usize = r.groups.rows[g][i];
            assert(r.rows@.contains(at));
            assert(at < classes@.len() && classes@[at as int] is Some);
            match classes[at] {
                Some(c) => {
                    list.push(c);
                },
                None => {
                    assert(false);
                },
            }
            i = i + 1;
        }
        assert(list@ =~= classes_at(classes@, r.groups.rows@[g as int]@));
        let counts: Vec<usize> = tally(&list, n_classes);
        let before = Ghost(r);
        r.counts.push(counts);
        assert forall|h: int| 0 <= h < g + 1 implies #[trigger] r.counts_group(classes@, n_classes as int, h) by {
            if h < g {
                assert(before@.counts_group(classes@, n_classes as int, h));
            }
        }
        g = g + 1;
    }
    r
}

/// The score, or zero where too few rows count for it or it is not finite.
pub open spec fn settled_score(total: int, min_count: int, score: Num) -> Num {
    if total >= 2 * min_count && score.finite() {
        score
    } else {
        Num { bits: 0 }
    }
}

/// The score that stands: zero where the scored rows are fewer than twice the
/// smallest group, or the score is not finite.
pub fn settle_score(total: usize, min_count: usize, score: &Num) -> (r: Num)
    ensures
        r == settled_score(total as int, min_count as int, *score),
{
    if total / 2 >= min_count && score.is_finite() {
        *score
    } else {
        Num { bits: 0 }
    }
}

/// Whether a feature tuple is worth a table: at least two groups, and on
/// average no fewer rows per group than the smallest group that counts, or five.
pub fn tuple_admitted(n_rows: usize, n_groups: usize, min_count: usize) -> (r: bool)
    ensures
        r == (n_groups >= 2 && n_rows >= n_groups * (if min_count > 5 {
            min_count as int
        } else {
            5
        })),
{
    let least: usize = if min_count > 5 { min_count } else { 5 };
    if n_groups < 2 {
        return false;
    }
    proof {
        vstd::arithmetic::div_mod::lemma_fundamental_div_mod(n_rows as int, n_groups as int);
        let q = n_rows as int / n_groups as int;
        if q >= least {
            vstd::arithmetic::mul::lemma_mul_inequality(least as int, q, n_groups as int);
            assert(q * n_groups == n_groups * q) by (nonlinear_arith);
        } else {
            vstd::arithmetic::mul::lemma_mul_inequality(q + 1, least as int, n_groups as int);
            assert((q + 1) * n_groups == n_groups * q + n_groups) by (nonlinear_arith);
        }
        assert(least * n_groups == n_groups * least) by (nonlinear_arith);
    }
    n_rows / n_groups >= least
}

/// The class of a label: its nearest integer, where it is a class and the
/// label is close to it. `distance` is how far the label is from that integer.
pub open spec fn class_of(label: Num, distance: Num, n_classes: int) -> Option<usize> {
    if label.finite() && !label.below(Num { bits: 0 }) && saturate(label.rounded(), 0, usize::MAX as int) < n_classes
        && !(Num { bits: E_MINUS_6 }).below(distance) {
        Some(saturate(label.rounded(), 0, usize::MAX as int) as usize)
    } else {
        None
    }
}

pub fn class_of_label(label: &Num, distance: &Num, n_classes: usize) -> (r: Option<usize>)
    ensures
        r == class_of(*label, *distance, n_classes as int),
{
    let zero: Num = Num { bits: 0 };
    let close: Num = Num { bits: E_MINUS_6 };
    if !label.is_finite() || label.lt(&zero) {
        return None;
    }
    let class: usize = label.round_to_usize();
    if class >= n_classes || close.lt(distance) {
        None
    } else {
        Some(class)
    }
}

/// One more than the highest class among the labels that are finite and not
/// negative, and 1 without such a label.
pub open spec fn label_classes(y: Seq<Num>) -> int
    decreases y.len(),
{
    if y.len() == 0 {
        1
    } else {
        let rest = label_classes(y.drop_last());
        let v = y.last();
        let class = saturate(v.rounded(), 0, usize::MAX as int);
        if v.finite() && !v.below(Num { bits: 0 }) && class + 1 > rest {
            class + 1
        } else {
            rest
        }
    }
}

/// The number of classes that a list of labels spans.
pub fn count_label_classes(y: &Vec<Num>) -> (n: usize)
    requires
        forall|i: int|
            0 <= i < y@.len() && (#[trigger] y@[i]).finite() ==> y@[i].rounded() < usize::MAX,
    ensures
        n == label_classes(y@),
{
    let zero: Num = Num { bits: 0 };
    let mut n: usize = 1;
    let mut i: usize = 0;
    assert(y@.take(0) =~= Seq::empty());
    while i < y.len()
        invariant
            i <= y@.len(),
            zero.bits == 0,
            n == label_classes(y@.take(i as int)),
            forall|k: int| 0 <= k < y@.len() && (#[trigger] y@[k]).finite() ==> y@[k].rounded() < usize::MAX,
        decreases y@.len() - i,
    {
        assert(y@.take(i + 1).drop_last() =~= y@.take(i as int));
        assert(y@.take(i + 1).last() == y@[i as int]);
        let v: Num = y[i];
        if v.is_finite() && !v.lt(&zero) {
            let class: usize = v.round_to_usize();
            if class + 1 > n {
                n = class + 1;
            }
        }
        i = i + 1;
    }
    assert(y@.take(y@.len() as int) =~= y@);
    n
}

/// The features that are flagged as categorical, among the first `n_features`.
pub open spec fn categorical_flags(cat_features: Seq<bool>, n_features: nat) -> Seq<bool> {
    Seq::new(n_features, |f: int| f < cat_features.len() && cat_features[f])
}

pub fn categorical_features(cat_features: &Vec<bool>, n_features: usize) -> (list: Vec<usize>)
    ensures
        list@ == kept_indices(categorical_flags(cat_features@, n_features as nat)),
{
    let mut flags: Vec<bool> = Vec::new();
    let mut f: usize = 0;
    while f < n_features
        invariant
            f <= n_features,
            flags@.len() == f,
            forall|k: int| 0 <= k < f ==> #[trigger] flags@[k] == (k < cat_features@.len() && cat_features@[k]),
        decreases n_features - f,
    {
        flags.push(f < cat_features.len() && cat_features[f]);
        f = f + 1;
    }
    assert(flags@ =~= categorical_flags(cat_features@, n_features as nat));
    collect_kept(&flags)
}

/// The number of cross-fitting folds for `n_rows` rows: five, fewer where
/// there are fewer rows, and two at least.
pub open spec fn fold_count(n_rows: int) -> int {
    if n_rows >= 5 {
        5
    } else if n_rows >= 2 {
        n_rows
    } else {
        2
    }
}

/// The first position of fold `f`.
pub open spec fn fold_start(f: int, n_rows: int) -> int {
    (f * n_rows) / fold_count(n_rows)
}

proof fn lemma_fold_bounds(f: int, n_rows: int)
    requires
        0 <= f < fold_count(n_rows),
        0 <= n_rows,
    ensures
        0 <= fold_start(f, n_rows) <= fold_start(f + 1, n_rows) <= n_rows,
        fold_start(0, n_rows) == 0,
        fold_start(fold_count(n_rows), n_rows) == n_rows,
{
    let c = fold_count(n_rows);
    assert(0 <= f * n_rows <= (f + 1) * n_rows <= c * n_rows) by (nonlinear_arith)
        requires
            0 <= f,
            f + 1 <= c,
            0 <= n_rows,
    ;
    vstd::arithmetic::div_mod::lemma_div_is_ordered(0, f * n_rows, c);
    vstd::arithmetic::div_mod::lemma_div_is_ordered(f * n_rows, (f + 1) * n_rows, c);
    vstd::arithmetic::div_mod::lemma_div_is_ordered((f + 1) * n_rows, c * n_rows, c);
    vstd::arithmetic::div_mod::lemma_div_multiples_vanish(n_rows, c);
}

/// The folds of a row order cover it without overlap: they are consecutive,
/// the first starts at its front and the last ends at its end.
pub proof fn law_folds_cover_order(order: Seq<usize>, f: int)
    requires
        0 <= f < fold_count(order.len() as int),
    ensures
        fold_start(0, order.len() as int) == 0,
        fold_start(f, order.len() as int) <= fold_start(f + 1, order.len() as int),
        fold_start(fold_count(order.len() as int), order.len() as int) == order.len(),
        order.subrange(0, fold_start(f, order.len() as int)) + holdout_of(order, f) == order.subrange(
            0,
            fold_start(f + 1, order.len() as int),
        ),
{
    lemma_fold_bounds(f, order.len() as int);
    assert(order.subrange(0, fold_start(f, order.len() as int)) + holdout_of(order, f) =~= order.subrange(
        0,
        fold_start(f + 1, order.len() as int),
    ));
}

/// The rows of fold `f` of a row order.
pub open spec fn holdout_of(order: Seq<usize>, f: int) -> Seq<usize> {
    order.subrange(fold_start(f, order.len() as int), fold_start(f + 1, order.len() as int))
}

/// One cross-fitting fold: its rows, their groups, and for each of its rows
/// how many rows outside the fold share its key.
pub struct OofFold {
    pub rows: Vec<usize>,
    pub groups: KeyGroups,
    pub counts: Vec<usize>,
}

/// How many rows carry the key of `row`, less those of the fold.
pub open spec fn outside_count(keys: Seq<i64>, holdout: Seq<usize>, row: usize) -> int {
    let k = keys[row as int];
    let all = rows_with_key(keys, row_list(keys.len()), k).len();
    let held = rows_with_key(keys, holdout, k).len();
    if all >= held {
        all - held
    } else {
        0
    }
}

impl OofFold {
    pub open spec fn holds(&self, keys: Seq<i64>, holdout: Seq<usize>) -> bool {
        &&& self.rows@ == holdout
        &&& self.groups.groups(keys, holdout)
        &&& self.counts@.len() == holdout.len()
        &&& forall|p: int|
            0 <= p < holdout.len() ==> #[trigger] self.counts@[p] == outside_count(keys, holdout, holdout[p])
    }
}

/// The cross-fitting folds of a row order.
pub fn oof_folds(keys: &Vec<i64>, full: &KeyGroups, order: &Vec<usize>) -> (folds: Vec<OofFold>)
    requires
        full.groups(keys@, row_list(keys@.len())),
        order@.len() == keys@.len(),
        5 * keys@.len() <= usize::MAX,
        forall|i: int| 0 <= i < order@.len() ==> #[trigger] order@[i] < keys@.len(),
    ensures
        folds@.len() == fold_count(order@.len() as int),
        forall|f: int| 0 <= f < folds@.len() ==> (#[trigger] folds@[f]).holds(keys@, holdout_of(order@, f)),
{
    let n: usize = order.len();
    let count: usize = if n >= 5 {
        5
    } else if n >= 2 {
        n
    } else {
        2
    };
    let mut folds: Vec<OofFold> = Vec::new();
    let mut f: usize = 0;
    while f < count
        invariant
            f <= count,
            n == order@.len(),
            n == keys@.len(),
            5 * n <= usize::MAX,
            count == fold_count(n as int),
            full.groups(keys@, row_list(keys@.len())),
            forall|i: int| 0 <= i < order@.len() ==> #[trigger] order@[i] < keys@.len(),
            folds@.len() == f,
            forall|g: int| 0 <= g < f ==> (#[trigger] folds@[g]).holds(keys@, holdout_of(order@, g)),
        decreases count - f,
    {
        proof {
            lemma_fold_bounds(f as int, n as int);
            assert(f * n <= 5 * n && (f + 1) * n <= 5 * n) by (nonlinear_arith)
                requires
                    f + 1 <= 5,
                    0 <= n,
            ;
        }
        let start: usize = f * n / count;
        let end: usize = (f + 1) * n / count;
        let mut rows: Vec<usize> = Vec::new();
        let mut p: usize = start;
        while p < end
            invariant
                start <= p <= end <= n,
                n == order@.len(),
                rows@ == order@.subrange(start as int, p as int),
            decreases end - p,
        {
            rows.push(order[p]);
            p = p + 1;
            assert(rows@ =~= order@.subrange(start as int, p as int));
        }
        let groups: KeyGroups = group_rows(keys, &rows);
        let mut counts: Vec<usize> = Vec::new();
        let mut i: usize = 0;
        while i < rows.len()
            invariant
                i <= rows@.len(),
                n == keys@.len(),
                rows@ == holdout_of(order@, f as int),
                full.groups(keys@, row_list(keys@.len())),
                groups.groups(keys@, rows@),
                forall|k: int| 0 <= k < rows@.len() ==> #[trigger] rows@[k] < keys@.len(),
                counts@.len() == i,
                forall|k: int| 0 <= k < i ==> #[trigger] counts@[k] == outside_count(keys@, rows@, rows@[k]),
            decreases rows@.len() - i,
        {
            let row: usize = rows[i];
            assert(row_list(keys@.len())[row as int] == row);
            let a: usize = full.group_of[row];
            let b: usize = groups.group_of[i];
            assert(full.keys@[full.group_of@[row as int] as int] == keys@[row as int]);
            assert(groups.keys@[groups.group_of@[i as int] as int] == keys@[row as int]);
            let all: usize = full.rows[a].len();
            let held: usize = groups.rows[b].len();
            assert(full.rows@[a as int]@ == rows_with_key(keys@, row_list(keys@.len()), keys@[row as int]));
            assert(groups.rows@[b as int]@ == rows_with_key(keys@, rows@, keys@[row as int]));
            counts.push(if all >= held { all - held } else { 0 });
            i = i + 1;
        }
        folds.push(OofFold { rows, groups, counts });
        f = f + 1;
    }
    folds
}

/// The rows of a list with key `k`, as a multiset.
proof fn lemma_rows_multiset(keys: Seq<i64>, list: Seq<usize>, k: i64)
    ensures
        rows_with_key(keys, list, k).to_multiset() == list.to_multiset().filter(|r: usize| keys[r as int] == k),
    decreases list.len(),
{
    broadcast use vstd::multiset::group_multiset_axioms;

    let p = |r: usize| keys[r as int] == k;
    if list.len() > 0 {
        let rest = list.drop_last();
        lemma_rows_multiset(keys, rest, k);
        to_multiset_build(rest, list.last());
        assert(rest.push(list.last()) =~= list);
        to_multiset_build(rows_with_key(keys, rest, k), list.last());
        assert(rows_with_key(keys, list, k).to_multiset() =~= list.to_multiset().filter(p));
    } else {
        assert(list =~= Seq::empty());
        to_multiset_len(list);
        assert(rows_with_key(keys, list, k).to_multiset() =~= list.to_multiset().filter(p));
    }
}

proof fn lemma_rows_concat(keys: Seq<i64>, a: Seq<usize>, b: Seq<usize>, k: i64)
    ensures
        rows_with_key(keys, a + b, k) == rows_with_key(keys, a, k) + rows_with_key(keys, b, k),
    decreases b.len(),
{
    if b.len() == 0 {
        assert(a + b =~= a);
        assert(rows_with_key(keys, a, k) + rows_with_key(keys, b, k) =~= rows_with_key(keys, a, k));
    } else {
        lemma_rows_concat(keys, a, b.drop_last(), k);
        assert((a + b).drop_last() =~= a + b.drop_last());
        assert((a + b).last() == b.last());
        assert(rows_with_key(keys, a + b, k) =~= rows_with_key(keys, a, k) + rows_with_key(keys, b, k));
    }
}

/// Cross-fitting leaves a row's own fold out: where the order is a
/// rearrangement of all rows, the count of a row of fold `f` is the number of
/// rows of the other folds that share its key.
pub proof fn law_oof_excludes_fold(keys: Seq<i64>, order: Seq<usize>, f: int, row: usize)
    requires
        0 <= f < fold_count(order.len() as int),
        order.len() == keys.len(),
        order.to_multiset() == row_list(keys.len()).to_multiset(),
    ensures
        ({
            let n = order.len() as int;
            let others = order.subrange(0, fold_start(f, n)) + order.subrange(fold_start(f + 1, n), n);
            outside_count(keys, holdout_of(order, f), row) == rows_with_key(keys, others, keys[row as int]).len()
        }),
{
    let n = order.len() as int;
    let k = keys[row as int];
    lemma_fold_bounds(f, n);
    let a = order.subrange(0, fold_start(f, n));
    let h = holdout_of(order, f);
    let b = order.subrange(fold_start(f + 1, n), n);
    assert(a + h + b =~= order);
    lemma_rows_concat(keys, a + h, b, k);
    lemma_rows_concat(keys, a, h, k);
    lemma_rows_concat(keys, a, b, k);
    lemma_rows_multiset(keys, order, k);
    lemma_rows_multiset(keys, row_list(keys.len()), k);
    to_multiset_len(rows_with_key(keys, order, k));
    to_multiset_len(rows_with_key(keys, row_list(keys.len()), k));
}

/// A random order of the rows.
pub fn shuffled_rows(rng: &mut StdRng, n: usize) -> (order: Vec<usize>)
    ensures
        order@.to_multiset() == row_list(n as nat).to_multiset(),
        order@.len() == n,
        forall|i: int| 0 <= i < order@.len() ==> #[trigger] order@[i] < n,
{
    let mut order: Vec<usize> = all_rows(n);
    assert(order@ =~= row_list(n as nat));
    shuffle(rng, &mut order);
    proof {
        to_multiset_len(order@);
        to_multiset_len(row_list(n as nat));
        assert forall|i: int| 0 <= i < order@.len() implies #[trigger] order@[i] < n by {
            to_multiset_contains(order@, order@[i]);
            to_multiset_contains(row_list(n as nat), order@[i]);
            assert(order@.contains(order@[i]));
            let p = choose|p: int| 0 <= p < n && row_list(n as nat)[p] == order@[i];
            assert(row_list(n as nat)[p] == p);
        }
    }
    order
}

/// The seed of the cross-fitting orders.
pub fn ctr_seed(seed: u64) -> (r: u64)
    ensures
        r == seed ^ 0xC7A5_CE57,
{
    seed ^ 0xC7A5_CE57
}

/// The generator of the cross-fitting orders.
pub fn ctr_rng(seed: u64) -> (rng: StdRng)
    ensures
        held_words(rng) == words_of_seed(seed ^ 0xC7A5_CE57),
{
    seeded(ctr_seed(seed))
}

/// The sum of the labels of listed rows.
pub open spec fn label_sum(rows: Seq<usize>, labels: Seq<int>) -> int
    decreases rows.len(),
{
    if rows.len() == 0 {
        0
    } else {
        label_sum(rows.drop_last(), labels) + labels[rows.last() as int]
    }
}

/// The sum of the labels that the encoding of a row of a fold is made of: those
/// of all rows with its key, less those of its fold.
pub open spec fn outside_sum(keys: Seq<i64>, holdout: Seq<usize>, row: usize, labels: Seq<int>) -> int {
    let k = keys[row as int];
    label_sum(rows_with_key(keys, row_list(keys.len()), k), labels) - label_sum(
        rows_with_key(keys, holdout, k),
        labels,
    )
}

proof fn lemma_counted_once(list: Seq<usize>, row: usize)
    requires
        list.no_duplicates(),
    ensures
        count_of(list, row) == (if list.contains(row) {
            1nat
        } else {
            0
        }),
    decreases list.len(),
{
    if list.len() > 0 {
        let rest = list.drop_last();
        lemma_counted_once(rest, row);
        if rest.contains(row) {
            let p = choose|p: int| 0 <= p < rest.len() && rest[p] == row;
            assert(list[p] == row);
        }
        if list.contains(row) && list.last() != row {
            let p = choose|p: int| 0 <= p < list.len() && list[p] == row;
            assert(rest[p] == row);
        }
    }
}

proof fn lemma_key_rows_counted(keys: Seq<i64>, list: Seq<usize>, row: usize)
    ensures
        count_of(rows_with_key(keys, list, keys[row as int]), row) == count_of(list, row),
    decreases list.len(),
{
    if list.len() > 0 {
        let k = keys[row as int];
        lemma_key_rows_counted(keys, list.drop_last(), row);
        let rest = rows_with_key(keys, list.drop_last(), k);
        assert(rest.push(list.last()).drop_last() =~= rest);
    }
}

proof fn lemma_labels_differ(rows: Seq<usize>, a: Seq<int>, b: Seq<int>, n: int, row: usize)
    requires
        forall|i: int| 0 <= i < rows.len() ==> #[trigger] rows[i] < n,
        forall|r: int| 0 <= r < n && r != row ==> a[r] == #[trigger] b[r],
        count_of(rows, row) <= 1,
    ensures
        label_sum(rows, a) - label_sum(rows, b) == (if count_of(rows, row) == 1 {
            a[row as int] - b[row as int]
        } else {
            0
        }),
    decreases rows.len(),
{
    if rows.len() > 0 {
        let rest = rows.drop_last();
        assert forall|i: int| 0 <= i < rest.len() implies #[trigger] rest[i] < n by {
            assert(rest[i] == rows[i]);
        }
        lemma_labels_differ(rest, a, b, n, row);
        assert(rows[rows.len() - 1] < n);
        if rows.last() != row {
            assert(a[rows.last() as int] == b[rows.last() as int]);
        }
    }
}

proof fn lemma_key_rows_below(keys: Seq<i64>, list: Seq<usize>, k: i64, n: int)
    requires
        forall|i: int| 0 <= i < list.len() ==> #[trigger] list[i] < n,
    ensures
        forall|i: int|
            0 <= i < rows_with_key(keys, list, k).len() ==> #[trigger] rows_with_key(keys, list, k)[i] < n,
{
    let rows = rows_with_key(keys, list, k);
    crate::groups::lemma_rows_with_key(keys, list, k);
    assert forall|i: int| 0 <= i < rows.len() implies #[trigger] rows[i] < n by {
        assert(list.contains(rows[i]));
        let p = choose|p: int| 0 <= p < list.len() && list[p] == rows[i];
        assert(list[p] < n);
    }
}

/// The exact values of labels, each a whole number of the same small unit.
pub open spec fn exact_labels(y: Seq<Num>) -> Seq<int> {
    Seq::new(y.len(), |row: int| y[row].scaled())
}

/// A row's own label stays out of its encoding: two lists of labels that differ
/// at a row alone give the same sum for its encoding, where the labels are
/// summed up without rounding. Its count rests on no label at all, and is lower
/// than that of all rows with its key.
pub proof fn law_own_label_stays_out(
    keys: Seq<i64>,
    order: Seq<usize>,
    f: int,
    row: usize,
    y: Seq<Num>,
    other: Seq<Num>,
)
    requires
        0 <= f < fold_count(order.len() as int),
        order.len() == keys.len(),
        keys.len() <= usize::MAX,
        order.to_multiset() == row_list(keys.len()).to_multiset(),
        holdout_of(order, f).contains(row),
        y.len() == keys.len(),
        other.len() == keys.len(),
        forall|r: int| 0 <= r < y.len() && r != row ==> y[r] == #[trigger] other[r],
    ensures
        outside_sum(keys, holdout_of(order, f), row, exact_labels(y)) == outside_sum(
            keys,
            holdout_of(order, f),
            row,
            exact_labels(other),
        ),
        0 <= outside_count(keys, holdout_of(order, f), row) < rows_with_key(
            keys,
            row_list(keys.len()),
            keys[row as int],
        ).len(),
{
    let n = order.len() as int;
    let h = holdout_of(order, f);
    let all = row_list(keys.len());
    let k = keys[row as int];
    let (a, b) = (exact_labels(y), exact_labels(other));
    lemma_fold_bounds(f, n);
    crate::evidence::lemma_rearranged_rows(order, keys.len());
    assert(h.no_duplicates());
    let p = choose|p: int| 0 <= p < h.len() && h[p] == row;
    assert(order[fold_start(f, n) + p] == row);
    to_multiset_contains(order, row);
    to_multiset_contains(all, row);
    assert(all.no_duplicates());
    lemma_counted_once(h, row);
    lemma_counted_once(all, row);
    lemma_key_rows_counted(keys, h, row);
    lemma_key_rows_counted(keys, all, row);
    assert forall|i: int| 0 <= i < h.len() implies #[trigger] h[i] < n by {
        assert(h[i] == order[fold_start(f, n) + i]);
        to_multiset_contains(order, h[i]);
        to_multiset_contains(all, h[i]);
        let q = choose|q: int| 0 <= q < all.len() && all[q] == h[i];
        assert(all[q] == q);
    }
    lemma_key_rows_below(keys, h, k, n);
    lemma_key_rows_below(keys, all, k, n);
    assert forall|r: int| 0 <= r < n && r != row implies a[r] == #[trigger] b[r] by {
        assert(y[r] == other[r]);
    }
    lemma_labels_differ(rows_with_key(keys, h, k), a, b, n, row);
    lemma_labels_differ(rows_with_key(keys, all, k), a, b, n, row);
    crate::groups::lemma_rows_with_key(keys, h, k);
    crate::groups::lemma_rows_with_key(keys, all, k);
    assert(keys[h[p] as int] == k);
    assert(rows_with_key(keys, h, k).len() > 0);
    assert(all[row as int] == row);
    assert(rows_with_key(keys, all, k).len() > 0);
}

proof fn lemma_whole_label(label: Num, c: int)
    requires
        label.finite(),
        label.scaled() == c * vstd::arithmetic::power2::pow2(1074),
        0 <= c,
    ensures
        label.rounded() == c,
        !label.below(Num { bits: 0 }),
{
    crate::num::law_rounding_is_to_the_nearest(label);
    vstd::arithmetic::power2::lemma_pow2_pos(1074);
    let u = vstd::arithmetic::power2::pow2(1074) as int;
    let r = label.rounded();
    assert(r == c) by (nonlinear_arith)
        requires
            u > 0,
            (2 * r - 1) * u <= 2 * (c * u) <= (2 * r + 1) * u,
            (2 * r - 1) * u < 2 * (c * u) || 2 * (c * u) < (2 * r + 1) * u,
    ;
    crate::num::law_key_orders_values(label, Num { bits: 0 });
    assert(crate::num::scaled_magnitude(0) == 0);
    assert(c * u >= 0) by (nonlinear_arith)
        requires
            u > 0,
            c >= 0,
    ;
}

/// A whole-number label is the class of that number, wherever there is such a
/// class and the label was told as whole; a label below zero, beyond the classes
/// or without a number has none.
pub proof fn law_whole_labels_are_classes(label: Num, distance: Num, n_classes: int, c: int)
    requires
        0 <= c,
        n_classes <= usize::MAX,
    ensures
        label.finite() && label.scaled() == c * vstd::arithmetic::power2::pow2(1074) && c < n_classes && distance.bits
            == 0 ==> class_of(label, distance, n_classes) == Some(c as usize),
        label.finite() && label.scaled() == c * vstd::arithmetic::power2::pow2(1074) && c >= n_classes ==> class_of(
            label,
            distance,
            n_classes,
        ) is None,
        !label.finite() || label.below(Num { bits: 0 }) ==> class_of(label, distance, n_classes) is None,
        class_of(label, distance, n_classes) matches Some(k) ==> k < n_classes,
        (Num { bits: 0x3eb0_c6f7_a0b5_ed8d }).below(distance) ==> class_of(label, distance, n_classes) is None,
        label.finite() && !label.below(Num { bits: 0 }) && distance.at_most(Num { bits: 0x3eb0_c6f7_a0b5_ed8d })
            && label.rounded() < n_classes ==> class_of(label, distance, n_classes) == Some(label.rounded() as usize),
{
    if label.finite() && !label.below(Num { bits: 0 }) {
        crate::num::law_key_orders_values(label, Num { bits: 0 });
        crate::num::law_key_orders_values(Num { bits: 0 }, label);
        crate::num::law_rounding_rises(Num { bits: 0 }, label);
        assert(crate::num::scaled_magnitude(0) == 0);
        lemma_whole_label(Num { bits: 0 }, 0);
    }
    if label.finite() && label.scaled() == c * vstd::arithmetic::power2::pow2(1074) {
        lemma_whole_label(label, c);
    }
}

/// There are classes enough: every whole-number label has one.
pub proof fn law_labels_have_their_classes(y: Seq<Num>, i: int, c: int)
    requires
        0 <= i < y.len(),
        0 <= c < usize::MAX,
        y[i].finite(),
        y[i].scaled() == c * vstd::arithmetic::power2::pow2(1074),
    ensures
        label_classes(y) >= c + 1,
    decreases y.len(),
{
    let rest = y.drop_last();
    if i < rest.len() {
        assert(rest[i] == y[i]);
        law_labels_have_their_classes(rest, i, c);
    } else {
        lemma_whole_label(y[i], c);
    }
}

/// There are no more classes than the labels ask for: one, or as many as reach up to the
/// class of some label.
pub proof fn law_no_class_goes_without_label(y: Seq<Num>)
    ensures
        label_classes(y) >= 1,
        label_classes(y) > 1 ==> exists|i: int|
            0 <= i < y.len() && (#[trigger] y[i]).finite() && saturate(y[i].rounded(), 0, usize::MAX as int) + 1
                == label_classes(y),
    decreases y.len(),
{
    if y.len() > 0 {
        let rest = y.drop_last();
        law_no_class_goes_without_label(rest);
        if label_classes(y) == label_classes(rest) && label_classes(y) > 1 {
            let i = choose|i: int|
                0 <= i < rest.len() && (#[trigger] rest[i]).finite() && saturate(rest[i].rounded(), 0, usize::MAX as int)
                    + 1 == label_classes(rest);
            assert(y[i] == rest[i]);
        } else if label_classes(y) > 1 {
            assert(y[y.len() - 1] == y.last());
        }
    }
}

/// Five folds of rows are even: no two differ by more than a row, and with five
/// rows or more none is empty.
pub proof fn law_folds_are_even(n_rows: int, f: int)
    requires
        n_rows >= 5,
        0 <= f < 5,
    ensures
        fold_count(n_rows) == 5,
        n_rows / 5 <= fold_start(f + 1, n_rows) - fold_start(f, n_rows) <= n_rows / 5 + 1,
        fold_start(f, n_rows) < fold_start(f + 1, n_rows),
{
    let q = n_rows / 5;
    let r = n_rows % 5;
    assert(f * n_rows == 5 * (f * q) + f * r) by (nonlinear_arith)
        requires
            n_rows == 5 * q + r,
    ;
    assert((f + 1) * n_rows == 5 * (f * q) + f * r + n_rows) by (nonlinear_arith)
        requires
            n_rows == 5 * q + r,
    ;
    assert(f * r == 0 || f * r == r || f * r == 2 * r || f * r == 3 * r || f * r == 4 * r) by (nonlinear_arith)
        requires
            0 <= f < 5,
    ;
}

/// A score counts exactly where it is finite and rests on two full groups' rows.
pub proof fn law_scores_rest_on_rows(total: int, min_count: int, score: Num)
    ensures
        score.finite() && total >= min_count + min_count ==> settled_score(total, min_count, score) == score,
        !score.finite() || total < min_count + min_count ==> settled_score(total, min_count, score).bits == 0,
{
}

/// Fewer than five rows are each a fold of their own, and one row has two folds, of which
/// one is empty.
pub proof fn law_few_rows_are_folds(n_rows: int, f: int)
    requires
        1 <= n_rows < 5,
        0 <= f < fold_count(n_rows),
    ensures
        n_rows >= 2 ==> fold_count(n_rows) == n_rows && fold_start(f, n_rows) == f,
        n_rows == 1 ==> fold_count(n_rows) == 2,
{
    if n_rows >= 2 {
        vstd::arithmetic::div_mod::lemma_div_multiples_vanish(f, n_rows);
        assert(f * n_rows == n_rows * f) by (nonlinear_arith);
    }
}

/// A group counts with all its rows exactly where it has as many as are asked for.
pub proof fn law_large_groups_count(rows: Seq<Vec<usize>>, min_count: int, n: nat, g: usize)
    requires
        n < rows.len() <= usize::MAX,
    ensures
        kept_indices(large_groups(rows, min_count)).contains(g) <==> g < rows.len() && rows[g as int]@.len()
            >= min_count,
        rows_counted(rows, min_count, n + 1) - rows_counted(rows, min_count, n) == if kept_indices(
            large_groups(rows, min_count),
        ).contains(n as usize) {
            rows[n as int]@.len() as int
        } else {
            0
        },
        rows_counted(rows, min_count, 0) == 0,
{
    crate::select::law_kept_are_those_marked(large_groups(rows, min_count), g);
    crate::select::law_kept_are_those_marked(large_groups(rows, min_count), n as usize);
}

/// Classes are counted over the rows that have one.
pub proof fn law_labelled_rows_have_a_class(classes: Seq<Option<usize>>, rows: Seq<usize>, row: usize, i: int)
    requires
        classes.len() <= usize::MAX,
    ensures
        kept_indices(labelled(classes)).contains(row) <==> row < classes.len() && classes[row as int] is Some,
        0 <= i < rows.len() && classes[rows[i] as int] is Some ==> classes[rows[i] as int] == Some(
            classes_at(classes, rows)[i],
        ),
        classes_at(classes, rows).len() == rows.len(),
{
    crate::select::law_kept_are_those_marked(labelled(classes), row);
}

/// Labels are summed row by row, and the rows of a list are all of them, in order.
pub proof fn law_labels_are_summed(a: Seq<usize>, row: usize, labels: Seq<int>, n: nat, i: int)
    ensures
        label_sum(a.push(row), labels) == label_sum(a, labels) + labels[row as int],
        label_sum(Seq::empty(), labels) == 0,
        row_list(n).len() == n,
        0 <= i < n && n <= usize::MAX ==> row_list(n)[i] == i,
{
    assert(a.push(row).drop_last() =~= a);
}

/// Groups of labelled rows tell for every class how many of their rows are in it.
pub proof fn law_groups_count_their_classes(g: ClassGroups, keys: Seq<i64>, classes: Seq<Option<usize>>, n_classes: int, h: int, c: usize, row: usize)
    requires
        g.holds(keys, classes, n_classes),
        classes.len() <= usize::MAX,
        0 <= h < g.groups.rows@.len(),
        c < n_classes,
    ensures
        g.rows@.contains(row) <==> row < classes.len() && classes[row as int] is Some,
        g.counts@.len() == g.groups.rows@.len(),
        g.counts@[h]@.len() == n_classes,
        g.counts@[h]@[c as int] == count_of(classes_at(classes, g.groups.rows@[h]@), c),
        g.groups.keys@ == distinct_keys(keys, g.rows@),
{
    law_labelled_rows_have_a_class(classes, Seq::empty(), row, 0);
    assert(g.counts_group(classes, n_classes, h));
}

/// A fold holds the rows that are held out, and for each of them how many rows outside the
/// fold share its key.
pub proof fn law_folds_count_outside_rows(fold: OofFold, keys: Seq<i64>, holdout: Seq<usize>, p: int)
    requires
        fold.holds(keys, holdout),
        0 <= p < holdout.len(),
    ensures
        fold.rows@ == holdout,
        fold.counts@.len() == holdout.len(),
        fold.counts@[p] == outside_count(keys, holdout, holdout[p]),
        fold.groups.keys@ == distinct_keys(keys, holdout),
{
}

} // verus!
