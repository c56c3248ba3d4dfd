//! The cuts of the columns that step effects are fitted to.

use crate::num::Num;
use crate::prior::{
    can_cut, collect_finite, cut_column, cuttable, edges_at, effects_on, finite_column, has_signal, is_bin,
    is_sorted_form, law_bin_is_unique, prior_kind, rising, signals, sort_values, PriorKind, VerticalPrior,
};
use crate::select::at_most;
use crate::task::Task;
use crate::tree::lemma_cell;
use vstd::prelude::*;

verus! {

/// `r` is the square root of `n` rounded to the nearest integer, or 64 where
/// that is higher.
pub open spec fn is_capped_root(n: int, r: int) -> bool {
    &&& 0 <= r <= 64
    &&& r < 64 ==> n <= r * (r + 1)
    &&& r > 0 ==> r * (r - 1) < n
}

/// A number has one capped root.
pub proof fn law_root_is_unique(n: int, a: int, b: int)
    requires
        is_capped_root(n, a),
        is_capped_root(n, b),
    ensures
        a == b,
{
    if a < b {
        assert(a * (a + 1) <= b * (b - 1)) by (nonlinear_arith)
            requires
                0 <= a,
                a + 1 <= b,
        ;
    }
    if b < a {
        assert(b * (b + 1) <= a * (a - 1)) by (nonlinear_arith)
            requires
                0 <= b,
                b + 1 <= a,
        ;
    }
}

fn capped_root(n: usize) -> (r: usize)
    ensures
        is_capped_root(n as int, r as int),
{
    let mut r: usize = 0;
    while r < 64 && r * (r + 1) < n
        invariant
            r <= 64,
            r > 0 ==> r * (r - 1) < n,
            r < 64 ==> r * (r + 1) <= 64 * 64,
        decreases 64 - r,
    {
        assert((r + 1) * (r + 2) <= 65 * 66 && (r < 63 ==> (r + 1) * (r + 2) <= 64 * 64)) by (nonlinear_arith)
            requires
                0 <= r < 64,
        ;
        assert((r + 1) * r == r * (r + 1)) by (nonlinear_arith);
        r = r + 1;
    }
    r
}

/// The higher of a number and four.
pub open spec fn four_or_more(r: int) -> int {
    if r > 4 {
        r
    } else {
        4
    }
}

/// Into how many bins a column is cut: as many as the rounded square root of
/// its values, or of the rows where that is lower, between 4 and 64.
pub fn prior_bin_count(n_rows: usize, n_values: usize) -> (r: usize)
    ensures
        exists|a: int, b: int|
            #![trigger is_capped_root(n_rows as int, a), is_capped_root(n_values as int, b)]
            is_capped_root(n_rows as int, a) && is_capped_root(n_values as int, b) && r == at_most(
                four_or_more(a),
                four_or_more(b),
            ),
        4 <= r <= 64,
{
    let a: usize = capped_root(n_rows);
    let b: usize = capped_root(n_values);
    assert(is_capped_root(n_rows as int, a as int) && is_capped_root(n_values as int, b as int));
    let high: usize = if a > 4 { a } else { 4 };
    let low: usize = if b > 4 { b } else { 4 };
    if high < low {
        high
    } else {
        low
    }
}

/// The position of cut `q` of `n_bins` among the sorted values: its share of
/// the way from the first to the last, rounded to the nearest.
pub open spec fn cut_position(q: int, n_values: int, n_bins: int) -> int {
    (2 * (q * (n_values - 1)) + n_bins) / (2 * n_bins)
}

/// The positions of all cuts.
pub open spec fn cut_list(n_values: int, n_bins: int) -> Seq<usize> {
    Seq::new((n_bins - 1) as nat, |i: int| cut_position(i + 1, n_values, n_bins) as usize)
}

pub fn cut_positions(n_values: usize, n_bins: usize) -> (list: Vec<usize>)
    requires
        n_values > 0,
        0 < n_bins <= 64,
    ensures
        list@ == cut_list(n_values as int, n_bins as int),
        forall|q: int|
            1 <= q < n_bins ==> 0 <= #[trigger] cut_position(q, n_values as int, n_bins as int) <= n_values,
{
    let mut list: Vec<usize> = Vec::new();
    let mut q: usize = 1;
    while q < n_bins
        invariant
            1 <= q <= n_bins <= 64,
            n_values > 0,
            list@.len() == q - 1,
            forall|i: int|
                0 <= i < q - 1 ==> #[trigger] list@[i] == cut_position(i + 1, n_values as int, n_bins as int),
            forall|p: int|
                1 <= p < q ==> 0 <= #[trigger] cut_position(p, n_values as int, n_bins as int) <= n_values,
        decreases n_bins - q,
    {
        proof {
            let n = n_values as int;
            let b = n_bins as int;
            assert(0 <= q * (n - 1) && q * (n - 1) <= 64 * n && 2 * (q * (n - 1)) + b <= n * (2 * b))
                by (nonlinear_arith)
                requires
                    1 <= q < b <= 64,
                    n >= 1,
            ;
            assert(cut_position(q as int, n, b) <= n) by {
                vstd::arithmetic::div_mod::lemma_div_is_ordered(2 * (q * (n - 1)) + b, n * (2 * b), 2 * b);
                vstd::arithmetic::div_mod::lemma_div_multiples_vanish(n, 2 * b);
                assert(n * (2 * b) == (2 * b) * n) by (nonlinear_arith);
            }
            vstd::arithmetic::div_mod::lemma_div_pos_is_pos(2 * (q * (n - 1)) + b, 2 * b);
        }
        let above: u128 = 2 * (q as u128 * (n_values as u128 - 1)) + n_bins as u128;
        let place: u128 = above / (2 * n_bins as u128);
        assert(place == cut_position(q as int, n_values as int, n_bins as int));
        list.push(place as usize);
        q = q + 1;
    }
    assert(list@ =~= cut_list(n_values as int, n_bins as int));
    list
}

impl PriorKind {
    /// The fewest values that a column is cut for.
    pub open spec fn least(&self) -> int {
        if *self == PriorKind::Binary {
            8
        } else {
            4
        }
    }

    pub fn least_values(&self) -> (r: usize)
        ensures
            r == self.least(),
    {
        match self {
            PriorKind::Binary => 8,
            _ => 4,
        }
    }
}

/// Whether a feature is a category: only where every feature is declared.
pub open spec fn declared_category(cat_features: Seq<bool>, n_features: int, feat: int) -> bool {
    cat_features.len() == n_features && cat_features[feat]
}

/// The cuts of all columns: the edges, the bin of each row, and the number of
/// effects.
pub struct PriorColumns {
    pub edges: Vec<Vec<Num>>,
    pub bins: Vec<Vec<usize>>,
    pub effects: Vec<usize>,
}

/// A column without cuts: one effect, and all rows in its one bin.
pub open spec fn is_flat(edges: Seq<Num>, bins: Seq<usize>, effects: usize) -> bool {
    &&& edges.len() == 0
    &&& effects == 1
    &&& forall|row: int| 0 <= row < bins.len() ==> #[trigger] bins[row] == 0
}

/// A column cut at the places of its sorted values, with each row in its bin,
/// and one more effect for the values that are not finite.
pub open spec fn is_cut(
    x: Seq<Num>,
    n_rows: int,
    n_features: int,
    feat: int,
    sorted: Seq<Num>,
    edges: Seq<Num>,
    bins: Seq<usize>,
    effects: usize,
) -> bool {
    &&& exists|a: int, b: int|
        #![trigger is_capped_root(n_rows, a), is_capped_root(sorted.len() as int, b)]
        is_capped_root(n_rows, a) && is_capped_root(sorted.len() as int, b) && edges == edges_at(
            sorted,
            cut_list(sorted.len() as int, at_most(four_or_more(a), four_or_more(b))),
            cut_list(sorted.len() as int, at_most(four_or_more(a), four_or_more(b))).len(),
        )
    &&& effects == edges.len() + 2
    &&& forall|row: int|
        0 <= row < bins.len() ==> is_bin(edges, x[row * n_features + feat], (#[trigger] bins[row]) as int)
}

impl PriorColumns {
    pub open spec fn sized(&self, n_features: int) -> bool {
        &&& self.edges@.len() == n_features
        &&& self.bins@.len() == n_features
        &&& self.effects@.len() == n_features
    }

    /// Column `feat` with these sorted values is flat where it is a category or
    /// cannot be cut, and cut otherwise.
    pub open spec fn follows(
        &self,
        kind: PriorKind,
        x: Seq<Num>,
        n_rows: int,
        n_features: int,
        cat_features: Seq<bool>,
        feat: int,
        sorted: Seq<Num>,
    ) -> bool {
        if declared_category(cat_features, n_features, feat) || !cuttable(sorted, kind.least()) {
            is_flat(self.edges@[feat]@, self.bins@[feat]@, self.effects@[feat])
        } else {
            is_cut(
                x,
                n_rows,
                n_features,
                feat,
                sorted,
                self.edges@[feat]@,
                self.bins@[feat]@,
                self.effects@[feat],
            )
        }
    }

    pub open spec fn holds(
        &self,
        kind: PriorKind,
        x: Seq<Num>,
        n_rows: int,
        n_features: int,
        cat_features: Seq<bool>,
        feat: int,
    ) -> bool {
        &&& self.bins@[feat]@.len() == n_rows
        &&& rising(self.edges@[feat]@)
        &&& exists|sorted: Seq<Num>| #[trigger]
            is_sorted_form(finite_column(x, n_features, feat, n_rows as nat), sorted) && self.follows(
                kind,
                x,
                n_rows,
                n_features,
                cat_features,
                feat,
                sorted,
            )
    }
}

fn bins_of_column(x: &Vec<Num>, n_rows: usize, n_features: usize, feat: usize, edges: &Vec<Num>) -> (bins: Vec<usize>)
    requires
        n_rows * n_features <= x@.len(),
        feat < n_features,
        rising(edges@),
        edges@.len() < usize::MAX,
    ensures
        bins@.len() == n_rows,
        forall|row: int|
            0 <= row < n_rows ==> is_bin(edges@, x@[row * n_features + feat], (#[trigger] bins@[row]) as int),
{
    let mut bins: Vec<usize> = Vec::new();
    let mut row: usize = 0;
    while row < n_rows
        invariant
            row <= n_rows,
            n_rows * n_features <= x@.len(),
            feat < n_features,
            rising(edges@),
            edges@.len() < usize::MAX,
            bins@.len() == row,
            forall|k: int|
                0 <= k < row ==> is_bin(edges@, x@[k * n_features + feat], (#[trigger] bins@[k]) as int),
        decreases n_rows - row,
    {
        proof {
            lemma_cell(row as int, feat as int, n_rows as int, n_features as int);
            assert(x.len() == x@.len());
        }
        bins.push(VerticalPrior::bin_index(edges, &x[row * n_features + feat]));
        row = row + 1;
    }
    bins
}

fn zeros(n: usize) -> (list: Vec<usize>)
    ensures
        list@.len() == n,
        forall|i: int| 0 <= i < n ==> #[trigger] list@[i] == 0,
{
    let mut list: Vec<usize> = Vec::new();
    let mut i: usize = 0;
    while i < n
        invariant
            i <= n,
            list@.len() == i,
            forall|k: int| 0 <= k < i ==> #[trigger] list@[k] == 0,
        decreases n - i,
    {
        list.push(0);
        i = i + 1;
    }
    list
}

/// Cuts every column that effects are to be fitted to.
pub fn prior_columns(
    kind: PriorKind,
    x: &Vec<Num>,
    n_rows: usize,
    n_features: usize,
    cat_features: &Vec<bool>,
) -> (r: PriorColumns)
    requires
        n_rows * n_features <= x@.len(),
    ensures
        r.sized(n_features as int),
        forall|feat: int|
            0 <= feat < n_features ==> #[trigger] r.holds(
                kind,
                x@,
                n_rows as int,
                n_features as int,
                cat_features@,
                feat,
            ),
{
    let mut r: PriorColumns = PriorColumns { edges: Vec::new(), bins: Vec::new(), effects: Vec::new() };
    let mut feat: usize = 0;
    while feat < n_features
        invariant
            feat <= n_features,
            n_rows * n_features <= x@.len(),
            r.sized(feat as int),
            forall|f: int|
                0 <= f < feat ==> #[trigger] r.holds(
                    kind,
                    x@,
                    n_rows as int,
                    n_features as int,
                    cat_features@,
                    f,
                ),
        decreases n_features - feat,
    {
        let values: Vec<Num> = collect_finite(x, n_rows, n_features, feat);
        let sorted: Vec<Num> = sort_values(&values);
        let category: bool = cat_features.len() == n_features && cat_features[feat];
        let before = Ghost(r);
        if category || !can_cut(&sorted, kind.least_values()) {
            r.edges.push(Vec::new());
            r.bins.push(zeros(n_rows));
            r.effects.push(1);
            assert(is_flat(r.edges@[feat as int]@, r.bins@[feat as int]@, r.effects@[feat as int]));
            assert(rising(r.edges@[feat as int]@));
        } else {
            let n_bins: usize = prior_bin_count(n_rows, sorted.len());
            let positions: Vec<usize> = cut_positions(sorted.len(), n_bins);
            let edges: Vec<Num> = cut_column(&sorted, &positions);
            let bins: Vec<usize> = bins_of_column(x, n_rows, n_features, feat, &edges);
            let effects: usize = edges.len() + 2;
            assert(is_cut(
                x@,
                n_rows as int,
                n_features as int,
                feat as int,
                sorted@,
                edges@,
                bins@,
                effects,
            ));
            r.edges.push(edges);
            r.bins.push(bins);
            r.effects.push(effects);
            assert(rising(r.edges@[feat as int]@));
        }
        proof {
            let rows = n_rows as int;
            assert(is_sorted_form(finite_column(x@, n_features as int, feat as int, rows as nat), sorted@));
            assert(category == declared_category(cat_features@, n_features as int, feat as int));
            assert(r.follows(kind, x@, n_rows as int, n_features as int, cat_features@, feat as int, sorted@));
            assert(r.holds(kind, x@, rows, n_features as int, cat_features@, feat as int));
            assert forall|f: int| 0 <= f < feat + 1 implies #[trigger] r.holds(
                kind,
                x@,
                n_rows as int,
                n_features as int,
                cat_features@,
                f,
            ) by {
                if f < feat {
                    assert(before@.holds(kind, x@, n_rows as int, n_features as int, cat_features@, f));
                    let s = choose|s: Seq<Num>| #[trigger]
                        is_sorted_form(finite_column(x@, n_features as int, f, rows as nat), s)
                            && before@.follows(kind, x@, n_rows as int, n_features as int, cat_features@, f, s);
                    assert(r.edges@[f] == before@.edges@[f]);
                    assert(r.bins@[f] == before@.bins@[f]);
                    assert(r.effects@[f] == before@.effects@[f]);
                    assert(r.follows(kind, x@, n_rows as int, n_features as int, cat_features@, f, s));
                }
            }
        }
        feat = feat + 1;
    }
    r
}

/// The prior of fitted effects: none where no prior is fitted or no effect is
/// of a size that matters.
pub open spec fn settles(kind: PriorKind, mean: Num, columns: PriorColumns, effects: Vec<Vec<Num>>, r: VerticalPrior) -> bool {
    if kind == PriorKind::Off || !signals(effects@) {
        r.idle()
    } else {
        r == (VerticalPrior { mean, edges: columns.edges, effects })
    }
}

pub fn settle_prior(kind: PriorKind, mean: Num, columns: PriorColumns, effects: Vec<Vec<Num>>) -> (r: VerticalPrior)
    ensures
        settles(kind, mean, columns, effects, r),
{
    let off: bool = match kind {
        PriorKind::Off => true,
        _ => false,
    };
    if off || !has_signal(&effects) {
        return VerticalPrior::none();
    }
    VerticalPrior { mean, edges: columns.edges, effects }
}

/// The effects on training row `row` of the first `j` features, by the bins
/// that the row was fitted in.
pub open spec fn training_effects(bins: Seq<Vec<usize>>, effects: Seq<Vec<Num>>, row: int, j: nat) -> Seq<Num>
    decreases j,
{
    if j == 0 {
        Seq::empty()
    } else {
        let rest = training_effects(bins, effects, row, (j - 1) as nat);
        let f = j - 1;
        if effects[f]@.len() > 1 {
            rest.push(effects[f]@[bins[f]@[row] as int])
        } else {
            rest
        }
    }
}

/// One effect for each that the columns ask for.
pub open spec fn effects_fit(columns: PriorColumns, effects: Seq<Vec<Num>>) -> bool {
    &&& effects.len() == columns.effects@.len()
    &&& forall|f: int| 0 <= f < effects.len() ==> (#[trigger] effects[f])@.len() == columns.effects@[f]
}

/// A prior is in force exactly where one is fitted and says something: then the
/// model asks for one and its task has one.
pub proof fn law_prior_is_gated(
    enabled: bool,
    task: Task,
    n_rows: int,
    n_features: int,
    n_cells: int,
    n_targets: int,
    mean: Num,
    columns: PriorColumns,
    effects: Vec<Vec<Num>>,
    r: VerticalPrior,
)
    requires
        settles(prior_kind(enabled, task, n_rows, n_features, n_cells, n_targets), mean, columns, effects, r),
    ensures
        r.effects@.len() > 0 <==> prior_kind(enabled, task, n_rows, n_features, n_cells, n_targets) != PriorKind::Off
            && signals(effects@),
        r.effects@.len() > 0 ==> enabled && (task == Task::Regression || task == Task::Binary) && n_targets == n_rows,
{
}

proof fn lemma_effects_agree(
    kind: PriorKind,
    x: Seq<Num>,
    n_rows: int,
    n_features: int,
    cat_features: Seq<bool>,
    columns: PriorColumns,
    prior: VerticalPrior,
    row: int,
    j: nat,
)
    requires
        0 <= row < n_rows,
        j <= n_features,
        x.len() >= n_rows * n_features,
        columns.sized(n_features),
        forall|feat: int|
            0 <= feat < n_features ==> #[trigger] columns.holds(kind, x, n_rows, n_features, cat_features, feat),
        prior.edges == columns.edges,
        effects_fit(columns, prior.effects@),
    ensures
        effects_on(prior, x.subrange(row * n_features, (row + 1) * n_features), j) == training_effects(
            columns.bins@,
            prior.effects@,
            row,
            j,
        ),
    decreases j,
{
    if j > 0 {
        lemma_effects_agree(
            kind,
            x,
            n_rows,
            n_features,
            cat_features,
            columns,
            prior,
            row,
            (j - 1) as nat,
        );
        let f = j - 1;
        lemma_cell(row, f, n_rows, n_features);
        assert((row + 1) * n_features == row * n_features + n_features && (row + 1) * n_features <= n_rows * n_features)
            by (nonlinear_arith)
            requires
                row + 1 <= n_rows,
                0 <= n_features,
        ;
        let cells = x.subrange(row * n_features, (row + 1) * n_features);
        assert(cells[f] == x[row * n_features + f]);
        assert(columns.holds(kind, x, n_rows, n_features, cat_features, f));
        let sorted = choose|sorted: Seq<Num>| #[trigger]
            is_sorted_form(finite_column(x, n_features, f, n_rows as nat), sorted) && columns.follows(
                kind,
                x,
                n_rows,
                n_features,
                cat_features,
                f,
                sorted,
            );
        assert(prior.effects@[f]@.len() == columns.effects@[f]);
        if prior.effects@[f]@.len() > 1 {
            let edges = columns.edges@[f]@;
            let bin = columns.bins@[f]@[row];
            assert(is_bin(edges, x[row * n_features + f], bin as int));
            let chosen = choose|b: int| is_bin(prior.edges@[f]@, cells[f], b);
            law_bin_is_unique(edges, cells[f], bin as int, chosen);
        }
    }
}

/// A prior scores its training rows as it was fitted to them: the effects that
/// it finds for a row's cells are those of the bins that the row was fitted in.
pub proof fn law_prior_scores_training_rows(
    kind: PriorKind,
    x: Seq<Num>,
    n_rows: int,
    n_features: int,
    cat_features: Seq<bool>,
    columns: PriorColumns,
    prior: VerticalPrior,
    row: int,
)
    requires
        0 <= row < n_rows,
        0 <= n_features,
        x.len() >= n_rows * n_features,
        columns.sized(n_features),
        forall|feat: int|
            0 <= feat < n_features ==> #[trigger] columns.holds(kind, x, n_rows, n_features, cat_features, feat),
        prior.edges == columns.edges,
        effects_fit(columns, prior.effects@),
    ensures
        prior.edges@.len() == n_features,
        effects_on(prior, x.subrange(row * n_features, (row + 1) * n_features), prior.edges@.len())
            == training_effects(columns.bins@, prior.effects@, row, n_features as nat),
{
    lemma_effects_agree(kind, x, n_rows, n_features, cat_features, columns, prior, row, n_features as nat);
}

/// The cuts of a column part its values evenly: each stands as near to its share of
/// them as a whole position can.
pub proof fn law_cuts_are_even(q: int, n_values: int, n_bins: int)
    requires
        n_values > 0,
        0 < n_bins,
        0 < q < n_bins,
    ensures
        2 * (q * (n_values - 1)) - n_bins < 2 * n_bins * cut_position(q, n_values, n_bins) <= 2 * (q * (n_values - 1))
            + n_bins,
        cut_list(n_values, n_bins).len() == n_bins - 1,
{
    let s = 2 * (q * (n_values - 1)) + n_bins;
    let d = 2 * n_bins;
    vstd::arithmetic::div_mod::lemma_fundamental_div_mod(s, d);
    assert(d * (s / d) <= s && s < d * (s / d) + d);
}

/// Declared categories and columns with too few values, or one value only, have a
/// single bin; every other column has one bin below each edge, one above them all
/// and one for what is missing.
pub proof fn law_columns_have_their_bins(
    columns: PriorColumns,
    kind: PriorKind,
    x: Seq<Num>,
    n_rows: int,
    n_features: int,
    cat_features: Seq<bool>,
    feat: int,
)
    requires
        0 <= feat < n_features,
        columns.holds(kind, x, n_rows, n_features, cat_features, feat),
    ensures
        cat_features.len() == n_features && cat_features[feat] ==> columns.effects@[feat] == 1,
        kind == PriorKind::Binary && finite_column(x, n_features, feat, n_rows as nat).len() < 8
            ==> columns.effects@[feat] == 1,
        finite_column(x, n_features, feat, n_rows as nat).len() < 4 ==> columns.effects@[feat] == 1,
        columns.effects@[feat] == 1 || columns.effects@[feat] == columns.edges@[feat]@.len() + 2,
        columns.effects@[feat] != 1 ==> columns.edges@[feat]@.len() <= 63,
        forall|row: int|
            0 <= row < n_rows ==> (#[trigger] columns.bins@[feat]@[row]) < columns.effects@[feat],
{
    let values = finite_column(x, n_features, feat, n_rows as nat);
    let sorted = choose|sorted: Seq<Num>| #[trigger]
        is_sorted_form(values, sorted) && columns.follows(kind, x, n_rows, n_features, cat_features, feat, sorted);
    let order = choose|order: Seq<usize>| #[trigger]
        crate::order::is_ascending_ranking(crate::goss::order_keys(values), order) && sorted == Seq::new(
            order.len(),
            |i: int| values[order[i] as int],
        );
    assert(sorted.len() == values.len());
    if !declared_category(cat_features, n_features, feat) && cuttable(sorted, kind.least()) {
        let (a, b) = choose|a: int, b: int|
            #![trigger is_capped_root(n_rows, a), is_capped_root(sorted.len() as int, b)]
            is_capped_root(n_rows, a) && is_capped_root(sorted.len() as int, b) && columns.edges@[feat]@ == edges_at(
                sorted,
                cut_list(sorted.len() as int, at_most(four_or_more(a), four_or_more(b))),
                cut_list(sorted.len() as int, at_most(four_or_more(a), four_or_more(b))).len(),
            );
        let list = cut_list(sorted.len() as int, at_most(four_or_more(a), four_or_more(b)));
        assert(list.len() <= 63);
        lemma_edges_are_few(sorted, list, list.len());
    }
}

proof fn lemma_edges_are_few(sorted: Seq<Num>, positions: Seq<usize>, n: nat)
    ensures
        edges_at(sorted, positions, n).len() <= n,
    decreases n,
{
    if n > 0 {
        lemma_edges_are_few(sorted, positions, (n - 1) as nat);
    }
}

/// The root that bins are counted by is the square root to the nearest whole number, up to
/// sixty-four.
pub proof fn law_roots_are_nearest(n: int, r: int)
    requires
        0 < n,
        is_capped_root(n, r),
    ensures
        0 < r <= 64,
        (2 * r - 1) * (2 * r - 1) <= 4 * n,
        r < 64 ==> 4 * n <= (2 * r + 1) * (2 * r + 1),
        four_or_more(r) >= 4 && four_or_more(r) >= r && (four_or_more(r) == r || four_or_more(r) == 4),
{
    assert(r != 0) by (nonlinear_arith)
        requires
            0 < n,
            0 <= r,
            r < 64 ==> n <= r * (r + 1),
    ;
    assert((2 * r - 1) * (2 * r - 1) <= 4 * n) by (nonlinear_arith)
        requires
            r * (r - 1) < n,
    ;
    if r < 64 {
        assert(4 * n <= (2 * r + 1) * (2 * r + 1)) by (nonlinear_arith)
            requires
                n <= r * (r + 1),
        ;
    }
}

/// The rows of a column that is cut are in the bins of its edges, and those of one that is
/// not are all in one.
pub proof fn law_rows_are_in_their_bins(
    columns: PriorColumns,
    kind: PriorKind,
    x: Seq<Num>,
    n_rows: int,
    n_features: int,
    cat_features: Seq<bool>,
    feat: int,
    row: int,
)
    requires
        0 <= feat < n_features,
        0 <= row < n_rows,
        columns.holds(kind, x, n_rows, n_features, cat_features, feat),
    ensures
        columns.effects@[feat] == 1 ==> columns.bins@[feat]@[row] == 0 && columns.edges@[feat]@.len() == 0,
        columns.effects@[feat] != 1 ==> is_bin(
            columns.edges@[feat]@,
            x[row * n_features + feat],
            columns.bins@[feat]@[row] as int,
        ) && rising(columns.edges@[feat]@),
        columns.bins@[feat]@.len() == n_rows,
{
    law_columns_have_their_bins(columns, kind, x, n_rows, n_features, cat_features, feat);
    let values = finite_column(x, n_features, feat, n_rows as nat);
    let sorted = choose|sorted: Seq<Num>| #[trigger]
        is_sorted_form(values, sorted) && columns.follows(kind, x, n_rows, n_features, cat_features, feat, sorted);
    assert(columns.bins@[feat]@[row] == columns.bins@[feat]@[row]);
}

} // verus!
