//! Per-feature step effects that scores start from.

use crate::bits::{E_MINUS_12, ONE};
use crate::goss::{keys_of, order_keys};
use crate::num::Num;
use crate::order::{is_ascending_ranking, rank_ascending};
use crate::select::{is_positive, positive};
use crate::task::Task;
use crate::tree::lemma_cell;
use vstd::prelude::*;

verus! {

/// Finite edges in strictly rising order.
pub open spec fn rising(edges: Seq<Num>) -> bool {
    &&& forall|i: int| 0 <= i < edges.len() ==> (#[trigger] edges[i]).finite()
    &&& forall|i: int, j: int|
        #![trigger edges[i], edges[j]]
        0 <= i < j < edges.len() ==> edges[i].key() < edges[j].key()
}

/// `bin` is the bin of `value` between rising edges: that of the first edge
/// that is not below it, the one after the last edge, and one more for a value
/// that is not finite.
pub open spec fn is_bin(edges: Seq<Num>, value: Num, bin: int) -> bool {
    if !value.finite() {
        bin == edges.len() + 1
    } else {
        &&& 0 <= bin <= edges.len()
        &&& forall|i: int| 0 <= i < bin ==> (#[trigger] edges[i]).below(value)
        &&& forall|i: int| bin <= i < edges.len() ==> value.at_most(#[trigger] edges[i])
    }
}

/// A value has one bin.
pub proof fn law_bin_is_unique(edges: Seq<Num>, value: Num, a: int, b: int)
    requires
        is_bin(edges, value, a),
        is_bin(edges, value, b),
    ensures
        a == b,
{
    if value.finite() {
        if a < b {
            assert(edges[a].below(value) && value.at_most(edges[a]));
        }
        if b < a {
            assert(edges[b].below(value) && value.at_most(edges[b]));
        }
    }
}

/// Step effects of the features: `edges[j]` cut feature `j`, `effects[j]` holds
/// an effect for each of its bins.
#[derive(Clone)]
pub struct VerticalPrior {
    pub mean: Num,
    pub edges: Vec<Vec<Num>>,
    pub effects: Vec<Vec<Num>>,
}

/// The effects of the first `j` features on a row, in feature order.
pub open spec fn effects_on(prior: VerticalPrior, row: Seq<Num>, j: nat) -> Seq<Num>
    decreases j,
{
    if j == 0 {
        Seq::empty()
    } else {
        let rest = effects_on(prior, row, (j - 1) as nat);
        let f = j - 1;
        let effects = prior.effects@[f]@;
        let bin = choose|b: int| is_bin(prior.edges@[f]@, row[f], b);
        if effects.len() > 1 && f < row.len() && bin < effects.len() {
            rest.push(effects[bin])
        } else {
            rest
        }
    }
}

impl VerticalPrior {
    /// One list of rising edges for each list of effects.
    pub open spec fn well_formed(&self) -> bool {
        &&& self.edges@.len() == self.effects@.len()
        &&& forall|j: int| 0 <= j < self.edges@.len() ==> rising((#[trigger] self.edges@[j])@)
    }

    /// A prior without effects.
    pub open spec fn idle(&self) -> bool {
        self.mean.bits == 0 && self.edges@.len() == 0 && self.effects@.len() == 0
    }

    pub fn none() -> (r: VerticalPrior)
        ensures
            r.idle(),
            r.well_formed(),
    {
        VerticalPrior { mean: Num { bits: 0 }, edges: Vec::new(), effects: Vec::new() }
    }

    pub fn is_active(&self) -> (r: bool)
        ensures
            r == (self.effects@.len() > 0),
    {
        self.effects.len() > 0
    }

    /// The bin of a value.
    pub fn bin_index(edges: &Vec<Num>, value: &Num) -> (bin: usize)
        requires
            rising(edges@),
            edges@.len() < usize::MAX,
        ensures
            is_bin(edges@, *value, bin as int),
    {
        if !value.is_finite() {
            return edges.len() + 1;
        }
        let mut lo: usize = 0;
        let mut hi: usize = edges.len();
        while lo < hi
            invariant
                lo <= hi <= edges@.len(),
                rising(edges@),
                value.finite(),
                forall|i: int| 0 <= i < lo ==> (#[trigger] edges@[i]).below(*value),
                forall|i: int| hi <= i < edges@.len() ==> value.at_most(#[trigger] edges@[i]),
            decreases hi - lo,
        {
            let mid: usize = lo + (hi - lo) / 2;
            if value.le(&edges[mid]) {
                hi = mid;
            } else {
                lo = mid + 1;
            }
        }
        lo
    }

    /// The effects on a row, in feature order; its score is the mean plus their sum.
    pub fn predict_row(&self, row: &Vec<Num>) -> (list: Vec<Num>)
        requires
            self.well_formed(),
            forall|j: int| 0 <= j < self.edges@.len() ==> (#[trigger] self.edges@[j])@.len() < usize::MAX,
        ensures
            list@ == effects_on(*self, row@, self.edges@.len()),
    {
        let mut list: Vec<Num> = Vec::new();
        let mut j: usize = 0;
        while j < self.edges.len()
            invariant
                j <= self.edges@.len(),
                self.well_formed(),
                forall|k: int| 0 <= k < self.edges@.len() ==> (#[trigger] self.edges@[k])@.len() < usize::MAX,
                list@ == effects_on(*self, row@, j as nat),
            decreases self.edges@.len() - j,
        {
            if self.effects[j].len() > 1 && j < row.len() {
                let bin: usize = VerticalPrior::bin_index(&self.edges[j], &row[j]);
                proof {
                    let chosen = choose|b: int| is_bin(self.edges@[j as int]@, row@[j as int], b);
                    assert(is_bin(self.edges@[j as int]@, row@[j as int], bin as int));
                    law_bin_is_unique(self.edges@[j as int]@, row@[j as int], bin as int, chosen);
                }
                if bin < self.effects[j].len() {
                    list.push(self.effects[j][bin]);
                }
            }
            j = j + 1;
        }
        list
    }

    /// Whether rows have effects of their own: there are effects, and the
    /// matrix holds all its cells.
    pub fn predicts_rows(&self, n_cells: usize, n_rows: usize, n_features: usize) -> (r: bool)
        ensures
            r == (self.effects@.len() > 0 && n_cells >= n_rows * n_features),
    {
        if !self.is_active() {
            return false;
        }
        match n_rows.checked_mul(n_features) {
            Some(n) => n_cells >= n,
            None => false,
        }
    }
}

/// The kind of prior that is fitted.
#[derive(Clone, Copy, PartialEq, Eq, Structural, Debug)]
pub enum PriorKind {
    Off,
    Regression,
    Binary,
}

/// Which prior a model fits: none where it is off, there is nothing to fit on,
/// the task has none, or the data do not hold all cells and targets.
pub open spec fn prior_kind(
    enabled: bool,
    task: Task,
    n_rows: int,
    n_features: int,
    n_cells: int,
    n_targets: int,
) -> PriorKind {
    if !enabled || n_rows == 0 || n_features == 0 || n_cells < n_rows * n_features || n_targets != n_rows {
        PriorKind::Off
    } else if task == Task::Binary {
        PriorKind::Binary
    } else if task == Task::Regression {
        PriorKind::Regression
    } else {
        PriorKind::Off
    }
}

pub fn choose_prior(
    enabled: bool,
    task: Task,
    n_rows: usize,
    n_features: usize,
    n_cells: usize,
    n_targets: usize,
) -> (r: PriorKind)
    ensures
        r == prior_kind(
            enabled,
            task,
            n_rows as int,
            n_features as int,
            n_cells as int,
            n_targets as int,
        ),
{
    if !enabled || n_rows == 0 || n_features == 0 || n_targets != n_rows {
        return PriorKind::Off;
    }
    let full: bool = match n_rows.checked_mul(n_features) {
        Some(n) => n_cells >= n,
        None => false,
    };
    if !full {
        return PriorKind::Off;
    }
    match task {
        Task::Binary => PriorKind::Binary,
        Task::Regression => PriorKind::Regression,
        _ => PriorKind::Off,
    }
}

/// The finite values of a column among the first `n` rows, in row order.
pub open spec fn finite_column(x: Seq<Num>, n_features: int, feat: int, n: nat) -> Seq<Num>
    decreases n,
{
    if n == 0 {
        Seq::empty()
    } else {
        let rest = finite_column(x, n_features, feat, (n - 1) as nat);
        let v = x[(n - 1) * n_features + feat];
        if v.finite() {
            rest.push(v)
        } else {
            rest
        }
    }
}

/// The finite values of a column.
pub fn collect_finite(x: &Vec<Num>, n_rows: usize, n_features: usize, feat: usize) -> (values: Vec<Num>)
    requires
        n_rows * n_features <= x@.len(),
        feat < n_features,
    ensures
        values@ == finite_column(x@, n_features as int, feat as int, n_rows as nat),
        forall|i: int| 0 <= i < values@.len() ==> (#[trigger] values@[i]).finite(),
{
    let mut values: Vec<Num> = Vec::new();
    let mut row: usize = 0;
    while row < n_rows
        invariant
            row <= n_rows,
            n_rows * n_features <= x@.len(),
            feat < n_features,
            values@ == finite_column(x@, n_features as int, feat as int, row as nat),
            forall|i: int| 0 <= i < values@.len() ==> (#[trigger] values@[i]).finite(),
        decreases n_rows - row,
    {
        proof {
            lemma_cell(row as int, feat as int, n_rows as int, n_features as int);
            assert(x.len() == x@.len());
        }
        let v: Num = x[row * n_features + feat];
        if v.is_finite() {
            values.push(v);
        }
        row = row + 1;
    }
    values
}

/// `sorted` holds the values in ascending order.
pub open spec fn is_sorted_form(values: Seq<Num>, sorted: Seq<Num>) -> bool {
    exists|order: Seq<usize>| #[trigger]
        is_ascending_ranking(order_keys(values), order) && sorted == Seq::new(
            order.len(),
            |i: int| values[order[i] as int],
        )
}

/// The values in ascending order.
pub fn sort_values(values: &Vec<Num>) -> (sorted: Vec<Num>)
    requires
        forall|i: int| 0 <= i < values@.len() ==> (#[trigger] values@[i]).finite(),
    ensures
        is_sorted_form(values@, sorted@),
        sorted@.len() == values@.len(),
        forall|i: int| 0 <= i < sorted@.len() ==> (#[trigger] sorted@[i]).finite(),
        forall|i: int, j: int|
            #![trigger sorted@[i], sorted@[j]]
            0 <= i <= j < sorted@.len() ==> sorted@[i].key() <= sorted@[j].key(),
{
    let keys: Vec<i64> = keys_of(values);
    let order: Vec<usize> = rank_ascending(&keys);
    let mut sorted: Vec<Num> = Vec::new();
    let mut i: usize = 0;
    while i < order.len()
        invariant
            i <= order@.len(),
            order@.len() == values@.len(),
            forall|k: int| 0 <= k < order@.len() ==> (#[trigger] order@[k]) < values@.len(),
            forall|k: int| 0 <= k < values@.len() ==> (#[trigger] values@[k]).finite(),
            sorted@.len() == i,
            forall|k: int| 0 <= k < i ==> #[trigger] sorted@[k] == values@[order@[k] as int],
        decreases order@.len() - i,
    {
        sorted.push(values[order[i]]);
        i = i + 1;
    }
    proof {
        assert(sorted@ =~= Seq::new(order@.len(), |i: int| values@[order@[i] as int]));
        assert(is_ascending_ranking(order_keys(values@), order@));
        assert forall|i: int, j: int|
            #![trigger sorted@[i], sorted@[j]]
            0 <= i <= j < sorted@.len() implies sorted@[i].key() <= sorted@[j].key() by {
            assert(order@[i] < values@.len() && order@[j] < values@.len());
            assert(order_keys(values@)[order@[i] as int] == values@[order@[i] as int].key());
            assert(order_keys(values@)[order@[j] as int] == values@[order@[j] as int].key());
        }
    }
    sorted
}

/// Whether a column can be cut: it has values enough, and not all the same.
pub open spec fn cuttable(sorted: Seq<Num>, least: int) -> bool {
    sorted.len() >= least && sorted.len() > 0 && sorted[0].below(sorted.last())
}

pub fn can_cut(sorted: &Vec<Num>, least: usize) -> (r: bool)
    ensures
        r == cuttable(sorted@, least as int),
{
    sorted.len() >= least && sorted.len() > 0 && sorted[0].lt(&sorted[sorted.len() - 1])
}

/// The edges at the first `n` positions of a sorted column, each kept where it
/// is above the last one kept.
pub open spec fn edges_at(sorted: Seq<Num>, positions: Seq<usize>, n: nat) -> Seq<Num>
    decreases n,
{
    if n == 0 {
        Seq::empty()
    } else {
        let rest = edges_at(sorted, positions, (n - 1) as nat);
        let p = if positions[n - 1] < sorted.len() {
            positions[n - 1] as int
        } else {
            sorted.len() - 1
        };
        let edge = sorted[p];
        if rest.len() == 0 || rest.last().below(edge) {
            rest.push(edge)
        } else {
            rest
        }
    }
}

/// The edges of a column at the given positions of its sorted values.
pub fn cut_column(sorted: &Vec<Num>, positions: &Vec<usize>) -> (edges: Vec<Num>)
    requires
        sorted@.len() > 0,
        forall|i: int| 0 <= i < sorted@.len() ==> (#[trigger] sorted@[i]).finite(),
    ensures
        edges@ == edges_at(sorted@, positions@, positions@.len()),
        rising(edges@),
        edges@.len() <= positions@.len(),
{
    let mut edges: Vec<Num> = Vec::new();
    let mut i: usize = 0;
    while i < positions.len()
        invariant
            i <= positions@.len(),
            sorted@.len() > 0,
            forall|k: int| 0 <= k < sorted@.len() ==> (#[trigger] sorted@[k]).finite(),
            edges@ == edges_at(sorted@, positions@, i as nat),
            rising(edges@),
            edges@.len() <= i,
        decreases positions@.len() - i,
    {
        let p: usize = if positions[i] < sorted.len() { positions[i] } else { sorted.len() - 1 };
        let edge: Num = sorted[p];
        let n: usize = edges.len();
        if n == 0 || edges[n - 1].lt(&edge) {
            edges.push(edge);
        }
        i = i + 1;
    }
    edges
}

/// How often the effects are fitted in turn: as set, between one and eight times.
pub fn prior_cycles(cycles: usize) -> (r: usize)
    ensures
        r == crate::num::saturate(cycles as int, 1, 8),
{
    if cycles < 1 {
        1
    } else if cycles > 8 {
        8
    } else {
        cycles
    }
}

/// Whether new effects replace the old: their loss, with its penalty, is below
/// the loss without them.
pub fn effects_accepted(penalized: &Num, before: &Num) -> (r: bool)
    ensures
        r == penalized.below(*before),
{
    penalized.lt(before)
}

/// Whether any effect is of a size that matters.
pub open spec fn signals(effects: Seq<Vec<Num>>) -> bool {
    exists|j: int, b: int|
        #![trigger effects[j]@[b]]
        0 <= j < effects.len() && 0 <= b < effects[j]@.len() && (Num { bits: E_MINUS_12 }).below(
            effects[j]@[b].absolute(),
        )
}

pub fn has_signal(effects: &Vec<Vec<Num>>) -> (r: bool)
    ensures
        r == signals(effects@),
{
    let tiny: Num = Num { bits: E_MINUS_12 };
    let mut j: usize = 0;
    while j < effects.len()
        invariant
            j <= effects@.len(),
            tiny.bits == E_MINUS_12,
            forall|k: int, b: int|
                #![trigger effects@[k]@[b]]
                0 <= k < j && 0 <= b < effects@[k]@.len() ==> !tiny.below(effects@[k]@[b].absolute()),
        decreases effects@.len() - j,
    {
        let mut b: usize = 0;
        while b < effects[j].len()
            invariant
                j < effects@.len(),
                b <= effects@[j as int]@.len(),
                tiny.bits == E_MINUS_12,
                forall|c: int|
                    #![trigger effects@[j as int]@[c]]
                    0 <= c < b ==> !tiny.below(effects@[j as int]@[c].absolute()),
            decreases effects@[j as int]@.len() - b,
        {
            if tiny.lt(&effects[j][b].abs()) {
                assert((Num { bits: E_MINUS_12 }).below(effects@[j as int]@[b as int].absolute()));
                return true;
            }
            b = b + 1;
        }
        j = j + 1;
    }
    false
}

/// The weight of a row: the one given where it is finite and above zero, else one.
pub open spec fn weight_or_one(weights: Option<Vec<Num>>, row: int) -> Num {
    match weights {
        Some(v) => if row < v@.len() && v@[row].finite() && positive(v@[row]) {
            v@[row]
        } else {
            Num { bits: ONE }
        },
        None => Num { bits: ONE },
    }
}

/// A row's sample weight in a prior: the one given where it is finite and
/// above zero, and one otherwise.
pub fn prior_weight(weights: &Option<Vec<Num>>, row: usize) -> (w: Num)
    ensures
        w == weight_or_one(*weights, row as int),
{
    let one: Num = Num { bits: ONE };
    match weights {
        Some(v) => if row < v.len() && v[row].is_finite() && is_positive(&v[row]) {
            v[row]
        } else {
            one
        },
        None => one,
    }
}

/// A weight as the mean takes it: nothing below zero, and nothing that is not finite.
pub open spec fn weight_or_zero(weight: Num) -> Num {
    if weight.finite() {
        weight.larger(Num { bits: 0 })
    } else {
        Num { bits: 0 }
    }
}

/// A row's sample weight in a base score: zero where it is negative or not finite.
pub fn base_weight(weight: &Num) -> (w: Num)
    ensures
        w == weight_or_zero(*weight),
{
    let zero: Num = Num { bits: 0 };
    if weight.is_finite() {
        weight.max(&zero)
    } else {
        zero
    }
}

/// A weight that is finite and above zero counts as it was given, whatever its size;
/// a row without one counts once.
pub proof fn law_prior_weights_are_as_given(weights: Option<Vec<Num>>, row: int)
    requires
        0 <= row,
    ensures
        weights is None ==> weight_or_one(weights, row).bits == 0x3ff0_0000_0000_0000,
        weights matches Some(v) ==> {
            if row < v@.len() && 0 < v@[row].bits < 0x7ff0_0000_0000_0000 {
                weight_or_one(weights, row) == v@[row]
            } else {
                weight_or_one(weights, row).bits == 0x3ff0_0000_0000_0000
            }
        },
{
}

/// In a mean a finite weight counts as it was given, and as nothing below zero; one
/// that is not finite counts as nothing.
pub proof fn law_mean_weights_are_as_given(weight: Num)
    ensures
        weight.finite() && weight.scaled() >= 0 ==> weight_or_zero(weight).scaled() == weight.scaled(),
        weight.finite() && weight.scaled() < 0 ==> weight_or_zero(weight).scaled() == 0,
        !weight.finite() ==> weight_or_zero(weight).scaled() == 0,
        weight_or_zero(weight).finite(),
{
    let zero = Num { bits: 0 };
    assert(crate::num::scaled_magnitude(0) == 0);
    assert(zero.scaled() == 0);
    if weight.finite() {
        crate::num::law_key_orders_values(weight, zero);
    }
}

/// A higher value is in no lower bin, values that stand on different sides of an
/// edge are in different bins, and a value that is not finite shares its bin with
/// no finite one.
pub proof fn law_bins_rise(edges: Seq<Num>, u: Num, v: Num, a: int, b: int)
    requires
        rising(edges),
        is_bin(edges, u, a),
        is_bin(edges, v, b),
    ensures
        u.finite() && v.finite() && u.scaled() <= v.scaled() ==> a <= b,
        u.finite() && v.finite() ==> (a < b <==> exists|i: int|
            0 <= i < edges.len() && u.scaled() <= (#[trigger] edges[i]).scaled() < v.scaled()),
        u.finite() && !v.finite() ==> a < b,
        !u.finite() && !v.finite() ==> a == b,
        u.finite() ==> 0 <= a <= edges.len(),
{
    if u.finite() && v.finite() {
        crate::num::law_key_orders_values(u, v);
        if a < b {
            crate::num::law_key_orders_values(u, edges[a]);
            crate::num::law_key_orders_values(edges[a], v);
            assert(u.scaled() <= edges[a].scaled() < v.scaled());
        }
        if exists|i: int| 0 <= i < edges.len() && u.scaled() <= (#[trigger] edges[i]).scaled() < v.scaled() {
            let i = choose|i: int| 0 <= i < edges.len() && u.scaled() <= (#[trigger] edges[i]).scaled() < v.scaled();
            crate::num::law_key_orders_values(u, edges[i]);
            crate::num::law_key_orders_values(edges[i], v);
            assert(a <= i);
            assert(i < b);
        }
        if u.scaled() <= v.scaled() && b < a {
            assert(edges[b].below(u));
            assert(v.at_most(edges[b]));
            assert(false);
        }
    }
}

/// A prior is fitted for two kinds of task, each in its own way, exactly where it is
/// enabled and the data is complete.
pub proof fn law_priors_suit_the_task(
    enabled: bool,
    task: Task,
    n_rows: int,
    n_features: int,
    n_cells: int,
    n_targets: int,
)
    requires
        0 <= n_rows,
        0 <= n_features,
    ensures
        ({
            let kind = prior_kind(enabled, task, n_rows, n_features, n_cells, n_targets);
            let complete = n_rows > 0 && n_features > 0 && n_cells >= n_rows * n_features && n_targets == n_rows;
            &&& kind == PriorKind::Binary <==> enabled && complete && task == Task::Binary
            &&& kind == PriorKind::Regression <==> enabled && complete && task == Task::Regression
        }),
{
}

/// The finite values of a column are those of its rows that are finite, in the order
/// of the rows: the column of more rows begins with that of fewer.
pub proof fn law_columns_hold_finite_values(x: Seq<Num>, n_features: int, feat: int, n: nat, row: int)
    requires
        0 <= row < n,
    ensures
        x[row * n_features + feat].finite() ==> finite_column(x, n_features, feat, n).contains(
            x[row * n_features + feat],
        ),
        finite_column(x, n_features, feat, row as nat).is_prefix_of(finite_column(x, n_features, feat, n)),
        finite_column(x, n_features, feat, (row + 1) as nat).len() == finite_column(x, n_features, feat, row as nat).len()
            + (if x[row * n_features + feat].finite() {
            1int
        } else {
            0
        }),
    decreases n,
{
    let rest = finite_column(x, n_features, feat, (n - 1) as nat);
    let all = finite_column(x, n_features, feat, n);
    if row < n - 1 {
        law_columns_hold_finite_values(x, n_features, feat, (n - 1) as nat, row);
        if x[row * n_features + feat].finite() {
            let k = choose|k: int| 0 <= k < rest.len() && rest[k] == x[row * n_features + feat];
            assert(all[k] == rest[k]);
        }
    } else if x[row * n_features + feat].finite() {
        assert(all[all.len() - 1] == x[row * n_features + feat]);
    }
}

/// The edges of a column are values of it, and every cut has its edge: the value at
/// the cut is an edge itself.
pub proof fn law_every_cut_has_its_edge(sorted: Seq<Num>, positions: Seq<usize>, n: nat, i: int)
    requires
        0 <= i < n <= positions.len(),
        sorted.len() > 0,
        forall|k: int| 0 <= k < sorted.len() ==> (#[trigger] sorted[k]).finite(),
        forall|k: int, l: int|
            #![trigger sorted[k], sorted[l]]
            0 <= k <= l < sorted.len() ==> sorted[k].key() <= sorted[l].key(),
        forall|k: int, l: int|
            #![trigger positions[k], positions[l]]
            0 <= k <= l < positions.len() ==> positions[k] <= positions[l],
    ensures
        ({
            let edges = edges_at(sorted, positions, n);
            let cut = sorted[if positions[i] < sorted.len() {
                positions[i] as int
            } else {
                sorted.len() - 1
            }];
            &&& exists|e: int| 0 <= e < edges.len() && (#[trigger] edges[e]).key() == cut.key()
            &&& edges.len() > 0
            &&& edges.last().key() == sorted[if positions[n - 1] < sorted.len() {
                positions[n - 1] as int
            } else {
                sorted.len() - 1
            }].key()
        }),
    decreases n,
{
    let rest = edges_at(sorted, positions, (n - 1) as nat);
    let edges = edges_at(sorted, positions, n);
    let at = if positions[n - 1] < sorted.len() {
        positions[n - 1] as int
    } else {
        sorted.len() - 1
    };
    if n >= 2 {
        let k = if i < n - 1 {
            i
        } else {
            n - 2
        };
        law_every_cut_has_its_edge(sorted, positions, (n - 1) as nat, k);
        let before = if positions[n - 2] < sorted.len() {
            positions[n - 2] as int
        } else {
            sorted.len() - 1
        };
        assert(positions[n - 2] <= positions[n - 1]);
        assert(before <= at);
        assert(rest.last().key() == sorted[before].key());
        assert(sorted[before].key() <= sorted[at].key());
        assert(!rest.last().nan()) by {
            assert(rest.last().key() == sorted[before].key());
        }
        assert(edges.last().key() == sorted[at].key());
        if i < n - 1 {
            let cut = sorted[if positions[i] < sorted.len() {
                positions[i] as int
            } else {
                sorted.len() - 1
            }];
            let e = choose|e: int| 0 <= e < rest.len() && (#[trigger] rest[e]).key() == cut.key();
            assert(edges[e].key() == cut.key());
        } else {
            assert(edges[edges.len() - 1].key() == sorted[at].key());
        }
    } else {
        assert(rest.len() == 0);
        assert(edges[0] == sorted[at]);
    }
}

/// A row takes from every feature the effect of the bin that its value is in, where the
/// feature has effects beside the flat one, and nothing else.
pub proof fn law_rows_take_effects_of_their_bins(prior: VerticalPrior, row: Seq<Num>, j: nat, b: int)
    requires
        j < prior.edges@.len(),
        j < row.len(),
        is_bin(prior.edges@[j as int]@, row[j as int], b),
    ensures
        ({
            let effects = prior.effects@[j as int]@;
            let before = effects_on(prior, row, j);
            let after = effects_on(prior, row, j + 1);
            &&& effects.len() > 1 && b < effects.len() ==> after == before.push(effects[b])
            &&& effects.len() <= 1 || b >= effects.len() ==> after == before
        }),
        effects_on(prior, row, 0).len() == 0,
{
    let edges = prior.edges@[j as int]@;
    let bin = choose|c: int| is_bin(edges, row[j as int], c);
    assert(is_bin(edges, row[j as int], bin));
    law_bin_is_unique(edges, row[j as int], bin, b);
}

/// Edges are finite and rise strictly.
pub proof fn law_edges_rise(edges: Seq<Num>, i: int, j: int)
    requires
        rising(edges),
        0 <= i < j < edges.len(),
    ensures
        edges[i].scaled() < edges[j].scaled(),
        edges[i].finite() && edges[j].finite(),
{
    assert(edges[i].key() < edges[j].key());
    crate::num::law_key_orders_values(edges[i], edges[j]);
}

} // verus!
