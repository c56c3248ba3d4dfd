//! Gradient-based one-side sampling: the rows of highest importance, and a
//! random sample of the others.

use crate::bits::{POINT_01, POINT_99};
use crate::num::Num;
use crate::order::{is_ranking, rank_descending};
use crate::random::draw_between;
use crate::sampling::{
    draws_valid, exchange_front, exchanges, law_sample_within_pool, lemma_exchanges, taken_from,
};
use crate::select::at_most;
use rand::rngs::StdRng;
use vstd::prelude::*;

verus! {

/// How a row enters the sample, which decides the scale of its gradient.
#[derive(Clone, Copy, PartialEq, Eq, Structural, Debug)]
pub enum RowScale {
    /// Not selected: scale 0.
    Unused,
    /// Among the most important rows: scale 1.
    Top,
    /// Drawn from the other rows: scaled up by the inverse of their rate.
    Other,
}

pub struct GossSample {
    pub selected: Vec<u32>,
    pub scales: Vec<RowScale>,
}

/// The order keys of a list of numbers.
pub open spec fn order_keys(v: Seq<Num>) -> Seq<i64> {
    Seq::new(v.len(), |i: int| v[i].key() as i64)
}

pub fn keys_of(v: &Vec<Num>) -> (keys: Vec<i64>)
    ensures
        keys@ == order_keys(v@),
{
    let mut keys: Vec<i64> = Vec::new();
    let mut i: usize = 0;
    while i < v.len()
        invariant
            i <= v@.len(),
            keys@.len() == i,
            forall|k: int| 0 <= k < i ==> #[trigger] keys@[k] == v@[k].key(),
        decreases v@.len() - i,
    {
        keys.push(v[i].order_key());
        i = i + 1;
    }
    assert(keys@ =~= order_keys(v@));
    keys
}

/// Row indices as row numbers.
pub open spec fn numbers(order: Seq<usize>) -> Seq<u32> {
    Seq::new(order.len(), |i: int| order[i] as u32)
}

impl GossSample {
    /// The sample starts with the `top` first rows of the ranking, goes on with
    /// rows of the rest, and marks each row accordingly.
    pub open spec fn draws_from(&self, order: Seq<usize>, top: int) -> bool {
        &&& top <= self.selected@.len() <= order.len()
        &&& self.selected@.take(top) == numbers(order).take(top)
        &&& taken_from(self.selected@.skip(top), numbers(order).skip(top))
        &&& self.scales@.len() == order.len()
        &&& forall|i: int|
            0 <= i < order.len() ==> {
                &&& (#[trigger] self.scales@[i] == RowScale::Top) <==> self.selected@.take(top).contains(i as u32)
                &&& (self.scales@[i] == RowScale::Other) <==> self.selected@.skip(top).contains(i as u32)
            }
    }
}

/// The number of rows that are taken for their importance.
pub open spec fn top_rows(top_product: Num, n: int) -> int {
    at_most(
        if top_product.counted() > 1 {
            top_product.counted()
        } else {
            1
        },
        n,
    )
}

/// A row is selected at most once.
pub proof fn law_goss_selects_once(sample: GossSample, keys: Seq<i64>, order: Seq<usize>, top: int)
    requires
        is_ranking(keys, order),
        keys.len() <= u32::MAX,
        0 <= top,
        sample.draws_from(order, top),
    ensures
        sample.selected@.no_duplicates(),
{
    let all = numbers(order);
    let s = sample.selected@;
    assert(all.no_duplicates());
    assert(all.skip(top).no_duplicates());
    law_sample_within_pool(s.skip(top), all.skip(top));
    assert forall|i: int, j: int| 0 <= i < j < s.len() implies s[i] != s[j] by {
        if j < top {
            assert(s.take(top)[i] == s[i] && s.take(top)[j] == s[j]);
            assert(all.take(top)[i] == all[i] && all.take(top)[j] == all[j]);
        } else if i >= top {
            assert(s.skip(top)[i - top] == s[i]);
            assert(s.skip(top)[j - top] == s[j]);
        } else {
            assert(s.take(top)[i] == s[i]);
            assert(all.take(top)[i] == all[i]);
            assert(s.skip(top)[j - top] == s[j]);
            assert(all.skip(top).contains(s[j]));
            let p = choose|p: int| 0 <= p < all.skip(top).len() && all.skip(top)[p] == s[j];
            assert(all[p + top] == s[j]);
        }
    }
}

/// The sample of a ranking: its first `top` rows, and the rest exchanged as the draws say.
pub fn goss_from_draws(order: &Vec<usize>, top: usize, draws: &Vec<usize>) -> (sample: GossSample)
    requires
        top <= order@.len() <= u32::MAX,
        forall|i: int| 0 <= i < order@.len() ==> #[trigger] order@[i] < order@.len(),
        order@.no_duplicates(),
        draws_valid(draws@, order@.len() - top),
    ensures
        sample.selected@ == numbers(order@).take(top as int) + exchanges(
            numbers(order@).skip(top as int),
            draws@,
        ).take(draws@.len() as int),
        sample.draws_from(order@, top as int),
{
    let n: usize = order.len();
    let mut selected: Vec<u32> = Vec::new();
    let mut rest: Vec<u32> = Vec::new();
    let mut scales: Vec<RowScale> = Vec::new();
    let mut i: usize = 0;
    while i < n
        invariant
            i <= n,
            n == order@.len(),
            top <= n <= u32::MAX,
            forall|k: int| 0 <= k < order@.len() ==> #[trigger] order@[k] < order@.len(),
            scales@.len() == i,
            forall|k: int| 0 <= k < i ==> #[trigger] scales@[k] == RowScale::Unused,
            selected@.len() == at_most(i as int, top as int),
            rest@.len() == i - selected@.len(),
            forall|k: int| 0 <= k < selected@.len() ==> #[trigger] selected@[k] == order@[k],
            forall|k: int| 0 <= k < rest@.len() ==> #[trigger] rest@[k] == order@[top + k],
        decreases n - i,
    {
        if i < top {
            selected.push(order[i] as u32);
        } else {
            rest.push(order[i] as u32);
        }
        scales.push(RowScale::Unused);
        i = i + 1;
    }
    assert(selected@ =~= numbers(order@).take(top as int));
    assert(rest@ =~= numbers(order@).skip(top as int));
    let others: Vec<u32> = exchange_front(&rest, draws);
    let head = Ghost(selected@);
    proof {
        lemma_exchanges(rest@, draws@);
        law_sample_within_pool(others@, rest@);
        assert forall|x: u32| #[trigger] others@.contains(x) implies x < n && !head@.contains(x) by {
            let p = choose|p: int| 0 <= p < others@.len() && others@[p] == x;
            assert(rest@.contains(others@[p]));
            let q = choose|q: int| 0 <= q < rest@.len() && rest@[q] == x;
            assert(order@[top + q] == x);
            if head@.contains(x) {
                let r = choose|r: int| 0 <= r < head@.len() && head@[r] == x;
                assert(order@[r] == x);
            }
        }
    }
    let mut t: usize = 0;
    while t < top
        invariant
            t <= top <= n,
            n == order@.len(),
            n <= u32::MAX,
            scales@.len() == n,
            selected@.len() == top,
            forall|k: int| 0 <= k < order@.len() ==> #[trigger] order@[k] < order@.len(),
            forall|k: int| 0 <= k < top ==> #[trigger] selected@[k] == order@[k],
            forall|k: int|
                0 <= k < n ==> (#[trigger] scales@[k] == RowScale::Top <==> selected@.take(t as int).contains(k as u32)),
            forall|k: int| 0 <= k < n ==> #[trigger] scales@[k] != RowScale::Other,
        decreases top - t,
    {
        let row: usize = selected[t] as usize;
        let before = Ghost(scales@);
        scales.set(row, RowScale::Top);
        proof {
            let a = selected@.take(t as int);
            let b = selected@.take(t + 1);
            assert(b =~= a.push(selected@[t as int]));
            assert forall|k: int| 0 <= k < n implies (#[trigger] scales@[k] == RowScale::Top <==> b.contains(k as u32)) by {
                assert(before@[k] == RowScale::Top <==> a.contains(k as u32));
                assert(b[t as int] == row as u32);
                if a.contains(k as u32) {
                    let p = choose|p: int| 0 <= p < a.len() && a[p] == k as u32;
                    assert(b[p] == a[p]);
                }
                if b.contains(k as u32) && k != row {
                    let p = choose|p: int| 0 <= p < b.len() && b[p] == k as u32;
                    assert(a[p] == b[p]);
                }
            }
        }
        t = t + 1;
    }
    assert(selected@.take(top as int) =~= head@);
    let mut o: usize = 0;
    while o < others.len()
        invariant
            o <= others@.len(),
            n == order@.len(),
            n <= u32::MAX,
            scales@.len() == n,
            head@.len() == top,
            selected@ == head@ + others@.take(o as int),
            forall|x: u32| #[trigger] others@.contains(x) ==> x < n && !head@.contains(x),
            forall|k: int|
                0 <= k < n ==> (#[trigger] scales@[k] == RowScale::Top <==> head@.contains(k as u32)),
            forall|k: int|
                0 <= k < n ==> (#[trigger] scales@[k] == RowScale::Other <==> others@.take(o as int).contains(k as u32)),
        decreases others@.len() - o,
    {
        let row: u32 = others[o];
        assert(others@.contains(row));
        let before = Ghost(scales@);
        scales.set(row as usize, RowScale::Other);
        selected.push(row);
        proof {
            let a = others@.take(o as int);
            let b = others@.take(o + 1);
            assert(b =~= a.push(row));
            assert(selected@ =~= head@ + b);
            assert forall|k: int| 0 <= k < n implies (#[trigger] scales@[k] == RowScale::Other <==> b.contains(k as u32)) by {
                assert(before@[k] == RowScale::Other <==> a.contains(k as u32));
                assert(b[o as int] == row);
                if a.contains(k as u32) {
                    let p = choose|p: int| 0 <= p < a.len() && a[p] == k as u32;
                    assert(b[p] == a[p]);
                }
                if b.contains(k as u32) && k != row {
                    let p = choose|p: int| 0 <= p < b.len() && b[p] == k as u32;
                    assert(a[p] == b[p]);
                }
            }
            assert forall|k: int| 0 <= k < n implies (#[trigger] scales@[k] == RowScale::Top <==> head@.contains(k as u32)) by {
                assert(before@[k] == RowScale::Top <==> head@.contains(k as u32));
            }
        }
        o = o + 1;
    }
    assert(others@.take(others@.len() as int) =~= others@);
    assert(selected@.take(top as int) =~= head@);
    assert(selected@.skip(top as int) =~= others@);
    GossSample { selected, scales }
}

/// Selects rows by importance: `top_product` and `other_product` are the rates
/// of the two parts times the number of rows. The most important rows come
/// first, by falling importance with equal rows in index order.
pub fn goss_select(
    rng: &mut StdRng,
    importance: &Vec<Num>,
    top_product: &Num,
    other_product: &Num,
) -> (sample: GossSample)
    requires
        importance@.len() <= u32::MAX,
        forall|i: int| 0 <= i < importance@.len() ==> !(#[trigger] importance@[i]).nan(),
    ensures
        ({
            let n = importance@.len() as int;
            let top = top_rows(*top_product, n);
            &&& sample.selected@.len() == top + at_most(other_product.counted(), n - top)
            &&& exists|order: Seq<usize>| #[trigger]
                is_ranking(order_keys(importance@), order) && sample.draws_from(order, top)
        }),
{
    let n: usize = importance.len();
    let keys: Vec<i64> = keys_of(importance);
    let order: Vec<usize> = rank_descending(&keys);
    let wanted: usize = top_product.to_usize();
    let at_least: usize = if wanted > 1 { wanted } else { 1 };
    let top: usize = if at_least < n { at_least } else { n };
    let others: usize = other_product.to_usize();
    let left: usize = n - top;
    let pick: usize = if others < left { others } else { left };
    let mut draws: Vec<usize> = Vec::new();
    let mut i: usize = 0;
    while i < pick
        invariant
            i <= pick <= left,
            draws@.len() == i,
            forall|p: int| 0 <= p < i ==> p <= #[trigger] draws@[p] < left,
        decreases pick - i,
    {
        draws.push(draw_between(rng, i, left));
        i = i + 1;
    }
    let sample: GossSample = goss_from_draws(&order, top, &draws);
    proof {
        lemma_exchanges(numbers(order@).skip(top as int), draws@);
    }
    sample
}

/// The two rates held to what can be sampled.
pub open spec fn held_rates(top_rate: Num, other_rate: Num) -> (Num, Num) {
    (
        top_rate.clamped(Num { bits: POINT_01 }, Num { bits: POINT_99 }),
        other_rate.clamped(Num { bits: 0 }, Num { bits: POINT_99 }),
    )
}

/// The limits that the two rates are held to: the top rate between 0.01 and
/// 0.99, the other between 0 and 0.99.
pub fn goss_rates(top_rate: &Num, other_rate: &Num) -> (r: (Num, Num))
    ensures
        r == held_rates(*top_rate, *other_rate),
{
    let low: Num = Num { bits: POINT_01 };
    let zero: Num = Num { bits: 0 };
    let high: Num = Num { bits: POINT_99 };
    (top_rate.clamp(&low, &high), other_rate.clamp(&zero, &high))
}

/// Where class `k` of row `i` stands in a class-major table.
pub open spec fn class_major(k: int, n_rows: int, i: int) -> int {
    k * n_rows + i
}

/// The highest of zero and the first `n` values of row `i` in a class-major
/// table; NaN is passed over.
pub open spec fn row_max(values: Seq<Num>, n_rows: int, i: int, n: nat) -> Num
    decreases n,
{
    if n == 0 {
        Num { bits: 0 }
    } else {
        let best = row_max(values, n_rows, i, (n - 1) as nat);
        let v = values[class_major(n - 1, n_rows, i)];
        if best.below(v) {
            v
        } else {
            best
        }
    }
}

/// How much a row matters to a split.
#[derive(Clone, Copy, PartialEq, Eq, Structural, Debug)]
pub enum ImportanceForm {
    /// The squared gradient over the curvature.
    Gain,
    /// The size of the gradient.
    Gradient,
}

pub open spec fn importance_named(mode: Seq<char>) -> ImportanceForm {
    if mode == "classic"@ {
        ImportanceForm::Gradient
    } else {
        ImportanceForm::Gain
    }
}

/// The importance that a mode names; every other name is for the gain.
pub fn goss_importance_form(mode: &String) -> (r: ImportanceForm)
    ensures
        r == importance_named(mode@),
{
    if *mode == "classic".to_string() {
        ImportanceForm::Gradient
    } else {
        ImportanceForm::Gain
    }
}

/// The importance of each row over all classes: the highest of its class values.
pub fn goss_importance_multi(values: &Vec<Num>, n_rows: usize, n_classes: usize) -> (importance: Vec<Num>)
    requires
        n_rows * n_classes <= values@.len(),
    ensures
        importance@.len() == n_rows,
        forall|i: int|
            0 <= i < n_rows ==> #[trigger] importance@[i] == row_max(values@, n_rows as int, i, n_classes as nat),
{
    let mut importance: Vec<Num> = Vec::new();
    let mut i: usize = 0;
    while i < n_rows
        invariant
            i <= n_rows,
            n_rows * n_classes <= values@.len(),
            importance@.len() == i,
            forall|r: int|
                0 <= r < i ==> #[trigger] importance@[r] == row_max(values@, n_rows as int, r, n_classes as nat),
        decreases n_rows - i,
    {
        let mut best: Num = Num { bits: 0 };
        let mut k: usize = 0;
        while k < n_classes
            invariant
                k <= n_classes,
                i < n_rows,
                n_rows * n_classes <= values@.len(),
                best == row_max(values@, n_rows as int, i as int, k as nat),
            decreases n_classes - k,
        {
            assert(k * n_rows + n_rows <= n_rows * n_classes) by (nonlinear_arith)
                requires
                    k < n_classes,
            ;
            assert(values.len() == values@.len());
            let v: Num = values[k * n_rows + i];
            if best.lt(&v) {
                best = v;
            }
            k = k + 1;
        }
        importance.push(best);
        i = i + 1;
    }
    importance
}

/// The rows of highest importance are always taken: no row beside them is more important
/// than one of them.
pub proof fn law_goss_keeps_the_most_important(
    sample: GossSample,
    importance: Seq<Num>,
    order: Seq<usize>,
    top: int,
    p: int,
    row: int,
)
    requires
        importance.len() <= u32::MAX,
        forall|i: int| 0 <= i < importance.len() ==> !(#[trigger] importance[i]).nan(),
        is_ranking(order_keys(importance), order),
        sample.draws_from(order, top),
        0 <= p < top,
        0 <= row < importance.len(),
    ensures
        sample.selected@[p] < importance.len(),
        sample.scales@.len() == importance.len(),
        sample.scales@[sample.selected@[p] as int] == RowScale::Top,
        sample.scales@[row] != RowScale::Top ==> importance[row].at_most(importance[sample.selected@[p] as int]),
        sample.scales@[row] == RowScale::Unused <==> !sample.selected@.contains(row as u32),
{
    let keys = order_keys(importance);
    assert(sample.selected@.take(top)[p] == numbers(order).take(top)[p]);
    assert(sample.selected@[p] == order[p] as u32);
    assert(order[p] < importance.len());
    assert(sample.selected@.take(top).contains(order[p] as u32));
    assert(sample.scales@[order[p] as int] == RowScale::Top);
    let head = sample.selected@.take(top);
    let tail = sample.selected@.skip(top);
    assert(sample.selected@.contains(row as u32) <==> head.contains(row as u32) || tail.contains(row as u32)) by {
        if head.contains(row as u32) {
            let k = choose|k: int| 0 <= k < head.len() && head[k] == row as u32;
            assert(sample.selected@[k] == row as u32);
        }
        if tail.contains(row as u32) {
            let k = choose|k: int| 0 <= k < tail.len() && tail[k] == row as u32;
            assert(sample.selected@[top + k] == row as u32);
        }
        if sample.selected@.contains(row as u32) {
            let k = choose|k: int| 0 <= k < sample.selected@.len() && sample.selected@[k] == row as u32;
            if k < top {
                assert(head[k] == row as u32);
            } else {
                assert(tail[k - top] == row as u32);
            }
        }
    }
    if sample.scales@[row] != RowScale::Top {
        crate::order::lemma_ranking_covers(keys, order, 0, keys.len() as int, row);
        let q = choose|q: int| 0 <= q < order.len() && order[q] == row as usize;
        if q < top {
            assert(numbers(order).take(top)[q] == row as u32);
            assert(head[q] == row as u32);
            assert(false);
        }
        assert(crate::order::precedes(keys, order[p] as int, order[q] as int));
        assert(!importance[row].nan() && !importance[order[p] as int].nan());
        assert(keys[row] == importance[row].key());
        assert(keys[order[p] as int] == importance[order[p] as int].key());
    }
}

/// At least one row counts as important, at most all of them, and else the whole part of
/// their share.
pub proof fn law_important_rows_are_a_share(product: Num, n: int)
    requires
        1 <= n <= usize::MAX,
    ensures
        1 <= top_rows(product, n) <= n,
        1 <= product.counted() <= n ==> top_rows(product, n) == product.counted(),
        product.counted() > n ==> top_rows(product, n) == n,
{
}

/// Rates are used as they are given within what can be sampled.
pub proof fn law_rates_are_held_to_samples(top_rate: Num, other_rate: Num)
    requires
        top_rate.finite(),
        other_rate.finite(),
    ensures
        ({
            let low = Num { bits: 0x3f84_7ae1_47ae_147b };
            let high = Num { bits: 0x3fef_ae14_7ae1_47ae };
            let (t, o) = held_rates(top_rate, other_rate);
            &&& low.scaled() <= top_rate.scaled() <= high.scaled() ==> t == top_rate
            &&& top_rate.scaled() < low.scaled() ==> t == low
            &&& high.scaled() < top_rate.scaled() ==> t == high
            &&& 0 <= other_rate.scaled() <= high.scaled() ==> o == other_rate
            &&& other_rate.scaled() < 0 ==> o.bits == 0
            &&& high.scaled() < other_rate.scaled() ==> o == high
        }),
{
    let zero = Num { bits: 0 };
    assert(crate::num::scaled_magnitude(0) == 0);
    assert(zero.scaled() == 0);
    crate::num::law_key_orders_values(top_rate, Num { bits: POINT_01 });
    crate::num::law_key_orders_values(Num { bits: POINT_99 }, top_rate);
    crate::num::law_key_orders_values(other_rate, zero);
    crate::num::law_key_orders_values(Num { bits: POINT_99 }, other_rate);
}

/// With many classes a row is as important as it is to the class it matters to most.
pub proof fn law_rows_matter_to_their_class(values: Seq<Num>, n_rows: int, i: int, n: nat, k: int)
    requires
        0 <= k < n,
        forall|c: int| 0 <= c < n ==> !(#[trigger] values[c * n_rows + i]).nan(),
    ensures
        values[k * n_rows + i].at_most(row_max(values, n_rows, i, n)),
        row_max(values, n_rows, i, n).bits == 0 || exists|c: int|
            0 <= c < n && #[trigger] values[c * n_rows + i] == row_max(values, n_rows, i, n),
    decreases n,
{
    lemma_row_max(values, n_rows, i, n);
    lemma_row_max(values, n_rows, i, (n - 1) as nat);
    assert(!values[(n - 1) * n_rows + i].nan());
    assert(class_major(n - 1, n_rows, i) == (n - 1) * n_rows + i);
    if k < n - 1 {
        law_rows_matter_to_their_class(values, n_rows, i, (n - 1) as nat, k);
    }
}

proof fn lemma_row_max(values: Seq<Num>, n_rows: int, i: int, n: nat)
    requires
        forall|c: int| 0 <= c < n ==> !(#[trigger] values[c * n_rows + i]).nan(),
    ensures
        !row_max(values, n_rows, i, n).nan(),
        row_max(values, n_rows, i, n).bits == 0 || exists|c: int|
            0 <= c < n && #[trigger] values[c * n_rows + i] == row_max(values, n_rows, i, n),
    decreases n,
{
    if n > 0 {
        lemma_row_max(values, n_rows, i, (n - 1) as nat);
        assert(!values[(n - 1) * n_rows + i].nan());
        if row_max(values, n_rows, i, n) != row_max(values, n_rows, i, (n - 1) as nat) {
            assert(values[(n - 1) * n_rows + i] == row_max(values, n_rows, i, n));
        }
    }
}

/// Importance is the gain of a row unless the classic form is named.
pub proof fn law_importance_is_named(mode: Seq<char>)
    ensures
        importance_named(mode) == ImportanceForm::Gradient <==> mode == seq!['c', 'l', 'a', 's', 's', 'i', 'c'],
{
    reveal_strlit("classic");
    assert("classic"@ =~= seq!['c', 'l', 'a', 's', 's', 'i', 'c']);
}

} // verus!
