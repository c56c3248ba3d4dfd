//! Order statistics: medians, trimmed sums and rank sums, as positions.

use crate::bits::{E_MINUS_12, HALF};
use crate::goss::{keys_of, order_keys};
use crate::groups::all_rows;
use crate::num::Num;
use crate::order::{is_ascending_ranking, rank_ascending};
use vstd::prelude::*;

verus! {

/// The two middle positions of a list in ascending order; they are the same
/// where its length is odd.
pub open spec fn middles(order: Seq<usize>) -> (usize, usize) {
    let n = order.len() as int;
    if n % 2 == 1 {
        (order[n / 2], order[n / 2])
    } else {
        (order[n / 2 - 1], order[n / 2])
    }
}

fn ascending(values: &Vec<Num>) -> (order: Vec<usize>)
    ensures
        is_ascending_ranking(order_keys(values@), order@),
{
    let keys: Vec<i64> = keys_of(values);
    rank_ascending(&keys)
}

/// Where the median of a list lies: at one position or halfway between two;
/// nowhere in an empty list.
pub fn median_positions(values: &Vec<Num>) -> (r: Option<(usize, usize)>)
    requires
        forall|i: int| 0 <= i < values@.len() ==> !(#[trigger] values@[i]).nan(),
    ensures
        r is None <==> values@.len() == 0,
        r matches Some(p) ==> exists|order: Seq<usize>| #[trigger]
            is_ascending_ranking(order_keys(values@), order) && p == middles(order),
{
    let n: usize = values.len();
    if n == 0 {
        return None;
    }
    let order: Vec<usize> = ascending(values);
    assert(is_ascending_ranking(order_keys(values@), order@));
    if n % 2 == 1 {
        Some((order[n / 2], order[n / 2]))
    } else {
        Some((order[n / 2 - 1], order[n / 2]))
    }
}

/// The distance between the rows that a scale is estimated from: one in as
/// many as keep the sample at 16384 rows.
pub open spec fn sample_stride(n: int) -> int {
    if n <= 16384 {
        1
    } else {
        (n + 16383) / 16384
    }
}

/// The rows that a scale is estimated from.
pub fn stride_rows(n: usize) -> (rows: Vec<usize>)
    ensures
        rows@.len() * sample_stride(n as int) >= n,
        n > 0 ==> (rows@.len() - 1) * sample_stride(n as int) < n,
        rows@.len() <= 16384,
        forall|i: int| 0 <= i < rows@.len() ==> #[trigger] rows@[i] == i * sample_stride(n as int) && rows@[i] < n,
{
    let stride: usize = if n <= 16384 { 1 } else { n / 16384 + (if n % 16384 == 0 { 0usize } else { 1usize }) };
    assert(stride == sample_stride(n as int));
    proof {
        vstd::arithmetic::div_mod::lemma_fundamental_div_mod(n as int, stride as int);
        let q = n as int / stride as int;
        if stride >= 2 {
            assert(stride * q >= 2 * q) by (nonlinear_arith)
                requires
                    stride >= 2,
                    q >= 0,
            ;
        }
    }
    let count: usize = n / stride + (if n % stride == 0 { 0usize } else { 1usize });
    proof {
        vstd::arithmetic::div_mod::lemma_fundamental_div_mod(n as int, stride as int);
        let q = n as int / stride as int;
        assert(stride * q == q * stride) by (nonlinear_arith);
        assert((q + 1) * stride == q * stride + stride && (q - 1) * stride == q * stride - stride) by (nonlinear_arith);
        if count > 16384 {
            assert((count - 1) * stride >= 16384 * stride) by (nonlinear_arith)
                requires
                    count - 1 >= 16384,
                    stride >= 1,
            ;
        }
    }
    let mut rows: Vec<usize> = Vec::new();
    let mut k: usize = 0;
    while k < count
        invariant
            k <= count,
            n > 0 ==> (count - 1) * stride < n,
            count > 0 ==> n > 0,
            rows@.len() == k,
            forall|i: int| 0 <= i < k ==> #[trigger] rows@[i] == i * stride && rows@[i] < n,
        decreases count - k,
    {
        assert(0 <= k * stride <= (count - 1) * stride) by (nonlinear_arith)
            requires
                0 <= k <= count - 1,
                0 <= stride,
        ;
        rows.push(k * stride);
        k = k + 1;
    }
    rows
}

/// The positions that a robust sum is taken over: all of them, in order, for
/// fewer than twenty values, and otherwise those that are left when a tenth is
/// cut off at either end of the ascending order.
pub fn trimmed_positions(values: &Vec<Num>) -> (r: Vec<usize>)
    requires
        values@.len() >= 20 ==> forall|i: int| 0 <= i < values@.len() ==> !(#[trigger] values@[i]).nan(),
    ensures
        values@.len() < 20 ==> r@.len() == values@.len() && forall|i: int|
            0 <= i < r@.len() ==> #[trigger] r@[i] == i,
        values@.len() >= 20 ==> exists|order: Seq<usize>| #[trigger]
            is_ascending_ranking(order_keys(values@), order) && r@ == order.subrange(
                values@.len() as int / 10,
                values@.len() - values@.len() as int / 10,
            ),
{
    let n: usize = values.len();
    if n < 20 {
        return all_rows(n);
    }
    let order: Vec<usize> = ascending(values);
    let trim: usize = n / 10;
    let mut r: Vec<usize> = Vec::new();
    let mut p: usize = trim;
    while p < n - trim
        invariant
            trim == n / 10,
            n >= 20,
            trim <= p <= n - trim,
            order@.len() == n,
            r@ == order@.subrange(trim as int, p as int),
        decreases n - trim - p,
    {
        r.push(order[p]);
        p = p + 1;
        assert(r@ =~= order@.subrange(trim as int, p as int));
    }
    assert(is_ascending_ranking(order_keys(values@), order@));
    r
}

/// Whether a target is of the positive class.
pub open spec fn is_hit(y: Num) -> bool {
    (Num { bits: HALF }).below(y)
}

/// The number of positive targets among the first `n`.
pub open spec fn hits(y: Seq<Num>, n: nat) -> nat
    decreases n,
{
    if n == 0 {
        0
    } else {
        hits(y, (n - 1) as nat) + (if is_hit(y[n - 1]) {
            1nat
        } else {
            0
        })
    }
}

/// The number of positive targets among the first `n`.
pub fn count_hits(y: &Vec<Num>, n: usize) -> (r: usize)
    requires
        n <= y@.len(),
    ensures
        r == hits(y@, n as nat),
        r <= n,
{
    let half: Num = Num { bits: HALF };
    let mut r: usize = 0;
    let mut i: usize = 0;
    while i < n
        invariant
            i <= n <= y@.len(),
            half.bits == HALF,
            r <= i,
            r == hits(y@, i as nat),
        decreases n - i,
    {
        if half.lt(&y[i]) {
            r = r + 1;
        }
        i = i + 1;
    }
    r
}

/// The predictions of an evaluation in ascending order, where both classes
/// occur; nothing where the error cannot be taken.
pub fn auc_order(eval_y: &Vec<Num>, eval_preds: &Vec<Num>, n_eval: usize) -> (r: Option<Vec<usize>>)
    requires
        forall|i: int| 0 <= i < eval_preds@.len() ==> !(#[trigger] eval_preds@[i]).nan(),
    ensures
        r is Some <==> 0 < n_eval <= eval_y@.len() && n_eval <= eval_preds@.len() && 0 < hits(eval_y@, n_eval as nat)
            < n_eval,
        r matches Some(order) ==> is_ascending_ranking(order_keys(eval_preds@.take(n_eval as int)), order@),
{
    if n_eval == 0 || eval_y.len() < n_eval || eval_preds.len() < n_eval {
        return None;
    }
    let pos: usize = count_hits(eval_y, n_eval);
    if pos == 0 || pos == n_eval {
        return None;
    }
    let mut front: Vec<Num> = Vec::new();
    let mut i: usize = 0;
    while i < n_eval
        invariant
            i <= n_eval <= eval_preds@.len(),
            front@ == eval_preds@.take(i as int),
        decreases n_eval - i,
    {
        front.push(eval_preds[i]);
        i = i + 1;
        assert(front@ =~= eval_preds@.take(i as int));
    }
    Some(ascending(&front))
}

/// The number of positive targets at the positions `from` up to `to` of an order.
pub open spec fn hits_between(y: Seq<Num>, order: Seq<usize>, from: int, to: int) -> nat
    decreases to - from,
{
    if to <= from {
        0
    } else {
        hits_between(y, order, from, to - 1) + (if is_hit(y[order[to - 1] as int]) {
            1nat
        } else {
            0
        })
    }
}

/// Where group `g` starts, when each group starts where the last one ends.
pub open spec fn group_from(ends: Seq<usize>, g: int) -> int {
    if g == 0 {
        0
    } else {
        ends[g - 1] as int
    }
}

/// Twice the sum of the ranks of the positive targets over the first `g`
/// groups of tied predictions: every member of a group has the mean rank of
/// the group, half the sum of its first and last rank.
pub open spec fn doubled_rank_sum(y: Seq<Num>, order: Seq<usize>, ends: Seq<usize>, g: nat) -> nat
    decreases g,
{
    if g == 0 {
        0
    } else {
        let from = group_from(ends, g - 1);
        let to = ends[g - 1] as int;
        (doubled_rank_sum(y, order, ends, (g - 1) as nat) + hits_between(y, order, from, to) * (from + 1 + to)) as nat
    }
}

/// The group ends cut `n` positions into runs.
pub open spec fn ends_cut(ends: Seq<usize>, n: int) -> bool {
    &&& forall|g: int| 0 <= g < ends.len() ==> group_from(ends, g) < #[trigger] ends[g] <= n
}

/// How many positive targets stand at the positions `from` up to `to`.
fn count_between(y: &Vec<Num>, order: &Vec<usize>, from: usize, to: usize) -> (count: u128)
    requires
        from <= to <= order@.len(),
        forall|i: int| 0 <= i < order@.len() ==> #[trigger] order@[i] < y@.len(),
    ensures
        count == hits_between(y@, order@, from as int, to as int),
        count <= to - from,
{
    let half: Num = Num { bits: HALF };
    let mut count: u128 = 0;
    let mut p: usize = from;
    while p < to
        invariant
            from <= p <= to <= order@.len(),
            half.bits == HALF,
            forall|i: int| 0 <= i < order@.len() ==> #[trigger] order@[i] < y@.len(),
            count == hits_between(y@, order@, from as int, p as int),
            count <= p - from,
        decreases to - p,
    {
        if half.lt(&y[order[p]]) {
            count = count + 1;
        }
        p = p + 1;
    }
    count
}

proof fn lemma_rank_step(total: int, from: int, to: int, count: int)
    requires
        0 <= total <= from * (from + 1),
        0 <= from <= to <= u64::MAX,
        0 <= count <= to - from,
    ensures
        0 <= count * (from + 1 + to),
        total + count * (from + 1 + to) <= to * (to + 1) <= u128::MAX,
{
    assert(0 <= count * (from + 1 + to) <= (to - from) * (from + 1 + to)) by (nonlinear_arith)
        requires
            0 <= count <= to - from,
            0 <= from + 1 + to,
    ;
    assert((to - from) * (from + 1 + to) + from * (from + 1) == to * (to + 1)) by (nonlinear_arith);
    assert(to * (to + 1) <= u64::MAX * (u64::MAX + 1)) by (nonlinear_arith)
        requires
            0 <= to <= u64::MAX,
    ;
}

/// Twice the sum of the ranks of the positive targets, ties at their mean rank.
pub fn positive_rank_sum(y: &Vec<Num>, order: &Vec<usize>, ends: &Vec<usize>) -> (r: u128)
    requires
        ends_cut(ends@, order@.len() as int),
        forall|i: int| 0 <= i < order@.len() ==> #[trigger] order@[i] < y@.len(),
    ensures
        r == doubled_rank_sum(y@, order@, ends@, ends@.len()),
{
    let mut total: u128 = 0;
    let mut g: usize = 0;
    let mut from: usize = 0;
    while g < ends.len()
        invariant
            g <= ends@.len(),
            ends_cut(ends@, order@.len() as int),
            from == group_from(ends@, g as int),
            from <= order@.len(),
            forall|i: int| 0 <= i < order@.len() ==> #[trigger] order@[i] < y@.len(),
            total == doubled_rank_sum(y@, order@, ends@, g as nat),
            total <= from * (from + 1),
        decreases ends@.len() - g,
    {
        let to: usize = ends[g];
        assert(group_from(ends@, g as int) < ends@[g as int] <= order@.len());
        let count: u128 = count_between(y, order, from, to);
        let width: u128 = (from as u128) + 1 + (to as u128);
        proof {
            assert(order.len() == order@.len());
            lemma_rank_step(total as int, from as int, to as int, count as int);
        }
        total = total + count * width;
        from = to;
        g = g + 1;
    }
    total
}

/// The cutoff, or none where the residuals are too few or do not spread.
pub open spec fn huber_cutoff(n_residuals: int, spread: Num, cutoff: Num) -> Num {
    if n_residuals >= 4 && spread.finite() && (Num { bits: E_MINUS_12 }).below(spread) {
        cutoff
    } else {
        Num { bits: 0 }
    }
}

/// The Huber cutoff that the spread of residuals gives: `cutoff`, or none where
/// there are fewer than four residuals or their spread is no number above 1e-12.
pub fn settle_huber_delta(n_residuals: usize, spread: &Num, cutoff: &Num) -> (r: Num)
    ensures
        r == huber_cutoff(n_residuals as int, *spread, *cutoff),
{
    let least: Num = Num { bits: E_MINUS_12 };
    if n_residuals >= 4 && spread.is_finite() && least.lt(spread) {
        *cutoff
    } else {
        Num { bits: 0 }
    }
}

/// The cutoff is used exactly where four residuals or more have a finite spread above
/// the smallest that counts.
pub proof fn law_cutoffs_need_spread(n_residuals: int, spread: Num, cutoff: Num)
    ensures
        n_residuals >= 4 && 0x3d71_9799_812d_ea11 < spread.bits < 0x7ff0_0000_0000_0000 ==> huber_cutoff(
            n_residuals,
            spread,
            cutoff,
        ) == cutoff,
        n_residuals < 4 || !(0x3d71_9799_812d_ea11 < spread.bits < 0x7ff0_0000_0000_0000) ==> huber_cutoff(
            n_residuals,
            spread,
            cutoff,
        ).bits == 0,
{
}

/// The middles of a list part it evenly: as many positions stand before the first as
/// after the second, and they are neighbours or the same.
pub proof fn law_middles_part_evenly(order: Seq<usize>)
    requires
        order.len() > 0,
    ensures
        exists|a: int, b: int|
            0 <= a <= b <= a + 1 && a + b + 1 == order.len() && middles(order) == (#[trigger] order[a], #[trigger] order[b]),
{
    let n = order.len() as int;
    let a = (n - 1) / 2;
    let b = n / 2;
    assert(middles(order) == (order[a], order[b]));
}

/// Samples of many rows take every so-many-th one: all rows while they are few, and else
/// no more than are enough, at the shortest stride.
pub proof fn law_strides_are_shortest(n: int)
    requires
        0 <= n,
    ensures
        sample_stride(n) >= 1,
        n <= sample_stride(n) * 16384,
        sample_stride(n) > 1 ==> (sample_stride(n) - 1) * 16384 < n,
{
}

/// A target counts as a hit exactly above one half, and every row counts once.
pub proof fn law_hits_are_above_half(y: Seq<Num>, z: Seq<Num>, n: nat)
    requires
        n <= y.len(),
        n <= z.len(),
    ensures
        forall|i: int| 0 <= i < n && #[trigger] y[i].finite() ==> (is_hit(y[i]) <==> y[i].scaled() > (Num {
            bits: 0x3fe0_0000_0000_0000,
        }).scaled()),
        (forall|i: int| 0 <= i < n ==> is_hit(#[trigger] y[i]) != is_hit(z[i])) ==> hits(y, n) + hits(z, n) == n,
        (forall|i: int| 0 <= i < n ==> is_hit(#[trigger] y[i])) ==> hits(y, n) == n,
    decreases n,
{
    assert forall|i: int| 0 <= i < n && #[trigger] y[i].finite() implies (is_hit(y[i]) <==> y[i].scaled() > (Num {
        bits: 0x3fe0_0000_0000_0000,
    }).scaled()) by {
        crate::num::law_key_orders_values(Num { bits: HALF }, y[i]);
    }
    if n > 0 {
        law_hits_are_above_half(y, z, (n - 1) as nat);
    }
}

proof fn lemma_hits_between(y: Seq<Num>, z: Seq<Num>, order: Seq<usize>, from: int, to: int)
    requires
        from <= to,
        forall|i: int| from <= i < to ==> is_hit(y[(#[trigger] order[i]) as int]) != is_hit(z[order[i] as int]),
    ensures
        hits_between(y, order, from, to) + hits_between(z, order, from, to) == to - from,
    decreases to - from,
{
    if from < to {
        lemma_hits_between(y, z, order, from, to - 1);
    }
}

/// Ranks are handed out once: the doubled rank sums of the hits and of the rest make up
/// that of all positions, with tied positions at their mean rank.
pub proof fn law_rank_sums_add_up(y: Seq<Num>, z: Seq<Num>, order: Seq<usize>, ends: Seq<usize>, g: nat)
    requires
        ends_cut(ends, order.len() as int),
        0 < g <= ends.len(),
        forall|i: int|
            0 <= i < order.len() ==> is_hit(y[(#[trigger] order[i]) as int]) != is_hit(z[order[i] as int]),
    ensures
        doubled_rank_sum(y, order, ends, g) + doubled_rank_sum(z, order, ends, g) == ends[g - 1] * (ends[g - 1] + 1),
    decreases g,
{
    let from = group_from(ends, g - 1);
    let to = ends[g - 1] as int;
    assert(group_from(ends, g - 1) < ends[g - 1]);
    assert(0 <= from);
    lemma_hits_between(y, z, order, from, to);
    let a = hits_between(y, order, from, to) as int;
    let b = hits_between(z, order, from, to) as int;
    assert(a * (from + 1 + to) + b * (from + 1 + to) == to * (to + 1) - from * (from + 1) && a * (from + 1 + to) >= 0
        && b * (from + 1 + to) >= 0) by (nonlinear_arith)
        requires
            a + b == to - from,
            a >= 0,
            b >= 0,
            from >= 0,
            to >= 0,
    ;
    if g > 1 {
        law_rank_sums_add_up(y, z, order, ends, (g - 1) as nat);
        assert(from == ends[g - 2]);
    } else {
        assert(from * (from + 1) == 0);
        assert(doubled_rank_sum(y, order, ends, 0) == 0);
        assert(doubled_rank_sum(z, order, ends, 0) == 0);
    }
}

/// A hit that stands alone at its value adds twice its rank, counted from one.
pub proof fn law_lone_hits_add_their_rank(y: Seq<Num>, order: Seq<usize>, ends: Seq<usize>, g: nat)
    requires
        g < ends.len(),
        ends[g as int] == group_from(ends, g as int) + 1,
        ends_cut(ends, order.len() as int),
    ensures
        doubled_rank_sum(y, order, ends, g + 1) == doubled_rank_sum(y, order, ends, g) + if is_hit(
            y[order[ends[g as int] - 1] as int],
        ) {
            2 * ends[g as int]
        } else {
            0
        },
{
    let from = group_from(ends, g as int);
    let to = ends[g as int] as int;
    reveal_with_fuel(hits_between, 2);
    assert(0 <= from) by {
        if g > 0 {
            assert(group_from(ends, g - 1) < ends[g - 1]);
        }
    }
    let h = hits_between(y, order, from, to);
    assert(h == 0 || h == 1);
    assert(h * (from + 1 + to) == if h == 1 {
        2 * to
    } else {
        0
    });
}

} // verus!
