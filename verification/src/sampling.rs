//! Row samples.

use crate::bits::ONE;
use crate::num::{saturate, Num};
use crate::random::{draw_between, shuffle};
use rand::rngs::StdRng;
use vstd::arithmetic::div_mod::{lemma_div_is_ordered, lemma_div_multiples_vanish, lemma_small_mod};
use vstd::prelude::*;
use vstd::seq_lib::{
    lemma_multiset_commutative, to_multiset_contains, to_multiset_len, to_multiset_update,
};

verus! {

/// `s` with the items at `i` and `j` exchanged.
pub open spec fn exchanged(s: Seq<u32>, i: int, j: int) -> Seq<u32> {
    s.update(i, s[j]).update(j, s[i])
}

/// `s` after exchanging, for each draw in turn, the item at the draw's position
/// with the item at the drawn index.
pub open spec fn exchanges(s: Seq<u32>, draws: Seq<usize>) -> Seq<u32>
    decreases draws.len(),
{
    if draws.len() == 0 {
        s
    } else {
        exchanged(exchanges(s, draws.drop_last()), draws.len() - 1, draws.last() as int)
    }
}

/// Draw `i` is an index from `i` on, below `n`.
pub open spec fn draws_valid(draws: Seq<usize>, n: int) -> bool {
    &&& draws.len() <= n
    &&& forall|i: int| 0 <= i < draws.len() ==> i <= #[trigger] draws[i] < n
}

proof fn lemma_exchanged(s: Seq<u32>, i: int, j: int)
    requires
        0 <= i < s.len(),
        0 <= j < s.len(),
    ensures
        exchanged(s, i, j).to_multiset() == s.to_multiset(),
{
    let t = s.update(i, s[j]);
    to_multiset_update(s, i, s[j]);
    to_multiset_update(t, j, s[i]);
    to_multiset_contains(s, s[i]);
    to_multiset_contains(s, s[j]);
    if i == j {
        assert(exchanged(s, i, j) =~= s);
    } else {
        assert(exchanged(s, i, j).to_multiset() =~= s.to_multiset());
    }
}

/// Exchanges rearrange the items.
pub proof fn lemma_exchanges(s: Seq<u32>, draws: Seq<usize>)
    requires
        draws_valid(draws, s.len() as int),
    ensures
        exchanges(s, draws).len() == s.len(),
        exchanges(s, draws).to_multiset() == s.to_multiset(),
    decreases draws.len(),
{
    if draws.len() > 0 {
        assert forall|i: int| 0 <= i < draws.drop_last().len() implies i <= #[trigger] draws.drop_last()[i] < s.len() by {
            assert(draws.drop_last()[i] == draws[i]);
        }
        lemma_exchanges(s, draws.drop_last());
        assert(draws[draws.len() - 1] < s.len());
        lemma_exchanged(exchanges(s, draws.drop_last()), draws.len() - 1, draws.last() as int);
    }
}

/// `sample` takes its items out of `pool`, none more often than the pool holds it.
pub open spec fn taken_from(sample: Seq<u32>, pool: Seq<u32>) -> bool {
    sample.to_multiset().subset_of(pool.to_multiset())
}

pub proof fn lemma_prefix_taken(s: Seq<u32>, k: int)
    requires
        0 <= k <= s.len(),
    ensures
        taken_from(s.take(k), s),
{
    lemma_multiset_commutative(s.take(k), s.skip(k));
    assert(s.take(k) + s.skip(k) =~= s);
}

/// A sample without repetition takes only items of the pool, and repeats none
/// where the pool repeats none.
pub proof fn law_sample_within_pool(sample: Seq<u32>, pool: Seq<u32>)
    requires
        taken_from(sample, pool),
    ensures
        forall|i: int| 0 <= i < sample.len() ==> pool.contains(#[trigger] sample[i]),
        pool.no_duplicates() ==> sample.no_duplicates(),
{
    assert forall|i: int| 0 <= i < sample.len() implies pool.contains(#[trigger] sample[i]) by {
        to_multiset_contains(sample, sample[i]);
        to_multiset_contains(pool, sample[i]);
        assert(sample.to_multiset().count(sample[i]) <= pool.to_multiset().count(sample[i]));
    }
    if pool.no_duplicates() {
        pool.lemma_multiset_has_no_duplicates();
        assert forall|x: u32| sample.to_multiset().contains(x) implies #[trigger] sample.to_multiset().count(x) == 1 by {
            assert(sample.to_multiset().count(x) <= pool.to_multiset().count(x));
        }
        sample.lemma_multiset_has_no_duplicates_conv();
    }
}

/// The pool's items after the exchanges that the draws name; those at the front
/// are the sample.
pub fn exchange_front(pool: &Vec<u32>, draws: &Vec<usize>) -> (sample: Vec<u32>)
    requires
        draws_valid(draws@, pool@.len() as int),
    ensures
        sample@ == exchanges(pool@, draws@).take(draws@.len() as int),
        taken_from(sample@, pool@),
{
    let mut items: Vec<u32> = pool.clone();
    assert(items@ =~= pool@);
    let mut i: usize = 0;
    assert(draws@.take(0) =~= Seq::empty());
    while i < draws.len()
        invariant
            i <= draws@.len(),
            draws_valid(draws@, pool@.len() as int),
            items@.len() == pool@.len(),
            items@ == exchanges(pool@, draws@.take(i as int)),
        decreases draws@.len() - i,
    {
        let j: usize = draws[i];
        let a: u32 = items[i];
        let b: u32 = items[j];
        assert(draws@.take(i + 1).drop_last() =~= draws@.take(i as int));
        items.set(i, b);
        items.set(j, a);
        i = i + 1;
    }
    assert(draws@.take(draws@.len() as int) =~= draws@);
    proof {
        lemma_exchanges(pool@, draws@);
        lemma_prefix_taken(items@, draws@.len() as int);
    }
    items.truncate(draws.len());
    items
}

/// One draw for each of the first `k` positions, from that position on.
fn draw_positions(rng: &mut StdRng, k: usize, n: usize) -> (draws: Vec<usize>)
    requires
        k <= n,
    ensures
        draws@.len() == k,
        draws_valid(draws@, n as int),
{
    let mut draws: Vec<usize> = Vec::new();
    let mut i: usize = 0;
    while i < k
        invariant
            i <= k <= n,
            draws@.len() == i,
            forall|p: int| 0 <= p < i ==> p <= #[trigger] draws@[p] < n,
        decreases k - i,
    {
        draws.push(draw_between(rng, i, n));
        i = i + 1;
    }
    draws
}

/// A sample of `k` items of the pool without repetition.
pub fn sample_without_repetition(rng: &mut StdRng, pool: &Vec<u32>, k: usize) -> (sample: Vec<u32>)
    requires
        k <= pool@.len(),
    ensures
        sample@.len() == k,
        taken_from(sample@, pool@),
{
    let draws: Vec<usize> = draw_positions(rng, k, pool.len());
    proof {
        lemma_exchanges(pool@, draws@);
    }
    exchange_front(pool, &draws)
}

/// The items of the pool that the draws name, one for each draw.
pub fn items_at(pool: &Vec<u32>, draws: &Vec<usize>) -> (sample: Vec<u32>)
    requires
        forall|i: int| 0 <= i < draws@.len() ==> #[trigger] draws@[i] < pool@.len(),
    ensures
        sample@ == Seq::new(draws@.len(), |i: int| pool@[draws@[i] as int]),
{
    let mut sample: Vec<u32> = Vec::new();
    let mut i: usize = 0;
    while i < draws.len()
        invariant
            i <= draws@.len(),
            forall|k: int| 0 <= k < draws@.len() ==> #[trigger] draws@[k] < pool@.len(),
            sample@.len() == i,
            forall|k: int| 0 <= k < i ==> #[trigger] sample@[k] == pool@[draws@[k] as int],
        decreases draws@.len() - i,
    {
        sample.push(pool[draws[i]]);
        i = i + 1;
    }
    assert(sample@ =~= Seq::new(draws@.len(), |i: int| pool@[draws@[i] as int]));
    sample
}

/// A sample of `k` items of the pool with repetition.
pub fn sample_with_repetition(rng: &mut StdRng, pool: &Vec<u32>, k: usize) -> (sample: Vec<u32>)
    requires
        pool@.len() > 0 || k == 0,
    ensures
        sample@.len() == k,
        forall|i: int| 0 <= i < k ==> pool@.contains(#[trigger] sample@[i]),
{
    let mut draws: Vec<usize> = Vec::new();
    let mut i: usize = 0;
    while i < k
        invariant
            i <= k,
            pool@.len() > 0 || k == 0,
            draws@.len() == i,
            forall|p: int| 0 <= p < i ==> #[trigger] draws@[p] < pool@.len(),
        decreases k - i,
    {
        draws.push(draw_between(rng, 0, pool.len()));
        i = i + 1;
    }
    let sample: Vec<u32> = items_at(pool, &draws);
    assert forall|i: int| 0 <= i < k implies pool@.contains(#[trigger] sample@[i]) by {
        assert(draws@[i] < pool@.len());
    }
    sample
}

/// What every sample of `size` items of a pool meets, with or without repetition.
pub open spec fn is_sample(sample: Seq<u32>, pool: Seq<u32>, size: int, bootstrap: bool) -> bool {
    &&& sample.len() == size
    &&& if bootstrap {
        forall|i: int| 0 <= i < sample.len() ==> pool.contains(#[trigger] sample[i])
    } else {
        taken_from(sample, pool)
    }
}

/// A sample of a pool: `product` is the sampling rate times the pool's size.
/// At least one item and at most all of them are taken; the whole pool is
/// handed back in its order where all are taken without repetition.
pub fn subsample_indices_from_pool(
    rng: &mut StdRng,
    pool: &Vec<u32>,
    product: &Num,
    bootstrap: bool,
) -> (sample: Vec<u32>)
    ensures
        pool@.len() == 0 ==> sample@.len() == 0,
        pool@.len() > 0 ==> is_sample(
            sample@,
            pool@,
            saturate(product.counted(), 1, pool@.len() as int),
            bootstrap,
        ),
        !bootstrap && product.counted() >= pool@.len() && pool@.len() > 0 ==> sample@ == pool@,
{
    let n: usize = pool.len();
    if n == 0 {
        return Vec::new();
    }
    let raw: usize = product.to_usize();
    let size: usize = if raw < 1 {
        1
    } else if raw > n {
        n
    } else {
        raw
    };
    if size >= n && !bootstrap {
        let all: Vec<u32> = pool.clone();
        assert(all@ =~= pool@);
        return all;
    }
    if bootstrap {
        sample_with_repetition(rng, pool, size)
    } else {
        sample_without_repetition(rng, pool, size)
    }
}

/// The row numbers from 0 up to `n`.
pub open spec fn row_numbers(n: nat) -> Seq<u32> {
    Seq::new(n, |i: int| i as u32)
}

pub fn rows_up_to(n: usize) -> (rows: Vec<u32>)
    requires
        n <= u32::MAX,
    ensures
        rows@ == row_numbers(n as nat),
{
    let mut rows: Vec<u32> = Vec::new();
    let mut i: usize = 0;
    while i < n
        invariant
            i <= n <= u32::MAX,
            rows@.len() == i,
            forall|k: int| 0 <= k < i ==> #[trigger] rows@[k] == k,
        decreases n - i,
    {
        rows.push(i as u32);
        i = i + 1;
    }
    assert(rows@ =~= row_numbers(n as nat));
    rows
}

/// A sample of the rows: `product` is the sampling rate times their number.
pub fn subsample_indices_rate(rng: &mut StdRng, n_rows: usize, product: &Num, bootstrap: bool) -> (sample: Vec<u32>)
    requires
        n_rows <= u32::MAX,
    ensures
        is_sample(
            sample@,
            row_numbers(n_rows as nat),
            saturate(product.counted(), 0, n_rows as int),
            bootstrap,
        ),
        !bootstrap && product.counted() >= n_rows ==> sample@ == row_numbers(n_rows as nat),
{
    let rows: Vec<u32> = rows_up_to(n_rows);
    let raw: usize = product.to_usize();
    let size: usize = if raw >= n_rows { n_rows } else { raw };
    if bootstrap {
        sample_with_repetition(rng, &rows, size)
    } else if raw >= n_rows {
        rows
    } else {
        sample_without_repetition(rng, &rows, size)
    }
}

/// Where window `sub` of `n_sub` starts on a circle of `n` items.
pub open spec fn window_start(sub: int, n: int, n_sub: int) -> int {
    (sub * n) / n_sub
}

/// `size` consecutive items of the circle of `perm`, from the start of window `sub`.
pub open spec fn window(perm: Seq<u32>, sub: int, n_sub: int, size: nat) -> Seq<u32> {
    Seq::new(size, |j: int| perm[(window_start(sub, perm.len() as int, n_sub) + j) % (perm.len() as int)])
}

/// The positions of a window that is no longer than the circle are all different.
pub proof fn law_window_positions_differ(n: int, sub: int, n_sub: int, size: int, j: int, k: int)
    requires
        0 < size <= n,
        0 <= sub < n_sub,
        0 <= j < k < size,
    ensures
        (window_start(sub, n, n_sub) + j) % n != (window_start(sub, n, n_sub) + k) % n,
{
    let s = window_start(sub, n, n_sub);
    if (s + j) % n == (s + k) % n {
        vstd::arithmetic::div_mod::lemma_mod_equivalence(s + k, s + j, n);
        lemma_small_mod((k - j) as nat, n as nat);
    }
}

/// Whether window `sub` holds the item at position `p` of the circle.
pub open spec fn window_holds(p: int, n: int, sub: int, n_sub: int, size: int) -> bool {
    (p - window_start(sub, n, n_sub)) % n < size
}

/// How many of the first `k` windows hold the item at position `p`.
pub open spec fn windows_holding(p: int, n: int, n_sub: int, size: int, k: nat) -> nat
    decreases k,
{
    if k == 0 {
        0
    } else {
        windows_holding(p, n, n_sub, size, (k - 1) as nat) + (if window_holds(p, n, k - 1, n_sub, size) {
            1nat
        } else {
            0
        })
    }
}

/// How many of the first `k` windows start before position `a`.
spec fn starts_before(a: int, n: int, n_sub: int, k: nat) -> nat
    decreases k,
{
    if k == 0 {
        0
    } else {
        starts_before(a, n, n_sub, (k - 1) as nat) + (if window_start(k - 1, n, n_sub) < a {
            1nat
        } else {
            0
        })
    }
}

/// The quotient rounded up.
spec fn rounded_up(a: int, n: int) -> int {
    (a + n - 1) / n
}

proof fn lemma_quotient_at_least(k: int, a: int, n: int)
    requires
        n > 0,
    ensures
        k * n <= a <==> k <= a / n,
{
    vstd::arithmetic::div_mod::lemma_fundamental_div_mod(a, n);
    let q = a / n;
    let r = a % n;
    assert(k * n <= a <==> k <= q) by (nonlinear_arith)
        requires
            n > 0,
            a == n * q + r,
            0 <= r < n,
    ;
}

proof fn lemma_starts_before(a: int, n: int, n_sub: int, k: nat)
    requires
        0 <= a <= n,
        n > 0,
        n_sub > 0,
    ensures
        starts_before(a, n, n_sub, k) == (if k <= rounded_up(a * n_sub, n) {
            k as int
        } else {
            rounded_up(a * n_sub, n)
        }),
    decreases k,
{
    let c = rounded_up(a * n_sub, n);
    assert(0 <= a * n_sub) by (nonlinear_arith)
        requires
            0 <= a,
            0 < n_sub,
    ;
    vstd::arithmetic::div_mod::lemma_div_pos_is_pos(a * n_sub + n - 1, n);
    if k > 0 {
        lemma_starts_before(a, n, n_sub, (k - 1) as nat);
        let s = k - 1;
        lemma_quotient_at_least(k as int, a * n_sub + n - 1, n);
        lemma_quotient_at_least(a, s * n, n_sub);
        assert(k * n == s * n + n) by (nonlinear_arith)
            requires
                k == s + 1,
        ;
    }
}

proof fn lemma_window_start(sub: int, n: int, n_sub: int)
    requires
        0 <= sub < n_sub,
        0 < n,
    ensures
        0 <= window_start(sub, n, n_sub) < n,
{
    lemma_quotient_at_least(0, sub * n, n_sub);
    lemma_quotient_at_least(n, sub * n, n_sub);
    assert(0 <= sub * n < n * n_sub) by (nonlinear_arith)
        requires
            0 <= sub < n_sub,
            0 < n,
    ;
}

/// The first position before which a window that holds `p` may not start.
spec fn reach(p: int, size: int) -> int {
    if p + 1 >= size {
        p + 1 - size
    } else {
        0
    }
}

/// The windows that hold position `p` from beyond the end of the circle.
spec fn wrapping(p: int, n: int, n_sub: int, size: int, k: nat) -> int {
    if p + 1 < size {
        starts_before(n, n, n_sub, k) - starts_before(p + 1 - size + n, n, n_sub, k)
    } else {
        0
    }
}

proof fn lemma_windows_holding(p: int, n: int, n_sub: int, size: int, k: nat)
    requires
        0 <= p < n,
        0 < size <= n,
        k <= n_sub,
    ensures
        windows_holding(p, n, n_sub, size, k) == starts_before(p + 1, n, n_sub, k) - starts_before(
            reach(p, size),
            n,
            n_sub,
            k,
        ) + wrapping(p, n, n_sub, size, k),
    decreases k,
{
    if k > 0 {
        lemma_windows_holding(p, n, n_sub, size, (k - 1) as nat);
        let start = window_start(k - 1, n, n_sub);
        lemma_window_start(k - 1, n, n_sub);
        if start <= p {
            lemma_small_mod((p - start) as nat, n as nat);
        } else {
            vstd::arithmetic::div_mod::lemma_fundamental_div_mod_converse(p - start, n, -1, p - start + n);
        }
    }
}

proof fn lemma_quotient_of_sum(a: int, b: int, n: int)
    requires
        n > 0,
    ensures
        a / n + b / n <= (a + b) / n <= a / n + b / n + 1,
{
    vstd::arithmetic::div_mod::lemma_fundamental_div_mod(a, n);
    vstd::arithmetic::div_mod::lemma_fundamental_div_mod(b, n);
    let q = a / n + b / n;
    assert(q * n == n * (a / n) + n * (b / n)) by (nonlinear_arith)
        requires
            q == a / n + b / n,
    ;
    assert((q + 2) * n == q * n + 2 * n) by (nonlinear_arith);
    lemma_quotient_at_least(q, a + b, n);
    lemma_quotient_at_least(q + 2, a + b, n);
}

/// Antithetic windows cover all rows evenly: every item of the circle lies in
/// as many windows as the share of a window times their number, rounded down,
/// or in one more. A window holds the items whose position it reaches.
pub proof fn law_windows_cover_evenly(perm: Seq<u32>, p: int, n_sub: int, size: int)
    requires
        0 <= p < perm.len(),
        0 < size <= perm.len(),
        n_sub > 0,
    ensures
        ({
            let n = perm.len() as int;
            let held = windows_holding(p, n, n_sub, size, n_sub as nat);
            &&& size * n_sub / n <= held <= size * n_sub / n + 1
            &&& forall|sub: int|
                0 <= sub < n_sub && #[trigger] window_holds(p, n, sub, n_sub, size) ==> window(
                    perm,
                    sub,
                    n_sub,
                    size as nat,
                )[(p - window_start(sub, n, n_sub)) % n] == perm[p]
        }),
{
    let n = perm.len() as int;
    lemma_windows_holding(p, n, n_sub, size, n_sub as nat);
    let low = reach(p, size);
    lemma_starts_before(p + 1, n, n_sub, n_sub as nat);
    lemma_starts_before(low, n, n_sub, n_sub as nat);
    lemma_starts_before(n, n, n_sub, n_sub as nat);
    lemma_rounded_up_within(p + 1, n, n_sub);
    lemma_rounded_up_within(low, n, n_sub);
    lemma_rounded_up_within(n, n, n_sub);
    let x = (p + 1) * n_sub;
    let y = (p + 1 - size) * n_sub;
    let d = size * n_sub;
    assert(x == y + d) by (nonlinear_arith)
        requires
            x == (p + 1) * n_sub,
            y == (p + 1 - size) * n_sub,
            d == size * n_sub,
    ;
    lemma_quotient_of_sum(y + n - 1, d, n);
    assert(y + n - 1 + d == x + n - 1);
    if p + 1 < size {
        let high = p + 1 - size + n;
        lemma_starts_before(high, n, n_sub, n_sub as nat);
        lemma_rounded_up_within(high, n, n_sub);
        assert(high * n_sub == y + n * n_sub) by (nonlinear_arith)
            requires
                high == p + 1 - size + n,
                y == (p + 1 - size) * n_sub,
        ;
        vstd::arithmetic::div_mod::lemma_hoist_over_denominator(y + n - 1, n_sub, n as nat);
        assert(n * n_sub == n_sub * n) by (nonlinear_arith);
        assert(rounded_up(high * n_sub, n) == rounded_up(y, n) + n_sub);
        assert(low * n_sub == 0) by (nonlinear_arith)
            requires
                low == 0,
        ;
        vstd::arithmetic::div_mod::lemma_basic_div(n - 1, n);
        assert(rounded_up(low * n_sub, n) == 0);
        vstd::arithmetic::div_mod::lemma_hoist_over_denominator(n - 1, n_sub, n as nat);
        assert(rounded_up(n * n_sub, n) == n_sub);
    }
    assert forall|sub: int| 0 <= sub < n_sub && #[trigger] window_holds(p, n, sub, n_sub, size) implies window(
        perm,
        sub,
        n_sub,
        size as nat,
    )[(p - window_start(sub, n, n_sub)) % n] == perm[p] by {
        let start = window_start(sub, n, n_sub);
        lemma_window_start(sub, n, n_sub);
        let j = (p - start) % n;
        vstd::arithmetic::div_mod::lemma_fundamental_div_mod(p - start, n);
        if start <= p {
            lemma_small_mod((p - start) as nat, n as nat);
            lemma_small_mod(p as nat, n as nat);
        } else {
            vstd::arithmetic::div_mod::lemma_fundamental_div_mod_converse(p - start, n, -1, p - start + n);
            vstd::arithmetic::div_mod::lemma_fundamental_div_mod_converse(start + j, n, 1, p);
        }
        assert((start + j) % n == p);
    }
}

proof fn lemma_rounded_up_within(a: int, n: int, n_sub: int)
    requires
        0 <= a <= n,
        n > 0,
        n_sub > 0,
    ensures
        0 <= rounded_up(a * n_sub, n) <= n_sub,
{
    assert(0 <= a * n_sub <= n * n_sub) by (nonlinear_arith)
        requires
            0 <= a <= n,
            0 < n_sub,
    ;
    lemma_quotient_at_least(0, a * n_sub + n - 1, n);
    lemma_quotient_at_least(n_sub + 1, a * n_sub + n - 1, n);
    assert((n_sub + 1) * n == n * n_sub + n) by (nonlinear_arith);
}

/// Windows of `size` items, evenly spread over the circle of `perm`.
pub fn antithetic_windows(perm: &Vec<u32>, n_sub: usize, size: usize) -> (out: Vec<Vec<u32>>)
    requires
        perm@.len() > 0,
        size <= perm@.len(),
        n_sub >= 2,
        n_sub * perm@.len() <= usize::MAX,
    ensures
        out@.len() == n_sub,
        forall|sub: int|
            0 <= sub < n_sub ==> (#[trigger] out@[sub])@ == window(perm@, sub, n_sub as int, size as nat),
{
    let n: usize = perm.len();
    let mut out: Vec<Vec<u32>> = Vec::new();
    let mut sub: usize = 0;
    assert(2 * n <= n_sub * n) by (nonlinear_arith)
        requires
            n_sub >= 2,
    ;
    while sub < n_sub
        invariant
            sub <= n_sub,
            n == perm@.len(),
            n > 0,
            size <= n,
            n_sub >= 2,
            n_sub * n <= usize::MAX,
            2 * n <= usize::MAX,
            out@.len() == sub,
            forall|s: int| 0 <= s < sub ==> (#[trigger] out@[s])@ == window(perm@, s, n_sub as int, size as nat),
        decreases n_sub - sub,
    {
        assert(sub * n <= n_sub * n && (sub + 1) * n <= n_sub * n && (sub + 1) * n == sub * n + n) by (nonlinear_arith)
            requires
                sub < n_sub,
        ;
        let start: usize = (sub * n) / n_sub;
        proof {
            vstd::arithmetic::div_mod::lemma_fundamental_div_mod(sub * n, n_sub as int);
            if start >= n {
                vstd::arithmetic::mul::lemma_mul_inequality(n as int, start as int, n_sub as int);
                assert(n_sub * start == start * n_sub && n_sub * n == n * n_sub) by (nonlinear_arith);
            }
        }
        let mut sample: Vec<u32> = Vec::new();
        let mut j: usize = 0;
        while j < size
            invariant
                j <= size,
                n == perm@.len(),
                0 < n,
                size <= n,
                start < n,
                2 * n <= usize::MAX,
                start == window_start(sub as int, n as int, n_sub as int),
                sample@.len() == j,
                forall|k: int|
                    0 <= k < j ==> #[trigger] sample@[k] == window(perm@, sub as int, n_sub as int, size as nat)[k],
            decreases size - j,
        {
            sample.push(perm[(start + j) % n]);
            j = j + 1;
        }
        assert(sample@ =~= window(perm@, sub as int, n_sub as int, size as nat));
        out.push(sample);
        sub = sub + 1;
    }
    out
}

/// How the subtrees of one round sample their rows: `product` is the rate
/// times the number of rows that are sampled from.
pub struct RoundSampling {
    pub n_sub: usize,
    pub rate: Num,
    pub product: Num,
    pub bootstrap: bool,
    pub antithetic: bool,
}

impl RoundSampling {
    /// Whether the subtrees share one shuffle and take spread windows of it.
    pub open spec fn spread(&self) -> bool {
        &&& self.n_sub > 1
        &&& self.antithetic
        &&& !self.bootstrap
        &&& !self.rate.at_most(Num { bits: 0 })
        &&& !(Num { bits: ONE }).at_most(self.rate)
    }

    /// The number of samples that a round takes.
    pub open spec fn samples(&self) -> int {
        if self.n_sub > 1 {
            self.n_sub as int
        } else {
            1
        }
    }

    /// The length of a spread window over `n` rows: at least one row, and not all of several.
    pub open spec fn window_size(&self, n: int) -> int {
        saturate(self.product.counted(), 1, if n > 1 { n - 1 } else { 1 })
    }

    fn is_spread(&self) -> (r: bool)
        ensures
            r == self.spread(),
    {
        let zero: Num = Num { bits: 0 };
        let one: Num = Num { bits: ONE };
        self.n_sub > 1 && self.antithetic && !self.bootstrap && !self.rate.le(&zero) && !one.le(&self.rate)
    }

    fn spread_samples(&self, rng: &mut StdRng, pool: &Vec<u32>) -> (out: Vec<Vec<u32>>)
        requires
            self.spread(),
            pool@.len() > 0,
            self.n_sub * pool@.len() <= usize::MAX,
        ensures
            out@.len() == self.n_sub,
            exists|perm: Seq<u32>| #[trigger]
                spreads(out@, perm, pool@, self.n_sub as int, self.window_size(pool@.len() as int)),
    {
        let n: usize = pool.len();
        let raw: usize = self.product.to_usize();
        let most: usize = if n > 1 { n - 1 } else { 1 };
        let size: usize = if raw < 1 {
            1
        } else if raw > most {
            most
        } else {
            raw
        };
        let mut perm: Vec<u32> = pool.clone();
        assert(perm@ =~= pool@);
        shuffle(rng, &mut perm);
        proof {
            to_multiset_len(perm@);
            to_multiset_len(pool@);
        }
        let out: Vec<Vec<u32>> = antithetic_windows(&perm, self.n_sub, size);
        assert(spreads(out@, perm@, pool@, self.n_sub as int, self.window_size(pool@.len() as int)));
        out
    }

    /// The samples of a round, drawn from a pool.
    pub fn round_subsamples_from_pool(&self, rng: &mut StdRng, pool: &Vec<u32>) -> (out: Vec<Vec<u32>>)
        requires
            pool@.len() > 0 || !self.spread(),
            self.n_sub * pool@.len() <= usize::MAX,
        ensures
            out@.len() == self.samples(),
            self.spread() ==> exists|perm: Seq<u32>| #[trigger]
                spreads(out@, perm, pool@, self.n_sub as int, self.window_size(pool@.len() as int)),
            !self.spread() && pool@.len() == 0 ==> forall|s: int|
                0 <= s < out@.len() ==> (#[trigger] out@[s])@.len() == 0,
            !self.spread() && pool@.len() > 0 ==> forall|s: int|
                0 <= s < out@.len() ==> is_sample(
                    (#[trigger] out@[s])@,
                    pool@,
                    saturate(self.product.counted(), 1, pool@.len() as int),
                    self.bootstrap,
                ),
            !self.spread() && !self.bootstrap && self.product.counted() >= pool@.len() ==> forall|s: int|
                0 <= s < out@.len() ==> (#[trigger] out@[s])@ == pool@,
    {
        if self.is_spread() {
            return self.spread_samples(rng, pool);
        }
        let count: usize = if self.n_sub > 1 { self.n_sub } else { 1 };
        let mut out: Vec<Vec<u32>> = Vec::new();
        let mut s: usize = 0;
        while s < count
            invariant
                s <= count,
                out@.len() == s,
                pool@.len() == 0 ==> forall|k: int| 0 <= k < out@.len() ==> (#[trigger] out@[k])@.len() == 0,
                pool@.len() > 0 ==> forall|k: int|
                    0 <= k < out@.len() ==> is_sample(
                        (#[trigger] out@[k])@,
                        pool@,
                        saturate(self.product.counted(), 1, pool@.len() as int),
                        self.bootstrap,
                    ),
                !self.bootstrap && self.product.counted() >= pool@.len() ==> forall|k: int|
                    0 <= k < out@.len() ==> (#[trigger] out@[k])@ == pool@,
            decreases count - s,
        {
            let sample: Vec<u32> = subsample_indices_from_pool(rng, pool, &self.product, self.bootstrap);
            assert(pool@.len() == 0 ==> sample@ =~= pool@);
            out.push(sample);
            s = s + 1;
        }
        out
    }

    /// The samples of a round, drawn from all rows.
    pub fn round_subsamples(&self, rng: &mut StdRng, n_rows: usize) -> (out: Vec<Vec<u32>>)
        requires
            n_rows <= u32::MAX,
            n_rows > 0 || !self.spread(),
            self.n_sub * n_rows <= usize::MAX,
        ensures
            out@.len() == self.samples(),
            self.spread() ==> exists|perm: Seq<u32>| #[trigger]
                spreads(
                    out@,
                    perm,
                    row_numbers(n_rows as nat),
                    self.n_sub as int,
                    self.window_size(n_rows as int),
                ),
            !self.spread() ==> forall|s: int|
                0 <= s < out@.len() ==> is_sample(
                    (#[trigger] out@[s])@,
                    row_numbers(n_rows as nat),
                    saturate(self.product.counted(), 0, n_rows as int),
                    self.bootstrap,
                ),
            !self.spread() && !self.bootstrap && self.product.counted() >= n_rows ==> forall|s: int|
                0 <= s < out@.len() ==> (#[trigger] out@[s])@ == row_numbers(n_rows as nat),
    {
        if self.is_spread() {
            let rows: Vec<u32> = rows_up_to(n_rows);
            return self.spread_samples(rng, &rows);
        }
        let count: usize = if self.n_sub > 1 { self.n_sub } else { 1 };
        let mut out: Vec<Vec<u32>> = Vec::new();
        let mut s: usize = 0;
        while s < count
            invariant
                s <= count,
                n_rows <= u32::MAX,
                out@.len() == s,
                forall|k: int|
                    0 <= k < out@.len() ==> is_sample(
                        (#[trigger] out@[k])@,
                        row_numbers(n_rows as nat),
                        saturate(self.product.counted(), 0, n_rows as int),
                        self.bootstrap,
                    ),
                !self.bootstrap && self.product.counted() >= n_rows ==> forall|k: int|
                    0 <= k < out@.len() ==> (#[trigger] out@[k])@ == row_numbers(n_rows as nat),
            decreases count - s,
        {
            out.push(subsample_indices_rate(rng, n_rows, &self.product, self.bootstrap));
            s = s + 1;
        }
        out
    }
}

/// The samples are windows of one rearrangement of the pool.
pub open spec fn spreads(out: Seq<Vec<u32>>, perm: Seq<u32>, pool: Seq<u32>, n_sub: int, size: int) -> bool {
    &&& perm.to_multiset() == pool.to_multiset()
    &&& forall|s: int| 0 <= s < out.len() ==> (#[trigger] out[s])@ == window(perm, s, n_sub, size as nat)
}

/// An exchange swaps two items and leaves the others where they are.
pub proof fn law_exchanges_swap_two(s: Seq<u32>, i: int, j: int, k: int)
    requires
        0 <= i < s.len(),
        0 <= j < s.len(),
        0 <= k < s.len(),
    ensures
        exchanged(s, i, j).len() == s.len(),
        exchanged(s, i, j)[i] == s[j],
        exchanged(s, i, j)[j] == s[i],
        k != i && k != j ==> exchanged(s, i, j)[k] == s[k],
        exchanged(exchanged(s, i, j), i, j) == s,
{
    assert(exchanged(exchanged(s, i, j), i, j) =~= s);
}

/// Draws settle the front item by item: each takes its place from what is not yet settled,
/// and later draws leave it there.
pub proof fn law_draws_settle_the_front(s: Seq<u32>, draws: Seq<usize>, i: int)
    requires
        draws_valid(draws, s.len() as int),
        0 <= i < draws.len(),
    ensures
        exchanges(s, draws).len() == s.len(),
        exchanges(s, draws)[i] == exchanges(s, draws.take(i))[draws[i] as int],
    decreases draws.len(),
{
    let rest = draws.drop_last();
    lemma_exchanges_len(s, draws);
    lemma_exchanges_len(s, rest);
    if i < rest.len() {
        law_draws_settle_the_front(s, rest, i);
        assert(rest.take(i) =~= draws.take(i));
        assert(draws[draws.len() - 1] >= draws.len() - 1);
    } else {
        assert(rest =~= draws.take(i));
        assert(draws[draws.len() - 1] >= draws.len() - 1);
    }
}

proof fn lemma_exchanges_len(s: Seq<u32>, draws: Seq<usize>)
    requires
        draws_valid(draws, s.len() as int),
    ensures
        exchanges(s, draws).len() == s.len(),
    decreases draws.len(),
{
    if draws.len() > 0 {
        lemma_exchanges_len(s, draws.drop_last());
    }
}

/// Subtrees share one shuffle exactly where there are several, rows are not drawn twice
/// and the rate lies between nothing and all; their windows are never empty nor everything.
pub proof fn law_shuffles_are_shared_as_set(s: RoundSampling, n: int)
    requires
        s.rate.finite(),
        2 <= n,
    ensures
        s.spread() <==> s.n_sub >= 2 && s.antithetic && !s.bootstrap && 0 < s.rate.scaled() < (Num {
            bits: 0x3ff0_0000_0000_0000,
        }).scaled(),
        1 <= s.window_size(n) < n,
        1 <= s.product.counted() < n ==> s.window_size(n) == s.product.counted(),
        s.n_sub >= 1 ==> s.samples() == s.n_sub,
        s.n_sub == 0 ==> s.samples() == 1,
{
    let zero = Num { bits: 0 };
    assert(crate::num::scaled_magnitude(0) == 0);
    assert(zero.scaled() == 0);
    crate::num::law_key_orders_values(s.rate, zero);
    crate::num::law_key_orders_values(Num { bits: ONE }, s.rate);
}

/// A sample has the size asked for and holds rows of the pool alone, none twice unless rows
/// may be drawn again.
pub proof fn law_samples_are_of_the_pool(sample: Seq<u32>, pool: Seq<u32>, size: int, bootstrap: bool, i: int)
    requires
        is_sample(sample, pool, size, bootstrap),
        0 <= i < sample.len(),
    ensures
        sample.len() == size,
        pool.contains(sample[i]),
        !bootstrap && pool.no_duplicates() ==> sample.no_duplicates(),
        !bootstrap ==> sample.to_multiset().count(sample[i]) <= pool.to_multiset().count(sample[i]),
{
    if !bootstrap {
        law_sample_within_pool(sample, pool);
    }
}

/// Samples that share a shuffle hold rows of the pool alone.
pub proof fn law_shared_shuffles_hold_the_pool(out: Seq<Vec<u32>>, perm: Seq<u32>, pool: Seq<u32>, n_sub: int, size: int, s: int, j: int)
    requires
        spreads(out, perm, pool, n_sub, size),
        0 < size <= pool.len(),
        0 <= s < out.len(),
        0 <= j < size,
    ensures
        out[s]@.len() == size,
        pool.contains(out[s]@[j]),
{
    perm.to_multiset_ensures();
    pool.to_multiset_ensures();
    assert(perm.len() == pool.len());
    let at = (window_start(s, perm.len() as int, n_sub) + j) % (perm.len() as int);
    vstd::arithmetic::div_mod::lemma_mod_bound(window_start(s, perm.len() as int, n_sub) + j, perm.len() as int);
    assert(out[s]@[j] == perm[at]);
    assert(perm.contains(perm[at]));
    assert(perm.to_multiset().count(perm[at]) > 0);
    assert(pool.to_multiset().count(perm[at]) > 0);
}

} // verus!
