//! Which gradients a task takes, and the row lists and bins that they are over.

use crate::bits::{E_MINUS_12, HALF, INFINITY, MINUS_ONE, NEG_INFINITY, ONE};
use crate::num::{saturate, Num};
use crate::robust::{count_hits, hits, is_hit};
use crate::select::{collect_kept, is_positive, kept_indices, positive};
use crate::tally::{count_of, tally};
use crate::task::Task;
use vstd::prelude::*;

verus! {

/// The form of a task's gradients.
#[derive(Clone, Copy, PartialEq, Eq, Structural, Debug)]
pub enum GradientForm {
    /// Squared error.
    Squared,
    /// Squared error with the Huber cutoff.
    Huber,
    /// Logistic loss with class weights and focus.
    LogLoss,
    /// Logistic loss without weights.
    PlainLogLoss,
    /// Logistic loss blended with all pairs of opposite class.
    ExactPairs,
    /// Logistic loss blended with a histogram of the opposite class.
    HistogramPairs,
    /// Poisson loss.
    Poisson,
    /// One opponent of the opposite class for each row.
    Opponents,
}

/// The most pairs that are taken one by one.
pub const MAX_PAIRS: u128 = 2_000_000;

/// The form of the gradients of a task, by its Huber cutoff, its rank blend
/// and the number of positive targets.
pub open spec fn gradient_form(task: Task, delta: Num, alpha: Num, n: int, n_pos: int) -> GradientForm {
    match task {
        Task::Regression => if positive(delta) {
            GradientForm::Huber
        } else {
            GradientForm::Squared
        },
        Task::Binary => if !positive(alpha) || n_pos == 0 || n_pos == n {
            GradientForm::LogLoss
        } else if n_pos * (n - n_pos) <= MAX_PAIRS {
            GradientForm::ExactPairs
        } else {
            GradientForm::HistogramPairs
        },
        Task::Poisson => GradientForm::Poisson,
        Task::Rank => if n_pos == 0 || n_pos == n {
            GradientForm::PlainLogLoss
        } else {
            GradientForm::Opponents
        },
        _ => GradientForm::Squared,
    }
}

/// The form of the gradients for the targets `y`.
pub fn choose_gradients(task: Task, delta: &Num, alpha: &Num, y: &Vec<Num>) -> (r: GradientForm)
    ensures
        r == gradient_form(task, *delta, *alpha, y@.len() as int, hits(y@, y@.len()) as int),
{
    let n: usize = y.len();
    let n_pos: usize = count_hits(y, n);
    match task {
        Task::Regression => if is_positive(delta) {
            GradientForm::Huber
        } else {
            GradientForm::Squared
        },
        Task::Binary => {
            if !is_positive(alpha) || n_pos == 0 || n_pos == n {
                return GradientForm::LogLoss;
            }
            let a: u128 = n_pos as u128;
            let b: u128 = (n - n_pos) as u128;
            assert(a * b <= u64::MAX * u64::MAX) by (nonlinear_arith)
                requires
                    0 <= a <= u64::MAX,
                    0 <= b <= u64::MAX,
            ;
            if a * b <= MAX_PAIRS {
                GradientForm::ExactPairs
            } else {
                GradientForm::HistogramPairs
            }
        },
        Task::Poisson => GradientForm::Poisson,
        Task::Rank => if n_pos == 0 || n_pos == n {
            GradientForm::PlainLogLoss
        } else {
            GradientForm::Opponents
        },
        _ => GradientForm::Squared,
    }
}

/// Whether the Huber cutoff is estimated from the residuals.
pub fn adapts_huber(huber_delta: &Num) -> (r: bool)
    ensures
        r == huber_delta.below(Num { bits: 0 }),
{
    let zero: Num = Num { bits: 0 };
    huber_delta.lt(&zero)
}

/// Which targets are of the positive class, or which are not.
pub open spec fn class_flags(y: Seq<Num>, hit: bool) -> Seq<bool> {
    Seq::new(y.len(), |i: int| is_hit(y[i]) == hit)
}

/// The rows of the positive class, and the others.
pub fn split_classes(y: &Vec<Num>) -> (r: (Vec<usize>, Vec<usize>))
    ensures
        r.0@ == kept_indices(class_flags(y@, true)),
        r.1@ == kept_indices(class_flags(y@, false)),
{
    let half: Num = Num { bits: HALF };
    let mut yes: Vec<bool> = Vec::new();
    let mut no: Vec<bool> = Vec::new();
    let mut i: usize = 0;
    while i < y.len()
        invariant
            i <= y@.len(),
            half.bits == HALF,
            yes@.len() == i,
            no@.len() == i,
            forall|k: int| 0 <= k < i ==> #[trigger] yes@[k] == is_hit(y@[k]),
            forall|k: int| 0 <= k < i ==> #[trigger] no@[k] == !is_hit(y@[k]),
        decreases y@.len() - i,
    {
        let hit: bool = half.lt(&y[i]);
        yes.push(hit);
        no.push(!hit);
        i = i + 1;
    }
    assert(yes@ =~= class_flags(y@, true));
    assert(no@ =~= class_flags(y@, false));
    (collect_kept(&yes), collect_kept(&no))
}

/// The opponent of row `i`: a row of the opposite class, picked by a multiplicative hash.
pub open spec fn opponent(y: Seq<Num>, i: int) -> usize {
    let others = kept_indices(class_flags(y, !is_hit(y[i])));
    others[(i as usize).wrapping_mul(2654435761) as int % others.len() as int]
}

/// The opponent of every row, where both classes occur.
pub fn rank_opponents(y: &Vec<Num>) -> (r: Option<Vec<usize>>)
    ensures
        r is Some <==> kept_indices(class_flags(y@, true)).len() > 0 && kept_indices(class_flags(y@, false)).len() > 0,
        r matches Some(list) ==> list@ == Seq::new(y@.len(), |i: int| opponent(y@, i)),
{
    let half: Num = Num { bits: HALF };
    let split: (Vec<usize>, Vec<usize>) = split_classes(y);
    let pos: Vec<usize> = split.0;
    let neg: Vec<usize> = split.1;
    if pos.len() == 0 || neg.len() == 0 {
        return None;
    }
    let mut list: Vec<usize> = Vec::new();
    let mut i: usize = 0;
    while i < y.len()
        invariant
            i <= y@.len(),
            half.bits == HALF,
            pos@ == kept_indices(class_flags(y@, true)),
            neg@ == kept_indices(class_flags(y@, false)),
            pos@.len() > 0,
            neg@.len() > 0,
            list@.len() == i,
            forall|k: int| 0 <= k < i ==> #[trigger] list@[k] == opponent(y@, k),
        decreases y@.len() - i,
    {
        let h: usize = i.wrapping_mul(2654435761);
        if half.lt(&y[i]) {
            list.push(neg[h % neg.len()]);
        } else {
            list.push(pos[h % pos.len()]);
        }
        i = i + 1;
    }
    assert(list@ =~= Seq::new(y@.len(), |i: int| opponent(y@, i)));
    Some(list)
}

/// An opponent is of the opposite class.
pub proof fn law_opponents_differ(y: Seq<Num>, i: int)
    requires
        y.len() <= usize::MAX,
        0 <= i < y.len(),
        kept_indices(class_flags(y, true)).len() > 0,
        kept_indices(class_flags(y, false)).len() > 0,
    ensures
        opponent(y, i) < y.len(),
        is_hit(y[opponent(y, i) as int]) != is_hit(y[i]),
{
    let flags = class_flags(y, !is_hit(y[i]));
    let others = kept_indices(flags);
    crate::select::lemma_kept_indices(flags);
    let p = (i as usize).wrapping_mul(2654435761) as int % others.len() as int;
    assert(0 <= p < others.len());
    assert(flags[others[p] as int]);
}

/// The weight that counts: the one given where it is finite and above zero, and one otherwise.
pub open spec fn usable_weight(w: Num) -> Num {
    if w.finite() && positive(w) {
        w
    } else {
        Num { bits: ONE }
    }
}

fn use_weight(w: &Num) -> (r: Num)
    ensures
        r == usable_weight(*w),
{
    if w.is_finite() && is_positive(w) {
        *w
    } else {
        Num { bits: ONE }
    }
}

/// The weights of two classes, or one for each where fewer are given.
pub open spec fn two_weights(class_weights: Seq<Num>) -> (Num, Num) {
    if class_weights.len() >= 2 {
        (usable_weight(class_weights[0]), usable_weight(class_weights[1]))
    } else {
        (Num { bits: ONE }, Num { bits: ONE })
    }
}

/// The weights of the negative and the positive class; one for each where
/// fewer than two are given.
pub fn binary_class_weights(class_weights: &Vec<Num>) -> (r: (Num, Num))
    ensures
        r == two_weights(class_weights@),
{
    if class_weights.len() >= 2 {
        (use_weight(&class_weights[0]), use_weight(&class_weights[1]))
    } else {
        (Num { bits: ONE }, Num { bits: ONE })
    }
}

/// The weight of a class, or one where there is not one for each.
pub open spec fn weight_of_class(class_weights: Seq<Num>, n_classes: int, class: int) -> Num {
    if class_weights.len() == n_classes && class < n_classes {
        class_weights[class]
    } else {
        Num { bits: ONE }
    }
}

/// The weight of a row's class, where there is one weight for each class.
pub fn multiclass_weight(class_weights: &Vec<Num>, n_classes: usize, class: usize) -> (r: Num)
    ensures
        r == weight_of_class(class_weights@, n_classes as int, class as int),
{
    if class_weights.len() == n_classes && class < class_weights.len() {
        class_weights[class]
    } else {
        Num { bits: ONE }
    }
}

/// The number of score bins of the histogram form.
pub const RANK_BINS: usize = 256;

/// The second weight for hits, and the first for the rest.
pub open spec fn weight_of_side(y: Num, weights: (Num, Num)) -> Num {
    if is_hit(y) {
        weights.1
    } else {
        weights.0
    }
}

/// The weight of a row by its class.
pub fn side_weight(y: &Num, weights: &(Num, Num)) -> (r: Num)
    ensures
        r == weight_of_side(*y, *weights),
{
    let half: Num = Num { bits: HALF };
    if half.lt(y) {
        weights.1
    } else {
        weights.0
    }
}

/// The range cut to what lies between `low` and `high`, where scores deviate at all.
pub open spec fn trimmed_range(range: (Num, Num), deviation: Num, low: Num, high: Num) -> (Num, Num) {
    if deviation.finite() && (Num { bits: E_MINUS_12 }).below(deviation) {
        (range.0.larger(low), range.1.smaller(high))
    } else {
        range
    }
}

/// The range of scores, trimmed to eight deviations around the mean: `low` and
/// `high` are the ends of that interval. A negligible deviation trims nothing.
pub fn trim_range(range: &(Num, Num), deviation: &Num, low: &Num, high: &Num) -> (r: (Num, Num))
    ensures
        r == trimmed_range(*range, *deviation, *low, *high),
{
    let least: Num = Num { bits: E_MINUS_12 };
    if deviation.is_finite() && least.lt(deviation) {
        (range.0.max(low), range.1.min(high))
    } else {
        *range
    }
}

/// The range, or what takes its place where it cannot be binned over.
pub open spec fn settled_range(n_finite: int, range: (Num, Num), raised: Num, around: (Num, Num)) -> (Num, Num) {
    if n_finite == 0 {
        (Num { bits: MINUS_ONE }, Num { bits: ONE })
    } else if !range.0.finite() || !range.1.finite() || range.1.at_most(raised) {
        around
    } else {
        range
    }
}

/// The range that scores are binned over: from -1 to 1 without a finite score,
/// and the interval of `around` where the range is not finite or too narrow
/// (`raised` is its lower end and a little more).
pub fn settle_range(n_finite: usize, range: &(Num, Num), raised: &Num, around: &(Num, Num)) -> (r: (Num, Num))
    ensures
        r == settled_range(n_finite as int, *range, *raised, *around),
{
    if n_finite == 0 {
        (Num { bits: MINUS_ONE }, Num { bits: ONE })
    } else if !range.0.is_finite() || !range.1.is_finite() || range.1.le(raised) {
        *around
    } else {
        *range
    }
}

/// The score bin of a prediction: the middle one where it is not finite, and
/// otherwise its rounded place on the scale, held to the bins.
pub open spec fn score_bin(z: Num, place: Num) -> int {
    if !z.finite() {
        128
    } else if place.nan() {
        0
    } else {
        saturate(place.rounded(), 0, 255)
    }
}

pub fn rank_bin(z: &Num, place: &Num) -> (b: usize)
    ensures
        b == score_bin(*z, *place),
        b < RANK_BINS,
{
    if !z.is_finite() {
        return RANK_BINS / 2;
    }
    let r: usize = place.round_to_usize();
    if r > 255 {
        255
    } else {
        r
    }
}

/// The bins of the listed rows.
pub open spec fn bins_of(rows: Seq<usize>, bins: Seq<usize>) -> Seq<usize> {
    Seq::new(rows.len(), |i: int| bins[rows[i] as int])
}

/// How many of the listed rows fall into each score bin.
pub fn rank_histogram(rows: &Vec<usize>, bins: &Vec<usize>) -> (counts: Vec<usize>)
    requires
        forall|i: int| 0 <= i < rows@.len() ==> #[trigger] rows@[i] < bins@.len(),
        forall|i: int| 0 <= i < bins@.len() ==> #[trigger] bins@[i] < RANK_BINS,
    ensures
        counts@.len() == RANK_BINS,
        forall|b: usize| b < RANK_BINS ==> counts@[b as int] == #[trigger] count_of(bins_of(rows@, bins@), b),
{
    let mut list: Vec<usize> = Vec::new();
    let mut i: usize = 0;
    while i < rows.len()
        invariant
            i <= rows@.len(),
            forall|k: int| 0 <= k < rows@.len() ==> #[trigger] rows@[k] < bins@.len(),
            forall|k: int| 0 <= k < bins@.len() ==> #[trigger] bins@[k] < RANK_BINS,
            list@.len() == i,
            forall|k: int| 0 <= k < i ==> #[trigger] list@[k] == bins@[rows@[k] as int],
        decreases rows@.len() - i,
    {
        list.push(bins[rows[i]]);
        i = i + 1;
    }
    assert(list@ =~= bins_of(rows@, bins@));
    assert forall|k: int| 0 <= k < list@.len() implies #[trigger] list@[k] < RANK_BINS by {
        assert(bins@[rows@[k] as int] < RANK_BINS);
    }
    tally(&list, RANK_BINS)
}

/// The lowest and the highest finite value among the first `n`, and how many are finite.
pub open spec fn finite_range(v: Seq<Num>, n: nat) -> (Num, Num, nat)
    decreases n,
{
    if n == 0 {
        (Num { bits: INFINITY }, Num { bits: NEG_INFINITY }, 0)
    } else {
        let r = finite_range(v, (n - 1) as nat);
        let z = v[n - 1];
        if z.finite() {
            (r.0.smaller(z), r.1.larger(z), r.2 + 1)
        } else {
            r
        }
    }
}

pub fn finite_bounds(v: &Vec<Num>) -> (r: (Num, Num, usize))
    ensures
        (r.0, r.1, r.2 as nat) == finite_range(v@, v@.len()),
{
    let mut lo: Num = Num { bits: INFINITY };
    let mut hi: Num = Num { bits: NEG_INFINITY };
    let mut count: usize = 0;
    let mut i: usize = 0;
    while i < v.len()
        invariant
            i <= v@.len(),
            count <= i,
            (lo, hi, count as nat) == finite_range(v@, i as nat),
        decreases v@.len() - i,
    {
        let z: Num = v[i];
        if z.is_finite() {
            lo = lo.min(&z);
            hi = hi.max(&z);
            count = count + 1;
        }
        i = i + 1;
    }
    (lo, hi, count)
}

/// The loss that an evaluation reports.
#[derive(Clone, Copy, PartialEq, Eq, Structural, Debug)]
pub enum EvalLoss {
    SquaredError,
    AucError,
    LogLoss,
    PoissonDeviance,
}

/// A letter's lower-case form, for the ASCII letters.
pub open spec fn lowered(c: char) -> char {
    if 'A' <= c && c <= 'Z' {
        ((c as u32) + 32) as char
    } else {
        c
    }
}

/// Whether two names are the same when ASCII letters are taken in lower case.
pub open spec fn same_name(a: Seq<char>, b: Seq<char>) -> bool {
    a.len() == b.len() && forall|i: int| 0 <= i < a.len() ==> lowered(#[trigger] a[i]) == b[i]
}

fn lower(c: char) -> (r: char)
    ensures
        r == lowered(c),
{
    match c {
        'A' => 'a', 'B' => 'b', 'C' => 'c', 'D' => 'd', 'E' => 'e', 'F' => 'f', 'G' => 'g',
        'H' => 'h', 'I' => 'i', 'J' => 'j', 'K' => 'k', 'L' => 'l', 'M' => 'm', 'N' => 'n',
        'O' => 'o', 'P' => 'p', 'Q' => 'q', 'R' => 'r', 'S' => 's', 'T' => 't', 'U' => 'u',
        'V' => 'v', 'W' => 'w', 'X' => 'x', 'Y' => 'y', 'Z' => 'z',
        other => other,
    }
}

fn names_match(a: &str, b: &str) -> (r: bool)
    ensures
        r == same_name(a@, b@),
{
    let n: usize = a.unicode_len();
    if n != b.unicode_len() {
        return false;
    }
    let mut i: usize = 0;
    while i < n
        invariant
            i <= n,
            n == a@.len(),
            n == b@.len(),
            forall|k: int| 0 <= k < i ==> lowered(#[trigger] a@[k]) == b@[k],
        decreases n - i,
    {
        if lower(a.get_char(i)) != b.get_char(i) {
            assert(lowered(a@[i as int]) != b@[i as int]);
            return false;
        }
        i = i + 1;
    }
    true
}

/// Whether a metric's name asks for the area under the curve.
pub open spec fn names_auc(metric: Seq<char>) -> bool {
    same_name(metric, "auc"@) || same_name(metric, "roc_auc"@) || same_name(metric, "1-auc"@)
}

/// The loss that a task is evaluated by.
pub open spec fn loss_of_task(task: Task, metric: Seq<char>, auc_defined: bool) -> EvalLoss {
    match task {
        Task::Binary | Task::Rank => if names_auc(metric) && auc_defined {
            EvalLoss::AucError
        } else {
            EvalLoss::LogLoss
        },
        Task::Poisson => EvalLoss::PoissonDeviance,
        _ => EvalLoss::SquaredError,
    }
}

/// The loss of an evaluation: binary and rank tasks report the area under the
/// curve where it is asked for and both classes occur, and log-loss otherwise.
pub fn choose_eval_loss(task: Task, metric: &str, auc_defined: bool) -> (r: EvalLoss)
    ensures
        r == loss_of_task(task, metric@, auc_defined),
{
    let classes: bool = match task {
        Task::Binary => true,
        Task::Rank => true,
        _ => false,
    };
    if classes {
        if (names_match(metric, "auc") || names_match(metric, "roc_auc") || names_match(metric, "1-auc"))
            && auc_defined {
            return EvalLoss::AucError;
        }
        return EvalLoss::LogLoss;
    }
    match task {
        Task::Poisson => EvalLoss::PoissonDeviance,
        _ => EvalLoss::SquaredError,
    }
}

/// A weight is used as it is given, whether it raises or lowers its class: every
/// finite one above zero. All others count as one.
pub proof fn law_weights_are_used_as_given(w: Num)
    ensures
        w.finite() && w.scaled() > 0 ==> usable_weight(w) == w,
        !w.finite() || w.scaled() <= 0 ==> usable_weight(w).bits == 0x3ff0_0000_0000_0000,
{
    if w.finite() {
        crate::num::law_key_orders_values(Num { bits: 0 }, w);
        assert(crate::num::scaled_magnitude(0) == 0);
    }
}

/// A target is a hit where it is above one half, and each row is told by its own
/// target: the rows of the two classes are all rows, and none is of both.
pub proof fn law_classes_part_rows(y: Seq<Num>, row: usize)
    requires
        y.len() <= usize::MAX,
    ensures
        ({
            let hits = kept_indices(class_flags(y, true));
            let misses = kept_indices(class_flags(y, false));
            &&& hits.contains(row) <==> row < y.len() && (Num { bits: 0x3fe0_0000_0000_0000 }).below(y[row as int])
            &&& misses.contains(row) <==> row < y.len() && !hits.contains(row)
            &&& hits.len() + misses.len() == y.len()
        }),
{
    let (a, b) = (class_flags(y, true), class_flags(y, false));
    crate::select::law_kept_are_those_marked(a, row);
    crate::select::law_kept_are_those_marked(b, row);
    crate::select::law_marked_and_unmarked_add_up(a, b);
}

/// Gradients are those of the task: squared errors give way to a cutoff exactly
/// where one is set, and ranks are blended in exactly where a share is set and
/// both classes occur; all pairs of up to two million are compared one by one.
pub proof fn law_gradients_are_of_the_task(delta: Num, alpha: Num, n: int, hits: int)
    requires
        0 <= hits <= n,
    ensures
        gradient_form(Task::Regression, delta, alpha, n, hits) == if (Num { bits: 0 }).below(delta) {
            GradientForm::Huber
        } else {
            GradientForm::Squared
        },
        ({
            let form = gradient_form(Task::Binary, delta, alpha, n, hits);
            let ranked = (Num { bits: 0 }).below(alpha) && 0 < hits < n;
            &&& form == GradientForm::LogLoss <==> !ranked
            &&& form == GradientForm::ExactPairs <==> ranked && hits * (n - hits) <= 2_000_000
            &&& form == GradientForm::HistogramPairs <==> ranked && hits * (n - hits) > 2_000_000
        }),
        gradient_form(Task::Poisson, delta, alpha, n, hits) == GradientForm::Poisson,
        gradient_form(Task::Rank, delta, alpha, n, hits) == GradientForm::Opponents <==> 0 < hits < n,
        gradient_form(Task::Rank, delta, alpha, n, hits) == GradientForm::PlainLogLoss <==> hits == 0 || hits == n,
        gradient_form(Task::Multiclass, delta, alpha, n, hits) == GradientForm::Squared,
{
}

/// The bounds of scores hold every finite one and are attained by one, and the
/// count is that of the finite ones.
pub proof fn law_bounds_hold_finite_scores(v: Seq<Num>, n: nat)
    requires
        n <= v.len(),
    ensures
        ({
            let (low, high, count) = finite_range(v, n);
            &&& count <= n
            &&& forall|i: int| 0 <= i < n && (#[trigger] v[i]).finite() ==> low.at_most(v[i]) && v[i].at_most(high)
            &&& count == 0 <==> forall|i: int| 0 <= i < n ==> !(#[trigger] v[i]).finite()
            &&& count == n <==> forall|i: int| 0 <= i < n ==> (#[trigger] v[i]).finite()
            &&& count > 0 ==> (exists|i: int| 0 <= i < n && (#[trigger] v[i]).finite() && v[i] == low) && (exists|i: int|
                0 <= i < n && (#[trigger] v[i]).finite() && v[i] == high)
            &&& !low.nan() && !high.nan()
        }),
    decreases n,
{
    if n > 0 {
        law_bounds_hold_finite_scores(v, (n - 1) as nat);
        let (low, high, count) = finite_range(v, (n - 1) as nat);
        let z = v[n - 1];
        if z.finite() {
            assert(v[n - 1].finite());
            if count == 0 {
                assert(low.bits == INFINITY && high.bits == NEG_INFINITY) by {
                    lemma_no_finite(v, (n - 1) as nat);
                }
            }
        }
    }
}

proof fn lemma_no_finite(v: Seq<Num>, n: nat)
    requires
        finite_range(v, n).2 == 0,
    ensures
        finite_range(v, n) == (Num { bits: INFINITY }, Num { bits: NEG_INFINITY }, 0nat),
    decreases n,
{
    if n > 0 {
        lemma_no_finite(v, (n - 1) as nat);
    }
}

/// Bins of scores rise with the place of the score, from the first to the last of
/// the 256, and a score that is no finite number falls in the middle.
pub proof fn law_score_bins_rise(z: Num, a: Num, b: Num)
    requires
        a.at_most(b),
        a.finite(),
        b.finite(),
    ensures
        z.finite() ==> 0 <= score_bin(z, a) <= score_bin(z, b) <= 255,
        !z.finite() ==> score_bin(z, a) == 128,
        z.finite() && 0 <= b.rounded() <= 255 ==> score_bin(z, b) == b.rounded(),
{
    crate::num::law_key_orders_values(a, b);
    crate::num::law_rounding_rises(a, b);
}

/// The name of a metric counts whatever the case of its letters.
pub proof fn law_metrics_are_named_in_any_case(a: Seq<char>, b: Seq<char>)
    requires
        a.len() == b.len(),
        forall|i: int| 0 <= i < a.len() ==> lowered(#[trigger] a[i]) == lowered(b[i]),
    ensures
        names_auc(a) == names_auc(b),
        lowered('A') == 'a' && lowered('Z') == 'z' && lowered('a') == 'a' && lowered('_') == '_',
{
    lemma_same_name(a, b, "auc"@);
    lemma_same_name(a, b, "roc_auc"@);
    lemma_same_name(a, b, "1-auc"@);
}

proof fn lemma_same_name(a: Seq<char>, b: Seq<char>, name: Seq<char>)
    requires
        a.len() == b.len(),
        forall|i: int| 0 <= i < a.len() ==> lowered(#[trigger] a[i]) == lowered(b[i]),
    ensures
        same_name(a, name) == same_name(b, name),
{
    if same_name(a, name) {
        assert forall|i: int| 0 <= i < b.len() implies lowered(#[trigger] b[i]) == name[i] by {
            assert(lowered(a[i]) == name[i]);
        }
    }
    if same_name(b, name) {
        assert forall|i: int| 0 <= i < a.len() implies lowered(#[trigger] a[i]) == name[i] by {
            assert(lowered(b[i]) == name[i]);
        }
    }
}

/// Rows above one half have the weight of the second class and all others that of the first;
/// weights that are given count as they are, and without one for each class all rows weigh
/// alike.
pub proof fn law_classes_weigh_as_set(class_weights: Seq<Num>, y: Num, n_classes: int, class: int)
    requires
        0 <= class < n_classes,
        y.finite(),
    ensures
        class_weights.len() >= 2 && 0 < class_weights[0].bits < 0x7ff0_0000_0000_0000 && y.scaled() <= (Num {
            bits: 0x3fe0_0000_0000_0000,
        }).scaled() ==> weight_of_side(y, two_weights(class_weights)) == class_weights[0],
        class_weights.len() >= 2 && 0 < class_weights[1].bits < 0x7ff0_0000_0000_0000 && y.scaled() > (Num {
            bits: 0x3fe0_0000_0000_0000,
        }).scaled() ==> weight_of_side(y, two_weights(class_weights)) == class_weights[1],
        class_weights.len() < 2 ==> weight_of_side(y, two_weights(class_weights)).bits == 0x3ff0_0000_0000_0000,
        class_weights.len() == n_classes ==> weight_of_class(class_weights, n_classes, class) == class_weights[class],
        class_weights.len() != n_classes ==> weight_of_class(class_weights, n_classes, class).bits
            == 0x3ff0_0000_0000_0000,
{
    crate::num::law_key_orders_values(Num { bits: HALF }, y);
}

/// A trimmed range lies within the range and between the two bounds, and without deviation
/// nothing is cut.
pub proof fn law_ranges_are_trimmed(range: (Num, Num), deviation: Num, low: Num, high: Num)
    requires
        !range.0.nan(),
        !range.1.nan(),
        !low.nan(),
        !high.nan(),
    ensures
        ({
            let (a, b) = trimmed_range(range, deviation, low, high);
            let spread = 0x3d71_9799_812d_ea11 < deviation.bits < 0x7ff0_0000_0000_0000;
            &&& range.0.at_most(a) && b.at_most(range.1)
            &&& spread ==> low.at_most(a) && b.at_most(high) && (a == range.0 || a == low) && (b == range.1 || b
                == high)
            &&& !spread ==> a == range.0 && b == range.1
        }),
{
}

/// Scores are binned over their range where it is finite and wide enough, over the interval
/// around it else, and from minus one to one without any finite score.
pub proof fn law_ranges_can_be_binned(n_finite: int, range: (Num, Num), raised: Num, around: (Num, Num))
    requires
        raised.finite(),
        0 <= n_finite,
    ensures
        n_finite == 0 ==> settled_range(n_finite, range, raised, around) == (
            Num { bits: 0xbff0_0000_0000_0000 },
            Num { bits: 0x3ff0_0000_0000_0000 },
        ),
        n_finite > 0 && range.0.finite() && range.1.finite() && raised.scaled() < range.1.scaled() ==> settled_range(
            n_finite,
            range,
            raised,
            around,
        ) == range,
        n_finite > 0 && !(range.0.finite() && range.1.finite() && raised.scaled() < range.1.scaled())
            ==> settled_range(n_finite, range, raised, around) == around,
{
    if range.1.finite() {
        crate::num::law_key_orders_values(range.1, raised);
    }
}

/// The area under the curve is reported for binary and rank tasks alone, where it is named
/// and can be told; counts have their deviance, and all else but classes in two the squared
/// error.
pub proof fn law_tasks_have_their_loss(task: Task, metric: Seq<char>, auc_defined: bool)
    ensures
        loss_of_task(task, metric, auc_defined) == EvalLoss::AucError <==> (task == Task::Binary || task == Task::Rank)
            && names_auc(metric) && auc_defined,
        loss_of_task(task, metric, auc_defined) == EvalLoss::LogLoss <==> (task == Task::Binary || task == Task::Rank)
            && !(names_auc(metric) && auc_defined),
        loss_of_task(task, metric, auc_defined) == EvalLoss::PoissonDeviance <==> task == Task::Poisson,
        loss_of_task(task, metric, auc_defined) == EvalLoss::SquaredError <==> task == Task::Regression || task
            == Task::Multiclass || task == Task::Other,
{
}

/// The area under the curve has three names.
pub proof fn law_area_has_three_names(metric: Seq<char>)
    ensures
        names_auc(seq!['a', 'u', 'c']),
        names_auc(seq!['r', 'o', 'c', '_', 'a', 'u', 'c']),
        names_auc(seq!['1', '-', 'a', 'u', 'c']),
        names_auc(metric) ==> {
            let low = metric.map_values(|c: char| lowered(c));
            low == seq!['a', 'u', 'c'] || low == seq!['r', 'o', 'c', '_', 'a', 'u', 'c'] || low == seq![
                '1',
                '-',
                'a',
                'u',
                'c',
            ]
        },
{
    reveal_strlit("auc");
    reveal_strlit("roc_auc");
    reveal_strlit("1-auc");
    assert("auc"@ =~= seq!['a', 'u', 'c']);
    assert("roc_auc"@ =~= seq!['r', 'o', 'c', '_', 'a', 'u', 'c']);
    assert("1-auc"@ =~= seq!['1', '-', 'a', 'u', 'c']);
    assert(same_name(seq!['a', 'u', 'c'], "auc"@));
    assert(same_name(seq!['r', 'o', 'c', '_', 'a', 'u', 'c'], "roc_auc"@));
    assert(same_name(seq!['1', '-', 'a', 'u', 'c'], "1-auc"@));
    let low = metric.map_values(|c: char| lowered(c));
    if same_name(metric, "auc"@) {
        assert(low =~= "auc"@);
    }
    if same_name(metric, "roc_auc"@) {
        assert(low =~= "roc_auc"@);
    }
    if same_name(metric, "1-auc"@) {
        assert(low =~= "1-auc"@);
    }
}

} // verus!
