//! Feature pressure: how rows are binned for it, and what is chosen by it.

use crate::bits::{E_MINUS_12, E_MINUS_18, E_MINUS_4, NEG_INFINITY, ONE, ONE_POINT_03, ONE_POINT_75, TWO_POINT_5};
use crate::bitset::{bitvec_test, has_bit};
use crate::goss::{keys_of, order_keys};
use crate::masks::{admits_exactly, mask_of};
use crate::num::{saturate, Num};
use crate::order::{is_ranking, rank_descending};
use crate::select::{
    all_kept, at_most, collect_kept, is_positive, is_top, keep_all, kept_indices, positive, select_top,
};
use crate::tree::BinnedData;
use vstd::prelude::*;

verus! {

/// The highest bin that pressure is taken over.
pub const MAX_PRESSURE_BIN: u16 = 4096;

/// The stability fold of a row for a feature.
pub open spec fn stability_fold(row: usize, feature: usize) -> int {
    let h = (row as u64).wrapping_mul(0xD6E8_FD9D_50D5_1735) ^ (feature as u64).wrapping_mul(0x9E37_79B9_7F4A_7C15);
    (((h ^ (h >> 33)) as usize) & 1) as int
}

/// The bin of a row that counts towards a feature's pressure.
pub open spec fn pressure_bin(data: BinnedData, feature: int, row: int) -> Option<u16> {
    let b = data.bin(row, feature);
    if b == data.missing_bin || b > MAX_PRESSURE_BIN {
        None
    } else {
        Some(b)
    }
}

/// One more than the highest counting bin among the first `n` rows.
pub open spec fn pressure_width(data: BinnedData, feature: int, n: nat) -> int
    decreases n,
{
    if n == 0 {
        0
    } else {
        let w = pressure_width(data, feature, (n - 1) as nat);
        match pressure_bin(data, feature, n - 1) {
            Some(b) => if b + 1 > w {
                b + 1
            } else {
                w
            },
            None => w,
        }
    }
}

/// A feature's rows by bin and stability fold.
pub struct PressureBins {
    pub width: usize,
    pub bins: Vec<Option<u16>>,
    pub folds: Vec<usize>,
}

/// The bins of a feature, or nothing where there is no such feature or no row.
pub fn pressure_bins(data: &BinnedData, feature: usize) -> (r: Option<PressureBins>)
    requires
        data.filled(),
    ensures
        r is Some <==> feature < data.n_features && data.n_rows > 0,
        r matches Some(p) ==> {
            &&& p.width == pressure_width(*data, feature as int, data.n_rows as nat)
            &&& p.bins@ == Seq::new(data.n_rows as nat, |row: int| pressure_bin(*data, feature as int, row))
            &&& p.folds@ == Seq::new(data.n_rows as nat, |row: int| stability_fold(row as usize, feature) as usize)
        },
{
    if feature >= data.n_features || data.n_rows == 0 {
        return None;
    }
    let mut width: usize = 0;
    let mut bins: Vec<Option<u16>> = Vec::new();
    let mut folds: Vec<usize> = Vec::new();
    let mut row: usize = 0;
    while row < data.n_rows
        invariant
            row <= data.n_rows,
            feature < data.n_features,
            data.filled(),
            width == pressure_width(*data, feature as int, row as nat),
            width <= 4097,
            bins@.len() == row,
            folds@.len() == row,
            forall|r: int| 0 <= r < row ==> #[trigger] bins@[r] == pressure_bin(*data, feature as int, r),
            forall|r: int| 0 <= r < row ==> #[trigger] folds@[r] == stability_fold(r as usize, feature),
        decreases data.n_rows - row,
    {
        let b: u16 = data.get_bin(row, feature);
        if b == data.missing_bin || b > MAX_PRESSURE_BIN {
            bins.push(None);
        } else {
            bins.push(Some(b));
            let w: usize = (b as usize) + 1;
            if w > width {
                width = w;
            }
        }
        let h: u64 = (row as u64).wrapping_mul(0xD6E8_FD9D_50D5_1735) ^ (feature as u64).wrapping_mul(
            0x9E37_79B9_7F4A_7C15,
        );
        let x: u64 = h ^ (h >> 33);
        folds.push((#[verifier::truncate] (x as usize)) & 1);
        row = row + 1;
    }
    assert(bins@ =~= Seq::new(data.n_rows as nat, |row: int| pressure_bin(*data, feature as int, row)));
    assert(folds@ =~= Seq::new(data.n_rows as nat, |row: int| stability_fold(row as usize, feature) as usize));
    Some(PressureBins { width, bins, folds })
}

/// What a feature's score is worth.
#[derive(Clone, Copy, PartialEq, Eq, Structural, Debug)]
pub enum PressureVerdict {
    /// No pressure.
    Zero,
    /// The score as it is.
    Score,
    /// The score is weighed against its two stability folds.
    Weigh,
}

pub open spec fn negligible(v: Num) -> bool {
    v.at_most(Num { bits: E_MINUS_12 })
}

pub open spec fn pressure_verdict(total_h: Num, width: int, score: Num, pessimism: Num, n_rows: int) -> PressureVerdict {
    if negligible(total_h) || width <= 1 || !score.finite() || !positive(score) {
        PressureVerdict::Zero
    } else if pessimism.at_most(Num { bits: 0 }) || n_rows < 64 {
        PressureVerdict::Score
    } else {
        PressureVerdict::Weigh
    }
}

/// Judges a feature's score by the mass under it and its number of bins.
pub fn judge_pressure(total_h: &Num, width: usize, score: &Num, pessimism: &Num, n_rows: usize) -> (r: PressureVerdict)
    ensures
        r == pressure_verdict(*total_h, width as int, *score, *pessimism, n_rows as int),
{
    let tiny: Num = Num { bits: E_MINUS_12 };
    let zero: Num = Num { bits: 0 };
    if total_h.le(&tiny) || width <= 1 || !score.is_finite() || !is_positive(score) {
        PressureVerdict::Zero
    } else if pessimism.le(&zero) || n_rows < 64 {
        PressureVerdict::Score
    } else {
        PressureVerdict::Weigh
    }
}

/// The score where it is finite and above zero, and zero otherwise.
pub open spec fn fold_pressure(score: Num) -> Num {
    if score.finite() && positive(score) {
        score
    } else {
        Num { bits: 0 }
    }
}

/// A fold's pressure: its score where that is finite and above zero, and zero otherwise.
pub fn settle_fold_pressure(score: &Num) -> (r: Num)
    ensures
        r == fold_pressure(*score),
{
    if score.is_finite() && is_positive(score) {
        *score
    } else {
        Num { bits: 0 }
    }
}

/// The features by falling pressure, equal pressures in index order.
pub fn cyclic_feature_order_by_pressure(pressures: &Vec<Num>) -> (order: Vec<usize>)
    requires
        forall|f: int| 0 <= f < pressures@.len() ==> !(#[trigger] pressures@[f]).nan(),
    ensures
        is_ranking(order_keys(pressures@), order@),
{
    let keys: Vec<i64> = keys_of(pressures);
    rank_descending(&keys)
}

/// As many subtrees as the pressure supports, from one to those asked for.
pub open spec fn supported_subtrees(requested: int, n_features: int, eff_dim: Num, supported: Num) -> int {
    if requested <= 1 {
        1
    } else if n_features <= 1 {
        requested
    } else if eff_dim.at_most(Num { bits: ONE }) {
        1
    } else {
        saturate(supported.counted(), 1, requested)
    }
}

/// How many subtrees the pressure supports: `supported` is half the effective
/// dimension under the root, cut off; none above what is asked for, one at least.
pub fn adaptive_subtree_count_by_pressure(requested: usize, n_features: usize, eff_dim: &Num, supported: &Num) -> (r: usize)
    ensures
        r == supported_subtrees(requested as int, n_features as int, *eff_dim, *supported),
{
    if requested <= 1 {
        return 1;
    }
    if n_features <= 1 {
        return requested;
    }
    let one: Num = Num { bits: ONE };
    if eff_dim.le(&one) {
        return 1;
    }
    let s: usize = supported.to_usize();
    if s < 1 {
        1
    } else if s > requested {
        requested
    } else {
        s
    }
}

/// Which features may carry a main effect.
pub open spec fn effect_flags(pressures: Seq<Num>, excluded: Option<usize>) -> Seq<bool> {
    Seq::new(
        pressures.len(),
        |f: int| excluded != Some(f as usize) && pressures[f].finite() && positive(pressures[f]),
    )
}

/// The features that may carry a main effect, by falling pressure.
pub fn main_effect_candidates(pressures: &Vec<Num>, excluded: Option<usize>) -> (list: Vec<usize>)
    ensures
        is_top(pressures@, effect_flags(pressures@, excluded), pressures@.len() as int, list@),
{
    let mut keep: Vec<bool> = Vec::new();
    let mut f: usize = 0;
    while f < pressures.len()
        invariant
            f <= pressures@.len(),
            keep@.len() == f,
            forall|k: int|
                0 <= k < f ==> #[trigger] keep@[k] == (excluded != Some(k as usize) && pressures@[k].finite()
                    && positive(pressures@[k])),
        decreases pressures@.len() - f,
    {
        let other: bool = match excluded {
            Some(e) => e != f,
            None => true,
        };
        keep.push(other && pressures[f].is_finite() && is_positive(&pressures[f]));
        f = f + 1;
    }
    assert(keep@ =~= effect_flags(pressures@, excluded));
    select_top(pressures, &keep, pressures.len())
}

/// What a main effect is judged by: the best pressure and the sum of all, its
/// share of the sum, the share asked for, its ratio to the second best, and a floor.
pub struct EffectEvidence {
    pub total: Num,
    pub best: Num,
    pub share: Num,
    pub min_share: Num,
    pub ratio: Num,
    pub floor: Num,
}

impl EffectEvidence {
    /// Whether the best feature stands out.
    pub open spec fn stands_out(&self) -> bool {
        &&& self.total.finite()
        &&& !negligible(self.total)
        &&& self.floor.below(self.best)
        &&& (self.min_share.at_most(self.share) && (Num { bits: ONE_POINT_03 }).at_most(self.ratio)) || (Num {
            bits: ONE_POINT_75,
        }).at_most(self.ratio)
    }

    pub fn accepts(&self) -> (r: bool)
        ensures
            r == self.stands_out(),
    {
        let tiny: Num = Num { bits: E_MINUS_12 };
        let slight: Num = Num { bits: ONE_POINT_03 };
        let clear: Num = Num { bits: ONE_POINT_75 };
        self.total.is_finite() && !self.total.le(&tiny) && self.floor.lt(&self.best) && ((self.min_share.le(
            &self.share,
        ) && slight.le(&self.ratio)) || clear.le(&self.ratio))
    }
}

/// The feature of a main effect: the first of the candidates, where it stands out.
pub fn main_effect_from_scored_pressures(candidates: &Vec<usize>, evidence: &EffectEvidence) -> (r: Option<usize>)
    ensures
        r == (if candidates@.len() > 0 && evidence.stands_out() {
            Some(candidates@[0])
        } else {
            None::<usize>
        }),
{
    if candidates.len() > 0 && evidence.accepts() {
        Some(candidates[0])
    } else {
        None
    }
}

/// The round is the last of an interval.
pub open spec fn effect_due(interval: int, round: int) -> bool {
    interval > 0 && (round + 1) % interval == 0
}

/// Whether a main-effect tree is due: after every `interval` rounds.
pub fn main_effect_due(interval: usize, round: usize) -> (r: bool)
    requires
        round < usize::MAX,
    ensures
        r == effect_due(interval as int, round as int),
{
    interval > 0 && (round + 1) % interval == 0
}

/// The cyclic settings of a model.
pub struct CyclicSettings {
    pub cyclic_features: bool,
    pub adaptive_cyclic_order: bool,
    pub cyclic_feature_reuse: bool,
    pub cyclic_revisit_trees: usize,
    pub cyclic_max_features_per_round: usize,
    pub n_trees_per_round: usize,
}

impl CyclicSettings {
    /// How many trees a round may spend on features it has already used.
    pub open spec fn revisits(&self) -> int {
        if !self.cyclic_feature_reuse {
            0
        } else if self.cyclic_revisit_trees > 0 {
            at_most(self.cyclic_revisit_trees as int, 16)
        } else {
            saturate(self.n_trees_per_round as int, 1, 16)
        }
    }

    pub fn cyclic_revisit_budget(&self) -> (r: usize)
        ensures
            r == self.revisits(),
            r <= 16,
    {
        if !self.cyclic_feature_reuse {
            return 0;
        }
        let n: usize = if self.cyclic_revisit_trees > 0 {
            self.cyclic_revisit_trees
        } else if self.n_trees_per_round < 1 {
            1
        } else {
            self.n_trees_per_round
        };
        if n < 16 {
            n
        } else {
            16
        }
    }

    /// The subtrees of a round: without cycling as set, with it one for each
    /// feature, or for as many as are allowed, and revisits on top.
    pub open spec fn subtrees(&self, n_feat: int) -> int {
        if !self.cyclic_features {
            if self.n_trees_per_round > 1 {
                self.n_trees_per_round as int
            } else {
                1
            }
        } else {
            let wanted = if self.cyclic_max_features_per_round > 0 {
                at_most(self.cyclic_max_features_per_round as int, n_feat)
            } else {
                n_feat
            };
            (if wanted > 1 {
                wanted
            } else {
                1
            }) + (if self.adaptive_cyclic_order && self.cyclic_feature_reuse {
                self.revisits()
            } else {
                0
            })
        }
    }

    pub fn subtrees_per_boosting_round(&self, n_feat: usize) -> (r: usize)
        requires
            n_feat + 16 <= usize::MAX,
        ensures
            r == self.subtrees(n_feat as int),
    {
        if !self.cyclic_features {
            return if self.n_trees_per_round > 1 { self.n_trees_per_round } else { 1 };
        }
        let wanted: usize = if self.cyclic_max_features_per_round > 0 && self.cyclic_max_features_per_round < n_feat {
            self.cyclic_max_features_per_round
        } else {
            n_feat
        };
        let base: usize = if wanted > 1 { wanted } else { 1 };
        if self.adaptive_cyclic_order && self.cyclic_feature_reuse {
            base + self.cyclic_revisit_budget()
        } else {
            base
        }
    }
}

/// `best` is the first of the highest allowed scores above `start`; nothing
/// where none is above it. A score that is NaN is passed over.
pub open spec fn is_first_best(scores: Seq<Num>, allowed: Seq<bool>, start: Num, best: Option<usize>) -> bool {
    match best {
        Some(p) => {
            &&& p < scores.len()
            &&& allowed[p as int]
            &&& start.below(scores[p as int])
            &&& forall|q: int|
                #![trigger scores[q]]
                0 <= q < scores.len() && allowed[q] && !scores[q].nan() ==> scores[q].key() <= scores[p as int].key()
                    && (q < p ==> scores[q].key() < scores[p as int].key())
        },
        None => forall|q: int|
            #![trigger scores[q]]
            0 <= q < scores.len() && allowed[q] ==> !start.below(scores[q]),
    }
}

/// The first of the highest allowed scores above `start`.
pub fn first_best(scores: &Vec<Num>, allowed: &Vec<bool>, start: &Num) -> (best: Option<usize>)
    requires
        scores@.len() == allowed@.len(),
    ensures
        is_first_best(scores@, allowed@, *start, best),
{
    let mut best: Option<usize> = None;
    let mut top: Num = *start;
    let mut i: usize = 0;
    while i < scores.len()
        invariant
            i <= scores@.len(),
            scores@.len() == allowed@.len(),
            match best {
                Some(p) => {
                    &&& p < i
                    &&& allowed@[p as int]
                    &&& top == scores@[p as int]
                    &&& start.below(top)
                    &&& forall|q: int|
                        #![trigger scores@[q]]
                        0 <= q < i && allowed@[q] && !scores@[q].nan() ==> scores@[q].key() <= top.key() && (q < p
                            ==> scores@[q].key() < top.key())
                },
                None => top == *start && forall|q: int|
                    #![trigger scores@[q]]
                    0 <= q < i && allowed@[q] ==> !start.below(scores@[q]),
            },
        decreases scores@.len() - i,
    {
        if allowed[i] && top.lt(&scores[i]) {
            top = scores[i];
            best = Some(i);
        }
        i = i + 1;
    }
    best
}

/// The highest pressure; zero where none is above it.
pub fn max_cyclic_feature_pressure(pressures: &Vec<Num>) -> (r: Num)
    ensures
        exists|best: Option<usize>| #[trigger]
            is_first_best(pressures@, all_kept(pressures@.len()), Num { bits: 0 }, best) && r == (
            match best {
                Some(p) => pressures@[p as int],
                None => Num { bits: 0 },
            }),
{
    let flags: Vec<bool> = keep_all(pressures.len());
    let zero: Num = Num { bits: 0 };
    let best: Option<usize> = first_best(pressures, &flags, &zero);
    assert(is_first_best(pressures@, all_kept(pressures@.len()), Num { bits: 0 }, best));
    match best {
        Some(p) => pressures[p],
        None => zero,
    }
}

/// The partner of a feature: the first of the highest pair pressures above the
/// least that counts, the feature itself aside.
pub fn best_cyclic_partner_by_pair_pressure(primary: usize, pair_pressures: &Vec<Num>, min_score: &Num) -> (r: Option<usize>)
    ensures
        primary >= pair_pressures@.len() || pair_pressures@.len() <= 1 ==> r is None,
        primary < pair_pressures@.len() && pair_pressures@.len() > 1 ==> is_first_best(
            pair_pressures@,
            Seq::new(pair_pressures@.len(), |f: int| f != primary),
            *min_score,
            r,
        ),
{
    let n: usize = pair_pressures.len();
    if primary >= n || n <= 1 {
        return None;
    }
    let mut flags: Vec<bool> = Vec::new();
    let mut f: usize = 0;
    while f < n
        invariant
            f <= n,
            flags@.len() == f,
            forall|k: int| 0 <= k < f ==> #[trigger] flags@[k] == (k != primary),
        decreases n - f,
    {
        flags.push(f != primary);
        f = f + 1;
    }
    assert(flags@ =~= Seq::new(pair_pressures@.len(), |f: int| f != primary));
    first_best(pair_pressures, &flags, min_score)
}

/// The position that a choice falls to when no score is above negative infinity.
pub open spec fn best_or_first(best: Option<usize>) -> int {
    match best {
        Some(p) => p as int,
        None => 0,
    }
}

/// Takes the feature of the highest pressure out of the remaining ones;
/// `pressures` holds one for each of them.
pub fn take_best_cyclic_feature_by_pressure(remaining: &mut Vec<usize>, pressures: &Vec<Num>) -> (r: Option<usize>)
    requires
        pressures@.len() == old(remaining)@.len(),
    ensures
        old(remaining)@.len() == 0 ==> r is None && final(remaining)@ == old(remaining)@,
        old(remaining)@.len() > 0 ==> exists|best: Option<usize>| #[trigger]
            is_first_best(
                pressures@,
                all_kept(pressures@.len()),
                Num { bits: NEG_INFINITY },
                best,
            ) && r == Some(old(remaining)@[best_or_first(best)]) && final(remaining)@ == old(remaining)@.remove(
                best_or_first(best),
            ),
{
    if remaining.len() == 0 {
        return None;
    }
    let flags: Vec<bool> = keep_all(pressures.len());
    let lowest: Num = Num { bits: NEG_INFINITY };
    let best: Option<usize> = first_best(pressures, &flags, &lowest);
    assert(is_first_best(
        pressures@,
        all_kept(pressures@.len()),
        Num { bits: NEG_INFINITY },
        best,
    ));
    let pos: usize = match best {
        Some(p) => p,
        None => 0,
    };
    let f: usize = remaining.remove(pos);
    Some(f)
}

/// Picks the feature of the highest discounted pressure and counts its use;
/// `scores` holds one for each feature that may be picked.
pub fn take_cyclic_feature_by_residual_auction(usage: &mut Vec<usize>, scores: &Vec<Num>) -> (r: Option<usize>)
    requires
        scores@.len() <= old(usage)@.len(),
        forall|f: int| 0 <= f < old(usage)@.len() ==> #[trigger] old(usage)@[f] < usize::MAX,
    ensures
        old(usage)@.len() == 0 ==> r is None && final(usage)@ == old(usage)@,
        old(usage)@.len() > 0 ==> exists|best: Option<usize>| #[trigger]
            is_first_best(
                scores@,
                all_kept(scores@.len()),
                Num { bits: NEG_INFINITY },
                best,
            ) && r == Some(best_or_first(best) as usize) && final(usage)@ == old(usage)@.update(
                best_or_first(best),
                (old(usage)@[best_or_first(best)] + 1) as usize,
            ),
{
    if usage.len() == 0 {
        return None;
    }
    let flags: Vec<bool> = keep_all(scores.len());
    let lowest: Num = Num { bits: NEG_INFINITY };
    let best: Option<usize> = first_best(scores, &flags, &lowest);
    assert(is_first_best(
        scores@,
        all_kept(scores@.len()),
        Num { bits: NEG_INFINITY },
        best,
    ));
    let f: usize = match best {
        Some(p) => p,
        None => 0,
    };
    let used: usize = usage[f];
    usage.set(f, used + 1);
    Some(f)
}

/// Which features press on the root at all.
pub open spec fn pressing(pressures: Seq<Num>) -> Seq<bool> {
    Seq::new(pressures.len(), |f: int| positive(pressures[f]) && pressures[f].finite())
}

/// Picks a root feature by its discounted score, among those with a finite
/// pressure above zero, and counts its use.
pub fn take_adaptive_root_anchor_by_pressure(usage: &mut Vec<usize>, pressures: &Vec<Num>, scores: &Vec<Num>) -> (r: Option<usize>)
    requires
        scores@.len() == pressures@.len(),
        scores@.len() <= old(usage)@.len(),
        forall|f: int| 0 <= f < old(usage)@.len() ==> #[trigger] old(usage)@[f] < usize::MAX,
    ensures
        is_first_best(scores@, pressing(pressures@), Num { bits: NEG_INFINITY }, r),
        final(usage)@ == (match r {
            Some(f) => old(usage)@.update(f as int, (old(usage)@[f as int] + 1) as usize),
            None => old(usage)@,
        }),
{
    let mut flags: Vec<bool> = Vec::new();
    let mut i: usize = 0;
    while i < pressures.len()
        invariant
            i <= pressures@.len(),
            flags@.len() == i,
            forall|k: int| 0 <= k < i ==> #[trigger] flags@[k] == (positive(pressures@[k]) && pressures@[k].finite()),
        decreases pressures@.len() - i,
    {
        flags.push(is_positive(&pressures[i]) && pressures[i].is_finite());
        i = i + 1;
    }
    assert(flags@ =~= pressing(pressures@));
    let lowest: Num = Num { bits: NEG_INFINITY };
    let best: Option<usize> = first_best(scores, &flags, &lowest);
    match best {
        Some(f) => {
            let used: usize = usage[f];
            usage.set(f, used + 1);
        },
        None => {},
    }
    best
}

/// The usage of each feature after those that the mask admits have been counted.
pub open spec fn usage_counted(usage: Seq<usize>, mask: Seq<bool>) -> Seq<usize> {
    Seq::new(
        usage.len(),
        |f: int|
            if f < mask.len() && mask[f] {
                (usage[f] + 1) as usize
            } else {
                usage[f]
            },
    )
}

/// A mask of the features with the highest discounted scores, and their use
/// counted: `product` is the column rate times the number of features, rounded
/// up. Without usage counts a full mask is made without scores.
pub fn make_adaptive_feature_mask_by_pressure(usage: &mut Vec<usize>, scores: &Vec<Num>, product: &Num) -> (mask: Vec<bool>)
    requires
        forall|f: int| 0 <= f < scores@.len() ==> !(#[trigger] scores@[f]).nan(),
        forall|f: int| 0 <= f < old(usage)@.len() ==> #[trigger] old(usage)@[f] < usize::MAX,
    ensures
        mask@.len() == scores@.len(),
        scores@.len() > 0 ==> exists|order: Seq<usize>| #[trigger]
            is_ranking(order_keys(scores@), order) && admits_exactly(
                mask@,
                order.take(saturate(product.counted(), 1, scores@.len() as int)),
            ),
        final(usage)@ == usage_counted(old(usage)@, mask@),
{
    let n: usize = scores.len();
    let before = Ghost(usage@);
    if n == 0 {
        assert(usage@ =~= usage_counted(before@, Seq::empty()));
        return Vec::new();
    }
    let raw: usize = product.to_usize();
    let select: usize = if raw < 1 {
        1
    } else if raw > n {
        n
    } else {
        raw
    };
    let keys: Vec<i64> = keys_of(scores);
    let order: Vec<usize> = rank_descending(&keys);
    let mask: Vec<bool> = mask_of(n, &order, select);
    assert(is_ranking(order_keys(scores@), order@));
    let mut f: usize = 0;
    while f < usage.len()
        invariant
            f <= usage@.len(),
            usage@.len() == before@.len(),
            n == mask@.len(),
            forall|k: int| 0 <= k < before@.len() ==> #[trigger] before@[k] < usize::MAX,
            forall|k: int| 0 <= k < f ==> #[trigger] usage@[k] == usage_counted(before@, mask@)[k],
            forall|k: int| f <= k < usage@.len() ==> #[trigger] usage@[k] == before@[k],
        decreases usage@.len() - f,
    {
        if f < n && mask[f] {
            let used: usize = usage[f];
            assert(before@[f as int] < usize::MAX);
            usage.set(f, used + 1);
        }
        f = f + 1;
    }
    assert(usage@ =~= usage_counted(before@, mask@));
    mask
}

/// The coarse cell of a bin out of `bins`, on a grid of `n`.
pub open spec fn coarse(bin: int, bins: int, n: int) -> int {
    at_most((bin * n) / bins, n - 1)
}

/// Whether a pair of features has a pair pressure at all: two different
/// numeric features of more than one bin.
pub open spec fn pair_pressed(data: BinnedData, n_bins: Seq<usize>, a: int, b: int) -> bool {
    &&& a < data.n_features
    &&& b < data.n_features
    &&& a != b
    &&& data.n_rows > 0
    &&& !(a < data.is_categorical@.len() && data.is_categorical@[a])
    &&& !(b < data.is_categorical@.len() && data.is_categorical@[b])
    &&& n_bins[a] > 1
    &&& n_bins[b] > 1
}

/// The grid cell of a row under two features: none for a missing bin or one out of range.
pub open spec fn grid_cell(data: BinnedData, n_bins: Seq<usize>, a: int, b: int, n: int, row: int) -> Option<usize> {
    let x = data.bin(row, a);
    let y = data.bin(row, b);
    if x == data.missing_bin || y == data.missing_bin || x >= n_bins[a] || y >= n_bins[b] {
        None
    } else {
        Some((coarse(x as int, n_bins[a] as int, n) * n + coarse(y as int, n_bins[b] as int, n)) as usize)
    }
}

fn coarse_of(bin: usize, bins: usize, n: usize) -> (r: usize)
    requires
        bin < bins,
        bin <= u16::MAX,
        2 <= n <= 32,
    ensures
        r == coarse(bin as int, bins as int, n as int),
        r < n,
{
    assert(bin * n <= u16::MAX * 32) by (nonlinear_arith)
        requires
            0 <= bin <= u16::MAX,
            0 <= n <= 32,
    ;
    assert(bin * n >= 0) by (nonlinear_arith)
        requires
            0 <= bin,
            0 <= n,
    ;
    proof {
        vstd::arithmetic::div_mod::lemma_div_pos_is_pos(bin * n, bins as int);
    }
    let c: usize = (bin * n) / bins;
    if c < n - 1 {
        c
    } else {
        n - 1
    }
}

/// The grid cells of all rows under a pair of features, or nothing where the
/// pair has no pressure. The grid has between 2 and 32 cells each way.
pub fn pair_cells(data: &BinnedData, n_bins: &Vec<usize>, a: usize, b: usize, grid: usize) -> (r: Option<Vec<Option<usize>>>)
    requires
        data.filled(),
        n_bins@.len() == data.n_features,
    ensures
        r is Some <==> pair_pressed(*data, n_bins@, a as int, b as int),
        r matches Some(cells) ==> cells@ == Seq::new(
            data.n_rows as nat,
            |row: int| grid_cell(*data, n_bins@, a as int, b as int, saturate(grid as int, 2, 32), row),
        ),
{
    if a >= data.n_features || b >= data.n_features || a == b || data.n_rows == 0 {
        return None;
    }
    if (a < data.is_categorical.len() && data.is_categorical[a]) || (b < data.is_categorical.len()
        && data.is_categorical[b]) {
        return None;
    }
    if n_bins[a] <= 1 || n_bins[b] <= 1 {
        return None;
    }
    let n: usize = if grid < 2 {
        2
    } else if grid > 32 {
        32
    } else {
        grid
    };
    let mut cells: Vec<Option<usize>> = Vec::new();
    let mut row: usize = 0;
    while row < data.n_rows
        invariant
            row <= data.n_rows,
            data.filled(),
            n_bins@.len() == data.n_features,
            a < data.n_features,
            b < data.n_features,
            2 <= n <= 32,
            n == saturate(grid as int, 2, 32),
            cells@.len() == row,
            forall|k: int|
                0 <= k < row ==> #[trigger] cells@[k] == grid_cell(*data, n_bins@, a as int, b as int, n as int, k),
        decreases data.n_rows - row,
    {
        let x: u16 = data.get_bin(row, a);
        let y: u16 = data.get_bin(row, b);
        if x == data.missing_bin || y == data.missing_bin || (x as usize) >= n_bins[a] || (y as usize) >= n_bins[b] {
            cells.push(None);
        } else {
            let ca: usize = coarse_of(x as usize, n_bins[a], n);
            let cb: usize = coarse_of(y as usize, n_bins[b], n);
            assert(ca * n <= 31 * 32) by (nonlinear_arith)
                requires
                    0 <= ca <= 31,
                    0 <= n <= 32,
            ;
            assert(ca * n >= 0) by (nonlinear_arith)
                requires
                    0 <= ca,
                    0 <= n,
            ;
            cells.push(Some(ca * n + cb));
        }
        row = row + 1;
    }
    assert(cells@ =~= Seq::new(
        data.n_rows as nat,
        |row: int| grid_cell(*data, n_bins@, a as int, b as int, saturate(grid as int, 2, 32), row),
    ));
    Some(cells)
}

/// Whether the trees of a round are corrected as a block: at least two trees,
/// one base score per row and, with out-of-bag sums, one mask per tree and one
/// sum per row.
pub fn sibling_block_applies(
    n_trees: usize,
    n_rows: usize,
    n_base: usize,
    n_masks: Option<usize>,
    n_sums: usize,
    n_sums_sq: usize,
) -> (r: bool)
    ensures
        r == (n_trees >= 2 && n_base == n_rows && (n_masks matches Some(k) ==> k == n_trees && n_sums == n_rows
            && n_sums_sq == n_rows)),
{
    if n_trees < 2 || n_base != n_rows {
        return false;
    }
    match n_masks {
        Some(k) => k == n_trees && n_sums == n_rows && n_sums_sq == n_rows,
        None => true,
    }
}

/// Whether the sums under a correction carry one: the mean of their diagonal is
/// a number above 1e-18.
pub fn correction_solvable(diagonal: &Num) -> (r: bool)
    ensures
        r == (diagonal.finite() && (Num { bits: E_MINUS_18 }).below(*diagonal)),
{
    let least: Num = Num { bits: E_MINUS_18 };
    diagonal.is_finite() && least.lt(diagonal)
}

/// The solution, each coefficient held to the range from 0 to 2.5.
pub open spec fn aimed_at(solution: Seq<Num>) -> Seq<Num> {
    Seq::new(solution.len(), |i: int| solution[i].clamped(Num { bits: 0 }, Num { bits: TWO_POINT_5 }))
}

/// The coefficients that a correction aims at: those of the solution, each held
/// to the range from 0 to 2.5.
pub fn correction_targets(solution: &Vec<Num>) -> (targets: Vec<Num>)
    ensures
        targets@ == aimed_at(solution@),
{
    let low: Num = Num { bits: 0 };
    let high: Num = Num { bits: TWO_POINT_5 };
    let mut targets: Vec<Num> = Vec::new();
    let mut i: usize = 0;
    while i < solution.len()
        invariant
            i <= solution@.len(),
            low.bits == 0,
            high.bits == TWO_POINT_5,
            targets@.len() == i,
            forall|k: int| 0 <= k < i ==> #[trigger] targets@[k] == solution@[k].clamped(low, high),
        decreases solution@.len() - i,
    {
        targets.push(solution[i].clamp(&low, &high));
        i = i + 1;
    }
    assert(targets@ =~= Seq::new(
        solution@.len(),
        |i: int| solution@[i].clamped(Num { bits: 0 }, Num { bits: TWO_POINT_5 }),
    ));
    targets
}

/// How strongly a correction is applied: what is set, held to the range from 0
/// to 1.
pub fn correction_strength(set: &Num) -> (r: Num)
    ensures
        r == set.clamped(Num { bits: 0 }, Num { bits: ONE }),
{
    let low: Num = Num { bits: 0 };
    let high: Num = Num { bits: ONE };
    set.clamp(&low, &high)
}

/// Whether a correction changes anything: a coefficient that differs from one
/// by more than a ten-thousandth. `distances` holds how far each is from one.
pub fn correction_changes(distances: &Vec<Num>) -> (r: bool)
    ensures
        r == exists|i: int|
            0 <= i < distances@.len() && (Num { bits: E_MINUS_4 }).below(#[trigger] distances@[i]),
{
    let least: Num = Num { bits: E_MINUS_4 };
    let mut i: usize = 0;
    while i < distances.len()
        invariant
            i <= distances@.len(),
            least.bits == E_MINUS_4,
            forall|k: int| 0 <= k < i ==> !least.below(#[trigger] distances@[k]),
        decreases distances@.len() - i,
    {
        if least.lt(&distances[i]) {
            assert((Num { bits: E_MINUS_4 }).below(distances@[i as int]));
            return true;
        }
        i = i + 1;
    }
    false
}

/// Which of `n` rows are not in a bit set.
pub open spec fn absent_flags(mask: Seq<u64>, n: nat) -> Seq<bool> {
    Seq::new(n, |row: int| !has_bit(mask, row))
}

/// The rows that are not in a bit set, in order.
pub fn rows_absent(mask: &Vec<u64>, n_rows: usize) -> (rows: Vec<usize>)
    ensures
        rows@ == kept_indices(absent_flags(mask@, n_rows as nat)),
{
    let mut flags: Vec<bool> = Vec::new();
    let mut row: usize = 0;
    while row < n_rows
        invariant
            row <= n_rows,
            flags@.len() == row,
            forall|k: int| 0 <= k < row ==> #[trigger] flags@[k] == !has_bit(mask@, k),
        decreases n_rows - row,
    {
        flags.push(!bitvec_test(mask, row));
        row = row + 1;
    }
    assert(flags@ =~= absent_flags(mask@, n_rows as nat));
    collect_kept(&flags)
}

/// A row is in one of two stability folds.
pub proof fn law_stability_folds_are_two(row: usize, feature: usize)
    ensures
        stability_fold(row, feature) == 0 || stability_fold(row, feature) == 1,
{
    let h: u64 = (row as u64).wrapping_mul(0xD6E8_FD9D_50D5_1735) ^ (feature as u64).wrapping_mul(0x9E37_79B9_7F4A_7C15);
    let w: usize = (h ^ (h >> 33)) as usize;
    assert(w & 1 == 0 || w & 1 == 1) by (bit_vector);
}

/// The width of a feature's pressure is one more than its highest bin: every bin that is
/// neither missing nor too high lies below it, and the last of them is taken.
pub proof fn law_pressure_spans_the_bins(data: BinnedData, feature: int, n: nat, row: int)
    requires
        0 <= row < n,
    ensures
        ({
            let b = data.bin_indices@[feature * data.n_rows + row];
            &&& pressure_bin(data, feature, row) == (if b != data.missing_bin && b <= 4096 {
                Some(b)
            } else {
                None
            })
            &&& b != data.missing_bin && b <= 4096 ==> b < pressure_width(data, feature, n)
            &&& pressure_width(data, feature, n) <= 4097
            &&& pressure_width(data, feature, n) > 0 ==> exists|r: int|
                0 <= r < n && #[trigger] data.bin_indices@[feature * data.n_rows + r] + 1 == pressure_width(
                    data,
                    feature,
                    n,
                )
        }),
    decreases n,
{
    lemma_pressure_width(data, feature, n);
    lemma_pressure_width(data, feature, (n - 1) as nat);
    if row < n - 1 {
        law_pressure_spans_the_bins(data, feature, (n - 1) as nat, row);
    }
}

proof fn lemma_pressure_width(data: BinnedData, feature: int, n: nat)
    ensures
        0 <= pressure_width(data, feature, n) <= 4097,
        pressure_width(data, feature, n) > 0 ==> exists|r: int|
            0 <= r < n && #[trigger] data.bin_indices@[feature * data.n_rows + r] + 1 == pressure_width(
                data,
                feature,
                n,
            ),
    decreases n,
{
    if n > 0 {
        lemma_pressure_width(data, feature, (n - 1) as nat);
        if pressure_width(data, feature, n) != pressure_width(data, feature, (n - 1) as nat) {
            assert(data.bin_indices@[feature * data.n_rows + (n - 1)] + 1 == pressure_width(data, feature, n));
        }
    }
}

/// A feature has pressure only with mass, two bins or more and a finite score above zero;
/// the score is weighed exactly where pessimism is set and there are sixty-four rows.
pub proof fn law_pressure_is_judged(total_h: Num, width: int, score: Num, pessimism: Num, n_rows: int)
    requires
        total_h.finite(),
        pessimism.finite(),
    ensures
        ({
            let there = total_h.scaled() > (Num { bits: 0x3d71_9799_812d_ea11 }).scaled() && width >= 2 && 0
                < score.bits < 0x7ff0_0000_0000_0000;
            let verdict = pressure_verdict(total_h, width, score, pessimism, n_rows);
            &&& verdict == PressureVerdict::Zero <==> !there
            &&& verdict == PressureVerdict::Weigh <==> there && pessimism.scaled() > 0 && n_rows >= 64
        }),
        0 < score.bits < 0x7ff0_0000_0000_0000 ==> fold_pressure(score) == score,
        !(0 < score.bits < 0x7ff0_0000_0000_0000) ==> fold_pressure(score).bits == 0,
{
    let zero = Num { bits: 0 };
    assert(crate::num::scaled_magnitude(0) == 0);
    assert(zero.scaled() == 0);
    crate::num::law_key_orders_values(total_h, Num { bits: E_MINUS_12 });
    crate::num::law_key_orders_values(pessimism, zero);
}

/// Subtrees are never more than are asked for, and one at least; a single feature gets all
/// of them, and features that act as one get one.
pub proof fn law_subtrees_follow_pressure(requested: int, n_features: int, eff_dim: Num, supported: Num)
    requires
        eff_dim.finite(),
        1 <= requested,
    ensures
        1 <= supported_subtrees(requested, n_features, eff_dim, supported) <= requested,
        n_features <= 1 ==> supported_subtrees(requested, n_features, eff_dim, supported) == requested,
        n_features > 1 && eff_dim.scaled() <= (Num { bits: 0x3ff0_0000_0000_0000 }).scaled() ==> supported_subtrees(
            requested,
            n_features,
            eff_dim,
            supported,
        ) == 1,
        n_features > 1 && eff_dim.scaled() > (Num { bits: 0x3ff0_0000_0000_0000 }).scaled() && 1 <= supported.counted()
            <= requested ==> supported_subtrees(requested, n_features, eff_dim, supported) == supported.counted(),
{
    crate::num::law_key_orders_values(eff_dim, Num { bits: ONE });
}

/// Main effects are looked for among the features with a finite pressure above zero but
/// the one left out, and come due once in every interval.
pub proof fn law_main_effects_are_due(pressures: Seq<Num>, excluded: Option<usize>, f: usize, interval: int, k: int)
    requires
        pressures.len() <= usize::MAX,
        0 <= k,
    ensures
        kept_indices(effect_flags(pressures, excluded)).contains(f) <==> f < pressures.len() && excluded != Some(f) && 0
            < pressures[f as int].bits < 0x7ff0_0000_0000_0000,
        interval <= 0 ==> !effect_due(interval, k),
        interval > 0 ==> effect_due(interval, (k + 1) * interval - 1),
        interval > 0 && effect_due(interval, k) ==> !exists|j: int|
            k < j < k + interval && #[trigger] effect_due(interval, j),
{
    crate::select::law_kept_are_those_marked(effect_flags(pressures, excluded), f);
    if interval > 0 {
        assert((k + 1) * interval == 0 + interval * (k + 1)) by (nonlinear_arith);
        vstd::arithmetic::div_mod::lemma_mod_multiples_basic(k + 1, interval);
        if effect_due(interval, k) {
            assert forall|j: int| k < j < k + interval implies !#[trigger] effect_due(interval, j) by {
                vstd::arithmetic::div_mod::lemma_fundamental_div_mod(k + 1, interval);
                let q = (k + 1) / interval;
                assert(j + 1 == q * interval + (j - k)) by (nonlinear_arith)
                    requires
                        k + 1 == interval * q + 0,
                ;
                vstd::arithmetic::div_mod::lemma_fundamental_div_mod_converse(j + 1, interval, q, j - k);
            }
        }
    }
}

/// The best feature stands out exactly where it lies above the floor, there is pressure in
/// all, and it either leads by a little with share enough or leads by much.
pub proof fn law_effects_stand_out(e: EffectEvidence)
    requires
        e.total.finite(),
        e.best.finite(),
        e.floor.finite(),
        e.share.finite(),
        e.min_share.finite(),
        e.ratio.finite(),
    ensures
        e.stands_out() <==> {
            &&& e.total.scaled() > (Num { bits: 0x3d71_9799_812d_ea11 }).scaled()
            &&& e.best.scaled() > e.floor.scaled()
            &&& e.ratio.scaled() >= (Num { bits: 0x3ffc_0000_0000_0000 }).scaled() || (e.ratio.scaled() >= (Num {
                bits: 0x3ff0_7ae1_47ae_147b,
            }).scaled() && e.share.scaled() >= e.min_share.scaled())
        },
{
    crate::num::law_key_orders_values(e.total, Num { bits: E_MINUS_12 });
    crate::num::law_key_orders_values(e.floor, e.best);
    crate::num::law_key_orders_values(e.min_share, e.share);
    crate::num::law_key_orders_values(Num { bits: ONE_POINT_03 }, e.ratio);
    crate::num::law_key_orders_values(Num { bits: ONE_POINT_75 }, e.ratio);
}

/// A round has as many subtrees as are set, or with cyclic features one for each feature
/// up to the most that are set, and those for revisits on top where the order adapts and
/// features may be used again: as many as are set, or as a round has, sixteen at most.
pub proof fn law_cyclic_rounds_visit_features(s: CyclicSettings, n_feat: int)
    requires
        1 <= n_feat,
    ensures
        !s.cyclic_features && s.n_trees_per_round >= 1 ==> s.subtrees(n_feat) == s.n_trees_per_round,
        !s.cyclic_feature_reuse ==> s.revisits() == 0,
        s.cyclic_feature_reuse && 1 <= s.cyclic_revisit_trees <= 16 ==> s.revisits() == s.cyclic_revisit_trees,
        s.cyclic_feature_reuse && s.cyclic_revisit_trees == 0 && 1 <= s.n_trees_per_round <= 16 ==> s.revisits()
            == s.n_trees_per_round,
        0 <= s.revisits() <= 16,
        s.cyclic_features && !(s.adaptive_cyclic_order && s.cyclic_feature_reuse) && (s.cyclic_max_features_per_round
            == 0 || s.cyclic_max_features_per_round >= n_feat) ==> s.subtrees(n_feat) == n_feat,
        s.cyclic_features && !(s.adaptive_cyclic_order && s.cyclic_feature_reuse) && 1 <= s.cyclic_max_features_per_round
            <= n_feat ==> s.subtrees(n_feat) == s.cyclic_max_features_per_round,
        s.cyclic_features && s.adaptive_cyclic_order && s.cyclic_feature_reuse && s.cyclic_max_features_per_round == 0
            ==> s.subtrees(n_feat) == n_feat + s.revisits(),
{
}

/// The first best is the only one: two answers for the same scores agree, and a score that
/// is allowed, is a number and lies above the start is never passed over for nothing.
pub proof fn law_first_best_is_unique(
    scores: Seq<Num>,
    allowed: Seq<bool>,
    start: Num,
    a: Option<usize>,
    b: Option<usize>,
    q: int,
)
    requires
        is_first_best(scores, allowed, start, a),
        is_first_best(scores, allowed, start, b),
        allowed.len() == scores.len(),
    ensures
        a == b,
        0 <= q < scores.len() && allowed[q] && start.below(scores[q]) ==> a is Some && scores[q].at_most(
            scores[a->0 as int],
        ),
        a matches Some(p) ==> allowed[p as int] && start.below(scores[p as int]),
{
    if a is Some && b is Some {
        assert(scores[a->0 as int].key() <= scores[b->0 as int].key());
        assert(scores[b->0 as int].key() <= scores[a->0 as int].key());
    } else if a is Some {
        assert(!start.below(scores[a->0 as int]));
    } else if b is Some {
        assert(!start.below(scores[b->0 as int]));
    }
    if 0 <= q < scores.len() && allowed[q] && start.below(scores[q]) {
        assert(!scores[q].nan());
        if a is None {
            assert(!start.below(scores[q]));
        }
    }
}

/// Use is counted once for every feature that the mask admits, and for no other.
pub proof fn law_use_is_counted(usage: Seq<usize>, mask: Seq<bool>, f: int)
    requires
        0 <= f < usage.len(),
        usage[f] < usize::MAX,
    ensures
        usage_counted(usage, mask).len() == usage.len(),
        usage_counted(usage, mask)[f] == usage[f] + (if f < mask.len() && mask[f] {
            1int
        } else {
            0
        }),
{
}

/// Coarse bins keep the order of the fine ones and fill the grid from its first to its
/// last; the cell of a row tells both its coarse bins.
pub proof fn law_coarse_bins_rise(a: int, b: int, bins: int, n: int)
    requires
        0 <= a <= b < bins,
        0 < n,
    ensures
        0 <= coarse(a, bins, n) <= coarse(b, bins, n) < n,
        coarse(0, bins, n) == 0,
        coarse(a, bins, n) * bins <= a * n < (coarse(a, bins, n) + 1) * bins,
{
    assert(a * n <= b * n && a * n >= 0 && 0 * n == 0 && b * n < bins * n) by (nonlinear_arith)
        requires
            0 <= a <= b < bins,
            0 < n,
    ;
    vstd::arithmetic::div_mod::lemma_div_is_ordered(a * n, b * n, bins);
    vstd::arithmetic::div_mod::lemma_div_basics(bins);
    vstd::arithmetic::div_mod::lemma_fundamental_div_mod(a * n, bins);
    vstd::arithmetic::div_mod::lemma_fundamental_div_mod(b * n, bins);
    vstd::arithmetic::div_mod::lemma_mod_bound(a * n, bins);
    vstd::arithmetic::div_mod::lemma_mod_bound(b * n, bins);
    let q = (a * n) / bins;
    let p = (b * n) / bins;
    assert(0 <= q < n && 0 <= p < n) by (nonlinear_arith)
        requires
            bins > 0,
            a * n == bins * q + (a * n) % bins,
            b * n == bins * p + (b * n) % bins,
            0 <= (a * n) % bins < bins,
            0 <= (b * n) % bins < bins,
            0 <= a * n <= b * n < bins * n,
    ;
    assert(q * bins <= a * n < (q + 1) * bins) by (nonlinear_arith)
        requires
            a * n == bins * q + (a * n) % bins,
            0 <= (a * n) % bins < bins,
    ;
}

/// A row has a cell exactly where both features are there and within their bins, and the
/// cell tells the coarse bin of each.
pub proof fn law_cells_tell_both_bins(data: BinnedData, n_bins: Seq<usize>, a: int, b: int, n: int, row: int)
    requires
        2 <= n <= 32,
    ensures
        ({
            let x = data.bin_indices@[a * data.n_rows + row];
            let y = data.bin_indices@[b * data.n_rows + row];
            let cell = grid_cell(data, n_bins, a, b, n, row);
            &&& cell is Some <==> x != data.missing_bin && y != data.missing_bin && x < n_bins[a] && y < n_bins[b]
            &&& cell matches Some(c) ==> c < n * n && c as int / n == coarse(x as int, n_bins[a] as int, n) && c as int % n
                == coarse(y as int, n_bins[b] as int, n)
        }),
        pair_pressed(data, n_bins, a, b) <==> pair_pressed(data, n_bins, b, a),
        pair_pressed(data, n_bins, a, b) ==> a != b && n_bins[a] >= 2 && n_bins[b] >= 2,
{
    let x = data.bin_indices@[a * data.n_rows + row];
    let y = data.bin_indices@[b * data.n_rows + row];
    if x < n_bins[a] && y < n_bins[b] {
        law_coarse_bins_rise(x as int, x as int, n_bins[a] as int, n);
        law_coarse_bins_rise(y as int, y as int, n_bins[b] as int, n);
        let p = coarse(x as int, n_bins[a] as int, n);
        let q = coarse(y as int, n_bins[b] as int, n);
        assert(0 <= p * n + q < n * n && n * n <= 1024) by (nonlinear_arith)
            requires
                0 <= p < n,
                0 <= q < n,
                n <= 32,
        ;
        vstd::arithmetic::div_mod::lemma_fundamental_div_mod_converse(p * n + q, n, p, q);
    }
}

/// A correction aims at what was solved, within the range from zero to two and a half.
pub proof fn law_corrections_stay_in_range(solution: Seq<Num>, i: int)
    requires
        0 <= i < solution.len(),
        solution[i].finite(),
    ensures
        ({
            let high = Num { bits: 0x4004_0000_0000_0000 };
            let t = aimed_at(solution)[i];
            &&& aimed_at(solution).len() == solution.len()
            &&& 0 <= solution[i].scaled() <= high.scaled() ==> t == solution[i]
            &&& solution[i].scaled() < 0 ==> t.bits == 0
            &&& high.scaled() < solution[i].scaled() ==> t == high
        }),
{
    let zero = Num { bits: 0 };
    assert(crate::num::scaled_magnitude(0) == 0);
    assert(zero.scaled() == 0);
    crate::num::law_key_orders_values(solution[i], zero);
    crate::num::law_key_orders_values(Num { bits: TWO_POINT_5 }, solution[i]);
}

/// The rows absent from a mask are those without a mark.
pub proof fn law_absent_rows_have_no_mark(mask: Seq<u64>, n: nat, row: usize)
    requires
        n <= usize::MAX,
    ensures
        kept_indices(absent_flags(mask, n)).contains(row) <==> row < n && !has_bit(mask, row as int),
{
    crate::select::law_kept_are_those_marked(absent_flags(mask, n), row);
}

/// An anchor is sought among the features with a finite pressure above zero.
pub proof fn law_anchors_are_pressing(pressures: Seq<Num>, f: int)
    requires
        0 <= f < pressures.len(),
    ensures
        pressing(pressures)[f] <==> 0 < pressures[f].bits < 0x7ff0_0000_0000_0000,
        best_or_first(Some(f as usize)) == f as usize,
        best_or_first(None) == 0,
{
}

} // verus!
