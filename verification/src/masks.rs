//! Feature masks: which features a tree may split on.

use crate::bits::ONE;
use crate::goss::{keys_of, order_keys};
use crate::num::{saturate, Num};
use crate::order::{is_ranking, rank_descending};
use crate::random::{draw_between, shuffle};
use crate::select::{at_most, collect_kept, is_positive, kept_indices, lemma_kept_indices, positive};
use rand::rngs::StdRng;
use vstd::prelude::*;
use vstd::seq_lib::{to_multiset_contains, to_multiset_len};

verus! {

/// The number of features that a mask admits.
pub open spec fn admitted(mask: Seq<bool>) -> nat {
    kept_indices(mask).len()
}

/// The mask admits exactly the picked features.
pub open spec fn admits_exactly(mask: Seq<bool>, picked: Seq<usize>) -> bool {
    forall|i: int| 0 <= i < mask.len() ==> (#[trigger] mask[i] <==> picked.contains(i as usize))
}

/// A mask of different features admits as many as were picked.
pub proof fn lemma_admitted(mask: Seq<bool>, picked: Seq<usize>)
    requires
        mask.len() <= usize::MAX,
        admits_exactly(mask, picked),
        picked.no_duplicates(),
        forall|i: int| 0 <= i < picked.len() ==> #[trigger] picked[i] < mask.len(),
    ensures
        admitted(mask) == picked.len(),
{
    let kept = kept_indices(mask);
    lemma_kept_indices(mask);
    assert(kept.no_duplicates());
    kept.unique_seq_to_set();
    picked.unique_seq_to_set();
    assert(kept.to_set() =~= picked.to_set()) by {
        assert forall|x: usize| kept.to_set().contains(x) <==> picked.to_set().contains(x) by {
            if kept.contains(x) {
                let p = choose|p: int| 0 <= p < kept.len() && kept[p] == x;
                assert(mask[kept[p] as int]);
                assert(picked.contains(x));
            }
            if picked.contains(x) {
                let p = choose|p: int| 0 <= p < picked.len() && picked[p] == x;
                assert(mask[x as int]);
                assert(kept.contains(x));
            }
        }
    }
}

/// A mask over `n` features that admits the first `k` of `order`.
pub fn mask_of(n: usize, order: &Vec<usize>, k: usize) -> (mask: Vec<bool>)
    requires
        k <= order@.len(),
        forall|i: int| 0 <= i < order@.len() ==> #[trigger] order@[i] < n,
    ensures
        mask@.len() == n,
        admits_exactly(mask@, order@.take(k as int)),
{
    let mut mask: Vec<bool> = Vec::new();
    let mut i: usize = 0;
    while i < n
        invariant
            i <= n,
            mask@.len() == i,
            forall|j: int| 0 <= j < i ==> #[trigger] mask@[j] == false,
        decreases n - i,
    {
        mask.push(false);
        i = i + 1;
    }
    let mut p: usize = 0;
    while p < k
        invariant
            p <= k <= order@.len(),
            mask@.len() == n,
            forall|i: int| 0 <= i < order@.len() ==> #[trigger] order@[i] < n,
            admits_exactly(mask@, order@.take(p as int)),
        decreases k - p,
    {
        let f: usize = order[p];
        let before = Ghost(mask@);
        mask.set(f, true);
        proof {
            let a = order@.take(p as int);
            let b = order@.take(p + 1);
            assert(b =~= a.push(f));
            assert forall|i: int| 0 <= i < mask@.len() implies (#[trigger] mask@[i] <==> b.contains(i as usize)) by {
                assert(before@[i] <==> a.contains(i as usize));
                assert(b[p as int] == f);
                if a.contains(i as usize) {
                    let q = choose|q: int| 0 <= q < a.len() && a[q] == i as usize;
                    assert(b[q] == a[q]);
                }
                if b.contains(i as usize) && i != f {
                    let q = choose|q: int| 0 <= q < b.len() && b[q] == i as usize;
                    assert(a[q] == b[q]);
                }
            }
        }
        p = p + 1;
    }
    mask
}

/// The features from 0 up to `n` in a random order.
fn shuffled_features(rng: &mut StdRng, list: &Vec<usize>) -> (order: Vec<usize>)
    requires
        list@.no_duplicates(),
    ensures
        order@.len() == list@.len(),
        order@.no_duplicates(),
        forall|x: usize| #[trigger] order@.contains(x) <==> list@.contains(x),
{
    let mut order: Vec<usize> = list.clone();
    assert(order@ =~= list@);
    shuffle(rng, &mut order);
    proof {
        to_multiset_len(order@);
        to_multiset_len(list@);
        list@.lemma_multiset_has_no_duplicates();
        order@.lemma_multiset_has_no_duplicates_conv();
        assert forall|x: usize| #[trigger] order@.contains(x) <==> list@.contains(x) by {
            to_multiset_contains(order@, x);
            to_multiset_contains(list@, x);
        }
    }
    order
}

/// The settings of feature sampling: `product` is the rate times the number of features.
pub struct FeatureSampling {
    pub rate: Num,
    pub product: Num,
    pub diversity: Num,
    pub usage_len: usize,
}

impl FeatureSampling {
    pub open spec fn full_rate(&self) -> bool {
        (Num { bits: ONE }).at_most(self.rate)
    }

    /// How many of `n` features are admitted.
    pub open spec fn wanted(&self, n: int) -> int {
        if self.full_rate() {
            n
        } else {
            at_most(
                if self.product.counted() > 1 {
                    self.product.counted()
                } else {
                    1
                },
                n,
            )
        }
    }

    /// Whether every feature is admitted without a draw.
    pub open spec fn unmasked(&self) -> bool {
        self.full_rate() && self.diversity.at_most(Num { bits: 0 })
    }

    /// Whether features are picked by a score that holds down those used recently.
    pub open spec fn diverse(&self, n: int) -> bool {
        !self.unmasked() && positive(self.diversity) && self.usage_len == n
    }

    /// Whether a mask over `n` features needs a score for each of them.
    pub fn needs_scores(&self, n: usize) -> (r: bool)
        ensures
            r == self.diverse(n as int),
    {
        let one: Num = Num { bits: ONE };
        let zero: Num = Num { bits: 0 };
        !(one.le(&self.rate) && self.diversity.le(&zero)) && is_positive(&self.diversity) && self.usage_len == n
    }

    /// A mask over `n` features. With scores, those of the highest score are
    /// admitted; otherwise as many as wanted, at random.
    pub fn make_feature_mask(&self, rng: &mut StdRng, n: usize, scores: &Vec<Num>) -> (mask: Vec<bool>)
        requires
            self.diverse(n as int) ==> scores@.len() == n && forall|i: int|
                0 <= i < n ==> !(#[trigger] scores@[i]).nan(),
        ensures
            mask@.len() == n,
            admitted(mask@) == self.wanted(n as int),
            self.unmasked() ==> forall|i: int| 0 <= i < n ==> #[trigger] mask@[i],
            self.diverse(n as int) ==> exists|order: Seq<usize>| #[trigger]
                is_ranking(order_keys(scores@), order) && admits_exactly(mask@, order.take(self.wanted(n as int))),
    {
        let one: Num = Num { bits: ONE };
        let zero: Num = Num { bits: 0 };
        let all: Vec<usize> = crate::groups::all_rows(n);
        assert(all@.no_duplicates());
        if one.le(&self.rate) && self.diversity.le(&zero) {
            let mask: Vec<bool> = mask_of(n, &all, n);
            assert(all@.take(n as int) =~= all@);
            proof {
                lemma_admitted(mask@, all@);
                assert forall|i: int| 0 <= i < n implies #[trigger] mask@[i] by {
                    assert(all@[i] == i as usize);
                }
            }
            return mask;
        }
        let select: usize = if one.le(&self.rate) {
            n
        } else {
            let raw: usize = self.product.to_usize();
            let least: usize = if raw > 1 { raw } else { 1 };
            if least < n {
                least
            } else {
                n
            }
        };
        if self.needs_scores(n) {
            let keys: Vec<i64> = keys_of(scores);
            let order: Vec<usize> = rank_descending(&keys);
            let mask: Vec<bool> = mask_of(n, &order, select);
            proof {
                assert(is_ranking(order_keys(scores@), order@));
                lemma_admitted(mask@, order@.take(select as int));
            }
            return mask;
        }
        let order: Vec<usize> = shuffled_features(rng, &all);
        proof {
            assert forall|i: int| 0 <= i < order@.len() implies #[trigger] order@[i] < n by {
                assert(order@.contains(order@[i]));
                assert(all@.contains(order@[i]));
                let p = choose|p: int| 0 <= p < all@.len() && all@[p] == order@[i];
                assert(all@[p] == p);
            }
        }
        let mask: Vec<bool> = mask_of(n, &order, select);
        proof {
            lemma_admitted(mask@, order@.take(select as int));
        }
        mask
    }
}

/// The highest group id of a list, 0 for an empty one.
pub open spec fn highest_group(groups: Seq<u32>) -> int
    decreases groups.len(),
{
    if groups.len() == 0 {
        0
    } else if groups.last() > highest_group(groups.drop_last()) {
        groups.last() as int
    } else {
        highest_group(groups.drop_last())
    }
}

/// Which features belong to group `id`.
pub open spec fn group_flags(groups: Seq<u32>, id: int) -> Seq<bool> {
    Seq::new(groups.len(), |i: int| groups[i] == id)
}

/// The features of group `id`, in index order.
pub open spec fn group_members(groups: Seq<u32>, id: int) -> Seq<usize> {
    kept_indices(group_flags(groups, id))
}

fn members_of(groups: &Vec<u32>, id: usize) -> (list: Vec<usize>)
    ensures
        list@ == group_members(groups@, id as int),
{
    let mut flags: Vec<bool> = Vec::new();
    let mut i: usize = 0;
    while i < groups.len()
        invariant
            i <= groups@.len(),
            flags@.len() == i,
            forall|k: int| 0 <= k < i ==> #[trigger] flags@[k] == (groups@[k] == id),
        decreases groups@.len() - i,
    {
        flags.push(groups[i] as u64 == id as u64);
        i = i + 1;
    }
    assert(flags@ =~= group_flags(groups@, id as int));
    collect_kept(&flags)
}

/// The auxiliary group of a subtree: the groups above 0 take turns.
pub open spec fn aux_group(round: int, trees_per_round: int, sub: int, highest: int) -> int {
    1 + (round * trees_per_round + sub) % highest
}

/// The features that a subtree may see: the raw ones, and one auxiliary group.
pub struct ViewPlan {
    pub raw: Vec<usize>,
    pub aux: Vec<usize>,
    pub aux_id: usize,
}

impl ViewPlan {
    pub open spec fn planned(&self, groups: Seq<u32>, aux: int) -> bool {
        &&& self.aux_id == aux
        &&& aux > 0
        &&& self.raw@ == group_members(groups, 0)
        &&& self.aux@ == group_members(groups, aux)
        &&& self.raw@.len() > 0
        &&& self.aux@.len() > 0
    }

    /// The number of features in view.
    pub open spec fn size(&self) -> int {
        (self.raw@.len() + self.aux@.len()) as int
    }
}

/// The view of a subtree, or nothing where views do not apply: no group per
/// feature, no auxiliary group, or an empty one.
pub fn plan_views(
    groups: &Vec<u32>,
    n_features: usize,
    round: usize,
    trees_per_round: usize,
    sub_idx: usize,
) -> (plan: Option<ViewPlan>)
    requires
        round * (if trees_per_round > 1 { trees_per_round } else { 1 }) + sub_idx <= usize::MAX,
    ensures
        ({
            let ntp = if trees_per_round > 1 {
                trees_per_round as int
            } else {
                1
            };
            let highest = highest_group(groups@);
            let aux = aux_group(round as int, ntp, sub_idx as int, highest);
            &&& plan is Some <==> groups@.len() == n_features && highest > 0 && group_members(groups@, 0).len() > 0
                && group_members(groups@, aux).len() > 0
            &&& plan matches Some(p) ==> p.planned(groups@, aux)
        }),
{
    if groups.len() != n_features {
        return None;
    }
    let mut highest: u32 = 0;
    let mut i: usize = 0;
    assert(groups@.take(0) =~= Seq::empty());
    while i < groups.len()
        invariant
            i <= groups@.len(),
            highest == highest_group(groups@.take(i as int)),
        decreases groups@.len() - i,
    {
        assert(groups@.take(i + 1).drop_last() =~= groups@.take(i as int));
        if groups[i] > highest {
            highest = groups[i];
        }
        i = i + 1;
    }
    assert(groups@.take(groups@.len() as int) =~= groups@);
    if highest == 0 {
        return None;
    }
    let ntp: usize = if trees_per_round > 1 { trees_per_round } else { 1 };
    proof {
        assert(round * ntp >= 0) by (nonlinear_arith);
    }
    let aux_id: usize = 1 + (round * ntp + sub_idx) % (highest as usize);
    let raw: Vec<usize> = members_of(groups, 0);
    let aux: Vec<usize> = members_of(groups, aux_id);
    if raw.len() == 0 || aux.len() == 0 {
        return None;
    }
    Some(ViewPlan { raw, aux, aux_id })
}

/// Whether one of the first `k` features of `order` belongs to group `id`.
pub open spec fn picks_group(groups: Seq<u32>, order: Seq<usize>, k: int, id: int) -> bool {
    exists|p: int| 0 <= p < k && groups[(#[trigger] order[p]) as int] == id
}

fn has_group(groups: &Vec<u32>, order: &Vec<usize>, k: usize, id: usize) -> (r: bool)
    requires
        k <= order@.len(),
        forall|i: int| 0 <= i < order@.len() ==> #[trigger] order@[i] < groups@.len(),
    ensures
        r == picks_group(groups@, order@, k as int, id as int),
{
    let mut p: usize = 0;
    while p < k
        invariant
            p <= k <= order@.len(),
            forall|i: int| 0 <= i < order@.len() ==> #[trigger] order@[i] < groups@.len(),
            forall|q: int| 0 <= q < p ==> groups@[(#[trigger] order@[q]) as int] != id,
        decreases k - p,
    {
        if groups[order[p]] as u64 == id as u64 {
            assert(groups@[order@[p as int] as int] == id);
            return true;
        }
        p = p + 1;
    }
    false
}

/// The features that a view mask admits: the first `select` of the shuffled
/// candidates and, where none of them is raw, the raw feature given, likewise
/// for the auxiliary group.
pub open spec fn view_picks(
    groups: Seq<u32>,
    plan: ViewPlan,
    order: Seq<usize>,
    select: int,
    raw_pick: usize,
    aux_pick: usize,
) -> Seq<usize> {
    let head = order.take(select);
    if !picks_group(groups, order, select, 0) {
        head.push(raw_pick)
    } else if !picks_group(groups, order, select, plan.aux_id as int) {
        head.push(aux_pick)
    } else {
        head
    }
}

/// `order` lists the features in view, each once.
pub open spec fn orders_view(plan: ViewPlan, order: Seq<usize>) -> bool {
    &&& order.no_duplicates()
    &&& forall|x: usize| #[trigger] order.contains(x) <==> plan.raw@.contains(x) || plan.aux@.contains(x)
}

proof fn lemma_members(groups: Seq<u32>, id: int)
    requires
        groups.len() <= usize::MAX,
    ensures
        forall|x: usize| #[trigger] group_members(groups, id).contains(x) <==> x < groups.len() && groups[x as int] == id,
        group_members(groups, id).no_duplicates(),
{
    let flags = group_flags(groups, id);
    lemma_kept_indices(flags);
    let kept = kept_indices(flags);
    assert forall|x: usize| #[trigger] kept.contains(x) <==> x < groups.len() && groups[x as int] == id by {
        if kept.contains(x) {
            let p = choose|p: int| 0 <= p < kept.len() && kept[p] == x;
            assert(flags[kept[p] as int]);
        }
        if x < groups.len() && groups[x as int] == id {
            assert(flags[x as int]);
        }
    }
}

/// The mask admits the first `select` features of an order of both views, and
/// one more feature of a view that is not among them.
pub open spec fn picks_view(
    groups: Seq<u32>,
    plan: ViewPlan,
    order: Seq<usize>,
    select: int,
    raw_pick: usize,
    aux_pick: usize,
    mask: Seq<bool>,
) -> bool {
    &&& orders_view(plan, order)
    &&& plan.raw@.contains(raw_pick)
    &&& plan.aux@.contains(aux_pick)
    &&& admits_exactly(mask, view_picks(groups, plan, order, select, raw_pick, aux_pick))
}

/// A mask over a subtree's view, from a shuffle of the features in view and
/// one raw and one auxiliary feature to fall back on.
pub fn view_mask(
    groups: &Vec<u32>,
    plan: &ViewPlan,
    order: &Vec<usize>,
    select: usize,
    raw_pick: usize,
    aux_pick: usize,
) -> (mask: Vec<bool>)
    requires
        plan.planned(groups@, plan.aux_id as int),
        orders_view(*plan, order@),
        1 <= select <= order@.len(),
        plan.raw@.contains(raw_pick),
        plan.aux@.contains(aux_pick),
    ensures
        mask@.len() == groups@.len(),
        admits_exactly(mask@, view_picks(groups@, *plan, order@, select as int, raw_pick, aux_pick)),
        select <= admitted(mask@) <= select + 1,
        exists|i: int| 0 <= i < mask@.len() && #[trigger] mask@[i] && groups@[i] == 0,
        exists|i: int| 0 <= i < mask@.len() && #[trigger] mask@[i] && groups@[i] == plan.aux_id,
        forall|i: int| 0 <= i < mask@.len() && #[trigger] mask@[i] ==> groups@[i] == 0 || groups@[i] == plan.aux_id,
{
    let n: usize = groups.len();
    proof {
        lemma_members(groups@, 0);
        lemma_members(groups@, plan.aux_id as int);
        assert forall|i: int| 0 <= i < order@.len() implies #[trigger] order@[i] < n && (groups@[order@[i] as int] == 0
            || groups@[order@[i] as int] == plan.aux_id) by {
            assert(order@.contains(order@[i]));
            if plan.raw@.contains(order@[i]) {
                assert(group_members(groups@, 0).contains(order@[i]));
            } else {
                assert(group_members(groups@, plan.aux_id as int).contains(order@[i]));
            }
        }
        assert(group_members(groups@, 0).contains(raw_pick));
        assert(group_members(groups@, plan.aux_id as int).contains(aux_pick));
    }
    let picked_raw: bool = has_group(groups, order, select, 0);
    let picked_aux: bool = has_group(groups, order, select, plan.aux_id);
    let mut picks: Vec<usize> = order.clone();
    assert(picks@ =~= order@);
    picks.truncate(select);
    assert(picks@ =~= order@.take(select as int));
    proof {
        let first = groups@[order@[0] as int];
        assert(picked_raw || picked_aux);
    }
    if !picked_raw {
        picks.push(raw_pick);
    }
    if !picked_aux {
        picks.push(aux_pick);
    }
    let mask: Vec<bool> = mask_of(n, &picks, picks.len());
    proof {
        let want = view_picks(groups@, *plan, order@, select as int, raw_pick, aux_pick);
        assert(picks@ =~= want);
        assert(picks@.take(picks@.len() as int) =~= picks@);
        assert forall|i: int, j: int| 0 <= i < j < picks@.len() implies picks@[i] != picks@[j] by {
            assert(picks@[i] == order@[i]);
            if j < select {
                assert(picks@[j] == order@[j]);
            }
        }
        lemma_admitted(mask@, picks@);
        if picked_raw {
            let p = choose|p: int| 0 <= p < select && groups@[(#[trigger] order@[p]) as int] == 0;
            assert(picks@[p] == order@[p]);
            assert(mask@[order@[p] as int]);
        } else {
            assert(picks@[select as int] == raw_pick);
            assert(mask@[raw_pick as int]);
        }
        if picked_aux {
            let p = choose|p: int| 0 <= p < select && groups@[(#[trigger] order@[p]) as int] == plan.aux_id;
            assert(picks@[p] == order@[p]);
            assert(mask@[order@[p] as int]);
        } else {
            assert(picks@[select as int] == aux_pick);
            assert(mask@[aux_pick as int]);
        }
        assert forall|i: int| 0 <= i < mask@.len() && #[trigger] mask@[i] implies groups@[i] == 0 || groups@[i]
            == plan.aux_id by {
            let p = choose|p: int| 0 <= p < picks@.len() && picks@[p] == i as usize;
            if p < select {
                assert(picks@[p] == order@[p]);
            }
        }
    }
    mask
}

impl FeatureSampling {
    /// A mask for a subtree. Without a view plan it is one over all features;
    /// with one it admits features in view only, all of them at full rate, and
    /// otherwise at least one raw and one auxiliary feature. `view_product` is
    /// the rate times the number of features in view.
    pub fn make_feature_mask_for_subtree(
        &self,
        rng: &mut StdRng,
        n: usize,
        groups: &Vec<u32>,
        plan: &Option<ViewPlan>,
        view_product: &Num,
        scores: &Vec<Num>,
    ) -> (mask: Vec<bool>)
        requires
            plan matches Some(p) ==> groups@.len() == n && p.planned(groups@, p.aux_id as int),
            plan is None && self.diverse(n as int) ==> scores@.len() == n && forall|i: int|
                0 <= i < n ==> !(#[trigger] scores@[i]).nan(),
        ensures
            mask@.len() == n,
            plan is None ==> {
                &&& admitted(mask@) == self.wanted(n as int)
                &&& self.unmasked() ==> forall|i: int| 0 <= i < n ==> #[trigger] mask@[i]
                &&& self.diverse(n as int) ==> exists|order: Seq<usize>| #[trigger]
                    is_ranking(order_keys(scores@), order) && admits_exactly(
                        mask@,
                        order.take(self.wanted(n as int)),
                    )
            },
            plan matches Some(p) ==> {
                &&& forall|i: int|
                    0 <= i < n && #[trigger] mask@[i] ==> groups@[i] == 0 || groups@[i] == p.aux_id
                &&& exists|i: int| 0 <= i < n && #[trigger] mask@[i] && groups@[i] == 0
                &&& exists|i: int| 0 <= i < n && #[trigger] mask@[i] && groups@[i] == p.aux_id
                &&& self.full_rate() ==> admitted(mask@) == p.size()
                &&& !self.full_rate() ==> {
                    let select = saturate(view_product.counted(), 1, p.size());
                    &&& select <= admitted(mask@) <= select + 1
                    &&& exists|order: Seq<usize>, raw_pick: usize, aux_pick: usize| #[trigger]
                        picks_view(groups@, *p, order, select, raw_pick, aux_pick, mask@)
                }
            },
    {
        match plan {
            None => self.make_feature_mask(rng, n, scores),
            Some(p) => {
                let one: Num = Num { bits: ONE };
                let mut candidate: Vec<usize> = p.raw.clone();
                let tail: Vec<usize> = p.aux.clone();
                let mut more: Vec<usize> = tail;
                assert(candidate@ =~= p.raw@);
                assert(more@ =~= p.aux@);
                candidate.append(&mut more);
                assert(candidate@ =~= p.raw@ + p.aux@);
                proof {
                    assert(groups.len() == groups@.len());
                    lemma_members(groups@, 0);
                    lemma_members(groups@, p.aux_id as int);
                    assert forall|i: int, j: int| 0 <= i < j < candidate@.len() implies candidate@[i] != candidate@[j] by {
                        let r = p.raw@.len() as int;
                        if i < r {
                            assert(p.raw@.contains(candidate@[i]));
                        } else {
                            assert(candidate@[i] == p.aux@[i - r]);
                        }
                        if j >= r {
                            assert(candidate@[j] == p.aux@[j - r]);
                            assert(p.aux@.contains(candidate@[j]));
                        }
                    }
                    assert forall|x: usize| #[trigger] candidate@.contains(x) <==> p.raw@.contains(x) || p.aux@.contains(x) by {
                        if candidate@.contains(x) {
                            let q = choose|q: int| 0 <= q < candidate@.len() && candidate@[q] == x;
                            if q < p.raw@.len() {
                                assert(p.raw@[q] == x);
                            } else {
                                assert(p.aux@[q - p.raw@.len()] == x);
                            }
                        }
                        if p.raw@.contains(x) {
                            let q = choose|q: int| 0 <= q < p.raw@.len() && p.raw@[q] == x;
                            assert(candidate@[q] == x);
                        }
                        if p.aux@.contains(x) {
                            let q = choose|q: int| 0 <= q < p.aux@.len() && p.aux@[q] == x;
                            assert(candidate@[p.raw@.len() + q] == x);
                        }
                    }
                    assert forall|i: int| 0 <= i < candidate@.len() implies #[trigger] candidate@[i] < n by {
                        assert(candidate@.contains(candidate@[i]));
                    }
                }
                if one.le(&self.rate) {
                    let mask: Vec<bool> = mask_of(n, &candidate, candidate.len());
                    proof {
                        assert(candidate@.take(candidate@.len() as int) =~= candidate@);
                        lemma_admitted(mask@, candidate@);
                        assert(candidate@[0] == p.raw@[0]);
                        assert(p.raw@.contains(p.raw@[0]));
                        assert(mask@[p.raw@[0] as int]);
                        assert(candidate@[p.raw@.len() as int] == p.aux@[0]);
                        assert(p.aux@.contains(p.aux@[0]));
                        assert(mask@[p.aux@[0] as int]);
                    }
                    return mask;
                }
                let raw: usize = view_product.to_usize();
                let size: usize = candidate.len();
                let select: usize = if raw < 1 {
                    1
                } else if raw > size {
                    size
                } else {
                    raw
                };
                let order: Vec<usize> = shuffled_features(rng, &candidate);
                assert(orders_view(*p, order@));
                proof {
                    assert forall|i: int| 0 <= i < order@.len() implies #[trigger] order@[i] < groups@.len() by {
                        assert(order@.contains(order@[i]));
                    }
                }
                let raw_at: usize = if has_group(groups, &order, select, 0) {
                    0
                } else {
                    draw_between(rng, 0, p.raw.len())
                };
                let aux_at: usize = if has_group(groups, &order, select, p.aux_id) {
                    0
                } else {
                    draw_between(rng, 0, p.aux.len())
                };
                let mask: Vec<bool> = view_mask(groups, p, &order, select, p.raw[raw_at], p.aux[aux_at]);
                assert(select == saturate(view_product.counted(), 1, p.size()));
                assert(picks_view(
                    groups@,
                    *p,
                    order@,
                    saturate(view_product.counted(), 1, p.size()),
                    p.raw@[raw_at as int],
                    p.aux@[aux_at as int],
                    mask@,
                ));
                mask
            },
        }
    }
}

/// A mask admits every feature at the full rate, and below it the whole part of the
/// rate's share of them, one at least.
pub proof fn law_masks_admit_their_share(sampling: FeatureSampling, n: int, k: int)
    requires
        sampling.rate.finite(),
        sampling.product.finite(),
        1 <= n <= usize::MAX,
        0 <= k,
        k * vstd::arithmetic::power2::pow2(1074) <= sampling.product.scaled() < (k + 1)
            * vstd::arithmetic::power2::pow2(1074),
    ensures
        1 <= sampling.wanted(n) <= n,
        sampling.rate.scaled() >= (Num { bits: 0x3ff0_0000_0000_0000 }).scaled() ==> sampling.wanted(n) == n,
        sampling.rate.scaled() < (Num { bits: 0x3ff0_0000_0000_0000 }).scaled() ==> sampling.wanted(n) == if k < 1 {
            1
        } else if k > n {
            n
        } else {
            k
        },
{
    crate::num::law_key_orders_values(Num { bits: ONE }, sampling.rate);
    crate::num::law_truncation_drops_the_fraction(sampling.product);
    vstd::arithmetic::power2::lemma_pow2_pos(1074);
    let u = vstd::arithmetic::power2::pow2(1074) as int;
    let t = sampling.product.truncated();
    let s = sampling.product.scaled();
    if !sampling.product.negative() {
        assert(t == k) by (nonlinear_arith)
            requires
                u > 0,
                t * u <= s < (t + 1) * u,
                k * u <= s < (k + 1) * u,
        ;
    } else {
        assert(s <= 0) by {
            crate::num::law_key_orders_values(sampling.product, Num { bits: 0 });
            assert(crate::num::scaled_magnitude(0) == 0);
        }
        assert(k == 0 && t == 0) by (nonlinear_arith)
            requires
                u > 0,
                0 <= k,
                s <= 0,
                k * u <= s < (k + 1) * u,
                (t - 1) * u < s <= t * u,
        ;
    }
}

/// Past use is weighed exactly where the setting lies above zero and the use of every
/// feature is known; without it a full rate masks nothing.
pub proof fn law_diversity_is_weighed_as_set(sampling: FeatureSampling, n: int)
    requires
        sampling.diversity.finite(),
    ensures
        sampling.diverse(n) <==> sampling.diversity.scaled() > 0 && sampling.usage_len == n,
        sampling.unmasked() ==> !sampling.diverse(n),
        sampling.unmasked() <==> sampling.diversity.scaled() <= 0 && 0x3ff0_0000_0000_0000 <= sampling.rate.bits
            <= 0x7ff0_0000_0000_0000,
{
    let zero = Num { bits: 0 };
    assert(crate::num::scaled_magnitude(0) == 0);
    assert(zero.scaled() == 0);
    crate::num::law_key_orders_values(zero, sampling.diversity);
    crate::num::law_key_orders_values(sampling.diversity, zero);
}

/// The highest group is no lower than any, and one of them.
pub proof fn law_highest_group_is_above_all(groups: Seq<u32>, i: int)
    requires
        0 <= i < groups.len(),
    ensures
        groups[i] <= highest_group(groups),
        exists|k: int| 0 <= k < groups.len() && #[trigger] groups[k] == highest_group(groups),
    decreases groups.len(),
{
    let rest = groups.drop_last();
    if rest.len() > 0 {
        law_highest_group_is_above_all(
            rest,
            if i < rest.len() {
                i
            } else {
                0
            },
        );
        let k = choose|k: int| 0 <= k < rest.len() && #[trigger] rest[k] == highest_group(rest);
        assert(groups[k] == highest_group(rest));
        assert(groups[groups.len() - 1] == groups.last());
        if i < rest.len() {
            assert(rest[i] == groups[i]);
        }
    } else {
        assert(highest_group(rest) == 0);
        assert(groups[0] == groups.last());
        assert(groups[0] == highest_group(groups));
    }
}

/// The members of a group are the features that stand in it.
pub proof fn law_members_stand_in_their_group(groups: Seq<u32>, id: int, f: usize)
    requires
        groups.len() <= usize::MAX,
    ensures
        group_members(groups, id).contains(f) <==> f < groups.len() && groups[f as int] == id,
{
    crate::select::law_kept_are_those_marked(group_flags(groups, id), f);
}

/// The trees take the groups beside the raw one in turn, from the first to the highest
/// and over again, through the trees of a round and on into the next.
pub proof fn law_groups_take_turns(round: int, trees: int, sub: int, highest: int)
    requires
        0 <= round,
        0 < trees,
        0 <= sub < trees,
        0 < highest,
    ensures
        1 <= aux_group(round, trees, sub, highest) <= highest,
        aux_group(0, trees, 0, highest) == 1,
        sub + 1 < trees ==> aux_group(round, trees, sub + 1, highest) == (if aux_group(round, trees, sub, highest)
            < highest {
            aux_group(round, trees, sub, highest) + 1
        } else {
            1
        }),
        sub + 1 == trees ==> aux_group(round + 1, trees, 0, highest) == (if aux_group(round, trees, sub, highest)
            < highest {
            aux_group(round, trees, sub, highest) + 1
        } else {
            1
        }),
{
    let p = round * trees + sub;
    assert(p >= 0) by (nonlinear_arith)
        requires
            p == round * trees + sub,
            round >= 0,
            trees > 0,
            sub >= 0,
    ;
    assert((round + 1) * trees == round * trees + trees) by (nonlinear_arith);
    assert(0 * trees == 0) by (nonlinear_arith);
    vstd::arithmetic::div_mod::lemma_small_mod(0, highest as nat);
    let q = p / highest;
    let r = p % highest;
    vstd::arithmetic::div_mod::lemma_fundamental_div_mod(p, highest);
    vstd::arithmetic::div_mod::lemma_mod_bound(p, highest);
    if r + 1 < highest {
        assert(p + 1 == q * highest + (r + 1)) by (nonlinear_arith)
            requires
                p == highest * q + r,
        ;
        vstd::arithmetic::div_mod::lemma_fundamental_div_mod_converse(p + 1, highest, q, r + 1);
    } else {
        assert(p + 1 == (q + 1) * highest + 0) by (nonlinear_arith)
            requires
                p == highest * q + r,
                r + 1 == highest,
        ;
        vstd::arithmetic::div_mod::lemma_fundamental_div_mod_converse(p + 1, highest, q + 1, 0);
    }
}

/// A view joins the raw group with one other: its lists hold the features of each, and
/// neither is empty.
pub proof fn law_views_join_two_groups(plan: ViewPlan, groups: Seq<u32>, aux: int, f: usize)
    requires
        plan.planned(groups, aux),
        groups.len() <= usize::MAX,
    ensures
        plan.raw@.contains(f) <==> f < groups.len() && groups[f as int] == 0,
        plan.aux@.contains(f) <==> f < groups.len() && groups[f as int] == plan.aux_id,
        plan.aux_id > 0,
        plan.raw@.len() > 0 && plan.aux@.len() > 0,
        plan.size() == plan.raw@.len() + plan.aux@.len(),
{
    law_members_stand_in_their_group(groups, 0, f);
    law_members_stand_in_their_group(groups, aux, f);
}

/// A view's picks are the first of its order, and one more where a group would be missing:
/// of the raw one first, else of the other.
pub proof fn law_views_miss_no_group(
    groups: Seq<u32>,
    plan: ViewPlan,
    order: Seq<usize>,
    select: int,
    raw_pick: usize,
    aux_pick: usize,
    p: int,
)
    requires
        0 <= p < select <= order.len(),
        groups[raw_pick as int] == 0,
        groups[aux_pick as int] == plan.aux_id,
        plan.aux_id > 0,
        forall|i: int|
            0 <= i < order.len() ==> groups[(#[trigger] order[i]) as int] == 0 || groups[order[i] as int] == plan.aux_id,
    ensures
        ({
            let picks = view_picks(groups, plan, order, select, raw_pick, aux_pick);
            &&& picks[p] == order[p]
            &&& select <= picks.len() <= select + 1
            &&& exists|i: int| 0 <= i < picks.len() && groups[(#[trigger] picks[i]) as int] == 0
            &&& exists|i: int| 0 <= i < picks.len() && groups[(#[trigger] picks[i]) as int] == plan.aux_id
            &&& picks.len() == select + 1 ==> picks.last() == raw_pick || picks.last() == aux_pick
            &&& (exists|i: int, j: int|
                0 <= i < select && 0 <= j < select && groups[(#[trigger] order[i]) as int] == 0 && groups[(
                #[trigger] order[j]) as int] == plan.aux_id) ==> picks.len() == select
        }),
{
    let picks = view_picks(groups, plan, order, select, raw_pick, aux_pick);
    if !picks_group(groups, order, select, 0) {
        assert(picks[select] == raw_pick);
        assert(groups[order[p] as int] == plan.aux_id);
        assert(picks[p] == order[p]);
    } else {
        let i = choose|i: int| 0 <= i < select && groups[(#[trigger] order[i]) as int] == 0;
        assert(picks[i] == order[i]);
        if !picks_group(groups, order, select, plan.aux_id as int) {
            assert(picks[select] == aux_pick);
        } else {
            let j = choose|j: int| 0 <= j < select && groups[(#[trigger] order[j]) as int] == plan.aux_id;
            assert(picks[j] == order[j]);
        }
    }
}

/// A mask of a view admits its picks alone, and what it falls back on stands in its group.
pub proof fn law_view_masks_admit_picks(
    groups: Seq<u32>,
    plan: ViewPlan,
    order: Seq<usize>,
    select: int,
    raw_pick: usize,
    aux_pick: usize,
    mask: Seq<bool>,
    f: usize,
)
    requires
        picks_view(groups, plan, order, select, raw_pick, aux_pick, mask),
        mask.len() <= usize::MAX,
        f < mask.len(),
    ensures
        mask[f as int] <==> view_picks(groups, plan, order, select, raw_pick, aux_pick).contains(f),
        plan.raw@.contains(raw_pick) && plan.aux@.contains(aux_pick),
        order.contains(f) <==> plan.raw@.contains(f) || plan.aux@.contains(f),
        order.no_duplicates(),
{
    assert(mask[f as int] <==> view_picks(groups, plan, order, select, raw_pick, aux_pick).contains(f as int as usize));
}

} // verus!
