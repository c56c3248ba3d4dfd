//! Category lookups for the leaves of multi-output trees: which features are
//! scored, how their bins are laid out, and which lookup a leaf gets.

use crate::combos::{index_pairs, index_triples, is_pair_list, is_triple_list};
use crate::leaves::{rows_by_leaf, rows_ending};
use crate::num::{saturate, Num};
use crate::pressure::{first_best, is_first_best};
use crate::select::{at_most, collect_kept, is_positive, is_top, kept_indices, positive, select_top};
use crate::tree::{BinnedData, CatLookup, DecisionTree, NO_FEATURE};
use vstd::prelude::*;

verus! {

/// The most bins that a tuple of categories is laid out in without hashing.
pub const MAX_EXACT_BINS: usize = 256;

/// Which features have a category lookup: categories of at least two bins.
pub open spec fn lookup_flags(data: BinnedData) -> Seq<bool> {
    Seq::new(
        data.n_features as nat,
        |f: int| f < data.cll_is_categorical@.len() && data.cll_is_categorical@[f] && f < data.cll_n_bins@.len()
            && data.cll_n_bins@[f] >= 2,
    )
}

/// The features with a category lookup.
pub fn lookup_columns(data: &BinnedData) -> (cols: Vec<usize>)
    ensures
        cols@ == kept_indices(lookup_flags(*data)),
{
    let mut flags: Vec<bool> = Vec::new();
    let mut f: usize = 0;
    while f < data.n_features
        invariant
            f <= data.n_features,
            flags@.len() == f,
            forall|k: int| 0 <= k < f ==> #[trigger] flags@[k] == lookup_flags(*data)[k],
        decreases data.n_features - f,
    {
        flags.push(
            f < data.cll_is_categorical.len() && data.cll_is_categorical[f] && f < data.cll_n_bins.len()
                && data.cll_n_bins[f] >= 2,
        );
        f = f + 1;
    }
    assert(flags@ =~= lookup_flags(*data));
    collect_kept(&flags)
}

/// Whether lookups are guided by all classes: lookups are on, there are at
/// least three classes and two features with a lookup.
pub fn guides_lookups(smooth: &Num, n_classes: usize, n_columns: usize) -> (r: bool)
    ensures
        r == (!smooth.at_most(Num { bits: 0 }) && n_classes >= 3 && n_columns >= 2),
{
    let zero: Num = Num { bits: 0 };
    !smooth.le(&zero) && n_classes >= 3 && n_columns >= 2
}

/// The least rows of a leaf that gets a lookup.
pub open spec fn least_rows(n_classes: int) -> int {
    if 2 * n_classes > 8 {
        2 * n_classes
    } else {
        8
    }
}

/// Whether a node is a leaf with rows enough for a lookup.
pub fn leaf_qualifies(tree: &DecisionTree, node: usize, n_samples: usize, n_classes: usize) -> (r: bool)
    requires
        node < tree.split_features@.len(),
        2 * n_classes <= usize::MAX,
    ensures
        r == (tree.is_leaf(node as int) && n_samples >= least_rows(n_classes as int)),
{
    let least: usize = if n_classes > 4 { 2 * n_classes } else { 8 };
    tree.split_features[node] == NO_FEATURE && n_samples >= least
}

/// Which nodes are leaves with rows enough for a lookup.
pub open spec fn qualifying(tree: DecisionTree, data: BinnedData, list: Seq<u32>, n_classes: int) -> Seq<bool> {
    Seq::new(
        tree.size() as nat,
        |node: int| tree.is_leaf(node) && rows_ending(tree, data, list, node).len() >= least_rows(n_classes),
    )
}

/// A leaf that a lookup is sought for, with its rows.
pub struct GuidedLeaf {
    pub node: usize,
    pub rows: Vec<u32>,
}

/// The leaves that a lookup is sought for.
pub fn guided_leaves(tree: &DecisionTree, data: &BinnedData, list: &Vec<u32>, n_classes: usize) -> (leaves: Vec<
    GuidedLeaf,
>)
    requires
        tree.fits(*data),
        2 * n_classes <= usize::MAX,
        forall|i: int| 0 <= i < list@.len() ==> #[trigger] list@[i] < data.n_rows,
    ensures
        ({
            let kept = kept_indices(qualifying(*tree, *data, list@, n_classes as int));
            &&& leaves@.len() == kept.len()
            &&& forall|p: int|
                0 <= p < leaves@.len() ==> (#[trigger] leaves@[p]).node == kept[p] && leaves@[p].rows@ == rows_ending(
                    *tree,
                    *data,
                    list@,
                    kept[p] as int,
                )
        }),
{
    let rows: Vec<Vec<u32>> = rows_by_leaf(tree, data, list);
    let n: usize = tree.split_features.len();
    let ghost flags = qualifying(*tree, *data, list@, n_classes as int);
    let mut leaves: Vec<GuidedLeaf> = Vec::new();
    let mut node: usize = 0;
    assert(flags.take(0) =~= Seq::empty());
    while node < n
        invariant
            node <= n,
            n == tree.size(),
            n == tree.split_features@.len(),
            2 * n_classes <= usize::MAX,
            rows@.len() == n,
            forall|i: int| 0 <= i < n ==> (#[trigger] rows@[i])@ == rows_ending(*tree, *data, list@, i),
            flags == qualifying(*tree, *data, list@, n_classes as int),
            leaves@.len() == kept_indices(flags.take(node as int)).len(),
            forall|p: int|
                0 <= p < leaves@.len() ==> (#[trigger] leaves@[p]).node == kept_indices(flags.take(node as int))[p]
                    && leaves@[p].rows@ == rows_ending(
                    *tree,
                    *data,
                    list@,
                    kept_indices(flags.take(node as int))[p] as int,
                ),
        decreases n - node,
    {
        assert(flags.take(node + 1).drop_last() =~= flags.take(node as int));
        assert(flags.take(node + 1).last() == flags[node as int]);
        if leaf_qualifies(tree, node, rows[node].len(), n_classes) {
            let own: Vec<u32> = rows[node].clone();
            assert(own@ =~= rows@[node as int]@);
            leaves.push(GuidedLeaf { node, rows: own });
        }
        node = node + 1;
    }
    assert(flags.take(n as int) =~= flags);
    leaves
}

/// The number of bins of a category, one at least.
pub open spec fn bins_in(data: BinnedData, f: int) -> int {
    if data.cll_n_bins@[f] > 1 {
        data.cll_n_bins@[f] as int
    } else {
        1
    }
}

fn count_bins(data: &BinnedData, f: usize) -> (n: usize)
    requires
        f < data.cll_n_bins@.len(),
    ensures
        n == bins_in(*data, f as int),
        n >= 1,
{
    if data.cll_n_bins[f] > 1 {
        data.cll_n_bins[f]
    } else {
        1
    }
}

/// The bins that hold enough mass.
pub open spec fn active_flags(mass: Seq<Num>, least: Num) -> Seq<bool> {
    Seq::new(mass.len(), |b: int| !mass[b].below(least))
}

/// The bins that hold at least the mass asked for.
pub fn active_bins(mass: &Vec<Num>, least: &Num) -> (bins: Vec<usize>)
    ensures
        bins@ == kept_indices(active_flags(mass@, *least)),
{
    let mut flags: Vec<bool> = Vec::new();
    let mut b: usize = 0;
    while b < mass.len()
        invariant
            b <= mass@.len(),
            flags@.len() == b,
            forall|k: int| 0 <= k < b ==> #[trigger] flags@[k] == !mass@[k].below(*least),
        decreases mass@.len() - b,
    {
        flags.push(!mass[b].lt(least));
        b = b + 1;
    }
    assert(flags@ =~= active_flags(mass@, *least));
    collect_kept(&flags)
}

/// A choice of lookup for a leaf: one, two or three features, with the layout
/// of their bins. A stride of zero means that the bins are hashed.
#[derive(Clone, Copy, PartialEq, Eq, Structural, Debug)]
pub struct GuidedCatChoice {
    pub feature: u32,
    pub feature2: u32,
    pub feature3: u32,
    pub n_bins: usize,
    pub pair_stride: usize,
    pub triple_stride: usize,
}

/// The layout of a pair of categories of `n_i` and `n_j` bins: exact where
/// that takes at most 256 bins, and otherwise hashed into a tenth of the rows,
/// between 8 and 32 bins.
pub open spec fn pair_layout(n_i: int, n_j: int, n_samples: int) -> (int, int) {
    if n_i * n_j <= MAX_EXACT_BINS {
        (n_i * n_j, n_j)
    } else {
        (saturate(n_samples / 10, 8, 32), 0)
    }
}

/// The choice of a single feature.
pub open spec fn single_choice(data: BinnedData, f: usize) -> GuidedCatChoice {
    GuidedCatChoice {
        feature: f as u32,
        feature2: NO_FEATURE,
        feature3: NO_FEATURE,
        n_bins: bins_in(data, f as int) as usize,
        pair_stride: 0,
        triple_stride: 0,
    }
}

/// The choice of a pair of features.
pub open spec fn pair_choice(data: BinnedData, fi: usize, fj: usize, n_samples: int) -> GuidedCatChoice {
    let layout = pair_layout(bins_in(data, fi as int), bins_in(data, fj as int), n_samples);
    GuidedCatChoice {
        feature: fi as u32,
        feature2: fj as u32,
        feature3: NO_FEATURE,
        n_bins: layout.0 as usize,
        pair_stride: layout.1 as usize,
        triple_stride: 0,
    }
}

/// The number of bins of a triple of features, laid out exactly.
pub open spec fn triple_bins(data: BinnedData, a: int, b: int, c: int) -> int {
    bins_in(data, a) * bins_in(data, b) * bins_in(data, c)
}

/// The choice of a triple of features.
pub open spec fn triple_choice(data: BinnedData, a: usize, b: usize, c: usize) -> GuidedCatChoice {
    GuidedCatChoice {
        feature: a as u32,
        feature2: b as u32,
        feature3: c as u32,
        n_bins: triple_bins(data, a as int, b as int, c as int) as usize,
        pair_stride: bins_in(data, b as int) as usize,
        triple_stride: bins_in(data, c as int) as usize,
    }
}

/// The scored single features that count: at least two active bins, and a
/// finite gain above zero.
pub open spec fn gaining(gains: Seq<Num>, active: Seq<usize>, least: int) -> Seq<bool> {
    Seq::new(gains.len(), |i: int| active[i] >= least && gains[i].finite() && positive(gains[i]))
}

fn gain_flags(gains: &Vec<Num>, active: &Vec<usize>, least: usize) -> (flags: Vec<bool>)
    requires
        gains@.len() == active@.len(),
    ensures
        flags@ == gaining(gains@, active@, least as int),
{
    let mut flags: Vec<bool> = Vec::new();
    let mut i: usize = 0;
    while i < gains.len()
        invariant
            i <= gains@.len(),
            gains@.len() == active@.len(),
            flags@.len() == i,
            forall|k: int| 0 <= k < i ==> #[trigger] flags@[k] == gaining(gains@, active@, least as int)[k],
        decreases gains@.len() - i,
    {
        flags.push(active[i] >= least && gains[i].is_finite() && is_positive(&gains[i]));
        i = i + 1;
    }
    assert(flags@ =~= gaining(gains@, active@, least as int));
    flags
}

/// How many single features go on: six where more than twelve are scored.
pub open spec fn single_limit(n_columns: int, n_gaining: int) -> int {
    if n_columns > 12 {
        at_most(6, n_gaining)
    } else {
        n_gaining
    }
}

/// The single features of a leaf by falling gain, as positions among the
/// scored columns; nothing where fewer than two gain.
pub fn guided_singles(gains: &Vec<Num>, active: &Vec<usize>) -> (r: Option<Vec<usize>>)
    requires
        gains@.len() == active@.len(),
    ensures
        ({
            let flags = gaining(gains@, active@, 2);
            let n = kept_indices(flags).len() as int;
            &&& r is Some <==> n >= 2
            &&& r matches Some(top) ==> is_top(gains@, flags, single_limit(gains@.len() as int, n), top@)
        }),
{
    let flags: Vec<bool> = gain_flags(gains, active, 2);
    let gain_list: Vec<usize> = collect_kept(&flags);
    let n: usize = gain_list.len();
    if n < 2 {
        return None;
    }
    let limit: usize = if gains.len() > 12 && n > 6 { 6 } else { n };
    Some(select_top(gains, &flags, limit))
}

/// The choices of pairs to score, in lexicographic order of their ranks.
pub fn guided_pairs(data: &BinnedData, features: &Vec<usize>, n_samples: usize) -> (choices: Vec<GuidedCatChoice>)
    requires
        forall|i: int| 0 <= i < features@.len() ==> (#[trigger] features@[i]) < data.cll_n_bins@.len(),
        data.cll_n_bins@.len() < NO_FEATURE,
    ensures
        exists|list: Seq<(usize, usize)>| #[trigger]
            is_pair_list(features@.len() as int, list) && choices@ == Seq::new(
                list.len(),
                |p: int|
                    pair_choice(*data, features@[list[p].0 as int], features@[list[p].1 as int], n_samples as int),
            ),
{
    let list: Vec<(usize, usize)> = index_pairs(features.len());
    let mut choices: Vec<GuidedCatChoice> = Vec::new();
    let mut p: usize = 0;
    while p < list.len()
        invariant
            p <= list@.len(),
            is_pair_list(features@.len() as int, list@),
            forall|i: int| 0 <= i < features@.len() ==> (#[trigger] features@[i]) < data.cll_n_bins@.len(),
            data.cll_n_bins@.len() < NO_FEATURE,
            choices@.len() == p,
            forall|q: int|
                0 <= q < p ==> #[trigger] choices@[q] == pair_choice(
                    *data,
                    features@[list@[q].0 as int],
                    features@[list@[q].1 as int],
                    n_samples as int,
                ),
        decreases list@.len() - p,
    {
        let (i, j) = list[p];
        assert(list@[p as int].0 < list@[p as int].1 < features@.len());
        let fi: usize = features[i];
        let fj: usize = features[j];
        let n_i: usize = count_bins(data, fi);
        let n_j: usize = count_bins(data, fj);
        let hashed: usize = n_samples / 10;
        let small: usize = if hashed < 8 {
            8
        } else if hashed > 32 {
            32
        } else {
            hashed
        };
        let layout: (usize, usize) = match n_i.checked_mul(n_j) {
            Some(n) => if n <= MAX_EXACT_BINS {
                (n, n_j)
            } else {
                (small, 0)
            },
            None => (small, 0),
        };
        choices.push(
            GuidedCatChoice {
                feature: fi as u32,
                feature2: fj as u32,
                feature3: NO_FEATURE,
                n_bins: layout.0,
                pair_stride: layout.1,
                triple_stride: 0,
            },
        );
        p = p + 1;
    }
    assert(choices@ =~= Seq::new(
        list@.len(),
        |p: int| pair_choice(*data, features@[list@[p].0 as int], features@[list@[p].1 as int], n_samples as int),
    ));
    choices
}

/// Which triples have an exact layout of at most 256 bins.
pub open spec fn exact_triples(data: BinnedData, features: Seq<usize>, list: Seq<(usize, usize, usize)>) -> Seq<bool> {
    Seq::new(
        list.len(),
        |p: int|
            triple_bins(
                data,
                features[list[p].0 as int] as int,
                features[list[p].1 as int] as int,
                features[list[p].2 as int] as int,
            ) <= MAX_EXACT_BINS,
    )
}

/// The choices of the triples that `kept` names.
pub open spec fn triple_choices(
    data: BinnedData,
    features: Seq<usize>,
    list: Seq<(usize, usize, usize)>,
    kept: Seq<usize>,
) -> Seq<GuidedCatChoice> {
    Seq::new(
        kept.len(),
        |p: int|
            triple_choice(
                data,
                features[list[kept[p] as int].0 as int],
                features[list[kept[p] as int].1 as int],
                features[list[kept[p] as int].2 as int],
            ),
    )
}

/// The number of bins of an exact triple layout, where that is at most 256.
fn count_triple_bins(data: &BinnedData, a: usize, b: usize, c: usize) -> (r: Option<usize>)
    requires
        a < data.cll_n_bins@.len(),
        b < data.cll_n_bins@.len(),
        c < data.cll_n_bins@.len(),
    ensures
        r is Some <==> triple_bins(*data, a as int, b as int, c as int) <= MAX_EXACT_BINS,
        r matches Some(n) ==> n == triple_bins(*data, a as int, b as int, c as int),
{
    let n0: usize = count_bins(data, a);
    let n1: usize = count_bins(data, b);
    let n2: usize = count_bins(data, c);
    match n0.checked_mul(n1) {
        None => {
            assert(n0 * n1 * n2 >= n0 * n1) by (nonlinear_arith)
                requires
                    n2 >= 1,
                    n0 * n1 >= 0,
            ;
            None
        },
        Some(p) => match p.checked_mul(n2) {
            None => None,
            Some(n) => if n <= MAX_EXACT_BINS {
                Some(n)
            } else {
                None
            },
        },
    }
}

/// The least rows of a leaf whose triples are scored.
pub open spec fn least_triple_rows(n_classes: int) -> int {
    if 16 * n_classes > 48 {
        16 * n_classes
    } else {
        48
    }
}

/// The choices of triples to score, in lexicographic order of their ranks:
/// those with an exact layout, where the leaf has rows enough.
pub fn guided_triples(data: &BinnedData, features: &Vec<usize>, n_samples: usize, n_classes: usize) -> (choices: Vec<
    GuidedCatChoice,
>)
    requires
        forall|i: int| 0 <= i < features@.len() ==> (#[trigger] features@[i]) < data.cll_n_bins@.len(),
        data.cll_n_bins@.len() < NO_FEATURE,
        16 * n_classes <= usize::MAX,
    ensures
        features@.len() < 3 || n_samples < least_triple_rows(n_classes as int) ==> choices@.len() == 0,
        features@.len() >= 3 && n_samples >= least_triple_rows(n_classes as int) ==> exists|
            list: Seq<(usize, usize, usize)>,
        | #[trigger]
            is_triple_list(features@.len() as int, list) && choices@ == triple_choices(
                *data,
                features@,
                list,
                kept_indices(exact_triples(*data, features@, list)),
            ),
{
    let mut choices: Vec<GuidedCatChoice> = Vec::new();
    let least: usize = if n_classes > 3 { 16 * n_classes } else { 48 };
    if features.len() < 3 || n_samples < least {
        return choices;
    }
    let list: Vec<(usize, usize, usize)> = index_triples(features.len());
    let mut p: usize = 0;
    assert(exact_triples(*data, features@, list@).take(0) =~= Seq::empty());
    while p < list.len()
        invariant
            p <= list@.len(),
            is_triple_list(features@.len() as int, list@),
            forall|i: int| 0 <= i < features@.len() ==> (#[trigger] features@[i]) < data.cll_n_bins@.len(),
            data.cll_n_bins@.len() < NO_FEATURE,
            choices@ == triple_choices(
                *data,
                features@,
                list@,
                kept_indices(exact_triples(*data, features@, list@).take(p as int)),
            ),
        decreases list@.len() - p,
    {
        let (i, j, k) = list[p];
        assert(list@[p as int].0 < list@[p as int].1 < list@[p as int].2 < features@.len());
        let a: usize = features[i];
        let b: usize = features[j];
        let c: usize = features[k];
        let flags = Ghost(exact_triples(*data, features@, list@));
        assert(flags@.take(p + 1).drop_last() =~= flags@.take(p as int));
        match count_triple_bins(data, a, b, c) {
            Some(n) => {
                let before = Ghost(choices@);
                choices.push(
                    GuidedCatChoice {
                        feature: a as u32,
                        feature2: b as u32,
                        feature3: c as u32,
                        n_bins: n,
                        pair_stride: count_bins(data, b),
                        triple_stride: count_bins(data, c),
                    },
                );
                proof {
                    let old_kept = kept_indices(flags@.take(p as int));
                    let kept = kept_indices(flags@.take(p + 1));
                    assert(kept == old_kept.push(p));
                    assert(choices@ =~= triple_choices(*data, features@, list@, kept));
                }
            },
            None => {},
        }
        p = p + 1;
    }
    assert(exact_triples(*data, features@, list@).take(list@.len() as int) =~= exact_triples(*data, features@, list@));
    assert(is_triple_list(features@.len() as int, list@));
    choices
}

/// Which tuples may be chosen: enough active bins, and a finite gain.
pub open spec fn eligible(gains: Seq<Num>, active: Seq<usize>, least: int) -> Seq<bool> {
    Seq::new(gains.len(), |i: int| active[i] >= least && gains[i].finite())
}

/// The first of the highest gains above zero among the tuples that may be chosen.
pub fn best_tuple(gains: &Vec<Num>, active: &Vec<usize>, least: usize) -> (r: Option<usize>)
    requires
        gains@.len() == active@.len(),
    ensures
        is_first_best(gains@, eligible(gains@, active@, least as int), Num { bits: 0 }, r),
{
    let mut flags: Vec<bool> = Vec::new();
    let mut i: usize = 0;
    while i < gains.len()
        invariant
            i <= gains@.len(),
            gains@.len() == active@.len(),
            flags@.len() == i,
            forall|k: int| 0 <= k < i ==> #[trigger] flags@[k] == (active@[k] >= least && gains@[k].finite()),
        decreases gains@.len() - i,
    {
        flags.push(active[i] >= least && gains[i].is_finite());
        i = i + 1;
    }
    assert(flags@ =~= eligible(gains@, active@, least as int));
    let zero: Num = Num { bits: 0 };
    first_best(gains, &flags, &zero)
}

/// The gain of a chosen tuple, zero without one.
pub open spec fn gain_of(gains: Seq<Num>, best: Option<usize>) -> Num {
    match best {
        Some(p) => gains[p as int],
        None => Num { bits: 0 },
    }
}

/// Scored tuples: their layouts, gains and numbers of active bins.
pub struct ScoredTuples {
    pub choices: Vec<GuidedCatChoice>,
    pub gains: Vec<Num>,
    pub active: Vec<usize>,
}

impl ScoredTuples {
    pub open spec fn complete(&self) -> bool {
        self.gains@.len() == self.choices@.len() && self.active@.len() == self.choices@.len()
    }
}

/// `r` is the choice of a leaf: its best triple where that gains more than the
/// best pair and the best single feature, else its best pair where that gains
/// more than the single, else the single.
pub open spec fn is_leaf_choice(
    single: GuidedCatChoice,
    single_gain: Num,
    pairs: ScoredTuples,
    triples: ScoredTuples,
    pair: Option<usize>,
    triple: Option<usize>,
    r: GuidedCatChoice,
) -> bool {
    let pair_gain = gain_of(pairs.gains@, pair);
    let triple_gain = gain_of(triples.gains@, triple);
    r == (if triple is Some && pair_gain.larger(single_gain).below(triple_gain) {
        triples.choices@[triple->0 as int]
    } else if pair is Some && single_gain.below(pair_gain) {
        pairs.choices@[pair->0 as int]
    } else {
        single
    })
}

/// The lookup of a leaf with the best single feature `feature`.
pub fn choose_lookup(
    data: &BinnedData,
    feature: usize,
    single_gain: &Num,
    pairs: &ScoredTuples,
    triples: &ScoredTuples,
) -> (r: GuidedCatChoice)
    requires
        feature < data.cll_n_bins@.len(),
        data.cll_n_bins@.len() < NO_FEATURE,
        pairs.complete(),
        triples.complete(),
    ensures
        exists|pair: Option<usize>, triple: Option<usize>|
            {
                &&& #[trigger] is_first_best(
                    pairs.gains@,
                    eligible(pairs.gains@, pairs.active@, 2),
                    Num { bits: 0 },
                    pair,
                )
                &&& #[trigger] is_first_best(
                    triples.gains@,
                    eligible(triples.gains@, triples.active@, 3),
                    Num { bits: 0 },
                    triple,
                )
                &&& is_leaf_choice(
                    single_choice(*data, feature),
                    *single_gain,
                    *pairs,
                    *triples,
                    pair,
                    triple,
                    r,
                )
            },
{
    let single: GuidedCatChoice = GuidedCatChoice {
        feature: feature as u32,
        feature2: NO_FEATURE,
        feature3: NO_FEATURE,
        n_bins: count_bins(data, feature),
        pair_stride: 0,
        triple_stride: 0,
    };
    let pair: Option<usize> = best_tuple(&pairs.gains, &pairs.active, 2);
    let triple: Option<usize> = best_tuple(&triples.gains, &triples.active, 3);
    let pair_gain: Num = match pair {
        Some(p) => pairs.gains[p],
        None => Num { bits: 0 },
    };
    let bar: Num = pair_gain.max(single_gain);
    match triple {
        Some(t) => {
            if bar.lt(&triples.gains[t]) {
                return triples.choices[t];
            }
        },
        None => {},
    }
    match pair {
        Some(p) => {
            if single_gain.lt(&pair_gain) {
                return pairs.choices[p];
            }
        },
        None => {},
    }
    single
}

/// The hash of two category bins.
pub open spec fn pair_hash(b1: u16, b2: u16) -> u32 {
    (b1 as u32).wrapping_mul(257).wrapping_add(b2 as u32)
}

/// The hash of three category bins.
pub open spec fn triple_hash(b1: u16, b2: u16, b3: u16) -> u32 {
    (b1 as u32).wrapping_mul(257).wrapping_add((b2 as u32).wrapping_mul(17)).wrapping_add(b3 as u32)
}

/// The number of bins of a choice, one at least.
pub open spec fn choice_bins(choice: GuidedCatChoice) -> int {
    if choice.n_bins > 1 {
        choice.n_bins as int
    } else {
        1
    }
}

/// The bin that a row falls into under a choice; none where a value is missing
/// or, for a single feature, beyond its bins.
pub open spec fn row_bin(data: BinnedData, choice: GuidedCatChoice, row: int) -> Option<int> {
    let b1 = data.cat_bin(row, choice.feature as int);
    let b2 = data.cat_bin(row, choice.feature2 as int);
    let b3 = data.cat_bin(row, choice.feature3 as int);
    if b1 == data.missing_bin {
        None
    } else if choice.feature2 == NO_FEATURE {
        if b1 < choice_bins(choice) {
            Some(b1 as int)
        } else {
            None
        }
    } else if b2 == data.missing_bin {
        None
    } else if choice.feature3 == NO_FEATURE {
        if choice.pair_stride > 0 {
            Some(b1 * choice.pair_stride + b2)
        } else {
            Some(pair_hash(b1, b2) as int % choice_bins(choice))
        }
    } else if b3 == data.missing_bin {
        None
    } else if choice.pair_stride > 0 && choice.triple_stride > 0 {
        Some((b1 * choice.pair_stride + b2) * choice.triple_stride + b3)
    } else {
        Some(triple_hash(b1, b2, b3) as int % choice_bins(choice))
    }
}

/// The features of a choice are features of the data.
pub open spec fn choice_fits(data: BinnedData, choice: GuidedCatChoice) -> bool {
    &&& choice.feature < data.n_features
    &&& choice.feature2 != NO_FEATURE ==> choice.feature2 < data.n_features
    &&& choice.feature3 != NO_FEATURE ==> choice.feature3 < data.n_features
}

/// Whether the features of a choice are features of the data.
pub fn choice_in_range(data: &BinnedData, choice: &GuidedCatChoice) -> (r: bool)
    ensures
        r == choice_fits(*data, *choice),
{
    (choice.feature as usize) < data.n_features && (choice.feature2 == NO_FEATURE || (choice.feature2 as usize)
        < data.n_features) && (choice.feature3 == NO_FEATURE || (choice.feature3 as usize) < data.n_features)
}

/// The strides of a choice are small enough for bins to be numbered.
pub open spec fn strides_small(choice: GuidedCatChoice) -> bool {
    &&& choice.pair_stride <= MAX_EXACT_BINS
    &&& choice.triple_stride <= MAX_EXACT_BINS
    &&& choice.pair_stride * choice.triple_stride <= MAX_EXACT_BINS
}

/// The layouts that are chosen from have small strides.
pub proof fn law_choices_can_be_binned(data: BinnedData, a: usize, b: usize, c: usize, n_samples: int)
    ensures
        strides_small(single_choice(data, a)),
        strides_small(pair_choice(data, a, b, n_samples)),
        triple_bins(data, a as int, b as int, c as int) <= MAX_EXACT_BINS ==> strides_small(
            triple_choice(data, a, b, c),
        ),
{
    let n0 = bins_in(data, a as int);
    let n1 = bins_in(data, b as int);
    let n2 = bins_in(data, c as int);
    assert(n0 * n1 >= n1) by (nonlinear_arith)
        requires
            n0 >= 1,
            n1 >= 1,
    ;
    assert(n0 * n1 * n2 >= n1 * n2 && n1 * n2 >= n1 && n1 * n2 >= n2) by (nonlinear_arith)
        requires
            n0 >= 1,
            n1 >= 1,
            n2 >= 1,
    ;
    let p = pair_choice(data, a, b, n_samples);
    assert(p.pair_stride * 0 == 0) by (nonlinear_arith);
}

/// The bin that a row falls into under a choice.
pub fn choice_bin(data: &BinnedData, choice: &GuidedCatChoice, row: usize) -> (r: Option<usize>)
    requires
        data.filled(),
        row < data.n_rows,
        choice_fits(*data, *choice),
        strides_small(*choice),
    ensures
        r is Some <==> row_bin(*data, *choice, row as int) is Some,
        r matches Some(b) ==> row_bin(*data, *choice, row as int) == Some(b as int),
{
    let bins: usize = if choice.n_bins > 1 { choice.n_bins } else { 1 };
    let b1: u16 = data.get_cat_bin(row, choice.feature as usize);
    if b1 == data.missing_bin {
        return None;
    }
    if choice.feature2 == NO_FEATURE {
        return if (b1 as usize) < bins { Some(b1 as usize) } else { None };
    }
    let b2: u16 = data.get_cat_bin(row, choice.feature2 as usize);
    if b2 == data.missing_bin {
        return None;
    }
    assert(0 <= b1 * choice.pair_stride <= 65535 * 256) by (nonlinear_arith)
        requires
            0 <= b1 <= 65535,
            0 <= choice.pair_stride <= 256,
    ;
    if choice.feature3 == NO_FEATURE {
        if choice.pair_stride > 0 {
            return Some((b1 as usize) * choice.pair_stride + (b2 as usize));
        }
        let h: u32 = (b1 as u32).wrapping_mul(257).wrapping_add(b2 as u32);
        return Some((h as usize) % bins);
    }
    let b3: u16 = data.get_cat_bin(row, choice.feature3 as usize);
    if b3 == data.missing_bin {
        return None;
    }
    if choice.pair_stride > 0 && choice.triple_stride > 0 {
        let head: usize = (b1 as usize) * choice.pair_stride + (b2 as usize);
        assert(head * choice.triple_stride <= 65535 * 256 + 65535 * 256) by (nonlinear_arith)
            requires
                head == b1 * choice.pair_stride + b2,
                0 <= b1 <= 65535,
                0 <= b2 <= 65535,
                0 <= choice.pair_stride,
                0 <= choice.triple_stride <= 256,
                choice.pair_stride * choice.triple_stride <= 256,
        ;
        return number_triple(head, choice.triple_stride, b3);
    }
    let h: u32 = (b1 as u32).wrapping_mul(257).wrapping_add((b2 as u32).wrapping_mul(17)).wrapping_add(b3 as u32);
    Some((h as usize) % bins)
}

/// The bin number of an exact triple layout.
fn number_triple(head: usize, stride: usize, b3: u16) -> (r: Option<usize>)
    requires
        head * stride + b3 <= usize::MAX,
    ensures
        r == Some((head * stride + b3) as usize),
{
    assert(head * stride >= 0) by (nonlinear_arith)
        requires
            head >= 0,
            stride >= 0,
    ;
    Some(head * stride + (b3 as usize))
}

/// Two rows share a bin of an exact pair layout only where they share both values.
pub proof fn law_exact_pairs_are_distinct(a1: int, a2: int, b1: int, b2: int, stride: int)
    requires
        0 <= a2 < stride,
        0 <= b2 < stride,
        a1 * stride + a2 == b1 * stride + b2,
    ensures
        a1 == b1,
        a2 == b2,
{
    vstd::arithmetic::div_mod::lemma_fundamental_div_mod_converse(a1 * stride + a2, stride, a1, a2);
    vstd::arithmetic::div_mod::lemma_fundamental_div_mod_converse(b1 * stride + b2, stride, b1, b2);
}

/// A row of a pair within the bins of its features falls within the bins of an exact pair layout.
pub proof fn law_pair_bins_in_range(b1: int, b2: int, n_i: int, n_j: int)
    requires
        0 <= b1 < n_i,
        0 <= b2 < n_j,
    ensures
        0 <= b1 * n_j + b2 < n_i * n_j,
{
    crate::tree::lemma_cell(b1, b2, n_i, n_j);
}

/// Whether joint lookups are made: lookups are on, there are at least three
/// classes, one choice for each node and one base value for each node and class.
pub fn joint_applies(smooth: &Num, n_classes: usize, n_nodes: usize, n_choices: usize, n_base: usize) -> (r: bool)
    requires
        n_nodes * n_classes <= usize::MAX,
    ensures
        r == (!smooth.at_most(Num { bits: 0 }) && n_classes >= 3 && n_choices == n_nodes && n_base == n_nodes
            * n_classes),
{
    let zero: Num = Num { bits: 0 };
    !smooth.le(&zero) && n_classes >= 3 && n_choices == n_nodes && n_base == n_nodes * n_classes
}

/// The values of a lookup: what was solved for a bin, and the base value for
/// the others.
pub open spec fn lookup_values(base: Num, solved: Seq<Option<Num>>) -> Seq<Num> {
    Seq::new(
        solved.len(),
        |b: int|
            match solved[b] {
                Some(v) => v,
                None => base,
            },
    )
}

/// The lookup of one class at a leaf.
pub fn joint_lookup(choice: &GuidedCatChoice, base: &Num, solved: &Vec<Option<Num>>) -> (r: CatLookup)
    ensures
        r.feature == choice.feature,
        r.feature2 == choice.feature2,
        r.feature3 == choice.feature3,
        r.pair_stride == choice.pair_stride,
        r.triple_stride == choice.triple_stride,
        r.default_value == *base,
        !r.is_numeric,
        r.n_coarse_bins == 0,
        r.bin_values@ == lookup_values(*base, solved@),
{
    let mut values: Vec<Num> = Vec::new();
    let mut b: usize = 0;
    while b < solved.len()
        invariant
            b <= solved@.len(),
            values@.len() == b,
            forall|k: int| 0 <= k < b ==> #[trigger] values@[k] == lookup_values(*base, solved@)[k],
        decreases solved@.len() - b,
    {
        match solved[b] {
            Some(v) => values.push(v),
            None => values.push(*base),
        }
        b = b + 1;
    }
    assert(values@ =~= lookup_values(*base, solved@));
    CatLookup {
        feature: choice.feature,
        feature2: choice.feature2,
        feature3: choice.feature3,
        bin_values: values,
        default_value: *base,
        is_numeric: false,
        n_coarse_bins: 0,
        pair_stride: choice.pair_stride,
        triple_stride: choice.triple_stride,
    }
}

/// Lookups are made on the categories with two bins or more, in leaves with rows enough:
/// eight, and two for each class; triples ask for forty-eight, and sixteen for each class.
pub proof fn law_lookups_need_bins_and_rows(tree: DecisionTree, data: BinnedData, list: Seq<u32>, n_classes: int, f: usize)
    requires
        tree.size() <= usize::MAX,
        0 <= n_classes,
    ensures
        kept_indices(lookup_flags(data)).contains(f) <==> {
            &&& f < data.n_features
            &&& f < data.cll_is_categorical@.len() && data.cll_is_categorical@[f as int]
            &&& f < data.cll_n_bins@.len() && data.cll_n_bins@[f as int] > 1
        },
        kept_indices(qualifying(tree, data, list, n_classes)).contains(f) <==> {
            &&& f < tree.size()
            &&& tree.is_leaf(f as int)
            &&& rows_ending(tree, data, list, f as int).len() >= 8
            &&& rows_ending(tree, data, list, f as int).len() >= n_classes + n_classes
        },
        f >= least_triple_rows(n_classes) <==> f >= 48 && f >= 16 * n_classes,
{
    crate::select::law_kept_are_those_marked(lookup_flags(data), f);
    crate::select::law_kept_are_those_marked(qualifying(tree, data, list, n_classes), f);
}

/// Pairs of categories have a bin for every combination up to two hundred and fifty-six of
/// them; beyond that they share between eight and thirty-two bins, one for ten rows.
pub proof fn law_pairs_are_laid_out_exactly(n_i: int, n_j: int, n_samples: int)
    requires
        0 < n_i,
        0 < n_j,
        0 <= n_samples,
    ensures
        ({
            let (bins, stride) = pair_layout(n_i, n_j, n_samples);
            &&& n_i * n_j <= 256 ==> bins == n_i * n_j && stride == n_j
            &&& n_i * n_j > 256 ==> stride == 0 && 8 <= bins <= 32
            &&& n_i * n_j > 256 && 80 <= n_samples < 330 ==> 10 * bins <= n_samples < 10 * (bins + 1)
            &&& n_i * n_j > 256 && n_samples < 80 ==> bins == 8
            &&& n_i * n_j > 256 && n_samples >= 330 ==> bins == 32
        }),
{
}

/// A row has no bin exactly where one of the categories that are looked up is missing; a
/// single category is its own bin, and one beyond the bins has none.
pub proof fn law_missing_categories_have_no_bin(data: BinnedData, choice: GuidedCatChoice, row: int)
    ensures
        data.cll_hash_bins@[choice.feature * data.n_rows + row] == data.missing_bin ==> row_bin(data, choice, row)
            is None,
        choice.feature2 != u32::MAX && data.cll_hash_bins@[choice.feature2 * data.n_rows + row] == data.missing_bin
            ==> row_bin(data, choice, row) is None,
        choice.feature2 != u32::MAX && choice.feature3 != u32::MAX && data.cll_hash_bins@[choice.feature3 * data.n_rows
            + row] == data.missing_bin ==> row_bin(data, choice, row) is None,
        choice.feature2 == u32::MAX && data.cll_hash_bins@[choice.feature * data.n_rows + row] != data.missing_bin
            && data.cll_hash_bins@[choice.feature * data.n_rows + row] < choice.n_bins ==> row_bin(data, choice, row)
            == Some(data.cll_hash_bins@[choice.feature * data.n_rows + row] as int),
        choice.feature2 == u32::MAX && data.cll_hash_bins@[choice.feature * data.n_rows + row] >= choice.n_bins
            && choice.n_bins > 0 ==> row_bin(data, choice, row) is None,
        choice.feature2 != u32::MAX && data.cll_hash_bins@[choice.feature * data.n_rows + row] != data.missing_bin
            && data.cll_hash_bins@[choice.feature2 * data.n_rows + row] != data.missing_bin && (choice.feature3
            == u32::MAX || data.cll_hash_bins@[choice.feature3 * data.n_rows + row] != data.missing_bin) ==> row_bin(
            data,
            choice,
            row,
        ) is Some,
{
}

/// A pair that is laid out exactly tells its combinations apart: two rows have the same bin
/// exactly where they agree in both categories, and every bin is within the range.
pub proof fn law_exact_pairs_tell_rows_apart(data: BinnedData, fi: usize, fj: usize, n_samples: int, r: int, s: int)
    requires
        fi < u32::MAX,
        fj < u32::MAX,
        bins_in(data, fi as int) * bins_in(data, fj as int) <= 256,
        data.cat_bin(r, fi as int) < bins_in(data, fi as int),
        data.cat_bin(s, fi as int) < bins_in(data, fi as int),
        data.cat_bin(r, fj as int) < bins_in(data, fj as int),
        data.cat_bin(s, fj as int) < bins_in(data, fj as int),
        data.cat_bin(r, fi as int) != data.missing_bin,
        data.cat_bin(s, fi as int) != data.missing_bin,
        data.cat_bin(r, fj as int) != data.missing_bin,
        data.cat_bin(s, fj as int) != data.missing_bin,
    ensures
        ({
            let choice = pair_choice(data, fi, fj, n_samples);
            &&& row_bin(data, choice, r) is Some
            &&& 0 <= row_bin(data, choice, r)->0 < choice.n_bins
            &&& row_bin(data, choice, r) == row_bin(data, choice, s) <==> data.cat_bin(r, fi as int) == data.cat_bin(
                s,
                fi as int,
            ) && data.cat_bin(r, fj as int) == data.cat_bin(s, fj as int)
        }),
{
    let n_i = bins_in(data, fi as int);
    let n_j = bins_in(data, fj as int);
    let choice = pair_choice(data, fi, fj, n_samples);
    assert(n_j <= 256 && n_i * n_j >= 1) by (nonlinear_arith)
        requires
            n_i >= 1,
            n_j >= 1,
            n_i * n_j <= 256,
    ;
    assert(choice.pair_stride == n_j);
    assert(choice.n_bins == n_i * n_j);
    let a1 = data.cat_bin(r, fi as int) as int;
    let a2 = data.cat_bin(r, fj as int) as int;
    let b1 = data.cat_bin(s, fi as int) as int;
    let b2 = data.cat_bin(s, fj as int) as int;
    law_pair_bins_in_range(a1, a2, n_i, n_j);
    assert(row_bin(data, choice, r) == Some(a1 * n_j + a2));
    assert(row_bin(data, choice, s) == Some(b1 * n_j + b2));
    if a1 * n_j + a2 == b1 * n_j + b2 {
        law_exact_pairs_are_distinct(a1, a2, b1, b2, n_j);
    }
}

/// The same of triples, which are only made where they can be laid out exactly.
pub proof fn law_exact_triples_tell_rows_apart(data: BinnedData, a: usize, b: usize, c: usize, r: int, s: int)
    requires
        a < u32::MAX,
        b < u32::MAX,
        c < u32::MAX,
        triple_bins(data, a as int, b as int, c as int) <= 256,
        data.cat_bin(r, a as int) < bins_in(data, a as int),
        data.cat_bin(s, a as int) < bins_in(data, a as int),
        data.cat_bin(r, b as int) < bins_in(data, b as int),
        data.cat_bin(s, b as int) < bins_in(data, b as int),
        data.cat_bin(r, c as int) < bins_in(data, c as int),
        data.cat_bin(s, c as int) < bins_in(data, c as int),
        data.cat_bin(r, a as int) != data.missing_bin,
        data.cat_bin(s, a as int) != data.missing_bin,
        data.cat_bin(r, b as int) != data.missing_bin,
        data.cat_bin(s, b as int) != data.missing_bin,
        data.cat_bin(r, c as int) != data.missing_bin,
        data.cat_bin(s, c as int) != data.missing_bin,
    ensures
        ({
            let choice = triple_choice(data, a, b, c);
            &&& row_bin(data, choice, r) is Some
            &&& 0 <= row_bin(data, choice, r)->0 < choice.n_bins
            &&& row_bin(data, choice, r) == row_bin(data, choice, s) <==> data.cat_bin(r, a as int) == data.cat_bin(
                s,
                a as int,
            ) && data.cat_bin(r, b as int) == data.cat_bin(s, b as int) && data.cat_bin(r, c as int) == data.cat_bin(
                s,
                c as int,
            )
        }),
{
    let n_a = bins_in(data, a as int);
    let n_b = bins_in(data, b as int);
    let n_c = bins_in(data, c as int);
    let choice = triple_choice(data, a, b, c);
    assert(n_b <= 256 && n_c <= 256 && n_a * n_b >= 1 && n_a * n_b * n_c >= 1) by (nonlinear_arith)
        requires
            n_a >= 1,
            n_b >= 1,
            n_c >= 1,
            n_a * n_b * n_c <= 256,
    ;
    let r1 = data.cat_bin(r, a as int) as int;
    let r2 = data.cat_bin(r, b as int) as int;
    let r3 = data.cat_bin(r, c as int) as int;
    let s1 = data.cat_bin(s, a as int) as int;
    let s2 = data.cat_bin(s, b as int) as int;
    let s3 = data.cat_bin(s, c as int) as int;
    law_pair_bins_in_range(r1, r2, n_a, n_b);
    law_pair_bins_in_range(r1 * n_b + r2, r3, n_a * n_b, n_c);
    assert(row_bin(data, choice, r) == Some((r1 * n_b + r2) * n_c + r3));
    assert(row_bin(data, choice, s) == Some((s1 * n_b + s2) * n_c + s3));
    if (r1 * n_b + r2) * n_c + r3 == (s1 * n_b + s2) * n_c + s3 {
        law_exact_pairs_are_distinct(r1 * n_b + r2, r3, s1 * n_b + s2, s3, n_c);
        law_exact_pairs_are_distinct(r1, r2, s1, s2, n_b);
    }
}

/// Tuples that share bins still have one within the range.
pub proof fn law_shared_bins_are_in_range(data: BinnedData, choice: GuidedCatChoice, row: int)
    requires
        choice.feature2 != u32::MAX,
        choice.pair_stride == 0,
        choice.n_bins > 0,
    ensures
        row_bin(data, choice, row) matches Some(b) ==> 0 <= b < choice.n_bins,
{
}

/// A leaf gets the tuple that gains most, and among equal gains the one of fewer features:
/// a pair only where it beats the single category, and a triple only where it beats both.
pub proof fn law_leaves_get_the_highest_gain(
    single: GuidedCatChoice,
    single_gain: Num,
    pairs: ScoredTuples,
    triples: ScoredTuples,
    pair: Option<usize>,
    triple: Option<usize>,
    r: GuidedCatChoice,
)
    requires
        is_leaf_choice(single, single_gain, pairs, triples, pair, triple, r),
        !single_gain.nan(),
        pair matches Some(p) ==> !pairs.gains@[p as int].nan(),
        triple matches Some(t) ==> !triples.gains@[t as int].nan(),
    ensures
        ({
            let beats_single = pair matches Some(p) && single_gain.key() < pairs.gains@[p as int].key();
            let beats_both = triple matches Some(t) && single_gain.key() < triples.gains@[t as int].key() && (
            pair matches Some(p) ==> pairs.gains@[p as int].key() < triples.gains@[t as int].key()) && (pair is None
                ==> 0 < triples.gains@[t as int].key());
            &&& beats_both ==> r == triples.choices@[triple->0 as int]
            &&& !beats_both && beats_single ==> r == pairs.choices@[pair->0 as int]
            &&& !beats_both && !beats_single ==> r == single
        }),
{
}

/// A bin is active unless its mass lies below the least, and a tuple is looked at only
/// with active bins enough and a finite gain; a single category also has to gain.
pub proof fn law_gains_need_active_bins(mass: Seq<Num>, least: Num, gains: Seq<Num>, active: Seq<usize>, few: int, i: usize)
    requires
        mass.len() <= usize::MAX,
        gains.len() <= usize::MAX,
        least.finite(),
    ensures
        i < mass.len() && mass[i as int].finite() ==> (kept_indices(active_flags(mass, least)).contains(i)
            <==> mass[i as int].scaled() >= least.scaled()),
        kept_indices(gaining(gains, active, few)).contains(i) <==> i < gains.len() && active[i as int] >= few && 0
            < gains[i as int].bits < 0x7ff0_0000_0000_0000,
        i < gains.len() ==> (eligible(gains, active, few)[i as int] <==> active[i as int] >= few
            && gains[i as int].finite()),
        forall|n: int| n > 12 && gains.len() >= 6 ==> #[trigger] single_limit(n, gains.len() as int) == 6,
        forall|n: int| n <= 12 ==> #[trigger] single_limit(n, gains.len() as int) == gains.len(),
{
    crate::select::law_kept_are_those_marked(active_flags(mass, least), i);
    crate::select::law_kept_are_those_marked(gaining(gains, active, few), i);
    if i < mass.len() && mass[i as int].finite() {
        crate::num::law_key_orders_values(mass[i as int], least);
    }
}

/// A lookup holds what was solved for each bin, and the leaf's own value elsewhere.
pub proof fn law_unsolved_bins_keep_the_leaf(base: Num, solved: Seq<Option<Num>>, b: int)
    requires
        0 <= b < solved.len(),
    ensures
        lookup_values(base, solved).len() == solved.len(),
        solved[b] is None ==> lookup_values(base, solved)[b] == base,
        solved[b] is Some ==> solved[b] == Some(lookup_values(base, solved)[b]),
{
}

/// Triples are kept exactly where they can be laid out without sharing bins.
pub proof fn law_triples_are_kept_exact(data: BinnedData, features: Seq<usize>, list: Seq<(usize, usize, usize)>, p: usize)
    requires
        list.len() <= usize::MAX,
    ensures
        kept_indices(exact_triples(data, features, list)).contains(p) <==> p < list.len() && triple_bins(
            data,
            features[list[p as int].0 as int] as int,
            features[list[p as int].1 as int] as int,
            features[list[p as int].2 as int] as int,
        ) <= 256,
        forall|f: int|
            data.cll_n_bins@[f] >= 1 ==> #[trigger] bins_in(data, f) == data.cll_n_bins@[f],
        forall|f: int| #[trigger] bins_in(data, f) >= 1,
{
    crate::select::law_kept_are_those_marked(exact_triples(data, features, list), p);
}

/// A choice reads the features it was made for, in their order, and no other.
pub proof fn law_choices_read_their_features(data: BinnedData, a: usize, b: usize, c: usize, n_samples: int)
    requires
        a < u32::MAX,
        b < u32::MAX,
        c < u32::MAX,
    ensures
        single_choice(data, a).feature == a && single_choice(data, a).feature2 == u32::MAX && single_choice(data, a).feature3
            == u32::MAX,
        pair_choice(data, a, b, n_samples).feature == a && pair_choice(data, a, b, n_samples).feature2 == b
            && pair_choice(data, a, b, n_samples).feature3 == u32::MAX,
        triple_choice(data, a, b, c).feature == a && triple_choice(data, a, b, c).feature2 == b && triple_choice(
            data,
            a,
            b,
            c,
        ).feature3 == c,
        single_choice(data, a).pair_stride == 0 && single_choice(data, a).triple_stride == 0,
        pair_choice(data, a, b, n_samples).triple_stride == 0,
        data.cll_n_bins@[a as int] >= 1 ==> single_choice(data, a).n_bins == data.cll_n_bins@[a as int],
{
}

} // verus!
