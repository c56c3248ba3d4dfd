//! The order of the columns that are derived from the raw features.

use vstd::prelude::*;

verus! {

/// A part of the target statistics of a table.
#[derive(Clone, Copy, PartialEq, Eq, Structural, Debug)]
pub enum CtrPart {
    Encoding,
    Count,
    Residual,
}

/// A derived column.
#[derive(Clone, Copy, PartialEq, Eq, Structural, Debug)]
pub enum DerivedColumn {
    /// The product of a pair of numeric features.
    Product(usize),
    /// The bucket of a pair of categories.
    Bucket(usize),
    /// Target statistics of a category.
    Single(usize, CtrPart),
    /// Target statistics of a pair of categories.
    Pair(usize, CtrPart),
    /// Target statistics of a triple of categories.
    Triple(usize, CtrPart),
    /// Evidence of category tuples.
    Evidence(usize),
    /// Evidence of category tuples on residuals.
    ResidualEvidence(usize),
    /// A feature that was mined from the raw ones.
    Virtual(usize),
}

/// How many derived columns there are of each sort; tables for target statistics.
pub struct DerivedCounts {
    pub products: usize,
    pub buckets: usize,
    pub singles: usize,
    pub pairs: usize,
    pub triples: usize,
    pub evidence: usize,
    pub residual: usize,
    pub virtuals: usize,
}

/// The part in place `i` of a table with three.
pub open spec fn part_of_three(i: int) -> CtrPart {
    if i == 0 {
        CtrPart::Encoding
    } else if i == 1 {
        CtrPart::Count
    } else {
        CtrPart::Residual
    }
}

impl DerivedCounts {
    pub open spec fn product_columns(&self) -> Seq<DerivedColumn> {
        Seq::new(self.products as nat, |i: int| DerivedColumn::Product(i as usize))
    }

    pub open spec fn bucket_columns(&self) -> Seq<DerivedColumn> {
        Seq::new(self.buckets as nat, |i: int| DerivedColumn::Bucket(i as usize))
    }

    pub open spec fn single_columns(&self) -> Seq<DerivedColumn> {
        Seq::new(
            (2 * self.singles) as nat,
            |i: int|
                DerivedColumn::Single(
                    (i / 2) as usize,
                    if i % 2 == 0 {
                        CtrPart::Encoding
                    } else {
                        CtrPart::Count
                    },
                ),
        )
    }

    pub open spec fn pair_columns(&self) -> Seq<DerivedColumn> {
        Seq::new((3 * self.pairs) as nat, |i: int| DerivedColumn::Pair((i / 3) as usize, part_of_three(i % 3)))
    }

    pub open spec fn triple_columns(&self) -> Seq<DerivedColumn> {
        Seq::new((3 * self.triples) as nat, |i: int| DerivedColumn::Triple((i / 3) as usize, part_of_three(i % 3)))
    }

    pub open spec fn evidence_columns(&self) -> Seq<DerivedColumn> {
        Seq::new(self.evidence as nat, |i: int| DerivedColumn::Evidence(i as usize))
    }

    pub open spec fn residual_columns(&self) -> Seq<DerivedColumn> {
        Seq::new(self.residual as nat, |i: int| DerivedColumn::ResidualEvidence(i as usize))
    }

    pub open spec fn virtual_columns(&self) -> Seq<DerivedColumn> {
        Seq::new(self.virtuals as nat, |i: int| DerivedColumn::Virtual(i as usize))
    }

    /// The columns that rows are extended by before they are predicted.
    pub open spec fn row_columns(&self) -> Seq<DerivedColumn> {
        self.product_columns() + self.bucket_columns() + self.single_columns() + self.pair_columns()
            + self.triple_columns() + self.evidence_columns() + self.residual_columns()
    }

    /// The columns that are added to the bins of the training and evaluation rows.
    pub open spec fn bin_columns(&self) -> Seq<DerivedColumn> {
        self.row_columns() + self.virtual_columns()
    }

    /// The derived columns in order; `with_virtuals` for the bins of the
    /// training and evaluation rows.
    pub fn derived_columns(&self, with_virtuals: bool) -> (list: Vec<DerivedColumn>)
        ensures
            list@ == if with_virtuals {
                self.bin_columns()
            } else {
                self.row_columns()
            },
    {
        let mut list: Vec<DerivedColumn> = Vec::new();
        let mut i: usize = 0;
        while i < self.products
            invariant
                i <= self.products,
                list@ == self.product_columns().take(i as int),
            decreases self.products - i,
        {
            list.push(DerivedColumn::Product(i));
            i = i + 1;
            assert(list@ =~= self.product_columns().take(i as int));
        }
        let ghost base = list@;
        assert(base =~= self.product_columns());
        i = 0;
        while i < self.buckets
            invariant
                i <= self.buckets,
                list@ == base + self.bucket_columns().take(i as int),
            decreases self.buckets - i,
        {
            list.push(DerivedColumn::Bucket(i));
            i = i + 1;
            assert(list@ =~= base + self.bucket_columns().take(i as int));
        }
        assert(list@ =~= base + self.bucket_columns());
        let ghost base = list@;
        i = 0;
        while i < self.singles
            invariant
                i <= self.singles,
                list@ == base + self.single_columns().take(2 * i),
            decreases self.singles - i,
        {
            list.push(DerivedColumn::Single(i, CtrPart::Encoding));
            list.push(DerivedColumn::Single(i, CtrPart::Count));
            i = i + 1;
            assert(list@ =~= base + self.single_columns().take(2 * i));
        }
        assert(list@ =~= base + self.single_columns());
        let ghost base = list@;
        i = 0;
        while i < self.pairs
            invariant
                i <= self.pairs,
                list@ == base + self.pair_columns().take(3 * i),
            decreases self.pairs - i,
        {
            list.push(DerivedColumn::Pair(i, CtrPart::Encoding));
            list.push(DerivedColumn::Pair(i, CtrPart::Count));
            list.push(DerivedColumn::Pair(i, CtrPart::Residual));
            i = i + 1;
            assert(list@ =~= base + self.pair_columns().take(3 * i));
        }
        assert(list@ =~= base + self.pair_columns());
        let ghost base = list@;
        i = 0;
        while i < self.triples
            invariant
                i <= self.triples,
                list@ == base + self.triple_columns().take(3 * i),
            decreases self.triples - i,
        {
            list.push(DerivedColumn::Triple(i, CtrPart::Encoding));
            list.push(DerivedColumn::Triple(i, CtrPart::Count));
            list.push(DerivedColumn::Triple(i, CtrPart::Residual));
            i = i + 1;
            assert(list@ =~= base + self.triple_columns().take(3 * i));
        }
        assert(list@ =~= base + self.triple_columns());
        let ghost base = list@;
        i = 0;
        while i < self.evidence
            invariant
                i <= self.evidence,
                list@ == base + self.evidence_columns().take(i as int),
            decreases self.evidence - i,
        {
            list.push(DerivedColumn::Evidence(i));
            i = i + 1;
            assert(list@ =~= base + self.evidence_columns().take(i as int));
        }
        assert(list@ =~= base + self.evidence_columns());
        let ghost base = list@;
        i = 0;
        while i < self.residual
            invariant
                i <= self.residual,
                list@ == base + self.residual_columns().take(i as int),
            decreases self.residual - i,
        {
            list.push(DerivedColumn::ResidualEvidence(i));
            i = i + 1;
            assert(list@ =~= base + self.residual_columns().take(i as int));
        }
        assert(list@ =~= base + self.residual_columns());
        assert(list@ =~= self.row_columns());
        if with_virtuals {
            i = 0;
            while i < self.virtuals
                invariant
                    i <= self.virtuals,
                    list@ == self.row_columns() + self.virtual_columns().take(i as int),
                decreases self.virtuals - i,
            {
                list.push(DerivedColumn::Virtual(i));
                i = i + 1;
                assert(list@ =~= self.row_columns() + self.virtual_columns().take(i as int));
            }
            assert(list@ =~= self.bin_columns());
        }
        list
    }
}

/// Mined features are the last columns, so what rows are extended by stays
/// aligned with the columns of the training bins.
pub proof fn law_columns_stay_aligned(counts: DerivedCounts, c: int)
    requires
        0 <= c < counts.row_columns().len(),
    ensures
        counts.bin_columns()[c] == counts.row_columns()[c],
        counts.bin_columns().len() == counts.row_columns().len() + counts.virtuals,
{
}

/// Whether both features of a pair are listed.
pub open spec fn pair_among(pair: (u32, u32), features: Seq<usize>) -> bool {
    features.contains(pair.0 as usize) && features.contains(pair.1 as usize)
}

fn lists(features: &Vec<usize>, f: usize) -> (r: bool)
    ensures
        r == features@.contains(f),
{
    let mut i: usize = 0;
    while i < features.len()
        invariant
            i <= features@.len(),
            forall|k: int| 0 <= k < i ==> #[trigger] features@[k] != f,
        decreases features@.len() - i,
    {
        if features[i] == f {
            return true;
        }
        i = i + 1;
    }
    false
}

/// The positions of the pairs whose features are both listed.
pub fn pairs_among(pairs: &Vec<(u32, u32)>, features: &Vec<usize>) -> (list: Vec<usize>)
    ensures
        list@ == crate::select::kept_indices(Seq::new(pairs@.len(), |i: int| pair_among(pairs@[i], features@))),
{
    let mut flags: Vec<bool> = Vec::new();
    let mut i: usize = 0;
    while i < pairs.len()
        invariant
            i <= pairs@.len(),
            flags@.len() == i,
            forall|k: int| 0 <= k < i ==> #[trigger] flags@[k] == pair_among(pairs@[k], features@),
        decreases pairs@.len() - i,
    {
        let (a, b) = pairs[i];
        flags.push(lists(features, a as usize) && lists(features, b as usize));
        i = i + 1;
    }
    assert(flags@ =~= Seq::new(pairs@.len(), |i: int| pair_among(pairs@[i], features@)));
    crate::select::collect_kept(&flags)
}

/// The derived columns stand sort by sort: products, buckets, single categories with two
/// columns each, pairs and triples with three, evidence, and evidence on residuals; and
/// within a sort one after another.
pub proof fn law_columns_stand_sort_by_sort(counts: DerivedCounts, i: int)
    requires
        0 <= i,
    ensures
        ({
            let cols = counts.row_columns();
            let b = counts.products as int;
            let s = b + counts.buckets;
            let p = s + 2 * counts.singles;
            let t = p + 3 * counts.pairs;
            let e = t + 3 * counts.triples;
            let r = e + counts.evidence;
            &&& cols.len() == r + counts.residual
            &&& i < counts.products ==> cols[i] == DerivedColumn::Product(i as usize)
            &&& i < counts.buckets ==> cols[b + i] == DerivedColumn::Bucket(i as usize)
            &&& i < counts.singles ==> cols[s + 2 * i] == DerivedColumn::Single(i as usize, CtrPart::Encoding)
                && cols[s + 2 * i + 1] == DerivedColumn::Single(i as usize, CtrPart::Count)
            &&& i < counts.pairs ==> cols[p + 3 * i] == DerivedColumn::Pair(i as usize, CtrPart::Encoding) && cols[p + 3
                * i + 1] == DerivedColumn::Pair(i as usize, CtrPart::Count) && cols[p + 3 * i + 2]
                == DerivedColumn::Pair(i as usize, CtrPart::Residual)
            &&& i < counts.triples ==> cols[t + 3 * i] == DerivedColumn::Triple(i as usize, CtrPart::Encoding) && cols[t
                + 3 * i + 1] == DerivedColumn::Triple(i as usize, CtrPart::Count) && cols[t + 3 * i + 2]
                == DerivedColumn::Triple(i as usize, CtrPart::Residual)
            &&& i < counts.evidence ==> cols[e + i] == DerivedColumn::Evidence(i as usize)
            &&& i < counts.residual ==> cols[r + i] == DerivedColumn::ResidualEvidence(i as usize)
            &&& i < counts.virtuals ==> counts.bin_columns()[cols.len() + i] == DerivedColumn::Virtual(i as usize)
        }),
{
}

/// A pair is kept exactly where both its features are.
pub proof fn law_pairs_need_both_features(pairs: Seq<(u32, u32)>, features: Seq<usize>, i: usize)
    requires
        pairs.len() <= usize::MAX,
    ensures
        crate::select::kept_indices(Seq::new(pairs.len(), |k: int| pair_among(pairs[k], features))).contains(i) <==> i
            < pairs.len() && features.contains(pairs[i as int].0 as usize) && features.contains(
            pairs[i as int].1 as usize,
        ),
{
    crate::select::law_kept_are_those_marked(Seq::new(pairs.len(), |k: int| pair_among(pairs[k], features)), i);
}

} // verus!
