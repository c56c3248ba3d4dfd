//! Fitted target-statistic tables and their columns for new rows.

use crate::ctr::{cell_key, matrix_holds, read_key};
use crate::hashing::{ctr_pair_key, ctr_triple_key, pair_key, single_key, triple_key};
use crate::num::Num;
use crate::select::{collect_kept, kept_indices, lemma_kept_indices};
use std::collections::HashMap;
use vstd::prelude::*;

verus! {

broadcast use vstd::std_specs::hash::group_hash_axioms;

/// The entry of a table, or a default where the key has none.
pub open spec fn looked_up(table: Map<i64, Num>, key: i64, default: Num) -> Num {
    if table.contains_key(key) {
        table[key]
    } else {
        default
    }
}

pub fn look_up(table: &HashMap<i64, Num>, key: i64, default: &Num) -> (r: Num)
    ensures
        r == looked_up(table@, key, *default),
{
    match table.get(&key) {
        Some(v) => *v,
        None => *default,
    }
}

/// The first position of `f` in a list.
pub open spec fn position_of(list: Seq<usize>, f: usize) -> Option<int>
    decreases list.len(),
{
    if list.len() == 0 {
        None
    } else {
        match position_of(list.drop_last(), f) {
            Some(p) => Some(p),
            None => if list.last() == f {
                Some(list.len() - 1)
            } else {
                None
            },
        }
    }
}

pub fn position(list: &Vec<usize>, f: usize) -> (r: Option<usize>)
    ensures
        r matches Some(p) ==> position_of(list@, f) == Some(p as int) && p < list@.len() && list@[p as int] == f,
        r is None ==> position_of(list@, f) is None,
{
    let mut found: Option<usize> = None;
    let mut i: usize = 0;
    assert(list@.take(0) =~= Seq::empty());
    while i < list.len()
        invariant
            i <= list@.len(),
            found matches Some(p) ==> position_of(list@.take(i as int), f) == Some(p as int) && p < i && list@[p as int] == f,
            found is None ==> position_of(list@.take(i as int), f) is None,
        decreases list@.len() - i,
    {
        assert(list@.take(i + 1).drop_last() =~= list@.take(i as int));
        assert(list@.take(i + 1).last() == list@[i as int]);
        if found.is_none() && list[i] == f {
            found = Some(i);
        }
        i = i + 1;
    }
    assert(list@.take(list@.len() as int) =~= list@);
    found
}

/// The tables of a fitted model: encodings and counts by key, for single
/// features, pairs and triples.
#[derive(Clone)]
pub struct CtrTables {
    pub prior: Num,
    pub features: Vec<usize>,
    pub priors: Vec<Num>,
    pub maps: Vec<HashMap<i64, Num>>,
    pub count_maps: Vec<HashMap<i64, Num>>,
    pub pair_features: Vec<(usize, usize)>,
    pub pair_maps: Vec<HashMap<i64, Num>>,
    pub pair_count_maps: Vec<HashMap<i64, Num>>,
    pub triple_features: Vec<(usize, usize, usize)>,
    pub triple_maps: Vec<HashMap<i64, Num>>,
    pub triple_count_maps: Vec<HashMap<i64, Num>>,
}

/// The count that a table of counts gives, zero where there is no table or entry.
pub open spec fn count_at(tables: Seq<HashMap<i64, Num>>, t: int, key: i64) -> Num {
    if t < tables.len() {
        looked_up(tables[t]@, key, Num { bits: 0 })
    } else {
        Num { bits: 0 }
    }
}

fn read_count(tables: &Vec<HashMap<i64, Num>>, t: usize, key: i64) -> (r: Num)
    ensures
        r == count_at(tables@, t as int, key),
{
    let zero: Num = Num { bits: 0 };
    if t < tables.len() {
        look_up(&tables[t], key, &zero)
    } else {
        zero
    }
}

/// A fitted tuple of one, two or three features: its table, and the columns of
/// the training rows.
pub struct FittedTuple {
    pub members: Vec<usize>,
    pub prior: Num,
    pub encodings: HashMap<i64, Num>,
    pub counts: HashMap<i64, Num>,
    pub encoding: Vec<Num>,
    pub count: Vec<Num>,
    pub residual: Vec<Num>,
}

/// The columns of one single-feature table.
pub struct SingleColumns {
    pub table: usize,
    pub encoding: Vec<Num>,
    pub count: Vec<Num>,
}

/// The columns of one pair table: beside its encoding and count, the encodings
/// of its two features, against which the pair's residual is taken.
pub struct PairColumns {
    pub table: usize,
    pub encoding: Vec<Num>,
    pub count: Vec<Num>,
    pub first: Vec<Num>,
    pub second: Vec<Num>,
}

/// The columns of one triple table, with the encodings of its three features.
pub struct TripleColumns {
    pub table: usize,
    pub encoding: Vec<Num>,
    pub count: Vec<Num>,
    pub first: Vec<Num>,
    pub second: Vec<Num>,
    pub third: Vec<Num>,
}

/// The columns of new rows: single tables first, then pairs, then triples.
pub struct CtrColumns {
    pub singles: Vec<SingleColumns>,
    pub pairs: Vec<PairColumns>,
    pub triples: Vec<TripleColumns>,
}

impl CtrTables {
    /// No table.
    pub open spec fn empty(&self) -> bool {
        &&& self.prior.bits == 0
        &&& self.features@.len() == 0
        &&& self.priors@.len() == 0
        &&& self.maps@.len() == 0
        &&& self.count_maps@.len() == 0
        &&& self.pair_features@.len() == 0
        &&& self.pair_maps@.len() == 0
        &&& self.pair_count_maps@.len() == 0
        &&& self.triple_features@.len() == 0
        &&& self.triple_maps@.len() == 0
        &&& self.triple_count_maps@.len() == 0
    }

    pub fn none() -> (r: CtrTables)
        ensures
            r.empty(),
    {
        CtrTables {
            prior: Num { bits: 0 },
            features: Vec::new(),
            priors: Vec::new(),
            maps: Vec::new(),
            count_maps: Vec::new(),
            pair_features: Vec::new(),
            pair_maps: Vec::new(),
            pair_count_maps: Vec::new(),
            triple_features: Vec::new(),
            triple_maps: Vec::new(),
            triple_count_maps: Vec::new(),
        }
    }

    /// The columns that the tables give a row: an encoding and a count for each
    /// feature, and a residual too for each pair and each triple.
    pub open spec fn column_count(&self) -> nat {
        2 * self.features@.len() + 3 * self.pair_features@.len() + 3 * self.triple_features@.len()
    }

    /// Every feature, pair and triple has its table.
    pub open spec fn aligned(&self) -> bool {
        &&& self.priors@.len() == self.features@.len()
        &&& self.maps@.len() == self.features@.len()
        &&& self.count_maps@.len() == self.features@.len()
        &&& self.pair_maps@.len() == self.pair_features@.len()
        &&& self.pair_count_maps@.len() == self.pair_features@.len()
        &&& self.triple_maps@.len() == self.triple_features@.len()
        &&& self.triple_count_maps@.len() == self.triple_features@.len()
    }

    /// These tables are those of `before` with that of a fitted tuple behind them.
    pub open spec fn extends(&self, before: CtrTables, fitted: FittedTuple) -> bool {
        let m = fitted.members@;
        let single = m.len() == 1;
        let pair = m.len() == 2;
        let triple = m.len() == 3;
        &&& self.prior == before.prior
        &&& self.features@ == if single {
            before.features@.push(m[0])
        } else {
            before.features@
        }
        &&& self.priors@ == if single {
            before.priors@.push(fitted.prior)
        } else {
            before.priors@
        }
        &&& self.maps@ == if single {
            before.maps@.push(fitted.encodings)
        } else {
            before.maps@
        }
        &&& self.count_maps@ == if single {
            before.count_maps@.push(fitted.counts)
        } else {
            before.count_maps@
        }
        &&& self.pair_features@ == if pair {
            before.pair_features@.push((m[0], m[1]))
        } else {
            before.pair_features@
        }
        &&& self.pair_maps@ == if pair {
            before.pair_maps@.push(fitted.encodings)
        } else {
            before.pair_maps@
        }
        &&& self.pair_count_maps@ == if pair {
            before.pair_count_maps@.push(fitted.counts)
        } else {
            before.pair_count_maps@
        }
        &&& self.triple_features@ == if triple {
            before.triple_features@.push((m[0], m[1], m[2]))
        } else {
            before.triple_features@
        }
        &&& self.triple_maps@ == if triple {
            before.triple_maps@.push(fitted.encodings)
        } else {
            before.triple_maps@
        }
        &&& self.triple_count_maps@ == if triple {
            before.triple_count_maps@.push(fitted.counts)
        } else {
            before.triple_count_maps@
        }
    }

    /// Stores the table of a fitted tuple and gives the columns of the training
    /// rows: the encoding, the count and, but for a single feature, the residual.
    pub fn store(&mut self, fitted: FittedTuple) -> (columns: Vec<Vec<Num>>)
        requires
            1 <= fitted.members@.len() <= 3,
        ensures
            final(self).extends(*old(self), fitted),
            columns@ == training_columns(fitted),
    {
        let n: usize = fitted.members.len();
        let a: usize = fitted.members[0];
        let mut columns: Vec<Vec<Num>> = Vec::new();
        columns.push(fitted.encoding);
        columns.push(fitted.count);
        if n == 1 {
            self.features.push(a);
            self.priors.push(fitted.prior);
            self.maps.push(fitted.encodings);
            self.count_maps.push(fitted.counts);
        } else {
            let b: usize = fitted.members[1];
            columns.push(fitted.residual);
            if n == 2 {
                self.pair_features.push((a, b));
                self.pair_maps.push(fitted.encodings);
                self.pair_count_maps.push(fitted.counts);
            } else {
                self.triple_features.push((a, b, fitted.members[2]));
                self.triple_maps.push(fitted.encodings);
                self.triple_count_maps.push(fitted.counts);
            }
        }
        assert(columns@ =~= training_columns(fitted));
        columns
    }

    /// The prior of a single-feature table.
    pub open spec fn prior_of(&self, t: int) -> Num {
        if t < self.priors@.len() {
            self.priors@[t]
        } else {
            self.prior
        }
    }

    /// The encoding of a feature's key in its own single table.
    pub open spec fn parent_encoding(&self, feat: usize, key: i64) -> Num {
        match position_of(self.features@, feat) {
            Some(p) => if p < self.maps@.len() {
                looked_up(self.maps@[p]@, key, self.prior)
            } else {
                self.prior
            },
            None => self.prior,
        }
    }

    /// Which single tables apply to a matrix of `n_features` features.
    pub open spec fn single_flags(&self, n_features: int) -> Seq<bool> {
        Seq::new(self.features@.len(), |t: int| self.features@[t] < n_features && t < self.maps@.len())
    }

    pub open spec fn pair_flags(&self, n_features: int) -> Seq<bool> {
        Seq::new(
            self.pair_features@.len(),
            |t: int|
                self.pair_features@[t].0 < n_features && self.pair_features@[t].1 < n_features && t
                    < self.pair_maps@.len(),
        )
    }

    pub open spec fn triple_flags(&self, n_features: int) -> Seq<bool> {
        Seq::new(
            self.triple_features@.len(),
            |t: int|
                self.triple_features@[t].0 < n_features && self.triple_features@[t].1 < n_features
                    && self.triple_features@[t].2 < n_features && t < self.triple_maps@.len(),
        )
    }

    /// The columns of single table `t` over the rows of `x`.
    pub open spec fn single_columns(&self, c: SingleColumns, t: int, x: Seq<Num>, n_rows: int, n_features: int) -> bool {
        &&& c.table == t
        &&& c.encoding@.len() == n_rows
        &&& c.count@.len() == n_rows
        &&& forall|row: int|
            0 <= row < n_rows ==> {
                let key = cell_key(x, n_features, row, self.features@[t] as int);
                &&& #[trigger] c.encoding@[row] == looked_up(self.maps@[t]@, key, self.prior_of(t))
                &&& c.count@[row] == count_at(self.count_maps@, t, key)
            }
    }

    /// What pair table `t` gives a row: its encoding, its count, and the
    /// encodings of its two features.
    #[verifier::opaque]
    pub open spec fn pair_cell(&self, t: int, x: Seq<Num>, n_features: int, row: int) -> (Num, Num, Num, Num) {
        let fi = self.pair_features@[t].0;
        let fj = self.pair_features@[t].1;
        let a = cell_key(x, n_features, row, fi as int);
        let b = cell_key(x, n_features, row, fj as int);
        (
            looked_up(self.pair_maps@[t]@, pair_key(a, b), self.prior),
            count_at(self.pair_count_maps@, t, pair_key(a, b)),
            self.parent_encoding(fi, a),
            self.parent_encoding(fj, b),
        )
    }

    /// What triple table `t` gives a row: its encoding, its count, and the
    /// encodings of its three features.
    #[verifier::opaque]
    pub open spec fn triple_cell(&self, t: int, x: Seq<Num>, n_features: int, row: int) -> (Num, Num, Num, Num, Num) {
        let fa = self.triple_features@[t].0;
        let fb = self.triple_features@[t].1;
        let fc = self.triple_features@[t].2;
        let a = cell_key(x, n_features, row, fa as int);
        let b = cell_key(x, n_features, row, fb as int);
        let c = cell_key(x, n_features, row, fc as int);
        (
            looked_up(self.triple_maps@[t]@, triple_key(a, b, c), self.prior),
            count_at(self.triple_count_maps@, t, triple_key(a, b, c)),
            self.parent_encoding(fa, a),
            self.parent_encoding(fb, b),
            self.parent_encoding(fc, c),
        )
    }

    /// The columns of pair table `t` over the rows of `x`.
    pub open spec fn pair_columns(&self, c: PairColumns, t: int, x: Seq<Num>, n_rows: int, n_features: int) -> bool {
        &&& c.table == t
        &&& c.encoding@.len() == n_rows
        &&& c.count@.len() == n_rows
        &&& c.first@.len() == n_rows
        &&& c.second@.len() == n_rows
        &&& forall|row: int|
            0 <= row < n_rows ==> (#[trigger] c.encoding@[row], c.count@[row], c.first@[row], c.second@[row])
                == self.pair_cell(t, x, n_features, row)
    }

    /// The columns of triple table `t` over the rows of `x`.
    pub open spec fn triple_columns(&self, c: TripleColumns, t: int, x: Seq<Num>, n_rows: int, n_features: int) -> bool {
        &&& c.table == t
        &&& c.encoding@.len() == n_rows
        &&& c.count@.len() == n_rows
        &&& c.first@.len() == n_rows
        &&& c.second@.len() == n_rows
        &&& c.third@.len() == n_rows
        &&& forall|row: int|
            0 <= row < n_rows ==> (
                #[trigger] c.encoding@[row],
                c.count@[row],
                c.first@[row],
                c.second@[row],
                c.third@[row],
            ) == self.triple_cell(t, x, n_features, row)
    }

    fn read_parent(&self, place: Option<usize>, feat: usize, key: i64) -> (r: Num)
        requires
            place matches Some(p) ==> position_of(self.features@, feat) == Some(p as int),
            place is None ==> position_of(self.features@, feat) is None,
        ensures
            r == self.parent_encoding(feat, key),
    {
        match place {
            Some(p) => if p < self.maps.len() {
                look_up(&self.maps[p], key, &self.prior)
            } else {
                self.prior
            },
            None => self.prior,
        }
    }

    fn make_single(&self, t: usize, x: &Vec<Num>, n_rows: usize, n_features: usize) -> (c: SingleColumns)
        requires
            matrix_holds(x@, n_rows as int, n_features as int),
            t < self.features@.len(),
            t < self.maps@.len(),
            self.features@[t as int] < n_features,
        ensures
            self.single_columns(c, t as int, x@, n_rows as int, n_features as int),
    {
        let feat: usize = self.features[t];
        let prior: Num = if t < self.priors.len() { self.priors[t] } else { self.prior };
        let mut encoding: Vec<Num> = Vec::new();
        let mut count: Vec<Num> = Vec::new();
        let mut row: usize = 0;
        while row < n_rows
            invariant
                row <= n_rows,
                matrix_holds(x@, n_rows as int, n_features as int),
                t < self.features@.len(),
                t < self.maps@.len(),
                feat == self.features@[t as int],
                feat < n_features,
                prior == self.prior_of(t as int),
                encoding@.len() == row,
                count@.len() == row,
                forall|r: int|
                    0 <= r < row ==> {
                        let key = cell_key(x@, n_features as int, r, feat as int);
                        &&& #[trigger] encoding@[r] == looked_up(self.maps@[t as int]@, key, prior)
                        &&& count@[r] == count_at(self.count_maps@, t as int, key)
                    },
            decreases n_rows - row,
        {
            let key: i64 = read_key(x, n_rows, n_features, row, feat);
            encoding.push(look_up(&self.maps[t], key, &prior));
            count.push(read_count(&self.count_maps, t, key));
            row = row + 1;
        }
        SingleColumns { table: t, encoding, count }
    }

    fn read_pair(&self, t: usize, x: &Vec<Num>, n_rows: usize, n_features: usize, row: usize) -> (c: (Num, Num, Num, Num))
        requires
            matrix_holds(x@, n_rows as int, n_features as int),
            row < n_rows,
            t < self.pair_features@.len(),
            t < self.pair_maps@.len(),
            self.pair_features@[t as int].0 < n_features,
            self.pair_features@[t as int].1 < n_features,
        ensures
            c == self.pair_cell(t as int, x@, n_features as int, row as int),
    {
        proof {
            reveal(CtrTables::pair_cell);
        }
        let (fi, fj) = self.pair_features[t];
        let a: i64 = read_key(x, n_rows, n_features, row, fi);
        let b: i64 = read_key(x, n_rows, n_features, row, fj);
        let key: i64 = ctr_pair_key(a, b);
        (
            look_up(&self.pair_maps[t], key, &self.prior),
            read_count(&self.pair_count_maps, t, key),
            self.read_parent(position(&self.features, fi), fi, a),
            self.read_parent(position(&self.features, fj), fj, b),
        )
    }

    fn make_pair(&self, t: usize, x: &Vec<Num>, n_rows: usize, n_features: usize) -> (c: PairColumns)
        requires
            matrix_holds(x@, n_rows as int, n_features as int),
            t < self.pair_features@.len(),
            t < self.pair_maps@.len(),
            self.pair_features@[t as int].0 < n_features,
            self.pair_features@[t as int].1 < n_features,
        ensures
            self.pair_columns(c, t as int, x@, n_rows as int, n_features as int),
    {
        let mut encoding: Vec<Num> = Vec::new();
        let mut count: Vec<Num> = Vec::new();
        let mut first: Vec<Num> = Vec::new();
        let mut second: Vec<Num> = Vec::new();
        let mut row: usize = 0;
        while row < n_rows
            invariant
                row <= n_rows,
                matrix_holds(x@, n_rows as int, n_features as int),
                t < self.pair_features@.len(),
                t < self.pair_maps@.len(),
                self.pair_features@[t as int].0 < n_features,
                self.pair_features@[t as int].1 < n_features,
                encoding@.len() == row,
                count@.len() == row,
                first@.len() == row,
                second@.len() == row,
                forall|r: int|
                    0 <= r < row ==> (#[trigger] encoding@[r], count@[r], first@[r], second@[r]) == self.pair_cell(
                        t as int,
                        x@,
                        n_features as int,
                        r,
                    ),
            decreases n_rows - row,
        {
            let cell: (Num, Num, Num, Num) = self.read_pair(t, x, n_rows, n_features, row);
            encoding.push(cell.0);
            count.push(cell.1);
            first.push(cell.2);
            second.push(cell.3);
            row = row + 1;
        }
        PairColumns { table: t, encoding, count, first, second }
    }

    fn read_triple(&self, t: usize, x: &Vec<Num>, n_rows: usize, n_features: usize, row: usize) -> (c: (
        Num,
        Num,
        Num,
        Num,
        Num,
    ))
        requires
            matrix_holds(x@, n_rows as int, n_features as int),
            row < n_rows,
            t < self.triple_features@.len(),
            t < self.triple_maps@.len(),
            self.triple_features@[t as int].0 < n_features,
            self.triple_features@[t as int].1 < n_features,
            self.triple_features@[t as int].2 < n_features,
        ensures
            c == self.triple_cell(t as int, x@, n_features as int, row as int),
    {
        proof {
            reveal(CtrTables::triple_cell);
        }
        let (fa, fb, fc) = self.triple_features[t];
        let a: i64 = read_key(x, n_rows, n_features, row, fa);
        let b: i64 = read_key(x, n_rows, n_features, row, fb);
        let c: i64 = read_key(x, n_rows, n_features, row, fc);
        let key: i64 = ctr_triple_key(a, b, c);
        (
            look_up(&self.triple_maps[t], key, &self.prior),
            read_count(&self.triple_count_maps, t, key),
            self.read_parent(position(&self.features, fa), fa, a),
            self.read_parent(position(&self.features, fb), fb, b),
            self.read_parent(position(&self.features, fc), fc, c),
        )
    }

    fn make_triple(&self, t: usize, x: &Vec<Num>, n_rows: usize, n_features: usize) -> (c: TripleColumns)
        requires
            matrix_holds(x@, n_rows as int, n_features as int),
            t < self.triple_features@.len(),
            t < self.triple_maps@.len(),
            self.triple_features@[t as int].0 < n_features,
            self.triple_features@[t as int].1 < n_features,
            self.triple_features@[t as int].2 < n_features,
        ensures
            self.triple_columns(c, t as int, x@, n_rows as int, n_features as int),
    {
        let mut encoding: Vec<Num> = Vec::new();
        let mut count: Vec<Num> = Vec::new();
        let mut first: Vec<Num> = Vec::new();
        let mut second: Vec<Num> = Vec::new();
        let mut third: Vec<Num> = Vec::new();
        let mut row: usize = 0;
        while row < n_rows
            invariant
                row <= n_rows,
                matrix_holds(x@, n_rows as int, n_features as int),
                t < self.triple_features@.len(),
                t < self.triple_maps@.len(),
                self.triple_features@[t as int].0 < n_features,
                self.triple_features@[t as int].1 < n_features,
                self.triple_features@[t as int].2 < n_features,
                encoding@.len() == row,
                count@.len() == row,
                first@.len() == row,
                second@.len() == row,
                third@.len() == row,
                forall|r: int|
                    0 <= r < row ==> (#[trigger] encoding@[r], count@[r], first@[r], second@[r], third@[r])
                        == self.triple_cell(t as int, x@, n_features as int, r),
            decreases n_rows - row,
        {
            let cell: (Num, Num, Num, Num, Num) = self.read_triple(t, x, n_rows, n_features, row);
            encoding.push(cell.0);
            count.push(cell.1);
            first.push(cell.2);
            second.push(cell.3);
            third.push(cell.4);
            row = row + 1;
        }
        TripleColumns { table: t, encoding, count, first, second, third }
    }

    /// The columns of the rows of a row-major matrix: for each table that
    /// applies to it, in table order, singles before pairs before triples.
    pub fn ordered_ctr_columns_for_raw(&self, x: &Vec<Num>, n_rows: usize, n_features: usize) -> (r: CtrColumns)
        requires
            matrix_holds(x@, n_rows as int, n_features as int),
        ensures
            r.singles@.len() == kept_indices(self.single_flags(n_features as int)).len(),
            forall|p: int|
                0 <= p < r.singles@.len() ==> self.single_columns(
                    #[trigger] r.singles@[p],
                    kept_indices(self.single_flags(n_features as int))[p] as int,
                    x@,
                    n_rows as int,
                    n_features as int,
                ),
            r.pairs@.len() == kept_indices(self.pair_flags(n_features as int)).len(),
            forall|p: int|
                0 <= p < r.pairs@.len() ==> self.pair_columns(
                    #[trigger] r.pairs@[p],
                    kept_indices(self.pair_flags(n_features as int))[p] as int,
                    x@,
                    n_rows as int,
                    n_features as int,
                ),
            r.triples@.len() == kept_indices(self.triple_flags(n_features as int)).len(),
            forall|p: int|
                0 <= p < r.triples@.len() ==> self.triple_columns(
                    #[trigger] r.triples@[p],
                    kept_indices(self.triple_flags(n_features as int))[p] as int,
                    x@,
                    n_rows as int,
                    n_features as int,
                ),
    {
        let mut flags1: Vec<bool> = Vec::new();
        let mut t1: usize = 0;
        while t1 < self.features.len()
            invariant
                t1 <= self.features@.len(),
                flags1@.len() == t1,
                forall|k: int|
                    0 <= k < t1 ==> #[trigger] flags1@[k] == (self.features@[k] < n_features && k < self.maps@.len()),
            decreases self.features@.len() - t1,
        {
            flags1.push(self.features[t1] < n_features && t1 < self.maps.len());
            t1 = t1 + 1;
        }
        assert(flags1@ =~= self.single_flags(n_features as int));
        let list1: Vec<usize> = collect_kept(&flags1);
        proof {
            lemma_kept_indices(flags1@);
        }
        let mut singles: Vec<SingleColumns> = Vec::new();
        let mut p1: usize = 0;
        while p1 < list1.len()
            invariant
                p1 <= list1@.len(),
                matrix_holds(x@, n_rows as int, n_features as int),
                list1@ == kept_indices(self.single_flags(n_features as int)),
                forall|p: int|
                    0 <= p < list1@.len() ==> (#[trigger] list1@[p]) < self.features@.len() && self.single_flags(
                        n_features as int,
                    )[list1@[p] as int],
                singles@.len() == p1,
                forall|p: int|
                    0 <= p < p1 ==> self.single_columns(
                        #[trigger] singles@[p],
                        list1@[p] as int,
                        x@,
                        n_rows as int,
                        n_features as int,
                    ),
            decreases list1@.len() - p1,
        {
            let t: usize = list1[p1];
            assert(self.single_flags(n_features as int)[t as int]);
            singles.push(self.make_single(t, x, n_rows, n_features));
            p1 = p1 + 1;
        }
        let mut flags2: Vec<bool> = Vec::new();
        let mut t2: usize = 0;
        while t2 < self.pair_features.len()
            invariant
                t2 <= self.pair_features@.len(),
                flags2@.len() == t2,
                forall|k: int|
                    0 <= k < t2 ==> #[trigger] flags2@[k] == (self.pair_features@[k].0 < n_features
                        && self.pair_features@[k].1 < n_features && k < self.pair_maps@.len()),
            decreases self.pair_features@.len() - t2,
        {
            let (fi, fj) = self.pair_features[t2];
            flags2.push(fi < n_features && fj < n_features && t2 < self.pair_maps.len());
            t2 = t2 + 1;
        }
        assert(flags2@ =~= self.pair_flags(n_features as int));
        let list2: Vec<usize> = collect_kept(&flags2);
        proof {
            lemma_kept_indices(flags2@);
        }
        let mut pairs: Vec<PairColumns> = Vec::new();
        let mut p2: usize = 0;
        while p2 < list2.len()
            invariant
                p2 <= list2@.len(),
                matrix_holds(x@, n_rows as int, n_features as int),
                list2@ == kept_indices(self.pair_flags(n_features as int)),
                forall|p: int|
                    0 <= p < list2@.len() ==> (#[trigger] list2@[p]) < self.pair_features@.len() && self.pair_flags(
                        n_features as int,
                    )[list2@[p] as int],
                pairs@.len() == p2,
                forall|p: int|
                    0 <= p < p2 ==> self.pair_columns(
                        #[trigger] pairs@[p],
                        list2@[p] as int,
                        x@,
                        n_rows as int,
                        n_features as int,
                    ),
            decreases list2@.len() - p2,
        {
            let t: usize = list2[p2];
            assert(self.pair_flags(n_features as int)[t as int]);
            pairs.push(self.make_pair(t, x, n_rows, n_features));
            p2 = p2 + 1;
        }
        let mut flags3: Vec<bool> = Vec::new();
        let mut t3: usize = 0;
        while t3 < self.triple_features.len()
            invariant
                t3 <= self.triple_features@.len(),
                flags3@.len() == t3,
                forall|k: int|
                    0 <= k < t3 ==> #[trigger] flags3@[k] == (self.triple_features@[k].0 < n_features
                        && self.triple_features@[k].1 < n_features && self.triple_features@[k].2 < n_features && k
                        < self.triple_maps@.len()),
            decreases self.triple_features@.len() - t3,
        {
            let (fa, fb, fc) = self.triple_features[t3];
            flags3.push(fa < n_features && fb < n_features && fc < n_features && t3 < self.triple_maps.len());
            t3 = t3 + 1;
        }
        assert(flags3@ =~= self.triple_flags(n_features as int));
        let list3: Vec<usize> = collect_kept(&flags3);
        proof {
            lemma_kept_indices(flags3@);
        }
        let mut triples: Vec<TripleColumns> = Vec::new();
        let mut p3: usize = 0;
        while p3 < list3.len()
            invariant
                p3 <= list3@.len(),
                matrix_holds(x@, n_rows as int, n_features as int),
                list3@ == kept_indices(self.triple_flags(n_features as int)),
                forall|p: int|
                    0 <= p < list3@.len() ==> (#[trigger] list3@[p]) < self.triple_features@.len()
                        && self.triple_flags(n_features as int)[list3@[p] as int],
                triples@.len() == p3,
                forall|p: int|
                    0 <= p < p3 ==> self.triple_columns(
                        #[trigger] triples@[p],
                        list3@[p] as int,
                        x@,
                        n_rows as int,
                        n_features as int,
                    ),
            decreases list3@.len() - p3,
        {
            let t: usize = list3[p3];
            assert(self.triple_flags(n_features as int)[t as int]);
            triples.push(self.make_triple(t, x, n_rows, n_features));
            p3 = p3 + 1;
        }
        CtrColumns { singles, pairs, triples }
    }
}

/// The columns that a fitted tuple gives the training rows.
pub open spec fn training_columns(fitted: FittedTuple) -> Seq<Vec<Num>> {
    if fitted.members@.len() == 1 {
        seq![fitted.encoding, fitted.count]
    } else {
        seq![fitted.encoding, fitted.count, fitted.residual]
    }
}

/// The columns that fitted tuples give the training rows, in order.
pub open spec fn all_training_columns(fitted: Seq<FittedTuple>) -> Seq<Vec<Num>>
    decreases fitted.len(),
{
    if fitted.len() == 0 {
        Seq::empty()
    } else {
        all_training_columns(fitted.drop_last()) + training_columns(fitted.last())
    }
}

/// The number of columns follows from what is stored: after tuples were stored
/// one by one in empty tables, the training rows have two columns for each
/// stored feature and three for each stored pair and triple, and every one of
/// these has its table.
pub proof fn law_columns_follow_from_tables(tables: Seq<CtrTables>, fitted: Seq<FittedTuple>)
    requires
        tables.len() == fitted.len() + 1,
        tables[0].empty(),
        forall|i: int|
            0 <= i < fitted.len() ==> 1 <= (#[trigger] fitted[i]).members@.len() <= 3 && tables[i + 1].extends(
                tables[i],
                fitted[i],
            ),
    ensures
        tables.last().aligned(),
        all_training_columns(fitted).len() == tables.last().column_count(),
    decreases fitted.len(),
{
    if fitted.len() > 0 {
        let n = fitted.len() as int;
        let rest = fitted.drop_last();
        assert forall|i: int| 0 <= i < rest.len() implies 1 <= (#[trigger] rest[i]).members@.len() <= 3
            && tables.drop_last()[i + 1].extends(tables.drop_last()[i], rest[i]) by {
            assert(rest[i] == fitted[i]);
        }
        law_columns_follow_from_tables(tables.drop_last(), rest);
        assert(fitted[n - 1] == fitted.last());
        assert(tables.drop_last().last() == tables[n - 1]);
        assert(tables.last() == tables[n]);
    }
}

proof fn lemma_all_kept(flags: Seq<bool>)
    requires
        forall|i: int| 0 <= i < flags.len() ==> #[trigger] flags[i],
    ensures
        kept_indices(flags).len() == flags.len(),
    decreases flags.len(),
{
    if flags.len() > 0 {
        let rest = flags.drop_last();
        assert forall|i: int| 0 <= i < rest.len() implies #[trigger] rest[i] by {
            assert(rest[i] == flags[i]);
        }
        lemma_all_kept(rest);
        assert(flags[flags.len() - 1]);
    }
}

/// Other rows get as many columns as the training rows got, wherever they have
/// all features that tables are stored for.
pub proof fn law_raw_rows_get_all_columns(tables: CtrTables, n_features: int)
    requires
        tables.aligned(),
        forall|t: int| 0 <= t < tables.features@.len() ==> #[trigger] tables.features@[t] < n_features,
        forall|t: int|
            0 <= t < tables.pair_features@.len() ==> (#[trigger] tables.pair_features@[t]).0 < n_features
                && tables.pair_features@[t].1 < n_features,
        forall|t: int|
            0 <= t < tables.triple_features@.len() ==> (#[trigger] tables.triple_features@[t]).0 < n_features
                && tables.triple_features@[t].1 < n_features && tables.triple_features@[t].2 < n_features,
    ensures
        2 * kept_indices(tables.single_flags(n_features)).len() + 3 * kept_indices(
            tables.pair_flags(n_features),
        ).len() + 3 * kept_indices(tables.triple_flags(n_features)).len() == tables.column_count(),
{
    lemma_all_kept(tables.single_flags(n_features));
    lemma_all_kept(tables.pair_flags(n_features));
    lemma_all_kept(tables.triple_flags(n_features));
}

proof fn lemma_position_is_first(list: Seq<usize>, f: usize, p: int)
    requires
        0 <= p < list.len(),
        list[p] == f,
        forall|i: int| 0 <= i < p ==> #[trigger] list[i] != f,
    ensures
        position_of(list, f) == Some(p),
    decreases list.len(),
{
    let rest = list.drop_last();
    if p < rest.len() {
        assert forall|i: int| 0 <= i < p implies #[trigger] rest[i] != f by {
            assert(list[i] != f);
        }
        lemma_position_is_first(rest, f, p);
    } else {
        lemma_position_is_none(rest, f);
    }
}

proof fn lemma_position_is_none(list: Seq<usize>, f: usize)
    requires
        forall|i: int| 0 <= i < list.len() ==> #[trigger] list[i] != f,
    ensures
        position_of(list, f) is None,
    decreases list.len(),
{
    if list.len() > 0 {
        let rest = list.drop_last();
        assert forall|i: int| 0 <= i < rest.len() implies #[trigger] rest[i] != f by {
            assert(list[i] != f);
        }
        lemma_position_is_none(rest, f);
        assert(list[list.len() - 1] != f);
    }
}

/// `p` is where a feature stands first among the features with tables.
pub open spec fn stands_at(tables: CtrTables, f: usize, p: int) -> bool {
    &&& 0 <= p < tables.features@.len()
    &&& p < tables.maps@.len()
    &&& tables.features@[p] == f
    &&& forall|i: int| 0 <= i < p ==> #[trigger] tables.features@[i] != f
}

/// What a table holds for the cell of a row, and `other` where it holds nothing.
pub open spec fn held_for(table: HashMap<i64, Num>, cell: Num, other: Num) -> Num {
    if table@.contains_key(single_key(cell)) {
        table@[single_key(cell)]
    } else {
        other
    }
}

/// The parents of a pair are read from their own tables: the parent encoding of
/// each member is what the member's own table holds for the row's value, and the
/// prior where it holds nothing or the member has no table. Where the table holds
/// the value, that is the entry of the member's own column.
pub proof fn law_pairs_read_their_parents(
    tables: CtrTables,
    c: PairColumns,
    t: int,
    x: Seq<Num>,
    n_rows: int,
    n_features: int,
    row: int,
    p: int,
    q: int,
    single: SingleColumns,
)
    requires
        tables.pair_columns(c, t, x, n_rows, n_features),
        0 <= row < n_rows,
    ensures
        ({
            let (f, g) = tables.pair_features@[t];
            let (a, b) = (x[row * n_features + f], x[row * n_features + g]);
            &&& stands_at(tables, f, p) ==> c.first@[row] == held_for(tables.maps@[p], a, tables.prior)
            &&& stands_at(tables, g, q) ==> c.second@[row] == held_for(tables.maps@[q], b, tables.prior)
            &&& !tables.features@.contains(f) ==> c.first@[row] == tables.prior
            &&& !tables.features@.contains(g) ==> c.second@[row] == tables.prior
            &&& stands_at(tables, f, p) && tables.maps@[p]@.contains_key(single_key(a)) && tables.single_columns(
                single,
                p,
                x,
                n_rows,
                n_features,
            ) ==> c.first@[row] == single.encoding@[row]
            &&& stands_at(tables, g, q) && tables.maps@[q]@.contains_key(single_key(b)) && tables.single_columns(
                single,
                q,
                x,
                n_rows,
                n_features,
            ) ==> c.second@[row] == single.encoding@[row]
        }),
{
    reveal(CtrTables::pair_cell);
    let (f, g) = tables.pair_features@[t];
    let cell = (c.encoding@[row], c.count@[row], c.first@[row], c.second@[row]);
    assert(cell == tables.pair_cell(t, x, n_features, row));
    if stands_at(tables, f, p) {
        lemma_position_is_first(tables.features@, f, p);
    }
    if stands_at(tables, g, q) {
        lemma_position_is_first(tables.features@, g, q);
    }
    if !tables.features@.contains(f) {
        lemma_position_is_none(tables.features@, f);
    }
    if !tables.features@.contains(g) {
        lemma_position_is_none(tables.features@, g);
    }
    if tables.single_columns(single, p, x, n_rows, n_features) || tables.single_columns(single, q, x, n_rows, n_features) {
        assert(single.encoding@[row] == single.encoding@[row]);
    }
}

/// The parents of a triple are read from their own tables, each by the row's value
/// of its own feature.
pub proof fn law_triples_read_their_parents(
    tables: CtrTables,
    c: TripleColumns,
    t: int,
    x: Seq<Num>,
    n_rows: int,
    n_features: int,
    row: int,
    p: int,
    q: int,
    r: int,
)
    requires
        tables.triple_columns(c, t, x, n_rows, n_features),
        0 <= row < n_rows,
    ensures
        ({
            let (f, g, h) = tables.triple_features@[t];
            &&& stands_at(tables, f, p) ==> c.first@[row] == held_for(
                tables.maps@[p],
                x[row * n_features + f],
                tables.prior,
            )
            &&& stands_at(tables, g, q) ==> c.second@[row] == held_for(
                tables.maps@[q],
                x[row * n_features + g],
                tables.prior,
            )
            &&& stands_at(tables, h, r) ==> c.third@[row] == held_for(
                tables.maps@[r],
                x[row * n_features + h],
                tables.prior,
            )
            &&& !tables.features@.contains(f) ==> c.first@[row] == tables.prior
            &&& !tables.features@.contains(g) ==> c.second@[row] == tables.prior
            &&& !tables.features@.contains(h) ==> c.third@[row] == tables.prior
        }),
{
    reveal(CtrTables::triple_cell);
    let (f, g, h) = tables.triple_features@[t];
    let cell = (c.encoding@[row], c.count@[row], c.first@[row], c.second@[row], c.third@[row]);
    assert(cell == tables.triple_cell(t, x, n_features, row));
    if stands_at(tables, f, p) {
        lemma_position_is_first(tables.features@, f, p);
    }
    if stands_at(tables, g, q) {
        lemma_position_is_first(tables.features@, g, q);
    }
    if stands_at(tables, h, r) {
        lemma_position_is_first(tables.features@, h, r);
    }
    if !tables.features@.contains(f) {
        lemma_position_is_none(tables.features@, f);
    }
    if !tables.features@.contains(g) {
        lemma_position_is_none(tables.features@, g);
    }
    if !tables.features@.contains(h) {
        lemma_position_is_none(tables.features@, h);
    }
}

/// What was stored of a feature is read for later rows: a row gets the encoding
/// and the count that the fitted table holds for its value, the tuple's own prior
/// and a count of zero where it holds nothing. Nothing stored before is changed.
pub proof fn law_stored_features_are_read(
    before: CtrTables,
    after: CtrTables,
    fitted: FittedTuple,
    s: SingleColumns,
    x: Seq<Num>,
    n_rows: int,
    n_features: int,
    row: int,
)
    requires
        before.aligned(),
        fitted.members@.len() == 1,
        after.extends(before, fitted),
        after.single_columns(s, before.features@.len() as int, x, n_rows, n_features),
        0 <= row < n_rows,
    ensures
        s.encoding@[row] == held_for(fitted.encodings, x[row * n_features + fitted.members@[0]], fitted.prior),
        s.count@[row] == held_for(fitted.counts, x[row * n_features + fitted.members@[0]], (Num { bits: 0 })),
        after.features@.drop_last() == before.features@,
        after.maps@.drop_last() == before.maps@,
        after.pair_features@ == before.pair_features@,
        after.triple_features@ == before.triple_features@,
{
    let t = before.features@.len() as int;
    assert(after.count_maps@[t] == fitted.counts && after.maps@[t] == fitted.encodings && after.features@[t]
        == fitted.members@[0]);
    assert(s.encoding@[row] == looked_up(after.maps@[t]@, cell_key(x, n_features, row, after.features@[t] as int), after.prior_of(t)));
    assert(after.features@.drop_last() =~= before.features@);
    assert(after.maps@.drop_last() =~= before.maps@);
}

/// What was stored of a pair or a triple is read for later rows, by the joint key
/// of the row's values, in the order of the members.
pub proof fn law_stored_tuples_are_read(
    before: CtrTables,
    after: CtrTables,
    fitted: FittedTuple,
    pair: PairColumns,
    triple: TripleColumns,
    x: Seq<Num>,
    n_rows: int,
    n_features: int,
    row: int,
)
    requires
        before.aligned(),
        after.extends(before, fitted),
        0 <= row < n_rows,
        fitted.members@.len() == 2 ==> after.pair_columns(
            pair,
            before.pair_features@.len() as int,
            x,
            n_rows,
            n_features,
        ),
        fitted.members@.len() == 3 ==> after.triple_columns(
            triple,
            before.triple_features@.len() as int,
            x,
            n_rows,
            n_features,
        ),
    ensures
        ({
            let m = fitted.members@;
            let a = single_key(x[row * n_features + m[0]]);
            let b = single_key(x[row * n_features + m[1]]);
            let c = single_key(x[row * n_features + m[2]]);
            let two = pair_key(a, b);
            let three = triple_key(a, b, c);
            &&& m.len() == 2 ==> pair.encoding@[row] == if fitted.encodings@.contains_key(two) {
                fitted.encodings@[two]
            } else {
                before.prior
            }
            &&& m.len() == 2 ==> pair.count@[row] == if fitted.counts@.contains_key(two) {
                fitted.counts@[two]
            } else {
                Num { bits: 0 }
            }
            &&& m.len() == 3 ==> triple.encoding@[row] == if fitted.encodings@.contains_key(three) {
                fitted.encodings@[three]
            } else {
                before.prior
            }
            &&& m.len() == 3 ==> triple.count@[row] == if fitted.counts@.contains_key(three) {
                fitted.counts@[three]
            } else {
                Num { bits: 0 }
            }
        }),
{
    reveal(CtrTables::pair_cell);
    reveal(CtrTables::triple_cell);
    if fitted.members@.len() == 2 {
        let cell = (pair.encoding@[row], pair.count@[row], pair.first@[row], pair.second@[row]);
        assert(cell == after.pair_cell(before.pair_features@.len() as int, x, n_features, row));
    }
    if fitted.members@.len() == 3 {
        let cell = (
            triple.encoding@[row],
            triple.count@[row],
            triple.first@[row],
            triple.second@[row],
            triple.third@[row],
        );
        assert(cell == after.triple_cell(before.triple_features@.len() as int, x, n_features, row));
    }
}

/// A table gives columns to rows exactly where all its features are among theirs and its
/// encodings are there.
pub proof fn law_tables_suit_the_rows(tables: CtrTables, n_features: int, t: usize)
    requires
        tables.features@.len() <= usize::MAX,
        tables.pair_features@.len() <= usize::MAX,
        tables.triple_features@.len() <= usize::MAX,
    ensures
        kept_indices(tables.single_flags(n_features)).contains(t) <==> t < tables.features@.len() && t < tables.maps@.len()
            && tables.features@[t as int] < n_features,
        kept_indices(tables.pair_flags(n_features)).contains(t) <==> t < tables.pair_features@.len() && t
            < tables.pair_maps@.len() && tables.pair_features@[t as int].0 < n_features && tables.pair_features@[t as int].1 < n_features,
        kept_indices(tables.triple_flags(n_features)).contains(t) <==> t < tables.triple_features@.len() && t
            < tables.triple_maps@.len() && tables.triple_features@[t as int].0 < n_features && tables.triple_features@[t as int].1 < n_features
            && tables.triple_features@[t as int].2 < n_features,
{
    crate::select::law_kept_are_those_marked(tables.single_flags(n_features), t);
    crate::select::law_kept_are_those_marked(tables.pair_flags(n_features), t);
    crate::select::law_kept_are_those_marked(tables.triple_flags(n_features), t);
}

} // verus!
