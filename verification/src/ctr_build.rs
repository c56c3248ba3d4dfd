//! The making of target statistics: which tables may be stored, and what holds of
//! the tables and the columns of the training rows at every stage.

use crate::ctr_select::CtrSettings;
use crate::ctr_tables::{law_raw_rows_get_all_columns, position, position_of, CtrTables, FittedTuple};
use crate::num::Num;
use crate::select::kept_indices;
use crate::task::Task;
use vstd::prelude::*;

verus! {

/// Target statistics in the making: the tables so far, and the columns that they
/// give the training rows.
pub struct CtrBuild {
    pub settings: CtrSettings,
    pub n_rows: usize,
    pub n_features: usize,
    pub cat_features: Vec<bool>,
    pub tables: CtrTables,
    pub columns: Vec<Vec<Num>>,
}

impl CtrBuild {
    /// Whether statistics are made at all.
    pub open spec fn active(&self) -> bool {
        self.settings.enabled && self.n_rows > 0 && self.n_features > 0 && self.settings.top_features > 0
    }

    /// Whether a feature is marked as categorical.
    pub open spec fn categorical(&self, f: usize) -> bool {
        f < self.n_features && f < self.cat_features@.len() && self.cat_features@[f as int]
    }

    /// Whether a feature has a table of its own.
    pub open spec fn encoded(&self, f: usize) -> bool {
        self.tables.features@.contains(f)
    }

    /// Whether a tuple may be stored: one of categorical features, of several only
    /// where each has a table of its own, triples for two classes only, and no
    /// more of a kind than are asked for. With several classes only single
    /// features have tables, one for each class.
    pub open spec fn admits(&self, fitted: FittedTuple) -> bool {
        let m = fitted.members@;
        let top = self.settings.top_features;
        let task = self.settings.task;
        &&& self.active()
        &&& fitted.encoding@.len() == self.n_rows
        &&& fitted.count@.len() == self.n_rows
        &&& m.len() > 1 ==> fitted.residual@.len() == self.n_rows
        &&& if m.len() == 1 {
            self.categorical(m[0]) && (task == Task::Multiclass || self.tables.features@.len() < top)
        } else if m.len() == 2 {
            &&& task != Task::Multiclass
            &&& self.tables.pair_features@.len() < top
            &&& self.encoded(m[0]) && self.encoded(m[1])
        } else {
            &&& m.len() == 3
            &&& task == Task::Binary
            &&& self.tables.triple_features@.len() < top
            &&& self.encoded(m[0]) && self.encoded(m[1]) && self.encoded(m[2])
        }
    }

    /// What holds at every stage.
    pub open spec fn well_formed(&self) -> bool {
        let t = self.tables;
        let top = self.settings.top_features;
        let task = self.settings.task;
        &&& t.aligned()
        &&& self.columns@.len() == t.column_count()
        &&& forall|c: int| 0 <= c < self.columns@.len() ==> (#[trigger] self.columns@[c])@.len() == self.n_rows
        &&& forall|i: int| 0 <= i < t.features@.len() ==> self.categorical(#[trigger] t.features@[i])
        &&& forall|i: int|
            0 <= i < t.pair_features@.len() ==> self.encoded((#[trigger] t.pair_features@[i]).0) && self.encoded(
                t.pair_features@[i].1,
            )
        &&& forall|i: int|
            0 <= i < t.triple_features@.len() ==> self.encoded((#[trigger] t.triple_features@[i]).0) && self.encoded(
                t.triple_features@[i].1,
            ) && self.encoded(t.triple_features@[i].2)
        &&& task != Task::Multiclass ==> t.features@.len() <= top
        &&& t.pair_features@.len() <= top
        &&& t.triple_features@.len() <= top
        &&& task == Task::Multiclass ==> t.pair_features@.len() == 0
        &&& task != Task::Binary ==> t.triple_features@.len() == 0
        &&& !self.active() ==> t.features@.len() == 0 && t.pair_features@.len() == 0 && t.triple_features@.len() == 0
    }

    /// Nothing is stored yet, whatever an earlier fit has left.
    pub fn begin(settings: CtrSettings, n_rows: usize, n_features: usize, cat_features: Vec<bool>) -> (build: CtrBuild)
        ensures
            build.settings == settings,
            build.n_rows == n_rows,
            build.n_features == n_features,
            build.cat_features == cat_features,
            build.tables.empty(),
            build.columns@.len() == 0,
            build.well_formed(),
    {
        CtrBuild { settings, n_rows, n_features, cat_features, tables: CtrTables::none(), columns: Vec::new() }
    }

    fn is_categorical(&self, f: usize) -> (r: bool)
        ensures
            r == self.categorical(f),
    {
        f < self.n_features && f < self.cat_features.len() && self.cat_features[f]
    }

    fn is_encoded(&self, f: usize) -> (r: bool)
        ensures
            r == self.encoded(f),
    {
        proof {
            lemma_position(self.tables.features@, f);
        }
        position(&self.tables.features, f).is_some()
    }

    /// Whether a tuple may be stored.
    pub fn can_store(&self, fitted: &FittedTuple) -> (r: bool)
        ensures
            r == self.admits(*fitted),
    {
        let n: usize = fitted.members.len();
        let top: usize = self.settings.top_features;
        let multi: bool = match self.settings.task {
            Task::Multiclass => true,
            _ => false,
        };
        let binary: bool = match self.settings.task {
            Task::Binary => true,
            _ => false,
        };
        if !self.settings.applies(self.n_rows, self.n_features) || fitted.encoding.len() != self.n_rows
            || fitted.count.len() != self.n_rows || (n > 1 && fitted.residual.len() != self.n_rows) {
            return false;
        }
        if n == 1 {
            self.is_categorical(fitted.members[0]) && (multi || self.tables.features.len() < top)
        } else if n == 2 {
            !multi && self.tables.pair_features.len() < top && self.is_encoded(fitted.members[0]) && self.is_encoded(
                fitted.members[1],
            )
        } else if n == 3 {
            binary && self.tables.triple_features.len() < top && self.is_encoded(fitted.members[0]) && self.is_encoded(
                fitted.members[1],
            ) && self.is_encoded(fitted.members[2])
        } else {
            false
        }
    }

    /// Stores the table of a tuple and appends the columns of the training rows.
    pub fn store(&mut self, fitted: FittedTuple)
        requires
            old(self).well_formed(),
            old(self).admits(fitted),
        ensures
            final(self).well_formed(),
            final(self).tables.extends(old(self).tables, fitted),
            final(self).columns@ == old(self).columns@ + crate::ctr_tables::training_columns(fitted),
            final(self).settings == old(self).settings,
            final(self).n_rows == old(self).n_rows,
            final(self).n_features == old(self).n_features,
            final(self).cat_features == old(self).cat_features,
    {
        let before = Ghost(*self);
        let given = Ghost(fitted);
        let mut columns: Vec<Vec<Num>> = self.tables.store(fitted);
        self.columns.append(&mut columns);
        proof {
            let (was, now, m) = (before@.tables, self.tables, given@.members@);
            let new = crate::ctr_tables::training_columns(given@);
            assert(self.columns@ =~= before@.columns@ + new);
            assert forall|f: usize| before@.encoded(f) implies #[trigger] self.encoded(f) by {
                let p = choose|p: int| 0 <= p < was.features@.len() && was.features@[p] == f;
                assert(now.features@[p] == f);
            }
            assert forall|c: int| 0 <= c < self.columns@.len() implies (#[trigger] self.columns@[c])@.len()
                == self.n_rows by {
                if c < before@.columns@.len() {
                    assert(self.columns@[c] == before@.columns@[c]);
                } else {
                    assert(self.columns@[c] == new[c - before@.columns@.len()]);
                }
            }
            assert forall|i: int| 0 <= i < now.features@.len() implies self.categorical(
                #[trigger] now.features@[i],
            ) by {
                if i < was.features@.len() {
                    assert(now.features@[i] == was.features@[i]);
                    assert(before@.categorical(was.features@[i]));
                }
            }
            assert forall|i: int| 0 <= i < now.pair_features@.len() implies self.encoded(
                (#[trigger] now.pair_features@[i]).0,
            ) && self.encoded(now.pair_features@[i].1) by {
                if i < was.pair_features@.len() {
                    assert(now.pair_features@[i] == was.pair_features@[i]);
                    assert(before@.encoded(was.pair_features@[i].0) && before@.encoded(was.pair_features@[i].1));
                } else {
                    assert(before@.encoded(m[0]) && before@.encoded(m[1]));
                }
            }
            assert forall|i: int| 0 <= i < now.triple_features@.len() implies self.encoded(
                (#[trigger] now.triple_features@[i]).0,
            ) && self.encoded(now.triple_features@[i].1) && self.encoded(now.triple_features@[i].2) by {
                if i < was.triple_features@.len() {
                    assert(now.triple_features@[i] == was.triple_features@[i]);
                    assert(before@.encoded(was.triple_features@[i].0) && before@.encoded(was.triple_features@[i].1)
                        && before@.encoded(was.triple_features@[i].2));
                } else {
                    assert(before@.encoded(m[0]) && before@.encoded(m[1]) && before@.encoded(m[2]));
                }
            }
        }
    }
}

proof fn lemma_position(list: Seq<usize>, f: usize)
    ensures
        position_of(list, f) is Some <==> list.contains(f),
    decreases list.len(),
{
    if list.len() > 0 {
        let rest = list.drop_last();
        lemma_position(rest, f);
        if rest.contains(f) {
            let p = choose|p: int| 0 <= p < rest.len() && rest[p] == f;
            assert(list[p] == f);
        }
        if list.contains(f) && list.last() != f {
            let p = choose|p: int| 0 <= p < list.len() && list[p] == f;
            assert(rest[p] == f);
        }
        if list.last() == f {
            assert(list[list.len() - 1] == f);
        }
    }
}

/// Target statistics agree between training rows and later rows, whatever was
/// stored: the training rows have two columns for each stored feature and three
/// for each stored pair and triple, each with an entry for every row, and later
/// rows of the same width get as many. Every stored feature is marked as
/// categorical, also those of pairs and triples. There are no more pairs and
/// triples than are asked for, and triples for two classes only. Without
/// statistics nothing is stored and there is no column.
pub proof fn law_encodings_agree(build: CtrBuild)
    requires
        build.well_formed(),
    ensures
        ({
            let t = build.tables;
            let (f, p, q) = (t.features@.len(), t.pair_features@.len(), t.triple_features@.len());
            let n = build.n_features as int;
            &&& build.columns@.len() == 2 * f + 3 * p + 3 * q
            &&& build.columns@.len() == 2 * kept_indices(t.single_flags(n)).len() + 3 * kept_indices(
                t.pair_flags(n),
            ).len() + 3 * kept_indices(t.triple_flags(n)).len()
            &&& forall|c: int| 0 <= c < build.columns@.len() ==> (#[trigger] build.columns@[c])@.len() == build.n_rows
            &&& forall|i: int| 0 <= i < f ==> build.categorical(#[trigger] t.features@[i])
            &&& forall|i: int|
                0 <= i < p ==> build.categorical((#[trigger] t.pair_features@[i]).0) && build.categorical(
                    t.pair_features@[i].1,
                )
            &&& forall|i: int|
                0 <= i < q ==> build.categorical((#[trigger] t.triple_features@[i]).0) && build.categorical(
                    t.triple_features@[i].1,
                ) && build.categorical(t.triple_features@[i].2)
            &&& p <= build.settings.top_features
            &&& q <= build.settings.top_features
            &&& build.settings.task != Task::Binary ==> q == 0
            &&& !build.settings.enabled || build.n_rows == 0 ==> f == 0 && p == 0 && q == 0 && build.columns@.len() == 0
        }),
{
    let t = build.tables;
    assert forall|f: usize| #[trigger] build.encoded(f) implies build.categorical(f) by {
        let i = choose|i: int| 0 <= i < t.features@.len() && t.features@[i] == f;
        assert(build.categorical(t.features@[i]));
    }
    law_raw_rows_get_all_columns(t, build.n_features as int);
}

/// A table is stored only while statistics are made and there is room for it: one feature
/// where it is categorical, a pair of encoded ones in tasks with one score and a triple of
/// them in binary tasks, with a number for every row.
pub proof fn law_tables_are_admitted(build: CtrBuild, fitted: FittedTuple)
    ensures
        ({
            let m = fitted.members@;
            let s = build.settings;
            let made = s.enabled && build.n_rows != 0 && build.n_features != 0 && s.top_features != 0;
            let filled = fitted.encoding@.len() == build.n_rows && fitted.count@.len() == build.n_rows;
            let wide = fitted.residual@.len() == build.n_rows;
            &&& m.len() == 1 ==> (build.admits(fitted) <==> made && filled && m[0] < build.n_features && m[0]
                < build.cat_features@.len() && build.cat_features@[m[0] as int] && (s.task == Task::Multiclass
                || build.tables.features@.len() < s.top_features))
            &&& m.len() == 2 ==> (build.admits(fitted) <==> made && filled && wide && s.task != Task::Multiclass
                && build.tables.pair_features@.len() < s.top_features && build.tables.features@.contains(m[0])
                && build.tables.features@.contains(m[1]))
            &&& m.len() == 3 ==> (build.admits(fitted) <==> made && filled && wide && s.task == Task::Binary
                && build.tables.triple_features@.len() < s.top_features && build.tables.features@.contains(m[0])
                && build.tables.features@.contains(m[1]) && build.tables.features@.contains(m[2]))
            &&& m.len() == 0 || m.len() > 3 ==> !build.admits(fitted)
        }),
{
}

} // verus!
