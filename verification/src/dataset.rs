//! A checked training matrix whose bins several models can share.

use crate::errors::ModelError;
use crate::num::Num;
use vstd::prelude::*;

verus! {

/// The bins that a feature is cut into: as many as asked for, but no more than
/// a quarter of the rows, where that is at least 32.
pub open spec fn bins_for(num_bins: int, n_rows: int) -> int {
    let room = if n_rows / 4 > 32 {
        n_rows / 4
    } else {
        32
    };
    if num_bins < room {
        num_bins
    } else {
        room
    }
}

pub fn effective_bins(num_bins: usize, n_rows: usize) -> (r: usize)
    ensures
        r == bins_for(num_bins as int, n_rows as int),
{
    let room: usize = if n_rows / 4 > 32 { n_rows / 4 } else { 32 };
    if num_bins < room {
        num_bins
    } else {
        room
    }
}

/// Rows to evaluate on.
#[derive(Clone)]
pub struct EvalRows {
    pub x: Vec<Num>,
    pub y: Vec<Num>,
    pub n_rows: usize,
}

/// A row-major matrix of numbers.
#[derive(Clone)]
pub struct Matrix {
    pub data: Vec<Num>,
    pub n_rows: usize,
    pub n_cols: usize,
}

/// A training matrix with its targets, checked against each other.
#[derive(Clone)]
pub struct GTBoostDataset {
    pub x_data: Vec<Num>,
    pub y_data: Vec<Num>,
    pub n_rows: usize,
    pub n_features_raw: usize,
    pub n_binned: usize,
    pub eval_data: Option<EvalRows>,
    pub cat_features: Vec<bool>,
    pub num_bins: usize,
    pub max_cat_bins: usize,
    pub split_pessimism: Num,
}

/// The first reason to refuse a dataset.
pub open spec fn dataset_refusal(
    x: Matrix,
    n_y: int,
    n_cat: int,
    eval_x: Option<Matrix>,
    eval_y: Option<Vec<Num>>,
) -> Option<ModelError> {
    if n_y != x.n_rows {
        Some(ModelError::TargetLength { got: n_y as usize, rows: x.n_rows })
    } else if n_cat != 0 && n_cat != x.n_cols {
        Some(ModelError::CategoryLength { got: n_cat as usize, width: x.n_cols })
    } else {
        match (eval_x, eval_y) {
            (Some(ex), Some(ey)) => if ex.n_cols != x.n_cols {
                Some(ModelError::EvalWidth { got: ex.n_cols, width: x.n_cols })
            } else if ey@.len() != ex.n_rows {
                Some(ModelError::EvalTargetLength { got: ey@.len() as usize, rows: ex.n_rows })
            } else {
                None
            },
            (None, None) => None,
            _ => Some(ModelError::EvalIncomplete),
        }
    }
}

impl GTBoostDataset {
    /// The targets, the category flags and the evaluation rows fit the matrix.
    pub open spec fn consistent(&self) -> bool {
        &&& self.y_data@.len() == self.n_rows
        &&& self.cat_features@.len() == self.n_features_raw
        &&& self.eval_data matches Some(e) ==> e.y@.len() == e.n_rows
    }

    /// Checks a matrix against its targets and evaluation rows. Without
    /// category flags no feature is categorical.
    pub fn new(
        x: Matrix,
        y: Vec<Num>,
        cat_features: Vec<bool>,
        num_bins: usize,
        max_cat_bins: usize,
        eval_x: Option<Matrix>,
        eval_y: Option<Vec<Num>>,
        split_pessimism: Num,
    ) -> (r: Result<GTBoostDataset, ModelError>)
        ensures
            r is Err <==> dataset_refusal(x, y@.len() as int, cat_features@.len() as int, eval_x, eval_y) is Some,
            r matches Err(e) ==> dataset_refusal(x, y@.len() as int, cat_features@.len() as int, eval_x, eval_y)
                == Some(e),
            r matches Ok(d) ==> {
                &&& d.consistent()
                &&& d.x_data@ == x.data@
                &&& d.y_data@ == y@
                &&& d.n_rows == x.n_rows
                &&& d.n_features_raw == x.n_cols
                &&& d.n_binned == x.n_cols
                &&& d.cat_features@ == (if cat_features@.len() == 0 {
                    Seq::new(x.n_cols as nat, |i: int| false)
                } else {
                    cat_features@
                })
                &&& d.num_bins == num_bins
                &&& d.max_cat_bins == max_cat_bins
                &&& d.split_pessimism == split_pessimism.larger(Num { bits: 0 })
                &&& d.eval_data is Some <==> eval_x is Some
                &&& d.eval_data matches Some(e) ==> e.x@ == eval_x->0.data@ && e.y@ == eval_y->0@ && e.n_rows
                    == eval_x->0.n_rows
            },
    {
        let n_rows: usize = x.n_rows;
        let n_features: usize = x.n_cols;
        if y.len() != n_rows {
            return Err(ModelError::TargetLength { got: y.len(), rows: n_rows });
        }
        let mask: Vec<bool> = if cat_features.len() == 0 {
            let mut none: Vec<bool> = Vec::new();
            let mut i: usize = 0;
            while i < n_features
                invariant
                    i <= n_features,
                    none@.len() == i,
                    forall|k: int| 0 <= k < i ==> #[trigger] none@[k] == false,
                decreases n_features - i,
            {
                none.push(false);
                i = i + 1;
            }
            assert(none@ =~= Seq::new(n_features as nat, |i: int| false));
            none
        } else if cat_features.len() != n_features {
            return Err(ModelError::CategoryLength { got: cat_features.len(), width: n_features });
        } else {
            cat_features
        };
        let zero: Num = Num { bits: 0 };
        let eval_data: Option<EvalRows> = match (eval_x, eval_y) {
            (Some(ex), Some(ey)) => {
                if ex.n_cols != n_features {
                    return Err(ModelError::EvalWidth { got: ex.n_cols, width: n_features });
                }
                if ey.len() != ex.n_rows {
                    return Err(ModelError::EvalTargetLength { got: ey.len(), rows: ex.n_rows });
                }
                Some(EvalRows { x: ex.data, y: ey, n_rows: ex.n_rows })
            },
            (None, None) => None,
            _ => {
                return Err(ModelError::EvalIncomplete);
            },
        };
        Ok(
            GTBoostDataset {
                x_data: x.data,
                y_data: y,
                n_rows,
                n_features_raw: n_features,
                n_binned: n_features,
                eval_data,
                cat_features: mask,
                num_bins,
                max_cat_bins,
                split_pessimism: split_pessimism.max(&zero),
            },
        )
    }

    pub fn n_rows(&self) -> (r: usize)
        ensures
            r == self.n_rows,
    {
        self.n_rows
    }

    pub fn n_features(&self) -> (r: usize)
        ensures
            r == self.n_binned,
    {
        self.n_binned
    }

    pub fn n_features_raw(&self) -> (r: usize)
        ensures
            r == self.n_features_raw,
    {
        self.n_features_raw
    }

    pub fn has_eval(&self) -> (r: bool)
        ensures
            r == (self.eval_data is Some),
    {
        self.eval_data.is_some()
    }
}

/// There are as many bins as are set, but no more than a quarter of the rows, or
/// thirty-two where those are fewer.
pub proof fn law_bins_hold_rows(num_bins: int, n_rows: int)
    requires
        0 <= num_bins,
        0 <= n_rows,
    ensures
        bins_for(num_bins, n_rows) <= num_bins,
        num_bins <= 32 || 4 * num_bins <= n_rows ==> bins_for(num_bins, n_rows) == num_bins,
        bins_for(num_bins, n_rows) <= 32 || 4 * bins_for(num_bins, n_rows) <= n_rows,
        bins_for(num_bins, n_rows) < num_bins ==> bins_for(num_bins, n_rows) >= 32 && 4 * (bins_for(num_bins, n_rows) + 1)
            > n_rows,
{
}

/// A dataset is refused exactly where its parts do not fit together: a target for each
/// row, a flag for each column if there are any, and evaluation rows of the same width
/// with their targets, both or neither.
pub proof fn law_datasets_fit_together(
    x: Matrix,
    n_y: int,
    n_cat: int,
    eval_x: Option<Matrix>,
    eval_y: Option<Vec<Num>>,
)
    requires
        0 <= n_y <= usize::MAX,
        0 <= n_cat <= usize::MAX,
    ensures
        dataset_refusal(x, n_y, n_cat, eval_x, eval_y) is None <==> {
            &&& n_y == x.n_rows
            &&& n_cat == 0 || n_cat == x.n_cols
            &&& eval_x is Some <==> eval_y is Some
            &&& eval_x is Some ==> eval_x->0.n_cols == x.n_cols && eval_y->0@.len() == eval_x->0.n_rows
        },
        n_y != x.n_rows ==> dataset_refusal(x, n_y, n_cat, eval_x, eval_y) == Some(
            ModelError::TargetLength { got: n_y as usize, rows: x.n_rows },
        ),
        n_y == x.n_rows && n_cat != 0 && n_cat != x.n_cols ==> dataset_refusal(x, n_y, n_cat, eval_x, eval_y) == Some(
            ModelError::CategoryLength { got: n_cat as usize, width: x.n_cols },
        ),
        n_y == x.n_rows && (n_cat == 0 || n_cat == x.n_cols) && (eval_x is Some <==> eval_y is None)
            ==> dataset_refusal(x, n_y, n_cat, eval_x, eval_y) == Some(ModelError::EvalIncomplete),
{
}

/// A dataset that holds together has a target for each row and a flag for each column.
pub proof fn law_datasets_hold_together(d: GTBoostDataset)
    requires
        d.consistent(),
    ensures
        d.y_data@.len() == d.n_rows,
        d.cat_features@.len() == d.n_features_raw,
        d.eval_data matches Some(e) ==> e.y@.len() == e.n_rows,
{
}

} // verus!
