//! What a request can be refused for, and in which words.

use vstd::prelude::*;
use vstd::string::*;

verus! {

/// Why a request is refused.
#[derive(Clone, Copy, PartialEq, Eq, Structural, Debug)]
pub enum ModelError {
    TargetLength { got: usize, rows: usize },
    CategoryLength { got: usize, width: usize },
    EvalWidth { got: usize, width: usize },
    EvalTargetLength { got: usize, rows: usize },
    EvalIncomplete,
    InitScoreLength { got: usize, expected: usize },
    EvalInitScoreWithoutEval,
    EvalInitScoreLength { got: usize, expected: usize },
    SampleWeightLength { got: usize, rows: usize },
    CachedBinsUnusable,
    BinsDiffer { model: usize, dataset: usize },
    CategoryBinsDiffer { model: usize, dataset: usize },
    CategoriesDiffer,
    PredictInitScoreLength { got: usize, expected: usize },
    TruncatedInitScoreLength { got: usize, expected: usize },
    CheckpointsOfMulticlass,
    NotTrained,
    NotTrainedForSave,
    FormatVersion { found: usize, expected: usize },
    WeightLength { got: usize, trees: usize },
    WeightValue,
    CorrectionLengths,
    TreeOutOfRange { tree: usize, trees: usize },
    NodeOutOfRange { node: usize, tree: usize },
    NotALeaf { node: usize, tree: usize },
}

/// The decimal digit of a number below ten.
pub open spec fn digit(d: nat) -> char {
    seq!['0', '1', '2', '3', '4', '5', '6', '7', '8', '9'][d as int]
}

/// The decimal digits of a number.
pub open spec fn decimal(n: nat) -> Seq<char>
    decreases n,
{
    if n < 10 {
        seq![digit(n)]
    } else {
        decimal(n / 10).push(digit(n % 10))
    }
}

fn digit_text(d: usize) -> (s: String)
    requires
        d < 10,
    ensures
        s@ == seq![digit(d as nat)],
{
    proof {
        reveal_strlit("0");
        reveal_strlit("1");
        reveal_strlit("2");
        reveal_strlit("3");
        reveal_strlit("4");
        reveal_strlit("5");
        reveal_strlit("6");
        reveal_strlit("7");
        reveal_strlit("8");
        reveal_strlit("9");
    }
    let s: String = if d == 0 {
        "0".to_string()
    } else if d == 1 {
        "1".to_string()
    } else if d == 2 {
        "2".to_string()
    } else if d == 3 {
        "3".to_string()
    } else if d == 4 {
        "4".to_string()
    } else if d == 5 {
        "5".to_string()
    } else if d == 6 {
        "6".to_string()
    } else if d == 7 {
        "7".to_string()
    } else if d == 8 {
        "8".to_string()
    } else {
        "9".to_string()
    };
    assert(s@ =~= seq![digit(d as nat)]);
    s
}

/// A number in decimal digits.
pub fn decimal_text(n: usize) -> (s: String)
    ensures
        s@ == decimal(n as nat),
    decreases n,
{
    if n < 10 {
        digit_text(n)
    } else {
        let mut s: String = decimal_text(n / 10);
        let last: String = digit_text(n % 10);
        let head = Ghost(s@);
        s.append(last.as_str());
        assert(s@ =~= head@.push(digit((n % 10) as nat)));
        s
    }
}

/// A text with two numbers in it.
pub open spec fn with_two(a: Seq<char>, x: usize, b: Seq<char>, y: usize, c: Seq<char>) -> Seq<char> {
    a + decimal(x as nat) + b + decimal(y as nat) + c
}

fn text_with_two(a: &str, x: usize, b: &str, y: usize, c: &str) -> (s: String)
    ensures
        s@ == with_two(a@, x, b@, y, c@),
{
    let mut s: String = a.to_string();
    let first: String = decimal_text(x);
    let second: String = decimal_text(y);
    s.append(first.as_str());
    s.append(b);
    s.append(second.as_str());
    s.append(c);
    s
}

impl ModelError {
    /// The words of the refusal.
    pub open spec fn words(&self) -> Seq<char> {
        match *self {
            ModelError::TargetLength { got, rows } => with_two(
                "y length ("@,
                got,
                ") must equal X rows ("@,
                rows,
                ")"@,
            ),
            ModelError::CategoryLength { got, width } => with_two(
                "cat_features length ("@,
                got,
                ") must equal X width ("@,
                width,
                ")"@,
            ),
            ModelError::EvalWidth { got, width } => with_two(
                "eval_x width ("@,
                got,
                ") must equal X width ("@,
                width,
                ")"@,
            ),
            ModelError::EvalTargetLength { got, rows } => with_two(
                "eval_y length ("@,
                got,
                ") must equal eval_x rows ("@,
                rows,
                ")"@,
            ),
            ModelError::EvalIncomplete => "eval_x and eval_y must be provided together"@,
            ModelError::InitScoreLength { got, expected } => with_two(
                "init_score length ("@,
                got,
                ") must equal expected length ("@,
                expected,
                ")"@,
            ),
            ModelError::EvalInitScoreWithoutEval => "eval_init_score requires eval_x/eval_y"@,
            ModelError::EvalInitScoreLength { got, expected } => with_two(
                "eval_init_score length ("@,
                got,
                ") must equal expected length ("@,
                expected,
                ")"@,
            ),
            ModelError::SampleWeightLength { got, rows } => with_two(
                "sample_weight length ("@,
                got,
                ") must equal n_rows ("@,
                rows,
                ")"@,
            ),
            ModelError::CachedBinsUnusable => "fit_binned cannot reuse cached bins when auto_interactions, auto_cat_interactions, ordered_ctr, or jit_ltso_enabled are active; use normal fit() for those configs"@,
            ModelError::BinsDiffer { model, dataset } => with_two(
                "model num_bins ("@,
                model,
                ") must match GTBoostDataset num_bins ("@,
                dataset,
                ")"@,
            ),
            ModelError::CategoryBinsDiffer { model, dataset } => with_two(
                "model max_cat_bins ("@,
                model,
                ") must match GTBoostDataset max_cat_bins ("@,
                dataset,
                ")"@,
            ),
            ModelError::CategoriesDiffer => "model cat_features must match GTBoostDataset cat_features"@,
            ModelError::PredictInitScoreLength { got, expected } => with_two(
                "predict: init_score length ("@,
                got,
                ") must equal expected length ("@,
                expected,
                ")"@,
            ),
            ModelError::TruncatedInitScoreLength { got, expected } => with_two(
                "predict_truncated: init_score length ("@,
                got,
                ") must equal expected length ("@,
                expected,
                ")"@,
            ),
            ModelError::CheckpointsOfMulticlass => "predict_checkpoints: multiclass not supported (use predict_truncated)"@,
            ModelError::NotTrained => "Model not trained yet. Call fit() first."@,
            ModelError::NotTrainedForSave => "Model not trained yet. Call fit() before save_model()."@,
            ModelError::FormatVersion { found, expected } => with_two(
                "unsupported model format version "@,
                found,
                " (expected "@,
                expected,
                ")"@,
            ),
            ModelError::WeightLength { got, trees } => with_two(
                "tree weight length ("@,
                got,
                ") must equal number of trees ("@,
                trees,
                ")"@,
            ),
            ModelError::WeightValue => "tree weights must be finite and non-negative"@,
            ModelError::CorrectionLengths => "tree_idx, node_idx and delta must have equal lengths"@,
            ModelError::TreeOutOfRange { tree, trees } => with_two(
                "tree_idx "@,
                tree,
                " out of range ("@,
                trees,
                " trees)"@,
            ),
            ModelError::NodeOutOfRange { node, tree } => with_two(
                "node_idx "@,
                node,
                " out of range for tree "@,
                tree,
                ""@,
            ),
            ModelError::NotALeaf { node, tree } => with_two(
                "node "@,
                node,
                " of tree "@,
                tree,
                " is not a leaf"@,
            ),
        }
    }

    /// The words of the refusal.
    pub fn message(&self) -> (s: String)
        ensures
            s@ == self.words(),
    {
        match *self {
            ModelError::TargetLength { got, rows } => text_with_two(
                "y length (",
                got,
                ") must equal X rows (",
                rows,
                ")",
            ),
            ModelError::CategoryLength { got, width } => text_with_two(
                "cat_features length (",
                got,
                ") must equal X width (",
                width,
                ")",
            ),
            ModelError::EvalWidth { got, width } => text_with_two(
                "eval_x width (",
                got,
                ") must equal X width (",
                width,
                ")",
            ),
            ModelError::EvalTargetLength { got, rows } => text_with_two(
                "eval_y length (",
                got,
                ") must equal eval_x rows (",
                rows,
                ")",
            ),
            ModelError::EvalIncomplete => "eval_x and eval_y must be provided together".to_string(),
            ModelError::InitScoreLength { got, expected } => text_with_two(
                "init_score length (",
                got,
                ") must equal expected length (",
                expected,
                ")",
            ),
            ModelError::EvalInitScoreWithoutEval => "eval_init_score requires eval_x/eval_y".to_string(),
            ModelError::EvalInitScoreLength { got, expected } => text_with_two(
                "eval_init_score length (",
                got,
                ") must equal expected length (",
                expected,
                ")",
            ),
            ModelError::SampleWeightLength { got, rows } => text_with_two(
                "sample_weight length (",
                got,
                ") must equal n_rows (",
                rows,
                ")",
            ),
            ModelError::CachedBinsUnusable => "fit_binned cannot reuse cached bins when auto_interactions, auto_cat_interactions, ordered_ctr, or jit_ltso_enabled are active; use normal fit() for those configs".to_string(),
            ModelError::BinsDiffer { model, dataset } => text_with_two(
                "model num_bins (",
                model,
                ") must match GTBoostDataset num_bins (",
                dataset,
                ")",
            ),
            ModelError::CategoryBinsDiffer { model, dataset } => text_with_two(
                "model max_cat_bins (",
                model,
                ") must match GTBoostDataset max_cat_bins (",
                dataset,
                ")",
            ),
            ModelError::CategoriesDiffer => "model cat_features must match GTBoostDataset cat_features".to_string(),
            ModelError::PredictInitScoreLength { got, expected } => text_with_two(
                "predict: init_score length (",
                got,
                ") must equal expected length (",
                expected,
                ")",
            ),
            ModelError::TruncatedInitScoreLength { got, expected } => text_with_two(
                "predict_truncated: init_score length (",
                got,
                ") must equal expected length (",
                expected,
                ")",
            ),
            ModelError::CheckpointsOfMulticlass => "predict_checkpoints: multiclass not supported (use predict_truncated)".to_string(),
            ModelError::NotTrained => "Model not trained yet. Call fit() first.".to_string(),
            ModelError::NotTrainedForSave => "Model not trained yet. Call fit() before save_model().".to_string(),
            ModelError::FormatVersion { found, expected } => text_with_two(
                "unsupported model format version ",
                found,
                " (expected ",
                expected,
                ")",
            ),
            ModelError::WeightLength { got, trees } => text_with_two(
                "tree weight length (",
                got,
                ") must equal number of trees (",
                trees,
                ")",
            ),
            ModelError::WeightValue => "tree weights must be finite and non-negative".to_string(),
            ModelError::CorrectionLengths => "tree_idx, node_idx and delta must have equal lengths".to_string(),
            ModelError::TreeOutOfRange { tree, trees } => text_with_two(
                "tree_idx ",
                tree,
                " out of range (",
                trees,
                " trees)",
            ),
            ModelError::NodeOutOfRange { node, tree } => text_with_two(
                "node_idx ",
                node,
                " out of range for tree ",
                tree,
                "",
            ),
            ModelError::NotALeaf { node, tree } => text_with_two(
                "node ",
                node,
                " of tree ",
                tree,
                " is not a leaf",
            ),
        }
    }
}

/// The number that decimal digits stand for.
pub open spec fn number_of(text: Seq<char>) -> nat
    decreases text.len(),
{
    if text.len() == 0 {
        0
    } else {
        number_of(text.drop_last()) * 10 + (text.last() as u32 - '0' as u32) as nat
    }
}

/// Numbers are written so that they can be read back: by decimal digits alone, without a
/// zero in front.
pub proof fn law_numbers_read_back(n: nat)
    ensures
        number_of(decimal(n)) == n,
        decimal(n).len() >= 1,
        n > 0 ==> decimal(n)[0] != '0',
        forall|i: int| 0 <= i < decimal(n).len() ==> '0' <= (#[trigger] decimal(n)[i]) <= '9',
    decreases n,
{
    reveal_with_fuel(number_of, 2);
    if n < 10 {
        assert(seq![digit(n)].drop_last() =~= Seq::<char>::empty());
    } else {
        law_numbers_read_back(n / 10);
        assert(decimal(n).drop_last() =~= decimal(n / 10));
        assert(decimal(n)[0] == decimal(n / 10)[0]);
    }
}

/// What two numbers a message tells, in its order, if it tells any.
pub open spec fn numbers_told(e: ModelError) -> Option<(usize, usize)> {
    match e {
        ModelError::TargetLength { got, rows } => Some((got, rows)),
        ModelError::CategoryLength { got, width } => Some((got, width)),
        ModelError::EvalWidth { got, width } => Some((got, width)),
        ModelError::EvalTargetLength { got, rows } => Some((got, rows)),
        ModelError::InitScoreLength { got, expected } => Some((got, expected)),
        ModelError::EvalInitScoreLength { got, expected } => Some((got, expected)),
        ModelError::SampleWeightLength { got, rows } => Some((got, rows)),
        ModelError::BinsDiffer { model, dataset } => Some((model, dataset)),
        ModelError::CategoryBinsDiffer { model, dataset } => Some((model, dataset)),
        ModelError::PredictInitScoreLength { got, expected } => Some((got, expected)),
        ModelError::TruncatedInitScoreLength { got, expected } => Some((got, expected)),
        ModelError::FormatVersion { found, expected } => Some((found, expected)),
        ModelError::WeightLength { got, trees } => Some((got, trees)),
        ModelError::TreeOutOfRange { tree, trees } => Some((tree, trees)),
        ModelError::NodeOutOfRange { node, tree } => Some((node, tree)),
        ModelError::NotALeaf { node, tree } => Some((node, tree)),
        _ => None,
    }
}

/// A message tells the number that was found before the one that was called for, each in
/// decimal digits.
pub proof fn law_messages_tell_their_numbers(e: ModelError)
    ensures
        numbers_told(e) matches Some(told) ==> exists|a: Seq<char>, b: Seq<char>, c: Seq<char>|
            #[trigger] (a + decimal(told.0 as nat) + b + decimal(told.1 as nat) + c) == e.words() && a.len() >= 5
                && b.len() >= 9,
{
    if numbers_told(e) is Some {
        lemma_words_around(e);
    }
}

proof fn lemma_words_around(e: ModelError)
    requires
        numbers_told(e) is Some,
    ensures
        exists|a: Seq<char>, b: Seq<char>, c: Seq<char>|
            #[trigger] (a + decimal((numbers_told(e)->0).0 as nat) + b + decimal((numbers_told(e)->0).1 as nat) + c)
                == e.words() && a.len() >= 5 && b.len() >= 9,
{
    let told = numbers_told(e)->0;
    match e {
        ModelError::TargetLength { .. } => {
            reveal_strlit("y length (");
            reveal_strlit(") must equal X rows (");
            assert(("y length ("@ + decimal(told.0 as nat) + ") must equal X rows ("@ + decimal(told.1 as nat) + ")"@) == e.words());
        },
        ModelError::CategoryLength { .. } => {
            reveal_strlit("cat_features length (");
            reveal_strlit(") must equal X width (");
            assert(("cat_features length ("@ + decimal(told.0 as nat) + ") must equal X width ("@ + decimal(told.1 as nat) + ")"@) == e.words());
        },
        ModelError::EvalWidth { .. } => {
            reveal_strlit("eval_x width (");
            reveal_strlit(") must equal X width (");
            assert(("eval_x width ("@ + decimal(told.0 as nat) + ") must equal X width ("@ + decimal(told.1 as nat) + ")"@) == e.words());
        },
        ModelError::EvalTargetLength { .. } => {
            reveal_strlit("eval_y length (");
            reveal_strlit(") must equal eval_x rows (");
            assert(("eval_y length ("@ + decimal(told.0 as nat) + ") must equal eval_x rows ("@ + decimal(told.1 as nat) + ")"@) == e.words());
        },
        ModelError::InitScoreLength { .. } => {
            reveal_strlit("init_score length (");
            reveal_strlit(") must equal expected length (");
            assert(("init_score length ("@ + decimal(told.0 as nat) + ") must equal expected length ("@ + decimal(told.1 as nat) + ")"@) == e.words());
        },
        ModelError::EvalInitScoreLength { .. } => {
            reveal_strlit("eval_init_score length (");
            reveal_strlit(") must equal expected length (");
            assert(("eval_init_score length ("@ + decimal(told.0 as nat) + ") must equal expected length ("@ + decimal(told.1 as nat) + ")"@) == e.words());
        },
        ModelError::SampleWeightLength { .. } => {
            reveal_strlit("sample_weight length (");
            reveal_strlit(") must equal n_rows (");
            assert(("sample_weight length ("@ + decimal(told.0 as nat) + ") must equal n_rows ("@ + decimal(told.1 as nat) + ")"@) == e.words());
        },
        ModelError::BinsDiffer { .. } => {
            reveal_strlit("model num_bins (");
            reveal_strlit(") must match GTBoostDataset num_bins (");
            assert(("model num_bins ("@ + decimal(told.0 as nat) + ") must match GTBoostDataset num_bins ("@ + decimal(told.1 as nat) + ")"@) == e.words());
        },
        ModelError::CategoryBinsDiffer { .. } => {
            reveal_strlit("model max_cat_bins (");
            reveal_strlit(") must match GTBoostDataset max_cat_bins (");
            assert(("model max_cat_bins ("@ + decimal(told.0 as nat) + ") must match GTBoostDataset max_cat_bins ("@ + decimal(told.1 as nat) + ")"@) == e.words());
        },
        ModelError::PredictInitScoreLength { .. } => {
            reveal_strlit("predict: init_score length (");
            reveal_strlit(") must equal expected length (");
            assert(("predict: init_score length ("@ + decimal(told.0 as nat) + ") must equal expected length ("@ + decimal(told.1 as nat) + ")"@) == e.words());
        },
        ModelError::TruncatedInitScoreLength { .. } => {
            reveal_strlit("predict_truncated: init_score length (");
            reveal_strlit(") must equal expected length (");
            assert(("predict_truncated: init_score length ("@ + decimal(told.0 as nat) + ") must equal expected length ("@ + decimal(told.1 as nat) + ")"@) == e.words());
        },
        ModelError::FormatVersion { .. } => {
            reveal_strlit("unsupported model format version ");
            reveal_strlit(" (expected ");
            assert(("unsupported model format version "@ + decimal(told.0 as nat) + " (expected "@ + decimal(told.1 as nat) + ")"@) == e.words());
        },
        ModelError::WeightLength { .. } => {
            reveal_strlit("tree weight length (");
            reveal_strlit(") must equal number of trees (");
            assert(("tree weight length ("@ + decimal(told.0 as nat) + ") must equal number of trees ("@ + decimal(told.1 as nat) + ")"@) == e.words());
        },
        ModelError::TreeOutOfRange { .. } => {
            reveal_strlit("tree_idx ");
            reveal_strlit(" out of range (");
            assert(("tree_idx "@ + decimal(told.0 as nat) + " out of range ("@ + decimal(told.1 as nat) + " trees)"@) == e.words());
        },
        ModelError::NodeOutOfRange { .. } => {
            reveal_strlit("node_idx ");
            reveal_strlit(" out of range for tree ");
            assert(("node_idx "@ + decimal(told.0 as nat) + " out of range for tree "@ + decimal(told.1 as nat) + ""@) == e.words());
        },
        ModelError::NotALeaf { .. } => {
            reveal_strlit("node ");
            reveal_strlit(" of tree ");
            assert(("node "@ + decimal(told.0 as nat) + " of tree "@ + decimal(told.1 as nat) + " is not a leaf"@) == e.words());
        },
        _ => {},
    }
}

} // verus!
