//! Corrective refit of tree weights in blocks of consecutive trees.
//!
//! The trees are cut into blocks, one weight is fitted per block, and the new
//! weights are installed only where hashed audit folds and an evaluation set
//! agree that they help.

use crate::bits::{E_MINUS_15, E_MINUS_18, E_MINUS_24};
use crate::hashing::{hash_fold, hashed_fold};
use crate::num::{saturate, Num};
use crate::select::{is_positive, positive};
use crate::tally::{count_of, tally};
use crate::task::Task;
use vstd::arithmetic::div_mod::{lemma_div_is_ordered, lemma_div_multiples_vanish, lemma_fundamental_div_mod};
use vstd::arithmetic::mul::{lemma_mul_inequality, lemma_mul_is_distributive_add};
use vstd::prelude::*;

verus! {

/// The first tree of block `b` when `n_trees` trees are cut into `n_blocks` blocks.
pub open spec fn block_start(b: int, n_trees: int, n_blocks: int) -> int {
    (b * n_trees) / n_blocks
}

/// Consecutive tree blocks.
pub struct TreeBlocks {
    pub starts: Vec<usize>,
    pub ends: Vec<usize>,
    pub block_of_tree: Vec<usize>,
}

impl TreeBlocks {
    /// The blocks cut `n_trees` trees evenly into `n_blocks` runs.
    pub open spec fn cuts(&self, n_trees: int, n_blocks: int) -> bool {
        &&& self.starts@.len() == n_blocks
        &&& self.ends@.len() == n_blocks
        &&& self.block_of_tree@.len() == n_trees
        &&& forall|b: int|
            0 <= b < n_blocks ==> {
                &&& #[trigger] self.starts@[b] == block_start(b, n_trees, n_blocks)
                &&& self.ends@[b] == block_start(b + 1, n_trees, n_blocks)
            }
        &&& forall|t: int|
            0 <= t < n_trees ==> {
                &&& #[trigger] self.block_of_tree@[t] < n_blocks
                &&& block_start(self.block_of_tree@[t] as int, n_trees, n_blocks) <= t
                &&& t < block_start(self.block_of_tree@[t] + 1, n_trees, n_blocks)
            }
    }
}

/// Block boundaries increase, by at least one tree per block.
proof fn lemma_block_step(b: int, n_trees: int, n_blocks: int)
    requires
        0 < n_blocks <= n_trees,
        0 <= b,
    ensures
        block_start(b, n_trees, n_blocks) < block_start(b + 1, n_trees, n_blocks),
        b + 1 <= n_blocks ==> block_start(b + 1, n_trees, n_blocks) <= n_trees,
        block_start(0, n_trees, n_blocks) == 0,
        block_start(n_blocks, n_trees, n_blocks) == n_trees,
        block_start(b, n_trees, n_blocks) >= 0,
{
    lemma_div_multiples_vanish(n_trees, n_blocks);
    assert((b + 1) * n_trees == b * n_trees + n_trees) by (nonlinear_arith);
    assert(b * n_trees >= 0) by (nonlinear_arith)
        requires
            b >= 0,
            n_trees >= 0,
    ;
    lemma_div_is_ordered(b * n_trees + n_blocks, (b + 1) * n_trees, n_blocks);
    vstd::arithmetic::div_mod::lemma_div_plus_one(b * n_trees, n_blocks);
    vstd::arithmetic::div_mod::lemma_div_pos_is_pos(b * n_trees, n_blocks);
    if b + 1 <= n_blocks {
        lemma_mul_inequality(b + 1, n_blocks, n_trees);
        lemma_div_is_ordered((b + 1) * n_trees, n_blocks * n_trees, n_blocks);
    }
}

proof fn lemma_blocks_ordered(a: int, b: int, n_trees: int, n_blocks: int)
    requires
        0 < n_blocks <= n_trees,
        0 <= a <= b,
    ensures
        block_start(a, n_trees, n_blocks) <= block_start(b, n_trees, n_blocks),
    decreases b - a,
{
    if a < b {
        lemma_blocks_ordered(a, b - 1, n_trees, n_blocks);
        lemma_block_step(b - 1, n_trees, n_blocks);
    }
}

/// The blocks part the trees: every tree lies between the bounds of exactly
/// one block, the one that is recorded for it.
pub proof fn law_blocks_part_trees(blocks: TreeBlocks, n_trees: int, n_blocks: int, t: int, b: int)
    requires
        0 < n_blocks <= n_trees,
        blocks.cuts(n_trees, n_blocks),
        0 <= t < n_trees,
        0 <= b < n_blocks,
    ensures
        (blocks.starts@[b] <= t < blocks.ends@[b]) <==> blocks.block_of_tree@[t] == b,
        blocks.starts@[b] < blocks.ends@[b],
{
    let c = blocks.block_of_tree@[t] as int;
    lemma_block_step(b, n_trees, n_blocks);
    assert(blocks.starts@[b] == block_start(b, n_trees, n_blocks));
    if c < b {
        lemma_blocks_ordered(c + 1, b, n_trees, n_blocks);
    } else if b < c {
        lemma_blocks_ordered(b + 1, c, n_trees, n_blocks);
    }
}

/// Cuts `n_trees` trees into `n_blocks` blocks.
pub fn plan_blocks(n_trees: usize, n_blocks: usize) -> (blocks: TreeBlocks)
    requires
        0 < n_blocks <= n_trees,
        n_trees * n_blocks <= usize::MAX,
    ensures
        blocks.cuts(n_trees as int, n_blocks as int),
{
    let mut starts: Vec<usize> = Vec::new();
    let mut ends: Vec<usize> = Vec::new();
    let mut block_of_tree: Vec<usize> = Vec::new();
    let mut b: usize = 0;
    proof {
        lemma_block_step(0, n_trees as int, n_blocks as int);
    }
    while b < n_blocks
        invariant
            b <= n_blocks,
            0 < n_blocks <= n_trees,
            n_trees * n_blocks <= usize::MAX,
            starts@.len() == b,
            ends@.len() == b,
            block_of_tree@.len() == block_start(b as int, n_trees as int, n_blocks as int),
            forall|k: int|
                0 <= k < b ==> {
                    &&& #[trigger] starts@[k] == block_start(k, n_trees as int, n_blocks as int)
                    &&& ends@[k] == block_start(k + 1, n_trees as int, n_blocks as int)
                },
            forall|t: int|
                0 <= t < block_of_tree@.len() ==> {
                    &&& #[trigger] block_of_tree@[t] < n_blocks
                    &&& block_start(block_of_tree@[t] as int, n_trees as int, n_blocks as int) <= t
                    &&& t < block_start(block_of_tree@[t] + 1, n_trees as int, n_blocks as int)
                },
        decreases n_blocks - b,
    {
        proof {
            lemma_block_step(b as int, n_trees as int, n_blocks as int);
            lemma_mul_inequality(b + 1, n_blocks as int, n_trees as int);
            assert(n_blocks * n_trees == n_trees * n_blocks) by (nonlinear_arith);
            assert(b * n_trees <= (b + 1) * n_trees) by (nonlinear_arith);
        }
        let start: usize = b * n_trees / n_blocks;
        let end: usize = (b + 1) * n_trees / n_blocks;
        starts.push(start);
        ends.push(end);
        let mut t: usize = start;
        while t < end
            invariant
                b < n_blocks,
                start <= t <= end,
                start == block_start(b as int, n_trees as int, n_blocks as int),
                end == block_start(b + 1, n_trees as int, n_blocks as int),
                block_of_tree@.len() == t,
                forall|u: int|
                    0 <= u < block_of_tree@.len() ==> {
                        &&& #[trigger] block_of_tree@[u] < n_blocks
                        &&& block_start(block_of_tree@[u] as int, n_trees as int, n_blocks as int) <= u
                        &&& u < block_start(block_of_tree@[u] + 1, n_trees as int, n_blocks as int)
                    },
            decreases end - t,
        {
            block_of_tree.push(b);
            t = t + 1;
        }
        b = b + 1;
    }
    proof {
        lemma_block_step(0, n_trees as int, n_blocks as int);
    }
    TreeBlocks { starts, ends, block_of_tree }
}

/// Gives each tree the weight of its block.
pub fn expand_weights(blocks: &TreeBlocks, block_weights: &Vec<Num>, n_trees: usize) -> (weights: Vec<Num>)
    requires
        blocks.cuts(n_trees as int, block_weights@.len() as int),
    ensures
        weights@.len() == n_trees,
        forall|t: int|
            0 <= t < n_trees ==> #[trigger] weights@[t] == block_weights@[blocks.block_of_tree@[t] as int],
{
    let mut weights: Vec<Num> = Vec::new();
    let mut t: usize = 0;
    while t < n_trees
        invariant
            t <= n_trees,
            blocks.cuts(n_trees as int, block_weights@.len() as int),
            weights@.len() == t,
            forall|u: int|
                0 <= u < t ==> #[trigger] weights@[u] == block_weights@[blocks.block_of_tree@[u] as int],
        decreases n_trees - t,
    {
        assert(blocks.block_of_tree@[t as int] < block_weights@.len());
        weights.push(block_weights[blocks.block_of_tree[t]]);
        t = t + 1;
    }
    weights
}

/// The settings that decide whether the weights of a fitted model are refitted.
pub struct RefitRequest {
    pub enabled: bool,
    pub task: Task,
    pub n_rows: usize,
    pub n_targets: usize,
    pub learning_rate: Num,
    pub n_trees: usize,
    pub min_trees: usize,
    pub dart_rate: Num,
    pub max_blocks: usize,
}

impl RefitRequest {
    /// Whether the request meets every condition for a refit but the one on its rows.
    pub open spec fn admitted(&self) -> bool {
        &&& self.enabled
        &&& self.task == Task::Regression || self.task == Task::Binary
        &&& self.n_rows > 0
        &&& self.n_targets == self.n_rows
        &&& !self.learning_rate.absolute().at_most(Num { bits: E_MINUS_15 })
        &&& self.n_trees >= self.min_trees
        &&& !positive(self.dart_rate)
    }

    /// The number of blocks that the trees are cut into.
    pub open spec fn blocks(&self) -> int {
        saturate(self.max_blocks as int, 1, self.n_trees as int)
    }

    /// The number of blocks to refit, or nothing where the model stays as it
    /// is: the refit is off or does not apply, or the rows are too few.
    pub fn block_count(&self) -> (r: Option<usize>)
        requires
            self.min_trees > 0,
        ensures
            r is Some <==> self.admitted() && self.blocks() <= (if self.n_rows > 1 { self.n_rows - 1 } else { 1 }),
            r matches Some(b) ==> b == self.blocks() && 0 < b <= self.n_trees,
    {
        let tiny: Num = Num { bits: E_MINUS_15 };
        let fits: bool = match self.task {
            Task::Regression => true,
            Task::Binary => true,
            _ => false,
        };
        if !self.enabled || !fits || self.n_rows == 0 || self.n_targets != self.n_rows || self.learning_rate.abs().le(
            &tiny,
        ) || self.n_trees < self.min_trees || is_positive(&self.dart_rate) {
            return None;
        }
        let mut blocks: usize = if self.max_blocks < self.n_trees { self.max_blocks } else { self.n_trees };
        if blocks < 1 {
            blocks = 1;
        }
        let most: usize = if self.n_rows > 1 { self.n_rows - 1 } else { 1 };
        if blocks > most {
            None
        } else {
            Some(blocks)
        }
    }
}

/// The seed of the audit folds: the model's seed, with a word of the task's own.
pub open spec fn audit_seed(task: Task, seed: u64) -> u64 {
    if task == Task::Binary {
        seed ^ 0xB10C_C0A7_E57B_1A5E
    } else {
        seed ^ 0xC0B1_0C0A_7E57_5EED
    }
}

/// The number of audit folds for an inverse audit fraction.
pub open spec fn audit_fold_count(inverse: Num) -> int {
    if inverse.nan() {
        2
    } else {
        saturate(inverse.rounded(), 2, 10)
    }
}

/// The fold of each row.
pub open spec fn audit_folds_of(n_rows: nat, seed: u64, folds: usize) -> Seq<usize> {
    Seq::new(n_rows, |row: int| hashed_fold(row as usize, seed, folds) as usize)
}

/// Audit folds over the training rows.
pub struct AuditPlan {
    pub folds: usize,
    pub fold_of_row: Vec<usize>,
}

/// Whether folds are large enough to audit a refit of `n_blocks` blocks: each
/// holds 24 rows, and the rows outside each are enough to fit on.
pub open spec fn folds_suffice(fold_of_row: Seq<usize>, folds: int, n_blocks: int) -> bool {
    forall|f: usize|
        f < folds ==> {
            &&& #[trigger] count_of(fold_of_row, f) >= 24
            &&& fold_of_row.len() - count_of(fold_of_row, f) >= (if n_blocks + 2 > 32 { n_blocks + 2 } else { 32 })
        }
}

/// The audit folds for a refit, or nothing where it is not audited: the
/// fraction is zero, or the rows do not fill the folds.
pub fn audit_plan(
    task: Task,
    seed: u64,
    fraction: &Num,
    inverse: &Num,
    n_rows: usize,
    n_blocks: usize,
) -> (plan: Option<AuditPlan>)
    ensures
        ({
            let folds = audit_fold_count(*inverse) as usize;
            let of_row = audit_folds_of(n_rows as nat, audit_seed(task, seed), folds);
            &&& plan is Some <==> positive(*fraction) && n_rows >= 80 && n_blocks + 2 < n_rows && folds_suffice(
                of_row,
                folds as int,
                n_blocks as int,
            )
            &&& plan matches Some(p) ==> p.folds == folds && p.fold_of_row@ == of_row
        }),
{
    let folds: usize = if inverse.is_nan() {
        2
    } else {
        let rounded: usize = inverse.round_to_usize();
        if rounded < 2 {
            2
        } else if rounded > 10 {
            10
        } else {
            rounded
        }
    };
    if !is_positive(fraction) || n_rows < 80 || n_blocks >= n_rows - 2 {
        return None;
    }
    let split: u64 = match task {
        Task::Binary => seed ^ 0xB10C_C0A7_E57B_1A5E,
        _ => seed ^ 0xC0B1_0C0A_7E57_5EED,
    };
    let mut fold_of_row: Vec<usize> = Vec::new();
    let mut row: usize = 0;
    while row < n_rows
        invariant
            row <= n_rows,
            folds > 0,
            fold_of_row@.len() == row,
            forall|r: int| 0 <= r < row ==> #[trigger] fold_of_row@[r] == hashed_fold(r as usize, split, folds),
            forall|r: int| 0 <= r < row ==> #[trigger] fold_of_row@[r] < folds,
        decreases n_rows - row,
    {
        fold_of_row.push(hash_fold(row, split, folds));
        row = row + 1;
    }
    assert(fold_of_row@ =~= audit_folds_of(n_rows as nat, split, folds));
    let counts: Vec<usize> = tally(&fold_of_row, folds);
    let min_selector: usize = if n_blocks + 2 > 32 { n_blocks + 2 } else { 32 };
    let mut f: usize = 0;
    while f < folds
        invariant
            f <= folds,
            folds == audit_fold_count(*inverse),
            fold_of_row@ == audit_folds_of(n_rows as nat, audit_seed(task, seed), folds),
            n_blocks + 2 < n_rows,
            fold_of_row@.len() == n_rows,
            counts@.len() == folds,
            min_selector == (if n_blocks + 2 > 32 { n_blocks + 2 } else { 32 }),
            forall|g: usize| g < folds ==> counts@[g as int] == #[trigger] count_of(fold_of_row@, g),
            forall|g: usize|
                g < f ==> #[trigger] count_of(fold_of_row@, g) >= 24 && n_rows - count_of(fold_of_row@, g) >= min_selector,
        decreases folds - f,
    {
        let c: usize = counts[f];
        assert(c == count_of(fold_of_row@, f));
        if c < 24 || c > n_rows || n_rows - c < min_selector {
            assert(!folds_suffice(fold_of_row@, folds as int, n_blocks as int));
            return None;
        }
        f = f + 1;
    }
    Some(AuditPlan { folds, fold_of_row })
}

/// What a corrective refit does next.
#[derive(Clone, Copy, PartialEq, Eq, Structural, Debug)]
pub enum RefitStep {
    /// Fit block weights on the rows outside a fold.
    SolveFold(usize),
    /// Score the fold's rows under unit weights and under the fitted weights.
    ScoreFold(usize),
    /// Compare the total losses over all folds.
    JudgeAudit,
    /// Fit block weights on all rows.
    SolveAll,
    /// Compare the losses on the evaluation rows.
    JudgeEval,
    /// Install the new weights.
    Install,
    /// Leave the weights as they are.
    Keep,
}

/// The first step with `folds` audit folds.
pub open spec fn first_step(folds: int) -> RefitStep {
    if folds == 0 {
        RefitStep::SolveAll
    } else {
        RefitStep::SolveFold(0)
    }
}

/// The step after `step`, by whether it succeeded.
pub open spec fn step_after(step: RefitStep, succeeded: bool, folds: int, has_eval: bool) -> RefitStep {
    match step {
        RefitStep::Install => RefitStep::Install,
        RefitStep::Keep => RefitStep::Keep,
        _ => if !succeeded {
            RefitStep::Keep
        } else {
            match step {
                RefitStep::SolveFold(k) => RefitStep::ScoreFold(k),
                RefitStep::ScoreFold(k) => if k + 1 < folds {
                    RefitStep::SolveFold((k + 1) as usize)
                } else {
                    RefitStep::JudgeAudit
                },
                RefitStep::JudgeAudit => RefitStep::SolveAll,
                RefitStep::SolveAll => if has_eval {
                    RefitStep::JudgeEval
                } else {
                    RefitStep::Install
                },
                _ => RefitStep::Install,
            }
        },
    }
}

pub fn first_refit_step(folds: usize) -> (r: RefitStep)
    ensures
        r == first_step(folds as int),
{
    if folds == 0 {
        RefitStep::SolveAll
    } else {
        RefitStep::SolveFold(0)
    }
}

pub fn next_refit_step(step: RefitStep, succeeded: bool, folds: usize, has_eval: bool) -> (r: RefitStep)
    ensures
        r == step_after(step, succeeded, folds as int, has_eval),
{
    match step {
        RefitStep::Install => RefitStep::Install,
        RefitStep::Keep => RefitStep::Keep,
        _ => if !succeeded {
            RefitStep::Keep
        } else {
            match step {
                RefitStep::SolveFold(k) => RefitStep::ScoreFold(k),
                RefitStep::ScoreFold(k) => if k < folds && k + 1 < folds {
                    RefitStep::SolveFold(k + 1)
                } else {
                    RefitStep::JudgeAudit
                },
                RefitStep::JudgeAudit => RefitStep::SolveAll,
                RefitStep::SolveAll => if has_eval {
                    RefitStep::JudgeEval
                } else {
                    RefitStep::Install
                },
                _ => RefitStep::Install,
            }
        },
    }
}

/// The step reached from `step` when its outcome and those of the steps after it are `outcomes`.
pub open spec fn run_steps(step: RefitStep, outcomes: Seq<bool>, folds: int, has_eval: bool) -> RefitStep
    decreases outcomes.len(),
{
    if outcomes.len() == 0 {
        step
    } else {
        run_steps(step_after(step, outcomes[0], folds, has_eval), outcomes.skip(1), folds, has_eval)
    }
}

/// How many steps lie between `step` and the installation.
pub open spec fn steps_left(step: RefitStep, folds: int, has_eval: bool) -> int {
    let tail: int = if has_eval {
        2
    } else {
        1
    };
    match step {
        RefitStep::SolveFold(k) => 2 * (folds - k) + 1 + tail,
        RefitStep::ScoreFold(k) => 2 * (folds - k) + tail,
        RefitStep::JudgeAudit => 1 + tail,
        RefitStep::SolveAll => tail,
        RefitStep::JudgeEval => 1,
        _ => 0,
    }
}

pub open spec fn step_in_range(step: RefitStep, folds: int) -> bool {
    match step {
        RefitStep::SolveFold(k) => k < folds,
        RefitStep::ScoreFold(k) => k < folds,
        RefitStep::Keep => false,
        _ => true,
    }
}

proof fn lemma_kept_stays(outcomes: Seq<bool>, folds: int, has_eval: bool)
    ensures
        run_steps(RefitStep::Keep, outcomes, folds, has_eval) == RefitStep::Keep,
        run_steps(RefitStep::Install, outcomes, folds, has_eval) == RefitStep::Install,
    decreases outcomes.len(),
{
    if outcomes.len() > 0 {
        lemma_kept_stays(outcomes.skip(1), folds, has_eval);
    }
}

proof fn lemma_run(step: RefitStep, outcomes: Seq<bool>, folds: int, has_eval: bool)
    requires
        0 <= folds <= usize::MAX,
        step_in_range(step, folds),
    ensures
        run_steps(step, outcomes, folds, has_eval) == RefitStep::Install <==> {
            &&& outcomes.len() >= steps_left(step, folds, has_eval)
            &&& forall|i: int| 0 <= i < steps_left(step, folds, has_eval) ==> #[trigger] outcomes[i]
        },
    decreases outcomes.len(),
{
    if outcomes.len() > 0 {
        let next = step_after(step, outcomes[0], folds, has_eval);
        let rest = outcomes.skip(1);
        if step == RefitStep::Install {
            lemma_kept_stays(outcomes, folds, has_eval);
        } else if !outcomes[0] {
            lemma_kept_stays(rest, folds, has_eval);
        } else {
            lemma_run(next, rest, folds, has_eval);
            assert(steps_left(next, folds, has_eval) == steps_left(step, folds, has_eval) - 1);
            assert(forall|i: int| 0 <= i < rest.len() ==> #[trigger] rest[i] == outcomes[i + 1]);
            if forall|i: int| 0 <= i < steps_left(next, folds, has_eval) ==> #[trigger] rest[i] {
                if outcomes.len() >= steps_left(step, folds, has_eval) {
                    assert forall|i: int| 0 <= i < steps_left(step, folds, has_eval) implies #[trigger] outcomes[i] by {
                        if i > 0 {
                            assert(rest[i - 1]);
                        }
                    }
                }
            }
        }
    }
}

/// A refit installs new weights exactly where every one of its steps succeeds:
/// a fit and a score per audit fold, the audit's verdict, the fit on all rows
/// and, with evaluation rows, their verdict.
pub proof fn law_refit_installs(outcomes: Seq<bool>, folds: int, has_eval: bool)
    requires
        0 <= folds <= usize::MAX,
    ensures
        ({
            let needed: int = (if folds == 0 {
                0
            } else {
                2 * folds + 1
            }) + (if has_eval {
                2int
            } else {
                1int
            });
            run_steps(first_step(folds), outcomes, folds, has_eval) == RefitStep::Install <==> {
                &&& outcomes.len() >= needed
                &&& forall|i: int| 0 <= i < needed ==> #[trigger] outcomes[i]
            }
        }),
{
    lemma_run(first_step(folds), outcomes, folds, has_eval);
}

/// More rows than blocks, and a mean energy that is finite and not negligible.
pub open spec fn fittable(fit_rows: int, n_blocks: int, mean_energy: Num) -> bool {
    fit_rows > n_blocks && mean_energy.finite() && !mean_energy.at_most(Num { bits: E_MINUS_18 })
}

/// Whether block weights can be fitted on `fit_rows` rows: more rows than
/// blocks, and a mean energy of the block scores that is finite and not negligible.
pub fn rows_suffice(fit_rows: usize, n_blocks: usize, mean_energy: &Num) -> (r: bool)
    ensures
        r == fittable(fit_rows as int, n_blocks as int, *mean_energy),
{
    let least: Num = Num { bits: E_MINUS_18 };
    fit_rows > n_blocks && mean_energy.is_finite() && !mean_energy.le(&least)
}

/// One finite coefficient per block.
pub open spec fn usable_solution(coefficients: Seq<Num>, n_blocks: int) -> bool {
    coefficients.len() == n_blocks && forall|i: int|
        0 <= i < coefficients.len() ==> (#[trigger] coefficients[i]).finite()
}

/// Whether a solution can be used: one finite coefficient per block.
pub fn solution_usable(coefficients: &Vec<Num>, n_blocks: usize) -> (r: bool)
    ensures
        r == usable_solution(coefficients@, n_blocks as int),
{
    if coefficients.len() != n_blocks {
        return false;
    }
    let mut i: usize = 0;
    while i < coefficients.len()
        invariant
            i <= coefficients@.len(),
            forall|k: int| 0 <= k < i ==> (#[trigger] coefficients@[k]).finite(),
        decreases coefficients@.len() - i,
    {
        if !coefficients[i].is_finite() {
            return false;
        }
        i = i + 1;
    }
    true
}

/// Both losses are finite, the first is not negligible, and the penalized one does
/// not lie above the bound.
pub open spec fn binary_audit_passes(base: Num, refit: Num, penalized: Num, bound: Num) -> bool {
    base.finite() && refit.finite() && !base.at_most(Num { bits: E_MINUS_24 }) && !bound.below(penalized)
}

/// The audit's verdict on total losses: `penalized` is the refitted loss with
/// its complexity penalty, `bound` what it may reach.
pub fn binary_audit_accepts(base: &Num, refit: &Num, penalized: &Num, bound: &Num) -> (r: bool)
    ensures
        r == binary_audit_passes(*base, *refit, *penalized, *bound),
{
    let least: Num = Num { bits: E_MINUS_24 };
    base.is_finite() && refit.is_finite() && !base.le(&least) && !bound.lt(penalized)
}

/// Enough rows were checked, both errors are finite, the first is not negligible,
/// the other does not lie above the bound, and the criterion did not rise.
pub open spec fn regression_audit_passes(checked: int, base: Num, refit: Num, bound: Num, bic_delta: Num) -> bool {
    checked >= 24 && base.finite() && refit.finite() && !base.at_most(Num { bits: E_MINUS_24 }) && !bound.below(
        refit,
    ) && !positive(bic_delta)
}

/// The audit's verdict on total squared errors over `checked` rows: `bound` is
/// what the refitted error may reach, `bic_delta` the change of the information criterion.
pub fn regression_audit_accepts(checked: usize, base: &Num, refit: &Num, bound: &Num, bic_delta: &Num) -> (r: bool)
    ensures
        r == regression_audit_passes(checked as int, *base, *refit, *bound, *bic_delta),
{
    let least: Num = Num { bits: E_MINUS_24 };
    checked >= 24 && base.is_finite() && refit.is_finite() && !base.le(&least) && !bound.lt(refit) && !is_positive(
        bic_delta,
    )
}

/// Both losses are finite, and the penalized one does not lie above the bound.
pub open spec fn binary_eval_passes(base: Num, refit: Num, penalized: Num, bound: Num) -> bool {
    base.finite() && refit.finite() && !bound.below(penalized)
}

/// The verdict on evaluation losses of a binary model.
pub fn binary_eval_accepts(base: &Num, refit: &Num, penalized: &Num, bound: &Num) -> (r: bool)
    ensures
        r == binary_eval_passes(*base, *refit, *penalized, *bound),
{
    base.is_finite() && refit.is_finite() && !bound.lt(penalized)
}

/// Both errors are finite, the second does not lie above the bound, and the
/// criterion did not rise.
pub open spec fn regression_eval_passes(base: Num, refit: Num, bound: Num, bic_delta: Num) -> bool {
    base.finite() && refit.finite() && !bound.below(refit) && !positive(bic_delta)
}

/// The verdict on evaluation errors of a regression model.
pub fn regression_eval_accepts(base: &Num, refit: &Num, bound: &Num, bic_delta: &Num) -> (r: bool)
    ensures
        r == regression_eval_passes(*base, *refit, *bound, *bic_delta),
{
    base.is_finite() && refit.is_finite() && !bound.lt(refit) && !is_positive(bic_delta)
}

/// No verdict lets a loss rise above its bound: with finite losses and bounds a refit
/// passes exactly where what it reached is no more than it may reach, and an audit
/// asks besides for an error that is there to be lowered.
pub proof fn law_losses_stay_within_bounds(base: Num, refit: Num, reached: Num, bound: Num)
    requires
        reached.finite(),
        bound.finite(),
    ensures
        binary_eval_passes(base, refit, reached, bound) <==> base.finite() && refit.finite() && reached.scaled()
            <= bound.scaled(),
        binary_audit_passes(base, refit, reached, bound) <==> binary_eval_passes(base, refit, reached, bound) && (Num {
            bits: 0x3af3_57c2_99a8_8ea7,
        }).below(base),
{
    crate::num::law_key_orders_values(bound, reached);
}

/// The same of squared errors, where besides the criterion must not have risen, and
/// an audit asks for two dozen rows.
pub proof fn law_errors_stay_within_bounds(checked: int, base: Num, refit: Num, bound: Num, bic_delta: Num)
    requires
        bound.finite(),
        bic_delta.finite(),
    ensures
        regression_eval_passes(base, refit, bound, bic_delta) <==> base.finite() && refit.finite() && refit.scaled()
            <= bound.scaled() && bic_delta.scaled() <= 0,
        regression_audit_passes(checked, base, refit, bound, bic_delta) <==> regression_eval_passes(
            base,
            refit,
            bound,
            bic_delta,
        ) && checked >= 24 && (Num { bits: 0x3af3_57c2_99a8_8ea7 }).below(base),
{
    if refit.finite() {
        crate::num::law_key_orders_values(bound, refit);
    }
    let zero = Num { bits: 0 };
    assert(crate::num::scaled_magnitude(0) == 0);
    assert(zero.scaled() == 0);
    crate::num::law_key_orders_values(zero, bic_delta);
}

/// Weights are fitted only on more rows than there are of them and to scores that
/// are there, and a solution is used only where it has a finite weight for every
/// block.
pub proof fn law_fits_are_determined(fit_rows: int, n_blocks: int, energy: Num, coefficients: Seq<Num>, b: int)
    requires
        0 <= b < n_blocks,
    ensures
        fittable(fit_rows, n_blocks, energy) <==> n_blocks < fit_rows && 0x3c32_725d_d1d2_43ac < energy.bits
            < 0x7ff0_0000_0000_0000,
        usable_solution(coefficients, n_blocks) ==> coefficients.len() == n_blocks && coefficients[b].finite(),
        coefficients.len() == n_blocks && !usable_solution(coefficients, n_blocks) ==> exists|i: int|
            0 <= i < n_blocks && !(#[trigger] coefficients[i]).finite(),
{
}

/// A refit is made exactly where it is enabled for a task with one score, the data
/// is complete, the trees move the score, they suffice, and none were dropped.
pub proof fn law_refits_are_admitted(request: RefitRequest)
    ensures
        request.admitted() <==> {
            &&& request.enabled
            &&& request.task == Task::Regression || request.task == Task::Binary
            &&& 0 < request.n_rows == request.n_targets
            &&& request.min_trees <= request.n_trees
            &&& request.dart_rate.bits == 0 || request.dart_rate.bits > 0x7ff0_0000_0000_0000
            &&& (Num { bits: 0x3cd2_03af_9ee7_5616 }).below(request.learning_rate) || request.learning_rate.below(
                Num { bits: 0xbcd2_03af_9ee7_5616 },
            ) || request.learning_rate.nan()
        },
        1 <= request.max_blocks <= request.n_trees ==> request.blocks() == request.max_blocks,
        1 <= request.n_trees <= request.max_blocks ==> request.blocks() == request.n_trees,
        request.n_trees > 0 && request.max_blocks == 0 ==> request.blocks() == 1,
{
    let rate = request.learning_rate;
    assert(rate.absolute().magnitude() == rate.magnitude());
}

/// An audit has as many folds as its share of the rows asks for, where that is a
/// whole number from two to ten, and two or ten beyond those; the two tasks draw
/// their folds apart.
pub proof fn law_audit_folds_follow_the_share(inverse: Num, k: int, row: usize, seed: u64, other: u64, folds: usize)
    requires
        inverse.finite(),
        folds > 0,
    ensures
        2 <= audit_fold_count(inverse) <= 10,
        inverse.scaled() == k * vstd::arithmetic::power2::pow2(1074) && 2 <= k <= 10 ==> audit_fold_count(inverse) == k,
        inverse.scaled() == k * vstd::arithmetic::power2::pow2(1074) && k < 2 ==> audit_fold_count(inverse) == 2,
        inverse.scaled() == k * vstd::arithmetic::power2::pow2(1074) && k > 10 ==> audit_fold_count(inverse) == 10,
        audit_seed(Task::Binary, seed) == seed ^ 0xB10C_C0A7_E57B_1A5E,
        audit_seed(Task::Regression, seed) == seed ^ 0xC0B1_0C0A_7E57_5EED,
        audit_seed(Task::Binary, seed) != audit_seed(Task::Regression, seed),
        seed != other ==> audit_seed(Task::Binary, seed) != audit_seed(Task::Binary, other) && audit_seed(
            Task::Regression,
            seed,
        ) != audit_seed(Task::Regression, other),
        0 <= hashed_fold(row, seed, folds) < folds,
{
    crate::num::law_rounding_is_to_the_nearest(inverse);
    vstd::arithmetic::power2::lemma_pow2_pos(1074);
    let u = vstd::arithmetic::power2::pow2(1074) as int;
    let r = inverse.rounded();
    if inverse.scaled() == k * u {
        assert(r == k) by (nonlinear_arith)
            requires
                u > 0,
                (2 * r - 1) * u <= 2 * (k * u) <= (2 * r + 1) * u,
                (2 * r - 1) * u < 2 * (k * u) || 2 * (k * u) < (2 * r + 1) * u,
        ;
    }
    assert(seed ^ 0xB10C_C0A7_E57B_1A5E != seed ^ 0xC0B1_0C0A_7E57_5EED && (seed != other ==> seed
        ^ 0xB10C_C0A7_E57B_1A5E != other ^ 0xB10C_C0A7_E57B_1A5E && seed ^ 0xC0B1_0C0A_7E57_5EED != other
        ^ 0xC0B1_0C0A_7E57_5EED)) by (bit_vector);
}

/// A plan is audited only where every fold has two dozen rows to be checked on and
/// leaves more rows than there are blocks to fit on, thirty-two at least; and
/// wherever that is so.
pub proof fn law_audit_folds_hold_rows(fold_of_row: Seq<usize>, folds: int, n_blocks: int, f: usize)
    requires
        0 <= n_blocks,
    ensures
        folds_suffice(fold_of_row, folds, n_blocks) && f < folds ==> {
            &&& count_of(fold_of_row, f) >= 24
            &&& fold_of_row.len() - count_of(fold_of_row, f) >= 32
            &&& fold_of_row.len() - count_of(fold_of_row, f) > n_blocks + 1
        },
        !folds_suffice(fold_of_row, folds, n_blocks) ==> exists|g: usize|
            g < folds && (#[trigger] count_of(fold_of_row, g) < 24 || fold_of_row.len() - count_of(fold_of_row, g) < 32
                || fold_of_row.len() - count_of(fold_of_row, g) < n_blocks + 2),
{
}

proof fn lemma_run_last(step: RefitStep, outcomes: Seq<bool>, folds: int, has_eval: bool)
    requires
        outcomes.len() > 0,
    ensures
        run_steps(step, outcomes, folds, has_eval) == step_after(
            run_steps(step, outcomes.drop_last(), folds, has_eval),
            outcomes.last(),
            folds,
            has_eval,
        ),
    decreases outcomes.len(),
{
    let next = step_after(step, outcomes[0], folds, has_eval);
    if outcomes.len() > 1 {
        lemma_run_last(next, outcomes.skip(1), folds, has_eval);
        assert(outcomes.skip(1).drop_last() =~= outcomes.drop_last().skip(1));
        assert(outcomes.drop_last()[0] == outcomes[0]);
    } else {
        assert(outcomes.skip(1) =~= Seq::<bool>::empty());
        assert(outcomes.drop_last() =~= Seq::<bool>::empty());
        reveal_with_fuel(run_steps, 2);
    }
}

/// While all goes well, every fold is solved and then scored, in turn; all of them
/// are judged once after the last, all rows are solved after that, and the
/// evaluation set, where there is one, has the last word.
pub proof fn law_refits_go_step_by_step(outcomes: Seq<bool>, folds: int, has_eval: bool)
    requires
        0 <= folds <= usize::MAX,
        forall|i: int| 0 <= i < outcomes.len() ==> #[trigger] outcomes[i],
    ensures
        ({
            let n = outcomes.len() as int;
            let audit: int = if folds == 0 {
                0
            } else {
                2 * folds + 1
            };
            run_steps(first_step(folds), outcomes, folds, has_eval) == if n < 2 * folds {
                if n % 2 == 0 {
                    RefitStep::SolveFold((n / 2) as usize)
                } else {
                    RefitStep::ScoreFold((n / 2) as usize)
                }
            } else if n < audit {
                RefitStep::JudgeAudit
            } else if n == audit {
                RefitStep::SolveAll
            } else if n == audit + 1 && has_eval {
                RefitStep::JudgeEval
            } else {
                RefitStep::Install
            }
        }),
    decreases outcomes.len(),
{
    if outcomes.len() > 0 {
        law_refits_go_step_by_step(outcomes.drop_last(), folds, has_eval);
        lemma_run_last(first_step(folds), outcomes, folds, has_eval);
        assert(outcomes.last());
    }
}

/// A step that fails ends the refit for good: nothing is installed after it.
pub proof fn law_failed_refits_are_dropped(outcomes: Seq<bool>, more: Seq<bool>, folds: int, has_eval: bool)
    requires
        0 <= folds <= usize::MAX,
        run_steps(first_step(folds), outcomes, folds, has_eval) != RefitStep::Install,
    ensures
        run_steps(first_step(folds), outcomes.push(false) + more, folds, has_eval) == RefitStep::Keep,
    decreases more.len(),
{
    let all = outcomes.push(false) + more;
    lemma_run_last(first_step(folds), all, folds, has_eval);
    if more.len() > 0 {
        law_failed_refits_are_dropped(outcomes, more.drop_last(), folds, has_eval);
        assert(all.drop_last() =~= outcomes.push(false) + more.drop_last());
    } else {
        assert(all.drop_last() =~= outcomes);
        assert(!all.last());
    }
}

} // verus!
