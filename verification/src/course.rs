//! Whole courses of training, from the first round to the trees that stay.

use crate::early_stop::observed;
use crate::multiclass::{trees_kept, FitCourse, FitStep};
use crate::num::Num;
use crate::select::at_most;
use vstd::prelude::*;

verus! {

/// Whether a loss ends training: it does not beat the best so far, and neither
/// did the losses of so many rounds.
pub open spec fn stops(before: Seq<Num>, loss: Num, patience: int) -> bool {
    !loss.below(observed(before).0) && observed(before.push(loss)).2 >= patience
}

/// What a training with evaluation rows is run with: the course, the rounds
/// without improvement that end it, the trees of a round, and whether all trees
/// are kept.
pub struct Training {
    pub course: FitCourse,
    pub patience: usize,
    pub trees_per_round: usize,
    pub keep_all: bool,
}

impl Training {
    /// The step to come, the losses so far and the number of trees, after `n`
    /// steps of a training whose rounds have the losses of `all`.
    pub open spec fn after(&self, all: Seq<Num>, n: nat) -> (FitStep, Seq<Num>, int)
        decreases n,
    {
        if n == 0 {
            (self.course.first(), Seq::empty(), 0)
        } else {
            let (step, losses, trees) = self.after(all, (n - 1) as nat);
            match step {
                FitStep::Build(r) => (self.course.next(step, false), losses, trees + self.trees_per_round),
                FitStep::Evaluate(r) => (
                    self.course.next(step, stops(losses, all[r as int], self.patience as int)),
                    losses.push(all[r as int]),
                    trees,
                ),
                FitStep::Trim => (
                    self.course.next(step, false),
                    losses,
                    trees_kept(
                        trees,
                        observed(losses).1 as int,
                        self.trees_per_round as int,
                        self.course.evaluates,
                        self.keep_all,
                    ),
                ),
                _ => (self.course.next(step, false), losses, trees),
            }
        }
    }

    /// The end of a training.
    pub open spec fn end(&self, all: Seq<Num>) -> (FitStep, Seq<Num>, int) {
        self.after(all, self.course.left(self.course.first()) as nat)
    }

    /// Rounds up to `r` are behind, and none of them ended the training.
    spec fn goes_on(&self, all: Seq<Num>, losses: Seq<Num>, r: int) -> bool {
        losses == all.take(r) && observed(losses).2 < self.patience
    }

    /// The losses are those of all rounds up to the one that ended the training.
    spec fn ended(&self, all: Seq<Num>, losses: Seq<Num>) -> bool {
        &&& losses.len() <= self.course.n_rounds
        &&& losses == all.take(losses.len() as int)
        &&& observed(losses).2 <= self.patience
        &&& observed(losses).2 == self.patience || losses.len() == self.course.n_rounds
    }

    spec fn keeps(&self, all: Seq<Num>, state: (FitStep, Seq<Num>, int)) -> bool {
        let (step, losses, trees) = state;
        &&& self.course.in_course(step)
        &&& match step {
            FitStep::Build(r) => self.goes_on(all, losses, r as int) && trees == r * self.trees_per_round,
            FitStep::Evaluate(r) => self.goes_on(all, losses, r as int) && trees == (r + 1) * self.trees_per_round,
            FitStep::Refine(r) => self.goes_on(all, losses, r + 1) && trees == (r + 1) * self.trees_per_round,
            FitStep::Trim => self.ended(all, losses) && trees == losses.len() * self.trees_per_round,
            _ => self.ended(all, losses) && trees == trees_kept(
                losses.len() * self.trees_per_round,
                observed(losses).1 as int,
                self.trees_per_round as int,
                true,
                self.keep_all,
            ),
        }
    }

    proof fn lemma_step(&self, all: Seq<Num>, n: nat)
        requires
            self.course.evaluates,
            self.patience > 0,
            self.course.n_rounds <= all.len(),
        ensures
            self.keeps(all, self.after(all, n)),
            self.after(all, n).0 == FitStep::Done || self.course.left(self.after(all, n).0) + n <= self.course.left(
                self.course.first(),
            ),
        decreases n,
    {
        assert(0 * self.trees_per_round == 0) by (nonlinear_arith);
        if n == 0 {
            assert(all.take(0) =~= Seq::empty());
        } else {
            self.lemma_step(all, (n - 1) as nat);
            let (step, losses, trees) = self.after(all, (n - 1) as nat);
            match step {
                FitStep::Build(r) => {
                    let t = self.trees_per_round as int;
                    assert(r * t + t == (r + 1) * t) by (nonlinear_arith);
                },
                FitStep::Evaluate(r) => {
                    let more = losses.push(all[r as int]);
                    assert(more =~= all.take(r + 1));
                    assert(more.drop_last() =~= losses);
                },
                _ => {},
            }
        }
    }
}

/// A training with evaluation rows ends, and stops exactly when so many rounds
/// in a row brought no lower loss: the losses are those of the rounds up to
/// then, or of all rounds. The trees that stay are those of the rounds up to
/// the best one, unless all are kept.
pub proof fn law_training_stops_after_patience(training: Training, all: Seq<Num>)
    requires
        training.course.evaluates,
        training.patience > 0,
        training.course.n_rounds <= all.len(),
    ensures
        ({
            let (step, losses, trees) = training.end(all);
            let best = observed(losses).1 as int;
            &&& step == FitStep::Done
            &&& losses == all.take(losses.len() as int)
            &&& losses.len() == at_most(training.course.n_rounds as int, best + training.patience)
            &&& trees == (if training.keep_all {
                losses.len()
            } else {
                best as nat
            }) * training.trees_per_round
        }),
{
    let n = training.course.left(training.course.first()) as nat;
    training.lemma_step(all, n);
    let (step, losses, trees) = training.end(all);
    assert(training.course.in_course(step));
    crate::early_stop::law_best_round_is_first_lowest(losses);
    let best = observed(losses).1 as int;
    let t = training.trees_per_round as int;
    if best < losses.len() {
        assert(best * t <= losses.len() * t) by (nonlinear_arith)
            requires
                best <= losses.len(),
                0 <= t,
        ;
    }
}

/// Rounds up to `r` are behind in a training without evaluation rows.
spec fn runs_on(training: Training, state: (FitStep, Seq<Num>, int)) -> bool {
    let (step, losses, trees) = state;
    let t = training.trees_per_round;
    &&& training.course.in_course(step)
    &&& losses.len() == 0
    &&& match step {
        FitStep::Build(r) => trees == r * t,
        FitStep::Evaluate(r) => false,
        FitStep::Refine(r) => trees == (r + 1) * t,
        _ => trees == training.course.n_rounds * t,
    }
}

proof fn lemma_runs_on(training: Training, all: Seq<Num>, n: nat)
    requires
        !training.course.evaluates,
    ensures
        runs_on(training, training.after(all, n)),
        training.after(all, n).0 == FitStep::Done || training.course.left(training.after(all, n).0) + n
            <= training.course.left(training.course.first()),
    decreases n,
{
    assert(0 * training.trees_per_round == 0) by (nonlinear_arith);
    if n > 0 {
        lemma_runs_on(training, all, (n - 1) as nat);
        let (step, losses, trees) = training.after(all, (n - 1) as nat);
        match step {
            FitStep::Build(r) => {
                let t = training.trees_per_round as int;
                assert(r * t + t == (r + 1) * t) by (nonlinear_arith);
            },
            _ => {},
        }
    }
}

/// A training without evaluation rows ends after all its rounds, with their
/// trees and without a loss.
pub proof fn law_training_runs_all_rounds(training: Training, all: Seq<Num>)
    requires
        !training.course.evaluates,
    ensures
        ({
            let (step, losses, trees) = training.end(all);
            &&& step == FitStep::Done
            &&& losses.len() == 0
            &&& trees == training.course.n_rounds * training.trees_per_round
        }),
{
    lemma_runs_on(training, all, training.course.left(training.course.first()) as nat);
}

/// The step of a course after `n` steps, where `stops` holds the verdicts of the
/// evaluations, step by step.
pub open spec fn step_at(course: FitCourse, stops: Seq<bool>, n: nat) -> FitStep
    decreases n,
{
    if n == 0 {
        course.first()
    } else {
        course.next(step_at(course, stops, (n - 1) as nat), stops[n - 1])
    }
}

/// How often a step is taken among the first `n` steps.
pub open spec fn visits(course: FitCourse, stops: Seq<bool>, step: FitStep, n: nat) -> nat
    decreases n,
{
    if n == 0 {
        0
    } else {
        visits(course, stops, step, (n - 1) as nat) + if step_at(course, stops, (n - 1) as nat) == step {
            1nat
        } else {
            0
        }
    }
}

spec fn trimmed(step: FitStep) -> bool {
    match step {
        FitStep::Build(_) | FitStep::Evaluate(_) | FitStep::Refine(_) | FitStep::Trim => false,
        _ => true,
    }
}

proof fn lemma_tail_of_course(course: FitCourse, stops: Seq<bool>, p: usize, n: nat)
    ensures
        ({
            let cur = step_at(course, stops, n);
            let refits = course.n_refine > 0;
            &&& course.in_course(cur)
            &&& cur == FitStep::RefineAll || cur == FitStep::Prune ==> refits
            &&& visits(course, stops, FitStep::Trim, n) == if trimmed(cur) {
                1nat
            } else {
                0
            }
            &&& visits(course, stops, FitStep::RefineAll, n) == if cur == FitStep::Prune || (cur == FitStep::Done
                && refits) {
                1nat
            } else {
                0
            }
            &&& cur != FitStep::Done ==> visits(course, stops, FitStep::Prune, n) == 0
            &&& cur == FitStep::Done ==> visits(course, stops, FitStep::Prune, n) == if refits {
                1nat
            } else {
                0
            }
            &&& visits(course, stops, FitStep::SplitLeaves(p), n) == (match cur {
                FitStep::SplitLeaves(q) => if p < q {
                    1nat
                } else {
                    0
                },
                FitStep::RefineSplit(q) => if p <= q {
                    1nat
                } else {
                    0
                },
                _ => if trimmed(cur) && p < course.n_leaf_splits {
                    1nat
                } else {
                    0
                },
            })
            &&& visits(course, stops, FitStep::RefineSplit(p), n) == (match cur {
                FitStep::SplitLeaves(q) => if p < q {
                    1nat
                } else {
                    0
                },
                FitStep::RefineSplit(q) => if p < q {
                    1nat
                } else {
                    0
                },
                _ => if trimmed(cur) && p < course.n_leaf_splits {
                    1nat
                } else {
                    0
                },
            })
        }),
    decreases n,
{
    if n > 0 {
        lemma_tail_of_course(course, stops, p, (n - 1) as nat);
    }
}

proof fn lemma_course_ends(course: FitCourse, stops: Seq<bool>, n: nat)
    ensures
        course.in_course(step_at(course, stops, n)),
        step_at(course, stops, n) == FitStep::Done || course.left(step_at(course, stops, n)) + n <= course.left(
            course.first(),
        ),
    decreases n,
{
    if n > 0 {
        lemma_course_ends(course, stops, (n - 1) as nat);
    }
}

/// Whatever the rounds bring, a course ends, and what follows the rounds is done
/// once: the trees are cut back once, each pass that splits leaves is made once
/// and refitted once, and where refits are asked for all trees are refitted once
/// and pruned once. Where none are asked for, that never happens.
pub proof fn law_refits_follow_the_rounds(course: FitCourse, stops: Seq<bool>, n: nat, p: usize)
    requires
        n >= 3 * course.n_rounds + 2 * course.n_leaf_splits + 4,
    ensures
        step_at(course, stops, n) == FitStep::Done,
        visits(course, stops, FitStep::Trim, n) == 1,
        visits(course, stops, FitStep::RefineAll, n) == if course.n_refine > 0 {
            1nat
        } else {
            0
        },
        visits(course, stops, FitStep::Prune, n) == visits(course, stops, FitStep::RefineAll, n),
        visits(course, stops, FitStep::SplitLeaves(p), n) == if p < course.n_leaf_splits {
            1nat
        } else {
            0
        },
        visits(course, stops, FitStep::RefineSplit(p), n) == visits(course, stops, FitStep::SplitLeaves(p), n),
{
    lemma_course_ends(course, stops, n);
    lemma_tail_of_course(course, stops, p, n);
}

/// A refit of all trees comes after the cut back and after every leaf was split.
pub proof fn law_refits_come_last(course: FitCourse, stops: Seq<bool>, n: nat, p: usize)
    requires
        step_at(course, stops, n) == FitStep::RefineAll,
    ensures
        visits(course, stops, FitStep::Trim, n) == 1,
        p < course.n_leaf_splits ==> visits(course, stops, FitStep::RefineSplit(p), n) == 1,
        step_at(course, stops, n + 1) == FitStep::Prune,
        step_at(course, stops, n + 2) == FitStep::Done,
{
    lemma_tail_of_course(course, stops, p, n);
}

spec fn behind(cur: FitStep, n_rounds: int) -> int {
    match cur {
        FitStep::Build(k) => k as int,
        FitStep::Evaluate(k) => k as int,
        FitStep::Refine(k) => k as int,
        _ => n_rounds,
    }
}

proof fn lemma_rounds_of_course(course: FitCourse, stops: Seq<bool>, r: usize, n: nat)
    requires
        forall|i: int| 0 <= i < stops.len() ==> !#[trigger] stops[i],
        n <= stops.len(),
    ensures
        ({
            let cur = step_at(course, stops, n);
            let done = behind(cur, course.n_rounds as int);
            let due = course.refine_every > 0 && (r + 1) % course.refine_every as int == 0;
            &&& course.in_course(cur)
            &&& done <= course.n_rounds
            &&& cur matches FitStep::Refine(k) ==> course.refine_every > 0 && (k + 1) % course.refine_every as int == 0
            &&& visits(course, stops, FitStep::Build(r), n) == if r < done || (r == done && !(cur is Build) && r
                < course.n_rounds) {
                1nat
            } else {
                0
            }
            &&& visits(course, stops, FitStep::Evaluate(r), n) == if course.evaluates && (r < done || (r == done
                && cur is Refine)) {
                1nat
            } else {
                0
            }
            &&& visits(course, stops, FitStep::Refine(r), n) == if due && r < done {
                1nat
            } else {
                0
            }
        }),
    decreases n,
{
    if n > 0 {
        lemma_rounds_of_course(course, stops, r, (n - 1) as nat);
        assert(!stops[n - 1]);
    }
}

/// Where no evaluation stops it, a course builds every round once, evaluates it
/// once where there are rows to evaluate on, and refits after it exactly where
/// the number of rounds so far is a multiple of the interval that is set.
pub proof fn law_rounds_are_built_and_refitted(course: FitCourse, stops: Seq<bool>, r: usize)
    requires
        stops.len() >= 3 * course.n_rounds + 2 * course.n_leaf_splits + 4,
        forall|i: int| 0 <= i < stops.len() ==> !#[trigger] stops[i],
    ensures
        visits(course, stops, FitStep::Build(r), stops.len()) == if r < course.n_rounds {
            1nat
        } else {
            0
        },
        visits(course, stops, FitStep::Evaluate(r), stops.len()) == if course.evaluates && r < course.n_rounds {
            1nat
        } else {
            0
        },
        visits(course, stops, FitStep::Refine(r), stops.len()) == if r < course.n_rounds && course.refine_every > 0 && (
        r + 1) % course.refine_every as int == 0 {
            1nat
        } else {
            0
        },
{
    lemma_course_ends(course, stops, stops.len());
    lemma_rounds_of_course(course, stops, r, stops.len());
}

/// A round that an evaluation stops at is the last one: nothing more is built.
pub proof fn law_a_stop_ends_the_rounds(course: FitCourse, stops: Seq<bool>, n: nat, m: nat)
    requires
        step_at(course, stops, n) is Evaluate,
        stops[n as int],
        n < m,
    ensures
        step_at(course, stops, n + 1) == FitStep::Trim,
        !(step_at(course, stops, m) is Build),
        !(step_at(course, stops, m) is Evaluate),
        !(step_at(course, stops, m) is Refine),
    decreases m,
{
    if m > n + 1 {
        law_a_stop_ends_the_rounds(course, stops, n, (m - 1) as nat);
    }
}

} // verus!
