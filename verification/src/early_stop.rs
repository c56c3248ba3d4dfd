//! Early stopping on an evaluation loss.

use crate::num::Num;
use vstd::prelude::*;

verus! {

/// The largest finite number, which every first loss has to beat.
pub const LARGEST: u64 = 0x7fef_ffff_ffff_ffff;

/// What early stopping remembers: the best loss, the number of rounds up to
/// and with the one that gave it, and the rounds without improvement since.
pub struct EarlyStopping {
    pub best_loss: Num,
    pub best_round: usize,
    pub stale: usize,
}

/// The memory after the losses of rounds 0, 1 and so on.
pub open spec fn observed(losses: Seq<Num>) -> (Num, nat, nat)
    decreases losses.len(),
{
    if losses.len() == 0 {
        (Num { bits: LARGEST }, 0, 0)
    } else {
        let before = observed(losses.drop_last());
        if losses.last().below(before.0) {
            (losses.last(), losses.len(), 0)
        } else {
            (before.0, before.1, before.2 + 1)
        }
    }
}

/// Whether training stops after these losses: the last one is no improvement, and
/// `patience` rounds have brought none.
pub open spec fn gives_up(losses: Seq<Num>, patience: int) -> bool {
    losses.len() > 0 && !losses.last().below(observed(losses.drop_last()).0) && observed(losses).2 >= patience
}

impl EarlyStopping {
    /// The memory is that of the losses seen so far.
    pub open spec fn remembers(&self, losses: Seq<Num>) -> bool {
        (self.best_loss, self.best_round as nat, self.stale as nat) == observed(losses)
    }

    pub fn start() -> (r: EarlyStopping)
        ensures
            r.remembers(Seq::empty()),
    {
        EarlyStopping { best_loss: Num { bits: LARGEST }, best_round: 0, stale: 0 }
    }

    /// Takes note of the loss of a round, and says whether to stop: after
    /// `patience` rounds without a loss below the best.
    pub fn observe(&mut self, history: &Vec<Num>, loss: &Num, patience: usize) -> (stop: bool)
        requires
            old(self).remembers(history@),
            history@.len() < usize::MAX,
        ensures
            final(self).remembers(history@.push(*loss)),
            stop == (!loss.below(old(self).best_loss) && final(self).stale >= patience),
            stop == gives_up(history@.push(*loss), patience as int),
    {
        assert(history@.push(*loss).drop_last() =~= history@);
        proof {
            lemma_stale(history@);
        }
        if loss.lt(&self.best_loss) {
            self.best_loss = *loss;
            self.best_round = history.len() + 1;
            self.stale = 0;
            false
        } else {
            self.stale = self.stale + 1;
            self.stale >= patience
        }
    }
}

proof fn lemma_stale(losses: Seq<Num>)
    ensures
        observed(losses).1 + observed(losses).2 == losses.len(),
    decreases losses.len(),
{
    if losses.len() > 0 {
        lemma_stale(losses.drop_last());
    }
}

/// The best round is the first of those with the lowest loss: no loss after it
/// is lower, and each one before it is higher. It is zero where no loss is a
/// number below the largest finite one, and the rounds since it are those
/// without improvement.
pub proof fn law_best_round_is_first_lowest(losses: Seq<Num>)
    ensures
        ({
            let (best, round, stale) = observed(losses);
            &&& round + stale == losses.len()
            &&& round == 0 ==> best.bits == LARGEST && forall|q: int|
                0 <= q < losses.len() ==> !(#[trigger] losses[q]).below(Num { bits: LARGEST })
            &&& round > 0 ==> {
                &&& best == losses[round - 1]
                &&& best.below(Num { bits: LARGEST })
                &&& forall|q: int|
                    0 <= q < losses.len() ==> !(#[trigger] losses[q]).below(best)
                &&& forall|q: int|
                    0 <= q < round - 1 ==> !(#[trigger] losses[q]).at_most(best)
            }
        }),
    decreases losses.len(),
{
    lemma_stale(losses);
    if losses.len() > 0 {
        let rest = losses.drop_last();
        law_best_round_is_first_lowest(rest);
        let (best, round, stale) = observed(losses);
        let (best0, round0, stale0) = observed(rest);
        assert forall|q: int| 0 <= q < losses.len() implies !(#[trigger] losses[q]).below(best) by {
            if q < rest.len() {
                assert(rest[q] == losses[q]);
            }
        }
        assert forall|q: int| 0 <= q < round - 1 implies !(#[trigger] losses[q]).at_most(best) by {
            assert(rest[q] == losses[q]);
        }
        assert forall|q: int| round == 0 && 0 <= q < losses.len() implies !(#[trigger] losses[q]).below(
            Num { bits: LARGEST },
        ) by {
            if q < rest.len() {
                assert(rest[q] == losses[q]);
            }
        }
        if round > 0 && round == round0 {
            assert(rest[round - 1] == losses[round - 1]);
        }
    }
}

/// Training stops exactly where as many rounds as the patience have passed since the best
/// one, and never right after a loss below all others.
pub proof fn law_patience_runs_out(losses: Seq<Num>, patience: int)
    requires
        losses.len() > 0,
    ensures
        patience >= 1 ==> (gives_up(losses, patience) <==> losses.len() - observed(losses).1 >= patience),
        (forall|q: int| 0 <= q < losses.len() - 1 ==> losses.last().below(#[trigger] losses[q])) && losses.last().below(
            Num { bits: 0x7fef_ffff_ffff_ffff },
        ) ==> !gives_up(losses, patience),
        losses.len() > 1 && losses[losses.len() - 2].at_most(losses.last()) && patience <= 1 ==> gives_up(
            losses,
            patience,
        ),
{
    law_best_round_is_first_lowest(losses);
    let rest = losses.drop_last();
    law_best_round_is_first_lowest(rest);
    if (forall|q: int| 0 <= q < losses.len() - 1 ==> losses.last().below(#[trigger] losses[q])) && losses.last().below(
        Num { bits: 0x7fef_ffff_ffff_ffff },
    ) {
        if observed(rest).1 > 0 {
            assert(rest[observed(rest).1 - 1] == losses[observed(rest).1 - 1]);
        }
    }
    if losses.len() > 1 && losses[losses.len() - 2].at_most(losses.last()) {
        assert(rest[rest.len() - 1] == losses[losses.len() - 2]);
        assert(!rest[rest.len() - 1].below(observed(rest).0));
    }
}

} // verus!
