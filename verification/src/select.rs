//! Selection of the best-scored candidates.

use crate::num::Num;
use crate::order::{is_ranking, precedes, rank_descending};
use vstd::prelude::*;

verus! {

/// Whether a number is above zero.
pub open spec fn positive(v: Num) -> bool {
    (Num { bits: 0 }).below(v)
}

pub fn is_positive(v: &Num) -> (r: bool)
    ensures
        r == positive(*v),
{
    let zero: Num = Num { bits: 0 };
    zero.lt(v)
}

/// The candidates that `keep` admits, in index order.
pub open spec fn kept_indices(keep: Seq<bool>) -> Seq<usize>
    decreases keep.len(),
{
    if keep.len() == 0 {
        Seq::empty()
    } else if keep.last() {
        kept_indices(keep.drop_last()).push((keep.len() - 1) as usize)
    } else {
        kept_indices(keep.drop_last())
    }
}

/// The kept indices are exactly those that are kept, in ascending order.
pub proof fn lemma_kept_indices(keep: Seq<bool>)
    requires
        keep.len() <= usize::MAX,
    ensures
        kept_indices(keep).len() <= keep.len(),
        forall|p: int|
            0 <= p < kept_indices(keep).len() ==> (#[trigger] kept_indices(keep)[p]) < keep.len()
                && keep[kept_indices(keep)[p] as int],
        forall|p: int, q: int|
            #![trigger kept_indices(keep)[p], kept_indices(keep)[q]]
            0 <= p < q < kept_indices(keep).len() ==> kept_indices(keep)[p] < kept_indices(keep)[q],
        forall|i: int| 0 <= i < keep.len() && #[trigger] keep[i] ==> kept_indices(keep).contains(i as usize),
    decreases keep.len(),
{
    if keep.len() > 0 {
        let rest = keep.drop_last();
        lemma_kept_indices(rest);
        let r = kept_indices(rest);
        let all = kept_indices(keep);
        assert forall|i: int| 0 <= i < keep.len() && #[trigger] keep[i] implies all.contains(i as usize) by {
            if i < rest.len() {
                assert(rest[i]);
                let p = choose|p: int| 0 <= p < r.len() && r[p] == i as usize;
                assert(all[p] == r[p]);
            } else {
                assert(all[r.len() as int] == i as usize);
            }
        }
        assert forall|p: int| 0 <= p < all.len() implies (#[trigger] all[p]) < keep.len() && keep[all[p] as int] by {
            if p < r.len() {
                assert(all[p] == r[p]);
                assert(rest[r[p] as int]);
            }
        }
        assert forall|p: int, q: int|
            #![trigger all[p], all[q]]
            0 <= p < q < all.len() implies all[p] < all[q] by {
            assert(all[p] == r[p]);
            assert(r[p] < rest.len());
            if q < r.len() {
                assert(all[q] == r[q]);
            }
        }
    }
}

/// The indices that `keep` admits.
pub fn collect_kept(keep: &Vec<bool>) -> (list: Vec<usize>)
    ensures
        list@ == kept_indices(keep@),
{
    let mut list: Vec<usize> = Vec::new();
    let mut i: usize = 0;
    assert(keep@.take(0) =~= Seq::empty());
    while i < keep.len()
        invariant
            i <= keep@.len(),
            list@ == kept_indices(keep@.take(i as int)),
        decreases keep@.len() - i,
    {
        assert(keep@.take(i + 1).drop_last() =~= keep@.take(i as int));
        if keep[i] {
            list.push(i);
        }
        i = i + 1;
    }
    assert(keep@.take(keep@.len() as int) =~= keep@);
    list
}

/// Whether candidate `a` is ranked before candidate `b`: by a higher score, or
/// by a lower index where the scores are equal.
pub open spec fn better(scores: Seq<Num>, a: int, b: int) -> bool {
    scores[a].key() > scores[b].key() || (scores[a].key() == scores[b].key() && a < b)
}

pub open spec fn at_most(a: int, b: int) -> int {
    if a <= b {
        a
    } else {
        b
    }
}

/// `top` lists the best of the kept candidates, best first, at most `limit` of
/// them and no fewer than there are.
pub open spec fn is_top(scores: Seq<Num>, keep: Seq<bool>, limit: int, top: Seq<usize>) -> bool {
    &&& top.len() == at_most(limit, kept_indices(keep).len() as int)
    &&& forall|p: int| 0 <= p < top.len() ==> (#[trigger] top[p]) < scores.len() && keep[top[p] as int]
    &&& forall|p: int, q: int|
        #![trigger top[p], top[q]]
        0 <= p < q < top.len() ==> better(scores, top[p] as int, top[q] as int)
    &&& forall|p: int, i: int|
        #![trigger top[p], keep[i]]
        0 <= p < top.len() && 0 <= i < keep.len() && keep[i] && !top.contains(i as usize) ==> better(
            scores,
            top[p] as int,
            i,
        )
}

/// The best `limit` of the candidates that `keep` admits, best first.
pub fn select_top(scores: &Vec<Num>, keep: &Vec<bool>, limit: usize) -> (top: Vec<usize>)
    requires
        scores@.len() == keep@.len(),
    ensures
        is_top(scores@, keep@, limit as int, top@),
{
    let list: Vec<usize> = collect_kept(keep);
    assert(keep.len() == keep@.len());
    proof {
        lemma_kept_indices(keep@);
    }
    let mut keys: Vec<i64> = Vec::new();
    let mut i: usize = 0;
    while i < list.len()
        invariant
            i <= list@.len(),
            keys@.len() == i,
            forall|p: int| 0 <= p < list@.len() ==> (#[trigger] list@[p]) < scores@.len(),
            forall|p: int| 0 <= p < i ==> #[trigger] keys@[p] == scores@[list@[p] as int].key(),
        decreases list@.len() - i,
    {
        keys.push(scores[list[i]].order_key());
        i = i + 1;
    }
    let ranked: Vec<usize> = rank_descending(&keys);
    let mut top: Vec<usize> = Vec::new();
    let mut t: usize = 0;
    while t < ranked.len() && t < limit
        invariant
            t <= limit,
            t <= ranked@.len(),
            is_ranking(keys@, ranked@),
            keys@.len() == list@.len(),
            top@.len() == t,
            forall|p: int| 0 <= p < t ==> #[trigger] top@[p] == list@[ranked@[p] as int],
        decreases ranked@.len() - t,
    {
        assert(ranked@[t as int] < keys@.len());
        top.push(list[ranked[t]]);
        t = t + 1;
    }
    proof {
        assert forall|p: int, q: int|
            #![trigger top@[p], top@[q]]
            0 <= p < q < top@.len() implies better(scores@, top@[p] as int, top@[q] as int) by {
            let a = ranked@[p] as int;
            let b = ranked@[q] as int;
            assert(precedes(keys@, a, b));
            assert(keys@[a] == scores@[list@[a] as int].key());
            assert(keys@[b] == scores@[list@[b] as int].key());
            if a < b {
                assert(list@[a] < list@[b]);
            }
        }
        assert forall|p: int, i: int|
            #![trigger top@[p], keep@[i]]
            0 <= p < top@.len() && 0 <= i < keep@.len() && keep@[i] && !top@.contains(i as usize) implies better(
            scores@,
            top@[p] as int,
            i,
        ) by {
            let b = choose|b: int| 0 <= b < list@.len() && list@[b] == i as usize;
            crate::order::lemma_ranking_covers(keys@, ranked@, 0, keys@.len() as int, b);
            let q = choose|q: int| 0 <= q < ranked@.len() && ranked@[q] == b as usize;
            if q < top@.len() {
                assert(top@[q] == i as usize);
            }
            let a = ranked@[p] as int;
            assert(precedes(keys@, ranked@[p] as int, ranked@[q] as int));
            assert(keys@[a] == scores@[list@[a] as int].key());
            assert(keys@[b] == scores@[list@[b] as int].key());
            if a < b {
                assert(list@[a] < list@[b]);
            }
        }
    }
    top
}

/// The best `limit` candidates with a score above zero, best first.
pub fn select_positive(scores: &Vec<Num>, limit: usize) -> (top: Vec<usize>)
    ensures
        is_top(scores@, Seq::new(scores@.len(), |i: int| positive(scores@[i])), limit as int, top@),
{
    let keep: Vec<bool> = positive_flags(scores);
    assert(keep@ =~= Seq::new(scores@.len(), |i: int| positive(scores@[i])));
    select_top(scores, &keep, limit)
}

/// Which scores are above zero.
pub fn positive_flags(scores: &Vec<Num>) -> (keep: Vec<bool>)
    ensures
        keep@.len() == scores@.len(),
        forall|i: int| 0 <= i < scores@.len() ==> #[trigger] keep@[i] == positive(scores@[i]),
{
    let mut keep: Vec<bool> = Vec::new();
    let mut i: usize = 0;
    while i < scores.len()
        invariant
            i <= scores@.len(),
            keep@.len() == i,
            forall|j: int| 0 <= j < i ==> #[trigger] keep@[j] == positive(scores@[j]),
        decreases scores@.len() - i,
    {
        keep.push(is_positive(&scores[i]));
        i = i + 1;
    }
    keep
}

/// Flags that keep all of `n` candidates.
pub open spec fn all_kept(n: nat) -> Seq<bool> {
    Seq::new(n, |i: int| true)
}

pub fn keep_all(n: usize) -> (flags: Vec<bool>)
    ensures
        flags@ == all_kept(n as nat),
{
    let mut flags: Vec<bool> = Vec::new();
    let mut i: usize = 0;
    while i < n
        invariant
            i <= n,
            flags@.len() == i,
            forall|k: int| 0 <= k < i ==> #[trigger] flags@[k],
        decreases n - i,
    {
        flags.push(true);
        i = i + 1;
    }
    assert(flags@ =~= all_kept(n as nat));
    flags
}

/// An index is kept exactly where it is marked.
pub proof fn law_kept_are_those_marked(keep: Seq<bool>, i: usize)
    requires
        keep.len() <= usize::MAX,
    ensures
        kept_indices(keep).contains(i) <==> i < keep.len() && keep[i as int],
{
    lemma_kept_indices(keep);
    let kept = kept_indices(keep);
    if kept.contains(i) {
        let p = choose|p: int| 0 <= p < kept.len() && kept[p] == i;
        assert(keep[kept[p] as int]);
    }
    if i < keep.len() && keep[i as int] {
        assert(kept.contains(i as usize));
    }
}

/// What is marked and what is not are all there is.
pub proof fn law_marked_and_unmarked_add_up(a: Seq<bool>, b: Seq<bool>)
    requires
        a.len() == b.len(),
        forall|i: int| 0 <= i < a.len() ==> #[trigger] a[i] != b[i],
    ensures
        kept_indices(a).len() + kept_indices(b).len() == a.len(),
    decreases a.len(),
{
    if a.len() > 0 {
        assert forall|i: int| 0 <= i < a.drop_last().len() implies #[trigger] a.drop_last()[i] != b.drop_last()[i] by {
            assert(a[i] != b[i]);
        }
        law_marked_and_unmarked_add_up(a.drop_last(), b.drop_last());
        assert(a[a.len() - 1] != b[a.len() - 1]);
    }
}

/// A number is positive where its value is above zero, infinity too.
pub proof fn law_positive_is_above_zero(v: Num)
    ensures
        positive(v) <==> 0 < v.bits <= 0x7ff0_0000_0000_0000,
{
}

/// A selection holds the best of what may be selected: as many as are asked for
/// or as there are, by falling score, and nothing that is left out scores higher.
pub proof fn law_selections_hold_the_best(
    scores: Seq<Num>,
    keep: Seq<bool>,
    limit: int,
    top: Seq<usize>,
    p: int,
    q: int,
    i: usize,
)
    requires
        is_top(scores, keep, limit, top),
        keep.len() == scores.len(),
        keep.len() <= usize::MAX,
        0 <= limit,
    ensures
        top.len() <= limit,
        top.len() <= kept_indices(keep).len(),
        top.len() == limit || top.len() == kept_indices(keep).len(),
        0 <= p < q < top.len() && !scores[top[p] as int].nan() && !scores[top[q] as int].nan()
            ==> scores[top[q] as int].at_most(scores[top[p] as int]) && top[p] != top[q],
        0 <= p < top.len() ==> keep[top[p] as int],
        0 <= p < top.len() && i < keep.len() && keep[i as int] && !top.contains(i) && !scores[i as int].nan()
            && !scores[top[p] as int].nan() ==> scores[i as int].at_most(scores[top[p] as int]),
{
    if 0 <= p < q < top.len() {
        assert(better(scores, top[p] as int, top[q] as int));
    }
    if 0 <= p < top.len() && i < keep.len() && keep[i as int] && !top.contains(i) {
        assert(i as int as usize == i);
        assert(better(scores, top[p] as int, i as int));
    }
}

/// The lower of two numbers is one of them and above neither, and lists that keep all have
/// every index.
pub proof fn law_lower_of_two(a: int, b: int, n: nat, i: usize)
    requires
        n <= usize::MAX,
    ensures
        at_most(a, b) <= a && at_most(a, b) <= b && (at_most(a, b) == a || at_most(a, b) == b),
        kept_indices(all_kept(n)).contains(i) <==> i < n,
{
    law_kept_are_those_marked(all_kept(n), i);
}

} // verus!
