//! Counting of small integers.

use vstd::prelude::*;

verus! {

/// How often `v` occurs in `s`.
pub open spec fn count_of(s: Seq<usize>, v: usize) -> nat
    decreases s.len(),
{
    if s.len() == 0 {
        0
    } else {
        count_of(s.drop_last(), v) + (if s.last() == v {
            1nat
        } else {
            0
        })
    }
}

pub proof fn lemma_count_bound(s: Seq<usize>, v: usize)
    ensures
        count_of(s, v) <= s.len(),
    decreases s.len(),
{
    if s.len() > 0 {
        lemma_count_bound(s.drop_last(), v);
    }
}

/// How often each value below `n` occurs in `list`.
pub fn tally(list: &Vec<usize>, n: usize) -> (counts: Vec<usize>)
    requires
        forall|i: int| 0 <= i < list@.len() ==> #[trigger] list@[i] < n,
    ensures
        counts@.len() == n,
        forall|v: usize| v < n ==> counts@[v as int] == #[trigger] count_of(list@, v),
{
    let mut counts: Vec<usize> = Vec::new();
    let mut v: usize = 0;
    while v < n
        invariant
            v <= n,
            counts@.len() == v,
            forall|w: int| 0 <= w < v ==> #[trigger] counts@[w] == 0,
        decreases n - v,
    {
        counts.push(0);
        v = v + 1;
    }
    let mut i: usize = 0;
    while i < list.len()
        invariant
            i <= list@.len(),
            counts@.len() == n,
            forall|k: int| 0 <= k < list@.len() ==> #[trigger] list@[k] < n,
            forall|w: usize| w < n ==> counts@[w as int] == #[trigger] count_of(list@.take(i as int), w),
        decreases list@.len() - i,
    {
        let x: usize = list[i];
        proof {
            lemma_count_bound(list@.take(i as int), x);
            assert(list@.take(i + 1).drop_last() =~= list@.take(i as int));
            assert(counts@[x as int] == count_of(list@.take(i as int), x));
        }
        let c: usize = counts[x];
        let before = Ghost(counts@);
        counts.set(x, c + 1);
        assert forall|w: usize| w < n implies counts@[w as int] == #[trigger] count_of(list@.take(i + 1), w) by {
            assert(before@[w as int] == count_of(list@.take(i as int), w));
        }
        i = i + 1;
    }
    assert(list@.take(list@.len() as int) =~= list@);
    counts
}

/// A tally counts every entry once, for its own value alone.
pub proof fn law_tallies_add_up(a: Seq<usize>, b: Seq<usize>, u: usize, v: usize)
    ensures
        count_of(a + b, v) == count_of(a, v) + count_of(b, v),
        count_of(seq![u], v) == if u == v {
            1nat
        } else {
            0
        },
    decreases b.len(),
{
    reveal_with_fuel(count_of, 2);
    assert(seq![u].drop_last() =~= Seq::<usize>::empty());
    if b.len() > 0 {
        law_tallies_add_up(a, b.drop_last(), u, v);
        assert((a + b).drop_last() =~= a + b.drop_last());
        assert((a + b).last() == b.last());
    } else {
        assert(a + b =~= a);
    }
}

} // verus!
