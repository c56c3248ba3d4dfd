//! Stable rankings of keyed items.

use vstd::prelude::*;

verus! {

/// Whether item `a` comes before item `b` in descending key order, equal keys
/// by their index.
pub open spec fn precedes(keys: Seq<i64>, a: int, b: int) -> bool {
    keys[a] > keys[b] || (keys[a] == keys[b] && a < b)
}

/// `order` lists indices of `keys` from `lo` up to `hi`, each exactly once, by
/// descending key with equal keys in index order.
pub open spec fn ranks_range(keys: Seq<i64>, order: Seq<usize>, lo: int, hi: int) -> bool {
    &&& order.len() == hi - lo
    &&& forall|i: int| #![trigger order[i]] 0 <= i < order.len() ==> lo <= order[i] < hi
    &&& forall|i: int, j: int|
        #![trigger order[i], order[j]]
        0 <= i < j < order.len() ==> precedes(keys, order[i] as int, order[j] as int)
}

/// `order` is the stable descending ranking of `keys`.
pub open spec fn is_ranking(keys: Seq<i64>, order: Seq<usize>) -> bool {
    ranks_range(keys, order, 0, keys.len() as int)
}

/// A ranking of `lo..hi` lists every index of that range.
pub proof fn lemma_ranking_covers(keys: Seq<i64>, order: Seq<usize>, lo: int, hi: int, k: int)
    requires
        ranks_range(keys, order, lo, hi),
        0 <= lo <= k < hi <= usize::MAX,
    ensures
        order.contains(k as usize),
{
    let ints = Seq::new(order.len(), |i: int| order[i] as int);
    assert(ints.no_duplicates());
    let s = ints.to_set();
    let full = vstd::set_lib::set_int_range(lo, hi);
    ints.unique_seq_to_set();
    vstd::set_lib::lemma_int_range(lo, hi);
    assert(s.subset_of(full)) by {
        assert forall|x: int| s.contains(x) implies full.contains(x) by {
            let i = choose|i: int| 0 <= i < ints.len() && ints[i] == x;
            assert(lo <= order[i] < hi);
        }
    }
    vstd::set_lib::lemma_subset_equality(s, full);
    assert(full.contains(k));
    assert(s.contains(k));
    let i = choose|i: int| 0 <= i < ints.len() && ints[i] == k;
    assert(order[i] == k as usize);
}

/// The stable descending ranking of a list of keys is unique.
pub proof fn law_ranking_is_unique(keys: Seq<i64>, a: Seq<usize>, b: Seq<usize>)
    requires
        is_ranking(keys, a),
        is_ranking(keys, b),
        keys.len() <= usize::MAX,
    ensures
        a == b,
{
    assert forall|i: int| 0 <= i < a.len() implies a[i] == b[i] by {
        lemma_ranking_agrees(keys, a, b, i);
    }
    assert(a =~= b);
}

proof fn lemma_ranking_agrees(keys: Seq<i64>, a: Seq<usize>, b: Seq<usize>, i: int)
    requires
        is_ranking(keys, a),
        is_ranking(keys, b),
        keys.len() <= usize::MAX,
        0 <= i < a.len(),
    ensures
        a[i] == b[i],
    decreases i,
{
    assert forall|j: int| 0 <= j < i implies a[j] == b[j] by {
        lemma_ranking_agrees(keys, a, b, j);
    }
    lemma_ranking_covers(keys, b, 0, keys.len() as int, a[i] as int);
    lemma_ranking_covers(keys, a, 0, keys.len() as int, b[i] as int);
    let p = choose|p: int| 0 <= p < b.len() && b[p] == a[i];
    let q = choose|q: int| 0 <= q < a.len() && a[q] == b[i];
    if p < i {
        assert(a[p] == b[p]);
        assert(precedes(keys, a[p] as int, a[i] as int));
    }
    if q < i {
        assert(a[q] == b[q]);
        assert(precedes(keys, b[q] as int, b[i] as int));
    }
    if p > i && q > i {
        assert(precedes(keys, b[i] as int, b[p] as int));
        assert(precedes(keys, a[i] as int, a[q] as int));
    }
}

/// A score with a pair of numbers that decides between equal scores.
#[derive(Clone, Copy, PartialEq, Eq, Structural, Debug)]
pub struct RankKey {
    pub score: i64,
    pub first: usize,
    pub second: usize,
}

/// Whether `a` is ranked before `b` by their keys alone: a higher score, or the
/// same score and the lower pair.
pub open spec fn outranks(a: RankKey, b: RankKey) -> bool {
    a.score > b.score || (a.score == b.score && (a.first < b.first || (a.first == b.first && a.second < b.second)))
}

/// Whether item `a` comes before item `b`: it outranks it, or has the same key and a lower index.
pub open spec fn key_precedes(keys: Seq<RankKey>, a: int, b: int) -> bool {
    outranks(keys[a], keys[b]) || (keys[a] == keys[b] && a < b)
}

/// `order` lists the indices from `lo` up to `hi`, each once, by their keys.
pub open spec fn key_ranks_range(keys: Seq<RankKey>, order: Seq<usize>, lo: int, hi: int) -> bool {
    &&& order.len() == hi - lo
    &&& forall|i: int| #![trigger order[i]] 0 <= i < order.len() ==> lo <= order[i] < hi
    &&& forall|i: int, j: int|
        #![trigger order[i], order[j]]
        0 <= i < j < order.len() ==> key_precedes(keys, order[i] as int, order[j] as int)
}

/// `order` is the ranking of `keys`.
pub open spec fn is_key_ranking(keys: Seq<RankKey>, order: Seq<usize>) -> bool {
    key_ranks_range(keys, order, 0, keys.len() as int)
}

/// The ranking of `keys`.
pub fn rank_by_key(keys: &Vec<RankKey>) -> (order: Vec<usize>)
    ensures
        is_key_ranking(keys@, order@),
{
    rank_between(keys, 0, keys.len())
}

fn does_outrank(a: &RankKey, b: &RankKey) -> (r: bool)
    ensures
        r == outranks(*a, *b),
{
    a.score > b.score || (a.score == b.score && (a.first < b.first || (a.first == b.first && a.second < b.second)))
}

fn rank_between(keys: &Vec<RankKey>, lo: usize, hi: usize) -> (order: Vec<usize>)
    requires
        lo <= hi <= keys@.len(),
    ensures
        key_ranks_range(keys@, order@, lo as int, hi as int),
    decreases hi - lo,
{
    let n: usize = hi - lo;
    if n == 0 {
        return Vec::new();
    }
    if n == 1 {
        let mut one: Vec<usize> = Vec::new();
        one.push(lo);
        return one;
    }
    let mid: usize = lo + n / 2;
    let left: Vec<usize> = rank_between(keys, lo, mid);
    let right: Vec<usize> = rank_between(keys, mid, hi);
    let mut out: Vec<usize> = Vec::new();
    let mut i: usize = 0;
    let mut j: usize = 0;
    while i < left.len() || j < right.len()
        invariant
            lo <= mid <= hi <= keys@.len(),
            key_ranks_range(keys@, left@, lo as int, mid as int),
            key_ranks_range(keys@, right@, mid as int, hi as int),
            i <= left@.len(),
            j <= right@.len(),
            out@.len() == i + j,
            forall|a: int| #![trigger out@[a]] 0 <= a < out@.len() ==> lo <= out@[a] < hi,
            forall|a: int, b: int|
                #![trigger out@[a], out@[b]]
                0 <= a < b < out@.len() ==> key_precedes(keys@, out@[a] as int, out@[b] as int),
            forall|a: int, b: int|
                #![trigger out@[a], left@[b]]
                0 <= a < out@.len() && i <= b < left@.len() ==> key_precedes(keys@, out@[a] as int, left@[b] as int),
            forall|a: int, b: int|
                #![trigger out@[a], right@[b]]
                0 <= a < out@.len() && j <= b < right@.len() ==> key_precedes(keys@, out@[a] as int, right@[b] as int),
        decreases left@.len() - i + right@.len() - j,
    {
        if j == right.len() || (i < left.len() && !does_outrank(&keys[right[j]], &keys[left[i]])) {
            out.push(left[i]);
            i = i + 1;
        } else {
            out.push(right[j]);
            j = j + 1;
        }
    }
    out
}

/// The stable descending ranking of `keys`.
pub fn rank_descending(keys: &Vec<i64>) -> (order: Vec<usize>)
    ensures
        is_ranking(keys@, order@),
{
    let mut scored: Vec<RankKey> = Vec::new();
    let mut i: usize = 0;
    while i < keys.len()
        invariant
            i <= keys@.len(),
            scored@.len() == i,
            forall|k: int|
                0 <= k < i ==> #[trigger] scored@[k] == (RankKey { score: keys@[k], first: 0, second: 0 }),
        decreases keys@.len() - i,
    {
        scored.push(RankKey { score: keys[i], first: 0, second: 0 });
        i = i + 1;
    }
    let order: Vec<usize> = rank_by_key(&scored);
    assert forall|i: int, j: int|
        #![trigger order@[i], order@[j]]
        0 <= i < j < order@.len() implies precedes(keys@, order@[i] as int, order@[j] as int) by {
        assert(key_precedes(scored@, order@[i] as int, order@[j] as int));
    }
    order
}

/// `order` is the stable ascending ranking of `keys`.
pub open spec fn is_ascending_ranking(keys: Seq<i64>, order: Seq<usize>) -> bool {
    &&& order.len() == keys.len()
    &&& forall|i: int| #![trigger order[i]] 0 <= i < order.len() ==> order[i] < keys.len()
    &&& forall|i: int, j: int|
        #![trigger order[i], order[j]]
        0 <= i < j < order.len() ==> keys[order[i] as int] < keys[order[j] as int] || (keys[order[i] as int]
            == keys[order[j] as int] && order[i] < order[j])
}

/// The stable ascending ranking of `keys`, none of which is `i64::MIN`.
pub fn rank_ascending(keys: &Vec<i64>) -> (order: Vec<usize>)
    requires
        forall|i: int| 0 <= i < keys@.len() ==> keys@[i] > i64::MIN,
    ensures
        is_ascending_ranking(keys@, order@),
{
    let mut negated: Vec<i64> = Vec::new();
    let mut i: usize = 0;
    while i < keys.len()
        invariant
            i <= keys@.len(),
            negated@.len() == i,
            forall|k: int| 0 <= k < keys@.len() ==> keys@[k] > i64::MIN,
            forall|k: int| 0 <= k < i ==> negated@[k] == -keys@[k],
        decreases keys@.len() - i,
    {
        negated.push(-keys[i]);
        i = i + 1;
    }
    rank_descending(&negated)
}

/// Rankings list every index once, by falling or by rising key, and equal keys by their
/// index.
pub proof fn law_rankings_are_sorted(keys: Seq<i64>, down: Seq<usize>, up: Seq<usize>, i: int, j: int)
    requires
        is_ranking(keys, down),
        is_ascending_ranking(keys, up),
        0 <= i < j < keys.len(),
    ensures
        down.len() == keys.len() && up.len() == keys.len(),
        down[i] != down[j] && up[i] != up[j],
        down[i] < keys.len() && up[i] < keys.len(),
        keys[down[i] as int] >= keys[down[j] as int],
        keys[up[i] as int] <= keys[up[j] as int],
        keys[down[i] as int] == keys[down[j] as int] ==> down[i] < down[j],
        keys[up[i] as int] == keys[up[j] as int] ==> up[i] < up[j],
{
    assert(precedes(keys, down[i] as int, down[j] as int));
}

} // verus!
