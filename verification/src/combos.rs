//! Enumeration of index pairs, triples and quadruples in lexicographic order.

use vstd::prelude::*;

verus! {

pub open spec fn pair_before(a: (usize, usize), b: (usize, usize)) -> bool {
    a.0 < b.0 || (a.0 == b.0 && a.1 < b.1)
}

/// `list` holds every pair `i < j < n` once, in lexicographic order.
pub open spec fn is_pair_list(n: int, list: Seq<(usize, usize)>) -> bool {
    &&& forall|k: int| 0 <= k < list.len() ==> (#[trigger] list[k]).0 < list[k].1 < n
    &&& forall|k: int, l: int|
        #![trigger list[k], list[l]]
        0 <= k < l < list.len() ==> pair_before(list[k], list[l])
    &&& forall|i: usize, j: usize| i < j < n ==> #[trigger] list.contains((i, j))
}

pub open spec fn triple_before(a: (usize, usize, usize), b: (usize, usize, usize)) -> bool {
    a.0 < b.0 || (a.0 == b.0 && pair_before((a.1, a.2), (b.1, b.2)))
}

/// `list` holds every triple `i < j < k < n` once, in lexicographic order.
pub open spec fn is_triple_list(n: int, list: Seq<(usize, usize, usize)>) -> bool {
    &&& forall|k: int| 0 <= k < list.len() ==> (#[trigger] list[k]).0 < list[k].1 < list[k].2 < n
    &&& forall|k: int, l: int|
        #![trigger list[k], list[l]]
        0 <= k < l < list.len() ==> triple_before(list[k], list[l])
    &&& forall|i: usize, j: usize, k: usize| i < j < k < n ==> #[trigger] list.contains((i, j, k))
}

pub open spec fn quad_before(a: (usize, usize, usize, usize), b: (usize, usize, usize, usize)) -> bool {
    a.0 < b.0 || (a.0 == b.0 && triple_before((a.1, a.2, a.3), (b.1, b.2, b.3)))
}

/// `list` holds every quadruple `i < j < k < l < n` once, in lexicographic order.
pub open spec fn is_quad_list(n: int, list: Seq<(usize, usize, usize, usize)>) -> bool {
    &&& forall|k: int| 0 <= k < list.len() ==> (#[trigger] list[k]).0 < list[k].1 < list[k].2 < list[k].3 < n
    &&& forall|k: int, l: int|
        #![trigger list[k], list[l]]
        0 <= k < l < list.len() ==> quad_before(list[k], list[l])
    &&& forall|i: usize, j: usize, k: usize, l: usize|
        i < j < k < l < n ==> #[trigger] list.contains((i, j, k, l))
}

proof fn lemma_push_contains<T>(s: Seq<T>, x: T, y: T)
    ensures
        s.push(x).contains(y) <==> (s.contains(y) || y == x),
{
    if s.contains(y) {
        let p = choose|p: int| 0 <= p < s.len() && s[p] == y;
        assert(s.push(x)[p] == y);
    }
    assert(s.push(x)[s.len() as int] == x);
    if s.push(x).contains(y) {
        let p = choose|p: int| 0 <= p < s.push(x).len() && s.push(x)[p] == y;
        if p < s.len() {
            assert(s[p] == y);
        }
    }
}

/// All index pairs below `n`.
pub fn index_pairs(n: usize) -> (list: Vec<(usize, usize)>)
    ensures
        is_pair_list(n as int, list@),
{
    let mut list: Vec<(usize, usize)> = Vec::new();
    let mut i: usize = 0;
    while i < n
        invariant
            i <= n,
            forall|k: int| 0 <= k < list@.len() ==> (#[trigger] list@[k]).0 < list@[k].1 < n && list@[k].0 < i,
            forall|k: int, l: int|
                #![trigger list@[k], list@[l]]
                0 <= k < l < list@.len() ==> pair_before(list@[k], list@[l]),
            forall|a: usize, b: usize| a < b < n && a < i ==> #[trigger] list@.contains((a, b)),
        decreases n - i,
    {
        let mut j: usize = i + 1;
        while j < n
            invariant
                i < j <= n,
                forall|k: int|
                    0 <= k < list@.len() ==> (#[trigger] list@[k]).0 < list@[k].1 < n && pair_before(list@[k], (i, j)),
                forall|k: int, l: int|
                    #![trigger list@[k], list@[l]]
                    0 <= k < l < list@.len() ==> pair_before(list@[k], list@[l]),
                forall|a: usize, b: usize|
                    a < b < n && pair_before((a, b), (i, j)) ==> #[trigger] list@.contains((a, b)),
            decreases n - j,
        {
            let old_list = Ghost(list@);
            list.push((i, j));
            j = j + 1;
            assert forall|a: usize, b: usize| a < b < n && pair_before((a, b), (i, j)) implies #[trigger] list@.contains(
                (a, b),
            ) by {
                lemma_push_contains(old_list@, (i, (j - 1) as usize), (a, b));
                if !(a == i && b == j - 1) {
                    assert(old_list@.contains((a, b)));
                }
            }
        }
        i = i + 1;
    }
    list
}

/// All index triples below `n`.
pub fn index_triples(n: usize) -> (list: Vec<(usize, usize, usize)>)
    ensures
        is_triple_list(n as int, list@),
{
    let pairs: Vec<(usize, usize)> = index_pairs(n);
    let mut list: Vec<(usize, usize, usize)> = Vec::new();
    let mut i: usize = 0;
    while i < n
        invariant
            i <= n,
            is_pair_list(n as int, pairs@),
            forall|k: int|
                0 <= k < list@.len() ==> (#[trigger] list@[k]).0 < list@[k].1 < list@[k].2 < n && list@[k].0 < i,
            forall|k: int, l: int|
                #![trigger list@[k], list@[l]]
                0 <= k < l < list@.len() ==> triple_before(list@[k], list@[l]),
            forall|a: usize, b: usize, c: usize| a < b < c < n && a < i ==> #[trigger] list@.contains((a, b, c)),
        decreases n - i,
    {
        let mut p: usize = 0;
        while p < pairs.len()
            invariant
                i < n,
                p <= pairs@.len(),
                is_pair_list(n as int, pairs@),
                forall|k: int|
                    0 <= k < list@.len() ==> {
                        &&& (#[trigger] list@[k]).0 < list@[k].1 < list@[k].2 < n
                        &&& list@[k].0 < i || (list@[k].0 == i && (p < pairs@.len() ==> pair_before(
                            (list@[k].1, list@[k].2),
                            pairs@[p as int],
                        )))
                    },
                forall|k: int, l: int|
                    #![trigger list@[k], list@[l]]
                    0 <= k < l < list@.len() ==> triple_before(list@[k], list@[l]),
                forall|a: usize, b: usize, c: usize| a < b < c < n && a < i ==> #[trigger] list@.contains((a, b, c)),
                forall|q: int| 0 <= q < p && i < (#[trigger] pairs@[q]).0 ==> list@.contains((i, pairs@[q].0, pairs@[q].1)),
            decreases pairs@.len() - p,
        {
            let old_list = Ghost(list@);
            let (b, c) = pairs[p];
            if i < b {
                list.push((i, b, c));
                assert forall|x: usize, y: usize, z: usize| x < y < z < n && x < i implies #[trigger] list@.contains(
                    (x, y, z),
                ) by {
                    assert(old_list@.contains((x, y, z)));
                    lemma_push_contains(old_list@, (i, b, c), (x, y, z));
                }
                assert forall|q: int| 0 <= q < p + 1 && i < (#[trigger] pairs@[q]).0 implies list@.contains(
                    (i, pairs@[q].0, pairs@[q].1),
                ) by {
                    lemma_push_contains(old_list@, (i, b, c), (i, pairs@[q].0, pairs@[q].1));
                }
            }
            p = p + 1;
        }
        assert forall|a: usize, b: usize, c: usize| a < b < c < n && a < i + 1 implies #[trigger] list@.contains(
            (a, b, c),
        ) by {
            if a == i {
                assert(pairs@.contains((b, c)));
                let q = choose|q: int| 0 <= q < pairs@.len() && pairs@[q] == (b, c);
                assert(pairs@[q].0 == b);
            }
        }
        i = i + 1;
    }
    list
}

/// All index quadruples below `n`.
pub fn index_quads(n: usize) -> (list: Vec<(usize, usize, usize, usize)>)
    ensures
        is_quad_list(n as int, list@),
{
    let triples: Vec<(usize, usize, usize)> = index_triples(n);
    let mut list: Vec<(usize, usize, usize, usize)> = Vec::new();
    let mut i: usize = 0;
    while i < n
        invariant
            i <= n,
            is_triple_list(n as int, triples@),
            forall|k: int|
                0 <= k < list@.len() ==> (#[trigger] list@[k]).0 < list@[k].1 < list@[k].2 < list@[k].3 < n && list@[k].0 < i,
            forall|k: int, l: int|
                #![trigger list@[k], list@[l]]
                0 <= k < l < list@.len() ==> quad_before(list@[k], list@[l]),
            forall|a: usize, b: usize, c: usize, d: usize|
                a < b < c < d < n && a < i ==> #[trigger] list@.contains((a, b, c, d)),
        decreases n - i,
    {
        let mut p: usize = 0;
        while p < triples.len()
            invariant
                i < n,
                p <= triples@.len(),
                is_triple_list(n as int, triples@),
                forall|k: int|
                    0 <= k < list@.len() ==> {
                        &&& (#[trigger] list@[k]).0 < list@[k].1 < list@[k].2 < list@[k].3 < n
                        &&& list@[k].0 < i || (list@[k].0 == i && (p < triples@.len() ==> triple_before(
                            (list@[k].1, list@[k].2, list@[k].3),
                            triples@[p as int],
                        )))
                    },
                forall|k: int, l: int|
                    #![trigger list@[k], list@[l]]
                    0 <= k < l < list@.len() ==> quad_before(list@[k], list@[l]),
                forall|a: usize, b: usize, c: usize, d: usize|
                    a < b < c < d < n && a < i ==> #[trigger] list@.contains((a, b, c, d)),
                forall|q: int|
                    0 <= q < p && i < (#[trigger] triples@[q]).0 ==> list@.contains(
                        (i, triples@[q].0, triples@[q].1, triples@[q].2),
                    ),
            decreases triples@.len() - p,
        {
            let old_list = Ghost(list@);
            let (b, c, d) = triples[p];
            if i < b {
                list.push((i, b, c, d));
                assert forall|x: usize, y: usize, z: usize, w: usize| x < y < z < w < n && x < i implies #[trigger] list@.contains(
                    (x, y, z, w),
                ) by {
                    assert(old_list@.contains((x, y, z, w)));
                    lemma_push_contains(old_list@, (i, b, c, d), (x, y, z, w));
                }
                assert forall|q: int| 0 <= q < p + 1 && i < (#[trigger] triples@[q]).0 implies list@.contains(
                    (i, triples@[q].0, triples@[q].1, triples@[q].2),
                ) by {
                    lemma_push_contains(
                        old_list@,
                        (i, b, c, d),
                        (i, triples@[q].0, triples@[q].1, triples@[q].2),
                    );
                }
            }
            p = p + 1;
        }
        assert forall|a: usize, b: usize, c: usize, d: usize| a < b < c < d < n && a < i + 1 implies #[trigger] list@.contains(
            (a, b, c, d),
        ) by {
            if a == i {
                assert(triples@.contains((b, c, d)));
                let q = choose|q: int| 0 <= q < triples@.len() && triples@[q] == (b, c, d);
                assert(triples@[q].0 == b);
            }
        }
        i = i + 1;
    }
    list
}

/// Pairs are listed once each, the lower index first, by their first and then by their
/// second.
pub proof fn law_pairs_are_listed_in_order(n: int, list: Seq<(usize, usize)>, k: int, l: int, i: usize, j: usize)
    requires
        is_pair_list(n, list),
        0 <= k < l < list.len(),
    ensures
        list[k] != list[l],
        list[k].0 <= list[l].0,
        list[k].0 == list[l].0 ==> list[k].1 < list[l].1,
        list.contains((i, j)) <==> i < j < n,
{
    assert(pair_before(list[k], list[l]));
    if list.contains((i, j)) {
        let p = choose|p: int| 0 <= p < list.len() && list[p] == (i, j);
        assert(list[p].0 < list[p].1 < n);
    }
}

/// The same of triples.
pub proof fn law_triples_are_listed_in_order(
    n: int,
    list: Seq<(usize, usize, usize)>,
    k: int,
    l: int,
    a: usize,
    b: usize,
    c: usize,
)
    requires
        is_triple_list(n, list),
        0 <= k < l < list.len(),
    ensures
        list[k] != list[l],
        list[k].0 <= list[l].0,
        list[k].0 == list[l].0 ==> list[k].1 <= list[l].1,
        list[k].0 == list[l].0 && list[k].1 == list[l].1 ==> list[k].2 < list[l].2,
        list.contains((a, b, c)) <==> a < b < c < n,
{
    assert(triple_before(list[k], list[l]));
    if list.contains((a, b, c)) {
        let p = choose|p: int| 0 <= p < list.len() && list[p] == (a, b, c);
        assert(list[p].0 < list[p].1 < list[p].2 < n);
    }
}

/// The same of quadruples.
pub proof fn law_quads_are_listed_in_order(
    n: int,
    list: Seq<(usize, usize, usize, usize)>,
    k: int,
    l: int,
    a: usize,
    b: usize,
    c: usize,
    d: usize,
)
    requires
        is_quad_list(n, list),
        0 <= k < l < list.len(),
    ensures
        list[k] != list[l],
        list[k].0 <= list[l].0,
        list[k].0 == list[l].0 ==> list[k].1 <= list[l].1,
        list[k].0 == list[l].0 && list[k].1 == list[l].1 ==> list[k].2 <= list[l].2,
        list[k].0 == list[l].0 && list[k].1 == list[l].1 && list[k].2 == list[l].2 ==> list[k].3 < list[l].3,
        list.contains((a, b, c, d)) <==> a < b < c < d < n,
{
    assert(quad_before(list[k], list[l]));
    if list.contains((a, b, c, d)) {
        let p = choose|p: int| 0 <= p < list.len() && list[p] == (a, b, c, d);
        assert(list[p].0 < list[p].1 < list[p].2 < list[p].3 < n);
    }
}

} // verus!
