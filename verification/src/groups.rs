//! Grouping of rows by key.

use std::collections::HashMap;
use vstd::prelude::*;

verus! {

broadcast use vstd::std_specs::hash::group_hash_axioms;

/// The listed rows whose key is `k`, in list order.
pub open spec fn rows_with_key(keys: Seq<i64>, list: Seq<usize>, k: i64) -> Seq<usize>
    decreases list.len(),
{
    if list.len() == 0 {
        Seq::empty()
    } else if keys[list.last() as int] == k {
        rows_with_key(keys, list.drop_last(), k).push(list.last())
    } else {
        rows_with_key(keys, list.drop_last(), k)
    }
}

/// The keys of the listed rows, each once, in the order of their first row.
pub open spec fn distinct_keys(keys: Seq<i64>, list: Seq<usize>) -> Seq<i64>
    decreases list.len(),
{
    if list.len() == 0 {
        Seq::empty()
    } else {
        let rest = distinct_keys(keys, list.drop_last());
        let k = keys[list.last() as int];
        if rest.contains(k) {
            rest
        } else {
            rest.push(k)
        }
    }
}

/// Rows grouped by key: one entry of `keys` and of `rows` per group, and for
/// each listed row the group it belongs to.
pub struct KeyGroups {
    pub keys: Vec<i64>,
    pub rows: Vec<Vec<usize>>,
    pub group_of: Vec<usize>,
}

impl KeyGroups {
    /// The groups are those of the rows `list` under `keys`.
    pub open spec fn groups(&self, keys: Seq<i64>, list: Seq<usize>) -> bool {
        &&& self.keys@ == distinct_keys(keys, list)
        &&& self.rows@.len() == self.keys@.len()
        &&& forall|g: int|
            0 <= g < self.rows@.len() ==> (#[trigger] self.rows@[g])@ == rows_with_key(keys, list, self.keys@[g])
        &&& self.group_of@.len() == list.len()
        &&& forall|i: int|
            0 <= i < list.len() ==> (#[trigger] self.group_of@[i]) < self.keys@.len() && self.keys@[self.group_of@[i] as int]
                == keys[list[i] as int]
    }

    /// The number of rows in group `g`.
    pub fn count(&self, g: usize) -> (r: usize)
        requires
            g < self.rows@.len(),
        ensures
            r == self.rows@[g as int]@.len(),
    {
        self.rows[g].len()
    }
}

/// The distinct keys hold no key twice.
pub proof fn lemma_distinct_keys(keys: Seq<i64>, list: Seq<usize>)
    ensures
        distinct_keys(keys, list).no_duplicates(),
        distinct_keys(keys, list).len() <= list.len(),
        forall|i: int| 0 <= i < list.len() ==> distinct_keys(keys, list).contains(keys[(#[trigger] list[i]) as int]),
    decreases list.len(),
{
    if list.len() > 0 {
        lemma_distinct_keys(keys, list.drop_last());
        let rest = distinct_keys(keys, list.drop_last());
        let k = keys[list.last() as int];
        let all = distinct_keys(keys, list);
        assert forall|i: int| 0 <= i < list.len() implies all.contains(keys[(#[trigger] list[i]) as int]) by {
            if i < list.len() - 1 {
                assert(list.drop_last()[i] == list[i]);
                assert(rest.contains(keys[list[i] as int]));
                let p = choose|p: int| 0 <= p < rest.len() && rest[p] == keys[list[i] as int];
                assert(all[p] == rest[p]);
            } else if !rest.contains(k) {
                assert(all[rest.len() as int] == k);
            }
        }
    }
}

/// A group holds exactly the listed rows with its key.
pub proof fn lemma_rows_with_key(keys: Seq<i64>, list: Seq<usize>, k: i64)
    ensures
        rows_with_key(keys, list, k).len() <= list.len(),
        forall|i: int| 0 <= i < list.len() && keys[(#[trigger] list[i]) as int] == k ==> rows_with_key(keys, list, k).contains(list[i]),
        forall|p: int|
            0 <= p < rows_with_key(keys, list, k).len() ==> list.contains(#[trigger] rows_with_key(keys, list, k)[p])
                && keys[rows_with_key(keys, list, k)[p] as int] == k,
    decreases list.len(),
{
    if list.len() > 0 {
        let rest = rows_with_key(keys, list.drop_last(), k);
        let all = rows_with_key(keys, list, k);
        lemma_rows_with_key(keys, list.drop_last(), k);
        assert forall|i: int| 0 <= i < list.len() && keys[(#[trigger] list[i]) as int] == k implies all.contains(list[i]) by {
            if i < list.len() - 1 {
                assert(list.drop_last()[i] == list[i]);
                assert(rest.contains(list[i]));
                let p = choose|p: int| 0 <= p < rest.len() && rest[p] == list[i];
                assert(all[p] == rest[p]);
            } else {
                assert(all[rest.len() as int] == list[i]);
            }
        }
        assert forall|p: int| 0 <= p < all.len() implies list.contains(#[trigger] all[p]) && keys[all[p] as int] == k by {
            if p < rest.len() {
                assert(all[p] == rest[p]);
                let q = choose|q: int| 0 <= q < list.drop_last().len() && list.drop_last()[q] == rest[p];
                assert(list[q] == rest[p]);
            } else {
                assert(all[p] == list[list.len() - 1]);
            }
        }
    }
}

/// The groups part the listed rows: two rows share a group exactly where they
/// share a key, and a row is in the group that `group_of` names and in no other.
pub proof fn law_groups_part_rows(g: KeyGroups, keys: Seq<i64>, list: Seq<usize>, i: int, h: int)
    requires
        g.groups(keys, list),
        0 <= i < list.len(),
        0 <= h < g.rows@.len(),
    ensures
        g.rows@[h]@.contains(list[i]) <==> h == g.group_of@[i],
{
    let k = g.keys@[h];
    lemma_distinct_keys(keys, list);
    lemma_rows_with_key(keys, list, k);
    assert(g.group_of@[i] < g.keys@.len());
    assert(g.rows@[h]@ == rows_with_key(keys, list, k));
    if h == g.group_of@[i] {
        assert(keys[list[i] as int] == k);
    }
    if g.rows@[h]@.contains(list[i]) {
        let p = choose|p: int| 0 <= p < g.rows@[h]@.len() && g.rows@[h]@[p] == list[i];
        assert(keys[rows_with_key(keys, list, k)[p] as int] == k);
    }
}

/// Groups the rows `list` by `keys[row]`.
pub fn group_rows(keys: &Vec<i64>, list: &Vec<usize>) -> (g: KeyGroups)
    requires
        forall|i: int| 0 <= i < list@.len() ==> #[trigger] list@[i] < keys@.len(),
    ensures
        g.groups(keys@, list@),
{
    let mut index: HashMap<i64, usize> = HashMap::new();
    let mut found: Vec<i64> = Vec::new();
    let mut rows: Vec<Vec<usize>> = Vec::new();
    let mut group_of: Vec<usize> = Vec::new();
    let mut i: usize = 0;
    assert(list@.take(0) =~= Seq::empty());
    while i < list.len()
        invariant
            i <= list@.len(),
            forall|j: int| 0 <= j < list@.len() ==> #[trigger] list@[j] < keys@.len(),
            found@ == distinct_keys(keys@, list@.take(i as int)),
            rows@.len() == found@.len(),
            found@.len() <= i,
            forall|h: int|
                0 <= h < rows@.len() ==> (#[trigger] rows@[h])@ == rows_with_key(keys@, list@.take(i as int), found@[h]),
            group_of@.len() == i,
            forall|j: int|
                0 <= j < i ==> (#[trigger] group_of@[j]) < found@.len() && found@[group_of@[j] as int]
                    == keys@[list@[j] as int],
            forall|k: i64| #[trigger] index@.contains_key(k) <==> found@.contains(k),
            forall|k: i64| #[trigger] index@.contains_key(k) ==> index@[k] < found@.len() && found@[index@[k] as int] == k,
        decreases list@.len() - i,
    {
        let row: usize = list[i];
        let key: i64 = keys[row];
        let before = Ghost(list@.take(i as int));
        let after = Ghost(list@.take(i + 1));
        let old_found = Ghost(found@);
        let old_rows = Ghost(rows@);
        assert(after@.drop_last() =~= before@);
        assert(after@.last() == row);
        proof {
            lemma_distinct_keys(keys@, before@);
        }
        let seen: Option<usize> = match index.get(&key) {
            Some(h) => Some(*h),
            None => None,
        };
        match seen {
            Some(h) => {
                assert(index@.contains_key(key));
                assert(found@.contains(key));
                let mut grown: Vec<usize> = rows[h].clone();
                grown.push(row);
                rows.set(h, grown);
                group_of.push(h);
                assert forall|g: int| 0 <= g < rows@.len() implies (#[trigger] rows@[g])@ == rows_with_key(
                    keys@,
                    after@,
                    found@[g],
                ) by {
                    if g != h {
                        assert(found@[g] != found@[h as int]);
                        assert(rows@[g] == old_rows@[g]);
                    }
                }
            },
            None => {
                assert(!index@.contains_key(key));
                assert(!found@.contains(key));
                let at: usize = found.len();
                let mut fresh: Vec<usize> = Vec::new();
                fresh.push(row);
                index.insert(key, at);
                found.push(key);
                rows.push(fresh);
                group_of.push(at);
                proof {
                    lemma_no_rows(keys@, before@, key);
                    assert(found@ == old_found@.push(key));
                    assert forall|k: i64| #[trigger] index@.contains_key(k) <==> found@.contains(k) by {
                        if found@.contains(k) {
                            let p = choose|p: int| 0 <= p < found@.len() && found@[p] == k;
                            if p < old_found@.len() {
                                assert(old_found@[p] == k);
                                assert(old_found@.contains(k));
                            }
                        }
                        if old_found@.contains(k) {
                            let p = choose|p: int| 0 <= p < old_found@.len() && old_found@[p] == k;
                            assert(found@[p] == k);
                        }
                        assert(found@[at as int] == key);
                    }
                    assert forall|g: int| 0 <= g < rows@.len() implies (#[trigger] rows@[g])@ == rows_with_key(
                        keys@,
                        after@,
                        found@[g],
                    ) by {
                        if g < at {
                            assert(rows@[g] == old_rows@[g]);
                            assert(old_found@[g] != key) by {
                                if old_found@[g] == key {
                                    assert(old_found@.contains(key));
                                }
                            }
                        } else {
                            assert(rows@[g]@ =~= Seq::<usize>::empty().push(row));
                        }
                    }
                }
            },
        }
        i = i + 1;
    }
    assert(list@.take(list@.len() as int) =~= list@);
    KeyGroups { keys: found, rows, group_of }
}

/// A key that is not among the distinct keys has no rows.
proof fn lemma_no_rows(keys: Seq<i64>, list: Seq<usize>, k: i64)
    requires
        !distinct_keys(keys, list).contains(k),
    ensures
        rows_with_key(keys, list, k) == Seq::<usize>::empty(),
    decreases list.len(),
{
    if list.len() > 0 {
        lemma_distinct_keys(keys, list);
        assert(keys[list[list.len() - 1] as int] != k);
        let rest = distinct_keys(keys, list.drop_last());
        if rest.contains(k) {
            let p = choose|p: int| 0 <= p < rest.len() && rest[p] == k;
            assert(distinct_keys(keys, list)[p] == k);
        }
        lemma_no_rows(keys, list.drop_last(), k);
    }
}

/// The rows from 0 up to `n`, in order.
pub fn all_rows(n: usize) -> (list: Vec<usize>)
    ensures
        list@.len() == n,
        forall|i: int| 0 <= i < n ==> #[trigger] list@[i] == i,
{
    let mut list: Vec<usize> = Vec::new();
    let mut i: usize = 0;
    while i < n
        invariant
            i <= n,
            list@.len() == i,
            forall|j: int| 0 <= j < i ==> #[trigger] list@[j] == j,
        decreases n - i,
    {
        list.push(i);
        i = i + 1;
    }
    list
}

/// The rows of a key are those of the list that have it, and every key of the list is
/// found once, in the order in which keys first come: a longer list has its new keys last.
pub proof fn law_keys_gather_their_rows(keys: Seq<i64>, list: Seq<usize>, k: i64, row: usize)
    ensures
        rows_with_key(keys, list, k).contains(row) <==> list.contains(row) && keys[row as int] == k,
        distinct_keys(keys, list).contains(k) <==> rows_with_key(keys, list, k).len() > 0,
        distinct_keys(keys, list).no_duplicates(),
        list.len() > 0 ==> distinct_keys(keys, list.drop_last()).is_prefix_of(distinct_keys(keys, list)),
    decreases list.len(),
{
    if list.len() > 0 {
        let rest = list.drop_last();
        law_keys_gather_their_rows(keys, rest, k, row);
        let sub = rows_with_key(keys, rest, k);
        let all = rows_with_key(keys, list, k);
        assert(list.contains(row) <==> rest.contains(row) || row == list.last()) by {
            if rest.contains(row) {
                let i = choose|i: int| 0 <= i < rest.len() && rest[i] == row;
                assert(list[i] == row);
            }
            if row == list.last() {
                assert(list[list.len() - 1] == row);
            }
            if list.contains(row) && row != list.last() {
                let i = choose|i: int| 0 <= i < list.len() && list[i] == row;
                assert(rest[i] == row);
            }
        }
        if keys[list.last() as int] == k {
            assert(all == sub.push(list.last()));
            if sub.contains(row) {
                let i = choose|i: int| 0 <= i < sub.len() && sub[i] == row;
                assert(all[i] == row);
            }
            if row == list.last() {
                assert(all[all.len() - 1] == row);
            }
        }
        let before = distinct_keys(keys, rest);
        let after = distinct_keys(keys, list);
        if after != before {
            assert(after == before.push(keys[list.last() as int]));
            if before.contains(k) {
                let i = choose|i: int| 0 <= i < before.len() && before[i] == k;
                assert(after[i] == k);
            }
            if keys[list.last() as int] == k {
                assert(after[after.len() - 1] == k);
            }
        }
    }
}

/// Every key has its rows, and every row of the list its group.
pub proof fn law_groups_have_keys_and_rows(g: KeyGroups, keys: Seq<i64>, list: Seq<usize>, h: int, row: usize, i: int)
    requires
        g.groups(keys, list),
        0 <= h < g.keys@.len(),
        0 <= i < list.len(),
    ensures
        g.rows@.len() == g.keys@.len(),
        g.rows@[h]@.contains(row) <==> list.contains(row) && keys[row as int] == g.keys@[h],
        g.group_of@.len() == list.len(),
        g.group_of@[i] < g.keys@.len() && g.keys@[g.group_of@[i] as int] == keys[list[i] as int],
{
    law_keys_gather_their_rows(keys, list, g.keys@[h], row);
}

} // verus!
