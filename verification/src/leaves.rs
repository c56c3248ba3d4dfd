//! Rows by leaf, nested and flat.

use crate::num::Num;
use crate::select::{collect_kept, is_positive, kept_indices, lemma_kept_indices, positive};
use crate::tree::{BinnedData, DecisionTree, NO_FEATURE};
use vstd::prelude::*;

verus! {

/// The rows below `n` that are assigned to `node`, in order.
pub open spec fn rows_at(assign: Seq<u16>, n: nat, node: int) -> Seq<u32>
    decreases n,
{
    if n == 0 {
        Seq::empty()
    } else if assign[n - 1] == node {
        rows_at(assign, (n - 1) as nat, node).push((n - 1) as u32)
    } else {
        rows_at(assign, (n - 1) as nat, node)
    }
}

proof fn lemma_rows_at_grows(assign: Seq<u16>, a: nat, b: nat, node: int)
    requires
        a <= b,
    ensures
        rows_at(assign, a, node).len() <= rows_at(assign, b, node).len() <= b,
        rows_at(assign, a, node).len() <= a,
    decreases b,
{
    if a < b {
        lemma_rows_at_grows(assign, a, (b - 1) as nat, node);
    } else if a > 0 {
        lemma_rows_at_grows(assign, (a - 1) as nat, (a - 1) as nat, node);
    }
}

/// Which nodes are leaves.
pub open spec fn leaf_flags(split_features: Seq<u32>) -> Seq<bool> {
    Seq::new(split_features.len(), |i: int| split_features[i] == NO_FEATURE)
}

/// The leaves of a tree, by node index.
pub fn leaf_nodes_of(split_features: &Vec<u32>) -> (leaves: Vec<usize>)
    ensures
        leaves@ == kept_indices(leaf_flags(split_features@)),
{
    let mut flags: Vec<bool> = Vec::new();
    let mut i: usize = 0;
    while i < split_features.len()
        invariant
            i <= split_features@.len(),
            flags@.len() == i,
            forall|k: int| 0 <= k < i ==> #[trigger] flags@[k] == (split_features@[k] == NO_FEATURE),
        decreases split_features@.len() - i,
    {
        flags.push(split_features[i] == NO_FEATURE);
        i = i + 1;
    }
    assert(flags@ =~= leaf_flags(split_features@));
    collect_kept(&flags)
}

/// The values of the leaves of a tree, in node order.
pub open spec fn leaf_values(tree: DecisionTree) -> Seq<Num> {
    let leaves = kept_indices(leaf_flags(tree.split_features@));
    Seq::new(leaves.len(), |i: int| tree.values@[leaves[i] as int])
}

pub fn leaf_values_of(tree: &DecisionTree) -> (values: Vec<Num>)
    requires
        tree.values@.len() == tree.split_features@.len(),
    ensures
        values@ == leaf_values(*tree),
{
    let leaves: Vec<usize> = leaf_nodes_of(&tree.split_features);
    proof {
        assert(tree.values.len() == tree.values@.len());
        lemma_kept_indices(leaf_flags(tree.split_features@));
    }
    let mut values: Vec<Num> = Vec::new();
    let mut i: usize = 0;
    while i < leaves.len()
        invariant
            i <= leaves@.len(),
            leaves@ == kept_indices(leaf_flags(tree.split_features@)),
            forall|k: int| 0 <= k < leaves@.len() ==> #[trigger] leaves@[k] < tree.values@.len(),
            values@.len() == i,
            forall|k: int| 0 <= k < i ==> #[trigger] values@[k] == tree.values@[leaves@[k] as int],
        decreases leaves@.len() - i,
    {
        values.push(tree.values[leaves[i]]);
        i = i + 1;
    }
    assert(values@ =~= leaf_values(*tree));
    values
}

/// For each node the number of its leaf among `leaves`, or `absent`.
fn local_numbers(leaves: &Vec<usize>, n_nodes: usize, absent: usize) -> (local: Vec<usize>)
    requires
        forall|l: int| 0 <= l < leaves@.len() ==> #[trigger] leaves@[l] < n_nodes,
        leaves@.no_duplicates(),
    ensures
        local@.len() == n_nodes,
        forall|l: int| 0 <= l < leaves@.len() ==> local@[(#[trigger] leaves@[l]) as int] == l,
        forall|node: int| 0 <= node < n_nodes && !leaves@.contains(node as usize) ==> #[trigger] local@[node] == absent,
{
    let mut local: Vec<usize> = Vec::new();
    let mut i: usize = 0;
    while i < n_nodes
        invariant
            i <= n_nodes,
            local@.len() == i,
            forall|k: int| 0 <= k < i ==> #[trigger] local@[k] == absent,
        decreases n_nodes - i,
    {
        local.push(absent);
        i = i + 1;
    }
    let mut l: usize = 0;
    while l < leaves.len()
        invariant
            l <= leaves@.len(),
            local@.len() == n_nodes,
            leaves@.no_duplicates(),
            forall|k: int| 0 <= k < leaves@.len() ==> #[trigger] leaves@[k] < n_nodes,
            forall|k: int| 0 <= k < l ==> local@[(#[trigger] leaves@[k]) as int] == k,
            forall|node: int|
                0 <= node < n_nodes && !leaves@.contains(node as usize) ==> #[trigger] local@[node] == absent,
        decreases leaves@.len() - l,
    {
        let node: usize = leaves[l];
        local.set(node, l);
        l = l + 1;
    }
    local
}

/// `samples` holds for each leaf the rows that are assigned to it.
pub open spec fn samples_by_leaf(samples: Seq<Vec<u32>>, leaves: Seq<usize>, assign: Seq<u16>, n_rows: nat) -> bool {
    &&& samples.len() == leaves.len()
    &&& forall|l: int|
        0 <= l < leaves.len() ==> (#[trigger] samples[l])@ == rows_at(assign, n_rows, leaves[l] as int)
}

/// The leaves of a tree and the rows assigned to each.
pub fn build_leaf_info(split_features: &Vec<u32>, leaf_assign: &Vec<u16>, n_rows: usize) -> (r: (
    Vec<usize>,
    Vec<Vec<u32>>,
))
    requires
        n_rows <= leaf_assign@.len(),
        n_rows <= u32::MAX,
        forall|i: int|
            0 <= i < n_rows ==> (#[trigger] leaf_assign@[i]) < split_features@.len()
                && split_features@[leaf_assign@[i] as int] == NO_FEATURE,
    ensures
        r.0@ == kept_indices(leaf_flags(split_features@)),
        samples_by_leaf(r.1@, r.0@, leaf_assign@, n_rows as nat),
{
    let leaves: Vec<usize> = leaf_nodes_of(split_features);
    proof {
        assert(split_features.len() == split_features@.len());
        lemma_kept_indices(leaf_flags(split_features@));
    }
    assert forall|k: int| 0 <= k < split_features@.len() && split_features@[k] == NO_FEATURE implies leaves@.contains(
        #[trigger] (k as usize),
    ) by {
        assert(leaf_flags(split_features@)[k]);
    }
    let local: Vec<usize> = local_numbers(&leaves, split_features.len(), 0);
    let mut samples: Vec<Vec<u32>> = Vec::new();
    let mut l: usize = 0;
    while l < leaves.len()
        invariant
            l <= leaves@.len(),
            samples@.len() == l,
            forall|k: int| 0 <= k < l ==> (#[trigger] samples@[k])@ == Seq::<u32>::empty(),
        decreases leaves@.len() - l,
    {
        samples.push(Vec::new());
        l = l + 1;
    }
    let mut i: usize = 0;
    while i < n_rows
        invariant
            i <= n_rows <= leaf_assign@.len(),
            n_rows <= u32::MAX,
            samples@.len() == leaves@.len(),
            local@.len() == split_features@.len(),
            leaves@ == kept_indices(leaf_flags(split_features@)),
            leaves@.no_duplicates(),
            forall|k: int| 0 <= k < leaves@.len() ==> local@[(#[trigger] leaves@[k]) as int] == k,
            forall|k: int|
                0 <= k < split_features@.len() && split_features@[k] == NO_FEATURE ==> leaves@.contains(#[trigger] (k as usize)),
            forall|k: int|
                0 <= k < n_rows ==> (#[trigger] leaf_assign@[k]) < split_features@.len()
                    && split_features@[leaf_assign@[k] as int] == NO_FEATURE,
            samples_by_leaf(samples@, leaves@, leaf_assign@, i as nat),
        decreases n_rows - i,
    {
        let node: usize = leaf_assign[i] as usize;
        assert(leaves@.contains((leaf_assign@[i as int] as int) as usize));
        let at = Ghost(choose|k: int| 0 <= k < leaves@.len() && leaves@[k] == node);
        assert(local@[leaves@[at@] as int] == at@);
        let j: usize = local[node];
        let before = Ghost(samples@);
        let mut grown: Vec<u32> = samples[j].clone();
        assert(grown@ =~= before@[j as int]@);
        grown.push(i as u32);
        samples.set(j, grown);
        assert forall|k: int| 0 <= k < leaves@.len() implies (#[trigger] samples@[k])@ == rows_at(
            leaf_assign@,
            (i + 1) as nat,
            leaves@[k] as int,
        ) by {
            assert(before@[k]@ == rows_at(leaf_assign@, i as nat, leaves@[k] as int));
            if k != j {
                assert(leaves@[k] != leaves@[j as int]);
            }
        }
        i = i + 1;
    }
    (leaves, samples)
}

/// `samples` holds, one leaf after the other, the rows of each leaf; leaf `l`
/// has those from `offsets[l]` up to `offsets[l + 1]`.
pub open spec fn samples_flat(
    samples: Seq<u32>,
    offsets: Seq<usize>,
    leaves: Seq<usize>,
    assign: Seq<u16>,
    n_rows: nat,
) -> bool {
    &&& samples.len() == n_rows
    &&& offsets.len() == leaves.len() + 1
    &&& offsets[0] == 0
    &&& offsets.last() <= n_rows
    &&& forall|l: int|
        0 <= l < leaves.len() ==> {
            let rows = rows_at(assign, n_rows, leaves[l] as int);
            &&& #[trigger] offsets[l] + rows.len() == offsets[l + 1]
            &&& samples.subrange(offsets[l] as int, offsets[l + 1] as int) == rows
        }
}

/// The flat and the nested form hold the same rows for every leaf, in the same order.
pub proof fn law_flat_agrees_with_nested(
    nested: Seq<Vec<u32>>,
    samples: Seq<u32>,
    offsets: Seq<usize>,
    leaves: Seq<usize>,
    assign: Seq<u16>,
    n_rows: nat,
    l: int,
)
    requires
        samples_by_leaf(nested, leaves, assign, n_rows),
        samples_flat(samples, offsets, leaves, assign, n_rows),
        0 <= l < leaves.len(),
    ensures
        nested[l]@ == samples.subrange(offsets[l] as int, offsets[l + 1] as int),
{
    assert(nested[l]@ == rows_at(assign, n_rows, leaves[l] as int));
    assert(offsets[l] + rows_at(assign, n_rows, leaves[l] as int).len() == offsets[l + 1]);
}

/// The number of rows among the first `n` that are assigned to one of the first `m` leaves.
pub open spec fn rows_in_leaves(assign: Seq<u16>, n: nat, leaves: Seq<usize>, m: nat) -> nat
    decreases m,
{
    if m == 0 {
        0
    } else {
        rows_in_leaves(assign, n, leaves, (m - 1) as nat) + rows_at(assign, n, leaves[m - 1] as int).len()
    }
}

/// One more row belongs to at most one leaf.
proof fn lemma_rows_in_leaves_step(assign: Seq<u16>, n: nat, leaves: Seq<usize>, m: nat)
    requires
        n > 0,
        m <= leaves.len(),
        leaves.no_duplicates(),
    ensures
        rows_in_leaves(assign, n, leaves, m) <= rows_in_leaves(assign, (n - 1) as nat, leaves, m) + 1,
        (forall|l: int| 0 <= l < m ==> assign[n - 1] != #[trigger] leaves[l]) ==> rows_in_leaves(assign, n, leaves, m)
            == rows_in_leaves(assign, (n - 1) as nat, leaves, m),
    decreases m,
{
    if m > 0 {
        lemma_rows_in_leaves_step(assign, n, leaves, (m - 1) as nat);
        if assign[n - 1] == leaves[m - 1] {
            assert forall|l: int| 0 <= l < m - 1 implies assign[n - 1] != #[trigger] leaves[l] by {
                assert(leaves[l] != leaves[m - 1]);
            }
        }
    }
}

proof fn lemma_rows_in_leaves_empty(assign: Seq<u16>, leaves: Seq<usize>, m: nat)
    ensures
        rows_in_leaves(assign, 0, leaves, m) == 0,
    decreases m,
{
    if m > 0 {
        lemma_rows_in_leaves_empty(assign, leaves, (m - 1) as nat);
    }
}

/// The leaves together hold no more rows than there are.
proof fn lemma_rows_in_leaves(assign: Seq<u16>, n: nat, leaves: Seq<usize>, m: nat)
    requires
        m <= leaves.len(),
        leaves.no_duplicates(),
    ensures
        rows_in_leaves(assign, n, leaves, m) <= n,
    decreases n,
{
    if n == 0 {
        lemma_rows_in_leaves_empty(assign, leaves, m);
    } else {
        lemma_rows_in_leaves(assign, (n - 1) as nat, leaves, m);
        lemma_rows_in_leaves_step(assign, n, leaves, m);
    }
}

/// Every row that is assigned to one of the leaves is counted once: where all
/// are, the leaves together hold every row.
pub proof fn law_leaves_hold_all_rows(assign: Seq<u16>, n: nat, leaves: Seq<usize>)
    requires
        leaves.no_duplicates(),
        forall|i: int| 0 <= i < n ==> leaves.contains((#[trigger] assign[i]) as usize),
    ensures
        rows_in_leaves(assign, n, leaves, leaves.len()) == n,
    decreases n,
{
    if n == 0 {
        lemma_rows_in_leaves_empty(assign, leaves, leaves.len());
    } else {
        law_leaves_hold_all_rows(assign, (n - 1) as nat, leaves);
        assert(leaves.contains(assign[n - 1] as usize));
        let l = choose|l: int| 0 <= l < leaves.len() && leaves[l] == assign[n - 1] as usize;
        lemma_rows_in_leaves_one_more(assign, n, leaves, leaves.len(), l);
    }
}

proof fn lemma_rows_in_leaves_one_more(assign: Seq<u16>, n: nat, leaves: Seq<usize>, m: nat, l: int)
    requires
        n > 0,
        m <= leaves.len(),
        leaves.no_duplicates(),
        0 <= l < m,
        leaves[l] == assign[n - 1],
    ensures
        rows_in_leaves(assign, n, leaves, m) == rows_in_leaves(assign, (n - 1) as nat, leaves, m) + 1,
    decreases m,
{
    if l == m - 1 {
        assert forall|k: int| 0 <= k < m - 1 implies assign[n - 1] != #[trigger] leaves[k] by {
            assert(leaves[k] != leaves[l]);
        }
        lemma_rows_in_leaves_step(assign, n, leaves, (m - 1) as nat);
    } else {
        lemma_rows_in_leaves_one_more(assign, n, leaves, (m - 1) as nat, l);
        assert(leaves[m - 1] != leaves[l]);
    }
}

/// The leaves of a tree, with the rows of each in one list. A row that is
/// assigned to a node that is no leaf is passed over.
pub fn build_leaf_info_flat(split_features: &Vec<u32>, leaf_assign: &Vec<u16>, n_rows: usize) -> (r: (
    Vec<usize>,
    Vec<usize>,
    Vec<u32>,
))
    requires
        n_rows <= leaf_assign@.len(),
        n_rows <= u32::MAX,
        split_features@.len() < usize::MAX,
        forall|i: int| 0 <= i < n_rows ==> (#[trigger] leaf_assign@[i]) < split_features@.len(),
    ensures
        r.0@ == kept_indices(leaf_flags(split_features@)),
        samples_flat(r.2@, r.1@, r.0@, leaf_assign@, n_rows as nat),
{
    let leaves: Vec<usize> = leaf_nodes_of(split_features);
    let n_nodes: usize = split_features.len();
    proof {
        lemma_kept_indices(leaf_flags(split_features@));
    }
    let local: Vec<usize> = local_numbers(&leaves, n_nodes, usize::MAX);
    let n_leaves: usize = leaves.len();
    let mut counts: Vec<usize> = Vec::new();
    let mut l: usize = 0;
    while l < n_leaves
        invariant
            l <= n_leaves,
            counts@.len() == l,
            forall|k: int| 0 <= k < l ==> #[trigger] counts@[k] == 0,
        decreases n_leaves - l,
    {
        counts.push(0);
        l = l + 1;
    }
    let mut i: usize = 0;
    while i < n_rows
        invariant
            i <= n_rows <= leaf_assign@.len(),
            n_leaves == leaves@.len(),
            n_leaves < usize::MAX,
            counts@.len() == n_leaves,
            local@.len() == n_nodes,
            n_nodes == split_features@.len(),
            leaves@.no_duplicates(),
            forall|k: int| 0 <= k < n_leaves ==> (#[trigger] leaves@[k]) < n_nodes && local@[leaves@[k] as int] == k,
            forall|node: int|
                0 <= node < n_nodes && !leaves@.contains(node as usize) ==> #[trigger] local@[node] == usize::MAX,
            forall|k: int| 0 <= k < n_rows ==> (#[trigger] leaf_assign@[k]) < n_nodes,
            forall|k: int|
                0 <= k < n_leaves ==> #[trigger] counts@[k] == rows_at(leaf_assign@, i as nat, leaves@[k] as int).len(),
        decreases n_rows - i,
    {
        let node: usize = leaf_assign[i] as usize;
        let j: usize = local[node];
        let before = Ghost(counts@);
        proof {
            if leaves@.contains(node) {
                let at = choose|k: int| 0 <= k < leaves@.len() && leaves@[k] == node;
                assert(local@[leaves@[at] as int] == at);
                lemma_rows_at_grows(leaf_assign@, i as nat, i as nat, node as int);
            } else {
                assert(local@[node as int] == usize::MAX);
            }
        }
        if j != usize::MAX {
            let c: usize = counts[j];
            counts.set(j, c + 1);
        }
        assert forall|k: int| 0 <= k < n_leaves implies #[trigger] counts@[k] == rows_at(
            leaf_assign@,
            (i + 1) as nat,
            leaves@[k] as int,
        ).len() by {
            assert(before@[k] == rows_at(leaf_assign@, i as nat, leaves@[k] as int).len());
            if leaves@[k] == node {
                assert(leaves@.contains(node));
                assert(local@[leaves@[k] as int] == k);
            } else if j == k {
                assert(leaves@.contains(node));
            }
        }
        i = i + 1;
    }
    let mut offsets: Vec<usize> = Vec::new();
    offsets.push(0);
    let mut o: usize = 0;
    while o < n_leaves
        invariant
            o <= n_leaves,
            n_leaves == leaves@.len(),
            n_rows <= usize::MAX,
            counts@.len() == n_leaves,
            leaves@.no_duplicates(),
            forall|k: int|
                0 <= k < n_leaves ==> #[trigger] counts@[k] == rows_at(leaf_assign@, n_rows as nat, leaves@[k] as int).len(),
            offsets@.len() == o + 1,
            forall|k: int|
                0 <= k <= o ==> #[trigger] offsets@[k] == rows_in_leaves(leaf_assign@, n_rows as nat, leaves@, k as nat),
        decreases n_leaves - o,
    {
        proof {
            lemma_rows_in_leaves(leaf_assign@, n_rows as nat, leaves@, (o + 1) as nat);
        }
        let next: usize = offsets[o] + counts[o];
        offsets.push(next);
        o = o + 1;
    }
    proof {
        lemma_rows_in_leaves(leaf_assign@, n_rows as nat, leaves@, n_leaves as nat);
    }
    let samples: Vec<u32> = place_rows(&leaves, &local, &offsets, leaf_assign, n_rows, n_nodes);
    (leaves, offsets, samples)
}

proof fn lemma_offsets_ordered(assign: Seq<u16>, n: nat, leaves: Seq<usize>, a: nat, b: nat)
    requires
        a <= b,
    ensures
        rows_in_leaves(assign, n, leaves, a) <= rows_in_leaves(assign, n, leaves, b),
    decreases b,
{
    if a < b {
        lemma_offsets_ordered(assign, n, leaves, a, (b - 1) as nat);
    }
}

/// Leaf `l` has room left in its run for another row.
proof fn lemma_runs_apart(assign: Seq<u16>, n: nat, leaves: Seq<usize>, offsets: Seq<usize>, j: int, k: int, p: int, q: int)
    requires
        offsets.len() == leaves.len() + 1,
        forall|l: int| 0 <= l <= leaves.len() ==> #[trigger] offsets[l] == rows_in_leaves(assign, n, leaves, l as nat),
        0 <= j < leaves.len(),
        0 <= k < leaves.len(),
        j != k,
        0 <= p < rows_at(assign, n, leaves[j] as int).len(),
        0 <= q < rows_at(assign, n, leaves[k] as int).len(),
    ensures
        offsets[j] + p != offsets[k] + q,
{
    if j < k {
        lemma_offsets_ordered(assign, n, leaves, (j + 1) as nat, k as nat);
        assert(offsets[j + 1] == offsets[j] + rows_at(assign, n, leaves[j] as int).len());
    } else {
        lemma_offsets_ordered(assign, n, leaves, (k + 1) as nat, j as nat);
        assert(offsets[k + 1] == offsets[k] + rows_at(assign, n, leaves[k] as int).len());
    }
}

/// Puts each row into the run of its leaf, in row order.
fn place_rows(
    leaves: &Vec<usize>,
    local: &Vec<usize>,
    offsets: &Vec<usize>,
    leaf_assign: &Vec<u16>,
    n_rows: usize,
    n_nodes: usize,
) -> (samples: Vec<u32>)
    requires
        n_rows <= leaf_assign@.len(),
        n_rows <= u32::MAX,
        leaves@.len() < usize::MAX,
        leaves@.no_duplicates(),
        local@.len() == n_nodes,
        forall|k: int| 0 <= k < leaves@.len() ==> (#[trigger] leaves@[k]) < n_nodes && local@[leaves@[k] as int] == k,
        forall|node: int|
            0 <= node < n_nodes && !leaves@.contains(node as usize) ==> #[trigger] local@[node] == usize::MAX,
        forall|k: int| 0 <= k < n_rows ==> (#[trigger] leaf_assign@[k]) < n_nodes,
        offsets@.len() == leaves@.len() + 1,
        forall|k: int|
            0 <= k <= leaves@.len() ==> #[trigger] offsets@[k] == rows_in_leaves(
                leaf_assign@,
                n_rows as nat,
                leaves@,
                k as nat,
            ),
        offsets@.last() <= n_rows,
    ensures
        samples_flat(samples@, offsets@, leaves@, leaf_assign@, n_rows as nat),
{
    let n_leaves: usize = leaves.len();
    let mut cursor: Vec<usize> = Vec::new();
    let mut l: usize = 0;
    while l < n_leaves
        invariant
            l <= n_leaves,
            n_leaves == leaves@.len(),
            offsets@.len() == n_leaves + 1,
            cursor@.len() == l,
            forall|k: int| 0 <= k < l ==> #[trigger] cursor@[k] == offsets@[k],
        decreases n_leaves - l,
    {
        cursor.push(offsets[l]);
        l = l + 1;
    }
    let mut samples: Vec<u32> = Vec::new();
    let mut z: usize = 0;
    while z < n_rows
        invariant
            z <= n_rows,
            samples@.len() == z,
        decreases n_rows - z,
    {
        samples.push(0);
        z = z + 1;
    }
    let mut i: usize = 0;
    while i < n_rows
        invariant
            i <= n_rows <= leaf_assign@.len(),
            n_rows <= u32::MAX,
            n_leaves == leaves@.len(),
            n_leaves < usize::MAX,
            leaves@.no_duplicates(),
            local@.len() == n_nodes,
            samples@.len() == n_rows,
            cursor@.len() == n_leaves,
            forall|k: int| 0 <= k < n_leaves ==> (#[trigger] leaves@[k]) < n_nodes && local@[leaves@[k] as int] == k,
            forall|node: int|
                0 <= node < n_nodes && !leaves@.contains(node as usize) ==> #[trigger] local@[node] == usize::MAX,
            forall|k: int| 0 <= k < n_rows ==> (#[trigger] leaf_assign@[k]) < n_nodes,
            offsets@.len() == n_leaves + 1,
            offsets@.last() <= n_rows,
            forall|k: int|
                0 <= k <= n_leaves ==> #[trigger] offsets@[k] == rows_in_leaves(
                    leaf_assign@,
                    n_rows as nat,
                    leaves@,
                    k as nat,
                ),
            forall|k: int|
                0 <= k < n_leaves ==> #[trigger] cursor@[k] == offsets@[k] + rows_at(
                    leaf_assign@,
                    i as nat,
                    leaves@[k] as int,
                ).len(),
            forall|k: int, p: int|
                #![trigger leaves@[k], samples@[offsets@[k] + p]]
                0 <= k < n_leaves && 0 <= p < rows_at(leaf_assign@, i as nat, leaves@[k] as int).len()
                    ==> samples@[offsets@[k] + p] == rows_at(leaf_assign@, i as nat, leaves@[k] as int)[p],
        decreases n_rows - i,
    {
        let node: usize = leaf_assign[i] as usize;
        let j: usize = local[node];
        let old_samples = Ghost(samples@);
        let old_cursor = Ghost(cursor@);
        proof {
            if leaves@.contains(node) {
                let at = choose|k: int| 0 <= k < leaves@.len() && leaves@[k] == node;
                assert(local@[leaves@[at] as int] == at);
                assert(j == at);
                lemma_rows_at_grows(leaf_assign@, (i + 1) as nat, n_rows as nat, node as int);
                lemma_offsets_ordered(leaf_assign@, n_rows as nat, leaves@, (at + 1) as nat, n_leaves as nat);
                assert(offsets@[at + 1] == offsets@[at] + rows_at(leaf_assign@, n_rows as nat, node as int).len());
                assert(offsets@[n_leaves as int] <= n_rows);
                assert(cursor@[at] == offsets@[at] + rows_at(leaf_assign@, i as nat, node as int).len());
            } else {
                assert(local@[node as int] == usize::MAX);
            }
        }
        if j != usize::MAX {
            let pos: usize = cursor[j];
            samples.set(pos, i as u32);
            cursor.set(j, pos + 1);
        }
        proof {
            assert forall|k: int| 0 <= k < n_leaves implies #[trigger] cursor@[k] == offsets@[k] + rows_at(
                leaf_assign@,
                (i + 1) as nat,
                leaves@[k] as int,
            ).len() by {
                assert(old_cursor@[k] == offsets@[k] + rows_at(leaf_assign@, i as nat, leaves@[k] as int).len());
                if leaves@[k] == node {
                    assert(leaves@.contains(node));
                    assert(local@[leaves@[k] as int] == k);
                } else if j == k {
                    assert(leaves@.contains(node));
                }
            }
            assert forall|k: int, p: int|
                #![trigger leaves@[k], samples@[offsets@[k] + p]]
                0 <= k < n_leaves && 0 <= p < rows_at(
                    leaf_assign@,
                    (i + 1) as nat,
                    leaves@[k] as int,
                ).len() implies samples@[offsets@[k] + p] == rows_at(
                leaf_assign@,
                (i + 1) as nat,
                leaves@[k] as int,
            )[p] by {
                let older = rows_at(leaf_assign@, i as nat, leaves@[k] as int);
                lemma_rows_at_grows(leaf_assign@, i as nat, n_rows as nat, leaves@[k] as int);
                lemma_rows_at_grows(leaf_assign@, (i + 1) as nat, n_rows as nat, leaves@[k] as int);
                lemma_offsets_ordered(leaf_assign@, n_rows as nat, leaves@, (k + 1) as nat, n_leaves as nat);
                assert(offsets@[k + 1] == offsets@[k] + rows_at(leaf_assign@, n_rows as nat, leaves@[k] as int).len());
                assert(offsets@[n_leaves as int] <= n_rows);
                if p < older.len() {
                    assert(old_samples@[offsets@[k] + p] == older[p]);
                    if j != usize::MAX {
                        assert(leaves@.contains(node));
                        let at = j as int;
                        assert(leaves@[at] == node);
                        lemma_rows_at_grows(leaf_assign@, (i + 1) as nat, n_rows as nat, node as int);
                        if k != at {
                            lemma_runs_apart(
                                leaf_assign@,
                                n_rows as nat,
                                leaves@,
                                offsets@,
                                at,
                                k,
                                rows_at(leaf_assign@, i as nat, node as int).len() as int,
                                p,
                            );
                        }
                    }
                } else {
                    assert(leaves@[k] == node);
                    assert(leaves@.contains(node));
                    assert(local@[leaves@[k] as int] == k);
                }
            }
        }
        i = i + 1;
    }
    proof {
        assert forall|l: int| 0 <= l < leaves@.len() implies ({
            let rows = rows_at(leaf_assign@, n_rows as nat, leaves@[l] as int);
            &&& #[trigger] offsets@[l] + rows.len() == offsets@[l + 1]
            &&& samples@.subrange(offsets@[l] as int, offsets@[l + 1] as int) == rows
        }) by {
            let rows = rows_at(leaf_assign@, n_rows as nat, leaves@[l] as int);
            assert(offsets@[l + 1] == rows_in_leaves(leaf_assign@, n_rows as nat, leaves@, (l + 1) as nat));
            lemma_offsets_ordered(leaf_assign@, n_rows as nat, leaves@, (l + 1) as nat, n_leaves as nat);
            let sub = samples@.subrange(offsets@[l] as int, offsets@[l + 1] as int);
            assert forall|p: int| 0 <= p < rows.len() implies sub[p] == rows[p] by {
                assert(samples@[offsets@[l] + p] == rows[p]);
            }
            assert(sub =~= rows);
        }
    }
    samples
}

/// The leaf of every row.
pub fn route_tree_leaves(tree: &DecisionTree, data: &BinnedData, n_rows: usize) -> (assign: Vec<u16>)
    requires
        tree.fits(*data),
        n_rows <= data.n_rows,
        tree.size() <= 0x1_0000,
    ensures
        assign@.len() == n_rows,
        forall|i: int| 0 <= i < n_rows ==> #[trigger] assign@[i] == tree.leaf_of(*data, i),
        forall|i: int|
            0 <= i < n_rows ==> (#[trigger] assign@[i]) < tree.split_features@.len()
                && tree.split_features@[assign@[i] as int] == NO_FEATURE,
{
    let mut assign: Vec<u16> = Vec::new();
    let mut i: usize = 0;
    while i < n_rows
        invariant
            i <= n_rows <= data.n_rows,
            tree.fits(*data),
            tree.size() <= 0x1_0000,
            assign@.len() == i,
            forall|k: int| 0 <= k < i ==> #[trigger] assign@[k] == tree.leaf_of(*data, k),
            forall|k: int|
                0 <= k < i ==> (#[trigger] assign@[k]) < tree.split_features@.len()
                    && tree.split_features@[assign@[k] as int] == NO_FEATURE,
        decreases n_rows - i,
    {
        assign.push(tree.route_to_leaf(data, i) as u16);
        i = i + 1;
    }
    assign
}

/// The listed rows that end in leaf `node`, in list order.
pub open spec fn rows_ending(tree: DecisionTree, data: BinnedData, list: Seq<u32>, node: int) -> Seq<u32>
    decreases list.len(),
{
    if list.len() == 0 {
        Seq::empty()
    } else if tree.leaf_of(data, list.last() as int) == node {
        rows_ending(tree, data, list.drop_last(), node).push(list.last())
    } else {
        rows_ending(tree, data, list.drop_last(), node)
    }
}

/// The listed rows of each leaf; nothing for a node that is no leaf.
pub fn rows_by_leaf(tree: &DecisionTree, data: &BinnedData, list: &Vec<u32>) -> (rows: Vec<Vec<u32>>)
    requires
        tree.fits(*data),
        forall|i: int| 0 <= i < list@.len() ==> #[trigger] list@[i] < data.n_rows,
    ensures
        rows@.len() == tree.size(),
        forall|node: int|
            0 <= node < tree.size() ==> (#[trigger] rows@[node])@ == rows_ending(*tree, *data, list@, node),
{
    let n_nodes: usize = tree.split_features.len();
    let mut rows: Vec<Vec<u32>> = Vec::new();
    let mut k: usize = 0;
    assert(list@.take(0) =~= Seq::empty());
    while k < n_nodes
        invariant
            k <= n_nodes,
            rows@.len() == k,
            forall|node: int|
                0 <= node < k ==> (#[trigger] rows@[node])@ == rows_ending(*tree, *data, list@.take(0), node),
        decreases n_nodes - k,
    {
        rows.push(Vec::new());
        assert(rows@[k as int]@ =~= rows_ending(*tree, *data, list@.take(0), k as int));
        k = k + 1;
    }
    let mut i: usize = 0;
    while i < list.len()
        invariant
            i <= list@.len(),
            tree.fits(*data),
            forall|j: int| 0 <= j < list@.len() ==> #[trigger] list@[j] < data.n_rows,
            rows@.len() == tree.size(),
            forall|node: int|
                0 <= node < tree.size() ==> (#[trigger] rows@[node])@ == rows_ending(
                    *tree,
                    *data,
                    list@.take(i as int),
                    node,
                ),
        decreases list@.len() - i,
    {
        let row: u32 = list[i];
        let leaf: usize = tree.route_to_leaf(data, row as usize);
        let before = Ghost(rows@);
        assert(list@.take(i + 1).drop_last() =~= list@.take(i as int));
        assert(list@.take(i + 1).last() == row);
        let mut grown: Vec<u32> = rows[leaf].clone();
        assert(grown@ =~= before@[leaf as int]@);
        grown.push(row);
        rows.set(leaf, grown);
        assert forall|node: int| 0 <= node < tree.size() implies (#[trigger] rows@[node])@ == rows_ending(
            *tree,
            *data,
            list@.take(i + 1),
            node,
        ) by {
            assert(before@[node]@ == rows_ending(*tree, *data, list@.take(i as int), node));
        }
        i = i + 1;
    }
    assert(list@.take(list@.len() as int) =~= list@);
    rows
}

/// Whether a row passes `node` on its way to its leaf.
pub open spec fn passes(tree: DecisionTree, data: BinnedData, row: int, node: int) -> bool {
    tree.path(data, 0, row).contains(node)
}

/// The listed rows that pass `node`, in list order.
pub open spec fn rows_passing(tree: DecisionTree, data: BinnedData, list: Seq<u32>, node: int) -> Seq<u32>
    decreases list.len(),
{
    if list.len() == 0 {
        Seq::empty()
    } else if passes(tree, data, list.last() as int, node) {
        rows_passing(tree, data, list.drop_last(), node).push(list.last())
    } else {
        rows_passing(tree, data, list.drop_last(), node)
    }
}

/// The listed rows that pass each node; every one of them passes the root.
pub fn rows_by_node(tree: &DecisionTree, data: &BinnedData, list: &Vec<u32>) -> (rows: Vec<Vec<u32>>)
    requires
        tree.fits(*data),
        forall|i: int| 0 <= i < list@.len() ==> #[trigger] list@[i] < data.n_rows,
    ensures
        rows@.len() == tree.size(),
        forall|node: int|
            0 <= node < tree.size() ==> (#[trigger] rows@[node])@ == rows_passing(*tree, *data, list@, node),
{
    let n_nodes: usize = tree.split_features.len();
    let mut rows: Vec<Vec<u32>> = Vec::new();
    let mut k: usize = 0;
    assert(list@.take(0) =~= Seq::empty());
    while k < n_nodes
        invariant
            k <= n_nodes,
            rows@.len() == k,
            forall|node: int|
                0 <= node < k ==> (#[trigger] rows@[node])@ == rows_passing(*tree, *data, list@.take(0), node),
        decreases n_nodes - k,
    {
        rows.push(Vec::new());
        assert(rows@[k as int]@ =~= rows_passing(*tree, *data, list@.take(0), k as int));
        k = k + 1;
    }
    let mut i: usize = 0;
    while i < list.len()
        invariant
            i <= list@.len(),
            tree.fits(*data),
            forall|j: int| 0 <= j < list@.len() ==> #[trigger] list@[j] < data.n_rows,
            rows@.len() == tree.size(),
            forall|node: int|
                0 <= node < tree.size() ==> (#[trigger] rows@[node])@ == rows_passing(
                    *tree,
                    *data,
                    list@.take(i as int),
                    node,
                ),
        decreases list@.len() - i,
    {
        let row: u32 = list[i];
        let path: Vec<usize> = tree.route_path(data, row as usize);
        let before = Ghost(rows@);
        let mut p: usize = 0;
        while p < path.len()
            invariant
                p <= path@.len(),
                rows@.len() == tree.size(),
                before@.len() == tree.size(),
                forall|q: int| 0 <= q < path@.len() ==> #[trigger] path@[q] < tree.size(),
                forall|a: int, b: int|
                    #![trigger path@[a], path@[b]]
                    0 <= a < b < path@.len() ==> path@[a] < path@[b],
                forall|node: int|
                    0 <= node < tree.size() ==> (#[trigger] rows@[node])@ == (if path@.take(p as int).contains(
                        node as usize,
                    ) {
                        before@[node]@.push(row)
                    } else {
                        before@[node]@
                    }),
            decreases path@.len() - p,
        {
            let node: usize = path[p];
            let older = Ghost(rows@);
            proof {
                let head = path@.take(p as int);
                if head.contains(node) {
                    let q = choose|q: int| 0 <= q < head.len() && head[q] == node;
                    assert(path@[q] < path@[p as int]);
                }
            }
            let mut grown: Vec<u32> = rows[node].clone();
            assert(grown@ =~= older@[node as int]@);
            grown.push(row);
            rows.set(node, grown);
            assert forall|m: int| 0 <= m < tree.size() implies (#[trigger] rows@[m])@ == (if path@.take(p + 1).contains(
                m as usize,
            ) {
                before@[m]@.push(row)
            } else {
                before@[m]@
            }) by {
                let a = path@.take(p as int);
                let b = path@.take(p + 1);
                assert(older@[m]@ == (if a.contains(m as usize) {
                    before@[m]@.push(row)
                } else {
                    before@[m]@
                }));
                assert(b[p as int] == node);
                assert(tree.split_features.len() == tree.split_features@.len());
                if a.contains(m as usize) {
                    let q = choose|q: int| 0 <= q < a.len() && a[q] == m as usize;
                    assert(b[q] == a[q]);
                }
                if b.contains(m as usize) && m != node {
                    let q = choose|q: int| 0 <= q < b.len() && b[q] == m as usize;
                    assert(a[q] == b[q]);
                }
            }
            p = p + 1;
        }
        assert(path@.take(path@.len() as int) =~= path@);
        assert(list@.take(i + 1).drop_last() =~= list@.take(i as int));
        assert(list@.take(i + 1).last() == row);
        assert forall|node: int| 0 <= node < tree.size() implies (#[trigger] rows@[node])@ == rows_passing(
            *tree,
            *data,
            list@.take(i + 1),
            node,
        ) by {
            let whole = tree.path(*data, 0, row as int);
            tree.lemma_path_in_range(*data, 0, row as int);
            assert(before@[node]@ == rows_passing(*tree, *data, list@.take(i as int), node));
            assert(tree.split_features.len() == tree.split_features@.len());
            if path@.contains(node as usize) {
                let q = choose|q: int| 0 <= q < path@.len() && path@[q] == node as usize;
                assert(whole[q] == node);
            }
            if whole.contains(node) {
                let q = choose|q: int| 0 <= q < whole.len() && whole[q] == node;
                assert(path@[q] == node as usize);
            }
        }
        i = i + 1;
    }
    assert(list@.take(list@.len() as int) =~= list@);
    rows
}

/// Every listed row passes the root.
pub proof fn law_all_rows_pass_root(tree: DecisionTree, data: BinnedData, list: Seq<u32>)
    ensures
        rows_passing(tree, data, list, 0) == list,
    decreases list.len(),
{
    if list.len() > 0 {
        law_all_rows_pass_root(tree, data, list.drop_last());
        let path = tree.path(data, 0, list.last() as int);
        assert(path[0] == 0);
        assert(list.drop_last().push(list.last()) =~= list);
    } else {
        assert(list =~= Seq::empty());
    }
}

/// A row's part in its leaf's sign balance.
pub open spec fn sign_of(g: Num) -> int {
    if positive(g) {
        1
    } else if g.below(Num { bits: 0 }) {
        -1
    } else {
        0
    }
}

/// The sum of the gradient signs of the first `n` rows that end in leaf `node`.
pub open spec fn sign_balance(tree: DecisionTree, data: BinnedData, gradients: Seq<Num>, n: nat, node: int) -> int
    decreases n,
{
    if n == 0 {
        0
    } else {
        sign_balance(tree, data, gradients, (n - 1) as nat, node) + (if tree.leaf_of(data, n - 1) == node {
            sign_of(gradients[n - 1])
        } else {
            0
        })
    }
}

/// The number of the first `n` rows that end in leaf `node`.
pub open spec fn rows_ending_count(tree: DecisionTree, data: BinnedData, n: nat, node: int) -> int
    decreases n,
{
    if n == 0 {
        0
    } else {
        rows_ending_count(tree, data, (n - 1) as nat, node) + (if tree.leaf_of(data, n - 1) == node {
            1int
        } else {
            0
        })
    }
}

/// A sign balance is no larger than the number of rows that it is over.
pub proof fn lemma_balance_bound(tree: DecisionTree, data: BinnedData, gradients: Seq<Num>, n: nat, node: int)
    ensures
        -rows_ending_count(tree, data, n, node) <= sign_balance(tree, data, gradients, n, node)
            <= rows_ending_count(tree, data, n, node) <= n,
    decreases n,
{
    if n > 0 {
        lemma_balance_bound(tree, data, gradients, (n - 1) as nat, node);
    }
}

/// For each node the sum of the gradient signs of its rows, and their number.
pub fn leaf_sign_balance(tree: &DecisionTree, data: &BinnedData, gradients: &Vec<Num>, n_rows: usize) -> (r: (
    Vec<i64>,
    Vec<i64>,
))
    requires
        tree.fits(*data),
        n_rows <= data.n_rows,
        n_rows <= gradients@.len(),
        n_rows <= i64::MAX,
    ensures
        r.0@.len() == tree.size(),
        r.1@.len() == tree.size(),
        forall|node: int|
            0 <= node < tree.size() ==> {
                &&& #[trigger] r.0@[node] == sign_balance(*tree, *data, gradients@, n_rows as nat, node)
                &&& r.1@[node] == rows_ending_count(*tree, *data, n_rows as nat, node)
            },
{
    let n_nodes: usize = tree.split_features.len();
    let zero: Num = Num { bits: 0 };
    let mut sums: Vec<i64> = Vec::new();
    let mut counts: Vec<i64> = Vec::new();
    let mut k: usize = 0;
    while k < n_nodes
        invariant
            k <= n_nodes,
            sums@.len() == k,
            counts@.len() == k,
            forall|node: int| 0 <= node < k ==> #[trigger] sums@[node] == 0 && counts@[node] == 0,
        decreases n_nodes - k,
    {
        sums.push(0);
        counts.push(0);
        k = k + 1;
    }
    let mut i: usize = 0;
    while i < n_rows
        invariant
            i <= n_rows <= data.n_rows,
            n_rows <= gradients@.len(),
            n_rows <= i64::MAX,
            zero.bits == 0,
            tree.fits(*data),
            sums@.len() == tree.size(),
            counts@.len() == tree.size(),
            forall|node: int|
                0 <= node < tree.size() ==> {
                    &&& #[trigger] sums@[node] == sign_balance(*tree, *data, gradients@, i as nat, node)
                    &&& counts@[node] == rows_ending_count(*tree, *data, i as nat, node)
                },
        decreases n_rows - i,
    {
        let leaf: usize = tree.route_to_leaf(data, i);
        let g: Num = gradients[i];
        let before = Ghost(sums@);
        let before_counts = Ghost(counts@);
        proof {
            lemma_balance_bound(*tree, *data, gradients@, i as nat, leaf as int);
            assert(sums@[leaf as int] == sign_balance(*tree, *data, gradients@, i as nat, leaf as int));
        }
        let s: i64 = sums[leaf];
        let c: i64 = counts[leaf];
        if is_positive(&g) {
            sums.set(leaf, s + 1);
        } else if g.lt(&zero) {
            sums.set(leaf, s - 1);
        }
        counts.set(leaf, c + 1);
        assert forall|node: int| 0 <= node < tree.size() implies ({
            &&& #[trigger] sums@[node] == sign_balance(*tree, *data, gradients@, (i + 1) as nat, node)
            &&& counts@[node] == rows_ending_count(*tree, *data, (i + 1) as nat, node)
        }) by {
            assert(before@[node] == sign_balance(*tree, *data, gradients@, i as nat, node));
            assert(before_counts@[node] == rows_ending_count(*tree, *data, i as nat, node));
        }
        i = i + 1;
    }
    (sums, counts)
}

/// How many rows pass each node.
pub fn node_counts(rows: &Vec<Vec<u32>>) -> (counts: Vec<usize>)
    ensures
        counts@.len() == rows@.len(),
        forall|node: int| 0 <= node < rows@.len() ==> #[trigger] counts@[node] == rows@[node]@.len(),
{
    let mut counts: Vec<usize> = Vec::new();
    let mut node: usize = 0;
    while node < rows.len()
        invariant
            node <= rows@.len(),
            counts@.len() == node,
            forall|k: int| 0 <= k < node ==> #[trigger] counts@[k] == rows@[k]@.len(),
        decreases rows@.len() - node,
    {
        counts.push(rows[node].len());
        node = node + 1;
    }
    counts
}

/// No node is a child of two splits, nor both children of one.
pub open spec fn children_apart(tree: DecisionTree) -> bool {
    forall|a: int, b: int|
        #![trigger tree.is_leaf(a), tree.is_leaf(b)]
        0 <= a < tree.size() && 0 <= b < tree.size() && !tree.is_leaf(a) && !tree.is_leaf(b) ==> {
            &&& tree.left_children@[a] != tree.right_children@[b]
            &&& a != b ==> tree.left_children@[a] != tree.left_children@[b] && tree.right_children@[a]
                != tree.right_children@[b]
        }
}

proof fn lemma_passes_one_child(tree: DecisionTree, data: BinnedData, row: int, node: int)
    requires
        tree.well_formed(),
        children_apart(tree),
        0 <= node < tree.size(),
        !tree.is_leaf(node),
    ensures
        ({
            let left = passes(tree, data, row, tree.left_children@[node] as int);
            let right = passes(tree, data, row, tree.right_children@[node] as int);
            &&& passes(tree, data, row, node) == (left || right)
            &&& !(left && right)
        }),
{
    let path = tree.path(data, 0, row);
    tree.lemma_path_steps(data, 0, row);
    let l = tree.left_children@[node] as int;
    let r = tree.right_children@[node] as int;
    assert(l != r);
    if path.contains(node) {
        let i = choose|i: int| 0 <= i < path.len() && path[i] == node;
        assert(i < path.len() - 1);
        assert(path[i + 1] == tree.child(data, node, row));
    }
    assert forall|c: int| (c == l || c == r) && path.contains(c) implies path.contains(node) && c == tree.child(
        data,
        node,
        row,
    ) by {
        let j = choose|j: int| 0 <= j < path.len() && path[j] == c;
        assert(j > 0);
        let before = path[j - 1];
        assert(!tree.is_leaf(before) && path[j - 1 + 1] == tree.child(data, before, row));
        assert(before == node) by {
            assert(tree.is_leaf(before) == tree.is_leaf(node));
        }
    }
}

/// The rows of a split are those of its two children, each once: a row that
/// passes the split passes exactly one of them, and no other row passes either.
/// All rows pass the root.
pub proof fn law_children_part_rows(tree: DecisionTree, data: BinnedData, list: Seq<u32>, node: int)
    requires
        tree.well_formed(),
        children_apart(tree),
        0 <= node < tree.size(),
    ensures
        rows_passing(tree, data, list, 0) == list,
        !tree.is_leaf(node) ==> {
            let rows = rows_passing(tree, data, list, node);
            let left = rows_passing(tree, data, list, tree.left_children@[node] as int);
            let right = rows_passing(tree, data, list, tree.right_children@[node] as int);
            &&& rows.to_multiset() == left.to_multiset().add(right.to_multiset())
            &&& rows.len() == left.len() + right.len()
        },
    decreases list.len(),
{
    broadcast use vstd::seq_lib::group_to_multiset_ensures;

    if list.len() > 0 {
        let rest = list.drop_last();
        let row = list.last();
        law_children_part_rows(tree, data, rest, node);
        tree.lemma_path_steps(data, 0, row as int);
        assert(tree.path(data, 0, row as int)[0] == 0);
        assert(passes(tree, data, row as int, 0));
        assert(rest.push(row) =~= list);
        if !tree.is_leaf(node) {
            lemma_passes_one_child(tree, data, row as int, node);
            let rows = rows_passing(tree, data, rest, node);
            let left = rows_passing(tree, data, rest, tree.left_children@[node] as int);
            let right = rows_passing(tree, data, rest, tree.right_children@[node] as int);
            assert(rows.push(row).to_multiset() =~= rows.to_multiset().insert(row));
            assert(left.push(row).to_multiset() =~= left.to_multiset().insert(row));
            assert(right.push(row).to_multiset() =~= right.to_multiset().insert(row));
            assert(left.to_multiset().insert(row).add(right.to_multiset()) =~= left.to_multiset().add(
                right.to_multiset(),
            ).insert(row));
            assert(left.to_multiset().add(right.to_multiset().insert(row)) =~= left.to_multiset().add(
                right.to_multiset(),
            ).insert(row));
        }
    } else if !tree.is_leaf(node) {
        assert(Seq::<u32>::empty().to_multiset() =~= Seq::<u32>::empty().to_multiset().add(
            Seq::<u32>::empty().to_multiset(),
        ));
    }
}

/// The rows of a leaf are those that were assigned to it, by rising number.
pub proof fn law_rows_stand_at_their_leaf(assign: Seq<u16>, n: nat, node: int, row: u32, i: int, j: int)
    requires
        n <= assign.len(),
        n <= u32::MAX,
    ensures
        rows_at(assign, n, node).contains(row) <==> row < n && assign[row as int] == node,
        0 <= i < j < rows_at(assign, n, node).len() ==> rows_at(assign, n, node)[i] < rows_at(assign, n, node)[j],
        0 <= j < rows_at(assign, n, node).len() ==> rows_at(assign, n, node)[j] < n,
    decreases n,
{
    if n > 0 {
        let rest = rows_at(assign, (n - 1) as nat, node);
        let all = rows_at(assign, n, node);
        law_rows_stand_at_their_leaf(assign, (n - 1) as nat, node, row, i, j);
        if assign[n - 1] == node {
            law_rows_stand_at_their_leaf(assign, (n - 1) as nat, node, row, i, i);
            assert(all == rest.push((n - 1) as u32));
            if rest.contains(row) {
                let k = choose|k: int| 0 <= k < rest.len() && rest[k] == row;
                assert(all[k] == row);
            }
            if row == n - 1 {
                assert(all[all.len() - 1] == row);
            }
        }
    }
}

/// The leaves of a tree are the nodes without a split, and their values stand in the
/// order of the nodes.
pub proof fn law_leaves_have_no_split(tree: DecisionTree, node: usize, p: int)
    requires
        tree.split_features@.len() <= usize::MAX,
    ensures
        ({
            let leaves = kept_indices(leaf_flags(tree.split_features@));
            &&& leaves.contains(node) <==> node < tree.split_features@.len() && tree.split_features@[node as int]
                == u32::MAX
            &&& leaf_values(tree).len() == leaves.len()
            &&& 0 <= p < leaves.len() ==> leaf_values(tree)[p] == tree.values@[leaves[p] as int]
        }),
{
    crate::select::law_kept_are_those_marked(leaf_flags(tree.split_features@), node);
}

/// A row of a list is found at the leaf that its walk ends in, and at no other; each
/// leaf's rows are counted one by one.
pub proof fn law_rows_end_in_one_leaf(tree: DecisionTree, data: BinnedData, list: Seq<u32>, more: Seq<u32>, node: int, row: u32)
    ensures
        rows_ending(tree, data, list, node).contains(row) <==> list.contains(row) && tree.leaf_of(data, row as int)
            == node,
        rows_ending(tree, data, list + more, node) == rows_ending(tree, data, list, node) + rows_ending(
            tree,
            data,
            more,
            node,
        ),
    decreases list.len(), more.len(),
{
    if more.len() > 0 {
        law_rows_end_in_one_leaf(tree, data, list, more.drop_last(), node, row);
        assert((list + more).drop_last() =~= list + more.drop_last());
        assert((list + more).last() == more.last());
        assert(rows_ending(tree, data, list + more, node) =~= rows_ending(tree, data, list, node) + rows_ending(
            tree,
            data,
            more,
            node,
        ));
    } else {
        assert(list + more =~= list);
        assert(rows_ending(tree, data, list, node) =~= rows_ending(tree, data, list, node) + rows_ending(
            tree,
            data,
            more,
            node,
        ));
        if list.len() > 0 {
            let rest = list.drop_last();
            law_rows_end_in_one_leaf(tree, data, rest, more, node, row);
            let sub = rows_ending(tree, data, rest, node);
            let all = rows_ending(tree, data, list, node);
            assert(list.contains(row) <==> rest.contains(row) || row == list.last()) by {
                if rest.contains(row) {
                    let k = choose|k: int| 0 <= k < rest.len() && rest[k] == row;
                    assert(list[k] == row);
                }
                if row == list.last() {
                    assert(list[list.len() - 1] == row);
                }
                if list.contains(row) && row != list.last() {
                    let k = choose|k: int| 0 <= k < list.len() && list[k] == row;
                    assert(rest[k] == row);
                }
            }
            if all != sub {
                assert(all == sub.push(list.last()));
                if sub.contains(row) {
                    let k = choose|k: int| 0 <= k < sub.len() && sub[k] == row;
                    assert(all[k] == row);
                }
                if row == list.last() {
                    assert(all[all.len() - 1] == row);
                }
            }
        }
    }
}

/// A leaf's balance of signs is the gradients above zero less those below it: it never
/// exceeds the rows that end there on either side, is their number where all gradients
/// are above zero, and turns round with the signs.
pub proof fn law_signs_are_balanced(
    tree: DecisionTree,
    data: BinnedData,
    gradients: Seq<Num>,
    turned: Seq<Num>,
    n: nat,
    node: int,
)
    requires
        n <= gradients.len(),
        turned.len() == gradients.len(),
        forall|i: int|
            0 <= i < gradients.len() ==> (#[trigger] gradients[i]).finite() && turned[i].finite() && turned[i].scaled()
                == -gradients[i].scaled(),
    ensures
        -rows_ending_count(tree, data, n, node) <= sign_balance(tree, data, gradients, n, node) <= rows_ending_count(
            tree,
            data,
            n,
            node,
        ),
        sign_balance(tree, data, turned, n, node) == -sign_balance(tree, data, gradients, n, node),
        (forall|i: int| 0 <= i < n ==> (#[trigger] gradients[i]).scaled() > 0) ==> sign_balance(
            tree,
            data,
            gradients,
            n,
            node,
        ) == rows_ending_count(tree, data, n, node),
        (forall|i: int| 0 <= i < n && tree.leaf_of(data, i) == node ==> (#[trigger] gradients[i]).scaled() == 0)
            ==> sign_balance(tree, data, gradients, n, node) == 0,
    decreases n,
{
    if n > 0 {
        law_signs_are_balanced(tree, data, gradients, turned, (n - 1) as nat, node);
        let zero = Num { bits: 0 };
        let g = gradients[n - 1];
        let t = turned[n - 1];
        assert(crate::num::scaled_magnitude(0) == 0);
        assert(zero.scaled() == 0);
        crate::num::law_key_orders_values(zero, g);
        crate::num::law_key_orders_values(g, zero);
        crate::num::law_key_orders_values(zero, t);
        crate::num::law_key_orders_values(t, zero);
    }
}

/// The rows that end in the nodes of a tree are counted once each: a row more is one more
/// at the leaf it ends in.
pub proof fn law_ending_rows_are_counted(tree: DecisionTree, data: BinnedData, n: nat, node: int, list: Seq<u32>)
    requires
        list.len() == n,
        n <= u32::MAX,
        forall|i: int| 0 <= i < n ==> #[trigger] list[i] == i,
    ensures
        rows_ending_count(tree, data, n, node) == rows_ending(tree, data, list, node).len(),
    decreases n,
{
    if n > 0 {
        law_ending_rows_are_counted(tree, data, (n - 1) as nat, node, list.drop_last());
    }
}

/// Every leaf has its own list of rows: those assigned to it.
pub proof fn law_leaves_list_their_rows(samples: Seq<Vec<u32>>, leaves: Seq<usize>, assign: Seq<u16>, n_rows: nat, l: int, row: u32)
    requires
        samples_by_leaf(samples, leaves, assign, n_rows),
        n_rows <= assign.len(),
        n_rows <= u32::MAX,
        0 <= l < leaves.len(),
    ensures
        samples.len() == leaves.len(),
        samples[l]@.contains(row) <==> row < n_rows && assign[row as int] == leaves[l],
{
    law_rows_stand_at_their_leaf(assign, n_rows, leaves[l] as int, row, 0, 0);
}

} // verus!
