//! The slots of a node in the slope tables of a tree.

use crate::tree::{CatLookup, DecisionTree};
use vstd::prelude::*;

verus! {

/// The slots of `node` in a table of `len` entries with `width` per node, as
/// far as the table reaches.
pub open spec fn node_slots(node: int, width: int, len: int) -> Seq<usize> {
    let start = node * width;
    let count = if start >= len {
        0
    } else if start + width <= len {
        width
    } else {
        len - start
    };
    Seq::new(count as nat, |i: int| (start + i) as usize)
}

fn slots_in(node: usize, width: usize, len: usize) -> (list: Vec<usize>)
    ensures
        list@ == node_slots(node as int, width as int, len as int),
{
    let mut list: Vec<usize> = Vec::new();
    let start: usize = match node.checked_mul(width) {
        Some(s) => s,
        None => len,
    };
    if start >= len {
        assert(list@ =~= node_slots(node as int, width as int, len as int));
        return list;
    }
    assert(start == node * width);
    let count: usize = if width <= len - start { width } else { len - start };
    let mut i: usize = 0;
    while i < count
        invariant
            i <= count,
            start + count <= len,
            list@.len() == i,
            forall|k: int| 0 <= k < i ==> #[trigger] list@[k] == start + k,
        decreases count - i,
    {
        list.push(start + i);
        i = i + 1;
    }
    assert(list@ =~= node_slots(node as int, width as int, len as int));
    list
}

/// The slots of a node that scale with its value.
pub struct NodeSlots {
    pub ramp: Vec<usize>,
    pub pair: Option<usize>,
    pub quad: Vec<usize>,
}

/// The slots of two siblings that are smoothed towards each other.
pub struct SiblingSlots {
    pub ramp: Vec<(usize, usize)>,
    pub pair: bool,
    pub quad: Vec<(usize, usize)>,
    /// Where both have a lookup, their defaults and so many of their first bins.
    pub lookups: Option<usize>,
}

/// Two lookups read the same features in the same bins.
pub open spec fn same_bins(a: CatLookup, b: CatLookup) -> bool {
    &&& a.feature == b.feature
    &&& a.feature2 == b.feature2
    &&& a.feature3 == b.feature3
    &&& a.is_numeric == b.is_numeric
    &&& a.n_coarse_bins == b.n_coarse_bins
    &&& a.pair_stride == b.pair_stride
    &&& a.triple_stride == b.triple_stride
    &&& a.bin_values@.len() == b.bin_values@.len()
}

/// The lookup of a node, if it has one.
pub open spec fn lookup_of(tree: DecisionTree, node: int) -> Option<CatLookup> {
    if node < tree.cat_lookups@.len() {
        tree.cat_lookups@[node]
    } else {
        None
    }
}

/// The bins of two nodes' lookups that are smoothed beside their defaults: all
/// where both lookups read the same bins, none where a bin of one means
/// something else in the other.
pub open spec fn paired_lookups(tree: DecisionTree, left: int, right: int) -> Option<usize> {
    match (lookup_of(tree, left), lookup_of(tree, right)) {
        (Some(a), Some(b)) => if same_bins(a, b) {
            Some(a.bin_values@.len() as usize)
        } else {
            Some(0usize)
        },
        _ => None,
    }
}

fn pair_lookups(tree: &DecisionTree, left: usize, right: usize) -> (r: Option<usize>)
    ensures
        r == paired_lookups(*tree, left as int, right as int),
{
    if left >= tree.cat_lookups.len() || right >= tree.cat_lookups.len() {
        return None;
    }
    match (&tree.cat_lookups[left], &tree.cat_lookups[right]) {
        (Some(a), Some(b)) => {
            let same: bool = a.feature == b.feature && a.feature2 == b.feature2 && a.feature3 == b.feature3
                && a.is_numeric == b.is_numeric && a.n_coarse_bins == b.n_coarse_bins && a.pair_stride
                == b.pair_stride && a.triple_stride == b.triple_stride && a.bin_values.len() == b.bin_values.len();
            if same {
                Some(a.bin_values.len())
            } else {
                Some(0)
            }
        },
        _ => None,
    }
}

/// The slots of two nodes side by side, where the table holds all of both.
pub open spec fn paired_slots(left: int, right: int, width: int, len: int) -> Seq<(usize, usize)> {
    if left * width + width <= len && right * width + width <= len {
        Seq::new(width as nat, |i: int| ((left * width + i) as usize, (right * width + i) as usize))
    } else {
        Seq::empty()
    }
}

/// Where the slots of a node start, if the table holds all of them.
fn whole_start(node: usize, width: usize, len: usize) -> (r: Option<usize>)
    ensures
        r is Some <==> node * width + width <= len,
        r matches Some(s) ==> s == node * width,
{
    match node.checked_mul(width) {
        Some(s) => if s <= len && width <= len - s {
            Some(s)
        } else {
            None
        },
        None => None,
    }
}

fn pairs_in(left: usize, right: usize, width: usize, len: usize) -> (list: Vec<(usize, usize)>)
    ensures
        list@ == paired_slots(left as int, right as int, width as int, len as int),
{
    let mut list: Vec<(usize, usize)> = Vec::new();
    match (whole_start(left, width, len), whole_start(right, width, len)) {
        (Some(a), Some(b)) => {
            let mut i: usize = 0;
            while i < width
                invariant
                    i <= width,
                    a + width <= len,
                    b + width <= len,
                    list@.len() == i,
                    forall|k: int| 0 <= k < i ==> #[trigger] list@[k] == ((a + k) as usize, (b + k) as usize),
                decreases width - i,
            {
                list.push((a + i, b + i));
                i = i + 1;
            }
        },
        _ => {},
    }
    assert(list@ =~= paired_slots(left as int, right as int, width as int, len as int));
    list
}

impl DecisionTree {
    /// The slots that scale with the value of `node`.
    pub fn slots_of_node(&self, node: usize) -> (r: NodeSlots)
        ensures
            r.ramp@ == node_slots(node as int, self.ramp_k as int, self.ramp_slopes@.len() as int),
            r.pair == if node < self.leaf_pair_slopes@.len() {
                Some(node)
            } else {
                None
            },
            r.quad@ == node_slots(node as int, self.quad_n_interactions as int, self.quad_slopes@.len() as int),
    {
        NodeSlots {
            ramp: slots_in(node, self.ramp_k, self.ramp_slopes.len()),
            pair: if node < self.leaf_pair_slopes.len() {
                Some(node)
            } else {
                None
            },
            quad: slots_in(node, self.quad_n_interactions, self.quad_slopes.len()),
        }
    }

    /// The slots of two siblings that are smoothed with their values.
    pub fn slots_of_siblings(&self, left: usize, right: usize) -> (r: SiblingSlots)
        ensures
            r.ramp@ == paired_slots(left as int, right as int, self.ramp_k as int, self.ramp_slopes@.len() as int),
            r.pair == (left < self.leaf_pair_slopes@.len() && right < self.leaf_pair_slopes@.len()),
            r.quad@ == paired_slots(
                left as int,
                right as int,
                self.quad_n_interactions as int,
                self.quad_slopes@.len() as int,
            ),
            r.lookups == paired_lookups(*self, left as int, right as int),
    {
        SiblingSlots {
            ramp: pairs_in(left, right, self.ramp_k, self.ramp_slopes.len()),
            pair: left < self.leaf_pair_slopes.len() && right < self.leaf_pair_slopes.len(),
            quad: pairs_in(left, right, self.quad_n_interactions, self.quad_slopes.len()),
            lookups: pair_lookups(self, left, right),
        }
    }
}

proof fn lemma_blocks_apart(a: int, b: int, width: int, i: int, j: int)
    by (nonlinear_arith)
    requires
        0 <= a < b,
        0 <= i < width,
        0 <= j < width,
    ensures
        a * width + i < b * width + j,
{
}

/// No slot belongs to two nodes.
pub proof fn law_slots_are_apart(a: int, b: int, width: int, len: int, i: int, j: int)
    requires
        0 <= a,
        0 <= b,
        a != b,
        0 <= width,
        len <= usize::MAX,
        0 <= i < node_slots(a, width, len).len(),
        0 <= j < node_slots(b, width, len).len(),
    ensures
        node_slots(a, width, len)[i] != node_slots(b, width, len)[j],
{
    assert(0 <= a * width && 0 <= b * width) by (nonlinear_arith)
        requires
            0 <= a,
            0 <= b,
            0 <= width,
    ;
    if a < b {
        lemma_blocks_apart(a, b, width, i, j);
    } else {
        lemma_blocks_apart(b, a, width, j, i);
    }
}

/// The slots of a node are the `width` places from its own start on, as far as there are
/// any.
pub proof fn law_nodes_have_their_slots(node: int, width: int, len: int, x: usize)
    requires
        0 <= node,
        0 <= width,
        0 <= len <= usize::MAX,
    ensures
        node_slots(node, width, len).contains(x) <==> node * width <= x < node * width + width && x < len,
{
    let list = node_slots(node, width, len);
    let start = node * width;
    assert(start >= 0) by (nonlinear_arith)
        requires
            start == node * width,
            node >= 0,
            width >= 0,
    ;
    if start <= x < start + width && x < len {
        assert(list[x - start] == x);
    }
    if list.contains(x) {
        let i = choose|i: int| 0 <= i < list.len() && list[i] == x;
        assert(list[i] == (start + i) as usize);
    }
}

/// The slots of two leaves are paired one by one where both have all of theirs, and not at
/// all else.
pub proof fn law_siblings_pair_their_slots(left: int, right: int, width: int, len: int, i: int)
    requires
        0 <= left,
        0 <= right,
        0 <= width,
        0 <= len <= usize::MAX,
    ensures
        ({
            let list = paired_slots(left, right, width, len);
            let whole = node_slots(left, width, len).len() == width && node_slots(right, width, len).len() == width;
            &&& whole && width > 0 ==> list.len() == width
            &&& !whole ==> list.len() == 0
            &&& 0 <= i < list.len() ==> list[i] == (node_slots(left, width, len)[i], node_slots(right, width, len)[i])
        }),
{
    assert(left * width >= 0 && right * width >= 0) by (nonlinear_arith)
        requires
            left >= 0,
            right >= 0,
            width >= 0,
    ;
}

/// Two lookups are paired bin by bin only where they read the same features in the same
/// way; the order of the two leaves does not matter.
pub proof fn law_lookups_pair_bin_by_bin(tree: DecisionTree, left: int, right: int)
    requires
        0 <= left < tree.cat_lookups@.len(),
        0 <= right < tree.cat_lookups@.len(),
    ensures
        paired_lookups(tree, left, right) is Some <==> tree.cat_lookups@[left] is Some && tree.cat_lookups@[right]
            is Some,
        paired_lookups(tree, left, right) == paired_lookups(tree, right, left),
        paired_lookups(tree, left, right) matches Some(n) ==> n > 0 ==> {
            let a = tree.cat_lookups@[left]->0;
            let b = tree.cat_lookups@[right]->0;
            &&& n == a.bin_values@.len() && n == b.bin_values@.len()
            &&& a.feature == b.feature && a.feature2 == b.feature2 && a.feature3 == b.feature3
            &&& a.pair_stride == b.pair_stride && a.triple_stride == b.triple_stride
            &&& a.is_numeric == b.is_numeric && a.n_coarse_bins == b.n_coarse_bins
        },
        tree.cat_lookups@[left] is Some && tree.cat_lookups@[left] == tree.cat_lookups@[right] ==> paired_lookups(
            tree,
            left,
            right,
        ) == Some(tree.cat_lookups@[left]->0.bin_values@.len() as usize),
{
    if tree.cat_lookups@[left] is Some && tree.cat_lookups@[right] is Some {
        let a = tree.cat_lookups@[left]->0;
        let b = tree.cat_lookups@[right]->0;
        assert(a.bin_values.len() == a.bin_values@.len());
        assert(b.bin_values.len() == b.bin_values@.len());
    }
}

} // verus!
