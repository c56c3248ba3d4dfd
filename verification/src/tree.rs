//! Decision trees and binned data, as far as the planning logic reads them.

use crate::bitset::{bitvec_test, has_bit};
use crate::num::Num;
use vstd::prelude::*;

verus! {

/// The split feature of a leaf, and the mark of an unused feature slot.
pub const NO_FEATURE: u32 = u32::MAX;

/// Features cut into bins: `bin_indices` and `cll_hash_bins` are feature-major,
/// `missing_bin` is the bin of a missing value.
#[derive(Clone)]
pub struct BinnedData {
    pub n_rows: usize,
    pub n_features: usize,
    pub missing_bin: u16,
    pub bin_indices: Vec<u16>,
    pub is_categorical: Vec<bool>,
    pub cll_is_categorical: Vec<bool>,
    pub cll_n_bins: Vec<usize>,
    pub cll_hash_bins: Vec<u16>,
}

impl BinnedData {
    /// The bin tables hold one bin for each feature and row.
    pub open spec fn filled(&self) -> bool {
        &&& self.bin_indices@.len() == self.n_features * self.n_rows
        &&& self.cll_hash_bins@.len() == self.n_features * self.n_rows
        &&& self.cll_n_bins@.len() == self.n_features
    }

    pub fn is_filled(&self) -> (r: bool)
        ensures
            r == self.filled(),
    {
        match self.n_features.checked_mul(self.n_rows) {
            Some(n) => self.bin_indices.len() == n && self.cll_hash_bins.len() == n && self.cll_n_bins.len()
                == self.n_features,
            None => {
                proof {
                    assert(self.bin_indices.len() == self.bin_indices@.len());
                }
                false
            },
        }
    }

    /// These bins are those of `full` without the bins of the rows.
    pub open spec fn strips(&self, full: BinnedData) -> bool {
        &&& *self == (BinnedData { bin_indices: self.bin_indices, cll_hash_bins: self.cll_hash_bins, ..full })
        &&& self.bin_indices@.len() == 0
        &&& self.cll_hash_bins@.len() == 0
    }

    /// Drops what only training needs: the bins of the rows.
    pub fn strip_training_storage_for_prediction(self) -> (r: BinnedData)
        ensures
            r.strips(self),
    {
        BinnedData { bin_indices: Vec::new(), cll_hash_bins: Vec::new(), ..self }
    }

    /// The bin of a feature's value in a row.
    pub open spec fn bin(&self, row: int, feat: int) -> u16 {
        self.bin_indices@[feat * self.n_rows + row]
    }

    /// The category bin of a feature's value in a row.
    pub open spec fn cat_bin(&self, row: int, feat: int) -> u16 {
        self.cll_hash_bins@[feat * self.n_rows + row]
    }

    pub fn get_bin(&self, row: usize, feat: usize) -> (b: u16)
        requires
            self.filled(),
            row < self.n_rows,
            feat < self.n_features,
        ensures
            b == self.bin(row as int, feat as int),
    {
        proof {
            lemma_cell(feat as int, row as int, self.n_features as int, self.n_rows as int);
            assert(self.bin_indices.len() == self.bin_indices@.len());
        }
        self.bin_indices[feat * self.n_rows + row]
    }

    pub fn get_cat_bin(&self, row: usize, feat: usize) -> (b: u16)
        requires
            self.filled(),
            row < self.n_rows,
            feat < self.n_features,
        ensures
            b == self.cat_bin(row as int, feat as int),
    {
        proof {
            lemma_cell(feat as int, row as int, self.n_features as int, self.n_rows as int);
            assert(self.cll_hash_bins.len() == self.cll_hash_bins@.len());
        }
        self.cll_hash_bins[feat * self.n_rows + row]
    }
}

/// A cell of a table of `n` rows of width `w` lies inside it.
pub proof fn lemma_cell(r: int, c: int, n: int, w: int)
    requires
        0 <= r < n,
        0 <= c < w,
    ensures
        0 <= r * w <= r * w + c < n * w,
{
    assert(0 <= r * w && r * w + w <= n * w) by (nonlinear_arith)
        requires
            0 <= r,
            r + 1 <= n,
            0 <= w,
    ;
}

/// A lookup of leaf values by category bin.
#[derive(Clone)]
pub struct CatLookup {
    pub feature: u32,
    pub feature2: u32,
    pub feature3: u32,
    pub bin_values: Vec<Num>,
    pub default_value: Num,
    pub is_numeric: bool,
    pub n_coarse_bins: usize,
    pub pair_stride: usize,
    pub triple_stride: usize,
}

/// A tree in array form: entry `i` of each table belongs to node `i`, node 0 is the root.
#[derive(Clone)]
pub struct DecisionTree {
    pub split_features: Vec<u32>,
    pub split_bins: Vec<u16>,
    pub left_children: Vec<u32>,
    pub right_children: Vec<u32>,
    pub missing_goes_left: Vec<bool>,
    pub is_cat_split: Vec<bool>,
    pub cat_left_masks: Vec<Vec<u64>>,
    /// Whether a split is on a pair of categories.
    pub is_cat_pair: Vec<bool>,
    /// For a split on a pair of categories or on a combination of two features,
    /// where each row goes; nothing where a value is missing.
    pub pair_routes: Vec<Vec<Option<bool>>>,
    /// Whether a split is on a combination of two features.
    pub is_oblique_split: Vec<bool>,
    /// The two features of such a split, two slots for each node.
    pub oblique_features: Vec<u32>,
    pub values: Vec<Num>,
    pub cat_lookups: Vec<Option<CatLookup>>,
    pub ramp_k: usize,
    pub ramp_features: Vec<u32>,
    pub ramp_slopes: Vec<Num>,
    pub leaf_pair_features: Vec<u32>,
    pub leaf_pair_slopes: Vec<Num>,
    pub quad_n_interactions: usize,
    pub quad_slopes: Vec<Num>,
}

impl DecisionTree {
    /// The number of nodes.
    pub open spec fn size(&self) -> int {
        self.split_features@.len() as int
    }

    pub open spec fn is_leaf(&self, node: int) -> bool {
        self.split_features@[node] == NO_FEATURE
    }

    /// Whether a split is on a combination of two features.
    pub open spec fn oblique(&self, node: int) -> bool {
        node < self.is_oblique_split@.len() && self.is_oblique_split@[node]
    }

    /// Whether a split looks at two features, so that its routes are recorded.
    pub open spec fn on_two_features(&self, node: int) -> bool {
        self.is_cat_pair@[node] || self.oblique(node)
    }

    fn splits_on_two(&self, node: usize) -> (r: bool)
        requires
            node < self.is_cat_pair@.len(),
        ensures
            r == self.on_two_features(node as int),
    {
        self.is_cat_pair[node] || (node < self.is_oblique_split.len() && self.is_oblique_split[node])
    }

    /// One table entry per node, and the children of a split come after it.
    pub open spec fn well_formed(&self) -> bool {
        &&& self.size() > 0
        &&& self.split_bins@.len() == self.size()
        &&& self.left_children@.len() == self.size()
        &&& self.right_children@.len() == self.size()
        &&& self.missing_goes_left@.len() == self.size()
        &&& self.is_cat_split@.len() == self.size()
        &&& self.cat_left_masks@.len() == self.size()
        &&& self.is_cat_pair@.len() == self.size()
        &&& self.pair_routes@.len() == self.size()
        &&& self.values@.len() == self.size()
        &&& self.cat_lookups@.len() == self.size()
        &&& forall|node: int|
            0 <= node < self.size() && !#[trigger] self.is_leaf(node) ==> {
                &&& node < self.left_children@[node] < self.size()
                &&& node < self.right_children@[node] < self.size()
            }
    }

    /// Whether the children of each split lie behind it, and in the tree.
    fn children_lie_behind(&self) -> (r: bool)
        requires
            self.left_children@.len() == self.size(),
            self.right_children@.len() == self.size(),
        ensures
            r == forall|node: int|
                0 <= node < self.size() && !#[trigger] self.is_leaf(node) ==> {
                    &&& node < self.left_children@[node] < self.size()
                    &&& node < self.right_children@[node] < self.size()
                },
    {
        let n: usize = self.split_features.len();
        let mut node: usize = 0;
        while node < n
            invariant
                node <= n,
                n == self.size(),
                self.left_children@.len() == n,
                self.right_children@.len() == n,
                forall|k: int|
                    0 <= k < node && !#[trigger] self.is_leaf(k) ==> {
                        &&& k < self.left_children@[k] < n
                        &&& k < self.right_children@[k] < n
                    },
            decreases n - node,
        {
            let left: usize = self.left_children[node] as usize;
            let right: usize = self.right_children[node] as usize;
            if self.split_features[node] != NO_FEATURE && (left <= node || left >= n || right <= node || right >= n) {
                assert(!self.is_leaf(node as int));
                return false;
            }
            node = node + 1;
        }
        true
    }

    pub fn is_well_formed(&self) -> (r: bool)
        ensures
            r == self.well_formed(),
    {
        let n: usize = self.split_features.len();
        n > 0 && self.split_bins.len() == n && self.left_children.len() == n && self.right_children.len() == n
            && self.missing_goes_left.len() == n && self.is_cat_split.len() == n && self.cat_left_masks.len() == n
            && self.is_cat_pair.len() == n && self.pair_routes.len() == n && self.values.len() == n
            && self.cat_lookups.len() == n && self.children_lie_behind()
    }

    /// Whether the tree can route the rows of `data`.
    pub fn is_fitting(&self, data: &BinnedData) -> (r: bool)
        ensures
            r == self.fits(*data),
    {
        if !self.is_well_formed() || !data.is_filled() {
            return false;
        }
        let n: usize = self.split_features.len();
        let mut node: usize = 0;
        while node < n
            invariant
                node <= n,
                n == self.size(),
                self.well_formed(),
                data.filled(),
                forall|k: int|
                    0 <= k < node && !#[trigger] self.is_leaf(k) ==> {
                        &&& self.split_features@[k] < data.n_features
                        &&& self.on_two_features(k) ==> self.pair_routes@[k]@.len() == data.n_rows
                    },
            decreases n - node,
        {
            if self.split_features[node] != NO_FEATURE && (self.split_features[node] as usize >= data.n_features
                || (self.splits_on_two(node) && self.pair_routes[node].len() != data.n_rows)) {
                assert(!self.is_leaf(node as int));
                return false;
            }
            node = node + 1;
        }
        true
    }

    /// The splits are on features of `data`, and recorded routes cover its rows.
    pub open spec fn fits(&self, data: BinnedData) -> bool {
        &&& self.well_formed()
        &&& data.filled()
        &&& forall|node: int|
            0 <= node < self.size() && !#[trigger] self.is_leaf(node) ==> {
                &&& self.split_features@[node] < data.n_features
                &&& self.on_two_features(node) ==> self.pair_routes@[node]@.len() == data.n_rows
            }
    }

    /// Whether a row goes to the left child of a split: by its recorded route
    /// where the split looks at two features, by its bin otherwise.
    pub open spec fn goes_left(&self, data: BinnedData, node: int, row: int) -> bool {
        let bin = data.bin(row, self.split_features@[node] as int);
        if self.on_two_features(node) {
            match self.pair_routes@[node]@[row] {
                Some(left) => left,
                None => self.missing_goes_left@[node],
            }
        } else if bin == data.missing_bin {
            self.missing_goes_left@[node]
        } else if self.is_cat_split@[node] {
            has_bit(self.cat_left_masks@[node]@, bin as int)
        } else {
            bin <= self.split_bins@[node]
        }
    }

    /// The child that a row goes to from a split.
    pub open spec fn child(&self, data: BinnedData, node: int, row: int) -> int {
        if self.goes_left(data, node, row) {
            self.left_children@[node] as int
        } else {
            self.right_children@[node] as int
        }
    }

    /// The nodes that a row passes from `node` down to its leaf.
    pub open spec fn path(&self, data: BinnedData, node: int, row: int) -> Seq<int>
        decreases self.size() - node,
    {
        let next = self.child(data, node, row);
        if 0 <= node && !self.is_leaf(node) && node < next < self.size() {
            seq![node] + self.path(data, next, row)
        } else {
            seq![node]
        }
    }

    /// The leaf that a row ends in.
    pub open spec fn leaf_of(&self, data: BinnedData, row: int) -> int {
        self.path(data, 0, row).last()
    }

    /// The child that a row goes to from a split.
    pub fn next_node(&self, data: &BinnedData, node: usize, row: usize) -> (r: usize)
        requires
            self.fits(*data),
            node < self.size(),
            row < data.n_rows,
            !self.is_leaf(node as int),
        ensures
            r == self.child(*data, node as int, row as int),
            node < r < self.size(),
    {
        let feat: usize = self.split_features[node] as usize;
        let bin: u16 = data.get_bin(row, feat);
        let left: bool = if self.splits_on_two(node) {
            match self.pair_routes[node][row] {
                Some(l) => l,
                None => self.missing_goes_left[node],
            }
        } else if bin == data.missing_bin {
            self.missing_goes_left[node]
        } else if self.is_cat_split[node] {
            bitvec_test(&self.cat_left_masks[node], bin as usize)
        } else {
            bin <= self.split_bins[node]
        };
        if left {
            self.left_children[node] as usize
        } else {
            self.right_children[node] as usize
        }
    }

    /// The nodes that a row passes from the root to its leaf.
    pub fn route_path(&self, data: &BinnedData, row: usize) -> (path: Vec<usize>)
        requires
            self.fits(*data),
            row < data.n_rows,
        ensures
            path@.len() > 0,
            path@ == self.path(*data, 0, row as int).map(|i: int, node: int| node as usize),
            forall|i: int| 0 <= i < path@.len() ==> #[trigger] path@[i] < self.size(),
            forall|i: int, j: int|
                #![trigger path@[i], path@[j]]
                0 <= i < j < path@.len() ==> path@[i] < path@[j],
            self.is_leaf(path@.last() as int),
    {
        let mut path: Vec<usize> = Vec::new();
        let mut node: usize = 0;
        path.push(0);
        let whole = Ghost(self.path(*data, 0, row as int));
        assert(path@.drop_last() =~= Seq::empty());
        assert(whole@ =~= Seq::<int>::empty() + self.path(*data, 0, row as int));
        let head: Ghost<Seq<int>> = Ghost(Seq::empty());
        let mut seen: Ghost<Seq<int>> = head;
        while self.split_features[node] != NO_FEATURE
            invariant
                self.fits(*data),
                row < data.n_rows,
                node < self.size(),
                path@.len() > 0,
                path@.last() == node,
                whole@ == seen@ + self.path(*data, node as int, row as int),
                path@ == seen@.push(node as int).map(|i: int, n: int| n as usize),
                forall|i: int| 0 <= i < path@.len() ==> #[trigger] path@[i] < self.size(),
                forall|i: int, j: int|
                    #![trigger path@[i], path@[j]]
                    0 <= i < j < path@.len() ==> path@[i] < path@[j],
                whole@ == self.path(*data, 0, row as int),
            decreases self.size() - node,
        {
            let next: usize = self.next_node(data, node, row);
            proof {
                let rest = self.path(*data, next as int, row as int);
                assert(self.path(*data, node as int, row as int) == seq![node as int] + rest);
                assert(whole@ =~= seen@.push(node as int) + rest);
            }
            let old_path = Ghost(path@);
            let old_seen = Ghost(seen@);
            path.push(next);
            seen = Ghost(seen@.push(node as int));
            proof {
                assert(path@ =~= seen@.push(next as int).map(|i: int, n: int| n as usize)) by {
                    assert forall|i: int| 0 <= i < path@.len() implies path@[i] == seen@.push(next as int)[i] as usize by {
                        if i < old_path@.len() {
                            assert(old_path@[i] == old_seen@.push(node as int)[i] as usize);
                        }
                    }
                }
                assert forall|i: int, j: int|
                    #![trigger path@[i], path@[j]]
                    0 <= i < j < path@.len() implies path@[i] < path@[j] by {
                    if j == old_path@.len() {
                        assert(old_path@[old_path@.len() - 1] == node);
                        if i < old_path@.len() - 1 {
                            assert(old_path@[i] < old_path@[old_path@.len() - 1]);
                        }
                    }
                }
            }
            node = next;
        }
        proof {
            assert(self.path(*data, node as int, row as int) =~= seq![node as int]);
            assert(whole@ =~= seen@.push(node as int));
        }
        path
    }

    /// The leaf that a row ends in.
    pub fn route_to_leaf(&self, data: &BinnedData, row: usize) -> (leaf: usize)
        requires
            self.fits(*data),
            row < data.n_rows,
        ensures
            leaf == self.leaf_of(*data, row as int),
            leaf < self.size(),
            self.is_leaf(leaf as int),
    {
        let path: Vec<usize> = self.route_path(data, row);
        let p = Ghost(self.path(*data, 0, row as int));
        assert(path@.len() == p@.len());
        assert(path@.last() == p@.last() as usize);
        proof {
            self.lemma_path_in_range(*data, 0, row as int);
            assert(self.split_features.len() == self.split_features@.len());
            assert(0 <= self.path(*data, 0, row as int)[p@.len() - 1] < self.size());
        }
        path[path.len() - 1]
    }

    /// The leaf below `node` that turns lead to: `left` tells of each node whether
    /// a row goes left from it.
    pub open spec fn turned_leaf(&self, left: Seq<bool>, node: int) -> int
        decreases self.size() - node,
    {
        let next = if left[node] {
            self.left_children@[node] as int
        } else {
            self.right_children@[node] as int
        };
        if 0 <= node && !self.is_leaf(node) && node < next < self.size() {
            self.turned_leaf(left, next)
        } else {
            node
        }
    }

    /// The leaf that turns lead a row to.
    pub fn leaf_by_turns(&self, left: &Vec<bool>) -> (leaf: u32)
        requires
            self.well_formed(),
            left@.len() == self.size(),
        ensures
            leaf == self.turned_leaf(left@, 0),
            leaf < self.size(),
            self.is_leaf(leaf as int),
    {
        let mut node: u32 = 0;
        while self.split_features[node as usize] != NO_FEATURE
            invariant
                self.well_formed(),
                left@.len() == self.size(),
                node < self.size(),
                self.turned_leaf(left@, 0) == self.turned_leaf(left@, node as int),
            decreases self.size() - node,
        {
            assert(!self.is_leaf(node as int));
            node = if left[node as usize] { self.left_children[node as usize] } else { self.right_children[node as usize] };
        }
        node
    }

    /// The leaves that turns lead rows to, row by row.
    pub fn leaves_by_turns(&self, turns: &Vec<Vec<bool>>) -> (leaves: Vec<u32>)
        requires
            self.well_formed(),
            forall|row: int| 0 <= row < turns@.len() ==> (#[trigger] turns@[row])@.len() == self.size(),
        ensures
            leaves@.len() == turns@.len(),
            forall|row: int|
                0 <= row < turns@.len() ==> #[trigger] leaves@[row] == self.turned_leaf(turns@[row]@, 0),
            forall|row: int|
                0 <= row < turns@.len() ==> (#[trigger] leaves@[row]) < self.size() && self.is_leaf(leaves@[row] as int),
    {
        let mut leaves: Vec<u32> = Vec::new();
        let mut row: usize = 0;
        while row < turns.len()
            invariant
                row <= turns@.len(),
                self.well_formed(),
                forall|r: int| 0 <= r < turns@.len() ==> (#[trigger] turns@[r])@.len() == self.size(),
                leaves@.len() == row,
                forall|r: int| 0 <= r < row ==> #[trigger] leaves@[r] == self.turned_leaf(turns@[r]@, 0),
                forall|r: int|
                    0 <= r < row ==> (#[trigger] leaves@[r]) < self.size() && self.is_leaf(leaves@[r] as int),
            decreases turns@.len() - row,
        {
            assert(turns@[row as int]@.len() == self.size());
            leaves.push(self.leaf_by_turns(&turns[row]));
            row = row + 1;
        }
        leaves
    }

    /// Turns end in a leaf.
    pub proof fn lemma_turns_end(&self, left: Seq<bool>, node: int)
        requires
            self.well_formed(),
            0 <= node < self.size(),
        ensures
            0 <= self.turned_leaf(left, node) < self.size(),
            self.is_leaf(self.turned_leaf(left, node)),
        decreases self.size() - node,
    {
        if !self.is_leaf(node) {
            let next = if left[node] {
                self.left_children@[node] as int
            } else {
                self.right_children@[node] as int
            };
            self.lemma_turns_end(left, next);
        }
    }

    /// A path goes from a split to one of its children, and ends in a leaf.
    pub proof fn lemma_path_steps(&self, data: BinnedData, node: int, row: int)
        requires
            self.well_formed(),
            0 <= node < self.size(),
        ensures
            self.path(data, node, row).len() > 0,
            self.path(data, node, row)[0] == node,
            self.is_leaf(self.path(data, node, row).last()),
            forall|i: int|
                #![trigger self.path(data, node, row)[i]]
                0 <= i < self.path(data, node, row).len() - 1 ==> {
                    let at = self.path(data, node, row)[i];
                    &&& 0 <= at < self.size()
                    &&& !self.is_leaf(at)
                    &&& self.path(data, node, row)[i + 1] == self.child(data, at, row)
                },
        decreases self.size() - node,
    {
        let whole = self.path(data, node, row);
        if !self.is_leaf(node) {
            let next = self.child(data, node, row);
            self.lemma_path_steps(data, next, row);
            let rest = self.path(data, next, row);
            assert(whole == seq![node] + rest);
            assert(whole.last() == rest.last());
            assert forall|i: int| #![trigger whole[i]] 0 <= i < whole.len() - 1 implies {
                let at = whole[i];
                &&& 0 <= at < self.size()
                &&& !self.is_leaf(at)
                &&& whole[i + 1] == self.child(data, at, row)
            } by {
                assert(whole[i + 1] == rest[i]);
                if i > 0 {
                    assert(whole[i] == rest[i - 1]);
                }
            }
        }
    }

    /// A path stays among the nodes.
    pub proof fn lemma_path_in_range(&self, data: BinnedData, node: int, row: int)
        requires
            self.well_formed(),
            0 <= node < self.size(),
        ensures
            forall|i: int|
                0 <= i < self.path(data, node, row).len() ==> 0 <= #[trigger] self.path(data, node, row)[i] < self.size(),
            self.path(data, node, row).len() > 0,
            self.is_leaf(self.path(data, node, row).last()),
        decreases self.size() - node,
    {
        if !self.is_leaf(node) {
            let next = self.child(data, node, row);
            self.lemma_path_in_range(data, next, row);
            let rest = self.path(data, next, row);
            let whole = self.path(data, node, row);
            assert(whole == seq![node] + rest);
            assert(whole.last() == rest.last());
            assert forall|i: int| 0 <= i < whole.len() implies 0 <= #[trigger] whole[i] < self.size() by {
                if i > 0 {
                    assert(whole[i] == rest[i - 1]);
                }
            }
        }
    }
}

/// The two trees split alike; routes are recorded for the rows of each.
pub open spec fn splits_alike(a: DecisionTree, b: DecisionTree) -> bool {
    &&& a.split_features@ == b.split_features@
    &&& a.split_bins@ == b.split_bins@
    &&& a.left_children@ == b.left_children@
    &&& a.right_children@ == b.right_children@
    &&& a.missing_goes_left@ == b.missing_goes_left@
    &&& a.is_cat_split@ == b.is_cat_split@
    &&& a.cat_left_masks@ == b.cat_left_masks@
    &&& a.is_cat_pair@ == b.is_cat_pair@
    &&& a.is_oblique_split@ == b.is_oblique_split@
}

proof fn lemma_same_path(
    tree: DecisionTree,
    data: BinnedData,
    row: int,
    other: DecisionTree,
    rows: BinnedData,
    at: int,
    node: int,
)
    requires
        tree.fits(data),
        other.fits(rows),
        splits_alike(tree, other),
        0 <= node < tree.size(),
        data.missing_bin == rows.missing_bin,
        forall|f: int| 0 <= f < data.n_features ==> #[trigger] data.bin(row, f) == rows.bin(at, f),
        forall|n: int|
            0 <= n < tree.size() && #[trigger] tree.on_two_features(n) ==> tree.pair_routes@[n]@[row]
                == other.pair_routes@[n]@[at],
    ensures
        tree.path(data, node, row) == other.path(rows, node, at),
    decreases tree.size() - node,
{
    if !tree.is_leaf(node) {
        assert(data.bin(row, tree.split_features@[node] as int) == rows.bin(at, tree.split_features@[node] as int));
        assert(tree.on_two_features(node) == other.on_two_features(node));
        assert(tree.child(data, node, row) == other.child(rows, node, at));
        let next = tree.child(data, node, row);
        lemma_same_path(tree, data, row, other, rows, at, next);
    }
}

/// Rows are routed independently of each other: a row with the same bins, and
/// the same recorded routes, ends in the same leaf of a tree whatever other
/// rows there are.
pub proof fn law_rows_are_routed_alone(
    tree: DecisionTree,
    data: BinnedData,
    row: int,
    other: DecisionTree,
    rows: BinnedData,
    at: int,
)
    requires
        tree.fits(data),
        other.fits(rows),
        splits_alike(tree, other),
        data.missing_bin == rows.missing_bin,
        forall|f: int| 0 <= f < data.n_features ==> #[trigger] data.bin(row, f) == rows.bin(at, f),
        forall|n: int|
            0 <= n < tree.size() && #[trigger] tree.on_two_features(n) ==> tree.pair_routes@[n]@[row]
                == other.pair_routes@[n]@[at],
    ensures
        tree.leaf_of(data, row) == other.leaf_of(rows, at),
{
    lemma_same_path(tree, data, row, other, rows, at, 0);
}

proof fn lemma_turned_path(tree: DecisionTree, data: BinnedData, row: int, left: Seq<bool>, node: int)
    requires
        tree.well_formed(),
        0 <= node < tree.size(),
        forall|n: int| 0 <= n < tree.size() && !#[trigger] tree.is_leaf(n) ==> left[n] == tree.goes_left(data, n, row),
    ensures
        tree.path(data, node, row).last() == tree.turned_leaf(left, node),
    decreases tree.size() - node,
{
    if !tree.is_leaf(node) {
        let next = tree.child(data, node, row);
        lemma_turned_path(tree, data, row, left, next);
        tree.lemma_path_in_range(data, next, row);
        assert(tree.path(data, node, row) == seq![node] + tree.path(data, next, row));
    }
}

/// A binned row ends in the leaf that the turns of its bins lead to.
pub proof fn law_bins_turn_rows(tree: DecisionTree, data: BinnedData, row: int, left: Seq<bool>)
    requires
        tree.well_formed(),
        forall|n: int| 0 <= n < tree.size() && !#[trigger] tree.is_leaf(n) ==> left[n] == tree.goes_left(data, n, row),
    ensures
        tree.leaf_of(data, row) == tree.turned_leaf(left, 0),
{
    lemma_turned_path(tree, data, row, left, 0);
}

/// A missing value goes the way that a split has learned for it: at every split on
/// one feature, by threshold or by categories, a row without a value goes to the
/// left child exactly where missing values go left, whatever the threshold and
/// the categories are. Where a split looks at two features, that holds of rows
/// without a recorded route.
pub proof fn law_missing_values_go_as_learned(tree: DecisionTree, data: BinnedData, node: int, row: int)
    requires
        tree.fits(data),
        0 <= node < tree.size(),
        0 <= row < data.n_rows,
        tree.split_features@[node] != u32::MAX,
    ensures
        ({
            let two = tree.is_cat_pair@[node] || (node < tree.is_oblique_split@.len() && tree.is_oblique_split@[node]);
            let bin = data.bin_indices@[tree.split_features@[node] * data.n_rows + row];
            let missing = if two {
                tree.pair_routes@[node]@[row] is None
            } else {
                bin == data.missing_bin
            };
            &&& missing && tree.missing_goes_left@[node] ==> tree.child(data, node, row)
                == tree.left_children@[node]
            &&& missing && !tree.missing_goes_left@[node] ==> tree.child(data, node, row)
                == tree.right_children@[node]
            &&& two ==> (tree.pair_routes@[node]@[row] matches Some(left) ==> tree.child(data, node, row) == if left {
                tree.left_children@[node]
            } else {
                tree.right_children@[node]
            })
        }),
{
}

/// A threshold parts the rows that have a value: those at or below it go left,
/// and all others right.
pub proof fn law_thresholds_part_rows(tree: DecisionTree, data: BinnedData, node: int, row: int)
    requires
        tree.fits(data),
        0 <= node < tree.size(),
        0 <= row < data.n_rows,
        tree.split_features@[node] != u32::MAX,
        !tree.is_cat_pair@[node],
        !(node < tree.is_oblique_split@.len() && tree.is_oblique_split@[node]),
        !tree.is_cat_split@[node],
        data.bin_indices@[tree.split_features@[node] * data.n_rows + row] != data.missing_bin,
    ensures
        data.bin_indices@[tree.split_features@[node] * data.n_rows + row] <= tree.split_bins@[node] ==> tree.child(
            data,
            node,
            row,
        ) == tree.left_children@[node],
        data.bin_indices@[tree.split_features@[node] * data.n_rows + row] > tree.split_bins@[node] ==> tree.child(
            data,
            node,
            row,
        ) == tree.right_children@[node],
{
}

/// Categories part the rows that have a value: those whose category is in the set
/// of the split go left, and all others, unknown categories too, go right.
pub proof fn law_categories_part_rows(tree: DecisionTree, data: BinnedData, node: int, row: int)
    requires
        tree.fits(data),
        0 <= node < tree.size(),
        0 <= row < data.n_rows,
        tree.split_features@[node] != u32::MAX,
        !tree.is_cat_pair@[node],
        !(node < tree.is_oblique_split@.len() && tree.is_oblique_split@[node]),
        tree.is_cat_split@[node],
        data.bin_indices@[tree.split_features@[node] * data.n_rows + row] != data.missing_bin,
    ensures
        ({
            let bin = data.bin_indices@[tree.split_features@[node] * data.n_rows + row] as int;
            let words = tree.cat_left_masks@[node]@;
            let held = bin / 64 < words.len() && words[bin / 64] & (1u64 << ((bin % 64) as u64)) != 0;
            &&& held ==> tree.child(data, node, row) == tree.left_children@[node]
            &&& !held ==> tree.child(data, node, row) == tree.right_children@[node]
        }),
{
    let bin = data.bin_indices@[tree.split_features@[node] * data.n_rows + row] as int;
    crate::bitset::law_bits_are_those_of_words(tree.cat_left_masks@[node]@, bin);
}

/// A row that goes down from a split reaches a leaf by way of one of its
/// children: the leaf of a row is that of the walk from the child it goes to.
pub proof fn law_walks_go_child_by_child(tree: DecisionTree, data: BinnedData, node: int, row: int)
    requires
        tree.well_formed(),
        0 <= node < tree.size(),
    ensures
        tree.split_features@[node] == u32::MAX ==> tree.path(data, node, row).last() == node,
        tree.split_features@[node] != u32::MAX ==> tree.path(data, node, row).last() == tree.path(
            data,
            tree.child(data, node, row),
            row,
        ).last(),
        tree.leaf_of(data, row) == tree.path(data, 0, row).last(),
        tree.split_features@[tree.leaf_of(data, row)] == u32::MAX,
{
    tree.lemma_path_in_range(data, 0, row);
    if tree.split_features@[node] != u32::MAX {
        assert(!tree.is_leaf(node));
        let next = tree.child(data, node, row);
        tree.lemma_path_in_range(data, next, row);
        assert(tree.path(data, node, row) == seq![node] + tree.path(data, next, row));
    }
}

proof fn lemma_turns_walk(tree: DecisionTree, data: BinnedData, turns: Seq<bool>, row: int, node: int)
    requires
        forall|k: int|
            0 <= k < tree.size() && !tree.is_leaf(k) ==> #[trigger] turns[k] == tree.goes_left(data, k, row),
        0 <= node < tree.size(),
    ensures
        tree.turned_leaf(turns, node) == tree.path(data, node, row).last(),
    decreases tree.size() - node,
{
    let next = tree.child(data, node, row);
    if !tree.is_leaf(node) && node < next < tree.size() {
        assert(turns[node] == tree.goes_left(data, node, row));
        lemma_turns_walk(tree, data, turns, row, next);
        assert(tree.path(data, node, row) == seq![node] + tree.path(data, next, row));
    } else if !tree.is_leaf(node) {
        assert(turns[node] == tree.goes_left(data, node, row));
    }
}

/// Turns lead from a split to the child on their side, and a leaf is where they end; turns
/// that are taken as a row's bins ask for lead to the leaf that the row ends in.
pub proof fn law_turns_lead_to_the_leaf(tree: DecisionTree, data: BinnedData, turns: Seq<bool>, row: int, node: int)
    requires
        tree.well_formed(),
        0 <= node < tree.size(),
    ensures
        tree.split_features@[node] == u32::MAX ==> tree.turned_leaf(turns, node) == node,
        tree.split_features@[node] != u32::MAX && turns[node] ==> tree.turned_leaf(turns, node) == tree.turned_leaf(
            turns,
            tree.left_children@[node] as int,
        ),
        tree.split_features@[node] != u32::MAX && !turns[node] ==> tree.turned_leaf(turns, node) == tree.turned_leaf(
            turns,
            tree.right_children@[node] as int,
        ),
        (forall|k: int|
            0 <= k < tree.size() && !tree.is_leaf(k) ==> #[trigger] turns[k] == tree.goes_left(data, k, row))
            ==> tree.turned_leaf(turns, 0) == tree.leaf_of(data, row),
{
    assert(tree.is_leaf(node) <==> tree.split_features@[node] == u32::MAX);
    if forall|k: int| 0 <= k < tree.size() && !tree.is_leaf(k) ==> #[trigger] turns[k] == tree.goes_left(data, k, row) {
        lemma_turns_walk(tree, data, turns, row, 0);
    }
}

} // verus!
