//! Changes to fitted trees.

use crate::num::Num;
use crate::tree::{CatLookup, DecisionTree, NO_FEATURE};
use vstd::arithmetic::div_mod::{lemma_fundamental_div_mod, lemma_fundamental_div_mod_converse};
use vstd::prelude::*;

verus! {

/// `v` with the entries from `start` up to `start + width`, as far as there are any, set to `x`.
pub open spec fn run_set<T>(v: Seq<T>, start: int, width: int, x: T) -> Seq<T> {
    Seq::new(v.len(), |i: int| if start <= i < start + width { x } else { v[i] })
}

fn set_features(v: &mut Vec<u32>, start: usize, width: usize, x: u32)
    requires
        start + width <= usize::MAX,
    ensures
        final(v)@ == run_set(old(v)@, start as int, width as int, x),
{
    let mut j: usize = 0;
    let before = Ghost(v@);
    assert(v@ =~= run_set(before@, start as int, 0, x));
    while j < width
        invariant
            j <= width,
            start + width <= usize::MAX,
            v@ == run_set(before@, start as int, j as int, x),
        decreases width - j,
    {
        if start + j < v.len() {
            v.set(start + j, x);
        }
        assert(v@ =~= run_set(before@, start as int, j + 1, x));
        j = j + 1;
    }
}

fn set_numbers(v: &mut Vec<Num>, start: usize, width: usize, x: Num)
    requires
        start + width <= usize::MAX,
    ensures
        final(v)@ == run_set(old(v)@, start as int, width as int, x),
{
    let mut j: usize = 0;
    let before = Ghost(v@);
    assert(v@ =~= run_set(before@, start as int, 0, x));
    while j < width
        invariant
            j <= width,
            start + width <= usize::MAX,
            v@ == run_set(before@, start as int, j as int, x),
        decreases width - j,
    {
        if start + j < v.len() {
            v.set(start + j, x);
        }
        assert(v@ =~= run_set(before@, start as int, j + 1, x));
        j = j + 1;
    }
}

/// Whether a lookup is given for `node`.
pub open spec fn given(lookups: Seq<Option<CatLookup>>, node: int) -> bool {
    0 <= node < lookups.len() && lookups[node] is Some
}

/// The entry of a table of `width` slots per node once the slots of the nodes
/// from `from` on that get a lookup are cleared.
pub open spec fn slots_cleared<T>(v: Seq<T>, width: int, lookups: Seq<Option<CatLookup>>, from: int, n: int, x: T) -> Seq<T> {
    Seq::new(
        v.len(),
        |i: int|
            if width > 0 && from <= i / width < n && given(lookups, i / width) {
                x
            } else {
                v[i]
            },
    )
}

proof fn lemma_clear_step<T>(v: Seq<T>, width: int, lookups: Seq<Option<CatLookup>>, from: int, n: int, x: T)
    requires
        0 < from <= n,
        0 <= width,
    ensures
        given(lookups, from - 1) ==> run_set(
            slots_cleared(v, width, lookups, from, n, x),
            (from - 1) * width,
            width,
            x,
        ) == slots_cleared(v, width, lookups, from - 1, n, x),
        !given(lookups, from - 1) ==> slots_cleared(v, width, lookups, from, n, x) == slots_cleared(
            v,
            width,
            lookups,
            from - 1,
            n,
            x,
        ),
{
    let node = from - 1;
    let a = slots_cleared(v, width, lookups, from, n, x);
    let b = slots_cleared(v, width, lookups, node, n, x);
    let c = run_set(a, node * width, width, x);
    assert forall|i: int| #![trigger v[i]] 0 <= i < v.len() && width > 0 implies (node * width <= i < node * width + width <==> i / width
        == node) by {
        lemma_fundamental_div_mod(i, width);
        if node * width <= i < node * width + width {
            assert(width * node == node * width) by (nonlinear_arith);
            lemma_fundamental_div_mod_converse(i, width, node, i - node * width);
        }
        if i / width == node {
            assert(width * node == node * width) by (nonlinear_arith);
        }
    }
    if given(lookups, node) {
        assert(c =~= b);
    } else {
        assert(a =~= b);
    }
}

/// What installing lookups does to a tree: a node that gets one loses its
/// ramps, its pair slope and its interaction slopes; all else stays.
pub open spec fn lookups_installed(before: DecisionTree, after: DecisionTree, lookups: Seq<Option<CatLookup>>) -> bool {
    let n = before.size();
    let zero = Num { bits: 0 };
    &&& after.split_features == before.split_features
    &&& after.split_bins == before.split_bins
    &&& after.left_children == before.left_children
    &&& after.right_children == before.right_children
    &&& after.missing_goes_left == before.missing_goes_left
    &&& after.is_cat_split == before.is_cat_split
    &&& after.cat_left_masks == before.cat_left_masks
    &&& after.is_cat_pair == before.is_cat_pair
    &&& after.pair_routes == before.pair_routes
    &&& after.is_oblique_split == before.is_oblique_split
    &&& after.oblique_features == before.oblique_features
    &&& after.values == before.values
    &&& after.ramp_k == before.ramp_k
    &&& after.quad_n_interactions == before.quad_n_interactions
    &&& after.cat_lookups@ == Seq::new(
        before.cat_lookups@.len(),
        |node: int|
            if given(lookups, node) {
                lookups[node]
            } else {
                before.cat_lookups@[node]
            },
    )
    &&& after.ramp_features@ == slots_cleared(
        before.ramp_features@,
        before.ramp_k as int,
        lookups,
        0,
        n,
        NO_FEATURE,
    )
    &&& after.ramp_slopes@ == slots_cleared(before.ramp_slopes@, before.ramp_k as int, lookups, 0, n, zero)
    &&& after.leaf_pair_features@ == slots_cleared(before.leaf_pair_features@, 2, lookups, 0, n, NO_FEATURE)
    &&& after.leaf_pair_slopes@ == slots_cleared(before.leaf_pair_slopes@, 1, lookups, 0, n, zero)
    &&& after.quad_slopes@ == slots_cleared(
        before.quad_slopes@,
        before.quad_n_interactions as int,
        lookups,
        0,
        n,
        zero,
    )
}

/// Gives nodes their lookups in place of what their leaves held before.
pub fn install_joint_lookups(tree: &mut DecisionTree, lookups: Vec<Option<CatLookup>>)
    requires
        old(tree).well_formed(),
        old(tree).size() * old(tree).ramp_k <= usize::MAX,
        old(tree).size() * old(tree).quad_n_interactions <= usize::MAX,
        old(tree).size() * 2 <= usize::MAX,
        old(tree).leaf_pair_features@.len() % 2 == 0,
    ensures
        lookups_installed(*old(tree), *final(tree), lookups@),
{
    let n: usize = tree.split_features.len();
    let mut rest: Vec<Option<CatLookup>> = lookups;
    let all = Ghost(rest@);
    rest.truncate(n);
    let start = Ghost(*tree);
    let zero: Num = Num { bits: 0 };
    let mut node: usize = rest.len();
    proof {
        assert(tree.ramp_features@ =~= slots_cleared(
            start@.ramp_features@,
            start@.ramp_k as int,
            all@,
            node as int,
            n as int,
            NO_FEATURE,
        )) by {
            lemma_nothing_given(all@, node as int, n as int);
        }
        lemma_nothing_given(all@, node as int, n as int);
        assert(tree.ramp_slopes@ =~= slots_cleared(start@.ramp_slopes@, start@.ramp_k as int, all@, node as int, n as int, zero));
        assert(tree.leaf_pair_features@ =~= slots_cleared(start@.leaf_pair_features@, 2, all@, node as int, n as int, NO_FEATURE));
        assert(tree.leaf_pair_slopes@ =~= slots_cleared(start@.leaf_pair_slopes@, 1, all@, node as int, n as int, zero));
        assert(tree.quad_slopes@ =~= slots_cleared(start@.quad_slopes@, start@.quad_n_interactions as int, all@, node as int, n as int, zero));
    }
    while node > 0
        invariant
            node == rest@.len(),
            node <= n,
            n == start@.size(),
            zero.bits == 0,
            rest@ == all@.take(node as int),
            node <= all@.len(),
            start@.well_formed(),
            start@.size() * start@.ramp_k <= usize::MAX,
            start@.size() * start@.quad_n_interactions <= usize::MAX,
            start@.size() * 2 <= usize::MAX,
            start@.leaf_pair_features@.len() % 2 == 0,
            tree.split_features == start@.split_features,
            tree.split_bins == start@.split_bins,
            tree.left_children == start@.left_children,
            tree.right_children == start@.right_children,
            tree.missing_goes_left == start@.missing_goes_left,
            tree.is_cat_split == start@.is_cat_split,
            tree.cat_left_masks == start@.cat_left_masks,
            tree.is_cat_pair == start@.is_cat_pair,
            tree.pair_routes == start@.pair_routes,
            tree.is_oblique_split == start@.is_oblique_split,
            tree.oblique_features == start@.oblique_features,
            tree.values == start@.values,
            tree.ramp_k == start@.ramp_k,
            tree.quad_n_interactions == start@.quad_n_interactions,
            tree.cat_lookups@.len() == n,
            forall|k: int|
                0 <= k < n ==> #[trigger] tree.cat_lookups@[k] == (if node <= k && given(all@, k) {
                    all@[k]
                } else {
                    start@.cat_lookups@[k]
                }),
            tree.ramp_features@ == slots_cleared(
                start@.ramp_features@,
                start@.ramp_k as int,
                all@,
                node as int,
                n as int,
                NO_FEATURE,
            ),
            tree.ramp_slopes@ == slots_cleared(
                start@.ramp_slopes@,
                start@.ramp_k as int,
                all@,
                node as int,
                n as int,
                zero,
            ),
            tree.leaf_pair_features@ == slots_cleared(
                start@.leaf_pair_features@,
                2,
                all@,
                node as int,
                n as int,
                NO_FEATURE,
            ),
            tree.leaf_pair_slopes@ == slots_cleared(
                start@.leaf_pair_slopes@,
                1,
                all@,
                node as int,
                n as int,
                zero,
            ),
            tree.quad_slopes@ == slots_cleared(
                start@.quad_slopes@,
                start@.quad_n_interactions as int,
                all@,
                node as int,
                n as int,
                zero,
            ),
        decreases node,
    {
        let at: usize = node - 1;
        let last = Ghost(rest@.last());
        let popped: Option<Option<CatLookup>> = rest.pop();
        assert(last@ == all@[at as int]);
        assert(rest@ =~= all@.take(at as int));
        proof {
            lemma_clear_step(start@.ramp_features@, start@.ramp_k as int, all@, node as int, n as int, NO_FEATURE);
            lemma_clear_step(start@.ramp_slopes@, start@.ramp_k as int, all@, node as int, n as int, zero);
            lemma_clear_step(start@.leaf_pair_features@, 2, all@, node as int, n as int, NO_FEATURE);
            lemma_clear_step(start@.leaf_pair_slopes@, 1, all@, node as int, n as int, zero);
            lemma_clear_step(
                start@.quad_slopes@,
                start@.quad_n_interactions as int,
                all@,
                node as int,
                n as int,
                zero,
            );
            assert(at * start@.ramp_k + start@.ramp_k <= n * start@.ramp_k) by (nonlinear_arith)
                requires
                    at + 1 <= n,
                    0 <= start@.ramp_k,
            ;
            assert(at * start@.quad_n_interactions + start@.quad_n_interactions <= n * start@.quad_n_interactions)
                by (nonlinear_arith)
                requires
                    at + 1 <= n,
                    0 <= start@.quad_n_interactions,
            ;
        }
        match popped {
            Some(Some(lookup)) => {
                assert(given(all@, at as int));
                tree.cat_lookups.set(at, Some(lookup));
                let k: usize = tree.ramp_k;
                set_features(&mut tree.ramp_features, at * k, k, NO_FEATURE);
                set_numbers(&mut tree.ramp_slopes, at * k, k, zero);
                set_features(&mut tree.leaf_pair_features, at * 2, 2, NO_FEATURE);
                set_numbers(&mut tree.leaf_pair_slopes, at, 1, zero);
                let q: usize = tree.quad_n_interactions;
                set_numbers(&mut tree.quad_slopes, at * q, q, zero);
                assert(at * 1 == at);
            },
            _ => {
                assert(!given(all@, at as int));
            },
        }
        node = at;
    }
    assert(tree.cat_lookups@ =~= Seq::new(
        start@.cat_lookups@.len(),
        |k: int|
            if given(all@, k) {
                all@[k]
            } else {
                start@.cat_lookups@[k]
            },
    )) by {
        assert forall|k: int| 0 <= k < n implies tree.cat_lookups@[k] == (if given(all@, k) {
            all@[k]
        } else {
            start@.cat_lookups@[k]
        }) by {}
    }
}

/// No lookup is given for a node beyond the list's end or the tree's.
proof fn lemma_nothing_given(lookups: Seq<Option<CatLookup>>, from: int, n: int)
    requires
        from == lookups.len() || from == n,
        from <= n,
    ensures
        forall|k: int| from <= k < n ==> !#[trigger] given(lookups, k),
{
}

/// A node that is given a lookup has it and nothing else: its ramps, pairs and products are
/// cleared. Every other node keeps all it had, and no node splits in another way.
pub proof fn law_lookups_take_the_place_of_slopes(
    before: DecisionTree,
    after: DecisionTree,
    lookups: Seq<Option<CatLookup>>,
    node: int,
    j: int,
)
    requires
        lookups_installed(before, after, lookups),
        0 <= node < before.size(),
        0 <= j,
    ensures
        ({
            let told = node < lookups.len() && lookups[node] is Some;
            let k = before.ramp_k as int;
            let q = before.quad_n_interactions as int;
            &&& node < before.cat_lookups@.len() ==> after.cat_lookups@[node] == (if told {
                lookups[node]
            } else {
                before.cat_lookups@[node]
            })
            &&& j < k && node * k + j < before.ramp_features@.len() ==> after.ramp_features@[node * k + j] == (if told {
                u32::MAX
            } else {
                before.ramp_features@[node * k + j]
            })
            &&& j < k && node * k + j < before.ramp_slopes@.len() ==> after.ramp_slopes@[node * k + j] == (if told {
                Num { bits: 0 }
            } else {
                before.ramp_slopes@[node * k + j]
            })
            &&& j < q && node * q + j < before.quad_slopes@.len() ==> after.quad_slopes@[node * q + j] == (if told {
                Num { bits: 0 }
            } else {
                before.quad_slopes@[node * q + j]
            })
            &&& j < 2 && node * 2 + j < before.leaf_pair_features@.len() ==> after.leaf_pair_features@[node * 2 + j] == (
            if told {
                u32::MAX
            } else {
                before.leaf_pair_features@[node * 2 + j]
            })
            &&& node < before.leaf_pair_slopes@.len() ==> after.leaf_pair_slopes@[node] == (if told {
                Num { bits: 0 }
            } else {
                before.leaf_pair_slopes@[node]
            })
            &&& after.values == before.values && after.split_features == before.split_features && after.split_bins
                == before.split_bins && after.left_children == before.left_children && after.right_children
                == before.right_children && after.missing_goes_left == before.missing_goes_left
        }),
{
    let k = before.ramp_k as int;
    let q = before.quad_n_interactions as int;
    if j < k {
        lemma_fundamental_div_mod_converse(node * k + j, k, node, j);
    }
    if j < q {
        lemma_fundamental_div_mod_converse(node * q + j, q, node, j);
    }
    if j < 2 {
        lemma_fundamental_div_mod_converse(node * 2 + j, 2, node, j);
    }
    lemma_fundamental_div_mod_converse(node, 1, node, 0);
}

} // verus!
