use gtboost::adjust::{
    apply_hss, clip_values, eblp_applies, eblp_shrinkage_factor, exceeds_trust_region, finalize_multiclass_tree,
    install_class_values, posterior_leaf_tau, scs_applies, trust_region_applies, SpreadFactor,
};
use gtboost::bitset::{bitvec_new, bitvec_set, bitvec_test};
use gtboost::expert::{
    count_wins, expert_admitted, expert_features, expert_terms, feature_spreads, install_experts, path_candidates,
    search_width,
    shadow_position, vceg_partition_indices, vceg_shadow_shift, ExpertSettings, LeafExpert,
};
use gtboost::leaves::{
    build_leaf_info, build_leaf_info_flat, leaf_nodes_of, leaf_sign_balance, leaf_values_of, node_counts,
    route_tree_leaves, rows_by_leaf, rows_by_node,
};
use gtboost::num::Num;
use gtboost::task::Task;
use gtboost::tree::{BinnedData, CatLookup, DecisionTree, NO_FEATURE};
use gtboost::tree_edit::install_joint_lookups;

fn num(x: f64) -> Num {
    Num { bits: x.to_bits() }
}

fn nums(v: &[f64]) -> Vec<Num> {
    v.iter().map(|&x| num(x)).collect()
}

/// Root splits feature 0 at bin 1, its right child splits feature 1 by category.
fn tree() -> DecisionTree {
    DecisionTree {
        split_features: vec![0, NO_FEATURE, 1, NO_FEATURE, NO_FEATURE],
        split_bins: vec![1, 0, 0, 0, 0],
        left_children: vec![1, 0, 3, 0, 0],
        right_children: vec![2, 0, 4, 0, 0],
        missing_goes_left: vec![false, false, true, false, false],
        is_cat_split: vec![false, false, true, false, false],
        cat_left_masks: vec![vec![], vec![], vec![0b101], vec![], vec![]],
        is_cat_pair: vec![false; 5],
        pair_routes: vec![vec![]; 5],
        is_oblique_split: vec![false; 5],
        oblique_features: vec![NO_FEATURE; 10],
        values: nums(&[0.0, 1.0, 2.0, 3.0, 4.0]),
        cat_lookups: vec![None, None, None, None, None],
        ramp_k: 0,
        ramp_features: vec![],
        ramp_slopes: vec![],
        leaf_pair_features: vec![],
        leaf_pair_slopes: vec![],
        quad_n_interactions: 0,
        quad_slopes: vec![],
    }
}

/// Four rows; feature 0 has bins 0, 2, 2, 9 (missing), feature 1 has bins 0, 1, 2, 9.
fn data() -> BinnedData {
    BinnedData {
        n_rows: 4,
        n_features: 2,
        missing_bin: 9,
        bin_indices: vec![0, 2, 2, 9, 0, 1, 2, 9],
        is_categorical: vec![false, true],
        cll_is_categorical: vec![false, true],
        cll_n_bins: vec![3, 3],
        cll_hash_bins: vec![0, 2, 2, 9, 0, 1, 2, 9],
    }
}

#[test]
fn bits_are_set_and_tested() {
    let mut bits = bitvec_new(70);
    assert_eq!(bits.len(), 2);
    bitvec_set(&mut bits, 69);
    assert!(bitvec_test(&bits, 69));
    assert!(!bitvec_test(&bits, 5));
    assert!(!bitvec_test(&bits, 500));
}

#[test]
fn rows_are_routed_to_leaves() {
    let (t, d) = (tree(), data());
    assert_eq!((0..4).map(|r| t.route_to_leaf(&d, r)).collect::<Vec<usize>>(), vec![1, 4, 3, 3]);
    assert_eq!(t.route_path(&d, 3), vec![0, 2, 3]);
    assert_eq!(t.next_node(&d, 0, 0), 1);
    assert_eq!(d.get_bin(1, 1), 1);
    assert_eq!(d.get_cat_bin(2, 0), 2);
}

#[test]
fn pairs_of_categories_route_rows() {
    let mut t = tree();
    t.is_cat_pair[2] = true;
    t.pair_routes[2] = vec![Some(true), Some(true), Some(false), None];
    let d = data();
    assert_eq!((0..4).map(|r| t.route_to_leaf(&d, r)).collect::<Vec<usize>>(), vec![1, 3, 4, 3]);
}

#[test]
fn combinations_of_features_route_rows() {
    let mut t = tree();
    t.is_oblique_split[2] = true;
    t.pair_routes[2] = vec![Some(true), Some(true), Some(false), None];
    let d = data();
    assert_eq!((0..4).map(|r| t.route_to_leaf(&d, r)).collect::<Vec<usize>>(), vec![1, 3, 4, 3]);
    t.pair_routes[2].pop();
    assert!(!t.is_fitting(&d));
}

#[test]
fn leaves_list_their_rows() {
    let (t, d) = (tree(), data());
    let assign = route_tree_leaves(&t, &d, 4);
    assert_eq!(assign, vec![1, 4, 3, 3]);
    assert_eq!(leaf_nodes_of(&t.split_features), vec![1, 3, 4]);
    let (leaves, samples) = build_leaf_info(&t.split_features, &assign, 4);
    assert_eq!(leaves, vec![1, 3, 4]);
    assert_eq!(samples, vec![vec![0], vec![2, 3], vec![1]]);
    let (flat_leaves, offsets, flat) = build_leaf_info_flat(&t.split_features, &assign, 4);
    assert_eq!(flat_leaves, leaves);
    assert_eq!(offsets, vec![0, 1, 3, 4]);
    assert_eq!(flat, vec![0, 2, 3, 1]);
    assert_eq!(rows_by_leaf(&t, &d, &vec![3, 0, 1])[3], vec![3]);
    let by_node = rows_by_node(&t, &d, &vec![3, 0, 1]);
    assert_eq!(by_node[0], vec![3, 0, 1]);
    assert_eq!(by_node[2], vec![3, 1]);
}

#[test]
fn signs_are_balanced_by_leaf() {
    let (balance, counts) = leaf_sign_balance(&tree(), &data(), &nums(&[-1.0, 2.0, 3.0, -4.0]), 4);
    assert_eq!(balance, vec![0, -1, 0, 0, 1]);
    assert_eq!(counts, vec![0, 1, 0, 2, 1]);
}

#[test]
fn bins_are_dropped_for_prediction() {
    let stripped = data().strip_training_storage_for_prediction();
    assert_eq!(stripped.bin_indices.len(), 0);
    assert_eq!(stripped.cll_hash_bins.len(), 0);
    assert_eq!(stripped.n_features, 2);
    assert_eq!(stripped.is_categorical, vec![false, true]);
}

#[test]
fn lookups_replace_what_leaves_had() {
    let lookup = CatLookup {
        feature: 1,
        feature2: NO_FEATURE,
        feature3: NO_FEATURE,
        bin_values: nums(&[0.5]),
        default_value: num(7.0),
        is_numeric: false,
        n_coarse_bins: 0,
        pair_stride: 0,
        triple_stride: 0,
    };
    let mut t = tree();
    t.ramp_k = 1;
    t.ramp_features = vec![0; 5];
    t.ramp_slopes = nums(&[1.0, 1.0, 1.0, 1.0, 1.0]);
    install_joint_lookups(&mut t, vec![None, Some(lookup), None, None, None]);
    assert!(t.cat_lookups[1].is_some());
    assert!(t.cat_lookups[3].is_none());
    assert_eq!(t.ramp_slopes[1], num(0.0));
    assert_eq!(t.ramp_slopes[3], num(1.0));
}

#[test]
fn strength_of_shrinkage_goes_by_task() {
    assert_eq!(posterior_leaf_tau(false, false, Task::Binary), num(0.0));
    assert_eq!(posterior_leaf_tau(true, true, Task::Binary), num(0.0));
    assert_eq!(posterior_leaf_tau(true, false, Task::Multiclass), num(4.0));
    assert_eq!(posterior_leaf_tau(true, false, Task::Regression), num(2.0));
    assert_eq!(posterior_leaf_tau(true, false, Task::Poisson), num(2.0));
    assert_eq!(posterior_leaf_tau(true, false, Task::Binary), num(3.0));
}

#[test]
fn trees_are_finished_as_set() {
    let s = finalize_multiclass_tree(&num(0.9), 10, &num(1.0), 2, &num(4.0), &num(0.5));
    assert!(s.decay && s.clip && s.average && s.shrink && s.hierarchical);
    let n = finalize_multiclass_tree(&num(1.0), 10, &num(0.0), 1, &num(0.0), &num(0.0));
    assert!(!n.decay && !n.clip && !n.average && !n.shrink && !n.hierarchical);
}

#[test]
fn values_are_clipped() {
    let mut values = nums(&[-3.0, 0.5, 2.0]);
    clip_values(&mut values, &num(1.0));
    assert_eq!(values, nums(&[-1.0, 0.5, 1.0]));
}

#[test]
fn siblings_that_are_leaves_are_smoothed() {
    assert_eq!(apply_hss(&tree(), &num(0.2)), vec![(3, 4)]);
    assert_eq!(apply_hss(&tree(), &num(0.0)), vec![]);
}

#[test]
fn spread_decides_the_shrinkage() {
    assert!(eblp_applies(true, 10, 10));
    assert!(!eblp_applies(true, 9, 10));
    assert_eq!(eblp_shrinkage_factor(true, 3), SpreadFactor::One);
    assert_eq!(eblp_shrinkage_factor(false, 9), SpreadFactor::One);
    assert_eq!(eblp_shrinkage_factor(true, 4), SpreadFactor::Ratio);
    let mut t = tree();
    t.values = nums(&[1.0, 2.0, 3.0, 4.0, 5.0]);
    assert_eq!(leaf_values_of(&t), nums(&[2.0, 4.0, 5.0]));
}

#[test]
fn steps_are_held_to_the_trust_region() {
    assert!(scs_applies(&num(0.1), Task::Binary));
    assert!(!scs_applies(&num(0.1), Task::Regression));
    assert!(trust_region_applies(&num(0.1), 1, 1));
    assert!(!trust_region_applies(&num(0.0), 1, 1));
    assert!(exceeds_trust_region(&num(1.0), &num(2.0), &num(1.0)));
    assert!(!exceeds_trust_region(&num(1.0), &num(1.0), &num(1.0)));
    assert!(!exceeds_trust_region(&num(0.0), &num(2.0), &num(1.0)));
}

#[test]
fn class_values_fill_visited_nodes() {
    let mut values = nums(&[9.0, 9.0]);
    install_class_values(&mut values, &nums(&[1.0, 2.0, 3.0, 4.0]), &vec![5, 0], 2, 1);
    assert_eq!(values, nums(&[2.0, 9.0]));
}

#[test]
fn experts_need_plain_leaves() {
    let settings = ExpertSettings {
        enabled: true,
        task: Task::Regression,
        prob_avg: false,
        honest: false,
        leaf_linear: false,
        leaf_quadratic: false,
        ramp: false,
        leaf_correction: 0,
        cat_lookup_smooth: num(0.0),
        n_trees_per_round: 1,
    };
    assert!(settings.should_use_expert_leaf_admission(&vec![true, false]));
    assert!(!settings.should_use_expert_leaf_admission(&vec![true]));
    let honest = ExpertSettings { honest: true, ..settings };
    assert!(!honest.should_use_expert_leaf_admission(&vec![false]));
}

#[test]
fn calibration_rows_are_held_back() {
    let rows: Vec<u32> = (0..40).collect();
    let (build, cal) = vceg_partition_indices(&rows, 3, 2, 1, 1, 1).unwrap();
    assert_eq!(cal, vec![0, 3, 4, 6, 16, 18, 23, 27, 29, 30, 33, 34]);
    assert_eq!(build.len() + cal.len(), 40);
    assert!(build.iter().all(|r| !cal.contains(r)));
    assert!(vceg_partition_indices(&rows, 3, 2, 1, 1, 13).is_none());
}

#[test]
fn shadows_turn_the_rows() {
    assert_eq!(vceg_shadow_shift(3, 10, 5, 2, 11), 1);
    assert_eq!(vceg_shadow_shift(3, 1, 5, 2, 11), 0);
    assert_eq!(shadow_position(8, 3, 10), 1);
    let turned: Vec<usize> = (0..10).map(|p| shadow_position(p, 3, 10)).collect();
    let mut sorted = turned.clone();
    sorted.sort_unstable();
    assert_eq!(sorted, (0..10).collect::<Vec<usize>>());
    assert!(turned.iter().enumerate().all(|(p, q)| p != *q));
}

#[test]
fn experts_use_numeric_path_features() {
    let path = vec![2, 0, NO_FEATURE, 1, 2, 2];
    assert_eq!(path_candidates(&path, 0, 3, &vec![false, false, false], 3), vec![2, 0]);
    assert_eq!(path_candidates(&path, 1, 3, &vec![false, true, false], 3), vec![2]);
    assert_eq!(expert_terms(0), 1);
    assert_eq!(expert_terms(9), 4);
    assert_eq!(expert_features(&nums(&[0.2, 0.9, 0.2]), &vec![1, 4, 6], 2), vec![4, 1]);
    assert_eq!(search_width(&vec![2], &vec![2, 0], 9), 2);
    assert_eq!(search_width(&vec![5], &vec![2, 0], 9), 9);
    assert_eq!(search_width(&vec![5], &vec![], 9), 9);
}

#[test]
fn experts_must_win_and_gain() {
    assert_eq!(count_wins(&nums(&[0.1, -0.1, 0.0, 2.0])), 2);
    assert!(expert_admitted(&num(0.55), &num(2.0), &num(1.0)));
    assert!(!expert_admitted(&num(0.54), &num(2.0), &num(1.0)));
    assert!(!expert_admitted(&num(0.9), &num(1.0), &num(1.0)));
}

#[test]
fn experts_are_installed_in_their_leaves() {
    let mut t = tree();
    let expert = LeafExpert { intercept: num(8.0), features: vec![1], slopes: nums(&[0.25]) };
    install_experts(&mut t, &vec![None, Some(expert), None, None, None], 2);
    assert_eq!(t.values, nums(&[0.0, 8.0, 2.0, 3.0, 4.0]));
    assert_eq!(t.ramp_k, 2);
    assert_eq!(t.ramp_features[2..4], [1, NO_FEATURE]);
    assert_eq!(t.ramp_slopes[2], num(0.25));
    let mut same = tree();
    install_experts(&mut same, &vec![None, None, None, None, None], 2);
    assert_eq!(same.ramp_k, 0);
}

#[test]
fn trees_that_cannot_route_are_told_apart() {
    let (t, d) = (tree(), data());
    assert!(d.is_filled() && t.is_well_formed() && t.is_fitting(&d));
    let mut short = data();
    short.bin_indices.pop();
    assert!(!short.is_filled() && !t.is_fitting(&short));
    let mut looping = tree();
    looping.left_children[2] = 2;
    assert!(!looping.is_well_formed());
    let mut outside = tree();
    outside.split_features[2] = 7;
    assert!(outside.is_well_formed() && !outside.is_fitting(&d));
    let mut unrouted = tree();
    unrouted.is_cat_pair[0] = true;
    assert!(!unrouted.is_fitting(&d));
}

#[test]
fn nodes_own_their_slots() {
    let mut t = tree();
    t.ramp_k = 2;
    t.ramp_slopes = nums(&[0.0; 9]);
    t.leaf_pair_slopes = nums(&[0.0; 4]);
    t.quad_n_interactions = 1;
    t.quad_slopes = nums(&[0.0; 5]);
    let third = t.slots_of_node(3);
    assert_eq!(third.ramp, vec![6, 7]);
    assert_eq!(third.pair, Some(3));
    assert_eq!(third.quad, vec![3]);
    let last = t.slots_of_node(4);
    assert_eq!(last.ramp, vec![8]);
    assert_eq!(last.pair, None);
    let siblings = t.slots_of_siblings(1, 3);
    assert_eq!(siblings.ramp, vec![(2, 6), (3, 7)]);
    assert!(siblings.pair);
    assert_eq!(siblings.quad, vec![(1, 3)]);
    let cut_off = t.slots_of_siblings(3, 4);
    assert!(cut_off.ramp.is_empty() && !cut_off.pair);
    assert_eq!(cut_off.lookups, None);
}

#[test]
fn lookups_of_siblings_go_together() {
    let lookup = |feature: u32| CatLookup {
        feature,
        feature2: NO_FEATURE,
        feature3: NO_FEATURE,
        bin_values: nums(&[1.0, 2.0, 3.0]),
        default_value: num(0.5),
        is_numeric: false,
        n_coarse_bins: 0,
        pair_stride: 0,
        triple_stride: 0,
    };
    let mut t = tree();
    t.cat_lookups[3] = Some(lookup(1));
    assert_eq!(t.slots_of_siblings(3, 4).lookups, None);
    t.cat_lookups[4] = Some(lookup(1));
    assert_eq!(t.slots_of_siblings(3, 4).lookups, Some(3));
    t.cat_lookups[4] = Some(lookup(0));
    assert_eq!(t.slots_of_siblings(3, 4).lookups, Some(0));
}

#[test]
fn rows_are_routed_alone() {
    let (t, d) = (tree(), data());
    for row in 0..4 {
        let bins: Vec<u16> = (0..2).map(|f| d.get_bin(row, f)).collect();
        let alone = BinnedData { n_rows: 1, bin_indices: bins.clone(), cll_hash_bins: bins, ..data() };
        assert_eq!(t.route_to_leaf(&alone, 0), t.route_to_leaf(&d, row));
    }
    let mut two = tree();
    two.is_oblique_split[2] = true;
    two.pair_routes[2] = vec![None, Some(false), Some(true), Some(true)];
    let leaf = two.route_to_leaf(&d, 1);
    two.pair_routes[2] = vec![Some(false)];
    let alone = BinnedData { n_rows: 1, bin_indices: vec![2, 1], cll_hash_bins: vec![2, 1], ..data() };
    assert_eq!(two.route_to_leaf(&alone, 0), leaf);
    assert_eq!(leaf, 4);
}

#[test]
fn rows_of_a_split_are_those_of_its_children() {
    let (t, d) = (tree(), data());
    let rows = rows_by_node(&t, &d, &vec![3, 0, 1, 2, 0]);
    assert_eq!(node_counts(&rows), vec![5, 2, 3, 2, 1]);
    for node in [0, 2] {
        let mut below = rows[t.left_children[node] as usize].clone();
        below.extend(&rows[t.right_children[node] as usize]);
        below.sort_unstable();
        let mut own = rows[node].clone();
        own.sort_unstable();
        assert_eq!(own, below);
    }
}

#[test]
fn turns_lead_to_leaves() {
    let t = tree();
    assert_eq!(t.leaf_by_turns(&vec![true, false, false, false, false]), 1);
    assert_eq!(t.leaf_by_turns(&vec![false, false, true, false, false]), 3);
    assert_eq!(t.leaf_by_turns(&vec![false, true, false, true, true]), 4);
}

#[test]
fn experts_need_a_spread() {
    assert!(feature_spreads(2, &num(1e-8)));
    assert!(!feature_spreads(2, &num(1e-9)));
    assert!(!feature_spreads(0, &num(1.0)));
    assert!(!feature_spreads(2, &num(f64::NAN)));
}
