use gtboost::ctr::{
    categorical_features, class_groups, class_of_label, count_label_classes, ctr_rng, ctr_seed, ctr_stats, feature_keys,
    feature_pair_keys, feature_triple_keys, oof_folds, read_key, scored_groups, settle_score, shuffled_rows,
    tuple_admitted,
};
use gtboost::ctr_build::CtrBuild;
use gtboost::ctr_select::{best_features, ctr_single_candidates, CtrSettings};
use gtboost::ctr_tables::{look_up, position, CtrTables, FittedTuple};
use gtboost::evidence::{
    add_best_tuples, cfe_arity_clip, cfe_emit_columns, deal_rows, evidence_applies, evidence_available,
    evidence_folds, evidence_groups, evidence_lookup, evidence_rng, evidence_seed, evidence_singles, highest_lift,
    pair_candidates, quad_candidates, residual_applies, residual_tree_seed, rows_outside_fold, shuffled_deal,
    target_class, triple_candidates, tuple_keys, warmup_mask, EvidenceColumn,
};
use gtboost::evidence_tables::{index_of_groups, residual_column_list, ResidualColumn};
use gtboost::hashing::{cfe_keys, ctr_pair_key, ctr_triple_key, MISSING_KEY};
use gtboost::num::Num;
use gtboost::task::Task;
use rand::rngs::StdRng;
use rand::SeedableRng;
use std::collections::HashMap;

fn num(x: f64) -> Num {
    Num { bits: x.to_bits() }
}

fn nums(v: &[f64]) -> Vec<Num> {
    v.iter().map(|&x| num(x)).collect()
}

#[test]
fn keys_are_read_from_cells() {
    let x = nums(&[1.0, 2.9, f64::NAN, 4.0]);
    assert_eq!(read_key(&x, 2, 2, 0, 1), 2);
    assert_eq!(feature_keys(&x, 2, 2, 0), vec![1, MISSING_KEY]);
    assert_eq!(feature_pair_keys(&x, 2, 2, 0, 1)[0], ctr_pair_key(1, 2));
    let wide = nums(&[1.0, 2.0, 3.0]);
    assert_eq!(feature_triple_keys(&wide, 1, 3, 0, 1, 2), vec![ctr_triple_key(1, 2, 3)]);
}

#[test]
fn categories_are_counted_once_each() {
    let keys = vec![4, 4, 5, 4, 6];
    let g = ctr_stats(&keys);
    assert_eq!(g.keys, vec![4, 5, 6]);
    assert_eq!((0..3).map(|i| g.count(i)).sum::<usize>(), 5);
    let scored = scored_groups(&g, 2, &keys, &(0..5).collect());
    assert_eq!(scored.groups, vec![0]);
    assert_eq!(scored.total, 3);
}

#[test]
fn classes_are_counted_per_category() {
    let keys = vec![7, 8, 7, 7, 9];
    let classes = vec![Some(1), Some(0), None, Some(1), None];
    let r = class_groups(&keys, &classes, 3);
    assert_eq!(r.rows, vec![0, 1, 3]);
    assert_eq!(r.groups.keys, vec![7, 8]);
    assert_eq!(r.counts, vec![vec![0, 2, 0], vec![1, 0, 0]]);
    let scored = scored_groups(&r.groups, 2, &keys, &r.rows);
    assert_eq!(scored.groups, vec![0]);
    assert_eq!(scored.total, 2);
}

#[test]
fn scores_need_rows_and_a_number() {
    assert_eq!(settle_score(10, 5, &num(0.25)), num(0.25));
    assert_eq!(settle_score(9, 5, &num(0.25)), num(0.0));
    assert_eq!(settle_score(10, 5, &num(f64::NAN)), num(0.0));
}

#[test]
fn tuples_need_groups_and_rows() {
    assert!(tuple_admitted(10, 2, 3));
    assert!(!tuple_admitted(9, 2, 3));
    assert!(!tuple_admitted(100, 1, 3));
    assert!(tuple_admitted(20, 2, 10));
    assert!(!tuple_admitted(19, 2, 10));
}

#[test]
fn labels_near_whole_numbers_are_classes() {
    assert_eq!(class_of_label(&num(2.0), &num(0.0), 3), Some(2));
    assert_eq!(class_of_label(&num(3.0), &num(0.0), 3), None);
    assert_eq!(class_of_label(&num(f64::NAN), &num(0.0), 3), None);
    assert_eq!(count_label_classes(&nums(&[0.0, 2.0, 1.0])), 3);
}

#[test]
fn categorical_features_are_listed() {
    assert_eq!(categorical_features(&vec![true, false, true], 4), vec![0, 2]);
    assert_eq!(categorical_features(&vec![true, false, true], 2), vec![0]);
}

#[test]
fn held_out_rows_are_not_counted() {
    let keys = vec![1, 1, 1, 2, 2, 1, 2, 1, 1, 2];
    let full = ctr_stats(&keys);
    let order: Vec<usize> = (0..10).collect();
    let folds = oof_folds(&keys, &full, &order);
    assert_eq!(folds.len(), 5);
    assert_eq!(folds.iter().map(|f| f.rows.len()).sum::<usize>(), 10);
    assert_eq!(folds[0].rows, vec![0, 1]);
    // Key 1 occurs six times, two of them in the fold.
    assert_eq!(folds[0].counts, vec![4, 4]);
    assert_eq!(folds[1].rows, vec![2, 3]);
    assert_eq!(folds[1].counts, vec![5, 3]);
}

#[test]
fn shuffling_rearranges_rows() {
    assert_eq!(ctr_seed(0), 0xC7A5_CE57);
    assert_eq!(ctr_seed(0xC7A5_CE57), 0);
    let mut rng = ctr_rng(11);
    let order = shuffled_rows(&mut rng, 50);
    let mut sorted = order.clone();
    sorted.sort_unstable();
    assert_eq!(sorted, (0..50).collect::<Vec<usize>>());
    assert_ne!(order, sorted);
    let mut again = ctr_rng(11);
    assert_eq!(shuffled_rows(&mut again, 50), order);
    let mut other = ctr_rng(12);
    assert_ne!(shuffled_rows(&mut other, 50), order);
}

#[test]
fn tables_give_columns() {
    let mut t = CtrTables::none();
    assert_eq!(t.ordered_ctr_columns_for_raw(&nums(&[1.0, 2.0]), 1, 2).singles.len(), 0);
    t.prior = num(0.5);
    t.features = vec![1, 7];
    t.priors = nums(&[0.4, 0.3]);
    t.maps = vec![HashMap::from([(2, num(0.9))]), HashMap::new()];
    t.count_maps = vec![HashMap::from([(2, num(12.0))])];
    t.pair_features = vec![(0, 1)];
    t.pair_maps = vec![HashMap::from([(ctr_pair_key(1, 2), num(0.8))])];
    t.pair_count_maps = vec![HashMap::new()];
    let x = nums(&[1.0, 2.0, 1.0, 3.0]);
    let columns = t.ordered_ctr_columns_for_raw(&x, 2, 2);
    assert_eq!(columns.singles.len(), 1);
    assert_eq!(columns.singles[0].table, 0);
    assert_eq!(columns.singles[0].encoding, nums(&[0.9, 0.4]));
    assert_eq!(columns.singles[0].count, nums(&[12.0, 0.0]));
    assert_eq!(columns.pairs.len(), 1);
    assert_eq!(columns.pairs[0].encoding, nums(&[0.8, 0.5]));
    assert_eq!(columns.pairs[0].count, nums(&[0.0, 0.0]));
    assert_eq!(columns.pairs[0].first, nums(&[0.5, 0.5]));
    assert_eq!(columns.pairs[0].second, nums(&[0.9, 0.5]));
    assert_eq!(columns.triples.len(), 0);
    assert_eq!(look_up(&t.maps[0], 5, &num(0.1)), num(0.1));
    assert_eq!(position(&vec![4, 7, 4], 7), Some(1));
    assert_eq!(position(&vec![4, 7, 4], 9), None);
}

#[test]
fn evidence_folds_leave_rows_to_each() {
    assert_eq!(evidence_folds(5, 1000), 5);
    assert_eq!(evidence_folds(1, 1000), 2);
    assert_eq!(evidence_folds(99, 1000), 16);
    assert_eq!(evidence_folds(5, 24), 3);
    assert_eq!(evidence_folds(5, 3), 2);
}

#[test]
fn rows_are_dealt_in_turn() {
    assert_eq!(deal_rows(&vec![2, 0, 1, 3], 2), vec![1, 0, 0, 1]);
}

#[test]
fn random_deals_are_even() {
    let mut rng = StdRng::seed_from_u64(6);
    let dealt = shuffled_deal(&mut rng, 23, 5);
    let sizes: Vec<usize> = (0..5).map(|h| dealt.iter().filter(|d| **d == h).count()).collect();
    assert_eq!(sizes, vec![5, 5, 5, 4, 4]);
    assert_ne!(dealt, (0..23).map(|i| i % 5).collect::<Vec<usize>>());
}

#[test]
fn fold_seeds_differ_by_use() {
    assert_eq!(evidence_seed(1, false), 1 + 0xCFE);
    assert_eq!(evidence_seed(1, true), 1 + 0xCFE2);
    assert_eq!(evidence_seed(u64::MAX, false), 0xCFD);
    let plain = shuffled_deal(&mut evidence_rng(3, false), 60, 4);
    let residual = shuffled_deal(&mut evidence_rng(3, true), 60, 4);
    assert_ne!(plain, residual);
    assert_eq!(plain, shuffled_deal(&mut evidence_rng(3, false), 60, 4));
    assert_eq!(plain.iter().filter(|f| **f == 2).count(), 15);
    assert_eq!(rows_outside_fold(&plain, 2).len(), 45);
}

#[test]
fn targets_are_held_to_the_classes() {
    assert_eq!(target_class(&num(1.4), 3), 1);
    assert_eq!(target_class(&num(9.0), 3), 2);
    assert_eq!(target_class(&num(-1.0), 3), 0);
    assert_eq!(target_class(&num(f64::NAN), 3), 0);
}

#[test]
fn evidence_needs_rows_and_categories() {
    assert!(evidence_applies(true, 40, 1));
    assert!(!evidence_applies(true, 39, 1));
    assert!(!evidence_applies(true, 40, 0));
    assert!(!evidence_applies(false, 40, 1));
    assert!(evidence_available(1, 1, 1));
    assert!(!evidence_available(1, 0, 1));
    assert!(residual_applies(1, 1, 80, Task::Binary));
    assert!(!residual_applies(1, 1, 79, Task::Binary));
    assert!(!residual_applies(1, 1, 80, Task::Multiclass));
}

#[test]
fn tuples_are_made_of_the_best_features() {
    assert_eq!(evidence_singles(&vec![3, 5, 8], &nums(&[0.1, 0.7, -0.2])), vec![5, 3]);
    assert_eq!(pair_candidates(&vec![5, 3, 8], 4), vec![vec![5, 3], vec![5, 8], vec![3, 8]]);
    assert_eq!(pair_candidates(&vec![5, 3, 8], 0).len(), 0);
    assert_eq!(triple_candidates(&vec![5, 3, 8], 2), vec![vec![5, 3, 8]]);
    assert_eq!(quad_candidates(&vec![5, 3, 8], 2).len(), 0);
    assert_eq!(quad_candidates(&vec![5, 3, 8, 1], 2), vec![vec![5, 3, 8, 1]]);
    let mut tuples = vec![vec![5]];
    add_best_tuples(&mut tuples, &vec![vec![5, 3], vec![5, 8], vec![3, 8]], &nums(&[0.2, 0.9, -1.0]), 4);
    assert_eq!(tuples, vec![vec![5], vec![5, 8], vec![5, 3]]);
}

#[test]
fn tuple_keys_are_those_of_each_tuple() {
    let x = nums(&[4.0, 9.0, 2.0, 4.0, f64::NAN, 2.0]);
    let tuples = vec![vec![0, 1], vec![2]];
    let keys = tuple_keys(&x, 2, 3, &tuples);
    assert_eq!(keys.len(), 2);
    assert_eq!(keys[0], cfe_keys(&x, 2, 3, &vec![0, 1]));
    assert_eq!(keys[0], vec![(0x5c62199cc7281890u64 >> 1) as i64, MISSING_KEY]);
    assert_eq!(keys[1], cfe_keys(&x, 2, 3, &vec![2]));
}

#[test]
fn group_counts_leave_out_the_own_fold() {
    let keys = vec![1, 1, 2, 1, MISSING_KEY, 2];
    let fold_of = vec![0, 1, 0, 0, 1, 1];
    let e = evidence_groups(&keys, &fold_of, 2);
    assert_eq!(e.rows, vec![0, 1, 2, 3, 5]);
    let outside: Vec<usize> = (0..5).map(|p| e.outside_count(&keys, &fold_of, 2, p)).collect();
    assert_eq!(outside, vec![1, 2, 1, 1, 1]);
}

#[test]
fn missing_keys_are_not_looked_up() {
    let index = HashMap::from([(7, 0), (MISSING_KEY, 1)]);
    assert_eq!(evidence_lookup(&index, &vec![7, 8, MISSING_KEY]), vec![Some(0), None, None]);
}

#[test]
fn evidence_columns_come_in_order() {
    assert_eq!(
        cfe_emit_columns(&vec![1, 2], 1, false, false, true),
        vec![
            EvidenceColumn::Lift(0),
            EvidenceColumn::Lift(1),
            EvidenceColumn::Total,
            EvidenceColumn::ArityTotal(0),
            EvidenceColumn::ArityMax(0),
            EvidenceColumn::ArityTotal(1),
            EvidenceColumn::ArityMax(1),
        ]
    );
}

#[test]
fn lifts_are_compared() {
    assert_eq!(highest_lift(&nums(&[0.5, 2.0, f64::NAN])), num(2.0));
    assert_eq!(highest_lift(&nums(&[])), num(0.0));
}

#[test]
fn wide_categories_are_masked_in_warmup() {
    assert_eq!(warmup_mask(&vec![true, true, false], &vec![100, 3, 100], 64), vec![false, true, true]);
}

#[test]
fn wider_tuples_are_clipped_harder() {
    assert_eq!(cfe_arity_clip(1), num(3.605));
    assert_eq!(cfe_arity_clip(2), num(2.699));
    assert_eq!(cfe_arity_clip(3), num(2.020));
    assert_eq!(cfe_arity_clip(4), num(2.020));
}

#[test]
fn residual_trees_have_seeds_of_their_own() {
    assert_eq!(residual_tree_seed(42, 0), 42);
    assert_eq!(residual_tree_seed(0, 2), 2 * 0x9E37_79B9);
}

fn fitted(members: Vec<usize>, key: i64, value: f64) -> FittedTuple {
    FittedTuple {
        members,
        prior: num(0.5),
        encodings: HashMap::from([(key, num(value))]),
        counts: HashMap::from([(key, num(3.0))]),
        encoding: nums(&[value, 0.5]),
        count: nums(&[3.0, 0.0]),
        residual: nums(&[0.25, -0.25]),
    }
}

#[test]
fn stored_tables_give_as_many_columns_as_training() {
    let mut tables = CtrTables::none();
    let single = tables.store(fitted(vec![1], 2, 0.9));
    assert_eq!(single, vec![nums(&[0.9, 0.5]), nums(&[3.0, 0.0])]);
    let pair = tables.store(fitted(vec![0, 1], ctr_pair_key(1, 2), 0.8));
    assert_eq!(pair[2], nums(&[0.25, -0.25]));
    let triple = tables.store(fitted(vec![0, 1, 2], ctr_triple_key(1, 2, 3), 0.7));
    assert_eq!((single.len(), pair.len(), triple.len()), (2, 3, 3));
    assert_eq!(tables.features, vec![1]);
    assert_eq!(tables.pair_features, vec![(0, 1)]);
    assert_eq!(tables.triple_features, vec![(0, 1, 2)]);
    assert_eq!(tables.priors, nums(&[0.5]));
    let raw = tables.ordered_ctr_columns_for_raw(&nums(&[1.0, 2.0, 3.0]), 1, 3);
    assert_eq!((raw.singles.len(), raw.pairs.len(), raw.triples.len()), (1, 1, 1));
    assert_eq!(raw.singles[0].encoding, nums(&[0.9]));
    assert_eq!(raw.pairs[0].encoding, nums(&[0.8]));
    assert_eq!(raw.triples[0].encoding, nums(&[0.7]));
    assert_eq!(raw.triples[0].count, nums(&[3.0]));
    // Rows without the third feature get no column of the triple.
    assert_eq!(tables.ordered_ctr_columns_for_raw(&nums(&[1.0, 2.0]), 1, 2).triples.len(), 0);
}

#[test]
fn a_label_stays_out_of_its_own_encoding() {
    let keys = vec![1, 1, 1, 2, 2, 1, 2, 1, 1, 2];
    let full = ctr_stats(&keys);
    let order = shuffled_rows(&mut ctr_rng(4), 10);
    let sums = |y: &[i64], row: usize| -> i64 {
        let folds = oof_folds(&keys, &full, &order);
        let fold = folds.iter().find(|f| f.rows.contains(&row)).unwrap();
        let of_key = |rows: &[usize]| -> i64 { rows.iter().filter(|&&r| keys[r] == keys[row]).map(|&r| y[r]).sum() };
        of_key(&(0..10).collect::<Vec<usize>>()) - of_key(&fold.rows)
    };
    // The labels in halves: 0.5, -1.5 and so on.
    let y: Vec<i64> = vec![1, -3, 1, 1, 0, 1, 5, 0, 0, 1];
    for row in 0..10 {
        let mut changed = y.clone();
        changed[row] = 71;
        assert_eq!(sums(&changed, row), sums(&y, row));
    }
}

#[test]
fn encoded_features_are_categorical() {
    let x: Vec<Num> = (0..40).flat_map(|r| nums(&[(r % 4) as f64, (r % 3) as f64, (r % 2) as f64])).collect();
    let singles = ctr_single_candidates(&x, 40, 3, &vec![true, false, true], Task::Binary);
    assert_eq!(singles.iter().map(|c| c.members.clone()).collect::<Vec<_>>(), vec![vec![0], vec![2]]);
    assert_eq!(best_features(&vec![0, 2], &nums(&[0.1, 0.4]), 1), vec![2]);
    assert_eq!(best_features(&vec![0, 2], &nums(&[0.1, 0.4]), 9), vec![2, 0]);
}

#[test]
fn later_rows_find_the_groups_of_training_rows() {
    let x = nums(&[4.0, 9.0, 2.0, 5.0, 9.0, 2.0, 4.0, 9.0, 1.0, f64::NAN, 9.0, 2.0]);
    let tuples = vec![vec![0, 1], vec![2]];
    let keys = tuple_keys(&x, 4, 3, &tuples);
    for (t, tuple) in tuples.iter().enumerate() {
        let grouped = evidence_groups(&keys[t], &vec![0, 1, 0, 1], 2);
        let index = index_of_groups(&grouped.groups);
        assert_eq!(index.len(), grouped.groups.keys.len());
        for row in 0..4 {
            let cells = x[3 * row..3 * row + 3].to_vec();
            let later = tuple_keys(&cells, 1, 3, &vec![tuple.clone()]);
            assert_eq!(later[0][0], keys[t][row]);
            let group = grouped.rows.iter().position(|&r| r == row).map(|p| grouped.groups.group_of[p]);
            assert_eq!(evidence_lookup(&index, &later[0]), vec![group]);
        }
    }
    let grouped = evidence_groups(&keys[0], &vec![0, 1, 0, 1], 2);
    assert_eq!(grouped.rows, vec![0, 1, 2]);
    assert_eq!(evidence_lookup(&index_of_groups(&grouped.groups), &keys[0]), vec![Some(0), Some(1), Some(0), None]);
}

#[test]
fn evidence_columns_are_counted_by_tuples_and_settings() {
    let arities = vec![1, 1, 2, 4];
    assert_eq!(cfe_emit_columns(&arities, 1, false, false, false).len(), 4 + 1 + 3);
    assert_eq!(cfe_emit_columns(&arities, 1, true, true, true).len(), 4 * 3 + 1 + 3 * 2);
    assert_eq!(cfe_emit_columns(&vec![1, 1], 1, true, false, true).len(), 2 * 2 + 1 + 2);
    assert_eq!(cfe_emit_columns(&arities, 3, true, true, true).len(), 6);
    assert_eq!(cfe_emit_columns(&arities, 3, true, true, false).len(), 3);
}

#[test]
fn residual_columns_end_in_their_total() {
    assert_eq!(
        residual_column_list(2, 2),
        vec![ResidualColumn::Lift(0), ResidualColumn::Lift(1), ResidualColumn::Total]
    );
    assert_eq!(residual_column_list(3, 1), vec![ResidualColumn::Lift(0), ResidualColumn::Total]);
    assert_eq!(residual_column_list(0, 0), vec![ResidualColumn::Total]);
}

fn settings(task: Task, top_features: usize) -> CtrSettings {
    CtrSettings { enabled: true, task, top_features, min_count: 1, permutations: 1, smooth: num(1.0) }
}

#[test]
fn builds_store_what_may_be_stored() {
    let mut build = CtrBuild::begin(settings(Task::Binary, 2), 2, 3, vec![true, true, false]);
    assert!(!build.can_store(&fitted(vec![2], 1, 0.5)));
    assert!(!build.can_store(&fitted(vec![0, 1], 1, 0.5)));
    build.store(fitted(vec![0], 1, 0.5));
    build.store(fitted(vec![1], 2, 0.25));
    assert!(!build.can_store(&fitted(vec![0], 1, 0.5)));
    assert!(build.can_store(&fitted(vec![0, 1], 3, 0.75)));
    assert!(!build.can_store(&fitted(vec![0, 2], 3, 0.75)));
    build.store(fitted(vec![0, 1], 3, 0.75));
    assert!(build.can_store(&fitted(vec![0, 1, 0], 4, 0.125)));
    build.store(fitted(vec![0, 1, 0], 4, 0.125));
    assert!(!build.can_store(&fitted(vec![0, 1, 0, 1], 4, 0.125)));
    assert_eq!(build.columns.len(), 2 * 2 + 3 + 3);
    assert!(build.columns.iter().all(|c| c.len() == 2));
    assert_eq!(build.columns[4], nums(&[0.75, 0.5]));
    let raw = build.tables.ordered_ctr_columns_for_raw(&nums(&[1.0, 2.0, 3.0]), 1, 3);
    assert_eq!((raw.singles.len(), raw.pairs.len(), raw.triples.len()), (2, 1, 1));
}

#[test]
fn builds_go_by_the_task() {
    let mut classes = CtrBuild::begin(settings(Task::Multiclass, 1), 2, 1, vec![true]);
    classes.store(fitted(vec![0], 1, 0.5));
    classes.store(fitted(vec![0], 1, 0.25));
    assert_eq!(classes.tables.features, vec![0, 0]);
    assert!(!classes.can_store(&fitted(vec![0, 0], 1, 0.5)));
    let mut plain = CtrBuild::begin(settings(Task::Regression, 1), 2, 1, vec![true]);
    plain.store(fitted(vec![0], 1, 0.5));
    assert!(plain.can_store(&fitted(vec![0, 0], 1, 0.5)));
    assert!(!plain.can_store(&fitted(vec![0, 0, 0], 1, 0.5)));
    let off = CtrBuild::begin(CtrSettings { enabled: false, ..settings(Task::Binary, 1) }, 2, 1, vec![true]);
    assert!(!off.can_store(&fitted(vec![0], 1, 0.5)));
    assert_eq!(off.columns.len(), 0);
}
