use gtboost::hashing::{
    cat_interaction_bucket, cfe_keys, cfe_mix, ctr_pair_key, ctr_single_key, ctr_triple_key, hash_fold, scramble,
    MISSING_KEY,
};
use gtboost::num::Num;

fn num(x: f64) -> Num {
    Num { bits: x.to_bits() }
}

#[test]
fn words_are_scrambled() {
    assert_eq!(scramble(0), 0);
    assert_eq!(scramble(1), 0x5692161d100b05e5);
    assert_eq!(scramble(0x9E3779B97F4A7C15), 0xe220a8397b1dcdaf);
}

#[test]
fn folds_come_from_row_and_seed() {
    let folds: Vec<usize> = (0..6).map(|row| hash_fold(row, 7, 5)).collect();
    assert_eq!(folds, vec![2, 2, 3, 1, 3, 3]);
}

#[test]
fn a_single_key_is_the_integer_part() {
    assert_eq!(ctr_single_key(&num(12.9)), 12);
    assert_eq!(ctr_single_key(&num(-3.7)), -3);
    assert_eq!(ctr_single_key(&num(f64::NAN)), MISSING_KEY);
}

#[test]
fn pair_keys_depend_on_order() {
    assert_eq!(ctr_pair_key(1, 2), 6455220752673278277);
    assert_eq!(ctr_pair_key(2, 1), 7314948892658762551);
    assert_eq!(ctr_pair_key(-3, 5), 2079567121559129546);
    assert_eq!(ctr_triple_key(1, 2, 3), 7803541192889669603);
}

#[test]
fn pairs_fall_into_buckets() {
    assert_eq!(cat_interaction_bucket(&num(3.0), &num(7.0)), Some(110));
    assert_eq!(cat_interaction_bucket(&num(1.0), &num(0.0)), Some(67));
    assert_eq!(cat_interaction_bucket(&num(f64::NAN), &num(0.0)), None);
    assert_eq!(cat_interaction_bucket(&num(0.0), &num(f64::NAN)), None);
}

#[test]
fn tuples_are_mixed_value_by_value() {
    assert_eq!(cfe_mix(1, 2), 13757245211066428519);
    let x = vec![num(4.0), num(9.0), num(4.2), num(f64::NAN), num(f64::INFINITY), num(9.0)];
    let keys = cfe_keys(&x, 3, 2, &vec![0, 1]);
    assert_eq!(keys, vec![(0x5c62199cc7281890u64 >> 1) as i64, MISSING_KEY, MISSING_KEY]);
    let firsts = cfe_keys(&x, 2, 2, &vec![0]);
    assert_eq!(firsts, vec![(0x54d0132901ee640fu64 >> 1) as i64, (0x54d0132901ee640fu64 >> 1) as i64]);
}
