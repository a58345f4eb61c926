use complete_iter::fixed::{fx_add, fx_dist, fx_mul, SCALE};
use complete_iter::helper::{
    first_max_index, gather, index_of, label_less, match_mul, match_mul_sum, max_distance,
};

fn fx(x: f64) -> i64 {
    (x * SCALE as f64).round() as i64
}

// Per-key product; the last key has no partner and reads as zero.
#[test]
fn hash_multiply_test() {
    let mut map_1: Vec<i64> = Vec::new();
    let mut map_2: Vec<i64> = Vec::new();
    let mut map_3: Vec<i64> = Vec::new();
    for _ in 0..3 {
        map_1.push(fx(0.5));
        map_2.push(fx(2.));
        map_3.push(fx(1.));
    }
    map_1.push(fx(10.));
    map_3.push(fx(0.));

    assert_eq!(match_mul(&map_1, &map_2), map_3);
}

// Sum of per-key products; a missing key on either side counts as zero.
#[test]
fn hash_multiply_reduce_test() {
    let map_1: Vec<i64> = vec![fx(0.5), fx(0.5), 0, fx(10.)];
    let map_2: Vec<i64> = vec![fx(2.), fx(2.), fx(2.)];

    assert_eq!(match_mul_sum(&map_1, &map_2), fx(2.));
}

#[test]
fn weighted_sum_of_empty_table_is_zero() {
    assert_eq!(match_mul_sum(&Vec::new(), &vec![fx(3.)]), 0);
    assert_eq!(match_mul(&Vec::new(), &vec![fx(3.)]), Vec::<i64>::new());
}

#[test]
fn fixed_point_products_truncate_toward_zero() {
    assert_eq!(fx_mul(fx(0.5), fx(3.)), fx(1.5));
    assert_eq!(fx_mul(1, 1), 0);
    assert_eq!(fx_mul(-1_500_000, 1), -1);
    assert_eq!(fx_mul(-3, 500_000), -1);
}

#[test]
fn fixed_point_operations_saturate() {
    assert_eq!(fx_add(i64::MAX, 1), i64::MAX);
    assert_eq!(fx_add(i64::MIN, -1), i64::MIN);
    assert_eq!(fx_add(2, -5), -3);
    assert_eq!(fx_mul(i64::MAX, i64::MAX), i64::MAX);
    assert_eq!(fx_mul(i64::MIN, i64::MAX), i64::MIN);
    assert_eq!(fx_dist(i64::MIN, i64::MAX), i64::MAX);
    assert_eq!(fx_dist(-4, 3), 7);
}

#[test]
fn max_distance_reads_missing_keys_as_zero() {
    assert_eq!(max_distance(&vec![1, 10, -4], &vec![3, 9]), 4);
    assert_eq!(max_distance(&Vec::new(), &vec![3, 9]), 0);
}

#[test]
fn first_max_index_takes_the_first_of_equal_maxima() {
    assert_eq!(first_max_index(&vec![1, 5, 3, 5]), 1);
    assert_eq!(first_max_index(&vec![-7]), 0);
}

#[test]
fn gather_and_index_of() {
    assert_eq!(gather(&vec![2, 0, 5], &vec![10, 20, 30]), vec![30, 10, 0]);
    assert_eq!(index_of(&vec![4, 8, 4], 4), Some(0));
    assert_eq!(index_of(&vec![4, 8, 4], 8), Some(1));
    assert_eq!(index_of(&vec![4, 8, 4], 5), None);
}

#[test]
fn labels_compare_lexicographically() {
    let s = |x: &str| x.to_string();
    assert!(label_less(&s("Arm_1"), &s("Arm_2")));
    assert!(!label_less(&s("Arm_2"), &s("Arm_1")));
    assert!(label_less(&s("Arm"), &s("Arm_1")));
    assert!(!label_less(&s("Arm_1"), &s("Arm")));
    assert!(!label_less(&s("same"), &s("same")));
    assert!(label_less(&s(""), &s("a")));
}
