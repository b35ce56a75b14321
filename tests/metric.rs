use std::cmp::Ordering;

use terminal::{Error, Groups, Metric};

#[test]
fn metric_test_main() {
    let g1 = vec![0, 0, 1, -1, 2, 1].groups();
    let g2 = vec![0, 0, 0, -1, 2, 1].groups();
    println!("{:?}\n{:?}", g1.groups(), g2.groups());
    let m1 = Metric::from_group("hello", g1).unwrap();
    let m2 = Metric::from_group("world", g2).unwrap();
    println!("M1 {:?}, M2 {:?}, {:?}", m1, m2, m1.partial_cmp(&m2));
    assert_eq!(m1.partial_cmp(&m2), Some(Ordering::Greater));
}

#[test]
fn metric_counts_groups_and_spread_without_the_sentinel() {
    let m = Metric::from_group("word", vec![0, 0, 1, -1, 2, 1].groups()).unwrap();
    assert_eq!(m.groups(), &vec![(0, vec![0, 1]), (1, vec![2, 5]), (2, vec![4])]);
    assert!(m.groups().iter().all(|g| g.0 != -1));
    let same = Metric::from_group("word", vec![0, 0, 1, 2, 1].groups()).unwrap();
    assert!(m == same);
}

#[test]
fn metric_of_a_single_word_is_undefined() {
    let r = Metric::from_group("solo", vec![-1].groups());
    assert!(matches!(r, Err(Error::MetricUndefined)));
}

#[test]
fn metric_order_prefers_more_groups_then_smaller_spread() {
    // four groups, spread 2
    let a = Metric::from_group("a", vec![0, 0, 0, 1, 2, 3].groups()).unwrap();
    // three groups, spread 1
    let b = Metric::from_group("b", vec![0, 0, 1, 2].groups()).unwrap();
    // three groups, spread 2
    let c = Metric::from_group("c", vec![0, 0, 0, 1, 2].groups()).unwrap();
    assert!(a > b);
    assert!(b > c);
    assert!(c < b);
    assert_eq!(b.partial_cmp(&b), Some(Ordering::Equal));
}
