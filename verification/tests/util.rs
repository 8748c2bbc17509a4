use knn_classifier::util::{dot_product, squared_distance, Counter};

#[test]
fn test_counter() {
    let mut ctr: Counter<bool> = Counter::new();
    ctr.insert(true);
    ctr.insert(true);
    ctr.insert(false);

    assert_eq!(ctr.get(&true).unwrap(), 2u64);
    assert_eq!(ctr.get(&false).unwrap(), 1u64);

    assert_eq!(ctr.most_frequent().unwrap(), (&true, 2u64));
}

#[test]
fn dot_works() {
    let x: Vec<i16> = vec![1, 2, 3];
    let y: Vec<i16> = vec![2, 5, -1];
    let dot = dot_product(&x, &y);
    assert_eq!(dot, 9i128);
}

#[test]
fn dot_with_self_is_sum_of_squares() {
    let v: Vec<i16> = vec![3, -4, 12];
    let dot = dot_product(&v, &v);
    assert_eq!(dot, 9 + 16 + 144);
    assert!(dot >= 0);
}

#[test]
fn dot_uses_overlapping_prefix() {
    let x: Vec<i16> = vec![1, 2, 3, 100];
    let y: Vec<i16> = vec![2, 5, -1];
    assert_eq!(dot_product(&x, &y), 9i128);
    assert_eq!(dot_product(&y, &x), 9i128);
}

#[test]
fn squared_distance_to_self_is_zero() {
    let v: Vec<i16> = vec![7, -2, 0, 31];
    assert_eq!(squared_distance(&v, &v), 0i128);
}

#[test]
fn squared_distance_concrete() {
    let q: Vec<i16> = vec![1, 1, 1, 1, 1];
    assert_eq!(squared_distance(&q, &vec![0, 1, 2, 2, 3]), 7i128);
    assert_eq!(squared_distance(&q, &vec![5, 4, 3, 4, 5]), 54i128);
    assert_eq!(squared_distance(&q, &vec![0, 0, 0, 0, 0]), 5i128);
}

#[test]
fn squared_distance_extremes() {
    let lo: Vec<i16> = vec![i16::MIN; 4];
    let hi: Vec<i16> = vec![i16::MAX; 4];
    let d = 65535i128 * 65535i128 * 4;
    assert_eq!(squared_distance(&lo, &hi), d);
    assert_eq!(squared_distance(&hi, &lo), d);
}

#[test]
fn counter_get_absent_is_none_not_zero() {
    let mut ctr: Counter<u64> = Counter::new();
    ctr.insert(4);
    assert_eq!(ctr.get(&5), None);
    assert_eq!(ctr.get(&4), Some(1));
}

#[test]
fn counter_empty_has_no_most_frequent() {
    let ctr: Counter<String> = Counter::new();
    assert!(ctr.most_frequent().is_none());
}

#[test]
fn counter_majority_wins() {
    let items: Vec<u64> = vec![2, 9, 2, 7, 2, 9];
    let ctr = Counter::with_iterator(items);
    let (item, freq) = ctr.most_frequent().unwrap();
    assert_eq!(*item, 2);
    assert_eq!(freq, 3);
}

#[test]
fn counter_tie_break_prefers_first_inserted() {
    let items: Vec<String> = vec!["b".to_string(), "a".to_string(), "a".to_string(), "b".to_string()];
    let ctr = Counter::with_iterator(items);
    let (item, freq) = ctr.most_frequent().unwrap();
    assert_eq!(item, "b");
    assert_eq!(freq, 2);
}

#[test]
fn counter_iter_lists_entries_in_insertion_order() {
    let mut ctr: Counter<String> = Counter::new();
    ctr.insert("x".to_string());
    ctr.insert("y".to_string());
    ctr.insert("x".to_string());
    let entries = ctr.iter();
    assert_eq!(entries.len(), 2);
    assert_eq!(entries[0], ("x".to_string(), 2u64));
    assert_eq!(entries[1], ("y".to_string(), 1u64));
}
