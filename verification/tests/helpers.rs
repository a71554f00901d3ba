use ganet::dataset::{describe, numeral, DsMode};
use ganet::table::Table;
use ganet::util;
use std::collections::HashSet;

#[test]
fn max_and_min_index() {
    assert_eq!(util::max_i(&[1.0f32, 5.0, 3.0, 5.0]), 1);
    assert_eq!(util::min_i(&[4.0f32, 2.0, 2.0, 9.0]), 1);
    let empty: [f32; 0] = [];
    assert_eq!(util::max_i(&empty), 0);
    assert_eq!(util::min_i(&empty), 0);
    assert_eq!(util::max_i(&[3, 9, 2]), 1);
    assert_eq!(util::min_i(&[3, 9, 2]), 2);
}

#[test]
fn max_index_has_no_greater_element() {
    let v = [0.2f32, 0.9, 0.1, 0.9, 0.5];
    let m = util::max_i(&v);
    assert!(v.iter().all(|x| !(*x > v[m])));
    let n = util::min_i(&v);
    assert!(v.iter().all(|x| !(*x < v[n])));
}

#[test]
fn random_strings_are_capitals() {
    let s = util::rand_string(12);
    assert_eq!(s.len(), 12);
    assert!(s.chars().all(|c| c.is_ascii_uppercase()));
    assert_eq!(util::rand_string(0), "");
}

#[test]
fn random_ranges() {
    for _ in 0..100 {
        assert!(util::rand_int(3) < 3);
        assert!(util::rand_usize(7) < 7);
        let r = util::rand_intr(-2, 3);
        assert!(-2 <= r && r < 3);
    }
}

#[test]
fn shuffle_keeps_elements() {
    let mut v = vec![1, 2, 3, 4, 5, 5];
    util::shuffle(&mut v);
    v.sort();
    assert_eq!(v, vec![1, 2, 3, 4, 5, 5]);
}

#[test]
fn clock_readings() {
    let a = util::now().expect("the clock reads after the epoch");
    assert!(a > 1_500_000_000_000);
    let t = util::time();
    let d = t.diff();
    assert!(d >= 0);
    assert_eq!(util::span_ns(1_000, 3_500), 2_500);
    assert_eq!(util::span_ns(5, 3), -2);
    assert_eq!(util::millis_of(2, 345_000_000), 2345);
}

#[test]
fn pop_takes_a_member() {
    let mut s: HashSet<u32> = HashSet::new();
    s.insert(4);
    s.insert(8);
    let x = util::pop(&mut s);
    assert!(x == 4 || x == 8);
    assert_eq!(s.len(), 1);
    assert!(!s.contains(&x));
}

#[test]
fn random_table_entries() {
    let mut t: Table<String, u32> = Table::new();
    assert!(util::rand_hash(&t).is_none());
    assert!(util::rand_hash_key(&t).is_none());
    assert!(util::rand_hash_mut(&mut t).is_none());
    t.insert("a".to_string(), 1);
    t.insert("b".to_string(), 2);
    let v = *util::rand_hash(&t).unwrap();
    assert!(v == 1 || v == 2);
    let k = util::rand_hash_key(&t).unwrap().clone();
    assert!(k == "a" || k == "b");
    let (i, v) = util::rand_hash_mut(&mut t).unwrap();
    *v = 10;
    assert_eq!(*t.value_at(i), 10);
    *util::gmut(&mut t, &"a".to_string()) = 7;
    assert_eq!(t.get(&"a".to_string()), Some(&7));
}

#[test]
fn table_keeps_order_and_one_entry_per_key() {
    let mut t: Table<String, u32> = Table::new();
    assert!(t.is_empty());
    t.insert("x".to_string(), 1);
    t.insert("y".to_string(), 2);
    t.insert("x".to_string(), 3);
    assert_eq!(t.len(), 2);
    assert_eq!(t.key_at(0), "x");
    assert_eq!(*t.value_at(0), 3);
    assert_eq!(t.get(&"y".to_string()), Some(&2));
    assert_eq!(t.find(&"y".to_string()), Some(1));
    assert_eq!(t.remove(&"x".to_string()), Some(3));
    assert_eq!(t.remove(&"x".to_string()), None);
    assert_eq!(t.key_at(0), "y");
}

#[test]
fn lists_grow_under_keys() {
    let mut t: Table<u32, Vec<u8>> = Table::new();
    t.push_to(4, 1);
    t.push_to(4, 2);
    t.push_to(1, 9);
    assert_eq!(t.get(&4), Some(&vec![1, 2]));
    assert_eq!(t.key_at(1), &1);
    t.clear();
    assert_eq!(t.len(), 0);
}

#[test]
fn dataset_modes_compare() {
    let m = DsMode::Val;
    assert_eq!(m, DsMode::Val);
    assert_ne!(m, DsMode::Test);
    assert_ne!(DsMode::Train, DsMode::Test);
}

#[test]
fn numerals_are_decimal() {
    assert_eq!(numeral(0), "0");
    assert_eq!(numeral(7), "7");
    assert_eq!(numeral(10), "10");
    assert_eq!(numeral(783), "783");
    assert_eq!(numeral(1_000_005), "1000005");
}

#[test]
fn node_names_of_an_image() {
    let (input, output) = describe();
    assert_eq!(input.len(), 784);
    assert_eq!(input[0], "in-0");
    assert_eq!(input[42], "in-42");
    assert_eq!(input[783], "in-783");
    assert_eq!(output.len(), 10);
    assert_eq!(output[0], "out-0");
    assert_eq!(output[9], "out-9");
}
