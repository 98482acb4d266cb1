//! Tests of the container merges and of the validation result itself.

use std::collections::{BTreeMap, BTreeSet, HashMap, HashSet};
use std::sync::Arc;

use merge_right::{MergeRight, Valid, ValidationError};

fn ok<T: std::fmt::Debug>(v: Valid<T, String>) -> T {
    match v {
        Valid::Success(t) => t,
        Valid::Failure(e) => panic!("unexpected merge failure: {:?}", e),
    }
}

#[test]
fn vec_merge_concatenates_without_dedup() {
    let merged = ok(vec![1, 2, 2].merge_right(vec![2, 3]));
    assert_eq!(merged, vec![1, 2, 2, 2, 3]);
}

#[test]
fn vec_merge_is_associative() {
    let a = vec![1];
    let b = vec![2];
    let c = vec![3];
    let left_first = ok(ok(a.clone().merge_right(b.clone())).merge_right(c.clone()));
    let right_first = ok(a.merge_right(ok(b.merge_right(c))));
    assert_eq!(left_first, right_first);
}

#[test]
fn vec_merge_is_not_commutative() {
    let ab = ok(vec![1].merge_right(vec![2]));
    let ba = ok(vec![2].merge_right(vec![1]));
    assert_ne!(ab, ba);
}

#[test]
fn hash_map_merge_right_writer_wins_per_key() {
    let mut l: HashMap<String, i64> = HashMap::new();
    l.insert(String::from("a"), 1);
    l.insert(String::from("b"), 2);
    let mut r: HashMap<String, i64> = HashMap::new();
    r.insert(String::from("b"), 9);
    r.insert(String::from("c"), 3);
    let m = ok(l.merge_right(r));
    assert_eq!(m.get("a"), Some(&1));
    assert_eq!(m.get("b"), Some(&9));
    assert_eq!(m.get("c"), Some(&3));
    assert_eq!(m.len(), 3);
}

#[test]
fn hash_set_merge_is_union() {
    let l: HashSet<u64> = [1, 2].into_iter().collect();
    let r: HashSet<u64> = [2, 3].into_iter().collect();
    let m = ok(l.merge_right(r));
    let expect: HashSet<u64> = [1, 2, 3].into_iter().collect();
    assert_eq!(m, expect);
}

#[test]
fn btree_set_merge_is_union() {
    let l: BTreeSet<u64> = [1, 2].into_iter().collect();
    let r: BTreeSet<u64> = [2, 3].into_iter().collect();
    let m = ok(l.merge_right(r));
    let expect: BTreeSet<u64> = [1, 2, 3].into_iter().collect();
    assert_eq!(m, expect);
}

#[test]
fn btree_map_merge_unions_and_merges_shared_values() {
    let mut l: BTreeMap<String, Vec<i64>> = BTreeMap::new();
    l.insert(String::from("shared"), vec![1]);
    l.insert(String::from("left"), vec![10]);
    let mut r: BTreeMap<String, Vec<i64>> = BTreeMap::new();
    r.insert(String::from("shared"), vec![2]);
    r.insert(String::from("right"), vec![20]);
    let m = ok(l.merge_right(r));
    assert_eq!(m.get("shared"), Some(&vec![1, 2]));
    assert_eq!(m.get("left"), Some(&vec![10]));
    assert_eq!(m.get("right"), Some(&vec![20]));
    assert_eq!(m.len(), 3);
}

#[test]
fn option_merge_combines_contents() {
    assert_eq!(ok(Some(vec![1]).merge_right(Some(vec![2]))), Some(vec![1, 2]));
    assert_eq!(ok(Some(vec![1]).merge_right(None)), Some(vec![1]));
    assert_eq!(ok(None.merge_right(Some(vec![2]))), Some(vec![2]));
    assert_eq!(ok(None::<Vec<i64>>.merge_right(None)), None);
}

#[test]
fn arc_merge_combines_uniquely_held_values() {
    let l = Arc::new(vec![1, 2]);
    let r = Arc::new(vec![3]);
    let m = ok(l.merge_right(r));
    assert_eq!(*m, vec![1, 2, 3]);
}

#[test]
fn arc_merge_drops_a_side_that_is_still_shared() {
    let l = Arc::new(vec![1]);
    let _still_alive = l.clone();
    let r = Arc::new(vec![2]);
    let m = ok(l.merge_right(r));
    assert_eq!(*m, vec![2]);
}

#[test]
fn validation_error_accumulates_in_order() {
    let a = ValidationError::from_error(String::from("first"));
    let b = ValidationError::from_error(String::from("second"));
    let both = a.combine(b);
    assert!(!both.is_empty());
    assert_eq!(both.errors(), &vec![String::from("first"), String::from("second")]);
}

#[test]
fn validation_error_empty_holds_nothing() {
    let e: ValidationError<String> = ValidationError::empty();
    assert!(e.is_empty());
    assert_eq!(e.errors().len(), 0);
}

#[test]
fn valid_to_result_round_trip() {
    let s: Valid<i64, String> = Valid::succeed(7);
    assert_eq!(s.to_result().unwrap(), 7);
    let f: Valid<i64, String> = Valid::from_error(String::from("boom"));
    let err = f.to_result().unwrap_err();
    assert_eq!(err.errors(), &vec![String::from("boom")]);
}
