//! Scenario tests for the document-value merge.

use merge_right::value::{Mapping, TaggedValue, Value};
use merge_right::{MergeRight, Valid};

fn num(n: i64) -> Value {
    Value::Number(serde_yaml::Number::from(n))
}

fn s(text: &str) -> String {
    String::from(text)
}

fn mapping(entries: Vec<(&str, Value)>) -> Value {
    Value::Mapping(Mapping {
        entries: entries.into_iter().map(|(k, v)| (String::from(k), v)).collect(),
    })
}

fn tagged(tag: &str, value: Value) -> Value {
    Value::Tagged(Box::new(TaggedValue { tag: String::from(tag), value }))
}

fn veq(a: &Value, b: &Value) -> bool {
    match (a, b) {
        (Value::Null, Value::Null) => true,
        (Value::Bool(x), Value::Bool(y)) => x == y,
        (Value::Number(x), Value::Number(y)) => x == y,
        (Value::String(x), Value::String(y)) => x == y,
        (Value::Sequence(x), Value::Sequence(y)) => {
            x.len() == y.len() && x.iter().zip(y.iter()).all(|(u, v)| veq(u, v))
        }
        (Value::Mapping(x), Value::Mapping(y)) => {
            x.entries.len() == y.entries.len()
                && x.entries
                    .iter()
                    .zip(y.entries.iter())
                    .all(|(u, v)| u.0 == v.0 && veq(&u.1, &v.1))
        }
        (Value::Tagged(x), Value::Tagged(y)) => x.tag == y.tag && veq(&x.value, &y.value),
        _ => false,
    }
}

fn merged(l: Value, r: Value) -> Value {
    match l.merge_right(r) {
        Valid::Success(v) => v,
        Valid::Failure(e) => panic!("unexpected merge failure: {:?}", e),
    }
}

#[test]
fn scalar_left_is_overridden_by_any_right() {
    assert!(veq(&merged(Value::Null, Value::Bool(true)), &Value::Bool(true)));
    assert!(veq(&merged(Value::Bool(false), num(3)), &num(3)));
    assert!(veq(&merged(num(7), Value::String(s("x"))), &Value::String(s("x"))));
    assert!(veq(&merged(Value::String(s("a")), Value::Null), &Value::Null));
    assert!(veq(
        &merged(num(1), mapping(vec![("k", num(2))])),
        &mapping(vec![("k", num(2))])
    ));
    assert!(veq(
        &merged(Value::Null, tagged("t", num(1))),
        &tagged("t", num(1))
    ));
}

#[test]
fn sequences_concatenate_in_order() {
    let l = Value::Sequence(vec![num(1), num(2)]);
    let r = Value::Sequence(vec![num(3)]);
    let expect = Value::Sequence(vec![num(1), num(2), num(3)]);
    assert!(veq(&merged(l, r), &expect));
}

#[test]
fn sequence_absorbs_non_sequence_as_trailing_element() {
    let l = Value::Sequence(vec![num(1)]);
    let expect = Value::Sequence(vec![num(1), Value::Bool(true)]);
    assert!(veq(&merged(l, Value::Bool(true)), &expect));
}

#[test]
fn mapping_union_with_disjoint_keys_keeps_both() {
    let l = mapping(vec![("x", num(1))]);
    let r = mapping(vec![("y", num(2))]);
    let expect = mapping(vec![("x", num(1)), ("y", num(2))]);
    assert!(veq(&merged(l, r), &expect));
}

#[test]
fn mapping_shared_key_merges_recursively() {
    let l = mapping(vec![("x", Value::Sequence(vec![num(1)]))]);
    let r = mapping(vec![("x", Value::Sequence(vec![num(2)]))]);
    let expect = mapping(vec![("x", Value::Sequence(vec![num(1), num(2)]))]);
    assert!(veq(&merged(l, r), &expect));
}

#[test]
fn mapping_two_shared_keys_both_merge_cleanly() {
    let l = mapping(vec![
        ("a", Value::Sequence(vec![num(1)])),
        ("b", mapping(vec![("inner", num(1))])),
    ]);
    let r = mapping(vec![
        ("a", Value::Sequence(vec![num(2)])),
        ("b", mapping(vec![("other", num(2))])),
    ]);
    let expect = mapping(vec![
        ("a", Value::Sequence(vec![num(1), num(2)])),
        ("b", mapping(vec![("inner", num(1)), ("other", num(2))])),
    ]);
    assert!(veq(&merged(l, r), &expect));
}

#[test]
fn mapping_keeps_left_slots_and_appends_right_only_keys() {
    let l = mapping(vec![("a", num(1)), ("b", num(2))]);
    let r = mapping(vec![("b", num(9)), ("c", num(3))]);
    let expect = mapping(vec![("a", num(1)), ("b", num(9)), ("c", num(3))]);
    assert!(veq(&merged(l, r), &expect));
}

#[test]
fn mapping_merged_into_right_sequence_becomes_trailing_element() {
    let l = mapping(vec![("x", num(1))]);
    let r = Value::Sequence(vec![num(7)]);
    let expect = Value::Sequence(vec![num(7), mapping(vec![("x", num(1))])]);
    assert!(veq(&merged(l, r), &expect));
}

#[test]
fn scalar_right_replaces_whole_mapping() {
    let l = mapping(vec![("x", num(1))]);
    assert!(veq(&merged(l, Value::Bool(true)), &Value::Bool(true)));
}

#[test]
fn tagged_values_with_same_tag_merge_contents() {
    let l = tagged("T", mapping(vec![("x", num(1))]));
    let r = tagged("T", mapping(vec![("y", num(2))]));
    let expect = tagged("T", mapping(vec![("x", num(1)), ("y", num(2))]));
    assert!(veq(&merged(l, r), &expect));
}

#[test]
fn tagged_values_with_different_tags_take_right_whole() {
    let l = tagged("A", num(1));
    let r = tagged("B", num(2));
    assert!(veq(&merged(l, r), &tagged("B", num(2))));
}

#[test]
fn tagged_left_replaced_by_untagged_right() {
    let l = tagged("A", num(1));
    assert!(veq(&merged(l, Value::Bool(false)), &Value::Bool(false)));
}

#[test]
fn merging_with_empty_mapping_changes_nothing() {
    let l = mapping(vec![("x", num(1))]);
    let expect = mapping(vec![("x", num(1))]);
    assert!(veq(&merged(l, mapping(vec![])), &expect));
}

#[test]
fn merging_with_empty_sequence_changes_nothing() {
    let l = Value::Sequence(vec![num(1), num(2)]);
    let expect = Value::Sequence(vec![num(1), num(2)]);
    assert!(veq(&merged(l, Value::Sequence(vec![])), &expect));
}

#[test]
fn deep_nested_mapping_merge() {
    let l = mapping(vec![("outer", mapping(vec![("keep", num(1)), ("list", Value::Sequence(vec![num(1)]))]))]);
    let r = mapping(vec![("outer", mapping(vec![("list", Value::Sequence(vec![num(2)])), ("new", num(3))]))]);
    let expect = mapping(vec![(
        "outer",
        mapping(vec![
            ("keep", num(1)),
            ("list", Value::Sequence(vec![num(1), num(2)])),
            ("new", num(3)),
        ]),
    )]);
    assert!(veq(&merged(l, r), &expect));
}
