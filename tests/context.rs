use std::cell::Cell;

use sycamore_context::context::{
    find_context, has_context_here, provide_context, provide_context_in_new_scope,
    try_use_context, use_context, use_context_or_else, use_scope_depth,
};
use sycamore_context::scope::Root;

const INT: u64 = 1;
const TEXT: u64 = 2;

#[derive(Clone, Debug, PartialEq)]
enum Value {
    Int(i32),
    Text(String),
}

#[test]
fn cleanup_resets_context() {
    let mut root: Root<Value> = Root::new();
    root.create_child_scope();
    let memo = root.current_node;
    assert!(try_use_context(&root, INT).is_none());
    provide_context(&mut root, INT, Value::Int(123));
    // the trigger fires: the memo's scope is cleaned up and its body runs again
    root.clear_context(memo);
    root.set_current(memo);
    assert!(try_use_context(&root, INT).is_none());
    provide_context(&mut root, INT, Value::Int(123));
    assert_eq!(try_use_context(&root, INT), Some(Value::Int(123)));
}

#[test]
fn child_shadows_root_and_root_value_returns() {
    let mut root: Root<Value> = Root::new();
    provide_context(&mut root, INT, Value::Int(123));
    assert_eq!(use_context(&root, INT), Value::Int(123));
    let inner = provide_context_in_new_scope(&mut root, INT, Value::Int(456), |r: Root<Value>| {
        let seen = try_use_context(&r, INT);
        let text = try_use_context(&r, TEXT);
        (r, (seen, text))
    });
    assert_eq!(inner, (Some(Value::Int(456)), None));
    assert_eq!(try_use_context(&root, INT), Some(Value::Int(123)));
    assert_eq!(try_use_context(&root, TEXT), None);
}

#[test]
fn child_scope_provides_then_parent_sees_its_own() {
    let mut root: Root<Value> = Root::new();
    provide_context(&mut root, INT, Value::Int(123));
    let prev = root.create_child_scope();
    provide_context(&mut root, INT, Value::Int(456));
    assert_eq!(try_use_context(&root, INT), Some(Value::Int(456)));
    root.set_current(prev);
    assert_eq!(try_use_context(&root, INT), Some(Value::Int(123)));
}

#[test]
fn provided_value_visible_from_descendants() {
    let mut root: Root<Value> = Root::new();
    provide_context(&mut root, TEXT, Value::Text("theme".to_string()));
    root.create_child_scope();
    root.create_child_scope();
    assert_eq!(use_context(&root, TEXT), Value::Text("theme".to_string()));
    assert_eq!(find_context(&root, TEXT), Some(&Value::Text("theme".to_string())));
    assert_eq!(find_context(&root, INT), None);
}

#[test]
fn shadowing_applies_only_below_the_shadowing_scope() {
    let mut root: Root<Value> = Root::new();
    provide_context(&mut root, INT, Value::Int(1));
    let top = root.current_node;
    root.create_child_scope();
    let middle = root.current_node;
    provide_context(&mut root, INT, Value::Int(2));
    root.create_child_scope();
    assert_eq!(try_use_context(&root, INT), Some(Value::Int(2)));
    root.set_current(middle);
    assert_eq!(try_use_context(&root, INT), Some(Value::Int(2)));
    root.set_current(top);
    root.create_child_scope();
    assert_eq!(try_use_context(&root, INT), Some(Value::Int(1)));
}

#[test]
fn new_scope_value_gone_after_return() {
    let mut root: Root<Value> = Root::new();
    let depth = provide_context_in_new_scope(&mut root, TEXT, Value::Text("x".to_string()), |r: Root<Value>| {
        let d = use_scope_depth(&r);
        (r, d)
    });
    assert_eq!(depth, 2);
    assert_eq!(try_use_context(&root, TEXT), None);
    assert_eq!(use_scope_depth(&root), 1);
}

#[test]
fn new_scope_never_meets_a_duplicate() {
    let mut root: Root<Value> = Root::new();
    provide_context(&mut root, INT, Value::Int(7));
    let r = provide_context_in_new_scope(&mut root, INT, Value::Int(8), |mut r: Root<Value>| {
        let inner = provide_context_in_new_scope(&mut r, INT, Value::Int(9), |r2: Root<Value>| {
            let v = use_context(&r2, INT);
            (r2, v)
        });
        (r, inner)
    });
    assert_eq!(r, Value::Int(9));
    assert_eq!(use_context(&root, INT), Value::Int(7));
}

#[test]
fn duplicate_is_detected_per_scope() {
    let mut root: Root<Value> = Root::new();
    assert!(!has_context_here(&root, INT));
    provide_context(&mut root, INT, Value::Int(1));
    assert!(has_context_here(&root, INT));
    assert!(!has_context_here(&root, TEXT));
    root.create_child_scope();
    assert!(!has_context_here(&root, INT));
    provide_context(&mut root, INT, Value::Int(2));
    assert!(has_context_here(&root, INT));
}

#[test]
fn or_else_calls_fallback_once_and_seeds_current_scope() {
    let calls = Cell::new(0u32);
    let mut root: Root<Value> = Root::new();
    root.create_child_scope();
    let first = use_context_or_else(&mut root, INT, || {
        calls.set(calls.get() + 1);
        Value::Int(5)
    });
    let second = use_context_or_else(&mut root, INT, || {
        calls.set(calls.get() + 1);
        Value::Int(6)
    });
    assert_eq!(first, Value::Int(5));
    assert_eq!(second, Value::Int(5));
    assert_eq!(calls.get(), 1);
    assert!(has_context_here(&root, INT));
    root.set_current(0);
    assert_eq!(try_use_context(&root, INT), None);
}

#[test]
fn or_else_returns_found_value_without_fallback() {
    let calls = Cell::new(0u32);
    let mut root: Root<Value> = Root::new();
    provide_context(&mut root, INT, Value::Int(3));
    root.create_child_scope();
    let v = use_context_or_else(&mut root, INT, || {
        calls.set(calls.get() + 1);
        Value::Int(4)
    });
    assert_eq!(v, Value::Int(3));
    assert_eq!(calls.get(), 0);
    assert!(!has_context_here(&root, INT));
}

#[test]
fn scope_depth_counts_root_as_one() {
    let mut root: Root<Value> = Root::new();
    assert_eq!(use_scope_depth(&root), 1);
    root.create_child_scope();
    assert_eq!(use_scope_depth(&root), 2);
    let prev = root.create_child_scope();
    assert_eq!(use_scope_depth(&root), 3);
    root.set_current(prev);
    assert_eq!(use_scope_depth(&root), 2);
}
