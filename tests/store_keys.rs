use cozo::error::CozoError;
use cozo::session::{
    binding_depth, encode_binding_key, encode_counter_key, encode_scope_index_key,
    next_storage_id, scope_entry_to_remove,
};
use cozo::tuple::Tuple;
use cozo::value::Value;

#[test]
fn counter_starts_at_one_and_counts_up() {
    let (id, bytes) = next_storage_id(None).unwrap();
    assert_eq!(id, 1);
    let (id2, bytes2) = next_storage_id(Some(bytes)).unwrap();
    assert_eq!(id2, 2);
    let t = Tuple::decode(&bytes2).unwrap();
    assert_eq!(t.elems, vec![Value::UInt(2)]);
}

#[test]
fn corrupt_counter_is_reported() {
    assert_eq!(next_storage_id(Some(vec![0, 4])), Err(CozoError::BadDataFormat));
    let mut t = Tuple::with_null_prefix();
    t.push_int(3);
    assert_eq!(next_storage_id(Some(t.encode())), Err(CozoError::BadDataFormat));
    let mut full = Tuple::with_null_prefix();
    full.push_uint(u32::MAX as u64);
    assert_eq!(next_storage_id(Some(full.encode())), Err(CozoError::StorageIdExhausted));
}

#[test]
fn innermost_binding_key_sorts_first() {
    let inner = encode_binding_key("x", -3);
    let outer = encode_binding_key("x", -1);
    assert!(inner < outer);
    let other = encode_binding_key("y", -9);
    assert!(outer < other);
}

#[test]
fn scope_index_entries_are_found_and_stop_the_scan() {
    let idx = encode_scope_index_key(-2, "x");
    let (a, b) = scope_entry_to_remove(&idx, -2).unwrap();
    assert_eq!(a, idx);
    assert_eq!(b, encode_binding_key("x", -2));
    assert_eq!(scope_entry_to_remove(&encode_scope_index_key(-1, "x"), -2), None);
    assert_eq!(scope_entry_to_remove(&encode_binding_key("x", -2), -2), None);
    assert_eq!(scope_entry_to_remove(&encode_counter_key(), -2), None);
    assert!(encode_scope_index_key(-2, "zz") < encode_scope_index_key(-1, "a"));
}

#[test]
fn seek_result_is_checked_against_the_name() {
    assert_eq!(binding_depth(&encode_binding_key("x", -4), "x"), Some(-4));
    assert_eq!(binding_depth(&encode_binding_key("xy", -4), "x"), None);
    assert_eq!(binding_depth(&encode_scope_index_key(-4, "x"), "x"), None);
    assert_eq!(binding_depth(&vec![7], "x"), None);
}

#[test]
fn depth_steps() {
    assert_eq!(cozo::session::depth_after_pop(-3), -2);
    assert_eq!(cozo::session::depth_after_pop(0), 0);
    assert_eq!(cozo::session::depth_after_push(0), -1);
    assert_eq!(cozo::session::depth_after_push(-4), -5);
}
