use cozo::env::{Environment, MemoryEnv};
use cozo::error::CozoError;
use cozo::tuple::{DataKind, Prefix, Tuple};
use cozo::value::Value;

fn int_tuple(i: i64) -> Tuple {
    let mut t = Tuple::with_data_prefix(DataKind::Value);
    t.push_int(i);
    t
}

#[test]
fn local_binding_does_not_leak() {
    let mut env = MemoryEnv::default();
    env.define_data("y", int_tuple(1), true).unwrap();
    env.push_env();
    env.define_data("x", int_tuple(2), false).unwrap();
    assert_eq!(env.resolve("x").unwrap(), Some(int_tuple(2)));
    env.pop_env().unwrap();
    assert_eq!(env.resolve("x").unwrap(), None);
    assert_eq!(env.resolve("y").unwrap(), Some(int_tuple(1)));
}

#[test]
fn root_binding_survives_scope() {
    let mut env = MemoryEnv::default();
    env.define_data("x", int_tuple(1), true).unwrap();
    env.push_env();
    env.define_data("x", int_tuple(2), false).unwrap();
    env.pop_env().unwrap();
    assert_eq!(env.resolve("x").unwrap(), Some(int_tuple(1)));
}

#[test]
fn inner_binding_shadows_outer() {
    let mut env = MemoryEnv::default();
    env.define_data("x", int_tuple(1), false).unwrap();
    env.push_env();
    env.define_data("x", int_tuple(2), false).unwrap();
    assert_eq!(env.resolve("x").unwrap(), Some(int_tuple(2)));
    env.pop_env().unwrap();
    assert_eq!(env.resolve("x").unwrap(), Some(int_tuple(1)));
}

#[test]
fn local_binding_shadows_root() {
    let mut env = MemoryEnv::default();
    env.define_data("x", int_tuple(1), true).unwrap();
    env.define_data("x", int_tuple(2), false).unwrap();
    assert_eq!(env.resolve("x").unwrap(), Some(int_tuple(2)));
}

#[test]
fn redefinition_replaces() {
    let mut env = MemoryEnv::default();
    env.define_data("x", int_tuple(1), true).unwrap();
    env.define_data("x", int_tuple(5), true).unwrap();
    assert_eq!(env.resolve("x").unwrap(), Some(int_tuple(5)));
    env.delete_defined("x", true).unwrap();
    assert_eq!(env.resolve("x").unwrap(), None);
}

#[test]
fn delete_local_leaves_root() {
    let mut env = MemoryEnv::default();
    env.define_data("x", int_tuple(1), true).unwrap();
    env.define_data("x", int_tuple(2), false).unwrap();
    env.delete_defined("x", false).unwrap();
    assert_eq!(env.resolve("x").unwrap(), Some(int_tuple(1)));
}

#[test]
fn stack_depth_follows_scopes() {
    let mut env = MemoryEnv::new();
    assert_eq!(env.get_stack_depth(), -1);
    env.push_env();
    env.push_env();
    assert_eq!(env.get_stack_depth(), -3);
    env.pop_env().unwrap();
    assert_eq!(env.get_stack_depth(), -2);
    env.pop_env().unwrap();
    env.pop_env().unwrap();
    env.pop_env().unwrap();
    assert_eq!(env.get_stack_depth(), -1);
}

#[test]
fn pop_past_outermost_scope_keeps_bindings() {
    let mut env = MemoryEnv::default();
    env.define_data("x", int_tuple(3), false).unwrap();
    assert_eq!(env.pop_env(), Ok(()));
    assert_eq!(env.resolve("x").unwrap(), Some(int_tuple(3)));
}

#[test]
fn storage_ids_count_up_per_scope() {
    let mut env = MemoryEnv::default();
    assert_eq!(env.get_next_storage_id(true), Ok(1));
    assert_eq!(env.get_next_storage_id(true), Ok(2));
    assert_eq!(env.get_next_storage_id(false), Ok(1));
    assert_eq!(env.get_next_storage_id(true), Ok(3));
    assert_eq!(env.get_next_storage_id(false), Ok(2));
    let _: Result<u32, CozoError> = env.get_next_storage_id(false);
}

#[test]
fn definable_key_layout() {
    let mut env = MemoryEnv::default();
    env.push_env();
    let k = env.encode_definable_key("abc", false);
    assert_eq!(k.prefix, Prefix::Null);
    assert_eq!(k.elems, vec![Value::Text("abc".to_string()), Value::Int(-2)]);
    let r = env.encode_definable_key("abc", true);
    assert_eq!(r.elems, vec![Value::Text("abc".to_string()), Value::Int(0)]);
}

#[test]
fn define_variable_binds_value_tuple() {
    let mut env = MemoryEnv::default();
    env.define_variable("v", &Value::UInt(9), true).unwrap();
    let t = env.resolve("v").unwrap().unwrap();
    assert_eq!(t.prefix, Prefix::Data(DataKind::Value));
    assert_eq!(t.elems, vec![Value::UInt(9)]);
}

#[test]
fn local_delete_reaches_enclosing_scope() {
    let mut env = MemoryEnv::default();
    env.define_data("x", int_tuple(1), false).unwrap();
    env.push_env();
    env.delete_defined("x", false).unwrap();
    assert_eq!(env.resolve("x").unwrap(), None);
}

#[test]
fn local_delete_takes_innermost_binding_only() {
    let mut env = MemoryEnv::default();
    env.define_data("x", int_tuple(1), false).unwrap();
    env.push_env();
    env.define_data("x", int_tuple(2), false).unwrap();
    env.push_env();
    env.delete_defined("x", false).unwrap();
    assert_eq!(env.resolve("x").unwrap(), Some(int_tuple(1)));
    env.delete_defined("missing", false).unwrap();
    assert_eq!(env.resolve("x").unwrap(), Some(int_tuple(1)));
}
