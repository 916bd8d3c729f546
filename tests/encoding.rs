use cozo::error::CozoError;
use cozo::tuple::{DataKind, Tuple};
use cozo::value::{Op, Value};

fn round_trip(t: &Tuple) {
    let bytes = t.encode();
    let back = Tuple::decode(&bytes).unwrap();
    assert_eq!(&back, t);
}

#[test]
fn every_variant_round_trips() {
    let mut t = Tuple::with_data_prefix(DataKind::Value);
    t.push_null();
    t.push_bool(true);
    t.push_uint(u64::MAX);
    t.push_int(i64::MIN);
    t.push_int(-1);
    t.push_value(&Value::Uuid(0x0123_4567_89ab_cdef_0123_4567_89ab_cdef));
    t.push_str("héllo ✓".to_string());
    t.push_value(&Value::List(vec![Value::Int(1), Value::List(vec![]), Value::Null]));
    t.push_value(&Value::Dict(vec![
        ("".to_string(), Value::Bool(false)),
        ("k".to_string(), Value::Text("v".to_string())),
    ]));
    t.push_value(&Value::Variable("x".to_string()));
    t.push_value(&Value::Apply(Op::Coalesce, vec![Value::Variable("y".to_string()), Value::Int(2)]));
    t.push_value(&Value::EndSentinel);
    round_trip(&t);
}

#[test]
fn key_tuple_round_trips() {
    let mut t = Tuple::with_null_prefix();
    t.push_str("name".to_string());
    t.push_int(-3);
    round_trip(&t);
    round_trip(&Tuple::with_null_prefix());
}

#[test]
fn exact_bytes() {
    let mut t = Tuple::with_null_prefix();
    t.push_int(-1);
    t.push_str("a".to_string());
    assert_eq!(
        t.encode(),
        vec![0, 4, 0x7f, 0xff, 0xff, 0xff, 0xff, 0xff, 0xff, 0xff, 6, 1, 0, 0, 0, 0x61, 0]
    );
    let mut d = Tuple::with_data_prefix(DataKind::Edge);
    d.push_uint(258);
    assert_eq!(d.encode(), vec![3, 3, 0, 0, 0, 0, 0, 0, 1, 2]);
}

#[test]
fn bad_bytes_are_rejected() {
    assert_eq!(Tuple::decode(&vec![]), Err(CozoError::BadDataFormat));
    assert_eq!(Tuple::decode(&vec![9]), Err(CozoError::BadDataFormat));
    assert_eq!(Tuple::decode(&vec![0, 3, 1]), Err(CozoError::BadDataFormat));
    assert_eq!(Tuple::decode(&vec![0, 6, 1, 0, 0, 0xd8, 0, 0]), Err(CozoError::BadDataFormat));
    assert_eq!(Tuple::decode(&vec![0, 7, 1]), Err(CozoError::BadDataFormat));
}

fn key(vals: Vec<Value>) -> Vec<u8> {
    let mut t = Tuple::with_null_prefix();
    for v in vals.iter() {
        t.push_value(v);
    }
    t.encode()
}

#[test]
fn byte_order_follows_element_order() {
    let name = || Value::Text("x".to_string());
    assert!(key(vec![name(), Value::Int(-5)]) < key(vec![name(), Value::Int(-1)]));
    assert!(key(vec![name(), Value::Int(-1), Value::Int(9)]) < key(vec![name(), Value::Int(0)]));
    assert!(key(vec![name(), Value::Int(i64::MAX)]) > key(vec![name(), Value::Int(0)]));
    assert!(key(vec![Value::UInt(255)]) < key(vec![Value::UInt(256)]));
    assert!(key(vec![Value::Text("a".to_string())]) < key(vec![Value::Text("ab".to_string())]));
    assert!(key(vec![Value::Text("ab".to_string())]) < key(vec![Value::Text("b".to_string())]));
    assert!(key(vec![Value::Bool(false)]) < key(vec![Value::Bool(true)]));
    assert!(key(vec![Value::Null]) < key(vec![Value::Bool(false)]));
}

#[test]
fn unordered_dictionary_keys_are_rejected() {
    let mut good = Tuple::with_data_prefix(DataKind::Value);
    good.push_value(&Value::Dict(vec![
        ("a".to_string(), Value::Null),
        ("b".to_string(), Value::Null),
    ]));
    assert_eq!(Tuple::decode(&good.encode()), Ok(good));
    let mut swapped = Tuple::with_data_prefix(DataKind::Value);
    swapped.push_value(&Value::Dict(vec![
        ("b".to_string(), Value::Null),
        ("a".to_string(), Value::Null),
    ]));
    assert_eq!(Tuple::decode(&swapped.encode()), Err(CozoError::BadDataFormat));
    let mut repeated = Tuple::with_null_prefix();
    repeated.push_value(&Value::List(vec![Value::Dict(vec![
        ("k".to_string(), Value::Null),
        ("k".to_string(), Value::Int(1)),
    ])]));
    assert_eq!(Tuple::decode(&repeated.encode()), Err(CozoError::BadDataFormat));
}

#[test]
fn key_order_check() {
    let ordered = Value::Dict(vec![("a".to_string(), Value::Null), ("ab".to_string(), Value::Null)]);
    assert!(ordered.is_well_formed());
    let nested = Value::Apply(Op::Coalesce, vec![Value::Dict(vec![
        ("z".to_string(), Value::Null),
        ("y".to_string(), Value::Null),
    ])]);
    assert!(!nested.is_well_formed());
    assert!(cozo::value::text_less(&"a".to_string(), &"b".to_string()));
    assert!(!cozo::value::text_less(&"b".to_string(), &"b".to_string()));
}
