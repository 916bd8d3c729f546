use cozo::tuple::{DataKind, Prefix, Tuple};
use cozo::value::{Op, Value};

#[test]
fn starts_with_whole_elements() {
    let mut t = Tuple::with_null_prefix();
    t.push_str("abc".to_string());
    t.push_int(-1);
    let mut p = Tuple::with_null_prefix();
    p.push_str("abc".to_string());
    assert!(t.starts_with(&p));
    assert!(t.starts_with(&Tuple::with_null_prefix()));
    let mut q = Tuple::with_null_prefix();
    q.push_str("ab".to_string());
    assert!(!t.starts_with(&q));
    let mut d = Tuple::with_data_prefix(DataKind::Value);
    d.push_str("abc".to_string());
    assert!(!t.starts_with(&d));
    assert!(!p.starts_with(&t));
}

#[test]
fn concat_keeps_tag_and_order() {
    let mut head = Tuple::with_data_prefix(DataKind::Node);
    head.push_bool(true);
    head.push_uint(4);
    let mut body = Tuple::with_data_prefix(DataKind::Edge);
    body.push_null();
    body.push_str("x".to_string());
    head.concat_data(&body);
    assert_eq!(head.get_prefix(), Prefix::Data(DataKind::Node));
    assert_eq!(head.len(), 4);
    assert_eq!(
        head.elems,
        vec![Value::Bool(true), Value::UInt(4), Value::Null, Value::Text("x".to_string())]
    );
    assert_eq!(head.get(3), Some(Value::Text("x".to_string())));
    assert_eq!(head.get(4), None);
}

#[test]
fn deep_equality_and_evaluation_flag() {
    let a = Value::Apply(Op::Add, vec![Value::List(vec![Value::Int(1)]), Value::Variable("v".to_string())]);
    let b = a.deep_clone();
    assert!(a.deep_eq(&b));
    assert!(!a.deep_eq(&Value::Apply(Op::Sub, vec![])));
    assert!(!a.is_evaluated());
    let d = Value::Dict(vec![("k".to_string(), Value::List(vec![Value::Null]))]);
    assert!(d.is_evaluated());
    assert!(!Value::List(vec![Value::Variable("q".to_string())]).is_evaluated());
}

#[test]
fn data_kind_of_key_is_an_error() {
    assert!(Tuple::with_null_prefix().data_kind().is_err());
    assert_eq!(Tuple::with_data_prefix(DataKind::TypeAlias).data_kind(), Ok(DataKind::TypeAlias));
}
