use cozo::env::{Environment, MemoryEnv};
use cozo::error::CozoError;
use cozo::eval::{add_values, apply_values, sub_values, PartialEvaluator};
use cozo::ops::fold_values;
use cozo::tuple::{DataKind, Tuple};
use cozo::value::{Op, Value};

fn var(s: &str) -> Value {
    Value::Variable(s.to_string())
}

fn apply(op: Op, args: Vec<Value>) -> Value {
    Value::Apply(op, args)
}

fn fold(op: Op, args: Vec<Value>) -> Result<Value, CozoError> {
    fold_values(op, &args)
}

#[test]
fn scalars_are_evaluated() {
    let env = MemoryEnv::default();
    assert_eq!(env.partial_eval(Value::Int(3)), Ok((true, Value::Int(3))));
    assert_eq!(env.partial_eval(Value::EndSentinel), Ok((true, Value::EndSentinel)));
    assert_eq!(
        env.partial_eval(Value::Text("a".to_string())),
        Ok((true, Value::Text("a".to_string())))
    );
}

#[test]
fn unbound_variable_is_kept() {
    let env = MemoryEnv::default();
    assert_eq!(env.partial_eval(var("x")), Ok((false, var("x"))));
}

#[test]
fn bound_variable_is_substituted() {
    let mut env = MemoryEnv::default();
    env.define_variable("x", &Value::Int(5), true).unwrap();
    assert_eq!(env.partial_eval(var("x")), Ok((true, Value::Int(5))));
}

#[test]
fn table_name_is_not_substituted() {
    let mut env = MemoryEnv::default();
    let mut t = Tuple::with_data_prefix(DataKind::Node);
    t.push_bool(true);
    t.push_uint(1);
    env.define_data("T", t, true).unwrap();
    assert_eq!(env.partial_eval(var("T")), Ok((false, var("T"))));
}

#[test]
fn empty_value_binding_is_corrupt() {
    let mut env = MemoryEnv::default();
    env.define_data("x", Tuple::with_data_prefix(DataKind::Value), true).unwrap();
    assert_eq!(env.partial_eval(var("x")), Err(CozoError::BadDataFormat));
}

#[test]
fn constant_folding() {
    let mut env = MemoryEnv::default();
    env.define_variable("x", &Value::Int(5), true).unwrap();
    let e = apply(Op::Add, vec![var("x"), apply(Op::Mul, vec![Value::Int(2), Value::Int(3)])]);
    assert_eq!(env.partial_eval(e), Ok((true, Value::Int(11))));
}

#[test]
fn partial_reduction_keeps_unbound_parts() {
    let env = MemoryEnv::default();
    let e = apply(Op::Add, vec![var("y"), apply(Op::Mul, vec![Value::Int(2), Value::Int(3)])]);
    assert_eq!(env.partial_eval(e), Ok((false, apply(Op::Add, vec![var("y"), Value::Int(6)]))));
}

#[test]
fn list_and_dict_reduction() {
    let mut env = MemoryEnv::default();
    env.define_variable("x", &Value::UInt(1), false).unwrap();
    let l = Value::List(vec![var("x"), var("z")]);
    assert_eq!(
        env.partial_eval(l),
        Ok((false, Value::List(vec![Value::UInt(1), var("z")])))
    );
    let d = Value::Dict(vec![("a".to_string(), var("x")), ("b".to_string(), Value::Null)]);
    assert_eq!(
        env.partial_eval(d),
        Ok((true, Value::Dict(vec![("a".to_string(), Value::UInt(1)), ("b".to_string(), Value::Null)])))
    );
}

#[test]
fn second_pass_changes_nothing() {
    let mut env = MemoryEnv::default();
    env.define_variable("x", &Value::Int(4), true).unwrap();
    let e = Value::List(vec![
        apply(Op::Sub, vec![var("x"), var("w")]),
        apply(Op::Pow, vec![var("x"), Value::Int(2)]),
        var("w"),
    ]);
    let first = env.partial_eval(e).unwrap();
    let second = env.partial_eval(first.1.deep_clone()).unwrap();
    assert_eq!(first, second);
    assert_eq!(
        first.1,
        Value::List(vec![
            apply(Op::Sub, vec![Value::Int(4), var("w")]),
            Value::Int(16),
            var("w"),
        ])
    );
}

#[test]
fn evaluation_error_is_reported() {
    let env = MemoryEnv::default();
    let e = apply(Op::Div, vec![Value::Int(1), Value::Int(0)]);
    assert_eq!(env.partial_eval(e), Err(CozoError::DivisionByZero(Op::Div)));
}

#[test]
fn add_and_sub_values() {
    assert_eq!(add_values(vec![Value::Int(2), Value::UInt(3)]), Ok((true, Value::Int(5))));
    assert_eq!(add_values(vec![Value::UInt(2), Value::UInt(3)]), Ok((true, Value::UInt(5))));
    assert_eq!(sub_values(vec![Value::Int(2), Value::Int(3)]), Ok((true, Value::Int(-1))));
    assert_eq!(
        sub_values(vec![Value::UInt(2), Value::UInt(3)]),
        Err(CozoError::ArithmeticOverflow(Op::Sub))
    );
    assert_eq!(
        add_values(vec![var("a"), Value::Int(1)]),
        Ok((false, apply(Op::Add, vec![var("a"), Value::Int(1)])))
    );
    assert_eq!(
        apply_values(Op::Mul, vec![Value::Int(-3), Value::Int(4)]),
        Ok((true, Value::Int(-12)))
    );
}

#[test]
fn arithmetic_results() {
    assert_eq!(fold(Op::Div, vec![Value::Int(7), Value::Int(-2)]), Ok(Value::Int(-3)));
    assert_eq!(fold(Op::Mod, vec![Value::Int(7), Value::Int(-2)]), Ok(Value::Int(1)));
    assert_eq!(fold(Op::Mod, vec![Value::Int(-7), Value::Int(2)]), Ok(Value::Int(-1)));
    assert_eq!(fold(Op::Pow, vec![Value::Int(2), Value::Int(10)]), Ok(Value::Int(1024)));
    assert_eq!(fold(Op::Pow, vec![Value::Int(-1), Value::UInt(u64::MAX)]), Ok(Value::Int(-1)));
    assert_eq!(fold(Op::Pow, vec![Value::UInt(0), Value::UInt(0)]), Ok(Value::UInt(1)));
    assert_eq!(
        fold(Op::Pow, vec![Value::Int(2), Value::Int(64)]),
        Err(CozoError::ArithmeticOverflow(Op::Pow))
    );
    assert_eq!(
        fold(Op::Pow, vec![Value::UInt(2), Value::UInt(64)]),
        Err(CozoError::ArithmeticOverflow(Op::Pow))
    );
    assert_eq!(fold(Op::Pow, vec![Value::UInt(2), Value::UInt(63)]), Ok(Value::UInt(1 << 63)));
    assert_eq!(fold(Op::Pow, vec![Value::Int(-2), Value::Int(63)]), Ok(Value::Int(i64::MIN)));
    assert_eq!(
        fold(Op::Pow, vec![Value::Int(2), Value::Int(-1)]),
        Err(CozoError::TypeMismatch(Op::Pow))
    );
    assert_eq!(
        fold(Op::Mul, vec![Value::UInt(u64::MAX), Value::UInt(2)]),
        Err(CozoError::ArithmeticOverflow(Op::Mul))
    );
    assert_eq!(
        fold(Op::Mul, vec![Value::Int(i64::MIN), Value::UInt(u64::MAX)]),
        Err(CozoError::ArithmeticOverflow(Op::Mul))
    );
    assert_eq!(fold(Op::Minus, vec![Value::UInt(5)]), Ok(Value::Int(-5)));
    assert_eq!(
        fold(Op::Minus, vec![Value::Int(i64::MIN)]),
        Err(CozoError::ArithmeticOverflow(Op::Minus))
    );
    assert_eq!(
        fold(Op::Mod, vec![Value::Int(1), Value::Int(0)]),
        Err(CozoError::DivisionByZero(Op::Mod))
    );
}

#[test]
fn comparisons_and_logic() {
    assert_eq!(fold(Op::Gt, vec![Value::Int(-1), Value::UInt(0)]), Ok(Value::Bool(false)));
    assert_eq!(fold(Op::Le, vec![Value::UInt(3), Value::Int(3)]), Ok(Value::Bool(true)));
    assert_eq!(fold(Op::Eq, vec![Value::UInt(3), Value::Int(3)]), Ok(Value::Bool(true)));
    assert_eq!(
        fold(Op::Ne, vec![Value::Text("a".to_string()), Value::Int(3)]),
        Ok(Value::Bool(true))
    );
    assert_eq!(
        fold(Op::Eq, vec![Value::List(vec![]), Value::Int(3)]),
        Err(CozoError::TypeMismatch(Op::Eq))
    );
    assert_eq!(fold(Op::Or, vec![Value::Bool(false), Value::Bool(true)]), Ok(Value::Bool(true)));
    assert_eq!(fold(Op::And, vec![Value::Bool(false), Value::Bool(true)]), Ok(Value::Bool(false)));
    assert_eq!(
        fold(Op::And, vec![Value::Int(1), Value::Bool(true)]),
        Err(CozoError::TypeMismatch(Op::And))
    );
    assert_eq!(fold(Op::Negate, vec![Value::Bool(false)]), Ok(Value::Bool(true)));
    assert_eq!(
        fold(Op::Negate, vec![Value::Bool(false), Value::Bool(true)]),
        Err(CozoError::ArityMismatch(Op::Negate))
    );
    assert_eq!(
        fold(Op::Add, vec![Value::Int(1)]),
        Err(CozoError::ArityMismatch(Op::Add))
    );
    assert_eq!(
        fold(Op::Coalesce, vec![Value::Null, Value::Int(2), Value::Int(3)]),
        Ok(Value::Int(2))
    );
    assert_eq!(fold(Op::Coalesce, vec![Value::Null]), Ok(Value::Null));
}
