use vstd::prelude::*;
use crate::error::{CozoError, ErrV};
use crate::value::{lemma_values_view, values_view, Op, Value, ValueV};

verus! {

/// The number a value stands for, if it is an integer of either sign.
pub open spec fn num(v: ValueV) -> Option<int> {
    match v {
        ValueV::Int(i) => Some(i as int),
        ValueV::UInt(u) => Some(u as int),
        _ => None,
    }
}

pub open spec fn abs(a: int) -> int {
    if a < 0 {
        -a
    } else {
        a
    }
}

/// Division rounding toward zero.
pub open spec fn trunc_div(a: int, b: int) -> int {
    let q = abs(a) / abs(b);
    if (a < 0) == (b < 0) {
        q
    } else {
        -q
    }
}

/// Remainder of `trunc_div`: it has the sign of the dividend.
pub open spec fn trunc_rem(a: int, b: int) -> int {
    let m = abs(a) % abs(b);
    if a < 0 {
        -m
    } else {
        m
    }
}

pub open spec fn int_pow(a: int, n: nat) -> int
    decreases n,
{
    if n == 0 {
        1
    } else {
        a * int_pow(a, (n - 1) as nat)
    }
}

/// An integer result, as an unsigned integer when both operands were, else as a signed one.
pub open spec fn typed_result(op: Op, unsigned: bool, x: int) -> Result<ValueV, ErrV> {
    if unsigned {
        if 0 <= x <= u64::MAX {
            Ok(ValueV::UInt(x as u64))
        } else {
            Err(ErrV::ArithmeticOverflow(op))
        }
    } else {
        if i64::MIN <= x <= i64::MAX {
            Ok(ValueV::Int(x as i64))
        } else {
            Err(ErrV::ArithmeticOverflow(op))
        }
    }
}

/// The integer that an arithmetic operator gives on two integers.
pub open spec fn arith(op: Op, a: int, b: int) -> Result<int, ErrV> {
    match op {
        Op::Add => Ok(a + b),
        Op::Sub => Ok(a - b),
        Op::Mul => Ok(a * b),
        Op::Div => if b == 0 {
            Err(ErrV::DivisionByZero(op))
        } else {
            Ok(trunc_div(a, b))
        },
        Op::Mod => if b == 0 {
            Err(ErrV::DivisionByZero(op))
        } else {
            Ok(trunc_rem(a, b))
        },
        _ => if b < 0 {
            Err(ErrV::TypeMismatch(op))
        } else {
            Ok(int_pow(a, b as nat))
        },
    }
}

/// Whether two scalars are equal: integers by number, other scalars of one
/// kind by content, scalars of different kinds never; anything else has no answer.
pub open spec fn scalar_eq(a: ValueV, b: ValueV) -> Option<bool> {
    if num(a) is Some && num(b) is Some {
        Some(num(a) == num(b))
    } else {
        match (a, b) {
            (ValueV::Null, ValueV::Null) => Some(true),
            (ValueV::Bool(x), ValueV::Bool(y)) => Some(x == y),
            (ValueV::Text(x), ValueV::Text(y)) => Some(x == y),
            (ValueV::Uuid(x), ValueV::Uuid(y)) => Some(x == y),
            _ => if is_scalar(a) && is_scalar(b) {
                Some(false)
            } else {
                None
            },
        }
    }
}

pub open spec fn is_scalar(v: ValueV) -> bool {
    v is Null || v is Bool || v is Int || v is UInt || v is Text || v is Uuid
}

/// The first argument that is not null, or null.
pub open spec fn first_non_null(s: Seq<ValueV>) -> ValueV
    decreases s.len(),
{
    if s.len() == 0 {
        ValueV::Null
    } else if s[0] is Null {
        first_non_null(s.subrange(1, s.len() as int))
    } else {
        s[0]
    }
}

pub open spec fn is_arith(op: Op) -> bool {
    op == Op::Add || op == Op::Sub || op == Op::Mul || op == Op::Div || op == Op::Mod || op
        == Op::Pow
}

pub open spec fn is_cmp(op: Op) -> bool {
    op == Op::Gt || op == Op::Ge || op == Op::Lt || op == Op::Le
}

pub open spec fn compare(op: Op, a: int, b: int) -> bool {
    match op {
        Op::Gt => a > b,
        Op::Ge => a >= b,
        Op::Lt => a < b,
        _ => a <= b,
    }
}

/// What an operator gives on fully evaluated arguments.
pub open spec fn spec_fold(op: Op, args: Seq<ValueV>) -> Result<ValueV, ErrV> {
    if op == Op::Coalesce {
        Ok(first_non_null(args))
    } else if op == Op::Negate || op == Op::Minus {
        if args.len() != 1 {
            Err(ErrV::ArityMismatch(op))
        } else if op == Op::Negate {
            match args[0] {
                ValueV::Bool(b) => Ok(ValueV::Bool(!b)),
                _ => Err(ErrV::TypeMismatch(op)),
            }
        } else {
            match num(args[0]) {
                Some(x) => typed_result(op, false, -x),
                None => Err(ErrV::TypeMismatch(op)),
            }
        }
    } else if args.len() != 2 {
        Err(ErrV::ArityMismatch(op))
    } else if is_arith(op) {
        match (num(args[0]), num(args[1])) {
            (Some(x), Some(y)) => match arith(op, x, y) {
                Ok(z) => typed_result(op, args[0] is UInt && args[1] is UInt, z),
                Err(e) => Err(e),
            },
            _ => Err(ErrV::TypeMismatch(op)),
        }
    } else if is_cmp(op) {
        match (num(args[0]), num(args[1])) {
            (Some(x), Some(y)) => Ok(ValueV::Bool(compare(op, x, y))),
            _ => Err(ErrV::TypeMismatch(op)),
        }
    } else if op == Op::Eq || op == Op::Ne {
        match scalar_eq(args[0], args[1]) {
            Some(b) => Ok(ValueV::Bool(if op == Op::Eq { b } else { !b })),
            None => Err(ErrV::TypeMismatch(op)),
        }
    } else {
        match (args[0], args[1]) {
            (ValueV::Bool(x), ValueV::Bool(y)) => Ok(
                ValueV::Bool(if op == Op::Or { x || y } else { x && y }),
            ),
            _ => Err(ErrV::TypeMismatch(op)),
        }
    }
}

pub open spec fn result_view(r: Result<Value, CozoError>) -> Result<ValueV, ErrV> {
    match r {
        Ok(v) => Ok(v@),
        Err(e) => Err(e@),
    }
}

/// The number a value stands for, if it is an integer.
fn as_num(v: &Value) -> (r: Option<i128>)
    ensures
        match r {
            Some(x) => num(v@) == Some(x as int),
            None => num(v@) is None,
        },
{
    match v {
        Value::Int(i) => Some(*i as i128),
        Value::UInt(u) => Some(*u as i128),
        _ => None,
    }
}

/// Converts an integer result to the result type.
fn make_typed(op: Op, unsigned: bool, x: i128) -> (r: Result<Value, CozoError>)
    ensures
        result_view(r) == typed_result(op, unsigned, x as int),
{
    if unsigned {
        if 0 <= x && x <= u64::MAX as i128 {
            Ok(Value::UInt(x as u64))
        } else {
            Err(CozoError::ArithmeticOverflow(op))
        }
    } else {
        if i64::MIN as i128 <= x && x <= i64::MAX as i128 {
            Ok(Value::Int(x as i64))
        } else {
            Err(CozoError::ArithmeticOverflow(op))
        }
    }
}

/// Multiplying by a factor of magnitude at least one never shrinks a power.
proof fn lemma_pow_grows(x: int, i: nat, n: nat)
    requires
        abs(x) >= 1,
        i <= n,
    ensures
        abs(int_pow(x, i)) <= abs(int_pow(x, n)),
    decreases n,
{
    if n > i {
        lemma_pow_grows(x, i, (n - 1) as nat);
        let p = int_pow(x, (n - 1) as nat);
        assert(abs(x * p) == abs(x) * abs(p)) by (nonlinear_arith);
        assert(abs(x) * abs(p) >= abs(p)) by (nonlinear_arith)
            requires
                abs(x) >= 1,
                abs(p) >= 0,
        ;
    }
}

/// Powers of 0, 1 and -1.
proof fn lemma_pow_small(x: int, n: nat)
    requires
        -1 <= x <= 1,
    ensures
        x == 0 ==> int_pow(x, n) == if n == 0 {
            1int
        } else {
            0int
        },
        x == 1 ==> int_pow(x, n) == 1,
        x == -1 ==> int_pow(x, n) == if n % 2 == 0 {
            1int
        } else {
            -1int
        },
    decreases n,
{
    if n > 0 {
        lemma_pow_small(x, (n - 1) as nat);
    }
}

/// Integer power, when the exponent is not negative and the result fits the result type.
fn pow_typed(x: i128, y: i128, unsigned: bool) -> (r: Result<Value, CozoError>)
    requires
        i64::MIN <= x <= u64::MAX,
        i64::MIN <= y <= u64::MAX,
    ensures
        result_view(r) == match arith(Op::Pow, x as int, y as int) {
            Ok(z) => typed_result(Op::Pow, unsigned, z),
            Err(e) => Err::<ValueV, ErrV>(e),
        },
{
    if y < 0 {
        return Err(CozoError::TypeMismatch(Op::Pow));
    }
    if -1 <= x && x <= 1 {
        proof {
            lemma_pow_small(x as int, y as nat);
        }
    }
    if x == 0 {
        return make_typed(Op::Pow, unsigned, if y == 0 { 1 } else { 0 });
    }
    if x == 1 {
        return make_typed(Op::Pow, unsigned, 1);
    }
    if x == -1 {
        return make_typed(Op::Pow, unsigned, if y % 2 == 0 { 1 } else { -1 });
    }
    let mag: u128 = if x < 0 { (-x) as u128 } else { x as u128 };
    let mut acc: i128 = 1;
    let mut i: i128 = 0;
    while i < y
        invariant
            0 <= i <= y,
            y <= u64::MAX,
            abs(x as int) >= 2,
            i64::MIN <= x <= u64::MAX,
            mag == abs(x as int),
            acc == int_pow(x as int, i as nat),
            abs(acc as int) <= u64::MAX,
        decreases y - i,
    {
        let acc_mag: u128 = if acc < 0 { (-acc) as u128 } else { acc as u128 };
        assert(acc_mag * mag <= u128::MAX) by (nonlinear_arith)
            requires
                acc_mag <= u64::MAX,
                mag <= u64::MAX + 1,
        ;
        let next_mag = acc_mag * mag;
        proof {
            assert(abs(x * acc) == abs(x as int) * abs(acc as int)) by (nonlinear_arith);
            assert(int_pow(x as int, (i + 1) as nat) == x * acc);
        }
        if next_mag > u64::MAX as u128 {
            proof {
                lemma_pow_grows(x as int, (i + 1) as nat, y as nat);
            }
            return Err(CozoError::ArithmeticOverflow(Op::Pow));
        }
        acc = acc * x;
        i = i + 1;
    }
    make_typed(Op::Pow, unsigned, acc)
}

/// An arithmetic operator on two integers, with its result typed.
fn arith_typed(op: Op, x: i128, y: i128, unsigned: bool) -> (r: Result<Value, CozoError>)
    requires
        i64::MIN <= x <= u64::MAX,
        i64::MIN <= y <= u64::MAX,
        is_arith(op),
    ensures
        result_view(r) == match arith(op, x as int, y as int) {
            Ok(z) => typed_result(op, unsigned, z),
            Err(e) => Err::<ValueV, ErrV>(e),
        },
{
    match op {
        Op::Add => make_typed(op, unsigned, x + y),
        Op::Sub => make_typed(op, unsigned, x - y),
        Op::Mul => {
            if x >= 0 && y >= 0 {
                let ux = x as u128;
                let uy = y as u128;
                assert(ux * uy <= u128::MAX) by (nonlinear_arith)
                    requires
                        ux <= u64::MAX,
                        uy <= u64::MAX,
                ;
                let p = ux * uy;
                if p > u64::MAX as u128 {
                    Err(CozoError::ArithmeticOverflow(op))
                } else {
                    make_typed(op, unsigned, p as i128)
                }
            } else {
                assert(-0x8000_0000_0000_0000_0000_0000_0000_0000 < x * y < 0x8000_0000_0000_0000_0000_0000_0000_0000) by (nonlinear_arith)
                    requires
                        x < 0 || y < 0,
                        i64::MIN <= x <= u64::MAX,
                        i64::MIN <= y <= u64::MAX,
                ;
                make_typed(op, unsigned, x * y)
            }
        },
        Op::Div | Op::Mod => {
            if y == 0 {
                return Err(CozoError::DivisionByZero(op));
            }
            let ax: u128 = if x < 0 { (-x) as u128 } else { x as u128 };
            let ay: u128 = if y < 0 { (-y) as u128 } else { y as u128 };
            if op == Op::Div {
                let q = (ax / ay) as i128;
                make_typed(op, unsigned, if (x < 0) == (y < 0) { q } else { -q })
            } else {
                let m = (ax % ay) as i128;
                make_typed(op, unsigned, if x < 0 { -m } else { m })
            }
        },
        _ => pow_typed(x, y, unsigned),
    }
}

/// Equality of two scalars, or `None` where one of them is not a scalar.
fn scalar_equal(a: &Value, b: &Value) -> (r: Option<bool>)
    ensures
        r == scalar_eq(a@, b@),
{
    let na = as_num(a);
    let nb = as_num(b);
    if na.is_some() && nb.is_some() {
        return Some(na.unwrap() == nb.unwrap());
    }
    match (a, b) {
        (Value::Null, Value::Null) => Some(true),
        (Value::Bool(x), Value::Bool(y)) => Some(*x == *y),
        (Value::Text(x), Value::Text(y)) => Some(*x == *y),
        (Value::Uuid(x), Value::Uuid(y)) => Some(*x == *y),
        _ => {
            let sa = match a {
                Value::Null | Value::Bool(_) | Value::Int(_) | Value::UInt(_) | Value::Text(_)
                | Value::Uuid(_) => true,
                _ => false,
            };
            let sb = match b {
                Value::Null | Value::Bool(_) | Value::Int(_) | Value::UInt(_) | Value::Text(_)
                | Value::Uuid(_) => true,
                _ => false,
            };
            if sa && sb {
                Some(false)
            } else {
                None
            }
        },
    }
}

/// The first argument that is not null, or null.
fn coalesce(args: &Vec<Value>) -> (r: Value)
    ensures
        r@ == first_non_null(values_view(args@)),
{
    proof {
        lemma_values_view(args@);
    }
    let ghost s = values_view(args@);
    assert(s.subrange(0, s.len() as int) =~= s);
    let mut i: usize = 0;
    while i < args.len()
        invariant
            0 <= i <= args@.len(),
            s.len() == args@.len(),
            s == values_view(args@),
            forall|j: int| 0 <= j < args@.len() ==> #[trigger] s[j] == args@[j]@,
            first_non_null(s) == first_non_null(s.subrange(i as int, s.len() as int)),
        decreases args@.len() - i,
    {
        let ghost rest = s.subrange(i as int, s.len() as int);
        proof {
            assert(rest.subrange(1, rest.len() as int) =~= s.subrange(i + 1, s.len() as int));
        }
        match &args[i] {
            Value::Null => {},
            v => {
                return v.deep_clone();
            },
        }
        i += 1;
    }
    Value::Null
}

/// What an operator gives on fully evaluated arguments.
pub fn fold_values(op: Op, args: &Vec<Value>) -> (r: Result<Value, CozoError>)
    ensures
        result_view(r) == spec_fold(op, values_view(args@)),
{
    proof {
        lemma_values_view(args@);
    }
    match op {
        Op::Coalesce => {
            return Ok(coalesce(args));
        },
        Op::Negate | Op::Minus => {
            if args.len() != 1 {
                return Err(CozoError::ArityMismatch(op));
            }
            if op == Op::Negate {
                return match &args[0] {
                    Value::Bool(b) => Ok(Value::Bool(!*b)),
                    _ => Err(CozoError::TypeMismatch(op)),
                };
            }
            return match as_num(&args[0]) {
                Some(x) => make_typed(op, false, -x),
                None => Err(CozoError::TypeMismatch(op)),
            };
        },
        _ => {},
    }
    if args.len() != 2 {
        return Err(CozoError::ArityMismatch(op));
    }
    let a = &args[0];
    let b = &args[1];
    match op {
        Op::Add | Op::Sub | Op::Mul | Op::Div | Op::Mod | Op::Pow => {
            match (as_num(a), as_num(b)) {
                (Some(x), Some(y)) => {
                    let unsigned = match (a, b) {
                        (Value::UInt(_), Value::UInt(_)) => true,
                        _ => false,
                    };
                    arith_typed(op, x, y, unsigned)
                },
                _ => Err(CozoError::TypeMismatch(op)),
            }
        },
        Op::Gt | Op::Ge | Op::Lt | Op::Le => {
            match (as_num(a), as_num(b)) {
                (Some(x), Some(y)) => {
                    let c = match op {
                        Op::Gt => x > y,
                        Op::Ge => x >= y,
                        Op::Lt => x < y,
                        _ => x <= y,
                    };
                    Ok(Value::Bool(c))
                },
                _ => Err(CozoError::TypeMismatch(op)),
            }
        },
        Op::Eq | Op::Ne => {
            match scalar_equal(a, b) {
                Some(e) => Ok(Value::Bool(if op == Op::Eq { e } else { !e })),
                None => Err(CozoError::TypeMismatch(op)),
            }
        },
        _ => {
            match (a, b) {
                (Value::Bool(x), Value::Bool(y)) => Ok(
                    Value::Bool(if op == Op::Or { *x || *y } else { *x && *y }),
                ),
                _ => Err(CozoError::TypeMismatch(op)),
            }
        },
    }
}

} // verus!
