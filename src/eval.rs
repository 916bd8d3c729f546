use vstd::prelude::*;
use crate::env::{spec_resolve, EnvView, Environment, MemoryEnv};
use crate::error::{CozoError, ErrV};
use crate::ops::{first_non_null, fold_values, spec_fold};
use crate::tuple::{DataKind, Prefix};
use crate::value::{
    all_entries_evaluated, all_entries_wf, all_evaluated, all_wf, lemma_all_wf,
    value_wf, entries_view, is_evaluated, lemma_all_evaluated,
    lemma_entries_view, lemma_entry_decreases, lemma_values_view,
    lemma_values_view_push, lemma_vec_elem_decreases, value_view, values_evaluated, values_view,
    Op, Value, ValueV,
};

verus! {

/// What a variable reduces to: the value it is bound to, or itself when it is
/// unbound or names a table or a type.
pub open spec fn spec_resolve_var(e: EnvView, n: Seq<char>) -> Result<(bool, ValueV), ErrV> {
    match spec_resolve(e, n) {
        None => Ok((false, ValueV::Variable(n))),
        Some(t) => if t.prefix == Prefix::Data(DataKind::Value) {
            if t.elems.len() >= 1 {
                Ok((is_evaluated(t.elems[0]), t.elems[0]))
            } else {
                Err(ErrV::BadDataFormat)
            }
        } else {
            Ok((false, ValueV::Variable(n)))
        },
    }
}

/// An operator application on reduced arguments: folded when all of them are
/// fully evaluated, kept otherwise.
pub open spec fn spec_apply(op: Op, all: bool, args: Seq<ValueV>) -> Result<(bool, ValueV), ErrV> {
    if all {
        match spec_fold(op, args) {
            Ok(z) => Ok((true, z)),
            Err(x) => Err(x),
        }
    } else {
        Ok((false, ValueV::Apply(op, args)))
    }
}

/// Partial evaluation: whether the result is fully evaluated, and the result.
pub open spec fn spec_pe(e: EnvView, v: ValueV) -> Result<(bool, ValueV), ErrV>
    decreases v, 0nat,
{
    match v {
        ValueV::List(l) => match spec_pe_seq(e, l) {
            Ok((b, r)) => Ok((b, ValueV::List(r))),
            Err(x) => Err(x),
        },
        ValueV::Dict(d) => match spec_pe_entries(e, d) {
            Ok((b, r)) => Ok((b, ValueV::Dict(r))),
            Err(x) => Err(x),
        },
        ValueV::Variable(n) => spec_resolve_var(e, n),
        ValueV::Apply(op, args) => match spec_pe_seq(e, args) {
            Ok((b, r)) => spec_apply(op, b, r),
            Err(x) => Err(x),
        },
        _ => Ok((true, v)),
    }
}

/// Partial evaluation of each element, left to right; the first error wins.
pub open spec fn spec_pe_seq(e: EnvView, s: Seq<ValueV>) -> Result<(bool, Seq<ValueV>), ErrV>
    decreases s, s.len(),
{
    if s.len() == 0 {
        Ok((true, Seq::empty()))
    } else {
        match spec_pe_seq(e, s.drop_last()) {
            Err(x) => Err(x),
            Ok((b, r)) => match spec_pe(e, s.last()) {
                Err(x) => Err(x),
                Ok((b2, w)) => Ok((b && b2, r.push(w))),
            },
        }
    }
}

/// Partial evaluation of each entry's value, keys kept, left to right.
pub open spec fn spec_pe_entries(e: EnvView, s: Seq<(Seq<char>, ValueV)>) -> Result<
    (bool, Seq<(Seq<char>, ValueV)>),
    ErrV,
>
    decreases s, s.len(),
{
    if s.len() == 0 {
        Ok((true, Seq::empty()))
    } else {
        match spec_pe_entries(e, s.drop_last()) {
            Err(x) => Err(x),
            Ok((b, r)) => match spec_pe(e, s.last().1) {
                Err(x) => Err(x),
                Ok((b2, w)) => Ok((b && b2, r.push((s.last().0, w)))),
            },
        }
    }
}

pub open spec fn pe_view(r: Result<(bool, Value), CozoError>) -> Result<(bool, ValueV), ErrV> {
    match r {
        Ok((b, v)) => Ok((b, v@)),
        Err(x) => Err(x@),
    }
}

/// An error in the reduction of a prefix is the error of the whole sequence.
proof fn lemma_pe_seq_prefix_err(e: EnvView, s: Seq<ValueV>, k: int)
    requires
        0 <= k <= s.len(),
        spec_pe_seq(e, s.subrange(0, k)) is Err,
    ensures
        spec_pe_seq(e, s) == spec_pe_seq(e, s.subrange(0, k)),
    decreases s.len() - k,
{
    if k < s.len() {
        assert(s.subrange(0, k + 1).drop_last() =~= s.subrange(0, k));
        lemma_pe_seq_prefix_err(e, s, k + 1);
    } else {
        assert(s.subrange(0, k) =~= s);
    }
}

/// An error in the reduction of a prefix of entries is the error of all of them.
proof fn lemma_pe_entries_prefix_err(e: EnvView, s: Seq<(Seq<char>, ValueV)>, k: int)
    requires
        0 <= k <= s.len(),
        spec_pe_entries(e, s.subrange(0, k)) is Err,
    ensures
        spec_pe_entries(e, s) == spec_pe_entries(e, s.subrange(0, k)),
    decreases s.len() - k,
{
    if k < s.len() {
        assert(s.subrange(0, k + 1).drop_last() =~= s.subrange(0, k));
        lemma_pe_entries_prefix_err(e, s, k + 1);
    } else {
        assert(s.subrange(0, k) =~= s);
    }
}

/// The first non-null of fully evaluated values is fully evaluated.
proof fn lemma_first_non_null_evaluated(s: Seq<ValueV>)
    requires
        all_evaluated(s),
    ensures
        is_evaluated(first_non_null(s)),
    decreases s.len(),
{
    lemma_all_evaluated(s);
    if s.len() > 0 && s[0] is Null {
        let t = s.subrange(1, s.len() as int);
        lemma_all_evaluated(t);
        assert forall|i: int| 0 <= i < t.len() implies is_evaluated(#[trigger] t[i]) by {
            assert(t[i] == s[i + 1]);
        }
        lemma_first_non_null_evaluated(t);
    }
}

/// Folding fully evaluated arguments gives a fully evaluated value.
proof fn lemma_fold_evaluated(op: Op, args: Seq<ValueV>)
    requires
        all_evaluated(args),
        spec_fold(op, args) is Ok,
    ensures
        is_evaluated(spec_fold(op, args)->Ok_0),
{
    if op == Op::Coalesce {
        lemma_first_non_null_evaluated(args);
    }
}

/// The flag that partial evaluation returns tells whether its result is fully evaluated.
pub proof fn lemma_pe_flag(e: EnvView, v: ValueV)
    requires
        spec_pe(e, v) is Ok,
    ensures
        spec_pe(e, v)->Ok_0.0 == is_evaluated(spec_pe(e, v)->Ok_0.1),
    decreases v, 0nat,
{
    match v {
        ValueV::List(l) => {
            lemma_pe_seq_flag(e, l);
        },
        ValueV::Dict(d) => {
            lemma_pe_entries_flag(e, d);
        },
        ValueV::Apply(op, args) => {
            lemma_pe_seq_flag(e, args);
            let r = spec_pe_seq(e, args)->Ok_0;
            if r.0 {
                lemma_fold_evaluated(op, r.1);
            }
        },
        _ => {},
    }
}

/// The flag of a reduced sequence tells whether all its elements are fully evaluated.
pub proof fn lemma_pe_seq_flag(e: EnvView, s: Seq<ValueV>)
    requires
        spec_pe_seq(e, s) is Ok,
    ensures
        spec_pe_seq(e, s)->Ok_0.0 == all_evaluated(spec_pe_seq(e, s)->Ok_0.1),
    decreases s, s.len(),
{
    if s.len() > 0 {
        lemma_pe_seq_flag(e, s.drop_last());
        lemma_pe_flag(e, s.last());
        let r = spec_pe_seq(e, s)->Ok_0.1;
        assert(r.drop_last() =~= spec_pe_seq(e, s.drop_last())->Ok_0.1);
    }
}

/// The flag of reduced entries tells whether all their values are fully evaluated.
pub proof fn lemma_pe_entries_flag(e: EnvView, s: Seq<(Seq<char>, ValueV)>)
    requires
        spec_pe_entries(e, s) is Ok,
    ensures
        spec_pe_entries(e, s)->Ok_0.0 == all_entries_evaluated(spec_pe_entries(e, s)->Ok_0.1),
    decreases s, s.len(),
{
    if s.len() > 0 {
        lemma_pe_entries_flag(e, s.drop_last());
        lemma_pe_flag(e, s.last().1);
        let r = spec_pe_entries(e, s)->Ok_0.1;
        assert(r.drop_last() =~= spec_pe_entries(e, s.drop_last())->Ok_0.1);
    }
}

/// A fully evaluated value is left as it is.
pub proof fn lemma_pe_fixpoint(e: EnvView, v: ValueV)
    requires
        is_evaluated(v),
    ensures
        spec_pe(e, v) == Ok::<(bool, ValueV), ErrV>((true, v)),
    decreases v, 0nat,
{
    match v {
        ValueV::List(l) => {
            lemma_pe_seq_fixpoint(e, l);
        },
        ValueV::Dict(d) => {
            lemma_pe_entries_fixpoint(e, d);
        },
        _ => {},
    }
}

/// Fully evaluated elements are left as they are.
pub proof fn lemma_pe_seq_fixpoint(e: EnvView, s: Seq<ValueV>)
    requires
        all_evaluated(s),
    ensures
        spec_pe_seq(e, s) == Ok::<(bool, Seq<ValueV>), ErrV>((true, s)),
    decreases s, s.len(),
{
    if s.len() > 0 {
        assert(all_evaluated(s.drop_last()) && is_evaluated(s.last()));
        lemma_pe_seq_fixpoint(e, s.drop_last());
        lemma_pe_fixpoint(e, s.last());
        assert(s.drop_last().push(s.last()) =~= s);
    } else {
        assert(s =~= Seq::<ValueV>::empty());
    }
}

/// Fully evaluated entries are left as they are.
pub proof fn lemma_pe_entries_fixpoint(e: EnvView, s: Seq<(Seq<char>, ValueV)>)
    requires
        all_entries_evaluated(s),
    ensures
        spec_pe_entries(e, s) == Ok::<(bool, Seq<(Seq<char>, ValueV)>), ErrV>((true, s)),
    decreases s, s.len(),
{
    if s.len() > 0 {
        assert(all_entries_evaluated(s.drop_last()) && is_evaluated(s.last().1));
        lemma_pe_entries_fixpoint(e, s.drop_last());
        lemma_pe_fixpoint(e, s.last().1);
        assert(s.drop_last().push((s.last().0, s.last().1)) =~= s);
    } else {
        assert(s =~= Seq::<(Seq<char>, ValueV)>::empty());
    }
}

/// Every plain value bound in the environment is fully evaluated.
pub open spec fn bound_values_evaluated(e: EnvView) -> bool {
    forall|n: Seq<char>|
        #![trigger spec_resolve(e, n)]
        spec_resolve(e, n) is Some && spec_resolve(e, n)->Some_0.prefix == Prefix::Data(
            DataKind::Value,
        ) && spec_resolve(e, n)->Some_0.elems.len() >= 1 ==> is_evaluated(
            spec_resolve(e, n)->Some_0.elems[0],
        )
}

/// Partial evaluation is idempotent: a second pass over its result changes
/// nothing, neither the value nor the flag. This holds where every plain value
/// bound in the environment is fully evaluated; a binding that holds an
/// expression would be substituted and then reduced further by the second pass.
pub proof fn lemma_pe_idempotent(e: EnvView, v: ValueV)
    requires
        bound_values_evaluated(e),
        spec_pe(e, v) is Ok,
    ensures
        spec_pe(e, spec_pe(e, v)->Ok_0.1) == spec_pe(e, v),
    decreases v, 0nat,
{
    match v {
        ValueV::List(l) => {
            lemma_pe_seq_idempotent(e, l);
        },
        ValueV::Dict(d) => {
            lemma_pe_entries_idempotent(e, d);
        },
        ValueV::Variable(n) => {
            let t = spec_resolve(e, n);
            if t is Some && t->Some_0.prefix == Prefix::Data(DataKind::Value) {
                lemma_pe_fixpoint(e, t->Some_0.elems[0]);
            }
        },
        ValueV::Apply(op, args) => {
            lemma_pe_seq_idempotent(e, args);
            lemma_pe_seq_flag(e, args);
            let r = spec_pe_seq(e, args)->Ok_0;
            if r.0 {
                lemma_fold_evaluated(op, r.1);
                lemma_pe_fixpoint(e, spec_fold(op, r.1)->Ok_0);
            }
        },
        _ => {},
    }
}

/// Reducing an already reduced sequence changes nothing.
pub proof fn lemma_pe_seq_idempotent(e: EnvView, s: Seq<ValueV>)
    requires
        bound_values_evaluated(e),
        spec_pe_seq(e, s) is Ok,
    ensures
        spec_pe_seq(e, spec_pe_seq(e, s)->Ok_0.1) == spec_pe_seq(e, s),
    decreases s, s.len(),
{
    if s.len() > 0 {
        lemma_pe_seq_idempotent(e, s.drop_last());
        lemma_pe_idempotent(e, s.last());
        let r = spec_pe_seq(e, s)->Ok_0.1;
        assert(r.drop_last() =~= spec_pe_seq(e, s.drop_last())->Ok_0.1);
    }
}

/// Reducing already reduced entries changes nothing.
pub proof fn lemma_pe_entries_idempotent(e: EnvView, s: Seq<(Seq<char>, ValueV)>)
    requires
        bound_values_evaluated(e),
        spec_pe_entries(e, s) is Ok,
    ensures
        spec_pe_entries(e, spec_pe_entries(e, s)->Ok_0.1) == spec_pe_entries(e, s),
    decreases s, s.len(),
{
    if s.len() > 0 {
        lemma_pe_entries_idempotent(e, s.drop_last());
        lemma_pe_idempotent(e, s.last().1);
        let r = spec_pe_entries(e, s)->Ok_0.1;
        assert(r.drop_last() =~= spec_pe_entries(e, s.drop_last())->Ok_0.1);
    }
}

/// Every plain value bound in the environment has its dictionary keys in order.
pub open spec fn bound_values_wf(e: EnvView) -> bool {
    forall|n: Seq<char>|
        #![trigger spec_resolve(e, n)]
        spec_resolve(e, n) is Some && spec_resolve(e, n)->Some_0.prefix == Prefix::Data(
            DataKind::Value,
        ) && spec_resolve(e, n)->Some_0.elems.len() >= 1 ==> value_wf(
            spec_resolve(e, n)->Some_0.elems[0],
        )
}

proof fn lemma_first_non_null_wf(s: Seq<ValueV>)
    requires
        all_wf(s),
    ensures
        value_wf(first_non_null(s)),
    decreases s.len(),
{
    lemma_all_wf(s);
    if s.len() > 0 && s[0] is Null {
        let t = s.subrange(1, s.len() as int);
        lemma_all_wf(t);
        assert forall|i: int| 0 <= i < t.len() implies value_wf(#[trigger] t[i]) by {
            assert(t[i] == s[i + 1]);
        }
        lemma_first_non_null_wf(t);
    }
}

/// Reduction keeps the keys of entries, in order.
pub proof fn lemma_pe_entries_keys(e: EnvView, s: Seq<(Seq<char>, ValueV)>)
    requires
        spec_pe_entries(e, s) is Ok,
    ensures
        spec_pe_entries(e, s)->Ok_0.1.len() == s.len(),
        forall|i: int|
            0 <= i < s.len() ==> #[trigger] spec_pe_entries(e, s)->Ok_0.1[i].0 == s[i].0,
    decreases s.len(),
{
    if s.len() > 0 {
        lemma_pe_entries_keys(e, s.drop_last());
    }
}

/// Reduction keeps dictionary keys in order, where the bound values have theirs in order.
pub proof fn lemma_pe_wf(e: EnvView, v: ValueV)
    requires
        bound_values_wf(e),
        value_wf(v),
        spec_pe(e, v) is Ok,
    ensures
        value_wf(spec_pe(e, v)->Ok_0.1),
    decreases v, 0nat,
{
    match v {
        ValueV::List(l) => {
            lemma_pe_seq_wf(e, l);
        },
        ValueV::Dict(d) => {
            lemma_pe_entries_wf(e, d);
            lemma_pe_entries_keys(e, d);
            let r = spec_pe_entries(e, d)->Ok_0.1;
            assert forall|i: int| 0 <= i < r.len() - 1 implies #[trigger] crate::codec::text_lt(
                r[i].0,
                r[i + 1].0,
            ) by {
                assert(r[i].0 == d[i].0);
                assert(r[i + 1].0 == d[i + 1].0);
            }
        },
        ValueV::Apply(op, args) => {
            lemma_pe_seq_wf(e, args);
            let r = spec_pe_seq(e, args)->Ok_0;
            if r.0 {
                lemma_pe_seq_flag(e, args);
                if op == Op::Coalesce {
                    lemma_first_non_null_wf(r.1);
                }
            }
        },
        _ => {},
    }
}

/// Reduction keeps each element's dictionary keys in order.
pub proof fn lemma_pe_seq_wf(e: EnvView, s: Seq<ValueV>)
    requires
        bound_values_wf(e),
        all_wf(s),
        spec_pe_seq(e, s) is Ok,
    ensures
        all_wf(spec_pe_seq(e, s)->Ok_0.1),
    decreases s, s.len(),
{
    if s.len() > 0 {
        assert(all_wf(s.drop_last()) && value_wf(s.last()));
        lemma_pe_seq_wf(e, s.drop_last());
        lemma_pe_wf(e, s.last());
        let r = spec_pe_seq(e, s)->Ok_0.1;
        assert(r.drop_last() =~= spec_pe_seq(e, s.drop_last())->Ok_0.1);
    }
}

/// Reduction keeps each entry value's dictionary keys in order.
pub proof fn lemma_pe_entries_wf(e: EnvView, s: Seq<(Seq<char>, ValueV)>)
    requires
        bound_values_wf(e),
        all_entries_wf(s),
        spec_pe_entries(e, s) is Ok,
    ensures
        all_entries_wf(spec_pe_entries(e, s)->Ok_0.1),
    decreases s, s.len(),
{
    if s.len() > 0 {
        assert(all_entries_wf(s.drop_last()) && value_wf(s.last().1));
        lemma_pe_entries_wf(e, s.drop_last());
        lemma_pe_wf(e, s.last().1);
        let r = spec_pe_entries(e, s)->Ok_0.1;
        assert(r.drop_last() =~= spec_pe_entries(e, s.drop_last())->Ok_0.1);
    }
}

/// Folds an operator over reduced arguments when all of them are fully
/// evaluated, and keeps the application otherwise.
pub fn apply_values(op: Op, args: Vec<Value>) -> (r: Result<(bool, Value), CozoError>)
    ensures
        pe_view(r) == spec_apply(op, crate::value::all_evaluated(values_view(args@)), values_view(args@)),
{
    if values_evaluated(&args) {
        match fold_values(op, &args) {
            Ok(z) => Ok((true, z)),
            Err(x) => Err(x),
        }
    } else {
        Ok((false, Value::Apply(op, args)))
    }
}

/// Addition over reduced arguments.
pub fn add_values(args: Vec<Value>) -> (r: Result<(bool, Value), CozoError>)
    ensures
        pe_view(r) == spec_apply(Op::Add, crate::value::all_evaluated(values_view(args@)), values_view(args@)),
{
    apply_values(Op::Add, args)
}

/// Subtraction over reduced arguments.
pub fn sub_values(args: Vec<Value>) -> (r: Result<(bool, Value), CozoError>)
    ensures
        pe_view(r) == spec_apply(Op::Sub, crate::value::all_evaluated(values_view(args@)), values_view(args@)),
{
    apply_values(Op::Sub, args)
}

/// Partial evaluation of values against the bindings of an environment.
pub trait PartialEvaluator: Environment {
    /// Reduces a value as far as the current bindings allow.
    ///
    /// Returns whether the result is fully evaluated, and the result. Unbound
    /// variables, and variables that name tables or types, stay as they are; an
    /// operator is folded once all its arguments are fully evaluated.
    fn partial_eval(&self, value: Value) -> (r: Result<(bool, Value), CozoError>)
        requires
            self.env_wf(),
        ensures
            pe_view(r) == spec_pe(self.env(), value@),
            r is Ok && value_wf(value@) && bound_values_wf(self.env()) ==> value_wf(
                r->Ok_0.1@,
            ),
    {
        let r = eval_value(self, &value);
        proof {
            if r is Ok && value_wf(value@) && bound_values_wf(self.env()) {
                lemma_pe_wf(self.env(), value@);
            }
        }
        r
    }
}

/// Reduces one value.
fn eval_value<E: Environment>(env: &E, v: &Value) -> (r: Result<(bool, Value), CozoError>)
    requires
        env.env_wf(),
    ensures
        pe_view(r) == spec_pe(env.env(), v@),
    decreases v,
{
    match v {
        Value::List(l) => match eval_values(env, l) {
            Ok((b, out)) => Ok((b, Value::List(out))),
            Err(x) => Err(x),
        },
        Value::Dict(d) => match eval_entries(env, d) {
            Ok((b, out)) => Ok((b, Value::Dict(out))),
            Err(x) => Err(x),
        },
        Value::Variable(n) => {
            let found = match env.resolve(n.as_str()) {
                Ok(f) => f,
                Err(x) => return Err(x),
            };
            match found {
                None => Ok((false, Value::Variable(n.clone()))),
                Some(t) => {
                    proof {
                        lemma_values_view(t.elems@);
                    }
                    match t.data_kind() {
                        Ok(DataKind::Value) => match t.get(0) {
                            Some(p) => Ok((p.is_evaluated(), p)),
                            None => Err(CozoError::BadDataFormat),
                        },
                        _ => Ok((false, Value::Variable(n.clone()))),
                    }
                },
            }
        },
        Value::Apply(op, args) => match eval_values(env, args) {
            Ok((b, out)) => {
                if b {
                    match fold_values(*op, &out) {
                        Ok(z) => Ok((true, z)),
                        Err(x) => Err(x),
                    }
                } else {
                    Ok((false, Value::Apply(*op, out)))
                }
            },
            Err(x) => Err(x),
        },
        Value::Null => Ok((true, Value::Null)),
        Value::Bool(b) => Ok((true, Value::Bool(*b))),
        Value::UInt(u) => Ok((true, Value::UInt(*u))),
        Value::Int(i) => Ok((true, Value::Int(*i))),
        Value::Uuid(u) => Ok((true, Value::Uuid(*u))),
        Value::Text(s) => Ok((true, Value::Text(s.clone()))),
        Value::EndSentinel => Ok((true, Value::EndSentinel)),
    }
}

/// Reduces each value of a list, left to right.
fn eval_values<E: Environment>(env: &E, l: &Vec<Value>) -> (r: Result<(bool, Vec<Value>), CozoError>)
    requires
        env.env_wf(),
    ensures
        match r {
            Ok((b, out)) => spec_pe_seq(env.env(), values_view(l@)) == Ok::<
                (bool, Seq<ValueV>),
                ErrV,
            >((b, values_view(out@))),
            Err(x) => spec_pe_seq(env.env(), values_view(l@)) == Err::<(bool, Seq<ValueV>), ErrV>(
                x@,
            ),
        },
    decreases l,
{
    let ghost s = values_view(l@);
    proof {
        lemma_values_view(l@);
    }
    let mut out: Vec<Value> = Vec::new();
    let mut all = true;
    let mut i: usize = 0;
    while i < l.len()
        invariant
            env.env_wf(),
            0 <= i <= l@.len(),
            s == values_view(l@),
            s.len() == l@.len(),
            forall|j: int| 0 <= j < l@.len() ==> #[trigger] s[j] == value_view(l@[j]),
            spec_pe_seq(env.env(), s.subrange(0, i as int)) == Ok::<(bool, Seq<ValueV>), ErrV>(
                (all, values_view(out@)),
            ),
        decreases l@.len() - i,
    {
        proof {
            lemma_vec_elem_decreases(*l, i as int);
            assert(s.subrange(0, i + 1).drop_last() =~= s.subrange(0, i as int));
        }
        match eval_value(env, &l[i]) {
            Ok((b, w)) => {
                proof {
                    lemma_values_view_push(out@, w);
                }
                out.push(w);
                all = all && b;
            },
            Err(x) => {
                proof {
                    lemma_pe_seq_prefix_err(env.env(), s, i + 1);
                }
                return Err(x);
            },
        }
        i += 1;
    }
    proof {
        assert(s.subrange(0, i as int) =~= s);
    }
    Ok((all, out))
}

/// Reduces the value of each entry, left to right; keys stay.
fn eval_entries<E: Environment>(env: &E, d: &Vec<(String, Value)>) -> (r: Result<
    (bool, Vec<(String, Value)>),
    CozoError,
>)
    requires
        env.env_wf(),
    ensures
        match r {
            Ok((b, out)) => spec_pe_entries(env.env(), entries_view(d@)) == Ok::<
                (bool, Seq<(Seq<char>, ValueV)>),
                ErrV,
            >((b, entries_view(out@))),
            Err(x) => spec_pe_entries(env.env(), entries_view(d@)) == Err::<
                (bool, Seq<(Seq<char>, ValueV)>),
                ErrV,
            >(x@),
        },
    decreases d,
{
    let ghost s = entries_view(d@);
    proof {
        lemma_entries_view(d@);
    }
    let mut out: Vec<(String, Value)> = Vec::new();
    let mut all = true;
    let mut i: usize = 0;
    while i < d.len()
        invariant
            env.env_wf(),
            0 <= i <= d@.len(),
            s == entries_view(d@),
            s.len() == d@.len(),
            forall|j: int|
                0 <= j < d@.len() ==> #[trigger] s[j] == (d@[j].0@, value_view(d@[j].1)),
            spec_pe_entries(env.env(), s.subrange(0, i as int)) == Ok::<
                (bool, Seq<(Seq<char>, ValueV)>),
                ErrV,
            >((all, entries_view(out@))),
        decreases d@.len() - i,
    {
        proof {
            lemma_entry_decreases(*d, i as int);
            assert(s.subrange(0, i + 1).drop_last() =~= s.subrange(0, i as int));
        }
        match eval_value(env, &d[i].1) {
            Ok((b, w)) => {
                let k = d[i].0.clone();
                let ghost before = out@;
                out.push((k, w));
                proof {
                    assert(out@.drop_last() =~= before);
                }
                all = all && b;
            },
            Err(x) => {
                proof {
                    lemma_pe_entries_prefix_err(env.env(), s, i + 1);
                }
                return Err(x);
            },
        }
        i += 1;
    }
    proof {
        assert(s.subrange(0, i as int) =~= s);
    }
    Ok((all, out))
}

impl PartialEvaluator for MemoryEnv {
}

} // verus!
