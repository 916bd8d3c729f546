use vstd::prelude::*;
use crate::codec::text_lt;

verus! {

/// Operator of an `Apply` expression.
#[derive(Copy, Clone, Debug, PartialEq, Eq, Structural)]
pub enum Op {
    Add,
    Sub,
    Mul,
    Div,
    Eq,
    Ne,
    Or,
    And,
    Mod,
    Gt,
    Ge,
    Lt,
    Le,
    Pow,
    Coalesce,
    Negate,
    Minus,
}

/// A value handled by the definition reader and the evaluator.
///
/// A `Dict` holds its entries ordered by key, each key once.
#[derive(Debug, PartialEq)]
pub enum Value {
    Null,
    Bool(bool),
    UInt(u64),
    Int(i64),
    Uuid(u128),
    Text(String),
    List(Vec<Value>),
    Dict(Vec<(String, Value)>),
    Variable(String),
    Apply(Op, Vec<Value>),
    EndSentinel,
}

/// The mathematical content of a `Value`.
pub enum ValueV {
    Null,
    Bool(bool),
    UInt(u64),
    Int(i64),
    Uuid(u128),
    Text(Seq<char>),
    List(Seq<ValueV>),
    Dict(Seq<(Seq<char>, ValueV)>),
    Variable(Seq<char>),
    Apply(Op, Seq<ValueV>),
    EndSentinel,
}

pub open spec fn value_view(v: Value) -> ValueV
    decreases v, 0nat,
{
    match v {
        Value::Null => ValueV::Null,
        Value::Bool(b) => ValueV::Bool(b),
        Value::UInt(u) => ValueV::UInt(u),
        Value::Int(i) => ValueV::Int(i),
        Value::Uuid(u) => ValueV::Uuid(u),
        Value::Text(s) => ValueV::Text(s@),
        Value::List(l) => ValueV::List(values_view(l@)),
        Value::Dict(d) => ValueV::Dict(entries_view(d@)),
        Value::Variable(s) => ValueV::Variable(s@),
        Value::Apply(op, args) => ValueV::Apply(op, values_view(args@)),
        Value::EndSentinel => ValueV::EndSentinel,
    }
}

pub open spec fn values_view(s: Seq<Value>) -> Seq<ValueV>
    decreases s, s.len(),
{
    if s.len() == 0 {
        Seq::empty()
    } else {
        values_view(s.drop_last()).push(value_view(s.last()))
    }
}

pub open spec fn entries_view(s: Seq<(String, Value)>) -> Seq<(Seq<char>, ValueV)>
    decreases s, s.len(),
{
    if s.len() == 0 {
        Seq::empty()
    } else {
        entries_view(s.drop_last()).push((s.last().0@, value_view(s.last().1)))
    }
}

impl View for Value {
    type V = ValueV;

    open spec fn view(&self) -> ValueV {
        value_view(*self)
    }
}

/// A value with no variable and no operator application left in it.
pub open spec fn is_evaluated(v: ValueV) -> bool
    decreases v, 0nat,
{
    match v {
        ValueV::List(l) => all_evaluated(l),
        ValueV::Dict(d) => all_entries_evaluated(d),
        ValueV::Variable(_) => false,
        ValueV::Apply(_, _) => false,
        _ => true,
    }
}

pub open spec fn all_evaluated(s: Seq<ValueV>) -> bool
    decreases s, s.len(),
{
    s.len() == 0 || (all_evaluated(s.drop_last()) && is_evaluated(s.last()))
}

pub open spec fn all_entries_evaluated(s: Seq<(Seq<char>, ValueV)>) -> bool
    decreases s, s.len(),
{
    s.len() == 0 || (all_entries_evaluated(s.drop_last()) && is_evaluated(s.last().1))
}

/// An element of a list of values is smaller than the list.
pub proof fn lemma_vec_elem_decreases(l: Vec<Value>, i: int)
    requires
        0 <= i < l@.len(),
    ensures
        decreases_to!(l => l@[i]),
{
    assert(decreases_to!(l => l@));
    assert(decreases_to!(l@ => l@[i]));
}

/// The value of a dictionary entry is smaller than the entries.
pub proof fn lemma_entry_decreases(d: Vec<(String, Value)>, i: int)
    requires
        0 <= i < d@.len(),
    ensures
        decreases_to!(d => d@[i].1),
{
    assert(decreases_to!(d => d@));
    assert(decreases_to!(d@ => d@[i]));
    assert(decreases_to!(d@[i] => d@[i].1));
}

/// The view of a sequence of values is taken element by element.
pub proof fn lemma_values_view(s: Seq<Value>)
    ensures
        values_view(s).len() == s.len(),
        forall|i: int| 0 <= i < s.len() ==> #[trigger] values_view(s)[i] == value_view(s[i]),
    decreases s.len(),
{
    if s.len() > 0 {
        lemma_values_view(s.drop_last());
    }
}

/// Appending a value appends its view.
pub proof fn lemma_values_view_push(s: Seq<Value>, x: Value)
    ensures
        values_view(s.push(x)) == values_view(s).push(value_view(x)),
{
    assert(s.push(x).drop_last() =~= s);
}

/// The view of a sequence of entries is taken entry by entry.
pub proof fn lemma_entries_view(s: Seq<(String, Value)>)
    ensures
        entries_view(s).len() == s.len(),
        forall|i: int|
            0 <= i < s.len() ==> #[trigger] entries_view(s)[i] == (s[i].0@, value_view(s[i].1)),
    decreases s.len(),
{
    if s.len() > 0 {
        lemma_entries_view(s.drop_last());
    }
}

/// A sequence is evaluated exactly when each of its elements is.
pub proof fn lemma_all_evaluated(s: Seq<ValueV>)
    ensures
        all_evaluated(s) <==> forall|i: int| 0 <= i < s.len() ==> #[trigger] is_evaluated(s[i]),
    decreases s.len(),
{
    if s.len() > 0 {
        lemma_all_evaluated(s.drop_last());
        assert(all_evaluated(s) == (all_evaluated(s.drop_last()) && is_evaluated(s.last())));
        assert forall|i: int| 0 <= i < s.len() - 1 implies s.drop_last()[i] == s[i] by {}
    }
}

/// A sequence of entries is evaluated exactly when each of its values is.
pub proof fn lemma_all_entries_evaluated(s: Seq<(Seq<char>, ValueV)>)
    ensures
        all_entries_evaluated(s) <==> forall|i: int|
            0 <= i < s.len() ==> #[trigger] is_evaluated(s[i].1),
    decreases s.len(),
{
    if s.len() > 0 {
        lemma_all_entries_evaluated(s.drop_last());
        assert(all_entries_evaluated(s) == (all_entries_evaluated(s.drop_last()) && is_evaluated(
            s.last().1,
        )));
        assert forall|i: int| 0 <= i < s.len() - 1 implies s.drop_last()[i] == s[i] by {}
    }
}

/// Whether every value of a list is fully evaluated.
pub fn values_evaluated(l: &Vec<Value>) -> (r: bool)
    ensures
        r == all_evaluated(values_view(l@)),
    decreases l,
{
    proof {
        lemma_values_view(l@);
        lemma_all_evaluated(values_view(l@));
    }
    let mut i: usize = 0;
    while i < l.len()
        invariant
            0 <= i <= l@.len(),
            forall|j: int| 0 <= j < i ==> #[trigger] is_evaluated(value_view(l@[j])),
        decreases l@.len() - i,
    {
        proof {
            lemma_vec_elem_decreases(*l, i as int);
            lemma_values_view(l@);
            lemma_all_evaluated(values_view(l@));
        }
        if !l[i].is_evaluated() {
            assert(!is_evaluated(values_view(l@)[i as int]));
            return false;
        }
        i += 1;
    }
    proof {
        assert forall|j: int| 0 <= j < l@.len() implies is_evaluated(#[trigger] values_view(l@)[j]) by {
            assert(is_evaluated(value_view(l@[j])));
        }
    }
    true
}

impl Value {
    /// Whether the value is fully evaluated.
    pub fn is_evaluated(&self) -> (r: bool)
        ensures
            r == is_evaluated(self@),
        decreases self,
    {
        match self {
            Value::List(l) => values_evaluated(l),
            Value::Dict(d) => {
                let mut i: usize = 0;
                while i < d.len()
                    invariant
                        0 <= i <= d@.len(),
                        decreases_to!(*self => *d),
                        self@ == ValueV::Dict(entries_view(d@)),
                        forall|j: int| 0 <= j < i ==> #[trigger] is_evaluated(value_view(d@[j].1)),
                    decreases d@.len() - i,
                {
                    proof {
                        lemma_entry_decreases(*d, i as int);
                        lemma_entries_view(d@);
                        lemma_all_entries_evaluated(entries_view(d@));
                    }
                    if !d[i].1.is_evaluated() {
                        assert(!is_evaluated(entries_view(d@)[i as int].1));
                        return false;
                    }
                    i += 1;
                }
                proof {
                    lemma_entries_view(d@);
                    lemma_all_entries_evaluated(entries_view(d@));
                    assert forall|j: int| 0 <= j < d@.len() implies is_evaluated(
                        #[trigger] entries_view(d@)[j].1,
                    ) by {
                        assert(is_evaluated(value_view(d@[j].1)));
                    }
                }
                true
            },
            Value::Variable(_) => false,
            Value::Apply(_, _) => false,
            _ => true,
        }
    }

    /// Whether two values are equal, containers compared element by element.
    pub fn deep_eq(&self, other: &Value) -> (r: bool)
        ensures
            r == (self@ == other@),
        decreases self,
    {
        match (self, other) {
            (Value::Null, Value::Null) => true,
            (Value::Bool(a), Value::Bool(b)) => *a == *b,
            (Value::UInt(a), Value::UInt(b)) => *a == *b,
            (Value::Int(a), Value::Int(b)) => *a == *b,
            (Value::Uuid(a), Value::Uuid(b)) => *a == *b,
            (Value::Text(a), Value::Text(b)) => *a == *b,
            (Value::List(a), Value::List(b)) => values_equal(a, b),
            (Value::Dict(a), Value::Dict(b)) => entries_equal(a, b),
            (Value::Variable(a), Value::Variable(b)) => *a == *b,
            (Value::Apply(o1, a), Value::Apply(o2, b)) => *o1 == *o2 && values_equal(a, b),
            (Value::EndSentinel, Value::EndSentinel) => true,
            _ => false,
        }
    }

    /// A copy of this value.
    pub fn deep_clone(&self) -> (r: Value)
        ensures
            r@ == self@,
        decreases self,
    {
        match self {
            Value::Null => Value::Null,
            Value::Bool(b) => Value::Bool(*b),
            Value::UInt(u) => Value::UInt(*u),
            Value::Int(i) => Value::Int(*i),
            Value::Uuid(u) => Value::Uuid(*u),
            Value::Text(s) => Value::Text(s.clone()),
            Value::List(l) => Value::List(clone_values(l)),
            Value::Dict(d) => {
                let mut out: Vec<(String, Value)> = Vec::new();
                let mut i: usize = 0;
                while i < d.len()
                    invariant
                        0 <= i <= d@.len(),
                        decreases_to!(*self => *d),
                        out@.len() == i,
                        forall|j: int|
                            0 <= j < i ==> #[trigger] out@[j].0@ == d@[j].0@ && value_view(out@[j].1)
                                == value_view(d@[j].1),
                    decreases d@.len() - i,
                {
                    proof {
                        lemma_entry_decreases(*d, i as int);
                    }
                    let k = d[i].0.clone();
                    let v = d[i].1.deep_clone();
                    out.push((k, v));
                    i += 1;
                }
                proof {
                    lemma_entries_view(out@);
                    lemma_entries_view(d@);
                    assert(entries_view(out@) =~= entries_view(d@));
                }
                Value::Dict(out)
            },
            Value::Variable(s) => Value::Variable(s.clone()),
            Value::Apply(op, args) => Value::Apply(*op, clone_values(args)),
            Value::EndSentinel => Value::EndSentinel,
        }
    }
}

/// Whether two lists of values are equal, element by element.
pub fn values_equal(a: &Vec<Value>, b: &Vec<Value>) -> (r: bool)
    ensures
        r == (values_view(a@) == values_view(b@)),
    decreases a,
{
    proof {
        lemma_values_view(a@);
        lemma_values_view(b@);
    }
    if a.len() != b.len() {
        return false;
    }
    let mut i: usize = 0;
    while i < a.len()
        invariant
            0 <= i <= a@.len(),
            a@.len() == b@.len(),
            values_view(a@).len() == a@.len(),
            values_view(b@).len() == b@.len(),
            forall|j: int| 0 <= j < a@.len() ==> #[trigger] values_view(a@)[j] == value_view(a@[j]),
            forall|j: int| 0 <= j < b@.len() ==> #[trigger] values_view(b@)[j] == value_view(b@[j]),
            forall|j: int| 0 <= j < i ==> #[trigger] value_view(a@[j]) == value_view(b@[j]),
        decreases a@.len() - i,
    {
        proof {
            lemma_vec_elem_decreases(*a, i as int);
        }
        if !a[i].deep_eq(&b[i]) {
            assert(values_view(a@)[i as int] != values_view(b@)[i as int]);
            return false;
        }
        i += 1;
    }
    assert(values_view(a@) =~= values_view(b@));
    true
}

/// Whether two lists of entries are equal, entry by entry.
fn entries_equal(a: &Vec<(String, Value)>, b: &Vec<(String, Value)>) -> (r: bool)
    ensures
        r == (entries_view(a@) == entries_view(b@)),
    decreases a,
{
    proof {
        lemma_entries_view(a@);
        lemma_entries_view(b@);
    }
    if a.len() != b.len() {
        return false;
    }
    let mut i: usize = 0;
    while i < a.len()
        invariant
            0 <= i <= a@.len(),
            a@.len() == b@.len(),
            entries_view(a@).len() == a@.len(),
            entries_view(b@).len() == b@.len(),
            forall|j: int|
                0 <= j < a@.len() ==> #[trigger] entries_view(a@)[j] == (a@[j].0@, value_view(
                    a@[j].1,
                )),
            forall|j: int|
                0 <= j < b@.len() ==> #[trigger] entries_view(b@)[j] == (b@[j].0@, value_view(
                    b@[j].1,
                )),
            forall|j: int| 0 <= j < i ==> #[trigger] entries_view(a@)[j] == entries_view(b@)[j],
        decreases a@.len() - i,
    {
        proof {
            lemma_entry_decreases(*a, i as int);
        }
        if a[i].0 != b[i].0 || !a[i].1.deep_eq(&b[i].1) {
            assert(entries_view(a@)[i as int] != entries_view(b@)[i as int]);
            return false;
        }
        i += 1;
    }
    assert(entries_view(a@) =~= entries_view(b@));
    true
}

/// A copy of a list of values, element by element.
pub fn clone_values(l: &Vec<Value>) -> (r: Vec<Value>)
    ensures
        values_view(r@) == values_view(l@),
    decreases l,
{
    let mut out: Vec<Value> = Vec::new();
    let mut i: usize = 0;
    while i < l.len()
        invariant
            0 <= i <= l@.len(),
            out@.len() == i,
            forall|j: int| 0 <= j < i ==> #[trigger] value_view(out@[j]) == value_view(l@[j]),
        decreases l@.len() - i,
    {
        proof {
            lemma_vec_elem_decreases(*l, i as int);
        }
        let v = l[i].deep_clone();
        out.push(v);
        i += 1;
    }
    proof {
        lemma_values_view(out@);
        lemma_values_view(l@);
        assert(values_view(out@) =~= values_view(l@));
    }
    out
}

/// Dictionary keys in strictly increasing order, so each key once.
pub open spec fn keys_ordered(d: Seq<(Seq<char>, ValueV)>) -> bool {
    forall|i: int| 0 <= i < d.len() - 1 ==> #[trigger] text_lt(d[i].0, d[i + 1].0)
}

/// Every dictionary in the value, at any depth, has its keys in order.
pub open spec fn value_wf(v: ValueV) -> bool
    decreases v, 0nat,
{
    match v {
        ValueV::List(l) => all_wf(l),
        ValueV::Dict(d) => keys_ordered(d) && all_entries_wf(d),
        ValueV::Apply(_, args) => all_wf(args),
        _ => true,
    }
}

pub open spec fn all_wf(s: Seq<ValueV>) -> bool
    decreases s, s.len(),
{
    s.len() == 0 || (all_wf(s.drop_last()) && value_wf(s.last()))
}

pub open spec fn all_entries_wf(s: Seq<(Seq<char>, ValueV)>) -> bool
    decreases s, s.len(),
{
    s.len() == 0 || (all_entries_wf(s.drop_last()) && value_wf(s.last().1))
}

/// A sequence is well formed exactly when each of its elements is.
pub proof fn lemma_all_wf(s: Seq<ValueV>)
    ensures
        all_wf(s) <==> forall|i: int| 0 <= i < s.len() ==> #[trigger] value_wf(s[i]),
    decreases s.len(),
{
    if s.len() > 0 {
        lemma_all_wf(s.drop_last());
        assert(all_wf(s) == (all_wf(s.drop_last()) && value_wf(s.last())));
        assert forall|i: int| 0 <= i < s.len() - 1 implies s.drop_last()[i] == s[i] by {}
    }
}

/// Entries are well formed exactly when each of their values is.
pub proof fn lemma_all_entries_wf(s: Seq<(Seq<char>, ValueV)>)
    ensures
        all_entries_wf(s) <==> forall|i: int| 0 <= i < s.len() ==> #[trigger] value_wf(s[i].1),
    decreases s.len(),
{
    if s.len() > 0 {
        lemma_all_entries_wf(s.drop_last());
        assert(all_entries_wf(s) == (all_entries_wf(s.drop_last()) && value_wf(s.last().1)));
        assert forall|i: int| 0 <= i < s.len() - 1 implies s.drop_last()[i] == s[i] by {}
    }
}

/// Whether `a` sorts before `b` as a dictionary key.
pub fn text_less(a: &String, b: &String) -> (r: bool)
    ensures
        r == text_lt(a@, b@),
{
    let la = a.as_str().unicode_len();
    let lb = b.as_str().unicode_len();
    let mut i: usize = 0;
    proof {
        assert(a@.subrange(0, la as int) =~= a@);
        assert(b@.subrange(0, lb as int) =~= b@);
    }
    while i < la && i < lb
        invariant
            la == a@.len(),
            lb == b@.len(),
            0 <= i <= la,
            i <= lb,
            text_lt(a@, b@) == text_lt(a@.subrange(i as int, la as int), b@.subrange(i as int, lb as int)),
        decreases la - i,
    {
        let ca = a.as_str().get_char(i);
        let cb = b.as_str().get_char(i);
        let ghost ta = a@.subrange(i as int, la as int);
        let ghost tb = b@.subrange(i as int, lb as int);
        if ca != cb {
            return (ca as u32) < (cb as u32);
        }
        proof {
            assert(ta.subrange(1, ta.len() as int) =~= a@.subrange(i + 1, la as int));
            assert(tb.subrange(1, tb.len() as int) =~= b@.subrange(i + 1, lb as int));
        }
        i += 1;
    }
    i < lb
}

/// Whether every list of values is well formed.
pub fn values_wf(l: &Vec<Value>) -> (r: bool)
    ensures
        r == all_wf(values_view(l@)),
    decreases l,
{
    proof {
        lemma_values_view(l@);
        lemma_all_wf(values_view(l@));
    }
    let mut i: usize = 0;
    while i < l.len()
        invariant
            0 <= i <= l@.len(),
            forall|j: int| 0 <= j < i ==> #[trigger] value_wf(value_view(l@[j])),
        decreases l@.len() - i,
    {
        proof {
            lemma_vec_elem_decreases(*l, i as int);
            lemma_values_view(l@);
            lemma_all_wf(values_view(l@));
        }
        if !l[i].is_well_formed() {
            assert(!value_wf(values_view(l@)[i as int]));
            return false;
        }
        i += 1;
    }
    proof {
        assert forall|j: int| 0 <= j < l@.len() implies value_wf(#[trigger] values_view(l@)[j]) by {
            assert(value_wf(value_view(l@[j])));
        }
    }
    true
}

impl Value {
    /// Whether every dictionary in the value has its keys in strictly increasing order.
    pub fn is_well_formed(&self) -> (r: bool)
        ensures
            r == value_wf(self@),
        decreases self,
    {
        match self {
            Value::List(l) => values_wf(l),
            Value::Apply(_, args) => values_wf(args),
            Value::Dict(d) => {
                let mut i: usize = 0;
                while i < d.len()
                    invariant
                        0 <= i <= d@.len(),
                        decreases_to!(*self => *d),
                        self@ == ValueV::Dict(entries_view(d@)),
                        forall|j: int| 0 <= j < i ==> #[trigger] value_wf(value_view(d@[j].1)),
                        forall|j: int|
                            0 <= j < i && j + 1 < d@.len() ==> #[trigger] text_lt(d@[j].0@, d@[j + 1].0@),
                    decreases d@.len() - i,
                {
                    proof {
                        lemma_entry_decreases(*d, i as int);
                        lemma_entries_view(d@);
                        lemma_all_entries_wf(entries_view(d@));
                    }
                    if !d[i].1.is_well_formed() {
                        assert(!value_wf(entries_view(d@)[i as int].1));
                        return false;
                    }
                    if i + 1 < d.len() && !text_less(&d[i].0, &d[i + 1].0) {
                        assert(!text_lt(entries_view(d@)[i as int].0, entries_view(d@)[i + 1].0));
                        return false;
                    }
                    i += 1;
                }
                proof {
                    lemma_entries_view(d@);
                    lemma_all_entries_wf(entries_view(d@));
                    let e = entries_view(d@);
                    assert forall|j: int| 0 <= j < e.len() implies value_wf(#[trigger] e[j].1) by {
                        assert(value_wf(value_view(d@[j].1)));
                    }
                    assert forall|j: int| 0 <= j < e.len() - 1 implies #[trigger] text_lt(
                        e[j].0,
                        e[j + 1].0,
                    ) by {
                        assert(text_lt(d@[j].0@, d@[j + 1].0@));
                    }
                }
                true
            },
            _ => true,
        }
    }
}

} // verus!
