use vstd::prelude::*;
use crate::error::CozoError;
use crate::value::{clone_values, lemma_values_view, lemma_values_view_push, value_view, values_view, Value, ValueV};

verus! {

/// What the body of a data tuple represents.
#[derive(Copy, Clone, Debug, PartialEq, Eq, Structural)]
pub enum DataKind {
    Value,
    Node,
    Edge,
    Associate,
    TypeAlias,
    DataTuple,
}

/// The leading tag of a tuple: a lookup key, or data of some kind.
#[derive(Copy, Clone, Debug, PartialEq, Eq, Structural)]
pub enum Prefix {
    Null,
    Data(DataKind),
}

/// An ordered sequence of values behind a tag.
#[derive(Debug, PartialEq)]
pub struct Tuple {
    pub prefix: Prefix,
    pub elems: Vec<Value>,
}

/// The mathematical content of a `Tuple`.
pub struct TupleV {
    pub prefix: Prefix,
    pub elems: Seq<ValueV>,
}

impl View for Tuple {
    type V = TupleV;

    open spec fn view(&self) -> TupleV {
        TupleV { prefix: self.prefix, elems: values_view(self.elems@) }
    }
}

/// The kind that a tuple's tag declares, if it is a data tuple.
pub open spec fn spec_data_kind(t: TupleV) -> Result<DataKind, CozoError> {
    match t.prefix {
        Prefix::Data(k) => Ok(k),
        Prefix::Null => Err(CozoError::BadDataFormat),
    }
}

impl Tuple {
    /// An empty lookup-key tuple.
    pub fn with_null_prefix() -> (r: Tuple)
        ensures
            r@ == (TupleV { prefix: Prefix::Null, elems: Seq::empty() }),
    {
        Tuple { prefix: Prefix::Null, elems: Vec::new() }
    }

    /// An empty data tuple of the given kind.
    pub fn with_data_prefix(kind: DataKind) -> (r: Tuple)
        ensures
            r@ == (TupleV { prefix: Prefix::Data(kind), elems: Seq::empty() }),
    {
        Tuple { prefix: Prefix::Data(kind), elems: Vec::new() }
    }

    /// An empty tuple behind the given tag.
    pub fn with_prefix(prefix: Prefix) -> (r: Tuple)
        ensures
            r@ == (TupleV { prefix, elems: Seq::empty() }),
    {
        Tuple { prefix, elems: Vec::new() }
    }

    /// The tag of the tuple.
    pub fn get_prefix(&self) -> (r: Prefix)
        ensures
            r == self@.prefix,
    {
        self.prefix
    }

    /// Number of elements.
    pub fn len(&self) -> (r: usize)
        ensures
            r == self@.elems.len(),
    {
        proof {
            lemma_values_view(self.elems@);
        }
        self.elems.len()
    }

    /// Appends one value.
    pub fn push_value(&mut self, v: &Value)
        ensures
            final(self)@ == (TupleV {
                prefix: old(self)@.prefix,
                elems: old(self)@.elems.push(v@),
            }),
    {
        let c = v.deep_clone();
        self.elems.push(c);
        proof {
            assert(self.elems@.drop_last() =~= old(self).elems@);
        }
    }

    /// Appends a boolean.
    pub fn push_bool(&mut self, b: bool)
        ensures
            final(self)@ == (TupleV {
                prefix: old(self)@.prefix,
                elems: old(self)@.elems.push(ValueV::Bool(b)),
            }),
    {
        proof {
            lemma_values_view_push(self.elems@, Value::Bool(b));
        }
        self.elems.push(Value::Bool(b));
    }

    /// Appends an unsigned integer.
    pub fn push_uint(&mut self, u: u64)
        ensures
            final(self)@ == (TupleV {
                prefix: old(self)@.prefix,
                elems: old(self)@.elems.push(ValueV::UInt(u)),
            }),
    {
        proof {
            lemma_values_view_push(self.elems@, Value::UInt(u));
        }
        self.elems.push(Value::UInt(u));
    }

    /// Appends a signed integer.
    pub fn push_int(&mut self, i: i64)
        ensures
            final(self)@ == (TupleV {
                prefix: old(self)@.prefix,
                elems: old(self)@.elems.push(ValueV::Int(i)),
            }),
    {
        proof {
            lemma_values_view_push(self.elems@, Value::Int(i));
        }
        self.elems.push(Value::Int(i));
    }

    /// Appends a text.
    pub fn push_str(&mut self, s: String)
        ensures
            final(self)@ == (TupleV {
                prefix: old(self)@.prefix,
                elems: old(self)@.elems.push(ValueV::Text(s@)),
            }),
    {
        proof {
            lemma_values_view_push(self.elems@, Value::Text(s));
        }
        self.elems.push(Value::Text(s));
    }

    /// Appends a null.
    pub fn push_null(&mut self)
        ensures
            final(self)@ == (TupleV {
                prefix: old(self)@.prefix,
                elems: old(self)@.elems.push(ValueV::Null),
            }),
    {
        proof {
            lemma_values_view_push(self.elems@, Value::Null);
        }
        self.elems.push(Value::Null);
    }

    /// The element at position `i`, if there is one.
    pub fn get(&self, i: usize) -> (r: Option<Value>)
        ensures
            i < self@.elems.len() ==> r is Some && r->0@ == self@.elems[i as int],
            i >= self@.elems.len() ==> r is None,
    {
        proof {
            lemma_values_view(self.elems@);
        }
        if i < self.elems.len() {
            Some(self.elems[i].deep_clone())
        } else {
            None
        }
    }

    /// The kind of a data tuple; a lookup key has none.
    pub fn data_kind(&self) -> (r: Result<DataKind, CozoError>)
        ensures
            r == spec_data_kind(self@),
    {
        match self.prefix {
            Prefix::Data(k) => Ok(k),
            Prefix::Null => Err(CozoError::BadDataFormat),
        }
    }

    /// Appends the elements of another tuple, keeping this tuple's tag.
    pub fn concat_data(&mut self, other: &Tuple)
        ensures
            final(self)@ == (TupleV {
                prefix: old(self)@.prefix,
                elems: old(self)@.elems + other@.elems,
            }),
    {
        let mut i: usize = 0;
        proof {
            lemma_values_view(self.elems@);
            lemma_values_view(other.elems@);
        }
        while i < other.elems.len()
            invariant
                0 <= i <= other.elems@.len(),
                self.prefix == old(self).prefix,
                values_view(self.elems@) == values_view(old(self).elems@) + values_view(
                    other.elems@,
                ).subrange(0, i as int),
                values_view(other.elems@).len() == other.elems@.len(),
                forall|j: int|
                    0 <= j < other.elems@.len() ==> #[trigger] values_view(other.elems@)[j]
                        == value_view(other.elems@[j]),
            decreases other.elems@.len() - i,
        {
            let c = other.elems[i].deep_clone();
            let ghost before = self.elems@;
            self.elems.push(c);
            proof {
                assert(self.elems@.drop_last() =~= before);
                assert(values_view(self.elems@) == values_view(before).push(value_view(c)));
                assert(values_view(old(self).elems@) + values_view(other.elems@).subrange(
                    0,
                    i + 1,
                ) =~= (values_view(old(self).elems@) + values_view(other.elems@).subrange(
                    0,
                    i as int,
                )).push(values_view(other.elems@)[i as int]));
            }
            i += 1;
        }
        proof {
            assert(values_view(other.elems@).subrange(0, i as int) =~= values_view(
                other.elems@,
            ));
        }
    }

    /// Whether `prefix` has this tuple's tag and its elements are the first
    /// elements of this tuple.
    pub fn starts_with(&self, prefix: &Tuple) -> (r: bool)
        ensures
            r == (self@.prefix == prefix@.prefix && prefix@.elems.len() <= self@.elems.len()
                && self@.elems.subrange(0, prefix@.elems.len() as int) == prefix@.elems),
    {
        proof {
            lemma_values_view(self.elems@);
            lemma_values_view(prefix.elems@);
        }
        if self.prefix != prefix.prefix || prefix.elems.len() > self.elems.len() {
            return false;
        }
        let ghost mine = self@.elems;
        let ghost theirs = prefix@.elems;
        let mut i: usize = 0;
        while i < prefix.elems.len()
            invariant
                0 <= i <= prefix.elems@.len(),
                prefix.elems@.len() <= self.elems@.len(),
                mine == values_view(self.elems@),
                theirs == values_view(prefix.elems@),
                mine.len() == self.elems@.len(),
                theirs.len() == prefix.elems@.len(),
                forall|j: int| 0 <= j < self.elems@.len() ==> #[trigger] mine[j] == value_view(self.elems@[j]),
                forall|j: int|
                    0 <= j < prefix.elems@.len() ==> #[trigger] theirs[j] == value_view(prefix.elems@[j]),
                forall|j: int| 0 <= j < i ==> #[trigger] mine[j] == theirs[j],
            decreases prefix.elems@.len() - i,
        {
            if !self.elems[i].deep_eq(&prefix.elems[i]) {
                assert(mine.subrange(0, theirs.len() as int)[i as int] != theirs[i as int]);
                return false;
            }
            i += 1;
        }
        assert(mine.subrange(0, theirs.len() as int) =~= theirs);
        true
    }

    /// A copy of this tuple.
    pub fn deep_clone(&self) -> (r: Tuple)
        ensures
            r@ == self@,
    {
        Tuple { prefix: self.prefix, elems: clone_values(&self.elems) }
    }
}

} // verus!
