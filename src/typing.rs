use vstd::prelude::*;

verus! {

/// A schema descriptor: a primitive type, a wrapper of one, or a record shape.
#[derive(Debug, PartialEq)]
pub enum Typing {
    Any,
    Bool,
    Int,
    UInt,
    Float,
    Text,
    Uuid,
    Nullable(Box<Typing>),
    Homogeneous(Box<Typing>),
    NamedTuple(Vec<(String, Typing)>),
}

/// The canonical text of a typing, as it is stored in definitions.
pub open spec fn typing_text(t: Typing) -> Seq<char>
    decreases t, 0nat,
{
    match t {
        Typing::Any => "Any"@,
        Typing::Bool => "Bool"@,
        Typing::Int => "Int"@,
        Typing::UInt => "UInt"@,
        Typing::Float => "Float"@,
        Typing::Text => "Text"@,
        Typing::Uuid => "Uuid"@,
        Typing::Nullable(b) => "?"@ + typing_text(*b),
        Typing::Homogeneous(b) => "["@ + typing_text(*b) + "]"@,
        Typing::NamedTuple(cols) => "("@ + columns_text(cols@) + ")"@,
    }
}

/// The columns of a record shape, as `name: type` separated by `, `.
pub open spec fn columns_text(s: Seq<(String, Typing)>) -> Seq<char>
    decreases s, s.len(),
{
    if s.len() == 0 {
        Seq::empty()
    } else if s.len() == 1 {
        s[0].0@ + ": "@ + typing_text(s[0].1)
    } else {
        columns_text(s.drop_last()) + ", "@ + s.last().0@ + ": "@ + typing_text(s.last().1)
    }
}

impl Typing {
    /// Appends the canonical text of this typing to `out`.
    pub fn write_text(&self, out: &mut String)
        ensures
            final(out)@ == old(out)@ + typing_text(*self),
        decreases self,
    {
        match self {
            Typing::Any => out.append("Any"),
            Typing::Bool => out.append("Bool"),
            Typing::Int => out.append("Int"),
            Typing::UInt => out.append("UInt"),
            Typing::Float => out.append("Float"),
            Typing::Text => out.append("Text"),
            Typing::Uuid => out.append("Uuid"),
            Typing::Nullable(b) => {
                out.append("?");
                b.write_text(out);
                assert(out@ =~= old(out)@ + typing_text(*self));
            },
            Typing::Homogeneous(b) => {
                out.append("[");
                b.write_text(out);
                out.append("]");
                assert(out@ =~= old(out)@ + typing_text(*self));
            },
            Typing::NamedTuple(cols) => {
                out.append("(");
                let ghost start = out@;
                let mut i: usize = 0;
                while i < cols.len()
                    invariant
                        0 <= i <= cols@.len(),
                        decreases_to!(*self => *cols),
                        out@ == start + columns_text(cols@.subrange(0, i as int)),
                    decreases cols@.len() - i,
                {
                    proof {
                        assert(decreases_to!(*cols => cols@));
                        assert(decreases_to!(cols@ => cols@[i as int]));
                        assert(decreases_to!(cols@[i as int] => cols@[i as int].1));
                    }
                    let ghost sub = cols@.subrange(0, i + 1);
                    if i > 0 {
                        out.append(", ");
                    }
                    out.append(cols[i].0.as_str());
                    out.append(": ");
                    cols[i].1.write_text(out);
                    proof {
                        assert(sub.drop_last() =~= cols@.subrange(0, i as int));
                        assert(out@ =~= start + columns_text(sub));
                    }
                    i += 1;
                }
                out.append(")");
                proof {
                    assert(cols@.subrange(0, i as int) =~= cols@);
                    assert(out@ =~= old(out)@ + typing_text(*self));
                }
            },
        }
    }

    /// The canonical text of this typing.
    pub fn to_text(&self) -> (r: String)
        ensures
            r@ == typing_text(*self),
    {
        let mut s = String::new();
        self.write_text(&mut s);
        assert(s@ =~= typing_text(*self));
        s
    }
}

} // verus!
