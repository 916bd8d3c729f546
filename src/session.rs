use vstd::prelude::*;
use crate::codec::{bytes_lt, dec_tuple_checked, enc_tuple, key_lt, lemma_tuple_order};
use crate::error::CozoError;
use crate::tuple::{Prefix, Tuple, TupleV};
use crate::value::{Value, ValueV};

verus! {

// Key layout of the environment kept in a transactional key-value store. Root
// bindings live in the permanent namespace under `(name, 0)`; local bindings
// live in the temporary namespace under `(name, depth)`, with an index entry
// `(depth, name)` so that leaving a scope scans one contiguous key range. Each
// namespace keeps its storage-id counter under the key `(null)`.

/// The depth after leaving a scope: one level up, and no change at the root.
pub fn depth_after_pop(depth: i32) -> (r: i32)
    requires
        depth <= 0,
    ensures
        r == if depth != 0 {
            depth + 1
        } else {
            0
        },
{
    if depth != 0 {
        depth + 1
    } else {
        0
    }
}

/// The depth after entering a scope: one level down.
pub fn depth_after_push(depth: i32) -> (r: i32)
    requires
        i32::MIN < depth <= 0,
    ensures
        r == depth - 1,
{
    depth - 1
}

/// The key of a binding: the name and the depth code.
pub open spec fn binding_key(name: Seq<char>, depth: i64) -> TupleV {
    TupleV { prefix: Prefix::Null, elems: seq![ValueV::Text(name), ValueV::Int(depth)] }
}

/// The index entry of a local binding: the depth first, then the name.
pub open spec fn scope_index_key(depth: i64, name: Seq<char>) -> TupleV {
    TupleV { prefix: Prefix::Null, elems: seq![ValueV::Int(depth), ValueV::Text(name)] }
}

/// The key under which a namespace keeps its storage-id counter.
pub open spec fn counter_key() -> TupleV {
    TupleV { prefix: Prefix::Null, elems: seq![ValueV::Null] }
}

/// The stored form of a counter.
pub open spec fn counter_value(n: u64) -> TupleV {
    TupleV { prefix: Prefix::Null, elems: seq![ValueV::UInt(n)] }
}

/// The last id a namespace gave out, read from what is stored under its counter key.
pub open spec fn stored_counter(stored: Option<Seq<u8>>) -> Option<u64> {
    match stored {
        None => Some(0),
        Some(b) => match dec_tuple_checked(b) {
            Some(t) => if t.elems.len() >= 1 && t.elems[0] is UInt {
                Some(t.elems[0]->UInt_0)
            } else {
                None
            },
            None => None,
        },
    }
}

/// Bytes of the key of a binding.
pub fn encode_binding_key(name: &str, depth: i64) -> (r: Vec<u8>)
    ensures
        r@ == enc_tuple(binding_key(name@, depth)),
{
    let mut t = Tuple::with_null_prefix();
    t.push_str(name.to_owned());
    t.push_int(depth);
    assert(t@.elems =~= binding_key(name@, depth).elems);
    t.encode()
}

/// Bytes of the index entry of a local binding.
pub fn encode_scope_index_key(depth: i64, name: &str) -> (r: Vec<u8>)
    ensures
        r@ == enc_tuple(scope_index_key(depth, name@)),
{
    let mut t = Tuple::with_null_prefix();
    t.push_int(depth);
    t.push_str(name.to_owned());
    assert(t@.elems =~= scope_index_key(depth, name@).elems);
    t.encode()
}

/// Bytes of the counter key.
pub fn encode_counter_key() -> (r: Vec<u8>)
    ensures
        r@ == enc_tuple(counter_key()),
{
    let mut t = Tuple::with_null_prefix();
    t.push_null();
    assert(t@.elems =~= counter_key().elems);
    t.encode()
}

/// The next storage id of a namespace, from what is stored under its counter
/// key (nothing before the first id), and the bytes to store back.
pub fn next_storage_id(stored: Option<Vec<u8>>) -> (r: Result<(u32, Vec<u8>), CozoError>)
    ensures
        ({
            let last = stored_counter(
                match stored {
                    Some(b) => Some(b@),
                    None => None,
                },
            );
            match r {
                Ok((id, bytes)) => last is Some && last->Some_0 < u32::MAX && id == last->Some_0 + 1
                    && bytes@ == enc_tuple(counter_value(id as u64)),
                Err(e) => (last is None && e is BadDataFormat) || (last is Some && last->Some_0
                    >= u32::MAX && e is StorageIdExhausted),
            }
        }),
{
    let last: u64 = match stored {
        None => 0,
        Some(b) => {
            let t = match Tuple::decode(&b) {
                Ok(t) => t,
                Err(e) => return Err(e),
            };
            proof {
                crate::value::lemma_values_view(t.elems@);
            }
            if t.elems.len() < 1 {
                return Err(CozoError::BadDataFormat);
            }
            match &t.elems[0] {
                Value::UInt(u) => *u,
                _ => return Err(CozoError::BadDataFormat),
            }
        },
    };
    if last >= u32::MAX as u64 {
        return Err(CozoError::StorageIdExhausted);
    }
    let id = (last + 1) as u32;
    let mut t = Tuple::with_null_prefix();
    t.push_uint(id as u64);
    assert(t@.elems =~= counter_value(id as u64).elems);
    Ok((id, t.encode()))
}

/// When leaving the scope at `depth`, the scan of the temporary namespace
/// starts at the index entries of that depth. For a key met on the way: the
/// index entry and the binding key to delete if the key is an index entry of
/// that depth, or `None`, which ends the scan.
pub fn scope_entry_to_remove(key: &Vec<u8>, depth: i64) -> (r: Option<(Vec<u8>, Vec<u8>)>)
    ensures
        match dec_tuple_checked(key@) {
            Some(t) => if t.prefix == Prefix::Null && t.elems.len() >= 2 && t.elems[0]
                == ValueV::Int(depth) && t.elems[1] is Text {
                r is Some && r->Some_0.0@ == key@ && r->Some_0.1@ == enc_tuple(
                    binding_key(t.elems[1]->Text_0, depth),
                )
            } else {
                r is None
            },
            None => r is None,
        },
{
    let t = match Tuple::decode(key) {
        Ok(t) => t,
        Err(_) => return None,
    };
    proof {
        crate::value::lemma_values_view(t.elems@);
    }
    if t.prefix != Prefix::Null || t.elems.len() < 2 {
        return None;
    }
    match &t.elems[0] {
        Value::Int(d) => {
            if *d != depth {
                return None;
            }
        },
        _ => return None,
    }
    match &t.elems[1] {
        Value::Text(name) => {
            let own = crate::codec::clone_bytes(key);
            Some((own, encode_binding_key(name.as_str(), depth)))
        },
        _ => None,
    }
}

/// A lookup seeks the temporary namespace to the name and looks at the first
/// key found there: whether that key is the key of a binding of `name`, and at
/// which depth.
pub fn binding_depth(key: &Vec<u8>, name: &str) -> (r: Option<i64>)
    ensures
        match dec_tuple_checked(key@) {
            Some(t) => if t.prefix == Prefix::Null && t.elems.len() == 2 && t.elems[0]
                == ValueV::Text(name@) && t.elems[1] is Int {
                r == Some(t.elems[1]->Int_0)
            } else {
                r is None
            },
            None => r is None,
        },
{
    let t = match Tuple::decode(key) {
        Ok(t) => t,
        Err(_) => return None,
    };
    proof {
        crate::value::lemma_values_view(t.elems@);
    }
    if t.prefix != Prefix::Null || t.elems.len() != 2 {
        return None;
    }
    let n = name.to_owned();
    let same_name = match &t.elems[0] {
        Value::Text(s) => *s == n,
        _ => false,
    };
    if !same_name {
        return None;
    }
    match &t.elems[1] {
        Value::Int(d) => Some(*d),
        _ => None,
    }
}

/// In the temporary namespace the bindings of one name sort innermost first:
/// a deeper scope has the smaller depth code, so its key comes first in byte
/// order, and a seek to the name finds the innermost binding.
pub proof fn lemma_innermost_key_first(name: Seq<char>, inner: i64, outer: i64)
    requires
        inner < outer,
    ensures
        bytes_lt(enc_tuple(binding_key(name, inner)), enc_tuple(binding_key(name, outer))),
{
    let head = seq![ValueV::Text(name)];
    assert(key_lt(ValueV::Int(inner), ValueV::Int(outer)));
    lemma_tuple_order(
        Prefix::Null,
        head,
        ValueV::Int(inner),
        ValueV::Int(outer),
        Seq::empty(),
        Seq::empty(),
    );
    assert(head + seq![ValueV::Int(inner)] + Seq::<ValueV>::empty() =~= binding_key(name, inner).elems);
    assert(head + seq![ValueV::Int(outer)] + Seq::<ValueV>::empty() =~= binding_key(name, outer).elems);
}

} // verus!
