use vstd::prelude::*;
use crate::error::CozoError;
use crate::tuple::{DataKind, Prefix, Tuple, TupleV};
use crate::value::{
    entries_view, lemma_entries_view, lemma_entry_decreases, lemma_values_view,
    lemma_values_view_push, lemma_vec_elem_decreases, all_wf, values_wf, value_view, values_view, Op, Value, ValueV,
};

verus! {

pub open spec fn pow256(n: nat) -> nat
    decreases n,
{
    if n == 0 {
        1
    } else {
        256 * pow256((n - 1) as nat)
    }
}

/// The `n` low bytes of `x`, most significant first.
pub open spec fn be_bytes(x: nat, n: nat) -> Seq<u8>
    decreases n,
{
    if n == 0 {
        Seq::empty()
    } else {
        be_bytes(x / 256, (n - 1) as nat).push((x % 256) as u8)
    }
}

/// The number that bytes spell, most significant first.
pub open spec fn from_be(s: Seq<u8>) -> nat
    decreases s.len(),
{
    if s.len() == 0 {
        0
    } else {
        from_be(s.drop_last()) * 256 + s.last() as nat
    }
}

/// Code of each operator in the encoding.
pub open spec fn op_code(op: Op) -> u8 {
    match op {
        Op::Add => 0,
        Op::Sub => 1,
        Op::Mul => 2,
        Op::Div => 3,
        Op::Eq => 4,
        Op::Ne => 5,
        Op::Or => 6,
        Op::And => 7,
        Op::Mod => 8,
        Op::Gt => 9,
        Op::Ge => 10,
        Op::Lt => 11,
        Op::Le => 12,
        Op::Pow => 13,
        Op::Coalesce => 14,
        Op::Negate => 15,
        Op::Minus => 16,
    }
}

pub open spec fn op_of_code(c: u8) -> Option<Op> {
    if c == 0 { Some(Op::Add) }
    else if c == 1 { Some(Op::Sub) }
    else if c == 2 { Some(Op::Mul) }
    else if c == 3 { Some(Op::Div) }
    else if c == 4 { Some(Op::Eq) }
    else if c == 5 { Some(Op::Ne) }
    else if c == 6 { Some(Op::Or) }
    else if c == 7 { Some(Op::And) }
    else if c == 8 { Some(Op::Mod) }
    else if c == 9 { Some(Op::Gt) }
    else if c == 10 { Some(Op::Ge) }
    else if c == 11 { Some(Op::Lt) }
    else if c == 12 { Some(Op::Le) }
    else if c == 13 { Some(Op::Pow) }
    else if c == 14 { Some(Op::Coalesce) }
    else if c == 15 { Some(Op::Negate) }
    else if c == 16 { Some(Op::Minus) }
    else { None }
}

/// Code of the leading tag of a tuple.
pub open spec fn prefix_code(p: Prefix) -> u8 {
    match p {
        Prefix::Null => 0,
        Prefix::Data(DataKind::Value) => 1,
        Prefix::Data(DataKind::Node) => 2,
        Prefix::Data(DataKind::Edge) => 3,
        Prefix::Data(DataKind::Associate) => 4,
        Prefix::Data(DataKind::TypeAlias) => 5,
        Prefix::Data(DataKind::DataTuple) => 6,
    }
}

pub open spec fn prefix_of_code(c: u8) -> Option<Prefix> {
    if c == 0 { Some(Prefix::Null) }
    else if c == 1 { Some(Prefix::Data(DataKind::Value)) }
    else if c == 2 { Some(Prefix::Data(DataKind::Node)) }
    else if c == 3 { Some(Prefix::Data(DataKind::Edge)) }
    else if c == 4 { Some(Prefix::Data(DataKind::Associate)) }
    else if c == 5 { Some(Prefix::Data(DataKind::TypeAlias)) }
    else if c == 6 { Some(Prefix::Data(DataKind::DataTuple)) }
    else { None }
}

/// A text: each character as a marker byte 1 and its code point in four
/// bytes, then a closing byte 0. Shorter texts sort first.
pub open spec fn enc_text(s: Seq<char>) -> Seq<u8>
    decreases s.len(),
{
    if s.len() == 0 {
        seq![0u8]
    } else {
        seq![1u8] + be_bytes(s[0] as u32 as nat, 4) + enc_text(s.subrange(1, s.len() as int))
    }
}

/// Integers are shifted by 2^63 so that their bytes sort as the numbers do.
pub open spec fn int_code(i: i64) -> nat {
    (i as int + 0x8000_0000_0000_0000) as nat
}

/// The bytes of one value: a tag byte, then its content.
pub open spec fn enc_value(v: ValueV) -> Seq<u8>
    decreases v, 0nat,
{
    match v {
        ValueV::Null => seq![1u8],
        ValueV::Bool(b) => seq![2u8, if b { 1u8 } else { 0u8 }],
        ValueV::UInt(u) => seq![3u8] + be_bytes(u as nat, 8),
        ValueV::Int(i) => seq![4u8] + be_bytes(int_code(i), 8),
        ValueV::Uuid(u) => seq![5u8] + be_bytes(u as nat, 16),
        ValueV::Text(s) => seq![6u8] + enc_text(s),
        ValueV::List(l) => seq![7u8] + enc_items(l) + seq![0u8],
        ValueV::Dict(d) => seq![8u8] + enc_entries(d) + seq![0u8],
        ValueV::Variable(s) => seq![9u8] + enc_text(s),
        ValueV::Apply(op, args) => seq![10u8, op_code(op)] + enc_items(args) + seq![0u8],
        ValueV::EndSentinel => seq![255u8],
    }
}

/// Values one after another.
pub open spec fn enc_items(s: Seq<ValueV>) -> Seq<u8>
    decreases s, s.len(),
{
    if s.len() == 0 {
        Seq::empty()
    } else {
        enc_value(s[0]) + enc_items(s.subrange(1, s.len() as int))
    }
}

/// Entries one after another, each a marker byte 1, its key and its value.
pub open spec fn enc_entries(s: Seq<(Seq<char>, ValueV)>) -> Seq<u8>
    decreases s, s.len(),
{
    if s.len() == 0 {
        Seq::empty()
    } else {
        seq![1u8] + enc_text(s[0].0) + enc_value(s[0].1) + enc_entries(
            s.subrange(1, s.len() as int),
        )
    }
}

/// The bytes of a tuple: its tag, then its elements.
pub open spec fn enc_tuple(t: TupleV) -> Seq<u8> {
    seq![prefix_code(t.prefix)] + enc_items(t.elems)
}

/// A code point that stands for a character: at most 0x10FFFF and no surrogate.
pub open spec fn is_char_code(u: u32) -> bool {
    u <= 0x10FFFF && !(0xD800 <= u <= 0xDFFF)
}

/// Reads a text; gives it and the number of bytes it took.
pub open spec fn dec_text(b: Seq<u8>) -> Option<(Seq<char>, nat)>
    decreases b.len(),
{
    if b.len() == 0 {
        None
    } else if b[0] == 0 {
        Some((Seq::empty(), 1))
    } else if b[0] == 1 && b.len() >= 5 {
        let code = from_be(b.subrange(1, 5));
        if code <= u32::MAX && is_char_code(code as u32) {
            match dec_text(b.subrange(5, b.len() as int)) {
                Some((rest, k)) => Some((seq![(code as u32) as char] + rest, k + 5)),
                None => None,
            }
        } else {
            None
        }
    } else {
        None
    }
}

/// Reads one value; gives it and the number of bytes it took.
pub open spec fn dec_value(b: Seq<u8>) -> Option<(ValueV, nat)>
    decreases b.len(), 0nat,
{
    if b.len() == 0 {
        None
    } else {
        let tag = b[0];
        let tail = b.subrange(1, b.len() as int);
        if tag == 1 {
            Some((ValueV::Null, 1))
        } else if tag == 2 {
            if b.len() >= 2 && b[1] <= 1 {
                Some((ValueV::Bool(b[1] == 1), 2))
            } else {
                None
            }
        } else if tag == 3 || tag == 4 {
            if b.len() >= 9 {
                let x = from_be(b.subrange(1, 9));
                if tag == 3 {
                    Some((ValueV::UInt(x as u64), 9))
                } else {
                    Some((ValueV::Int((x - 0x8000_0000_0000_0000) as i64), 9))
                }
            } else {
                None
            }
        } else if tag == 5 {
            if b.len() >= 17 {
                Some((ValueV::Uuid(from_be(b.subrange(1, 17)) as u128), 17))
            } else {
                None
            }
        } else if tag == 6 || tag == 9 {
            match dec_text(tail) {
                Some((s, k)) => Some(
                    (if tag == 6 { ValueV::Text(s) } else { ValueV::Variable(s) }, k + 1),
                ),
                None => None,
            }
        } else if tag == 7 {
            match dec_items(tail) {
                Some((l, k)) => Some((ValueV::List(l), k + 1)),
                None => None,
            }
        } else if tag == 8 {
            match dec_entries(tail) {
                Some((d, k)) => Some((ValueV::Dict(d), k + 1)),
                None => None,
            }
        } else if tag == 10 {
            if b.len() >= 2 && op_of_code(b[1]) is Some {
                match dec_items(b.subrange(2, b.len() as int)) {
                    Some((l, k)) => Some((ValueV::Apply(op_of_code(b[1])->Some_0, l), k + 2)),
                    None => None,
                }
            } else {
                None
            }
        } else if tag == 255 {
            Some((ValueV::EndSentinel, 1))
        } else {
            None
        }
    }
}

/// Reads values up to a closing byte 0; gives them and the bytes taken, the 0 included.
pub open spec fn dec_items(b: Seq<u8>) -> Option<(Seq<ValueV>, nat)>
    decreases b.len(), 1nat,
{
    if b.len() == 0 {
        None
    } else if b[0] == 0 {
        Some((Seq::empty(), 1))
    } else {
        match dec_value(b) {
            Some((v, k)) => if 1 <= k <= b.len() {
                match dec_items(b.subrange(k as int, b.len() as int)) {
                    Some((r, k2)) => Some((seq![v] + r, k + k2)),
                    None => None,
                }
            } else {
                None
            },
            None => None,
        }
    }
}

/// Reads entries up to a closing byte 0; gives them and the bytes taken, the 0 included.
pub open spec fn dec_entries(b: Seq<u8>) -> Option<(Seq<(Seq<char>, ValueV)>, nat)>
    decreases b.len(), 1nat,
{
    if b.len() == 0 {
        None
    } else if b[0] == 0 {
        Some((Seq::empty(), 1))
    } else if b[0] == 1 {
        match dec_text(b.subrange(1, b.len() as int)) {
            Some((key, k1)) => if k1 + 1 <= b.len() {
                let b2 = b.subrange((k1 + 1) as int, b.len() as int);
                match dec_value(b2) {
                    Some((v, k2)) => if 1 <= k2 <= b2.len() {
                        match dec_entries(b2.subrange(k2 as int, b2.len() as int)) {
                            Some((r, k3)) => Some((seq![(key, v)] + r, k1 + 1 + k2 + k3)),
                            None => None,
                        }
                    } else {
                        None
                    },
                    None => None,
                }
            } else {
                None
            },
            None => None,
        }
    } else {
        None
    }
}

/// Reads values up to the end of the bytes.
pub open spec fn dec_elems(b: Seq<u8>) -> Option<Seq<ValueV>>
    decreases b.len(),
{
    if b.len() == 0 {
        Some(Seq::empty())
    } else {
        match dec_value(b) {
            Some((v, k)) => if 1 <= k <= b.len() {
                match dec_elems(b.subrange(k as int, b.len() as int)) {
                    Some(r) => Some(seq![v] + r),
                    None => None,
                }
            } else {
                None
            },
            None => None,
        }
    }
}

/// Reads a tuple, and keeps it only where its dictionaries have their keys in order.
pub open spec fn dec_tuple_checked(b: Seq<u8>) -> Option<TupleV> {
    match dec_tuple(b) {
        Some(t) => if all_wf(t.elems) {
            Some(t)
        } else {
            None
        },
        None => None,
    }
}

/// Reads a tuple: its tag, then its elements up to the end.
pub open spec fn dec_tuple(b: Seq<u8>) -> Option<TupleV> {
    if b.len() >= 1 && prefix_of_code(b[0]) is Some {
        match dec_elems(b.subrange(1, b.len() as int)) {
            Some(es) => Some(TupleV { prefix: prefix_of_code(b[0])->Some_0, elems: es }),
            None => None,
        }
    } else {
        None
    }
}

proof fn lemma_pow256_values()
    ensures
        pow256(4) == 0x1_0000_0000,
        pow256(8) == 0x1_0000_0000_0000_0000,
        pow256(16) == 0x1_0000_0000_0000_0000_0000_0000_0000_0000,
{
    assert(pow256(1) == 256) by {
        assert(pow256(0) == 1);
    }
    assert(pow256(2) == 0x1_0000);
    assert(pow256(3) == 0x100_0000);
    assert(pow256(4) == 0x1_0000_0000);
    assert(pow256(5) == 0x100_0000_0000);
    assert(pow256(6) == 0x1_0000_0000_0000);
    assert(pow256(7) == 0x100_0000_0000_0000);
    assert(pow256(8) == 0x1_0000_0000_0000_0000);
    assert(pow256(9) == 0x100_0000_0000_0000_0000);
    assert(pow256(10) == 0x1_0000_0000_0000_0000_0000);
    assert(pow256(11) == 0x100_0000_0000_0000_0000_0000);
    assert(pow256(12) == 0x1_0000_0000_0000_0000_0000_0000);
    assert(pow256(13) == 0x100_0000_0000_0000_0000_0000_0000);
    assert(pow256(14) == 0x1_0000_0000_0000_0000_0000_0000_0000);
    assert(pow256(15) == 0x100_0000_0000_0000_0000_0000_0000_0000);
}

/// Big-endian bytes of a number that fits read back as the number.
pub proof fn lemma_be_round_trip(x: nat, n: nat)
    requires
        x < pow256(n),
    ensures
        be_bytes(x, n).len() == n,
        from_be(be_bytes(x, n)) == x,
    decreases n,
{
    if n > 0 {
        assert(x / 256 < pow256((n - 1) as nat)) by (nonlinear_arith)
            requires
                x < 256 * pow256((n - 1) as nat),
        ;
        lemma_be_round_trip(x / 256, (n - 1) as nat);
        assert(be_bytes(x, n).drop_last() =~= be_bytes(x / 256, (n - 1) as nat));
        assert(x == (x / 256) * 256 + x % 256) by (nonlinear_arith);
    }
}

/// A text reads back from its bytes, whatever follows them.
pub proof fn lemma_text_round_trip(s: Seq<char>, rest: Seq<u8>)
    ensures
        dec_text(enc_text(s) + rest) == Some((s, enc_text(s).len())),
        enc_text(s).len() >= 1,
    decreases s.len(),
{
    let b = enc_text(s) + rest;
    if s.len() == 0 {
        assert(b[0] == 0);
        assert(s =~= Seq::<char>::empty());
    } else {
        let t = s.subrange(1, s.len() as int);
        lemma_pow256_values();
        let c = s[0];
        vstd::utf8::char_u32_cast(c, c as u32);
        vstd::utf8::char_is_scalar(c);
        assert(is_char_code(c as u32));
        lemma_be_round_trip(c as u32 as nat, 4);
        lemma_text_round_trip(t, rest);
        let enc_c = be_bytes(c as u32 as nat, 4);
        assert(b =~= seq![1u8] + enc_c + (enc_text(t) + rest));
        assert(b.subrange(1, 5) =~= enc_c);
        assert(b.subrange(5, b.len() as int) =~= enc_text(t) + rest);
        assert(seq![c] + t =~= s);
    }
}

/// The first byte of a value's encoding is its tag, never 0.
proof fn lemma_enc_value_head(v: ValueV)
    ensures
        enc_value(v).len() >= 1,
        enc_value(v)[0] != 0,
{
}

/// A value reads back from its bytes, whatever follows them.
#[verifier::rlimit(60)]
pub proof fn lemma_value_round_trip(v: ValueV, rest: Seq<u8>)
    ensures
        dec_value(enc_value(v) + rest) == Some((v, enc_value(v).len())),
    decreases v, 0nat,
{
    let e = enc_value(v);
    let b = e + rest;
    lemma_pow256_values();
    match v {
        ValueV::Null => {},
        ValueV::Bool(x) => {},
        ValueV::UInt(u) => {
            lemma_be_round_trip(u as nat, 8);
            assert(b.subrange(1, 9) =~= be_bytes(u as nat, 8));
        },
        ValueV::Int(i) => {
            lemma_be_round_trip(int_code(i), 8);
            assert(b.subrange(1, 9) =~= be_bytes(int_code(i), 8));
        },
        ValueV::Uuid(u) => {
            lemma_be_round_trip(u as nat, 16);
            assert(b.subrange(1, 17) =~= be_bytes(u as nat, 16));
        },
        ValueV::Text(t) => {
            lemma_text_round_trip(t, rest);
            assert(b.subrange(1, b.len() as int) =~= enc_text(t) + rest);
        },
        ValueV::Variable(t) => {
            lemma_text_round_trip(t, rest);
            assert(b.subrange(1, b.len() as int) =~= enc_text(t) + rest);
        },
        ValueV::List(l) => {
            lemma_items_round_trip(l, rest);
            assert(b.subrange(1, b.len() as int) =~= enc_items(l) + seq![0u8] + rest);
        },
        ValueV::Dict(d) => {
            lemma_entries_round_trip(d, rest);
            assert(b.subrange(1, b.len() as int) =~= enc_entries(d) + seq![0u8] + rest);
        },
        ValueV::Apply(op, args) => {
            lemma_items_round_trip(args, rest);
            assert(b.subrange(2, b.len() as int) =~= enc_items(args) + seq![0u8] + rest);
        },
        ValueV::EndSentinel => {},
    }
}

/// Values and their closing byte read back, whatever follows them.
pub proof fn lemma_items_round_trip(s: Seq<ValueV>, rest: Seq<u8>)
    ensures
        dec_items(enc_items(s) + seq![0u8] + rest) == Some((s, enc_items(s).len() + 1)),
    decreases s, s.len(),
{
    let b = enc_items(s) + seq![0u8] + rest;
    if s.len() == 0 {
        assert(b[0] == 0);
        assert(s =~= Seq::<ValueV>::empty());
    } else {
        let t = s.subrange(1, s.len() as int);
        let tail = enc_items(t) + seq![0u8] + rest;
        lemma_enc_value_head(s[0]);
        lemma_value_round_trip(s[0], tail);
        lemma_items_round_trip(t, rest);
        assert(b =~= enc_value(s[0]) + tail);
        assert(b.subrange(enc_value(s[0]).len() as int, b.len() as int) =~= tail);
        assert(seq![s[0]] + t =~= s);
    }
}

/// Entries and their closing byte read back, whatever follows them.
#[verifier::rlimit(40)]
pub proof fn lemma_entries_round_trip(s: Seq<(Seq<char>, ValueV)>, rest: Seq<u8>)
    ensures
        dec_entries(enc_entries(s) + seq![0u8] + rest) == Some((s, enc_entries(s).len() + 1)),
    decreases s, s.len(),
{
    let b = enc_entries(s) + seq![0u8] + rest;
    if s.len() == 0 {
        assert(b[0] == 0);
        assert(s =~= Seq::<(Seq<char>, ValueV)>::empty());
    } else {
        let t = s.subrange(1, s.len() as int);
        let tail = enc_entries(t) + seq![0u8] + rest;
        let ev = enc_value(s[0].1);
        let ek = enc_text(s[0].0);
        let b2 = b.subrange((ek.len() + 1) as int, b.len() as int);
        assert(b =~= seq![1u8] + ek + ev + tail);
        assert(b[0] == 1);
        assert(b.subrange(1, b.len() as int) =~= ek + (ev + tail));
        assert(b2 =~= ev + tail);
        assert(b2.subrange(ev.len() as int, b2.len() as int) =~= tail);
        assert(dec_text(b.subrange(1, b.len() as int)) == Some((s[0].0, ek.len()))) by {
            lemma_text_round_trip(s[0].0, ev + tail);
        }
        assert(dec_value(b2) == Some((s[0].1, ev.len()))) by {
            lemma_enc_value_head(s[0].1);
            lemma_value_round_trip(s[0].1, tail);
        }
        assert(dec_entries(tail) == Some((t, enc_entries(t).len() + 1))) by {
            lemma_entries_round_trip(t, rest);
        }
        lemma_enc_value_head(s[0].1);
        assert(seq![(s[0].0, s[0].1)] + t =~= s);
    }
}

/// Values read back from their bytes up to the end.
pub proof fn lemma_elems_round_trip(s: Seq<ValueV>)
    ensures
        dec_elems(enc_items(s)) == Some(s),
    decreases s.len(),
{
    let b = enc_items(s);
    if s.len() == 0 {
        assert(s =~= Seq::<ValueV>::empty());
    } else {
        let t = s.subrange(1, s.len() as int);
        lemma_enc_value_head(s[0]);
        lemma_value_round_trip(s[0], enc_items(t));
        lemma_elems_round_trip(t);
        assert(b.subrange(enc_value(s[0]).len() as int, b.len() as int) =~= enc_items(t));
        assert(seq![s[0]] + t =~= s);
    }
}

/// Decoding an encoded tuple gives the tuple back, for lookup keys and data
/// tuples of every kind, and for values of every variant.
pub proof fn lemma_tuple_round_trip(t: TupleV)
    ensures
        dec_tuple(enc_tuple(t)) == Some(t),
{
    let b = enc_tuple(t);
    lemma_elems_round_trip(t.elems);
    assert(b.subrange(1, b.len() as int) =~= enc_items(t.elems));
}

/// Appends the `n` low bytes of `x`, most significant first.
fn push_be(out: &mut Vec<u8>, x: u128, n: usize)
    ensures
        final(out)@ == old(out)@ + be_bytes(x as nat, n as nat),
    decreases n,
{
    if n > 0 {
        push_be(out, x / 256, n - 1);
        out.push((x % 256) as u8);
        proof {
            assert(final(out)@ =~= old(out)@ + be_bytes(x as nat, n as nat));
        }
    } else {
        assert(out@ =~= old(out)@ + be_bytes(x as nat, n as nat));
    }
}

fn push_op_code(out: &mut Vec<u8>, op: Op)
    ensures
        final(out)@ == old(out)@.push(op_code(op)),
{
    let c: u8 = match op {
        Op::Add => 0,
        Op::Sub => 1,
        Op::Mul => 2,
        Op::Div => 3,
        Op::Eq => 4,
        Op::Ne => 5,
        Op::Or => 6,
        Op::And => 7,
        Op::Mod => 8,
        Op::Gt => 9,
        Op::Ge => 10,
        Op::Lt => 11,
        Op::Le => 12,
        Op::Pow => 13,
        Op::Coalesce => 14,
        Op::Negate => 15,
        Op::Minus => 16,
    };
    out.push(c);
}

/// Appends the encoding of a text.
fn encode_text(out: &mut Vec<u8>, s: &str)
    ensures
        final(out)@ == old(out)@ + enc_text(s@),
{
    let n = s.unicode_len();
    let mut i: usize = 0;
    assert(s@.subrange(0, n as int) =~= s@);
    while i < n
        invariant
            n == s@.len(),
            0 <= i <= n,
            old(out)@ + enc_text(s@) == out@ + enc_text(s@.subrange(i as int, n as int)),
        decreases n - i,
    {
        let c = s.get_char(i);
        let ghost before = out@;
        out.push(1);
        push_be(out, c as u32 as u128, 4);
        proof {
            let t = s@.subrange(i as int, n as int);
            assert(t.subrange(1, t.len() as int) =~= s@.subrange(i + 1, n as int));
            assert(out@ + enc_text(s@.subrange(i + 1, n as int)) =~= before + enc_text(t));
        }
        i += 1;
    }
    let ghost before = out@;
    out.push(0);
    proof {
        assert(s@.subrange(i as int, n as int) =~= Seq::<char>::empty());
        assert(out@ =~= before + enc_text(Seq::<char>::empty()));
    }
}

/// Appends the encoding of a value.
pub fn encode_value(out: &mut Vec<u8>, v: &Value)
    ensures
        final(out)@ == old(out)@ + enc_value(v@),
    decreases v,
{
    let ghost start = out@;
    match v {
        Value::Null => out.push(1),
        Value::Bool(b) => {
            out.push(2);
            out.push(if *b { 1 } else { 0 });
        },
        Value::UInt(u) => {
            out.push(3);
            push_be(out, *u as u128, 8);
        },
        Value::Int(i) => {
            out.push(4);
            push_be(out, (*i as i128 + 0x8000_0000_0000_0000) as u128, 8);
        },
        Value::Uuid(u) => {
            out.push(5);
            push_be(out, *u, 16);
        },
        Value::Text(s) => {
            out.push(6);
            encode_text(out, s.as_str());
        },
        Value::List(l) => {
            out.push(7);
            encode_items(out, l);
            out.push(0);
        },
        Value::Dict(d) => {
            out.push(8);
            encode_entries(out, d);
            out.push(0);
        },
        Value::Variable(s) => {
            out.push(9);
            encode_text(out, s.as_str());
        },
        Value::Apply(op, args) => {
            out.push(10);
            push_op_code(out, *op);
            encode_items(out, args);
            out.push(0);
        },
        Value::EndSentinel => out.push(255),
    }
    assert(out@ =~= start + enc_value(v@));
}

/// Appends the encodings of values, one after another.
fn encode_items(out: &mut Vec<u8>, l: &Vec<Value>)
    ensures
        final(out)@ == old(out)@ + enc_items(values_view(l@)),
    decreases l,
{
    proof {
        lemma_values_view(l@);
    }
    let ghost s = values_view(l@);
    let mut i: usize = 0;
    assert(s.subrange(0, s.len() as int) =~= s);
    while i < l.len()
        invariant
            0 <= i <= l@.len(),
            s == values_view(l@),
            s.len() == l@.len(),
            forall|j: int| 0 <= j < l@.len() ==> #[trigger] s[j] == value_view(l@[j]),
            old(out)@ + enc_items(s) == out@ + enc_items(s.subrange(i as int, s.len() as int)),
        decreases l@.len() - i,
    {
        proof {
            lemma_vec_elem_decreases(*l, i as int);
        }
        let ghost before = out@;
        encode_value(out, &l[i]);
        proof {
            let t = s.subrange(i as int, s.len() as int);
            assert(t.subrange(1, t.len() as int) =~= s.subrange(i + 1, s.len() as int));
            assert(out@ + enc_items(s.subrange(i + 1, s.len() as int)) =~= before + enc_items(t));
        }
        i += 1;
    }
    proof {
        assert(s.subrange(i as int, s.len() as int) =~= Seq::<ValueV>::empty());
        assert(out@ =~= old(out)@ + enc_items(s));
    }
}

/// Appends the encodings of entries, one after another.
fn encode_entries(out: &mut Vec<u8>, d: &Vec<(String, Value)>)
    ensures
        final(out)@ == old(out)@ + enc_entries(entries_view(d@)),
    decreases d,
{
    proof {
        lemma_entries_view(d@);
    }
    let ghost s = entries_view(d@);
    let mut i: usize = 0;
    assert(s.subrange(0, s.len() as int) =~= s);
    while i < d.len()
        invariant
            0 <= i <= d@.len(),
            s == entries_view(d@),
            s.len() == d@.len(),
            forall|j: int|
                0 <= j < d@.len() ==> #[trigger] s[j] == (d@[j].0@, value_view(d@[j].1)),
            old(out)@ + enc_entries(s) == out@ + enc_entries(s.subrange(i as int, s.len() as int)),
        decreases d@.len() - i,
    {
        proof {
            lemma_entry_decreases(*d, i as int);
        }
        let ghost before = out@;
        out.push(1);
        encode_text(out, d[i].0.as_str());
        encode_value(out, &d[i].1);
        proof {
            let t = s.subrange(i as int, s.len() as int);
            assert(t.subrange(1, t.len() as int) =~= s.subrange(i + 1, s.len() as int));
            assert(out@ + enc_entries(s.subrange(i + 1, s.len() as int)) =~= before + enc_entries(
                t,
            ));
        }
        i += 1;
    }
    proof {
        assert(s.subrange(i as int, s.len() as int) =~= Seq::<(Seq<char>, ValueV)>::empty());
        assert(out@ =~= old(out)@ + enc_entries(s));
    }
}

impl Tuple {
    /// The bytes of this tuple: its tag, then its elements. Byte order of
    /// encoded tuples follows the order of their elements.
    pub fn encode(&self) -> (r: Vec<u8>)
        ensures
            r@ == enc_tuple(self@),
    {
        let mut out: Vec<u8> = Vec::new();
        let c: u8 = match self.prefix {
            Prefix::Null => 0,
            Prefix::Data(DataKind::Value) => 1,
            Prefix::Data(DataKind::Node) => 2,
            Prefix::Data(DataKind::Edge) => 3,
            Prefix::Data(DataKind::Associate) => 4,
            Prefix::Data(DataKind::TypeAlias) => 5,
            Prefix::Data(DataKind::DataTuple) => 6,
        };
        out.push(c);
        encode_items(&mut out, &self.elems);
        assert(out@ =~= enc_tuple(self@));
        out
    }
}

/// The bytes from position `p` to the end.
pub open spec fn from(b: Seq<u8>, p: int) -> Seq<u8> {
    b.subrange(p, b.len() as int)
}

/// A number spelled by `n` bytes is below 256^n.
proof fn lemma_from_be_bound(s: Seq<u8>)
    ensures
        from_be(s) < pow256(s.len()),
    decreases s.len(),
{
    if s.len() > 0 {
        lemma_from_be_bound(s.drop_last());
        let h = from_be(s.drop_last());
        let p = pow256((s.len() - 1) as nat);
        assert(h * 256 + s.last() < 256 * p) by (nonlinear_arith)
            requires
                h < p,
                s.last() < 256,
        ;
    }
}

/// Reads `n` bytes from position `pos` as a big-endian number.
fn read_be(b: &Vec<u8>, pos: usize, n: usize) -> (r: u128)
    requires
        pos + n <= b@.len(),
        n <= 16,
    ensures
        r as nat == from_be(b@.subrange(pos as int, pos + n)),
{
    let mut acc: u128 = 0;
    let mut i: usize = 0;
    let _len = b.len();
    proof {
        lemma_pow256_values();
        assert(b@.subrange(pos as int, pos as int) =~= Seq::<u8>::empty());
    }
    while i < n
        invariant
            pos + n <= b@.len(),
            n <= 16,
            0 <= i <= n,
            acc as nat == from_be(b@.subrange(pos as int, pos + i)),
            pow256(16) == 0x1_0000_0000_0000_0000_0000_0000_0000_0000,
            b@.len() <= usize::MAX,
        decreases n - i,
    {
        let ghost s = b@.subrange(pos as int, pos + i + 1);
        proof {
            assert(s.drop_last() =~= b@.subrange(pos as int, pos + i));
            lemma_from_be_bound(s);
            lemma_pow_mono(s.len(), 16);
            assert(from_be(s) == from_be(s.drop_last()) * 256 + s.last() as nat);
            assert(s.last() == b@[pos + i]);
            assert(acc * 256 + b@[pos + i] < 0x1_0000_0000_0000_0000_0000_0000_0000_0000);
        }
        let byte = b[pos + i];
        assert(acc * 256 <= u128::MAX - 255);
        let hi: u128 = acc * 256;
        acc = hi + byte as u128;
        i += 1;
    }
    acc
}

proof fn lemma_pow_mono(m: nat, n: nat)
    requires
        m <= n,
    ensures
        pow256(m) <= pow256(n),
    decreases n,
{
    if m < n {
        lemma_pow_mono(m, (n - 1) as nat);
    }
}

/// Relies on `char::from_u32`: it gives the character of a code point that is
/// at most 0x10FFFF and no surrogate, and `None` for any other number.
#[verifier::external_body]
fn char_from_code(u: u32) -> (r: Option<char>)
    ensures
        is_char_code(u) ==> r == Some(u as char),
        !is_char_code(u) ==> r is None,
{
    char::from_u32(u)
}

/// Relies on `String::push`: it appends one character.
#[verifier::external_body]
fn push_char(s: &mut String, c: char)
    ensures
        final(s)@ == old(s)@.push(c),
{
    s.push(c)
}

pub open spec fn text_from(acc: Seq<char>, off: nat, r: Option<(Seq<char>, nat)>) -> Option<
    (Seq<char>, nat),
> {
    match r {
        Some((rest, k)) => Some((acc + rest, off + k)),
        None => None,
    }
}

/// Reads a text at position `pos`.
fn decode_text(b: &Vec<u8>, pos: usize) -> (r: Option<(String, usize)>)
    requires
        pos <= b@.len(),
    ensures
        match r {
            Some((s, k)) => dec_text(from(b@, pos as int)) == Some((s@, k as nat)) && 1 <= k <= b@.len()
                - pos,
            None => dec_text(from(b@, pos as int)) is None,
        },
{
    let mut acc = String::new();
    let mut p: usize = pos;
    proof {
        assert(acc@ + Seq::<char>::empty() =~= acc@);
    }
    while p < b.len()
        invariant
            pos <= p <= b@.len(),
            dec_text(from(b@, pos as int)) == text_from(
                acc@,
                (p - pos) as nat,
                dec_text(from(b@, p as int)),
            ),
        decreases b@.len() - p,
    {
        let ghost t = from(b@, p as int);
        if b[p] == 0 {
            proof {
                assert(acc@ + Seq::<char>::empty() =~= acc@);
            }
            return Some((acc, p - pos + 1));
        }
        if b[p] != 1 || b.len() - p < 5 {
            return None;
        }
        let code = read_be(b, p + 1, 4);
        proof {
            assert(t.subrange(1, 5) =~= b@.subrange(p + 1, p + 5));
            lemma_from_be_bound(t.subrange(1, 5));
            lemma_pow256_values();
        }
        let c = match char_from_code(code as u32) {
            Some(c) => c,
            None => return None,
        };
        let ghost before = acc@;
        push_char(&mut acc, c);
        proof {
            assert(t.subrange(5, t.len() as int) =~= from(b@, p + 5));
            let r = dec_text(from(b@, p + 5));
            if r is Some {
                assert(before + (seq![c] + r->Some_0.0) =~= acc@ + r->Some_0.0);
            }
        }
        p = p + 5;
    }
    None
}

pub open spec fn items_from(acc: Seq<ValueV>, off: nat, r: Option<(Seq<ValueV>, nat)>) -> Option<
    (Seq<ValueV>, nat),
> {
    match r {
        Some((rest, k)) => Some((acc + rest, off + k)),
        None => None,
    }
}

pub open spec fn entries_from(
    acc: Seq<(Seq<char>, ValueV)>,
    off: nat,
    r: Option<(Seq<(Seq<char>, ValueV)>, nat)>,
) -> Option<(Seq<(Seq<char>, ValueV)>, nat)> {
    match r {
        Some((rest, k)) => Some((acc + rest, off + k)),
        None => None,
    }
}

fn op_from_code(c: u8) -> (r: Option<Op>)
    ensures
        r == op_of_code(c),
{
    match c {
        0 => Some(Op::Add),
        1 => Some(Op::Sub),
        2 => Some(Op::Mul),
        3 => Some(Op::Div),
        4 => Some(Op::Eq),
        5 => Some(Op::Ne),
        6 => Some(Op::Or),
        7 => Some(Op::And),
        8 => Some(Op::Mod),
        9 => Some(Op::Gt),
        10 => Some(Op::Ge),
        11 => Some(Op::Lt),
        12 => Some(Op::Le),
        13 => Some(Op::Pow),
        14 => Some(Op::Coalesce),
        15 => Some(Op::Negate),
        16 => Some(Op::Minus),
        _ => None,
    }
}

/// Reads one value at position `pos`.
pub fn decode_value(b: &Vec<u8>, pos: usize) -> (r: Option<(Value, usize)>)
    requires
        pos <= b@.len(),
    ensures
        match r {
            Some((v, k)) => dec_value(from(b@, pos as int)) == Some((v@, k as nat)) && 1 <= k
                <= b@.len() - pos,
            None => dec_value(from(b@, pos as int)) is None,
        },
    decreases b@.len() - pos, 0nat,
{
    let ghost t = from(b@, pos as int);
    if pos >= b.len() {
        return None;
    }
    let n = b.len() - pos;
    let tag = b[pos];
    proof {
        assert(t.subrange(1, t.len() as int) =~= from(b@, pos + 1));
        lemma_pow256_values();
    }
    if tag == 1 {
        Some((Value::Null, 1))
    } else if tag == 2 {
        if n >= 2 && b[pos + 1] <= 1 {
            Some((Value::Bool(b[pos + 1] == 1), 2))
        } else {
            None
        }
    } else if tag == 3 || tag == 4 {
        if n < 9 {
            return None;
        }
        let x = read_be(b, pos + 1, 8);
        proof {
            assert(t.subrange(1, 9) =~= b@.subrange(pos + 1, pos + 9));
            lemma_from_be_bound(b@.subrange(pos + 1, pos + 9));
        }
        if tag == 3 {
            Some((Value::UInt(x as u64), 9))
        } else {
            Some((Value::Int((x as i128 - 0x8000_0000_0000_0000) as i64), 9))
        }
    } else if tag == 5 {
        if n < 17 {
            return None;
        }
        let x = read_be(b, pos + 1, 16);
        proof {
            assert(t.subrange(1, 17) =~= b@.subrange(pos + 1, pos + 17));
        }
        Some((Value::Uuid(x), 17))
    } else if tag == 6 || tag == 9 {
        match decode_text(b, pos + 1) {
            Some((s, k)) => Some((if tag == 6 { Value::Text(s) } else { Value::Variable(s) }, k + 1)),
            None => None,
        }
    } else if tag == 7 {
        match decode_items(b, pos + 1) {
            Some((l, k)) => Some((Value::List(l), k + 1)),
            None => None,
        }
    } else if tag == 8 {
        match decode_entries(b, pos + 1) {
            Some((d, k)) => Some((Value::Dict(d), k + 1)),
            None => None,
        }
    } else if tag == 10 {
        if n < 2 {
            return None;
        }
        let op = match op_from_code(b[pos + 1]) {
            Some(op) => op,
            None => return None,
        };
        proof {
            assert(t.subrange(2, t.len() as int) =~= from(b@, pos + 2));
        }
        match decode_items(b, pos + 2) {
            Some((l, k)) => Some((Value::Apply(op, l), k + 2)),
            None => None,
        }
    } else if tag == 255 {
        Some((Value::EndSentinel, 1))
    } else {
        None
    }
}

/// Reads values up to a closing byte 0, at position `pos`.
fn decode_items(b: &Vec<u8>, pos: usize) -> (r: Option<(Vec<Value>, usize)>)
    requires
        pos <= b@.len(),
    ensures
        match r {
            Some((l, k)) => dec_items(from(b@, pos as int)) == Some((values_view(l@), k as nat))
                && 1 <= k <= b@.len() - pos,
            None => dec_items(from(b@, pos as int)) is None,
        },
    decreases b@.len() - pos, 1nat,
{
    let mut out: Vec<Value> = Vec::new();
    let mut p: usize = pos;
    proof {
        assert(values_view(out@) + Seq::<ValueV>::empty() =~= values_view(out@));
    }
    while p < b.len()
        invariant
            pos <= p <= b@.len(),
            dec_items(from(b@, pos as int)) == items_from(
                values_view(out@),
                (p - pos) as nat,
                dec_items(from(b@, p as int)),
            ),
        decreases b@.len() - p,
    {
        let ghost t = from(b@, p as int);
        if b[p] == 0 {
            proof {
                assert(values_view(out@) + Seq::<ValueV>::empty() =~= values_view(out@));
            }
            return Some((out, p - pos + 1));
        }
        let (v, k) = match decode_value(b, p) {
            Some(x) => x,
            None => return None,
        };
        let ghost before = values_view(out@);
        proof {
            lemma_values_view_push(out@, v);
        }
        out.push(v);
        proof {
            assert(t.subrange(k as int, t.len() as int) =~= from(b@, p + k));
            let r = dec_items(from(b@, p + k));
            if r is Some {
                assert(before + (seq![v@] + r->Some_0.0) =~= values_view(out@) + r->Some_0.0);
            }
        }
        p = p + k;
    }
    None
}

/// Reads entries up to a closing byte 0, at position `pos`.
#[verifier::rlimit(40)]
fn decode_entries(b: &Vec<u8>, pos: usize) -> (r: Option<(Vec<(String, Value)>, usize)>)
    requires
        pos <= b@.len(),
    ensures
        match r {
            Some((d, k)) => dec_entries(from(b@, pos as int)) == Some((entries_view(d@), k as nat))
                && 1 <= k <= b@.len() - pos,
            None => dec_entries(from(b@, pos as int)) is None,
        },
    decreases b@.len() - pos, 1nat,
{
    let mut out: Vec<(String, Value)> = Vec::new();
    let mut p: usize = pos;
    proof {
        assert(entries_view(out@) + Seq::<(Seq<char>, ValueV)>::empty() =~= entries_view(out@));
    }
    while p < b.len()
        invariant
            pos <= p <= b@.len(),
            dec_entries(from(b@, pos as int)) == entries_from(
                entries_view(out@),
                (p - pos) as nat,
                dec_entries(from(b@, p as int)),
            ),
        decreases b@.len() - p,
    {
        let ghost t = from(b@, p as int);
        if b[p] == 0 {
            proof {
                assert(entries_view(out@) + Seq::<(Seq<char>, ValueV)>::empty() =~= entries_view(
                    out@,
                ));
            }
            return Some((out, p - pos + 1));
        }
        if b[p] != 1 {
            return None;
        }
        proof {
            assert(t.subrange(1, t.len() as int) =~= from(b@, p + 1));
        }
        let (key, k1) = match decode_text(b, p + 1) {
            Some(x) => x,
            None => return None,
        };
        let p2 = p + 1 + k1;
        proof {
            assert(t.subrange((k1 + 1) as int, t.len() as int) =~= from(b@, p2 as int));
        }
        let (v, k2) = match decode_value(b, p2) {
            Some(x) => x,
            None => return None,
        };
        let ghost before = entries_view(out@);
        let ghost kv = key@;
        let ghost vv = v@;
        let ghost prev = out@;
        out.push((key, v));
        proof {
            assert(out@.drop_last() =~= prev);
            assert(entries_view(out@) == before.push((kv, vv)));
            assert(from(b@, p2 as int).subrange(k2 as int, from(b@, p2 as int).len() as int)
                =~= from(b@, p2 + k2));
            let r = dec_entries(from(b@, p2 + k2));
            if r is Some {
                assert(before + (seq![(kv, vv)] + r->Some_0.0) =~= entries_view(out@)
                    + r->Some_0.0);
            }
        }
        p = p2 + k2;
    }
    None
}

impl Tuple {
    /// Reads a tuple from its bytes; fails with `BadDataFormat` on bytes that
    /// no tuple encodes to, and on a dictionary whose keys are out of order.
    pub fn decode(b: &Vec<u8>) -> (r: Result<Tuple, CozoError>)
        ensures
            match r {
                Ok(t) => dec_tuple_checked(b@) == Some(t@),
                Err(e) => e is BadDataFormat && dec_tuple_checked(b@) is None,
            },
    {
        if b.len() == 0 {
            return Err(CozoError::BadDataFormat);
        }
        let prefix = match b[0] {
            0 => Prefix::Null,
            1 => Prefix::Data(DataKind::Value),
            2 => Prefix::Data(DataKind::Node),
            3 => Prefix::Data(DataKind::Edge),
            4 => Prefix::Data(DataKind::Associate),
            5 => Prefix::Data(DataKind::TypeAlias),
            6 => Prefix::Data(DataKind::DataTuple),
            _ => return Err(CozoError::BadDataFormat),
        };
        let mut out: Vec<Value> = Vec::new();
        let mut p: usize = 1;
        proof {
            assert(values_view(out@) + Seq::<ValueV>::empty() =~= values_view(out@));
        }
        while p < b.len()
            invariant
                1 <= p <= b@.len(),
                dec_elems(from(b@, 1)) == match dec_elems(from(b@, p as int)) {
                    Some(r) => Some(values_view(out@) + r),
                    None => None,
                },
            decreases b@.len() - p,
        {
            let ghost t = from(b@, p as int);
            let (v, k) = match decode_value(b, p) {
                Some(x) => x,
                None => return Err(CozoError::BadDataFormat),
            };
            let ghost before = values_view(out@);
            proof {
                lemma_values_view_push(out@, v);
            }
            out.push(v);
            proof {
                assert(t.subrange(k as int, t.len() as int) =~= from(b@, p + k));
                let r = dec_elems(from(b@, p + k));
                if r is Some {
                    assert(before + (seq![v@] + r->Some_0) =~= values_view(out@) + r->Some_0);
                }
            }
            p = p + k;
        }
        proof {
            assert(from(b@, p as int) =~= Seq::<u8>::empty());
            assert(values_view(out@) + Seq::<ValueV>::empty() =~= values_view(out@));
            assert(from(b@, 1) =~= b@.subrange(1, b@.len() as int));
        }
        if !values_wf(&out) {
            return Err(CozoError::BadDataFormat);
        }
        Ok(Tuple { prefix, elems: out })
    }
}

/// `x` sorts before `y`: at the first position where they differ, `x` has the smaller byte.
pub open spec fn bytes_lt(x: Seq<u8>, y: Seq<u8>) -> bool {
    exists|i: int|
        0 <= i < x.len() && i < y.len() && #[trigger] x.subrange(0, i) == y.subrange(0, i) && x[i]
            < y[i]
}

/// Texts in character order, a proper prefix first.
pub open spec fn text_lt(a: Seq<char>, b: Seq<char>) -> bool
    decreases a.len(),
{
    if b.len() == 0 {
        false
    } else if a.len() == 0 {
        true
    } else if a[0] != b[0] {
        (a[0] as u32) < (b[0] as u32)
    } else {
        text_lt(a.subrange(1, a.len() as int), b.subrange(1, b.len() as int))
    }
}

/// The values that serve in lookup keys.
pub open spec fn is_key_scalar(v: ValueV) -> bool {
    v is Null || v is Bool || v is UInt || v is Int || v is Uuid || v is Text
}

/// Order of key values: by kind first (null, booleans, unsigned, signed,
/// uuids, texts), then by content.
pub open spec fn key_lt(a: ValueV, b: ValueV) -> bool {
    if enc_value(a)[0] != enc_value(b)[0] {
        enc_value(a)[0] < enc_value(b)[0]
    } else {
        match (a, b) {
            (ValueV::Bool(x), ValueV::Bool(y)) => !x && y,
            (ValueV::UInt(x), ValueV::UInt(y)) => x < y,
            (ValueV::Int(x), ValueV::Int(y)) => x < y,
            (ValueV::Uuid(x), ValueV::Uuid(y)) => x < y,
            (ValueV::Text(x), ValueV::Text(y)) => text_lt(x, y),
            _ => false,
        }
    }
}

/// An order decided inside two byte strings stays decided whatever follows them.
proof fn lemma_lt_extend(x: Seq<u8>, y: Seq<u8>, rx: Seq<u8>, ry: Seq<u8>)
    requires
        bytes_lt(x, y),
    ensures
        bytes_lt(x + rx, y + ry),
{
    let i = choose|i: int|
        0 <= i < x.len() && i < y.len() && #[trigger] x.subrange(0, i) == y.subrange(0, i) && x[i]
            < y[i];
    assert((x + rx).subrange(0, i) =~= x.subrange(0, i));
    assert((y + ry).subrange(0, i) =~= y.subrange(0, i));
    assert((x + rx)[i] == x[i]);
    assert((y + ry)[i] == y[i]);
}

/// A common head does not change the order.
proof fn lemma_lt_head(c: Seq<u8>, x: Seq<u8>, y: Seq<u8>)
    requires
        bytes_lt(x, y),
    ensures
        bytes_lt(c + x, c + y),
{
    let i = choose|i: int|
        0 <= i < x.len() && i < y.len() && #[trigger] x.subrange(0, i) == y.subrange(0, i) && x[i]
            < y[i];
    let j = c.len() + i;
    assert((c + x).subrange(0, j) =~= c + x.subrange(0, i));
    assert((c + y).subrange(0, j) =~= c + y.subrange(0, i));
    assert((c + x)[j] == x[i]);
    assert((c + y)[j] == y[i]);
}

/// Two byte strings that differ first at position `i`, with the smaller byte in the first.
proof fn lemma_lt_at(x: Seq<u8>, y: Seq<u8>, i: int)
    requires
        0 <= i < x.len(),
        i < y.len(),
        x.subrange(0, i) == y.subrange(0, i),
        x[i] < y[i],
    ensures
        bytes_lt(x, y),
{
    assert(x.subrange(0, i) == y.subrange(0, i));
}

/// Big-endian bytes sort as the numbers do.
proof fn lemma_be_order(x: nat, y: nat, n: nat)
    requires
        x < y < pow256(n),
    ensures
        bytes_lt(be_bytes(x, n), be_bytes(y, n)),
    decreases n,
{
    let bx = be_bytes(x, n);
    let by = be_bytes(y, n);
    assert(n > 0);
    assert(x / 256 < pow256((n - 1) as nat)) by (nonlinear_arith)
        requires
            x < 256 * pow256((n - 1) as nat),
    ;
    assert(y / 256 < pow256((n - 1) as nat)) by (nonlinear_arith)
        requires
            y < 256 * pow256((n - 1) as nat),
    ;
    lemma_be_round_trip(x / 256, (n - 1) as nat);
    lemma_be_round_trip(y / 256, (n - 1) as nat);
    assert(x / 256 <= y / 256) by (nonlinear_arith)
        requires
            x < y,
    ;
    if x / 256 < y / 256 {
        lemma_be_order(x / 256, y / 256, (n - 1) as nat);
        lemma_lt_extend(
            be_bytes(x / 256, (n - 1) as nat),
            be_bytes(y / 256, (n - 1) as nat),
            seq![(x % 256) as u8],
            seq![(y % 256) as u8],
        );
        assert(bx =~= be_bytes(x / 256, (n - 1) as nat) + seq![(x % 256) as u8]);
        assert(by =~= be_bytes(y / 256, (n - 1) as nat) + seq![(y % 256) as u8]);
    } else {
        assert(x % 256 < y % 256) by (nonlinear_arith)
            requires
                x < y,
                x / 256 == y / 256,
        ;
        let k = (n - 1) as int;
        assert(bx.subrange(0, k) =~= by.subrange(0, k));
        lemma_lt_at(bx, by, k);
    }
}

/// Texts sort, as bytes, in character order, whatever follows them.
proof fn lemma_text_order(a: Seq<char>, b: Seq<char>, ra: Seq<u8>, rb: Seq<u8>)
    requires
        text_lt(a, b),
    ensures
        bytes_lt(enc_text(a) + ra, enc_text(b) + rb),
    decreases a.len(),
{
    let ea = enc_text(a) + ra;
    let eb = enc_text(b) + rb;
    if a.len() == 0 {
        assert(ea[0] == 0);
        assert(eb[0] == 1);
        assert(ea.subrange(0, 0) =~= eb.subrange(0, 0));
        lemma_lt_at(ea, eb, 0);
    } else {
        let ta = a.subrange(1, a.len() as int);
        let tb = b.subrange(1, b.len() as int);
        lemma_pow256_values();
        vstd::utf8::char_is_scalar(a[0]);
        vstd::utf8::char_is_scalar(b[0]);
        if a[0] != b[0] {
            lemma_be_order(a[0] as u32 as nat, b[0] as u32 as nat, 4);
            lemma_lt_extend(
                be_bytes(a[0] as u32 as nat, 4),
                be_bytes(b[0] as u32 as nat, 4),
                enc_text(ta) + ra,
                enc_text(tb) + rb,
            );
            lemma_lt_head(
                seq![1u8],
                be_bytes(a[0] as u32 as nat, 4) + (enc_text(ta) + ra),
                be_bytes(b[0] as u32 as nat, 4) + (enc_text(tb) + rb),
            );
            assert(ea =~= seq![1u8] + (be_bytes(a[0] as u32 as nat, 4) + (enc_text(ta) + ra)));
            assert(eb =~= seq![1u8] + (be_bytes(b[0] as u32 as nat, 4) + (enc_text(tb) + rb)));
        } else {
            lemma_text_order(ta, tb, ra, rb);
            let c = seq![1u8] + be_bytes(a[0] as u32 as nat, 4);
            lemma_lt_head(c, enc_text(ta) + ra, enc_text(tb) + rb);
            assert(ea =~= c + (enc_text(ta) + ra));
            assert(eb =~= c + (enc_text(tb) + rb));
        }
    }
}

/// Numbers of one kind sort, as bytes, as the numbers do, whatever follows them.
proof fn lemma_number_order(tag: u8, x: nat, y: nat, n: nat, ra: Seq<u8>, rb: Seq<u8>)
    requires
        x < y < pow256(n),
    ensures
        bytes_lt(seq![tag] + be_bytes(x, n) + ra, seq![tag] + be_bytes(y, n) + rb),
{
    lemma_be_order(x, y, n);
    lemma_lt_extend(be_bytes(x, n), be_bytes(y, n), ra, rb);
    lemma_lt_head(seq![tag], be_bytes(x, n) + ra, be_bytes(y, n) + rb);
    assert(seq![tag] + be_bytes(x, n) + ra =~= seq![tag] + (be_bytes(x, n) + ra));
    assert(seq![tag] + be_bytes(y, n) + rb =~= seq![tag] + (be_bytes(y, n) + rb));
}

/// Key values sort, as bytes, in their order, whatever follows them.
#[verifier::rlimit(40)]
pub proof fn lemma_key_order(a: ValueV, b: ValueV, ra: Seq<u8>, rb: Seq<u8>)
    requires
        is_key_scalar(a),
        is_key_scalar(b),
        key_lt(a, b),
    ensures
        bytes_lt(enc_value(a) + ra, enc_value(b) + rb),
{
    let ea = enc_value(a) + ra;
    let eb = enc_value(b) + rb;
    lemma_pow256_values();
    if enc_value(a)[0] != enc_value(b)[0] {
        assert(ea.subrange(0, 0) =~= eb.subrange(0, 0));
        lemma_lt_at(ea, eb, 0);
    } else if a is Bool {
        assert(ea.subrange(0, 1) =~= eb.subrange(0, 1));
        lemma_lt_at(ea, eb, 1);
    } else if a is UInt {
        lemma_number_order(3, a->UInt_0 as nat, b->UInt_0 as nat, 8, ra, rb);
    } else if a is Int {
        lemma_number_order(4, int_code(a->Int_0), int_code(b->Int_0), 8, ra, rb);
    } else if a is Uuid {
        lemma_number_order(5, a->Uuid_0 as nat, b->Uuid_0 as nat, 16, ra, rb);
    } else if a is Text {
        lemma_text_order(a->Text_0, b->Text_0, ra, rb);
        lemma_lt_head(seq![6u8], enc_text(a->Text_0) + ra, enc_text(b->Text_0) + rb);
        assert(ea =~= seq![6u8] + (enc_text(a->Text_0) + ra));
        assert(eb =~= seq![6u8] + (enc_text(b->Text_0) + rb));
    }
}

/// The encoding of values one after another is the concatenation of their encodings.
proof fn lemma_enc_items_concat(x: Seq<ValueV>, y: Seq<ValueV>)
    ensures
        enc_items(x + y) == enc_items(x) + enc_items(y),
    decreases x.len(),
{
    if x.len() == 0 {
        assert(x + y =~= y);
    } else {
        lemma_enc_items_concat(x.subrange(1, x.len() as int), y);
        assert((x + y).subrange(1, (x + y).len() as int) =~= x.subrange(1, x.len() as int) + y);
        assert(enc_items(x + y) =~= enc_items(x) + enc_items(y));
    }
}

proof fn lemma_enc_items_single(a: ValueV)
    ensures
        enc_items(seq![a]) == enc_value(a),
{
    assert(seq![a].subrange(1, 1) =~= Seq::<ValueV>::empty());
    assert(enc_items(Seq::<ValueV>::empty()) == Seq::<u8>::empty());
    assert(enc_value(a) + Seq::<u8>::empty() =~= enc_value(a));
}

/// Encoded tuples sort as their elements do: two tuples with the same tag that
/// agree up to some position, where the first holds the smaller key value,
/// have the first one's bytes first, whatever the elements after it.
pub proof fn lemma_tuple_order(
    prefix: Prefix,
    head: Seq<ValueV>,
    a: ValueV,
    b: ValueV,
    rest_a: Seq<ValueV>,
    rest_b: Seq<ValueV>,
)
    requires
        is_key_scalar(a),
        is_key_scalar(b),
        key_lt(a, b),
    ensures
        bytes_lt(
            enc_tuple(TupleV { prefix, elems: head + seq![a] + rest_a }),
            enc_tuple(TupleV { prefix, elems: head + seq![b] + rest_b }),
        ),
{
    lemma_enc_items_concat(head + seq![a], rest_a);
    lemma_enc_items_concat(head, seq![a]);
    lemma_enc_items_concat(head + seq![b], rest_b);
    lemma_enc_items_concat(head, seq![b]);
    lemma_enc_items_single(a);
    lemma_enc_items_single(b);
    lemma_key_order(a, b, enc_items(rest_a), enc_items(rest_b));
    let c = seq![prefix_code(prefix)] + enc_items(head);
    lemma_lt_head(c, enc_value(a) + enc_items(rest_a), enc_value(b) + enc_items(rest_b));
    assert(enc_tuple(TupleV { prefix, elems: head + seq![a] + rest_a }) =~= c + (enc_value(a)
        + enc_items(rest_a)));
    assert(enc_tuple(TupleV { prefix, elems: head + seq![b] + rest_b }) =~= c + (enc_value(b)
        + enc_items(rest_b)));
}

/// Decoding with the key-order check gives back every tuple whose
/// dictionaries have their keys in order.
pub proof fn lemma_checked_round_trip(t: TupleV)
    requires
        all_wf(t.elems),
    ensures
        dec_tuple_checked(enc_tuple(t)) == Some(t),
{
    lemma_tuple_round_trip(t);
}

/// A copy of a byte string.
pub fn clone_bytes(b: &Vec<u8>) -> (r: Vec<u8>)
    ensures
        r@ == b@,
{
    let mut out: Vec<u8> = Vec::new();
    let mut i: usize = 0;
    while i < b.len()
        invariant
            0 <= i <= b@.len(),
            out@ == b@.subrange(0, i as int),
        decreases b@.len() - i,
    {
        out.push(b[i]);
        assert(out@ =~= b@.subrange(0, i + 1));
        i += 1;
    }
    assert(out@ =~= b@);
    out
}

} // verus!
