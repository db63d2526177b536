//! The self-describing value tree: a closed set of variants covering every
//! kind the wire format can carry, together with the specification of its
//! encoding and of its decoding from bytes.
//!
//! Floats are carried as their IEEE-754 bit patterns, so that the tree and
//! every contract about it stay within integer arithmetic; converting the
//! bits to native floats is the caller's affair.

use vstd::prelude::*;

use crate::decoder::DecodeError;
use crate::format::{
    enc_array_len, enc_bin_len, enc_bool, enc_double, enc_ext, enc_float, enc_map_len, enc_nil,
    enc_signed, enc_str_len, enc_unsigned, lemma_parse_consumed, lemma_parse_enc_array_len,
    lemma_parse_enc_bin, lemma_parse_enc_double, lemma_parse_enc_ext, lemma_parse_enc_float,
    lemma_parse_enc_map_len, lemma_parse_enc_signed, lemma_parse_enc_str, lemma_parse_enc_unsigned,
    parse_item, Item, ParseStep,
};

verus! {

/// An owned self-describing value.
#[derive(Debug, PartialEq)]
pub enum Value {
    Nil,
    Boolean(bool),
    Integer(i64),
    Unsigned(u64),
    /// A 32-bit float, as its IEEE-754 bit pattern.
    Float(u32),
    /// A 64-bit float, as its IEEE-754 bit pattern.
    Double(u64),
    Array(Vec<Value>),
    /// Key/value pairs in wire order; duplicate keys are permitted.
    Mapping(Vec<(Value, Value)>),
    /// A string payload, kept as raw UTF-8 bytes.
    Str(Vec<u8>),
    Binary(Vec<u8>),
    /// An extension item: a non-negative type tag and its payload.
    Extended(i8, Vec<u8>),
}

/// The mathematical shadow of [`Value`]: sequences in place of vectors.
pub enum SpecValue {
    Nil,
    Boolean(bool),
    Integer(i64),
    Unsigned(u64),
    Float(u32),
    Double(u64),
    Array(Seq<SpecValue>),
    Mapping(Seq<(SpecValue, SpecValue)>),
    Str(Seq<u8>),
    Binary(Seq<u8>),
    Extended(i8, Seq<u8>),
}

/// The abstraction of an owned value.
pub open spec fn view_value(v: Value) -> SpecValue
    decreases v,
{
    match v {
        Value::Nil => SpecValue::Nil,
        Value::Boolean(b) => SpecValue::Boolean(b),
        Value::Integer(i) => SpecValue::Integer(i),
        Value::Unsigned(u) => SpecValue::Unsigned(u),
        Value::Float(bits) => SpecValue::Float(bits),
        Value::Double(bits) => SpecValue::Double(bits),
        Value::Array(vs) => SpecValue::Array(view_values(vs@)),
        Value::Mapping(ps) => SpecValue::Mapping(view_pairs(ps@)),
        Value::Str(b) => SpecValue::Str(b@),
        Value::Binary(b) => SpecValue::Binary(b@),
        Value::Extended(t, b) => SpecValue::Extended(t, b@),
    }
}

/// The abstraction of a sequence of owned values.
pub open spec fn view_values(s: Seq<Value>) -> Seq<SpecValue>
    decreases s,
{
    if s.len() == 0 {
        Seq::empty()
    } else {
        seq![view_value(s[0])] + view_values(s.subrange(1, s.len() as int))
    }
}

/// The abstraction of a sequence of owned key/value pairs.
pub open spec fn view_pairs(s: Seq<(Value, Value)>) -> Seq<(SpecValue, SpecValue)>
    decreases s,
{
    if s.len() == 0 {
        Seq::empty()
    } else {
        seq![(view_value(s[0].0), view_value(s[0].1))] + view_pairs(s.subrange(1, s.len() as int))
    }
}

impl View for Value {
    type V = SpecValue;

    open spec fn view(&self) -> SpecValue {
        view_value(*self)
    }
}

/// Element-wise reading of [`view_values`].
pub proof fn lemma_view_values(s: Seq<Value>)
    ensures
        view_values(s).len() == s.len(),
        forall|i: int| 0 <= i < s.len() ==> view_values(s)[i] == view_value(s[i]),
    decreases s,
{
    if s.len() > 0 {
        lemma_view_values(s.subrange(1, s.len() as int));
    }
}

/// Element-wise reading of [`view_pairs`].
pub proof fn lemma_view_pairs(s: Seq<(Value, Value)>)
    ensures
        view_pairs(s).len() == s.len(),
        forall|i: int|
            0 <= i < s.len() ==> view_pairs(s)[i] == (view_value(s[i].0), view_value(s[i].1)),
    decreases s,
{
    if s.len() > 0 {
        lemma_view_pairs(s.subrange(1, s.len() as int));
    }
}

/// Viewing a run of values and then one more is viewing the extended run.
pub proof fn lemma_view_values_push(s: Seq<Value>, x: Value)
    ensures
        view_values(s.push(x)) == view_values(s).push(view_value(x)),
    decreases s,
{
    if s.len() == 0 {
        assert(s.push(x)[0] == x);
        assert(s.push(x).subrange(1, 1) =~= Seq::<Value>::empty());
        assert(s =~= Seq::<Value>::empty());
        assert(view_values(Seq::<Value>::empty()) == Seq::<SpecValue>::empty());
        assert(view_values(s.push(x)) =~= view_values(s).push(view_value(x)));
    } else {
        assert(s.push(x)[0] == s[0]);
        assert(s.push(x).subrange(1, s.len() as int + 1) =~= s.subrange(1, s.len() as int).push(x));
        lemma_view_values_push(s.subrange(1, s.len() as int), x);
        assert(view_values(s.push(x)) =~= view_values(s).push(view_value(x)));
    }
}

/// Viewing a run of pairs and then one more is viewing the extended run.
pub proof fn lemma_view_pairs_push(s: Seq<(Value, Value)>, x: (Value, Value))
    ensures
        view_pairs(s.push(x)) == view_pairs(s).push((view_value(x.0), view_value(x.1))),
    decreases s,
{
    if s.len() == 0 {
        assert(s.push(x)[0] == x);
        assert(s.push(x).subrange(1, 1) =~= Seq::<(Value, Value)>::empty());
        assert(s =~= Seq::<(Value, Value)>::empty());
        assert(view_pairs(Seq::<(Value, Value)>::empty()) == Seq::<(SpecValue, SpecValue)>::empty());
        assert(view_pairs(s.push(x)) =~= view_pairs(s).push((view_value(x.0), view_value(x.1))));
    } else {
        assert(s.push(x)[0] == s[0]);
        assert(s.push(x).subrange(1, s.len() as int + 1) =~= s.subrange(1, s.len() as int).push(x));
        lemma_view_pairs_push(s.subrange(1, s.len() as int), x);
        assert(view_pairs(s.push(x)) =~= view_pairs(s).push((view_value(x.0), view_value(x.1))));
    }
}

// ---------------------------------------------------------------------------
// Which values the wire format can carry
// ---------------------------------------------------------------------------

/// A value is representable when every payload length and every element
/// count fits a 32-bit length field, and every extension type is
/// non-negative.  Every representable in-memory value encodes without
/// failure.
pub open spec fn wf_svalue(v: SpecValue) -> bool
    decreases v,
{
    match v {
        SpecValue::Str(b) => b.len() <= u32::MAX,
        SpecValue::Binary(b) => b.len() <= u32::MAX,
        SpecValue::Extended(t, b) => 0 <= t && b.len() <= u32::MAX,
        SpecValue::Array(items) => items.len() <= u32::MAX && (forall|i: int|
            0 <= i < items.len() ==> wf_svalue(#[trigger] items[i])),
        SpecValue::Mapping(ps) => ps.len() <= u32::MAX && (forall|i: int|
            0 <= i < ps.len() ==> wf_svalue((#[trigger] ps[i]).0) && wf_svalue(ps[i].1)),
        _ => true,
    }
}

// ---------------------------------------------------------------------------
// The encoding of a value tree
// ---------------------------------------------------------------------------

/// The canonical encoding of a whole value tree.
pub open spec fn enc_value(v: SpecValue) -> Seq<u8>
    decreases v,
{
    match v {
        SpecValue::Nil => enc_nil(),
        SpecValue::Boolean(b) => enc_bool(b),
        SpecValue::Integer(i) => enc_signed(i),
        SpecValue::Unsigned(u) => enc_unsigned(u),
        SpecValue::Float(bits) => enc_float(bits),
        SpecValue::Double(bits) => enc_double(bits),
        SpecValue::Str(b) => enc_str_len(b.len() as int) + b,
        SpecValue::Binary(b) => enc_bin_len(b.len() as int) + b,
        SpecValue::Extended(t, b) => enc_ext(t, b),
        SpecValue::Array(items) => enc_array_len(items.len() as int) + enc_values(items),
        SpecValue::Mapping(ps) => enc_map_len(ps.len() as int) + enc_pairs(ps),
    }
}

/// The concatenated encodings of a sequence of values.
pub open spec fn enc_values(s: Seq<SpecValue>) -> Seq<u8>
    decreases s,
{
    if s.len() == 0 {
        Seq::empty()
    } else {
        enc_value(s[0]) + enc_values(s.subrange(1, s.len() as int))
    }
}

/// The concatenated encodings of a sequence of key/value pairs.
pub open spec fn enc_pairs(s: Seq<(SpecValue, SpecValue)>) -> Seq<u8>
    decreases s,
{
    if s.len() == 0 {
        Seq::empty()
    } else {
        enc_value(s[0].0) + enc_value(s[0].1) + enc_pairs(s.subrange(1, s.len() as int))
    }
}

/// Every encoded value occupies at least one byte.
pub proof fn lemma_enc_value_len(v: SpecValue)
    ensures
        enc_value(v).len() >= 1,
{
}

// ---------------------------------------------------------------------------
// The decoding of a value tree
// ---------------------------------------------------------------------------

/// Decodes the whole value tree at the front of `s`: the item itself and,
/// for arrays and maps, as many child items as its header announces.
/// Returns the value and the number of bytes it occupies, or the exact kind
/// of failure.
#[verifier::opaque]
pub open spec fn dec_value(s: Seq<u8>) -> Result<(SpecValue, int), DecodeError>
    decreases s.len(), 0int, 0int,
{
    match parse_item(s) {
        ParseStep::Eos => Err(DecodeError::Truncated),
        ParseStep::More(_) => Err(DecodeError::Truncated),
        ParseStep::Invalid => Err(DecodeError::Reserved),
        ParseStep::Done(item, c) => match item {
            Item::Nil => Ok((SpecValue::Nil, c)),
            Item::Boolean(b) => Ok((SpecValue::Boolean(b), c)),
            Item::Unsigned(u) => Ok((SpecValue::Unsigned(u), c)),
            Item::Signed(i) => Ok((SpecValue::Integer(i), c)),
            Item::FloatBits(bits) => Ok((SpecValue::Float(bits), c)),
            Item::DoubleBits(bits) => Ok((SpecValue::Double(bits), c)),
            Item::StrBytes(b) => Ok((SpecValue::Str(b), c)),
            Item::BinBytes(b) => Ok((SpecValue::Binary(b), c)),
            Item::ExtBytes(t, b) => Ok((SpecValue::Extended(t, b), c)),
            Item::ArrayLen(n) => if c < 1 || c > s.len() {
                Err(DecodeError::Truncated)
            } else {
                match dec_values(s.subrange(c, s.len() as int), n as int) {
                    Err(e) => Err(e),
                    Ok((items, c2)) => Ok((SpecValue::Array(items), c + c2)),
                }
            },
            Item::MapLen(n) => if c < 1 || c > s.len() {
                Err(DecodeError::Truncated)
            } else {
                match dec_pairs(s.subrange(c, s.len() as int), n as int) {
                    Err(e) => Err(e),
                    Ok((ps, c2)) => Ok((SpecValue::Mapping(ps), c + c2)),
                }
            },
        },
    }
}

/// Decodes `n` consecutive value trees.
#[verifier::opaque]
pub open spec fn dec_values(s: Seq<u8>, n: int) -> Result<(Seq<SpecValue>, int), DecodeError>
    decreases s.len(), n, 1int,
{
    if n <= 0 {
        Ok((Seq::empty(), 0))
    } else {
        match dec_value(s) {
            Err(e) => Err(e),
            Ok((v, c)) => if c < 1 || c > s.len() {
                Err(DecodeError::Truncated)
            } else {
                match dec_values(s.subrange(c, s.len() as int), n - 1) {
                    Err(e) => Err(e),
                    Ok((items, c2)) => Ok((seq![v] + items, c + c2)),
                }
            },
        }
    }
}

/// Decodes `n` consecutive key/value pairs.
#[verifier::opaque]
pub open spec fn dec_pairs(s: Seq<u8>, n: int) -> Result<
    (Seq<(SpecValue, SpecValue)>, int),
    DecodeError,
>
    decreases s.len(), n, 2int,
{
    if n <= 0 {
        Ok((Seq::empty(), 0))
    } else {
        match dec_value(s) {
            Err(e) => Err(e),
            Ok((k, ck)) => if ck < 1 || ck > s.len() {
                Err(DecodeError::Truncated)
            } else {
                match dec_value(s.subrange(ck, s.len() as int)) {
                    Err(e) => Err(e),
                    Ok((v, cv)) => if cv < 1 || ck + cv > s.len() {
                        Err(DecodeError::Truncated)
                    } else {
                        match dec_pairs(s.subrange(ck + cv, s.len() as int), n - 1) {
                            Err(e) => Err(e),
                            Ok((ps, c2)) => Ok((seq![(k, v)] + ps, ck + cv + c2)),
                        }
                    },
                }
            },
        }
    }
}


// ---------------------------------------------------------------------------
// Bounds on what a decode consumes
// ---------------------------------------------------------------------------

/// A decoded value occupies at least its tag byte and at most the whole
/// input.
pub proof fn lemma_dec_value_bounds(s: Seq<u8>)
    ensures
        dec_value(s) matches Ok((_, c)) ==> 1 <= c <= s.len(),
    decreases s.len(), 0int, 0int,
{
    reveal(dec_value);
    reveal(dec_values);
    reveal(dec_pairs);
    lemma_parse_consumed(s);
    if let ParseStep::Done(item, c) = parse_item(s) {
        match item {
            Item::ArrayLen(n) => {
                if 1 <= c <= s.len() {
                    lemma_dec_values_bounds(s.subrange(c, s.len() as int), n as int);
                }
            },
            Item::MapLen(n) => {
                if 1 <= c <= s.len() {
                    lemma_dec_pairs_bounds(s.subrange(c, s.len() as int), n as int);
                }
            },
            _ => {},
        }
    }
}

/// Decoding `n` values consumes at most the whole input and yields exactly
/// `n` values.
pub proof fn lemma_dec_values_bounds(s: Seq<u8>, n: int)
    ensures
        dec_values(s, n) matches Ok((items, c)) ==> 0 <= c <= s.len() && items.len() == if n
            <= 0 { 0int } else { n },
    decreases s.len(), n, 1int,
{
    reveal(dec_values);
    reveal(dec_value);
    if n > 0 {
        lemma_dec_value_bounds(s);
        if let Ok((_, c)) = dec_value(s) {
            if 1 <= c <= s.len() {
                lemma_dec_values_bounds(s.subrange(c, s.len() as int), n - 1);
            }
        }
    }
}

/// Decoding `n` pairs consumes at most the whole input and yields exactly
/// `n` pairs.
#[verifier::rlimit(100)]
pub proof fn lemma_dec_pairs_bounds(s: Seq<u8>, n: int)
    ensures
        dec_pairs(s, n) matches Ok((ps, c)) ==> 0 <= c <= s.len() && ps.len() == if n <= 0 {
            0int
        } else {
            n
        },
    decreases s.len(), n, 2int,
{
    reveal(dec_pairs);
    reveal(dec_value);
    if n > 0 {
        lemma_dec_value_bounds(s);
        if let Ok((_, ck)) = dec_value(s) {
            if 1 <= ck <= s.len() {
                let s1 = s.subrange(ck, s.len() as int);
                lemma_dec_value_bounds(s1);
                if let Ok((_, cv)) = dec_value(s1) {
                    if 1 <= cv <= s1.len() {
                        assert(s.subrange(ck + cv, s.len() as int) =~= s1.subrange(
                            cv,
                            s1.len() as int,
                        ));
                        lemma_dec_pairs_bounds(s.subrange(ck + cv, s.len() as int), n - 1);
                    }
                }
            }
        }
    }
}

// ---------------------------------------------------------------------------
// Round trip: decoding an encoding gives the value back
// ---------------------------------------------------------------------------

/// Round trip for the scalar and payload-carrying kinds (everything but
/// arrays and maps): decoding the encoding yields the value back.
#[verifier::rlimit(100)]
proof fn lemma_dec_enc_leaf(v: SpecValue, rest: Seq<u8>)
    requires
        wf_svalue(v),
        !(v is Array),
        !(v is Mapping),
    ensures
        dec_value(enc_value(v) + rest) == Ok::<_, DecodeError>((v, enc_value(v).len() as int)),
{
    reveal(dec_value);
    let s = enc_value(v) + rest;
    match v {
        SpecValue::Nil => {
            assert(s =~= seq![0xc0u8] + rest);
            assert(parse_item(s) == ParseStep::Done(Item::Nil, 1));
        },
        SpecValue::Boolean(b) => {
            assert(parse_item(s) == ParseStep::Done(Item::Boolean(b), 1));
        },
        SpecValue::Integer(i) => {
            lemma_parse_enc_signed(i, rest);
        },
        SpecValue::Unsigned(u) => {
            lemma_parse_enc_unsigned(u, rest);
        },
        SpecValue::Float(bits) => {
            lemma_parse_enc_float(bits, rest);
        },
        SpecValue::Double(bits) => {
            lemma_parse_enc_double(bits, rest);
        },
        SpecValue::Str(b) => {
            assert(s =~= enc_str_len(b.len() as int) + b + rest);
            lemma_parse_enc_str(b, rest);
        },
        SpecValue::Binary(b) => {
            assert(s =~= enc_bin_len(b.len() as int) + b + rest);
            lemma_parse_enc_bin(b, rest);
        },
        SpecValue::Extended(t, b) => {
            assert(s =~= enc_ext(t, b) + rest);
            lemma_parse_enc_ext(t, b, rest);
        },
        _ => {},
    }
}

/// Round trip: for every representable value, decoding its encoding yields
/// the value itself and consumes exactly the encoding, whatever follows it.
pub proof fn lemma_dec_enc_value(v: SpecValue, rest: Seq<u8>)
    requires
        wf_svalue(v),
    ensures
        dec_value(enc_value(v) + rest) == Ok::<_, DecodeError>((v, enc_value(v).len() as int)),
    decreases v, 3int,
{
    match v {
        SpecValue::Array(items) => {
            lemma_dec_enc_array(items, rest);
        },
        SpecValue::Mapping(ps) => {
            lemma_dec_enc_mapping(ps, rest);
        },
        _ => {
            lemma_dec_enc_leaf(v, rest);
        },
    }
}

/// Round trip for a whole array item: its header, then its children.
#[verifier::rlimit(100)]
proof fn lemma_dec_enc_array(items: Seq<SpecValue>, rest: Seq<u8>)
    requires
        wf_svalue(SpecValue::Array(items)),
    ensures
        dec_value(enc_value(SpecValue::Array(items)) + rest) == Ok::<_, DecodeError>(
            (SpecValue::Array(items), enc_value(SpecValue::Array(items)).len() as int),
        ),
    decreases items, 2int,
{
    reveal_with_fuel(dec_value, 2);
    reveal(dec_values);
    let v = SpecValue::Array(items);
    let s = enc_value(v) + rest;
    let n = items.len() as int;
    let tail = enc_values(items) + rest;
    assert(s =~= enc_array_len(n) + tail);
    lemma_parse_enc_array_len(n, tail);
    let hl = enc_array_len(n).len() as int;
    assert(parse_item(s) == ParseStep::Done(Item::ArrayLen(n as usize), hl));
    assert(s.subrange(hl, s.len() as int) =~= tail);
    lemma_dec_enc_values(items, rest);
}

/// Round trip for a whole map item: its header, then its pairs.
#[verifier::rlimit(100)]
proof fn lemma_dec_enc_mapping(ps: Seq<(SpecValue, SpecValue)>, rest: Seq<u8>)
    requires
        wf_svalue(SpecValue::Mapping(ps)),
    ensures
        dec_value(enc_value(SpecValue::Mapping(ps)) + rest) == Ok::<_, DecodeError>(
            (SpecValue::Mapping(ps), enc_value(SpecValue::Mapping(ps)).len() as int),
        ),
    decreases ps, 2int,
{
    reveal_with_fuel(dec_value, 2);
    reveal(dec_pairs);
    let v = SpecValue::Mapping(ps);
    let s = enc_value(v) + rest;
    let n = ps.len() as int;
    let tail = enc_pairs(ps) + rest;
    assert(s =~= enc_map_len(n) + tail);
    lemma_parse_enc_map_len(n, tail);
    let hl = enc_map_len(n).len() as int;
    assert(parse_item(s) == ParseStep::Done(Item::MapLen(n as usize), hl));
    assert(s.subrange(hl, s.len() as int) =~= tail);
    lemma_dec_enc_pairs(ps, rest);
}

/// Round trip for a run of values: decoding the concatenated encodings of
/// `items` yields `items` back.
#[verifier::rlimit(100)]
pub proof fn lemma_dec_enc_values(items: Seq<SpecValue>, rest: Seq<u8>)
    requires
        forall|i: int| 0 <= i < items.len() ==> wf_svalue(#[trigger] items[i]),
    ensures
        dec_values(enc_values(items) + rest, items.len() as int) == Ok::<_, DecodeError>(
            (items, enc_values(items).len() as int),
        ),
    decreases items, 1int,
{
    reveal_with_fuel(dec_values, 2);
    reveal(dec_value);
    let s = enc_values(items) + rest;
    if items.len() == 0 {
        assert(items =~= Seq::<SpecValue>::empty());
        assert(enc_values(items) =~= Seq::<u8>::empty());
    } else {
        let head = items[0];
        let tail = items.subrange(1, items.len() as int);
        let rest1 = enc_values(tail) + rest;
        assert(s =~= enc_value(head) + rest1);
        lemma_dec_enc_value(head, rest1);
        let c0 = enc_value(head).len() as int;
        lemma_enc_value_len(head);
        assert(s.subrange(c0, s.len() as int) =~= rest1);
        assert forall|i: int| 0 <= i < tail.len() implies wf_svalue(#[trigger] tail[i]) by {
            assert(tail[i] == items[i + 1]);
        }
        lemma_dec_enc_values(tail, rest);
        assert(seq![head] + tail =~= items);
    }
}

/// Round trip for a run of key/value pairs.
#[verifier::rlimit(100)]
pub proof fn lemma_dec_enc_pairs(ps: Seq<(SpecValue, SpecValue)>, rest: Seq<u8>)
    requires
        forall|i: int| 0 <= i < ps.len() ==> wf_svalue((#[trigger] ps[i]).0) && wf_svalue(ps[i].1),
    ensures
        dec_pairs(enc_pairs(ps) + rest, ps.len() as int) == Ok::<_, DecodeError>(
            (ps, enc_pairs(ps).len() as int),
        ),
    decreases ps, 1int,
{
    reveal_with_fuel(dec_pairs, 2);
    reveal(dec_value);
    let s = enc_pairs(ps) + rest;
    if ps.len() == 0 {
        assert(ps =~= Seq::<(SpecValue, SpecValue)>::empty());
        assert(enc_pairs(ps) =~= Seq::<u8>::empty());
    } else {
        let k = ps[0].0;
        let v = ps[0].1;
        let tail = ps.subrange(1, ps.len() as int);
        let rest_v = enc_value(v) + (enc_pairs(tail) + rest);
        assert(decreases_to!(ps => ps[0]));
        assert(s =~= enc_value(k) + rest_v);
        lemma_dec_enc_value(k, rest_v);
        let ck = enc_value(k).len() as int;
        lemma_enc_value_len(k);
        assert(s.subrange(ck, s.len() as int) =~= rest_v);
        let rest_t = enc_pairs(tail) + rest;
        lemma_dec_enc_value(v, rest_t);
        let cv = enc_value(v).len() as int;
        lemma_enc_value_len(v);
        assert(rest_v.subrange(cv, rest_v.len() as int) =~= rest_t);
        assert(s.subrange(ck + cv, s.len() as int) =~= rest_t);
        assert forall|i: int|
            0 <= i < tail.len() implies wf_svalue((#[trigger] tail[i]).0) && wf_svalue(
            tail[i].1,
        ) by {
            assert(tail[i] == ps[i + 1]);
        }
        lemma_dec_enc_pairs(tail, rest);
        assert(seq![(k, v)] + tail =~= ps);
    }
}


// ---------------------------------------------------------------------------
// Appending one more element to an encoded run
// ---------------------------------------------------------------------------

/// Encoding a run of values and then one more is encoding the extended run.
pub proof fn lemma_enc_values_push(s: Seq<SpecValue>, x: SpecValue)
    ensures
        enc_values(s.push(x)) == enc_values(s) + enc_value(x),
    decreases s,
{
    if s.len() == 0 {
        assert(s.push(x)[0] == x);
        assert(s.push(x).subrange(1, 1) =~= Seq::<SpecValue>::empty());
        assert(enc_values(Seq::<SpecValue>::empty()) == Seq::<u8>::empty());
        assert(s =~= Seq::<SpecValue>::empty());
        assert(enc_values(s.push(x)) =~= enc_values(s) + enc_value(x));
    } else {
        assert(s.push(x)[0] == s[0]);
        assert(s.push(x).subrange(1, s.len() as int + 1) =~= s.subrange(1, s.len() as int).push(x));
        lemma_enc_values_push(s.subrange(1, s.len() as int), x);
        assert(enc_values(s.push(x)) =~= enc_values(s) + enc_value(x));
    }
}

/// Encoding a run of pairs and then one more is encoding the extended run.
pub proof fn lemma_enc_pairs_push(s: Seq<(SpecValue, SpecValue)>, x: (SpecValue, SpecValue))
    ensures
        enc_pairs(s.push(x)) == enc_pairs(s) + enc_value(x.0) + enc_value(x.1),
    decreases s,
{
    if s.len() == 0 {
        assert(s.push(x)[0] == x);
        assert(s.push(x).subrange(1, 1) =~= Seq::<(SpecValue, SpecValue)>::empty());
        assert(enc_pairs(Seq::<(SpecValue, SpecValue)>::empty()) == Seq::<u8>::empty());
        assert(s =~= Seq::<(SpecValue, SpecValue)>::empty());
        assert(enc_pairs(s.push(x)) =~= enc_pairs(s) + enc_value(x.0) + enc_value(x.1));
    } else {
        assert(s.push(x)[0] == s[0]);
        assert(s.push(x).subrange(1, s.len() as int + 1) =~= s.subrange(1, s.len() as int).push(x));
        lemma_enc_pairs_push(s.subrange(1, s.len() as int), x);
        assert(enc_pairs(s.push(x)) =~= enc_pairs(s) + enc_value(x.0) + enc_value(x.1));
    }
}

// ---------------------------------------------------------------------------
// Encoding a value tree
// ---------------------------------------------------------------------------

impl Value {
    /// Writes the canonical encoding of this value onto the sink.  Every
    /// representable value encodes; there is no failure mode on the encode
    /// side with an in-memory sink.
    #[verifier::loop_isolation(false)]
    #[verifier::rlimit(100)]
    pub fn encode(&self, wr: &mut Vec<u8>)
        requires
            wf_svalue(view_value(*self)),
        ensures
            final(wr)@ == old(wr)@ + enc_value(view_value(*self)),
        decreases *self,
    {
        match self {
            Value::Nil => {
                crate::encoder::encode_nil(wr);
            },
            Value::Boolean(b) => {
                crate::encoder::encode_bool(wr, *b);
            },
            Value::Integer(i) => {
                crate::encoder::encode_signed(wr, *i);
            },
            Value::Unsigned(u) => {
                crate::encoder::encode_unsigned(wr, *u);
            },
            Value::Float(bits) => {
                crate::encoder::encode_f32_bits(wr, *bits);
            },
            Value::Double(bits) => {
                crate::encoder::encode_f64_bits(wr, *bits);
            },
            Value::Str(b) => {
                crate::encoder::encode_str_len(wr, b.len() as u32);
                crate::encoder::encode_raw(wr, b.as_slice());
                proof {
                    assert(wr@ =~= old(wr)@ + enc_value(view_value(*self)));
                }
            },
            Value::Binary(b) => {
                crate::encoder::encode_bin_len(wr, b.len() as u32);
                crate::encoder::encode_raw(wr, b.as_slice());
                proof {
                    assert(wr@ =~= old(wr)@ + enc_value(view_value(*self)));
                }
            },
            Value::Extended(t, b) => {
                crate::encoder::encode_ext_len(wr, b.len() as u32);
                wr.push(*t as u8);
                crate::encoder::encode_raw(wr, b.as_slice());
                proof {
                    assert(wr@ =~= old(wr)@ + enc_value(view_value(*self)));
                }
            },
            Value::Array(vs) => {
                proof {
                    assert(*self == Value::Array(*vs));
                    assert(decreases_to!(*self => (*self)->Array_0));
                }
                encode_array_value(wr, vs);
                proof {
                    assert(wr@ =~= old(wr)@ + enc_value(view_value(*self)));
                }
            },
            Value::Mapping(ps) => {
                proof {
                    lemma_view_pairs(ps@);
                }
                let ghost psv = view_pairs(ps@);
                let ghost base = wr@;
                crate::encoder::encode_map_len(wr, ps.len() as u32);
                let n = ps.len();
                proof {
                    assert(psv.subrange(0, 0) =~= Seq::<(SpecValue, SpecValue)>::empty());
                }
                for i in 0..n
                    invariant
                        n == ps.len(),
                        psv == view_pairs(ps@),
                        psv.len() == n,
                        forall|j: int|
                            0 <= j < n ==> psv[j] == (view_value(ps@[j].0), view_value(ps@[j].1)),
                        wf_svalue(SpecValue::Mapping(psv)),
                        wr@ == base + enc_map_len(n as int) + enc_pairs(psv.subrange(0, i as int)),
                    decreases n - i,
                {
                    assert(wf_svalue(psv[i as int].0) && wf_svalue(psv[i as int].1));
                    proof {
                        assert(*self == Value::Mapping(*ps));
                        assert(decreases_to!(*self => (*self)->Mapping_0));
                        assert(decreases_to!(*ps => ps@));
                        assert(decreases_to!(ps@ => ps@[i as int]));
                        assert(decreases_to!(ps@[i as int] => ps@[i as int].0));
                        assert(decreases_to!(ps@[i as int] => ps@[i as int].1));
                        assert(decreases_to!(*self => ps@[i as int].0));
                        assert(decreases_to!(*self => ps@[i as int].1));
                    }
                    ps[i].0.encode(wr);
                    ps[i].1.encode(wr);
                    proof {
                        lemma_enc_pairs_push(psv.subrange(0, i as int), psv[i as int]);
                        assert(psv.subrange(0, i as int).push(psv[i as int]) =~= psv.subrange(
                            0,
                            i + 1,
                        ));
                    }
                }
                proof {
                    assert(psv.subrange(0, n as int) =~= psv);
                    assert(wr@ =~= old(wr)@ + enc_value(view_value(*self)));
                }
            },
        }
    }

    /// Encodes this value into a fresh byte vector.
    pub fn to_msgpack(&self) -> (r: Vec<u8>)
        requires
            wf_svalue(view_value(*self)),
        ensures
            r@ == enc_value(view_value(*self)),
    {
        let mut wr: Vec<u8> = Vec::new();
        self.encode(&mut wr);
        proof {
            assert(Seq::<u8>::empty() + enc_value(view_value(*self)) =~= enc_value(
                view_value(*self),
            ));
        }
        wr
    }
}

/// Writes a whole array item: its canonical header, then the encodings of
/// its elements in order.
#[verifier::loop_isolation(false)]
#[verifier::rlimit(100)]
pub(crate) fn encode_array_value(wr: &mut Vec<u8>, vs: &Vec<Value>)
    requires
        wf_svalue(SpecValue::Array(view_values(vs@))),
    ensures
        final(wr)@ == old(wr)@ + enc_value(SpecValue::Array(view_values(vs@))),
    decreases *vs,
{
    proof {
        lemma_view_values(vs@);
    }
    let ghost vsv = view_values(vs@);
    let ghost base = wr@;
    crate::encoder::encode_vec_len(wr, vs.len() as u32);
    let n = vs.len();
    proof {
        assert(vsv.subrange(0, 0) =~= Seq::<SpecValue>::empty());
    }
    for i in 0..n
        invariant
            n == vs.len(),
            vsv == view_values(vs@),
            vsv.len() == n,
            forall|j: int| 0 <= j < n ==> vsv[j] == view_value(vs@[j]),
            wf_svalue(SpecValue::Array(vsv)),
            wr@ == base + crate::format::enc_array_len(n as int) + enc_values(
                vsv.subrange(0, i as int),
            ),
        decreases n - i,
    {
        assert(wf_svalue(vsv[i as int]));
        proof {
            assert(decreases_to!(*vs => vs@));
            assert(decreases_to!(vs@ => vs@[i as int]));
            assert(decreases_to!(*vs => vs@[i as int]));
        }
        vs[i].encode(wr);
        proof {
            lemma_enc_values_push(vsv.subrange(0, i as int), vsv[i as int]);
            assert(vsv.subrange(0, i as int).push(vsv[i as int]) =~= vsv.subrange(0, i + 1));
        }
    }
    proof {
        assert(vsv.subrange(0, n as int) =~= vsv);
    }
}


// ---------------------------------------------------------------------------
// Decoding entry points
// ---------------------------------------------------------------------------

impl<'a> crate::decoder::Decoder<'a> {
    /// Decodes one whole self-describing value tree.
    pub fn decode(&mut self) -> (r: Result<Value, DecodeError>)
        requires
            old(self).wf(),
        ensures
            final(self).wf(),
            match dec_value(old(self).remaining()) {
                Ok((sv, c)) => r matches Ok(v) && view_value(v) == sv && final(self).remaining()
                    == old(self).remaining().skip(c),
                Err(e) => r matches Err(e2) && e2 == e,
            },
    {
        self.decode_value()
    }
}

/// Decodes the single value tree at the front of `bytes`.
pub fn from_msgpack(bytes: &[u8]) -> (r: Result<Value, DecodeError>)
    ensures
        match dec_value(bytes@) {
            Ok((sv, c)) => r matches Ok(v) && view_value(v) == sv,
            Err(e) => r matches Err(e2) && e2 == e,
        },
{
    let mut d = crate::decoder::Decoder::new(bytes);
    d.decode_value()
}

/// A structure that parses one whole self-describing value tree out of a
/// borrowed slice, children and all.
pub struct Parser<'a> {
    rd: crate::decoder::Decoder<'a>,
}

impl<'a> Parser<'a> {
    /// The bytes not yet consumed.
    pub closed spec fn remaining(self) -> Seq<u8> {
        self.rd.remaining()
    }

    /// The cursor is in bounds.
    pub closed spec fn wf(self) -> bool {
        self.rd.wf()
    }

    /// Creates a parser over the given bytes.
    pub fn new(data: &'a [u8]) -> (r: Parser<'a>)
        ensures
            r.wf(),
            r.remaining() == data@,
    {
        Parser { rd: crate::decoder::Decoder::new(data) }
    }

    /// Parses the next whole value tree, advancing past it.
    pub fn parse(&mut self) -> (r: Result<Value, DecodeError>)
        requires
            old(self).wf(),
        ensures
            final(self).wf(),
            match dec_value(old(self).remaining()) {
                Ok((sv, c)) => r matches Ok(v) && view_value(v) == sv && final(self).remaining()
                    == old(self).remaining().skip(c),
                Err(e) => r matches Err(e2) && e2 == e,
            },
    {
        self.rd.decode_value()
    }
}

// ---------------------------------------------------------------------------
// The round trip, stated once for the whole library
// ---------------------------------------------------------------------------

/// Round trip: for every representable value, decoding its encoding yields
/// exactly the value back, consuming exactly the encoding.
pub proof fn lemma_round_trip(v: SpecValue)
    requires
        wf_svalue(v),
    ensures
        dec_value(enc_value(v)) == Ok::<_, DecodeError>((v, enc_value(v).len() as int)),
{
    lemma_dec_enc_value(v, Seq::<u8>::empty());
    assert(enc_value(v) + Seq::<u8>::empty() =~= enc_value(v));
}


/// Optional-value discrimination: the encoding of a value starts with the
/// nil tag exactly when the value is nil, so one byte of lookahead decides
/// whether an optional value is present.
pub proof fn lemma_optional_discrimination(v: SpecValue)
    requires
        wf_svalue(v),
    ensures
        (enc_value(v)[0] == 0xc0) <==> (v is Nil),
{
    match v {
        SpecValue::Integer(i) => {
            assert(enc_value(v)[0] != 0xc0);
        },
        SpecValue::Unsigned(u) => {
            assert(enc_value(v)[0] != 0xc0);
        },
        _ => {},
    }
}

} // verus!
