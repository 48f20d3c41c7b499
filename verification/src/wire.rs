//! The field encodings of the binary game protocol.
//!
//! Every message on the wire is a tag byte followed by a fixed list of
//! fields.  This module gives each kind of field a mathematical meaning
//! (`Value`), its byte encoding, its decoding, and the executable
//! readers and writers, each proved against those definitions.
use vstd::prelude::*;
use vstd::utf8::*;

verus! {

/// The kinds of field that occur in a message.
pub ghost enum Ty {
    U8,
    Bool,
    U16,
    U32,
    Text,
    OptText,
    OptU16,
    Kind,
}

/// The value of one field.  Floats travel as the `u32` bit pattern of
/// the `f32`, so they are `U32` values here.
pub ghost enum Value {
    U8(u8),
    Bool(bool),
    U16(u16),
    U32(u32),
    Text(Seq<char>),
    OptText(Option<Seq<char>>),
    OptU16(Option<u16>),
    /// A part kind, by its number (see `PartKind::val_of`).
    Kind(u8),
}

pub open spec fn type_of(v: Value) -> Ty {
    match v {
        Value::U8(_) => Ty::U8,
        Value::Bool(_) => Ty::Bool,
        Value::U16(_) => Ty::U16,
        Value::U32(_) => Ty::U32,
        Value::Text(_) => Ty::Text,
        Value::OptText(_) => Ty::OptText,
        Value::OptU16(_) => Ty::OptU16,
        Value::Kind(_) => Ty::Kind,
    }
}

/// Number of part kinds; a kind byte below this decodes.
pub open spec fn part_kind_count() -> u8 {
    5
}

// ---------------------------------------------------------------- encodings

/// Big-endian bytes of a `u16`.
pub open spec fn be16(v: u16) -> Seq<u8> {
    seq![(v / 256) as u8, (v % 256) as u8]
}

/// Big-endian bytes of a `u32`.
pub open spec fn be32(v: u32) -> Seq<u8> {
    seq![
        (v / 0x100_0000) as u8,
        ((v / 0x1_0000) % 256) as u8,
        ((v / 256) % 256) as u8,
        (v % 256) as u8,
    ]
}

/// Byte length of a string as Rust stores it (UTF-8).
pub open spec fn utf8_len(s: Seq<char>) -> nat {
    encode_utf8(s).len()
}

/// Each character is written as the low byte of its code point.
pub open spec fn low_bytes(s: Seq<char>) -> Seq<u8> {
    s.map_values(|c: char| c as u8)
}

/// A string is its byte length in one byte, then one byte per character;
/// a string longer than 255 bytes is written as the empty string.
pub open spec fn text_bytes(s: Seq<char>) -> Seq<u8> {
    if utf8_len(s) > 255 {
        seq![0u8]
    } else {
        seq![utf8_len(s) as u8] + low_bytes(s)
    }
}

pub open spec fn bool_byte(b: bool) -> u8 {
    if b {
        1
    } else {
        0
    }
}

pub open spec fn encode_value(v: Value) -> Seq<u8> {
    match v {
        Value::U8(b) => seq![b],
        Value::Bool(b) => seq![bool_byte(b)],
        Value::U16(x) => be16(x),
        Value::U32(x) => be32(x),
        Value::Text(s) => text_bytes(s),
        Value::OptText(o) => match o {
            Some(s) => seq![1u8] + text_bytes(s),
            None => seq![0u8],
        },
        Value::OptU16(o) => match o {
            Some(x) => seq![1u8] + be16(x),
            None => seq![0u8],
        },
        Value::Kind(k) => seq![k],
    }
}

/// The fields one after the other.
#[verifier::opaque]
pub open spec fn encode_values(vs: Seq<Value>) -> Seq<u8>
    decreases vs.len(),
{
    if vs.len() == 0 {
        seq![]
    } else {
        encode_values(vs.drop_last()) + encode_value(vs.last())
    }
}

// ---------------------------------------------------------------- decodings

/// Bytes read back as characters, one character per byte (Latin-1).
pub open spec fn latin1(bs: Seq<u8>) -> Seq<char> {
    bs.map_values(|b: u8| b as char)
}

pub open spec fn decode_text(s: Seq<u8>) -> Option<(Seq<char>, int)> {
    if s.len() == 0 {
        None
    } else if s.len() < 1 + s[0] {
        None
    } else {
        Some((latin1(s.subrange(1, 1 + s[0])), 1 + s[0]))
    }
}

pub open spec fn decode_be16(s: Seq<u8>) -> u16 {
    (s[0] as int * 256 + s[1] as int) as u16
}

pub open spec fn decode_be32(s: Seq<u8>) -> u32 {
    (s[0] as int * 0x100_0000 + s[1] as int * 0x1_0000 + s[2] as int * 256 + s[3] as int) as u32
}

/// Reads one field of type `t` from the front of `s`: the value and the
/// number of bytes it took, or `None` when the bytes run out or a part
/// kind is out of range.
pub open spec fn decode_value(t: Ty, s: Seq<u8>) -> Option<(Value, int)> {
    match t {
        Ty::U8 => if s.len() >= 1 {
            Some((Value::U8(s[0]), 1))
        } else {
            None
        },
        Ty::Bool => if s.len() >= 1 {
            Some((Value::Bool(s[0] > 0), 1))
        } else {
            None
        },
        Ty::U16 => if s.len() >= 2 {
            Some((Value::U16(decode_be16(s)), 2))
        } else {
            None
        },
        Ty::U32 => if s.len() >= 4 {
            Some((Value::U32(decode_be32(s)), 4))
        } else {
            None
        },
        Ty::Text => match decode_text(s) {
            Some((t, n)) => Some((Value::Text(t), n)),
            None => None,
        },
        Ty::OptText => if s.len() == 0 {
            None
        } else if s[0] > 0 {
            match decode_text(s.skip(1)) {
                Some((t, n)) => Some((Value::OptText(Some(t)), 1 + n)),
                None => None,
            }
        } else {
            Some((Value::OptText(None), 1))
        },
        Ty::OptU16 => if s.len() == 0 {
            None
        } else if s[0] > 0 {
            if s.len() >= 3 {
                Some((Value::OptU16(Some(decode_be16(s.skip(1)))), 3))
            } else {
                None
            }
        } else {
            Some((Value::OptU16(None), 1))
        },
        Ty::Kind => if s.len() >= 1 && s[0] < part_kind_count() {
            Some((Value::Kind(s[0]), 1))
        } else {
            None
        },
    }
}

/// Reads the fields of types `ts`, in order, from the front of `s`.
#[verifier::opaque]
pub open spec fn decode_values(ts: Seq<Ty>, s: Seq<u8>) -> Option<(Seq<Value>, int)>
    decreases ts.len(),
{
    if ts.len() == 0 {
        Some((seq![], 0))
    } else {
        match decode_values(ts.drop_last(), s) {
            None => None,
            Some((vs, n)) => match decode_value(ts.last(), s.skip(n)) {
                None => None,
                Some((v, m)) => Some((vs.push(v), n + m)),
            },
        }
    }
}

// ---------------------------------------------------------------- well-formedness

/// A string that survives the round trip: ASCII and at most 255 bytes.
pub open spec fn text_ok(s: Seq<char>) -> bool {
    is_ascii_chars(s) && s.len() <= 255
}

pub open spec fn value_ok(v: Value) -> bool {
    match v {
        Value::Text(s) => text_ok(s),
        Value::OptText(Some(s)) => text_ok(s),
        Value::Kind(k) => k < part_kind_count(),
        _ => true,
    }
}

pub open spec fn values_ok(vs: Seq<Value>) -> bool {
    forall|i: int| 0 <= i < vs.len() ==> value_ok(#[trigger] vs[i])
}

pub open spec fn types_of(vs: Seq<Value>) -> Seq<Ty> {
    vs.map_values(|v: Value| type_of(v))
}


// ---------------------------------------------------------------- records

/// A message: its tag byte and its fields.
pub ghost struct Record {
    pub tag: u8,
    pub values: Seq<Value>,
}

/// A message on the wire: the tag, then each field.
pub open spec fn encode_record(r: Record) -> Seq<u8> {
    seq![r.tag] + encode_values(r.values)
}

/// Reads a message from the front of `s`, given the field types that
/// each tag has (`None` for an unknown tag).
pub open spec fn decode_record(schema: spec_fn(u8) -> Option<Seq<Ty>>, s: Seq<u8>) -> Option<(Record, int)> {
    if s.len() == 0 {
        None
    } else {
        match schema(s[0]) {
            None => None,
            Some(ts) => match decode_values(ts, s.skip(1)) {
                None => None,
                Some((vs, n)) => Some((Record { tag: s[0], values: vs }, n + 1)),
            },
        }
    }
}

/// A message whose fields match its tag's types reads back from its own
/// encoding, whatever follows it.
pub proof fn lemma_record_roundtrip(schema: spec_fn(u8) -> Option<Seq<Ty>>, r: Record, rest: Seq<u8>)
    requires
        schema(r.tag) == Some(types_of(r.values)),
        values_ok(r.values),
    ensures
        decode_record(schema, encode_record(r) + rest) == Some((r, encode_record(r).len() as int)),
{
    lemma_values_roundtrip(r.values, rest);
    assert((encode_record(r) + rest).skip(1) =~= encode_values(r.values) + rest);
}

// ---------------------------------------------------------------- lemmas

pub proof fn lemma_text_roundtrip(s: Seq<char>, rest: Seq<u8>)
    requires
        text_ok(s),
    ensures
        decode_text(text_bytes(s) + rest) == Some((s, text_bytes(s).len() as int)),
        text_bytes(s).len() == s.len() + 1,
{
    is_ascii_chars_encode_utf8(s);
    let b = text_bytes(s) + rest;
    assert(b[0] == s.len());
    let back = latin1(b.subrange(1, 1 + b[0]));
    assert forall|i: int| 0 <= i < s.len() implies back[i] == s[i] by {
        assert(b[1 + i] == (s[i] as u8));
        assert('\0' <= s[i] <= '\u{7f}');
    }
    assert(back =~= s);
}

pub proof fn lemma_be16_roundtrip(x: u16, rest: Seq<u8>)
    ensures
        decode_be16(be16(x) + rest) == x,
{
    let b = be16(x) + rest;
    assert(b[0] == (x / 256) as u8);
    assert(b[1] == (x % 256) as u8);
}

pub proof fn lemma_be32_roundtrip(x: u32, rest: Seq<u8>)
    ensures
        decode_be32(be32(x) + rest) == x,
{
    let b = be32(x) + rest;
    assert(b[0] == (x / 0x100_0000) as u8);
    assert(b[1] == ((x / 0x1_0000) % 256) as u8);
    assert(b[2] == ((x / 256) % 256) as u8);
    assert(b[3] == (x % 256) as u8);
    assert(x == (x / 0x100_0000) * 0x100_0000 + ((x / 0x1_0000) % 256) * 0x1_0000 + ((x / 256)
        % 256) * 256 + x % 256) by (nonlinear_arith);
}

/// One field read back from its own encoding gives the same field.
pub proof fn lemma_value_roundtrip(v: Value, rest: Seq<u8>)
    requires
        value_ok(v),
    ensures
        decode_value(type_of(v), encode_value(v) + rest) == Some((v, encode_value(v).len() as int)),
{
    match v {
        Value::U16(x) => lemma_be16_roundtrip(x, rest),
        Value::U32(x) => lemma_be32_roundtrip(x, rest),
        Value::Text(s) => lemma_text_roundtrip(s, rest),
        Value::OptText(o) => match o {
            Some(s) => {
                lemma_text_roundtrip(s, rest);
                assert((seq![1u8] + text_bytes(s) + rest).skip(1) =~= text_bytes(s) + rest);
            },
            None => {},
        },
        Value::OptU16(o) => match o {
            Some(x) => {
                lemma_be16_roundtrip(x, rest);
                assert((seq![1u8] + be16(x) + rest).skip(1) =~= be16(x) + rest);
            },
            None => {},
        },
        Value::Bool(b) => {},
        _ => {},
    }
}

/// A list of fields read back from its own encoding gives the same list,
/// whatever follows it.
pub proof fn lemma_values_roundtrip(vs: Seq<Value>, rest: Seq<u8>)
    requires
        values_ok(vs),
    ensures
        decode_values(types_of(vs), encode_values(vs) + rest) == Some(
            (vs, encode_values(vs).len() as int),
        ),
    decreases vs.len(),
{
    reveal(encode_values);
    reveal(decode_values);
    if vs.len() == 0 {
        assert(types_of(vs) =~= seq![]);
    } else {
        let init = vs.drop_last();
        let last = vs.last();
        let tail = encode_value(last) + rest;
        assert(values_ok(init)) by {
            assert forall|i: int| 0 <= i < init.len() implies value_ok(#[trigger] init[i]) by {
                assert(init[i] == vs[i]);
            }
        }
        assert(value_ok(vs[vs.len() - 1]));
        lemma_values_roundtrip(init, tail);
        assert(types_of(vs).drop_last() =~= types_of(init));
        assert(encode_values(vs) + rest =~= encode_values(init) + tail);
        assert((encode_values(init) + tail).skip(encode_values(init).len() as int) =~= tail);
        lemma_value_roundtrip(last, rest);
        assert(init.push(last) =~= vs);
    }
}

/// Decoding a longer type list extends the decoding of its prefix.
pub proof fn lemma_decode_values_push(ts: Seq<Ty>, t: Ty, s: Seq<u8>)
    ensures
        decode_values(ts.push(t), s) == match decode_values(ts, s) {
            None => None,
            Some((vs, n)) => match decode_value(t, s.skip(n)) {
                None => None,
                Some((v, m)) => Some((vs.push(v), n + m)),
            },
        },
{
    reveal(decode_values);
    assert(ts.push(t).drop_last() =~= ts);
}

/// Encoding a longer value list appends the encoding of the new value.
pub proof fn lemma_encode_values_push(vs: Seq<Value>, v: Value)
    ensures
        encode_values(vs.push(v)) == encode_values(vs) + encode_value(v),
{
    reveal(encode_values);
    assert(vs.push(v).drop_last() =~= vs);
}

/// Appending one more field's encoding to an encoded field list.
pub proof fn lemma_append_field(prefix: Seq<u8>, vs: Seq<Value>, v: Value, before: Seq<u8>, after: Seq<u8>)
    requires
        before == prefix + encode_values(vs),
        after == before + encode_value(v),
    ensures
        after == prefix + encode_values(vs.push(v)),
{
    lemma_encode_values_push(vs, v);
    assert(after =~= prefix + encode_values(vs.push(v)));
}

/// A tag byte followed by an encoded field list is the encoded record.
pub proof fn lemma_record_done(start: Seq<u8>, tag: u8, prefix: Seq<u8>, vs: Seq<Value>, out: Seq<u8>)
    requires
        prefix == start.push(tag),
        out == prefix + encode_values(vs),
    ensures
        out == start + encode_record(Record { tag, values: vs }),
{
    assert(out =~= start + encode_record(Record { tag, values: vs }));
}

/// Encoding the empty list.
pub proof fn lemma_encode_values_0()
    ensures
        encode_values(Seq::<Value>::empty()) == Seq::<u8>::empty(),
{
    reveal(encode_values);
}

/// Encoding a literal list of one field.
pub proof fn lemma_encode_values_1(a: Value)
    ensures
        encode_values(seq![a]) == encode_value(a),
{
    reveal(encode_values);
    assert(seq![a].drop_last() =~= Seq::<Value>::empty());
    assert(encode_values(Seq::<Value>::empty()) + encode_value(a) =~= encode_value(a));
}

/// Encoding a literal list of 2 fields.
pub proof fn lemma_encode_values_2(a: Value, b: Value)
    ensures
        encode_values(seq![a, b]) == encode_value(a) + encode_value(b),
{
    reveal(encode_values);
    lemma_encode_values_1(a);
    assert(seq![a, b].drop_last() =~= seq![a]);
}

/// Encoding a literal list of 3 fields.
pub proof fn lemma_encode_values_3(a: Value, b: Value, c: Value)
    ensures
        encode_values(seq![a, b, c]) == encode_value(a) + encode_value(b) + encode_value(c),
{
    reveal(encode_values);
    lemma_encode_values_2(a, b);
    assert(seq![a, b, c].drop_last() =~= seq![a, b]);
}

/// Encoding a literal list of 4 fields.
pub proof fn lemma_encode_values_4(a: Value, b: Value, c: Value, d: Value)
    ensures
        encode_values(seq![a, b, c, d]) == encode_value(a) + encode_value(b) + encode_value(c) + encode_value(d),
{
    reveal(encode_values);
    lemma_encode_values_3(a, b, c);
    assert(seq![a, b, c, d].drop_last() =~= seq![a, b, c]);
}

/// Encoding a literal list of 5 fields.
pub proof fn lemma_encode_values_5(a: Value, b: Value, c: Value, d: Value, e: Value)
    ensures
        encode_values(seq![a, b, c, d, e]) == encode_value(a) + encode_value(b) + encode_value(c) + encode_value(d) + encode_value(e),
{
    reveal(encode_values);
    lemma_encode_values_4(a, b, c, d);
    assert(seq![a, b, c, d, e].drop_last() =~= seq![a, b, c, d]);
}

/// Encoding a literal list of 6 fields.
pub proof fn lemma_encode_values_6(a: Value, b: Value, c: Value, d: Value, e: Value, f: Value)
    ensures
        encode_values(seq![a, b, c, d, e, f]) == encode_value(a) + encode_value(b) + encode_value(c) + encode_value(d) + encode_value(e) + encode_value(f),
{
    reveal(encode_values);
    lemma_encode_values_5(a, b, c, d, e);
    assert(seq![a, b, c, d, e, f].drop_last() =~= seq![a, b, c, d, e]);
}

} // verus!
