//! The game's message codec: the parts a ship is built from, the
//! messages a client sends to the server and those the server sends back.
use vstd::prelude::*;
use vstd::utf8::*;
use crate::wire::{
    Ty, Value, Record, encode_value, decode_value, decode_values, encode_values, encode_record,
    decode_record, text_bytes, low_bytes, utf8_len, latin1, be16, be32, part_kind_count,
    values_ok, types_of, lemma_decode_values_push, lemma_record_roundtrip, lemma_append_field, lemma_record_done, lemma_encode_values_0, lemma_encode_values_1,
    lemma_encode_values_2, lemma_encode_values_3, lemma_encode_values_4, lemma_encode_values_5,
    lemma_encode_values_6,
};

verus! {

broadcast use vstd::string::group_string_axioms;

// ---------------------------------------------------------------- field writers and readers

/// Appends `c` to `s` with std's `String::push`, which the std documentation
/// describes as appending the given char to the end of the string.
#[verifier::external_body]
pub(crate) fn push_char(s: &mut String, c: char)
    ensures
        final(s)@ == old(s)@.push(c),
{
    s.push(c)
}

/// Writes a string: its byte length, then the low byte of each character.
/// A string longer than 255 bytes is written as an empty one.
pub fn type_string_serialize(out: &mut Vec<u8>, string: &str)
    ensures
        final(out)@ == old(out)@ + text_bytes(string@),
{
    let len = string.as_bytes().len();
    if len > 255 {
        out.push(0);
    } else {
        out.push(len as u8);
        let ghost start = out@;
        for cha in it: string.chars()
            invariant
                it.seq() == string@,
                out@ == start + low_bytes(it.seq().take(it.index() as int)),
        {
            proof {
                assert(it.seq().take(it.index() + 1) =~= it.seq().take(it.index() as int).push(cha));
            }
            out.push(#[verifier::truncate] (cha as u8));
            proof {
                assert(low_bytes(it.seq().take(it.index() as int).push(cha)) =~= low_bytes(it.seq().take(it.index() as int)).push(cha as u8));
            }
        }
        proof {
            assert(string@.take(string@.len() as int) =~= string@);
            assert(out@ == start + low_bytes(string@));
            assert(len == utf8_len(string@));
            assert(out@ =~= old(out)@ + text_bytes(string@));
        }
    }
}

/// Writes one byte.
pub fn type_u8_serialize(out: &mut Vec<u8>, ubyte: &u8)
    ensures
        final(out)@ == old(out)@ + encode_value(Value::U8(*ubyte)),
{
    out.push(*ubyte);
}

/// Writes a flag as the byte 1 or 0.
pub fn type_bool_serialize(out: &mut Vec<u8>, boolean: &bool)
    ensures
        final(out)@ == old(out)@ + encode_value(Value::Bool(*boolean)),
{
    out.push(if *boolean { 1 } else { 0 });
}

/// Writes a `u16` big-endian.
pub fn type_u16_serialize(out: &mut Vec<u8>, ushort: &u16)
    ensures
        final(out)@ == old(out)@ + encode_value(Value::U16(*ushort)),
{
    let v = *ushort;
    out.push((v / 256) as u8);
    out.push((v % 256) as u8);
    proof {
        assert(final(out)@ =~= old(out)@ + be16(v)) by {
            assert(out@ =~= old(out)@ + be16(v));
        }
    }
}

/// Writes a `u32` big-endian.
pub fn type_u32_serialize(out: &mut Vec<u8>, uint: &u32)
    ensures
        final(out)@ == old(out)@ + encode_value(Value::U32(*uint)),
{
    let v = *uint;
    out.push((v / 0x100_0000) as u8);
    out.push(((v / 0x1_0000) % 256) as u8);
    out.push(((v / 256) % 256) as u8);
    out.push((v % 256) as u8);
    proof {
        assert(out@ =~= old(out)@ + be32(v));
    }
}

/// Writes a float, given by its `f32` bit pattern, big-endian.
pub fn type_float_serialize(out: &mut Vec<u8>, float: &u32)
    ensures
        final(out)@ == old(out)@ + encode_value(Value::U32(*float)),
{
    type_u32_serialize(out, float);
}

/// Writes a pair of floats (bit patterns), first then second.
pub fn type_float_pair_serialize(out: &mut Vec<u8>, pair: &(u32, u32))
    ensures
        final(out)@ == old(out)@ + encode_value(Value::U32(pair.0)) + encode_value(
            Value::U32(pair.1),
        ),
{
    type_float_serialize(out, &pair.0);
    type_float_serialize(out, &pair.1);
}

/// Writes an optional string: 1 and the string, or 0.
pub fn type_opt_string_serialize(out: &mut Vec<u8>, opt: &Option<String>)
    ensures
        final(out)@ == old(out)@ + encode_value(Value::OptText(opt_text_view(opt))),
{
    if let Some(tmp) = opt {
        out.push(1);
        type_string_serialize(out, tmp.as_str());
        proof {
            assert(out@ =~= old(out)@ + (seq![1u8] + text_bytes(tmp@)));
        }
    } else {
        out.push(0);
        proof {
            assert(out@ =~= old(out)@ + seq![0u8]);
        }
    }
}

/// Writes an optional `u16`: 1 and the number, or 0.
pub fn type_opt_u16_serialize(out: &mut Vec<u8>, opt: &Option<u16>)
    ensures
        final(out)@ == old(out)@ + encode_value(Value::OptU16(*opt)),
{
    if let Some(tmp) = opt {
        out.push(1);
        type_u16_serialize(out, tmp);
        proof {
            assert(out@ =~= old(out)@ + (seq![1u8] + be16(*tmp)));
        }
    } else {
        out.push(0);
        proof {
            assert(out@ =~= old(out)@ + seq![0u8]);
        }
    }
}

pub open spec fn opt_text_view(o: &Option<String>) -> Option<Seq<char>> {
    match o {
        Some(s) => Some(s@),
        None => None,
    }
}

/// What a field reader promises: on success the value read and the new
/// position agree with `decode_value`; on failure `decode_value` fails and
/// the position is unchanged.
pub open spec fn read_spec(
    t: Ty,
    buf: Seq<u8>,
    old_index: usize,
    new_index: usize,
    res: Option<Value>,
) -> bool {
    match res {
        Some(v) => decode_value(t, buf.skip(old_index as int)) == Some(
            (v, new_index - old_index),
        ),
        None => decode_value(t, buf.skip(old_index as int)) is None && new_index == old_index,
    }
}

/// Reads one byte.
pub fn type_u8_deserialize(buf: &[u8], index: &mut usize) -> (res: Result<u8, ()>)
    requires
        *old(index) <= buf@.len(),
    ensures
        read_spec(
            Ty::U8,
            buf@,
            *old(index),
            *final(index),
            match res {
                Ok(v) => Some(Value::U8(v)),
                Err(_) => None,
            },
        ),
{
    if *index < buf.len() {
        let b = buf[*index];
        *index = *index + 1;
        Ok(b)
    } else {
        Err(())
    }
}

/// Reads a flag: any nonzero byte is `true`.
pub fn type_bool_deserialize(buf: &[u8], index: &mut usize) -> (res: Result<bool, ()>)
    requires
        *old(index) <= buf@.len(),
    ensures
        read_spec(
            Ty::Bool,
            buf@,
            *old(index),
            *final(index),
            match res {
                Ok(v) => Some(Value::Bool(v)),
                Err(_) => None,
            },
        ),
{
    if *index < buf.len() {
        let b = buf[*index];
        *index = *index + 1;
        Ok(b > 0)
    } else {
        Err(())
    }
}

/// Reads a big-endian `u16`.
pub fn type_u16_deserialize(buf: &[u8], index: &mut usize) -> (res: Result<u16, ()>)
    requires
        *old(index) <= buf@.len(),
    ensures
        read_spec(
            Ty::U16,
            buf@,
            *old(index),
            *final(index),
            match res {
                Ok(v) => Some(Value::U16(v)),
                Err(_) => None,
            },
        ),
{
    let i = *index;
    if buf.len() - i >= 2 {
        let v = (buf[i] as u16) * 256 + (buf[i + 1] as u16);
        *index = i + 2;
        Ok(v)
    } else {
        Err(())
    }
}

/// Reads a big-endian `u32`.
pub fn type_u32_deserialize(buf: &[u8], index: &mut usize) -> (res: Result<u32, ()>)
    requires
        *old(index) <= buf@.len(),
    ensures
        read_spec(
            Ty::U32,
            buf@,
            *old(index),
            *final(index),
            match res {
                Ok(v) => Some(Value::U32(v)),
                Err(_) => None,
            },
        ),
{
    let i = *index;
    if buf.len() - i >= 4 {
        let v = (buf[i] as u32) * 0x100_0000 + (buf[i + 1] as u32) * 0x1_0000 + (buf[i + 2] as u32)
            * 256 + (buf[i + 3] as u32);
        *index = i + 4;
        Ok(v)
    } else {
        Err(())
    }
}

/// Reads a float as its `f32` bit pattern, big-endian.
pub fn type_float_deserialize(buf: &[u8], index: &mut usize) -> (res: Result<u32, ()>)
    requires
        *old(index) <= buf@.len(),
    ensures
        read_spec(
            Ty::U32,
            buf@,
            *old(index),
            *final(index),
            match res {
                Ok(v) => Some(Value::U32(v)),
                Err(_) => None,
            },
        ),
{
    type_u32_deserialize(buf, index)
}

/// Reads a string: a length byte, then that many bytes, each taken as the
/// character with that code point.
pub fn type_string_deserialize(buf: &[u8], index: &mut usize) -> (res: Result<String, ()>)
    requires
        *old(index) <= buf@.len(),
    ensures
        read_spec(
            Ty::Text,
            buf@,
            *old(index),
            *final(index),
            match res {
                Ok(v) => Some(Value::Text(v@)),
                Err(_) => None,
            },
        ),
{
    let i = *index;
    if i >= buf.len() {
        return Err(());
    }
    let size = buf[i] as usize;
    if buf.len() - (i + 1) < size {
        return Err(());
    }
    let start = i + 1;
    let end = start + size;
    let mut string = String::new();
    let mut k: usize = 0;
    while k < size
        invariant
            k <= size,
            start == i + 1,
            end == start + size,
            end <= buf@.len(),
            string@ == latin1(buf@.subrange(start as int, start + k)),
        decreases size - k,
    {
        push_char(&mut string, buf[start + k] as char);
        k = k + 1;
        proof {
            assert(latin1(buf@.subrange(start as int, start + k)) =~= latin1(
                buf@.subrange(start as int, start + k - 1),
            ).push(buf@[start + k - 1] as char));
        }
    }
    *index = end;
    proof {
        assert(buf@.skip(i as int).subrange(1, 1 + size) =~= buf@.subrange(start as int, end as int));
    }
    Ok(string)
}

/// Reads an optional string: a flag byte, then the string when it is nonzero.
pub fn type_opt_string_deserialize(buf: &[u8], index: &mut usize) -> (res: Result<Option<String>, ()>)
    requires
        *old(index) <= buf@.len(),
    ensures
        read_spec(
            Ty::OptText,
            buf@,
            *old(index),
            *final(index),
            match res {
                Ok(v) => Some(Value::OptText(opt_text_view(&v))),
                Err(_) => None,
            },
        ),
{
    let i = *index;
    if i >= buf.len() {
        return Err(());
    }
    if buf[i] > 0 {
        let mut j = i + 1;
        let r = type_string_deserialize(buf, &mut j);
        proof {
            assert(buf@.skip(i as int).skip(1) =~= buf@.skip(i + 1));
        }
        match r {
            Ok(s) => {
                *index = j;
                Ok(Some(s))
            },
            Err(()) => Err(()),
        }
    } else {
        *index = i + 1;
        Ok(None)
    }
}

/// Reads an optional `u16`: a flag byte, then the number when it is nonzero.
pub fn type_opt_u16_deserialize(buf: &[u8], index: &mut usize) -> (res: Result<Option<u16>, ()>)
    requires
        *old(index) <= buf@.len(),
    ensures
        read_spec(
            Ty::OptU16,
            buf@,
            *old(index),
            *final(index),
            match res {
                Ok(v) => Some(Value::OptU16(v)),
                Err(_) => None,
            },
        ),
{
    let i = *index;
    if i >= buf.len() {
        return Err(());
    }
    if buf[i] > 0 {
        let mut j = i + 1;
        let r = type_u16_deserialize(buf, &mut j);
        proof {
            assert(buf@.skip(i as int).skip(1) =~= buf@.skip(i + 1));
        }
        match r {
            Ok(v) => {
                *index = j;
                Ok(Some(v))
            },
            Err(()) => Err(()),
        }
    } else {
        *index = i + 1;
        Ok(None)
    }
}


// ---------------------------------------------------------------- part kinds

/// The kinds of part a ship is built from.
#[derive(Copy, Clone, PartialEq, Eq, Structural, Debug)]
pub enum PartKind {
    Core,
    Cargo,
    LandingThruster,
    Hub,
    SolarPanel,
}

impl PartKind {
    /// The number that stands for the kind on the wire.
    pub open spec fn number(self) -> u8 {
        match self {
            PartKind::Core => 0,
            PartKind::Cargo => 1,
            PartKind::LandingThruster => 2,
            PartKind::Hub => 3,
            PartKind::SolarPanel => 4,
        }
    }

    pub fn val_of(&self) -> (r: u8)
        ensures
            r == self.number(),
            r < part_kind_count(),
    {
        match self {
            Self::Core => 0,
            Self::Cargo => 1,
            Self::LandingThruster => 2,
            Self::Hub => 3,
            Self::SolarPanel => 4,
        }
    }

    /// Appends the kind's number.
    pub fn serialize(&self, buf: &mut Vec<u8>)
        ensures
            final(buf)@ == old(buf)@ + encode_value(Value::Kind(self.number())),
    {
        buf.push(self.val_of());
        proof {
            assert(buf@ =~= old(buf)@ + seq![self.number()]);
        }
    }

    /// Reads a kind from its number; numbers past the last kind are refused.
    pub fn deserialize(buf: &[u8], index: &mut usize) -> (res: Result<Self, ()>)
        requires
            *old(index) <= buf@.len(),
        ensures
            read_spec(
                Ty::Kind,
                buf@,
                *old(index),
                *final(index),
                match res {
                    Ok(k) => Some(Value::Kind(k.number())),
                    Err(_) => None,
                },
            ),
    {
        let i = *index;
        if i >= buf.len() {
            return Err(());
        }
        let me = buf[i];
        let r = match me {
            0 => Ok(Self::Core),
            1 => Ok(Self::Cargo),
            2 => Ok(Self::LandingThruster),
            3 => Ok(Self::Hub),
            4 => Ok(Self::SolarPanel),
            _ => Err(()),
        };
        if r.is_ok() {
            *index = i + 1;
        }
        r
    }
}

// ---------------------------------------------------------------- a reader over a field list

/// Reads the fields of one message, in order, from a byte buffer.  It
/// remembers (in ghost state) the full list of field types the message
/// has (`target`) and the values read so far, so that a failure at any
/// field is known to be a failure to decode the whole list.
struct Reader<'a> {
    buf: &'a [u8],
    pos: usize,
    start: Ghost<int>,
    target: Ghost<Seq<Ty>>,
    read: Ghost<Seq<Value>>,
}

impl<'a> Reader<'a> {
    spec fn inv(&self) -> bool {
        &&& 0 <= self.start@ <= self.pos <= self.buf@.len()
        &&& self.read@.len() <= self.target@.len()
        &&& self.decoded()
    }

    /// The values read so far are what the field types read so far decode to.
    #[verifier::opaque]
    spec fn decoded(&self) -> bool {
        decode_values(self.target@.take(self.read@.len() as int), self.buf@.skip(self.start@))
            == Some((self.read@, self.pos - self.start@))
    }

    spec fn can_read(&self, t: Ty) -> bool {
        &&& self.inv()
        &&& self.read@.len() < self.target@.len()
        &&& self.target@[self.read@.len() as int] == t
    }

    spec fn fails(&self) -> bool {
        decode_values(self.target@, self.buf@.skip(self.start@)) is None
    }

    spec fn done(&self) -> bool {
        decode_values(self.target@, self.buf@.skip(self.start@)) == Some(
            (self.read@, self.pos - self.start@),
        )
    }

    /// How a reader `after` relates to `self` once a field read returned `res`.
    spec fn after(&self, after: Self, res: Option<Value>) -> bool {
        &&& after.buf@ == self.buf@
        &&& after.start@ == self.start@
        &&& after.target@ == self.target@
        &&& match res {
            Some(v) => after.inv() && after.read@ == self.read@.push(v),
            None => self.fails(),
        }
    }

    fn new(buf: &'a [u8], start: usize, Ghost(target): Ghost<Seq<Ty>>) -> (r: Reader<'a>)
        requires
            start <= buf@.len(),
        ensures
            r.inv(),
            r.buf@ == buf@,
            r.start@ == start,
            r.pos == start,
            r.target@ == target,
            r.read@ == Seq::<Value>::empty(),
    {
        let r = Reader { buf, pos: start, start: Ghost(start as int), target: Ghost(target), read: Ghost(Seq::empty()) };
        proof {
            reveal(decode_values);
            reveal(Reader::decoded);
            assert(target.take(0) =~= Seq::<Ty>::empty());
        }
        r
    }

    proof fn lemma_fails_from_prefix(ts: Seq<Ty>, k: int, s: Seq<u8>)
        requires
            0 <= k <= ts.len(),
            decode_values(ts.take(k), s) is None,
        ensures
            decode_values(ts, s) is None,
        decreases ts.len() - k,
    {
        reveal(decode_values);
        if k < ts.len() {
            assert(ts.take(k + 1).drop_last() =~= ts.take(k));
            Self::lemma_fails_from_prefix(ts, k + 1, s);
        } else {
            assert(ts.take(k) =~= ts);
        }
    }

    proof fn lemma_step(&self, t: Ty, new_pos: usize, res: Option<Value>)
        requires
            self.can_read(t),
            crate::codec::read_spec(t, self.buf@, self.pos, new_pos, res),
        ensures
            self.after(Reader { pos: new_pos, read: Ghost(match res {
                Some(v) => self.read@.push(v),
                None => self.read@,
            }), ..*self }, res),
    {
        reveal(Reader::decoded);
        let k = self.read@.len() as int;
        let ts = self.target@;
        let s = self.buf@.skip(self.start@);
        assert(ts.take(k + 1) =~= ts.take(k).push(t));
        lemma_decode_values_push(ts.take(k), t, s);
        assert(s.skip(self.pos - self.start@) =~= self.buf@.skip(self.pos as int));
        match res {
            Some(v) => {},
            None => {
                Self::lemma_fails_from_prefix(ts, k + 1, s);
            },
        }
    }

    proof fn lemma_done(&self)
        requires
            self.inv(),
            self.read@.len() == self.target@.len(),
        ensures
            self.done(),
    {
        reveal(Reader::decoded);

        assert(self.target@.take(self.read@.len() as int) =~= self.target@);
    }

    fn u8(&mut self) -> (res: Result<u8, ()>)
        requires
            old(self).can_read(Ty::U8),
        ensures
            old(self).after(*final(self), match res {
                Ok(v) => Some(Value::U8(v)),
                Err(_) => None,
            }),
    {
        let ghost before = *self;
        let r = type_u8_deserialize(self.buf, &mut self.pos);
        proof {
            before.lemma_step(Ty::U8, self.pos, match r {
                Ok(v) => Some(Value::U8(v)),
                Err(_) => None,
            });
            if r is Ok {
                self.read = Ghost(before.read@.push(Value::U8(r->Ok_0)));
            }
        }
        r
    }

    fn bool(&mut self) -> (res: Result<bool, ()>)
        requires
            old(self).can_read(Ty::Bool),
        ensures
            old(self).after(*final(self), match res {
                Ok(v) => Some(Value::Bool(v)),
                Err(_) => None,
            }),
    {
        let ghost before = *self;
        let r = type_bool_deserialize(self.buf, &mut self.pos);
        proof {
            before.lemma_step(Ty::Bool, self.pos, match r {
                Ok(v) => Some(Value::Bool(v)),
                Err(_) => None,
            });
            if r is Ok {
                self.read = Ghost(before.read@.push(Value::Bool(r->Ok_0)));
            }
        }
        r
    }

    fn u16(&mut self) -> (res: Result<u16, ()>)
        requires
            old(self).can_read(Ty::U16),
        ensures
            old(self).after(*final(self), match res {
                Ok(v) => Some(Value::U16(v)),
                Err(_) => None,
            }),
    {
        let ghost before = *self;
        let r = type_u16_deserialize(self.buf, &mut self.pos);
        proof {
            before.lemma_step(Ty::U16, self.pos, match r {
                Ok(v) => Some(Value::U16(v)),
                Err(_) => None,
            });
            if r is Ok {
                self.read = Ghost(before.read@.push(Value::U16(r->Ok_0)));
            }
        }
        r
    }

    fn u32(&mut self) -> (res: Result<u32, ()>)
        requires
            old(self).can_read(Ty::U32),
        ensures
            old(self).after(*final(self), match res {
                Ok(v) => Some(Value::U32(v)),
                Err(_) => None,
            }),
    {
        let ghost before = *self;
        let r = type_u32_deserialize(self.buf, &mut self.pos);
        proof {
            before.lemma_step(Ty::U32, self.pos, match r {
                Ok(v) => Some(Value::U32(v)),
                Err(_) => None,
            });
            if r is Ok {
                self.read = Ghost(before.read@.push(Value::U32(r->Ok_0)));
            }
        }
        r
    }

    fn text(&mut self) -> (res: Result<String, ()>)
        requires
            old(self).can_read(Ty::Text),
        ensures
            old(self).after(*final(self), match res {
                Ok(v) => Some(Value::Text(v@)),
                Err(_) => None,
            }),
    {
        let ghost before = *self;
        let r = type_string_deserialize(self.buf, &mut self.pos);
        proof {
            before.lemma_step(Ty::Text, self.pos, if r is Ok {
                Some(Value::Text(r->Ok_0@))
            } else {
                None
            });
            if r is Ok {
                self.read = Ghost(before.read@.push(Value::Text(r->Ok_0@)));
            }
        }
        r
    }

    fn opt_text(&mut self) -> (res: Result<Option<String>, ()>)
        requires
            old(self).can_read(Ty::OptText),
        ensures
            old(self).after(*final(self), match res {
                Ok(v) => Some(Value::OptText(opt_text_view(&v))),
                Err(_) => None,
            }),
    {
        let ghost before = *self;
        let r = type_opt_string_deserialize(self.buf, &mut self.pos);
        proof {
            before.lemma_step(Ty::OptText, self.pos, if r is Ok {
                Some(Value::OptText(opt_text_view(&r->Ok_0)))
            } else {
                None
            });
            if r is Ok {
                self.read = Ghost(before.read@.push(Value::OptText(opt_text_view(&r->Ok_0))));
            }
        }
        r
    }

    fn opt_u16(&mut self) -> (res: Result<Option<u16>, ()>)
        requires
            old(self).can_read(Ty::OptU16),
        ensures
            old(self).after(*final(self), match res {
                Ok(v) => Some(Value::OptU16(v)),
                Err(_) => None,
            }),
    {
        let ghost before = *self;
        let r = type_opt_u16_deserialize(self.buf, &mut self.pos);
        proof {
            before.lemma_step(Ty::OptU16, self.pos, match r {
                Ok(v) => Some(Value::OptU16(v)),
                Err(_) => None,
            });
            if r is Ok {
                self.read = Ghost(before.read@.push(Value::OptU16(r->Ok_0)));
            }
        }
        r
    }

    fn kind(&mut self) -> (res: Result<PartKind, ()>)
        requires
            old(self).can_read(Ty::Kind),
        ensures
            old(self).after(*final(self), match res {
                Ok(v) => Some(Value::Kind(v.number())),
                Err(_) => None,
            }),
    {
        let ghost before = *self;
        let r = PartKind::deserialize(self.buf, &mut self.pos);
        proof {
            before.lemma_step(Ty::Kind, self.pos, match r {
                Ok(v) => Some(Value::Kind(v.number())),
                Err(_) => None,
            });
            if r is Ok {
                self.read = Ghost(before.read@.push(Value::Kind(r->Ok_0.number())));
            }
        }
        r
    }
}

/// What a client sends to the server.  Coordinates are `f32` values,
/// held here by their bit pattern (`f32::to_bits`).
pub enum ToServerMsg {
    Handshake { client: String, session: Option<String>, name: String },
    SetThrusters { forward: bool, backward: bool, clockwise: bool, counter_clockwise: bool },
    CommitGrab { grabbed_id: u16, x: u32, y: u32 },
    MoveGrab { x: u32, y: u32 },
    ReleaseGrab,
    BeamOut,
    SendChatMessage { msg: String },
    RequestUpdate,
}

/// The field types of each message, by tag.
pub open spec fn to_server_schema(tag: u8) -> Option<Seq<Ty>> {
    match tag {
        0 => Some(seq![Ty::Text, Ty::OptText, Ty::Text]),
        1 => Some(seq![Ty::Bool, Ty::Bool, Ty::Bool, Ty::Bool]),
        2 => Some(seq![Ty::U16, Ty::U32, Ty::U32]),
        3 => Some(seq![Ty::U32, Ty::U32]),
        4 => Some(seq![]),
        5 => Some(seq![]),
        6 => Some(seq![Ty::Text]),
        7 => Some(seq![]),
        _ => None,
    }
}

impl View for ToServerMsg {
    type V = Record;

    /// The tag and the fields, in wire order.
    open spec fn view(&self) -> Record {
        match self {
            ToServerMsg::Handshake { client, session, name } => Record { tag: 0, values: seq![Value::Text(client@), Value::OptText(opt_text_view(session)), Value::Text(name@)] },
            ToServerMsg::SetThrusters { forward, backward, clockwise, counter_clockwise } => Record { tag: 1, values: seq![Value::Bool(*forward), Value::Bool(*backward), Value::Bool(*clockwise), Value::Bool(*counter_clockwise)] },
            ToServerMsg::CommitGrab { grabbed_id, x, y } => Record { tag: 2, values: seq![Value::U16(*grabbed_id), Value::U32(*x), Value::U32(*y)] },
            ToServerMsg::MoveGrab { x, y } => Record { tag: 3, values: seq![Value::U32(*x), Value::U32(*y)] },
            ToServerMsg::ReleaseGrab => Record { tag: 4, values: seq![] },
            ToServerMsg::BeamOut => Record { tag: 5, values: seq![] },
            ToServerMsg::SendChatMessage { msg } => Record { tag: 6, values: seq![Value::Text(msg@)] },
            ToServerMsg::RequestUpdate => Record { tag: 7, values: seq![] },
        }
    }
}

impl ToServerMsg {
    /// Strings are ASCII and at most 255 bytes, so they read back unchanged.
    pub open spec fn wf(&self) -> bool {
        values_ok(self@.values)
    }

    /// Appends the message's encoding: its tag byte, then its fields in order.
    pub fn serialize(&self, out: &mut Vec<u8>)
        ensures
            final(out)@ == old(out)@ + encode_record(self@),
    {
        match self {
            Self::Handshake { client, session, name } => {
                out.push(0);
                let ghost prefix = out@;
                let ghost mut vs = Seq::<Value>::empty();
                proof {
                    lemma_encode_values_0();
                    assert(out@ =~= prefix + encode_values(vs));
                }
                let ghost before = out@;
                type_string_serialize(out, client.as_str());
                proof {
                    lemma_append_field(prefix, vs, Value::Text(client@), before, out@);
                    vs = vs.push(Value::Text(client@));
                }
                let ghost before = out@;
                type_opt_string_serialize(out, session);
                proof {
                    lemma_append_field(prefix, vs, Value::OptText(opt_text_view(session)), before, out@);
                    vs = vs.push(Value::OptText(opt_text_view(session)));
                }
                let ghost before = out@;
                type_string_serialize(out, name.as_str());
                proof {
                    lemma_append_field(prefix, vs, Value::Text(name@), before, out@);
                    vs = vs.push(Value::Text(name@));
                }
                proof {
                    assert(vs =~= self@.values);
                    lemma_record_done(old(out)@, 0, prefix, vs, out@);
                }
            },
            Self::SetThrusters { forward, backward, clockwise, counter_clockwise } => {
                out.push(1);
                let ghost prefix = out@;
                let ghost mut vs = Seq::<Value>::empty();
                proof {
                    lemma_encode_values_0();
                    assert(out@ =~= prefix + encode_values(vs));
                }
                let ghost before = out@;
                type_bool_serialize(out, forward);
                proof {
                    lemma_append_field(prefix, vs, Value::Bool(*forward), before, out@);
                    vs = vs.push(Value::Bool(*forward));
                }
                let ghost before = out@;
                type_bool_serialize(out, backward);
                proof {
                    lemma_append_field(prefix, vs, Value::Bool(*backward), before, out@);
                    vs = vs.push(Value::Bool(*backward));
                }
                let ghost before = out@;
                type_bool_serialize(out, clockwise);
                proof {
                    lemma_append_field(prefix, vs, Value::Bool(*clockwise), before, out@);
                    vs = vs.push(Value::Bool(*clockwise));
                }
                let ghost before = out@;
                type_bool_serialize(out, counter_clockwise);
                proof {
                    lemma_append_field(prefix, vs, Value::Bool(*counter_clockwise), before, out@);
                    vs = vs.push(Value::Bool(*counter_clockwise));
                }
                proof {
                    assert(vs =~= self@.values);
                    lemma_record_done(old(out)@, 1, prefix, vs, out@);
                }
            },
            Self::CommitGrab { grabbed_id, x, y } => {
                out.push(2);
                let ghost prefix = out@;
                let ghost mut vs = Seq::<Value>::empty();
                proof {
                    lemma_encode_values_0();
                    assert(out@ =~= prefix + encode_values(vs));
                }
                let ghost before = out@;
                type_u16_serialize(out, grabbed_id);
                proof {
                    lemma_append_field(prefix, vs, Value::U16(*grabbed_id), before, out@);
                    vs = vs.push(Value::U16(*grabbed_id));
                }
                let ghost before = out@;
                type_float_serialize(out, x);
                proof {
                    lemma_append_field(prefix, vs, Value::U32(*x), before, out@);
                    vs = vs.push(Value::U32(*x));
                }
                let ghost before = out@;
                type_float_serialize(out, y);
                proof {
                    lemma_append_field(prefix, vs, Value::U32(*y), before, out@);
                    vs = vs.push(Value::U32(*y));
                }
                proof {
                    assert(vs =~= self@.values);
                    lemma_record_done(old(out)@, 2, prefix, vs, out@);
                }
            },
            Self::MoveGrab { x, y } => {
                out.push(3);
                let ghost prefix = out@;
                let ghost mut vs = Seq::<Value>::empty();
                proof {
                    lemma_encode_values_0();
                    assert(out@ =~= prefix + encode_values(vs));
                }
                let ghost before = out@;
                type_float_serialize(out, x);
                proof {
                    lemma_append_field(prefix, vs, Value::U32(*x), before, out@);
                    vs = vs.push(Value::U32(*x));
                }
                let ghost before = out@;
                type_float_serialize(out, y);
                proof {
                    lemma_append_field(prefix, vs, Value::U32(*y), before, out@);
                    vs = vs.push(Value::U32(*y));
                }
                proof {
                    assert(vs =~= self@.values);
                    lemma_record_done(old(out)@, 3, prefix, vs, out@);
                }
            },
            Self::ReleaseGrab => {
                out.push(4);
                let ghost prefix = out@;
                let ghost mut vs = Seq::<Value>::empty();
                proof {
                    lemma_encode_values_0();
                    assert(out@ =~= prefix + encode_values(vs));
                }
                proof {
                    assert(vs =~= self@.values);
                    lemma_record_done(old(out)@, 4, prefix, vs, out@);
                }
            },
            Self::BeamOut => {
                out.push(5);
                let ghost prefix = out@;
                let ghost mut vs = Seq::<Value>::empty();
                proof {
                    lemma_encode_values_0();
                    assert(out@ =~= prefix + encode_values(vs));
                }
                proof {
                    assert(vs =~= self@.values);
                    lemma_record_done(old(out)@, 5, prefix, vs, out@);
                }
            },
            Self::SendChatMessage { msg } => {
                out.push(6);
                let ghost prefix = out@;
                let ghost mut vs = Seq::<Value>::empty();
                proof {
                    lemma_encode_values_0();
                    assert(out@ =~= prefix + encode_values(vs));
                }
                let ghost before = out@;
                type_string_serialize(out, msg.as_str());
                proof {
                    lemma_append_field(prefix, vs, Value::Text(msg@), before, out@);
                    vs = vs.push(Value::Text(msg@));
                }
                proof {
                    assert(vs =~= self@.values);
                    lemma_record_done(old(out)@, 6, prefix, vs, out@);
                }
            },
            Self::RequestUpdate => {
                out.push(7);
                let ghost prefix = out@;
                let ghost mut vs = Seq::<Value>::empty();
                proof {
                    lemma_encode_values_0();
                    assert(out@ =~= prefix + encode_values(vs));
                }
                proof {
                    assert(vs =~= self@.values);
                    lemma_record_done(old(out)@, 7, prefix, vs, out@);
                }
            },
        }
    }

    /// Reads a message starting at `*index`: on success `*index` moves past it;
    /// on failure (bytes run out, unknown tag, part kind out of range) it
    /// stays where it was.
    pub fn deserialize(buf: &[u8], index: &mut usize) -> (res: Result<Self, ()>)
        requires
            *old(index) <= buf@.len(),
        ensures
            match decode_record(|t: u8| to_server_schema(t), buf@.skip(*old(index) as int)) {
                Some((rec, n)) => res matches Ok(m) && m@ == rec && *final(index) == *old(index) + n,
                None => res is Err && *final(index) == *old(index),
            },
    {
        let i = *index;
        if i >= buf.len() {
            return Err(());
        }
        proof {
            assert(buf@.skip(i as int).skip(1) =~= buf@.skip(i + 1));
            assert(buf@.skip(i as int)[0] == buf@[i as int]);
        }
        let tag = buf[i];
        match tag {
            0 => {
                let mut r = Reader::new(buf, i + 1, Ghost(to_server_schema(0).unwrap()));
                let m = Self::read_handshake(&mut r)?;
                *index = r.pos;
                Ok(m)
            },
            1 => {
                let mut r = Reader::new(buf, i + 1, Ghost(to_server_schema(1).unwrap()));
                let m = Self::read_set_thrusters(&mut r)?;
                *index = r.pos;
                Ok(m)
            },
            2 => {
                let mut r = Reader::new(buf, i + 1, Ghost(to_server_schema(2).unwrap()));
                let m = Self::read_commit_grab(&mut r)?;
                *index = r.pos;
                Ok(m)
            },
            3 => {
                let mut r = Reader::new(buf, i + 1, Ghost(to_server_schema(3).unwrap()));
                let m = Self::read_move_grab(&mut r)?;
                *index = r.pos;
                Ok(m)
            },
            4 => {
                let mut r = Reader::new(buf, i + 1, Ghost(to_server_schema(4).unwrap()));
                let m = Self::read_release_grab(&mut r)?;
                *index = r.pos;
                Ok(m)
            },
            5 => {
                let mut r = Reader::new(buf, i + 1, Ghost(to_server_schema(5).unwrap()));
                let m = Self::read_beam_out(&mut r)?;
                *index = r.pos;
                Ok(m)
            },
            6 => {
                let mut r = Reader::new(buf, i + 1, Ghost(to_server_schema(6).unwrap()));
                let m = Self::read_send_chat_message(&mut r)?;
                *index = r.pos;
                Ok(m)
            },
            7 => {
                let mut r = Reader::new(buf, i + 1, Ghost(to_server_schema(7).unwrap()));
                let m = Self::read_request_update(&mut r)?;
                *index = r.pos;
                Ok(m)
            },
            _ => Err(()),
        }
    }

    fn read_handshake(r: &mut Reader) -> (res: Result<Self, ()>)
        requires
            old(r).inv(),
            old(r).read@.len() == 0,
            old(r).target@ == to_server_schema(0).unwrap(),
        ensures
            final(r).buf@ == old(r).buf@,
            final(r).start@ == old(r).start@,
            final(r).target@ == old(r).target@,
            match res {
                Ok(m) => final(r).done() && m@ == Record { tag: 0, values: final(r).read@ },
                Err(_) => old(r).fails(),
            },
    {
        let client = r.text()?;
        let session = r.opt_text()?;
        let name = r.text()?;
        let m = ToServerMsg::Handshake { client, session, name };
        proof {
            r.lemma_done();
            assert(r.read@ =~= m@.values);
        }
        Ok(m)
    }

    fn read_set_thrusters(r: &mut Reader) -> (res: Result<Self, ()>)
        requires
            old(r).inv(),
            old(r).read@.len() == 0,
            old(r).target@ == to_server_schema(1).unwrap(),
        ensures
            final(r).buf@ == old(r).buf@,
            final(r).start@ == old(r).start@,
            final(r).target@ == old(r).target@,
            match res {
                Ok(m) => final(r).done() && m@ == Record { tag: 1, values: final(r).read@ },
                Err(_) => old(r).fails(),
            },
    {
        let forward = r.bool()?;
        let backward = r.bool()?;
        let clockwise = r.bool()?;
        let counter_clockwise = r.bool()?;
        let m = ToServerMsg::SetThrusters { forward, backward, clockwise, counter_clockwise };
        proof {
            r.lemma_done();
            assert(r.read@ =~= m@.values);
        }
        Ok(m)
    }

    fn read_commit_grab(r: &mut Reader) -> (res: Result<Self, ()>)
        requires
            old(r).inv(),
            old(r).read@.len() == 0,
            old(r).target@ == to_server_schema(2).unwrap(),
        ensures
            final(r).buf@ == old(r).buf@,
            final(r).start@ == old(r).start@,
            final(r).target@ == old(r).target@,
            match res {
                Ok(m) => final(r).done() && m@ == Record { tag: 2, values: final(r).read@ },
                Err(_) => old(r).fails(),
            },
    {
        let grabbed_id = r.u16()?;
        let x = r.u32()?;
        let y = r.u32()?;
        let m = ToServerMsg::CommitGrab { grabbed_id, x, y };
        proof {
            r.lemma_done();
            assert(r.read@ =~= m@.values);
        }
        Ok(m)
    }

    fn read_move_grab(r: &mut Reader) -> (res: Result<Self, ()>)
        requires
            old(r).inv(),
            old(r).read@.len() == 0,
            old(r).target@ == to_server_schema(3).unwrap(),
        ensures
            final(r).buf@ == old(r).buf@,
            final(r).start@ == old(r).start@,
            final(r).target@ == old(r).target@,
            match res {
                Ok(m) => final(r).done() && m@ == Record { tag: 3, values: final(r).read@ },
                Err(_) => old(r).fails(),
            },
    {
        let x = r.u32()?;
        let y = r.u32()?;
        let m = ToServerMsg::MoveGrab { x, y };
        proof {
            r.lemma_done();
            assert(r.read@ =~= m@.values);
        }
        Ok(m)
    }

    fn read_release_grab(r: &mut Reader) -> (res: Result<Self, ()>)
        requires
            old(r).inv(),
            old(r).read@.len() == 0,
            old(r).target@ == to_server_schema(4).unwrap(),
        ensures
            final(r).buf@ == old(r).buf@,
            final(r).start@ == old(r).start@,
            final(r).target@ == old(r).target@,
            match res {
                Ok(m) => final(r).done() && m@ == Record { tag: 4, values: final(r).read@ },
                Err(_) => old(r).fails(),
            },
    {
        let m = ToServerMsg::ReleaseGrab;
        proof {
            r.lemma_done();
            assert(r.read@ =~= m@.values);
        }
        Ok(m)
    }

    fn read_beam_out(r: &mut Reader) -> (res: Result<Self, ()>)
        requires
            old(r).inv(),
            old(r).read@.len() == 0,
            old(r).target@ == to_server_schema(5).unwrap(),
        ensures
            final(r).buf@ == old(r).buf@,
            final(r).start@ == old(r).start@,
            final(r).target@ == old(r).target@,
            match res {
                Ok(m) => final(r).done() && m@ == Record { tag: 5, values: final(r).read@ },
                Err(_) => old(r).fails(),
            },
    {
        let m = ToServerMsg::BeamOut;
        proof {
            r.lemma_done();
            assert(r.read@ =~= m@.values);
        }
        Ok(m)
    }

    fn read_send_chat_message(r: &mut Reader) -> (res: Result<Self, ()>)
        requires
            old(r).inv(),
            old(r).read@.len() == 0,
            old(r).target@ == to_server_schema(6).unwrap(),
        ensures
            final(r).buf@ == old(r).buf@,
            final(r).start@ == old(r).start@,
            final(r).target@ == old(r).target@,
            match res {
                Ok(m) => final(r).done() && m@ == Record { tag: 6, values: final(r).read@ },
                Err(_) => old(r).fails(),
            },
    {
        let msg = r.text()?;
        let m = ToServerMsg::SendChatMessage { msg };
        proof {
            r.lemma_done();
            assert(r.read@ =~= m@.values);
        }
        Ok(m)
    }

    fn read_request_update(r: &mut Reader) -> (res: Result<Self, ()>)
        requires
            old(r).inv(),
            old(r).read@.len() == 0,
            old(r).target@ == to_server_schema(7).unwrap(),
        ensures
            final(r).buf@ == old(r).buf@,
            final(r).start@ == old(r).start@,
            final(r).target@ == old(r).target@,
            match res {
                Ok(m) => final(r).done() && m@ == Record { tag: 7, values: final(r).read@ },
                Err(_) => old(r).fails(),
            },
    {
        let m = ToServerMsg::RequestUpdate;
        proof {
            r.lemma_done();
            assert(r.read@ =~= m@.values);
        }
        Ok(m)
    }

}

/// What the server sends to a client.  Coordinates, rotations and radii
/// are `f32` values held by their bit pattern (`f32::to_bits`).
pub enum ToClientMsg {
    MessagePack { count: u16 },
    HandshakeAccepted { id: u16, core_id: u16, can_beamout: bool },
    AddCelestialObject { name: String, display_name: String, radius: u32, id: u16, position: (u32, u32) },
    AddPart { id: u16, kind: PartKind },
    MovePart { id: u16, x: u32, y: u32, rotation_n: u32, rotation_i: u32 },
    UpdatePartMeta { id: u16, owning_player: Option<u16>, thrust_mode: u8 },
    RemovePart { id: u16 },
    AddPlayer { id: u16, core_id: u16, name: String },
    UpdatePlayerMeta { id: u16, thrust_forward: bool, thrust_backward: bool, thrust_clockwise: bool, thrust_counter_clockwise: bool, grabed_part: Option<u16> },
    RemovePlayer { id: u16 },
    PostSimulationTick { your_power: u32 },
    UpdateMyMeta { max_power: u32, can_beamout: bool },
    BeamOutAnimation { player_id: u16 },
    ChatMessage { username: String, msg: String, color: String },
}

/// The field types of each message, by tag.
pub open spec fn to_client_schema(tag: u8) -> Option<Seq<Ty>> {
    match tag {
        0 => Some(seq![Ty::U16]),
        1 => Some(seq![Ty::U16, Ty::U16, Ty::Bool]),
        2 => Some(seq![Ty::Text, Ty::Text, Ty::U32, Ty::U16, Ty::U32, Ty::U32]),
        3 => Some(seq![Ty::U16, Ty::Kind]),
        4 => Some(seq![Ty::U16, Ty::U32, Ty::U32, Ty::U32, Ty::U32]),
        5 => Some(seq![Ty::U16, Ty::OptU16, Ty::U8]),
        6 => Some(seq![Ty::U16]),
        7 => Some(seq![Ty::U16, Ty::U16, Ty::Text]),
        8 => Some(seq![Ty::U16, Ty::Bool, Ty::Bool, Ty::Bool, Ty::Bool, Ty::OptU16]),
        9 => Some(seq![Ty::U16]),
        10 => Some(seq![Ty::U32]),
        11 => Some(seq![Ty::U32, Ty::Bool]),
        12 => Some(seq![Ty::U16]),
        13 => Some(seq![Ty::Text, Ty::Text, Ty::Text]),
        _ => None,
    }
}

impl View for ToClientMsg {
    type V = Record;

    /// The tag and the fields, in wire order.
    open spec fn view(&self) -> Record {
        match self {
            ToClientMsg::MessagePack { count } => Record { tag: 0, values: seq![Value::U16(*count)] },
            ToClientMsg::HandshakeAccepted { id, core_id, can_beamout } => Record { tag: 1, values: seq![Value::U16(*id), Value::U16(*core_id), Value::Bool(*can_beamout)] },
            ToClientMsg::AddCelestialObject { name, display_name, radius, id, position } => Record { tag: 2, values: seq![Value::Text(name@), Value::Text(display_name@), Value::U32(*radius), Value::U16(*id), Value::U32(position.0), Value::U32(position.1)] },
            ToClientMsg::AddPart { id, kind } => Record { tag: 3, values: seq![Value::U16(*id), Value::Kind(kind.number())] },
            ToClientMsg::MovePart { id, x, y, rotation_n, rotation_i } => Record { tag: 4, values: seq![Value::U16(*id), Value::U32(*x), Value::U32(*y), Value::U32(*rotation_n), Value::U32(*rotation_i)] },
            ToClientMsg::UpdatePartMeta { id, owning_player, thrust_mode } => Record { tag: 5, values: seq![Value::U16(*id), Value::OptU16(*owning_player), Value::U8(*thrust_mode)] },
            ToClientMsg::RemovePart { id } => Record { tag: 6, values: seq![Value::U16(*id)] },
            ToClientMsg::AddPlayer { id, core_id, name } => Record { tag: 7, values: seq![Value::U16(*id), Value::U16(*core_id), Value::Text(name@)] },
            ToClientMsg::UpdatePlayerMeta { id, thrust_forward, thrust_backward, thrust_clockwise, thrust_counter_clockwise, grabed_part } => Record { tag: 8, values: seq![Value::U16(*id), Value::Bool(*thrust_forward), Value::Bool(*thrust_backward), Value::Bool(*thrust_clockwise), Value::Bool(*thrust_counter_clockwise), Value::OptU16(*grabed_part)] },
            ToClientMsg::RemovePlayer { id } => Record { tag: 9, values: seq![Value::U16(*id)] },
            ToClientMsg::PostSimulationTick { your_power } => Record { tag: 10, values: seq![Value::U32(*your_power)] },
            ToClientMsg::UpdateMyMeta { max_power, can_beamout } => Record { tag: 11, values: seq![Value::U32(*max_power), Value::Bool(*can_beamout)] },
            ToClientMsg::BeamOutAnimation { player_id } => Record { tag: 12, values: seq![Value::U16(*player_id)] },
            ToClientMsg::ChatMessage { username, msg, color } => Record { tag: 13, values: seq![Value::Text(username@), Value::Text(msg@), Value::Text(color@)] },
        }
    }
}

impl ToClientMsg {
    /// Strings are ASCII and at most 255 bytes, so they read back unchanged.
    pub open spec fn wf(&self) -> bool {
        values_ok(self@.values)
    }

    /// Appends the message's encoding: its tag byte, then its fields in order.
    pub fn serialize(&self, out: &mut Vec<u8>)
        ensures
            final(out)@ == old(out)@ + encode_record(self@),
    {
        match self {
            Self::MessagePack { count } => {
                out.push(0);
                let ghost prefix = out@;
                let ghost mut vs = Seq::<Value>::empty();
                proof {
                    lemma_encode_values_0();
                    assert(out@ =~= prefix + encode_values(vs));
                }
                let ghost before = out@;
                type_u16_serialize(out, count);
                proof {
                    lemma_append_field(prefix, vs, Value::U16(*count), before, out@);
                    vs = vs.push(Value::U16(*count));
                }
                proof {
                    assert(vs =~= self@.values);
                    lemma_record_done(old(out)@, 0, prefix, vs, out@);
                }
            },
            Self::HandshakeAccepted { id, core_id, can_beamout } => {
                out.push(1);
                let ghost prefix = out@;
                let ghost mut vs = Seq::<Value>::empty();
                proof {
                    lemma_encode_values_0();
                    assert(out@ =~= prefix + encode_values(vs));
                }
                let ghost before = out@;
                type_u16_serialize(out, id);
                proof {
                    lemma_append_field(prefix, vs, Value::U16(*id), before, out@);
                    vs = vs.push(Value::U16(*id));
                }
                let ghost before = out@;
                type_u16_serialize(out, core_id);
                proof {
                    lemma_append_field(prefix, vs, Value::U16(*core_id), before, out@);
                    vs = vs.push(Value::U16(*core_id));
                }
                let ghost before = out@;
                type_bool_serialize(out, can_beamout);
                proof {
                    lemma_append_field(prefix, vs, Value::Bool(*can_beamout), before, out@);
                    vs = vs.push(Value::Bool(*can_beamout));
                }
                proof {
                    assert(vs =~= self@.values);
                    lemma_record_done(old(out)@, 1, prefix, vs, out@);
                }
            },
            Self::AddCelestialObject { name, display_name, radius, id, position } => {
                out.push(2);
                let ghost prefix = out@;
                let ghost mut vs = Seq::<Value>::empty();
                proof {
                    lemma_encode_values_0();
                    assert(out@ =~= prefix + encode_values(vs));
                }
                let ghost before = out@;
                type_string_serialize(out, name.as_str());
                proof {
                    lemma_append_field(prefix, vs, Value::Text(name@), before, out@);
                    vs = vs.push(Value::Text(name@));
                }
                let ghost before = out@;
                type_string_serialize(out, display_name.as_str());
                proof {
                    lemma_append_field(prefix, vs, Value::Text(display_name@), before, out@);
                    vs = vs.push(Value::Text(display_name@));
                }
                let ghost before = out@;
                type_float_serialize(out, radius);
                proof {
                    lemma_append_field(prefix, vs, Value::U32(*radius), before, out@);
                    vs = vs.push(Value::U32(*radius));
                }
                let ghost before = out@;
                type_u16_serialize(out, id);
                proof {
                    lemma_append_field(prefix, vs, Value::U16(*id), before, out@);
                    vs = vs.push(Value::U16(*id));
                }
                let ghost before = out@;
                type_float_pair_serialize(out, position);
                proof {
                    assert(out@ =~= before + encode_value(Value::U32(position.0)) + encode_value(Value::U32(position.1)));
                    lemma_append_field(prefix, vs, Value::U32(position.0), before, before + encode_value(Value::U32(position.0)));
                    lemma_append_field(prefix, vs.push(Value::U32(position.0)), Value::U32(position.1), before + encode_value(Value::U32(position.0)), out@);
                    vs = vs.push(Value::U32(position.0)).push(Value::U32(position.1));
                }
                proof {
                    assert(vs =~= self@.values);
                    lemma_record_done(old(out)@, 2, prefix, vs, out@);
                }
            },
            Self::AddPart { id, kind } => {
                out.push(3);
                let ghost prefix = out@;
                let ghost mut vs = Seq::<Value>::empty();
                proof {
                    lemma_encode_values_0();
                    assert(out@ =~= prefix + encode_values(vs));
                }
                let ghost before = out@;
                type_u16_serialize(out, id);
                proof {
                    lemma_append_field(prefix, vs, Value::U16(*id), before, out@);
                    vs = vs.push(Value::U16(*id));
                }
                let ghost before = out@;
                kind.serialize(out);
                proof {
                    lemma_append_field(prefix, vs, Value::Kind(kind.number()), before, out@);
                    vs = vs.push(Value::Kind(kind.number()));
                }
                proof {
                    assert(vs =~= self@.values);
                    lemma_record_done(old(out)@, 3, prefix, vs, out@);
                }
            },
            Self::MovePart { id, x, y, rotation_n, rotation_i } => {
                out.push(4);
                let ghost prefix = out@;
                let ghost mut vs = Seq::<Value>::empty();
                proof {
                    lemma_encode_values_0();
                    assert(out@ =~= prefix + encode_values(vs));
                }
                let ghost before = out@;
                type_u16_serialize(out, id);
                proof {
                    lemma_append_field(prefix, vs, Value::U16(*id), before, out@);
                    vs = vs.push(Value::U16(*id));
                }
                let ghost before = out@;
                type_float_serialize(out, x);
                proof {
                    lemma_append_field(prefix, vs, Value::U32(*x), before, out@);
                    vs = vs.push(Value::U32(*x));
                }
                let ghost before = out@;
                type_float_serialize(out, y);
                proof {
                    lemma_append_field(prefix, vs, Value::U32(*y), before, out@);
                    vs = vs.push(Value::U32(*y));
                }
                let ghost before = out@;
                type_float_serialize(out, rotation_n);
                proof {
                    lemma_append_field(prefix, vs, Value::U32(*rotation_n), before, out@);
                    vs = vs.push(Value::U32(*rotation_n));
                }
                let ghost before = out@;
                type_float_serialize(out, rotation_i);
                proof {
                    lemma_append_field(prefix, vs, Value::U32(*rotation_i), before, out@);
                    vs = vs.push(Value::U32(*rotation_i));
                }
                proof {
                    assert(vs =~= self@.values);
                    lemma_record_done(old(out)@, 4, prefix, vs, out@);
                }
            },
            Self::UpdatePartMeta { id, owning_player, thrust_mode } => {
                out.push(5);
                let ghost prefix = out@;
                let ghost mut vs = Seq::<Value>::empty();
                proof {
                    lemma_encode_values_0();
                    assert(out@ =~= prefix + encode_values(vs));
                }
                let ghost before = out@;
                type_u16_serialize(out, id);
                proof {
                    lemma_append_field(prefix, vs, Value::U16(*id), before, out@);
                    vs = vs.push(Value::U16(*id));
                }
                let ghost before = out@;
                type_opt_u16_serialize(out, owning_player);
                proof {
                    lemma_append_field(prefix, vs, Value::OptU16(*owning_player), before, out@);
                    vs = vs.push(Value::OptU16(*owning_player));
                }
                let ghost before = out@;
                type_u8_serialize(out, thrust_mode);
                proof {
                    lemma_append_field(prefix, vs, Value::U8(*thrust_mode), before, out@);
                    vs = vs.push(Value::U8(*thrust_mode));
                }
                proof {
                    assert(vs =~= self@.values);
                    lemma_record_done(old(out)@, 5, prefix, vs, out@);
                }
            },
            Self::RemovePart { id } => {
                out.push(6);
                let ghost prefix = out@;
                let ghost mut vs = Seq::<Value>::empty();
                proof {
                    lemma_encode_values_0();
                    assert(out@ =~= prefix + encode_values(vs));
                }
                let ghost before = out@;
                type_u16_serialize(out, id);
                proof {
                    lemma_append_field(prefix, vs, Value::U16(*id), before, out@);
                    vs = vs.push(Value::U16(*id));
                }
                proof {
                    assert(vs =~= self@.values);
                    lemma_record_done(old(out)@, 6, prefix, vs, out@);
                }
            },
            Self::AddPlayer { id, core_id, name } => {
                out.push(7);
                let ghost prefix = out@;
                let ghost mut vs = Seq::<Value>::empty();
                proof {
                    lemma_encode_values_0();
                    assert(out@ =~= prefix + encode_values(vs));
                }
                let ghost before = out@;
                type_u16_serialize(out, id);
                proof {
                    lemma_append_field(prefix, vs, Value::U16(*id), before, out@);
                    vs = vs.push(Value::U16(*id));
                }
                let ghost before = out@;
                type_u16_serialize(out, core_id);
                proof {
                    lemma_append_field(prefix, vs, Value::U16(*core_id), before, out@);
                    vs = vs.push(Value::U16(*core_id));
                }
                let ghost before = out@;
                type_string_serialize(out, name.as_str());
                proof {
                    lemma_append_field(prefix, vs, Value::Text(name@), before, out@);
                    vs = vs.push(Value::Text(name@));
                }
                proof {
                    assert(vs =~= self@.values);
                    lemma_record_done(old(out)@, 7, prefix, vs, out@);
                }
            },
            Self::UpdatePlayerMeta { id, thrust_forward, thrust_backward, thrust_clockwise, thrust_counter_clockwise, grabed_part } => {
                out.push(8);
                let ghost prefix = out@;
                let ghost mut vs = Seq::<Value>::empty();
                proof {
                    lemma_encode_values_0();
                    assert(out@ =~= prefix + encode_values(vs));
                }
                let ghost before = out@;
                type_u16_serialize(out, id);
                proof {
                    lemma_append_field(prefix, vs, Value::U16(*id), before, out@);
                    vs = vs.push(Value::U16(*id));
                }
                let ghost before = out@;
                type_bool_serialize(out, thrust_forward);
                proof {
                    lemma_append_field(prefix, vs, Value::Bool(*thrust_forward), before, out@);
                    vs = vs.push(Value::Bool(*thrust_forward));
                }
                let ghost before = out@;
                type_bool_serialize(out, thrust_backward);
                proof {
                    lemma_append_field(prefix, vs, Value::Bool(*thrust_backward), before, out@);
                    vs = vs.push(Value::Bool(*thrust_backward));
                }
                let ghost before = out@;
                type_bool_serialize(out, thrust_clockwise);
                proof {
                    lemma_append_field(prefix, vs, Value::Bool(*thrust_clockwise), before, out@);
                    vs = vs.push(Value::Bool(*thrust_clockwise));
                }
                let ghost before = out@;
                type_bool_serialize(out, thrust_counter_clockwise);
                proof {
                    lemma_append_field(prefix, vs, Value::Bool(*thrust_counter_clockwise), before, out@);
                    vs = vs.push(Value::Bool(*thrust_counter_clockwise));
                }
                let ghost before = out@;
                type_opt_u16_serialize(out, grabed_part);
                proof {
                    lemma_append_field(prefix, vs, Value::OptU16(*grabed_part), before, out@);
                    vs = vs.push(Value::OptU16(*grabed_part));
                }
                proof {
                    assert(vs =~= self@.values);
                    lemma_record_done(old(out)@, 8, prefix, vs, out@);
                }
            },
            Self::RemovePlayer { id } => {
                out.push(9);
                let ghost prefix = out@;
                let ghost mut vs = Seq::<Value>::empty();
                proof {
                    lemma_encode_values_0();
                    assert(out@ =~= prefix + encode_values(vs));
                }
                let ghost before = out@;
                type_u16_serialize(out, id);
                proof {
                    lemma_append_field(prefix, vs, Value::U16(*id), before, out@);
                    vs = vs.push(Value::U16(*id));
                }
                proof {
                    assert(vs =~= self@.values);
                    lemma_record_done(old(out)@, 9, prefix, vs, out@);
                }
            },
            Self::PostSimulationTick { your_power } => {
                out.push(10);
                let ghost prefix = out@;
                let ghost mut vs = Seq::<Value>::empty();
                proof {
                    lemma_encode_values_0();
                    assert(out@ =~= prefix + encode_values(vs));
                }
                let ghost before = out@;
                type_u32_serialize(out, your_power);
                proof {
                    lemma_append_field(prefix, vs, Value::U32(*your_power), before, out@);
                    vs = vs.push(Value::U32(*your_power));
                }
                proof {
                    assert(vs =~= self@.values);
                    lemma_record_done(old(out)@, 10, prefix, vs, out@);
                }
            },
            Self::UpdateMyMeta { max_power, can_beamout } => {
                out.push(11);
                let ghost prefix = out@;
                let ghost mut vs = Seq::<Value>::empty();
                proof {
                    lemma_encode_values_0();
                    assert(out@ =~= prefix + encode_values(vs));
                }
                let ghost before = out@;
                type_u32_serialize(out, max_power);
                proof {
                    lemma_append_field(prefix, vs, Value::U32(*max_power), before, out@);
                    vs = vs.push(Value::U32(*max_power));
                }
                let ghost before = out@;
                type_bool_serialize(out, can_beamout);
                proof {
                    lemma_append_field(prefix, vs, Value::Bool(*can_beamout), before, out@);
                    vs = vs.push(Value::Bool(*can_beamout));
                }
                proof {
                    assert(vs =~= self@.values);
                    lemma_record_done(old(out)@, 11, prefix, vs, out@);
                }
            },
            Self::BeamOutAnimation { player_id } => {
                out.push(12);
                let ghost prefix = out@;
                let ghost mut vs = Seq::<Value>::empty();
                proof {
                    lemma_encode_values_0();
                    assert(out@ =~= prefix + encode_values(vs));
                }
                let ghost before = out@;
                type_u16_serialize(out, player_id);
                proof {
                    lemma_append_field(prefix, vs, Value::U16(*player_id), before, out@);
                    vs = vs.push(Value::U16(*player_id));
                }
                proof {
                    assert(vs =~= self@.values);
                    lemma_record_done(old(out)@, 12, prefix, vs, out@);
                }
            },
            Self::ChatMessage { username, msg, color } => {
                out.push(13);
                let ghost prefix = out@;
                let ghost mut vs = Seq::<Value>::empty();
                proof {
                    lemma_encode_values_0();
                    assert(out@ =~= prefix + encode_values(vs));
                }
                let ghost before = out@;
                type_string_serialize(out, username.as_str());
                proof {
                    lemma_append_field(prefix, vs, Value::Text(username@), before, out@);
                    vs = vs.push(Value::Text(username@));
                }
                let ghost before = out@;
                type_string_serialize(out, msg.as_str());
                proof {
                    lemma_append_field(prefix, vs, Value::Text(msg@), before, out@);
                    vs = vs.push(Value::Text(msg@));
                }
                let ghost before = out@;
                type_string_serialize(out, color.as_str());
                proof {
                    lemma_append_field(prefix, vs, Value::Text(color@), before, out@);
                    vs = vs.push(Value::Text(color@));
                }
                proof {
                    assert(vs =~= self@.values);
                    lemma_record_done(old(out)@, 13, prefix, vs, out@);
                }
            },
        }
    }

    /// Reads a message starting at `*index`: on success `*index` moves past it;
    /// on failure (bytes run out, unknown tag, part kind out of range) it
    /// stays where it was.
    pub fn deserialize(buf: &[u8], index: &mut usize) -> (res: Result<Self, ()>)
        requires
            *old(index) <= buf@.len(),
        ensures
            match decode_record(|t: u8| to_client_schema(t), buf@.skip(*old(index) as int)) {
                Some((rec, n)) => res matches Ok(m) && m@ == rec && *final(index) == *old(index) + n,
                None => res is Err && *final(index) == *old(index),
            },
    {
        let i = *index;
        if i >= buf.len() {
            return Err(());
        }
        proof {
            assert(buf@.skip(i as int).skip(1) =~= buf@.skip(i + 1));
            assert(buf@.skip(i as int)[0] == buf@[i as int]);
        }
        let tag = buf[i];
        match tag {
            0 => {
                let mut r = Reader::new(buf, i + 1, Ghost(to_client_schema(0).unwrap()));
                let m = Self::read_message_pack(&mut r)?;
                *index = r.pos;
                Ok(m)
            },
            1 => {
                let mut r = Reader::new(buf, i + 1, Ghost(to_client_schema(1).unwrap()));
                let m = Self::read_handshake_accepted(&mut r)?;
                *index = r.pos;
                Ok(m)
            },
            2 => {
                let mut r = Reader::new(buf, i + 1, Ghost(to_client_schema(2).unwrap()));
                let m = Self::read_add_celestial_object(&mut r)?;
                *index = r.pos;
                Ok(m)
            },
            3 => {
                let mut r = Reader::new(buf, i + 1, Ghost(to_client_schema(3).unwrap()));
                let m = Self::read_add_part(&mut r)?;
                *index = r.pos;
                Ok(m)
            },
            4 => {
                let mut r = Reader::new(buf, i + 1, Ghost(to_client_schema(4).unwrap()));
                let m = Self::read_move_part(&mut r)?;
                *index = r.pos;
                Ok(m)
            },
            5 => {
                let mut r = Reader::new(buf, i + 1, Ghost(to_client_schema(5).unwrap()));
                let m = Self::read_update_part_meta(&mut r)?;
                *index = r.pos;
                Ok(m)
            },
            6 => {
                let mut r = Reader::new(buf, i + 1, Ghost(to_client_schema(6).unwrap()));
                let m = Self::read_remove_part(&mut r)?;
                *index = r.pos;
                Ok(m)
            },
            7 => {
                let mut r = Reader::new(buf, i + 1, Ghost(to_client_schema(7).unwrap()));
                let m = Self::read_add_player(&mut r)?;
                *index = r.pos;
                Ok(m)
            },
            8 => {
                let mut r = Reader::new(buf, i + 1, Ghost(to_client_schema(8).unwrap()));
                let m = Self::read_update_player_meta(&mut r)?;
                *index = r.pos;
                Ok(m)
            },
            9 => {
                let mut r = Reader::new(buf, i + 1, Ghost(to_client_schema(9).unwrap()));
                let m = Self::read_remove_player(&mut r)?;
                *index = r.pos;
                Ok(m)
            },
            10 => {
                let mut r = Reader::new(buf, i + 1, Ghost(to_client_schema(10).unwrap()));
                let m = Self::read_post_simulation_tick(&mut r)?;
                *index = r.pos;
                Ok(m)
            },
            11 => {
                let mut r = Reader::new(buf, i + 1, Ghost(to_client_schema(11).unwrap()));
                let m = Self::read_update_my_meta(&mut r)?;
                *index = r.pos;
                Ok(m)
            },
            12 => {
                let mut r = Reader::new(buf, i + 1, Ghost(to_client_schema(12).unwrap()));
                let m = Self::read_beam_out_animation(&mut r)?;
                *index = r.pos;
                Ok(m)
            },
            13 => {
                let mut r = Reader::new(buf, i + 1, Ghost(to_client_schema(13).unwrap()));
                let m = Self::read_chat_message(&mut r)?;
                *index = r.pos;
                Ok(m)
            },
            _ => Err(()),
        }
    }

    fn read_message_pack(r: &mut Reader) -> (res: Result<Self, ()>)
        requires
            old(r).inv(),
            old(r).read@.len() == 0,
            old(r).target@ == to_client_schema(0).unwrap(),
        ensures
            final(r).buf@ == old(r).buf@,
            final(r).start@ == old(r).start@,
            final(r).target@ == old(r).target@,
            match res {
                Ok(m) => final(r).done() && m@ == Record { tag: 0, values: final(r).read@ },
                Err(_) => old(r).fails(),
            },
    {
        let count = r.u16()?;
        let m = ToClientMsg::MessagePack { count };
        proof {
            r.lemma_done();
            assert(r.read@ =~= m@.values);
        }
        Ok(m)
    }

    fn read_handshake_accepted(r: &mut Reader) -> (res: Result<Self, ()>)
        requires
            old(r).inv(),
            old(r).read@.len() == 0,
            old(r).target@ == to_client_schema(1).unwrap(),
        ensures
            final(r).buf@ == old(r).buf@,
            final(r).start@ == old(r).start@,
            final(r).target@ == old(r).target@,
            match res {
                Ok(m) => final(r).done() && m@ == Record { tag: 1, values: final(r).read@ },
                Err(_) => old(r).fails(),
            },
    {
        let id = r.u16()?;
        let core_id = r.u16()?;
        let can_beamout = r.bool()?;
        let m = ToClientMsg::HandshakeAccepted { id, core_id, can_beamout };
        proof {
            r.lemma_done();
            assert(r.read@ =~= m@.values);
        }
        Ok(m)
    }

    fn read_add_celestial_object(r: &mut Reader) -> (res: Result<Self, ()>)
        requires
            old(r).inv(),
            old(r).read@.len() == 0,
            old(r).target@ == to_client_schema(2).unwrap(),
        ensures
            final(r).buf@ == old(r).buf@,
            final(r).start@ == old(r).start@,
            final(r).target@ == old(r).target@,
            match res {
                Ok(m) => final(r).done() && m@ == Record { tag: 2, values: final(r).read@ },
                Err(_) => old(r).fails(),
            },
    {
        let name = r.text()?;
        let display_name = r.text()?;
        let radius = r.u32()?;
        let id = r.u16()?;
        let position_0 = r.u32()?;
        let position_1 = r.u32()?;
        let position = (position_0, position_1);
        let m = ToClientMsg::AddCelestialObject { name, display_name, radius, id, position };
        proof {
            r.lemma_done();
            assert(r.read@ =~= m@.values);
        }
        Ok(m)
    }

    fn read_add_part(r: &mut Reader) -> (res: Result<Self, ()>)
        requires
            old(r).inv(),
            old(r).read@.len() == 0,
            old(r).target@ == to_client_schema(3).unwrap(),
        ensures
            final(r).buf@ == old(r).buf@,
            final(r).start@ == old(r).start@,
            final(r).target@ == old(r).target@,
            match res {
                Ok(m) => final(r).done() && m@ == Record { tag: 3, values: final(r).read@ },
                Err(_) => old(r).fails(),
            },
    {
        let id = r.u16()?;
        let kind = r.kind()?;
        let m = ToClientMsg::AddPart { id, kind };
        proof {
            r.lemma_done();
            assert(r.read@ =~= m@.values);
        }
        Ok(m)
    }

    fn read_move_part(r: &mut Reader) -> (res: Result<Self, ()>)
        requires
            old(r).inv(),
            old(r).read@.len() == 0,
            old(r).target@ == to_client_schema(4).unwrap(),
        ensures
            final(r).buf@ == old(r).buf@,
            final(r).start@ == old(r).start@,
            final(r).target@ == old(r).target@,
            match res {
                Ok(m) => final(r).done() && m@ == Record { tag: 4, values: final(r).read@ },
                Err(_) => old(r).fails(),
            },
    {
        let id = r.u16()?;
        let x = r.u32()?;
        let y = r.u32()?;
        let rotation_n = r.u32()?;
        let rotation_i = r.u32()?;
        let m = ToClientMsg::MovePart { id, x, y, rotation_n, rotation_i };
        proof {
            r.lemma_done();
            assert(r.read@ =~= m@.values);
        }
        Ok(m)
    }

    fn read_update_part_meta(r: &mut Reader) -> (res: Result<Self, ()>)
        requires
            old(r).inv(),
            old(r).read@.len() == 0,
            old(r).target@ == to_client_schema(5).unwrap(),
        ensures
            final(r).buf@ == old(r).buf@,
            final(r).start@ == old(r).start@,
            final(r).target@ == old(r).target@,
            match res {
                Ok(m) => final(r).done() && m@ == Record { tag: 5, values: final(r).read@ },
                Err(_) => old(r).fails(),
            },
    {
        let id = r.u16()?;
        let owning_player = r.opt_u16()?;
        let thrust_mode = r.u8()?;
        let m = ToClientMsg::UpdatePartMeta { id, owning_player, thrust_mode };
        proof {
            r.lemma_done();
            assert(r.read@ =~= m@.values);
        }
        Ok(m)
    }

    fn read_remove_part(r: &mut Reader) -> (res: Result<Self, ()>)
        requires
            old(r).inv(),
            old(r).read@.len() == 0,
            old(r).target@ == to_client_schema(6).unwrap(),
        ensures
            final(r).buf@ == old(r).buf@,
            final(r).start@ == old(r).start@,
            final(r).target@ == old(r).target@,
            match res {
                Ok(m) => final(r).done() && m@ == Record { tag: 6, values: final(r).read@ },
                Err(_) => old(r).fails(),
            },
    {
        let id = r.u16()?;
        let m = ToClientMsg::RemovePart { id };
        proof {
            r.lemma_done();
            assert(r.read@ =~= m@.values);
        }
        Ok(m)
    }

    fn read_add_player(r: &mut Reader) -> (res: Result<Self, ()>)
        requires
            old(r).inv(),
            old(r).read@.len() == 0,
            old(r).target@ == to_client_schema(7).unwrap(),
        ensures
            final(r).buf@ == old(r).buf@,
            final(r).start@ == old(r).start@,
            final(r).target@ == old(r).target@,
            match res {
                Ok(m) => final(r).done() && m@ == Record { tag: 7, values: final(r).read@ },
                Err(_) => old(r).fails(),
            },
    {
        let id = r.u16()?;
        let core_id = r.u16()?;
        let name = r.text()?;
        let m = ToClientMsg::AddPlayer { id, core_id, name };
        proof {
            r.lemma_done();
            assert(r.read@ =~= m@.values);
        }
        Ok(m)
    }

    fn read_update_player_meta(r: &mut Reader) -> (res: Result<Self, ()>)
        requires
            old(r).inv(),
            old(r).read@.len() == 0,
            old(r).target@ == to_client_schema(8).unwrap(),
        ensures
            final(r).buf@ == old(r).buf@,
            final(r).start@ == old(r).start@,
            final(r).target@ == old(r).target@,
            match res {
                Ok(m) => final(r).done() && m@ == Record { tag: 8, values: final(r).read@ },
                Err(_) => old(r).fails(),
            },
    {
        let id = r.u16()?;
        let thrust_forward = r.bool()?;
        let thrust_backward = r.bool()?;
        let thrust_clockwise = r.bool()?;
        let thrust_counter_clockwise = r.bool()?;
        let grabed_part = r.opt_u16()?;
        let m = ToClientMsg::UpdatePlayerMeta { id, thrust_forward, thrust_backward, thrust_clockwise, thrust_counter_clockwise, grabed_part };
        proof {
            r.lemma_done();
            assert(r.read@ =~= m@.values);
        }
        Ok(m)
    }

    fn read_remove_player(r: &mut Reader) -> (res: Result<Self, ()>)
        requires
            old(r).inv(),
            old(r).read@.len() == 0,
            old(r).target@ == to_client_schema(9).unwrap(),
        ensures
            final(r).buf@ == old(r).buf@,
            final(r).start@ == old(r).start@,
            final(r).target@ == old(r).target@,
            match res {
                Ok(m) => final(r).done() && m@ == Record { tag: 9, values: final(r).read@ },
                Err(_) => old(r).fails(),
            },
    {
        let id = r.u16()?;
        let m = ToClientMsg::RemovePlayer { id };
        proof {
            r.lemma_done();
            assert(r.read@ =~= m@.values);
        }
        Ok(m)
    }

    fn read_post_simulation_tick(r: &mut Reader) -> (res: Result<Self, ()>)
        requires
            old(r).inv(),
            old(r).read@.len() == 0,
            old(r).target@ == to_client_schema(10).unwrap(),
        ensures
            final(r).buf@ == old(r).buf@,
            final(r).start@ == old(r).start@,
            final(r).target@ == old(r).target@,
            match res {
                Ok(m) => final(r).done() && m@ == Record { tag: 10, values: final(r).read@ },
                Err(_) => old(r).fails(),
            },
    {
        let your_power = r.u32()?;
        let m = ToClientMsg::PostSimulationTick { your_power };
        proof {
            r.lemma_done();
            assert(r.read@ =~= m@.values);
        }
        Ok(m)
    }

    fn read_update_my_meta(r: &mut Reader) -> (res: Result<Self, ()>)
        requires
            old(r).inv(),
            old(r).read@.len() == 0,
            old(r).target@ == to_client_schema(11).unwrap(),
        ensures
            final(r).buf@ == old(r).buf@,
            final(r).start@ == old(r).start@,
            final(r).target@ == old(r).target@,
            match res {
                Ok(m) => final(r).done() && m@ == Record { tag: 11, values: final(r).read@ },
                Err(_) => old(r).fails(),
            },
    {
        let max_power = r.u32()?;
        let can_beamout = r.bool()?;
        let m = ToClientMsg::UpdateMyMeta { max_power, can_beamout };
        proof {
            r.lemma_done();
            assert(r.read@ =~= m@.values);
        }
        Ok(m)
    }

    fn read_beam_out_animation(r: &mut Reader) -> (res: Result<Self, ()>)
        requires
            old(r).inv(),
            old(r).read@.len() == 0,
            old(r).target@ == to_client_schema(12).unwrap(),
        ensures
            final(r).buf@ == old(r).buf@,
            final(r).start@ == old(r).start@,
            final(r).target@ == old(r).target@,
            match res {
                Ok(m) => final(r).done() && m@ == Record { tag: 12, values: final(r).read@ },
                Err(_) => old(r).fails(),
            },
    {
        let player_id = r.u16()?;
        let m = ToClientMsg::BeamOutAnimation { player_id };
        proof {
            r.lemma_done();
            assert(r.read@ =~= m@.values);
        }
        Ok(m)
    }

    fn read_chat_message(r: &mut Reader) -> (res: Result<Self, ()>)
        requires
            old(r).inv(),
            old(r).read@.len() == 0,
            old(r).target@ == to_client_schema(13).unwrap(),
        ensures
            final(r).buf@ == old(r).buf@,
            final(r).start@ == old(r).start@,
            final(r).target@ == old(r).target@,
            match res {
                Ok(m) => final(r).done() && m@ == Record { tag: 13, values: final(r).read@ },
                Err(_) => old(r).fails(),
            },
    {
        let username = r.text()?;
        let msg = r.text()?;
        let color = r.text()?;
        let m = ToClientMsg::ChatMessage { username, msg, color };
        proof {
            r.lemma_done();
            assert(r.read@ =~= m@.values);
        }
        Ok(m)
    }

}


// ---------------------------------------------------------------- laws

impl ToServerMsg {
    proof fn lemma_schema(&self)
        ensures
            to_server_schema(self@.tag) == Some(types_of(self@.values)),
    {
        assert(types_of(self@.values) =~= to_server_schema(self@.tag).unwrap());
    }
}

impl ToClientMsg {
    proof fn lemma_schema(&self)
        ensures
            to_client_schema(self@.tag) == Some(types_of(self@.values)),
    {
        assert(types_of(self@.values) =~= to_client_schema(self@.tag).unwrap());
    }
}

/// A client message whose strings are ASCII and at most 255 bytes is read
/// back unchanged from its encoding, whatever bytes follow it, and the
/// read takes exactly the encoding's bytes.
pub proof fn to_server_roundtrip(m: &ToServerMsg, rest: Seq<u8>)
    requires
        m.wf(),
    ensures
        decode_record(|t: u8| to_server_schema(t), encode_record(m@) + rest) == Some(
            (m@, encode_record(m@).len() as int),
        ),
{
    m.lemma_schema();
    lemma_record_roundtrip(|t: u8| to_server_schema(t), m@, rest);
}

/// A server message whose strings are ASCII and at most 255 bytes is read
/// back unchanged from its encoding, whatever bytes follow it, and the
/// read takes exactly the encoding's bytes.
pub proof fn to_client_roundtrip(m: &ToClientMsg, rest: Seq<u8>)
    requires
        m.wf(),
    ensures
        decode_record(|t: u8| to_client_schema(t), encode_record(m@) + rest) == Some(
            (m@, encode_record(m@).len() as int),
        ),
{
    m.lemma_schema();
    lemma_record_roundtrip(|t: u8| to_client_schema(t), m@, rest);
}

/// A part kind is read back from its own encoding.
pub proof fn part_kind_roundtrip(k: PartKind, rest: Seq<u8>)
    ensures
        decode_value(Ty::Kind, encode_value(Value::Kind(k.number())) + rest) == Some(
            (Value::Kind(k.number()), 1int),
        ),
        forall|j: PartKind| #[trigger] j.number() == k.number() ==> j == k,
{
}

/// A string longer than 255 bytes is sent, and read back, as the empty string.
pub proof fn long_text_reads_empty(s: Seq<char>, rest: Seq<u8>)
    requires
        utf8_len(s) > 255,
    ensures
        decode_value(Ty::Text, text_bytes(s) + rest) == Some((Value::Text(Seq::<char>::empty()), 1int)),
{
    let b = text_bytes(s) + rest;
    assert(latin1(b.subrange(1, 1)) =~= Seq::<char>::empty());
}

} // verus!
