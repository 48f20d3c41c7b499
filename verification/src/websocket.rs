//! WebSocket framing (RFC 6455) as the server speaks it: the frames it
//! sends, the frame headers it reads from clients, and unmasking.
use vstd::prelude::*;
use vstd::arithmetic::div_mod::lemma_mod_breakdown;
use std::sync::Arc;
use std::collections::VecDeque;

verus! {

pub const OP_CONTINUE: u8 = 0;

pub const OP_TEXT: u8 = 1;

pub const OP_BINARY: u8 = 2;

pub const OP_CLOSE: u8 = 8;

pub const OP_PING: u8 = 9;

pub const OP_PONG: u8 = 10;

/// The largest payload one frame carries: 2^63 - 1 bytes.
pub open spec fn max_payload() -> int {
    0x7FFF_FFFF_FFFF_FFFF
}

pub open spec fn base256(n: nat) -> int
    decreases n,
{
    if n == 0 {
        1
    } else {
        256 * base256((n - 1) as nat)
    }
}

/// The low `n` bytes of `v`, most significant first.
pub open spec fn be_bytes(v: int, n: nat) -> Seq<u8>
    decreases n,
{
    if n == 0 {
        seq![]
    } else {
        be_bytes(v / 256, (n - 1) as nat).push((v % 256) as u8)
    }
}

/// The number that bytes stand for, most significant first.
pub open spec fn be_value(s: Seq<u8>) -> int
    decreases s.len(),
{
    if s.len() == 0 {
        0
    } else {
        be_value(s.drop_last()) * 256 + s.last()
    }
}

/// A payload length as a frame header writes it: one byte up to 125,
/// else 126 and two bytes, or 127 and eight bytes.
pub open spec fn length_field(size: int) -> Seq<u8> {
    if size >= 0x1_0000 {
        seq![127u8] + be_bytes(size, 8)
    } else if size > 125 {
        seq![126u8] + be_bytes(size, 2)
    } else {
        seq![size as u8]
    }
}

/// How many bytes follow the 7-bit length code to extend it.
pub open spec fn extended_length_bytes(code: u8) -> int {
    if code == 126 {
        2
    } else if code == 127 {
        8
    } else {
        0
    }
}

/// The payload length a length field stands for: the code itself, or the
/// bytes after it.
pub open spec fn length_of_field(f: Seq<u8>) -> int {
    if extended_length_bytes(f[0]) == 0 {
        f[0] as int
    } else {
        be_value(f.subrange(1, f.len() as int))
    }
}

/// The first byte of a frame: the final-frame bit unless more than the
/// largest payload remains, and the binary opcode for the first frame of a
/// message, the continuation opcode after it.
pub open spec fn first_header_byte(first: bool, remaining: int) -> u8 {
    ((if remaining > max_payload() {
        0int
    } else {
        128int
    }) + (if first {
        OP_BINARY as int
    } else {
        OP_CONTINUE as int
    })) as u8
}

/// A binary message cut into frames of at most `max_payload` bytes.
/// The empty message has no frame at all.
pub open spec fn frames(dat: Seq<u8>, first: bool) -> Seq<u8>
    decreases dat.len(),
{
    if dat.len() == 0 {
        seq![]
    } else {
        let size = if dat.len() > max_payload() {
            max_payload()
        } else {
            dat.len() as int
        };
        seq![first_header_byte(first, dat.len() as int)] + length_field(size) + dat.take(size)
            + frames(dat.skip(size), false)
    }
}

/// A message for the socket writer: the bytes of its frames, shared.
#[derive(Clone)]
pub struct OutboundWsMessage(pub Arc<Vec<u8>>);

fn push_be(out: &mut Vec<u8>, v: u64, n: usize)
    requires
        n <= 8,
    ensures
        final(out)@ == old(out)@ + be_bytes(v as int, n as nat),
    decreases n,
{
    if n > 0 {
        push_be(out, v / 256, n - 1);
        out.push((v % 256) as u8);
        proof {
            assert(out@ =~= old(out)@ + be_bytes(v as int, n as nat));
        }
    } else {
        proof {
            assert(out@ =~= old(out)@ + be_bytes(v as int, n as nat));
        }
    }
}

impl OutboundWsMessage {
    /// Frames a binary message.
    pub fn from(dat: &Vec<u8>) -> (r: OutboundWsMessage)
        ensures
            r.0@ == frames(dat@, true),
    {
        let mut out: Vec<u8> = Vec::new();
        let mut bytes_read: usize = 0;
        let mut is_first_frame = true;
        let max: u64 = 0x7FFF_FFFF_FFFF_FFFF;
        proof {
            assert(dat@.skip(0) =~= dat@);
        }
        while bytes_read < dat.len()
            invariant
                bytes_read <= dat@.len(),
                max == max_payload(),
                out@ + frames(dat@.skip(bytes_read as int), is_first_frame) == frames(dat@, true),
            decreases dat@.len() - bytes_read,
        {
            let ghost before = out@;
            let ghost rest = dat@.skip(bytes_read as int);
            let ghost was_first = is_first_frame;
            let remaining = dat.len() - bytes_read;
            let fin: u8 = if remaining as u64 > max {
                0b00000000
            } else {
                0b10000000
            };
            let op: u8 = if is_first_frame {
                OP_BINARY
            } else {
                OP_CONTINUE
            };
            assert((fin == 0 || fin == 128) && (op == 0 || op == 2) ==> fin | op == fin + op)
                by (bit_vector);
            out.push(fin | op);
            let payload_size: usize = if remaining as u64 > max {
                max as usize
            } else {
                remaining
            };
            let ghost after_first = out@;
            if payload_size >= 0x1_0000 {
                out.push(127);
                push_be(&mut out, payload_size as u64, 8);
            } else if payload_size > 125 {
                out.push(126);
                push_be(&mut out, payload_size as u64, 2);
            } else {
                out.push(payload_size as u8);
            }
            proof {
                assert(out@ =~= after_first + length_field(payload_size as int));
            }
            let ghost after_header = out@;
            let mut k: usize = bytes_read;
            let end: usize = bytes_read + payload_size;
            while k < end
                invariant
                    end == bytes_read + payload_size,
                    bytes_read <= k <= end <= dat@.len(),
                    out@ == after_header + dat@.subrange(bytes_read as int, k as int),
                decreases end - k,
            {
                out.push(dat[k]);
                proof {
                    assert(dat@.subrange(bytes_read as int, k + 1) =~= dat@.subrange(
                        bytes_read as int,
                        k as int,
                    ).push(dat@[k as int]));
                }
                k = k + 1;
            }
            proof {
                assert(rest.take(payload_size as int) =~= dat@.subrange(
                    bytes_read as int,
                    bytes_read + payload_size,
                ));
                assert(rest.skip(payload_size as int) =~= dat@.skip(bytes_read + payload_size));
                assert(out@ =~= before + (seq![first_header_byte(is_first_frame, rest.len() as int)]
                    + length_field(payload_size as int) + rest.take(payload_size as int)));
            }
            bytes_read = bytes_read + payload_size;
            is_first_frame = false;
            proof {
                assert(out@ + frames(dat@.skip(bytes_read as int), is_first_frame) =~= before
                    + frames(rest, was_first));
            }
        }
        proof {
            assert(dat@.skip(bytes_read as int) =~= Seq::<u8>::empty());
        }
        OutboundWsMessage(Arc::new(out))
    }
}

/// A single-frame message that only says "pong".
pub fn pong_message() -> (r: OutboundWsMessage)
    ensures
        r.0@ == seq![0b10001010u8, 0b00000000u8],
{
    let mut v: Vec<u8> = Vec::new();
    v.push(0b10001010);
    v.push(0b00000000);
    proof {
        assert(v@ =~= seq![0b10001010u8, 0b00000000u8]);
    }
    OutboundWsMessage(Arc::new(v))
}

/// A single-frame message that closes the connection.
pub fn close_message() -> (r: OutboundWsMessage)
    ensures
        r.0@ == seq![0b10001000u8, 0b00000000u8],
{
    let mut v: Vec<u8> = Vec::new();
    v.push(0b10001000);
    v.push(0b00000000);
    proof {
        assert(v@ =~= seq![0b10001000u8, 0b00000000u8]);
    }
    OutboundWsMessage(Arc::new(v))
}

pub fn assert_or_error(dat: bool) -> (r: Result<(), ()>)
    ensures
        r is Ok <==> dat,
{
    if dat {
        Ok(())
    } else {
        Err(())
    }
}

// ---------------------------------------------------------------- reading frame headers

/// What a client's frame header announces.
#[derive(Copy, Clone, PartialEq, Eq, Structural, Debug)]
pub enum WsEvent {
    /// A binary message: the length of its payload and the key its payload
    /// is masked with.  The payload follows the header.
    Message { payload_len: u64, mask_0: u8, mask_1: u8, mask_2: u8, mask_3: u8 },
    Ping,
    Pong,
}

/// Why a frame header could not be read.
#[derive(Copy, Clone, PartialEq, Eq, Structural, Debug)]
pub enum WsReadError {
    /// The bytes end before the header does; it may still be completed.
    Incomplete,
    /// The header is refused: a fragmented or unmasked frame, or an opcode
    /// other than binary, ping and pong.
    Invalid,
}

/// Reads a client frame header from the front of `s`: what it announces
/// and its length, `Err(Invalid)` for a refused header, and
/// `Err(Incomplete)` while the bytes end too early to tell.
pub open spec fn ws_header(s: Seq<u8>) -> Result<(WsEvent, int), WsReadError> {
    if s.len() < 1 {
        Err(WsReadError::Incomplete)
    } else if s[0] < 128 {
        Err(WsReadError::Invalid)
    } else if s.len() < 2 {
        Err(WsReadError::Incomplete)
    } else if s[1] < 128 {
        Err(WsReadError::Invalid)
    } else {
        let code = (s[1] % 128) as u8;
        let ext = extended_length_bytes(code);
        if s.len() < 6 + ext {
            Err(WsReadError::Incomplete)
        } else {
            let len = length_of_field(seq![code] + s.subrange(2, 2 + ext));
            let op = s[0] % 16;
            if op == OP_BINARY {
                Ok(
                    (
                        WsEvent::Message {
                            payload_len: len as u64,
                            mask_0: s[2 + ext],
                            mask_1: s[3 + ext],
                            mask_2: s[4 + ext],
                            mask_3: s[5 + ext],
                        },
                        6 + ext,
                    ),
                )
            } else if op == OP_PING {
                Ok((WsEvent::Ping, 6 + ext))
            } else if op == OP_PONG {
                Ok((WsEvent::Pong, 6 + ext))
            } else {
                Err(WsReadError::Invalid)
            }
        }
    }
}

fn read_be(buf: &[u8], from: usize, n: usize) -> (r: u64)
    requires
        n <= 8,
        from + n <= buf@.len(),
    ensures
        r == be_value(buf@.subrange(from as int, from + n)),
    decreases n,
{
    if n == 0 {
        proof {
            assert(buf@.subrange(from as int, from as int) =~= Seq::<u8>::empty());
        }
        0
    } else {
        let high = read_be(buf, from, n - 1);
        proof {
            lemma_be_value_bound(buf@.subrange(from as int, from + n - 1));
            assert(buf@.subrange(from as int, from + n).drop_last() =~= buf@.subrange(
                from as int,
                from + n - 1,
            ));
            assert(base256((n - 1) as nat) <= base256(7)) by {
                lemma_base256_monotonic((n - 1) as nat, 7);
            }
            assert(base256(7) == 0x100_0000_0000_0000) by {
                reveal_with_fuel(base256, 8);
            }
        }
        let len = buf.len();
        high * 256 + buf[from + n - 1] as u64
    }
}

/// Reads the header of a frame a client sent, starting at `*index`; on
/// success `*index` moves past the header (to the payload, if any).  A ping
/// or pong payload is not skipped.
pub fn read_ws_message(buf: &[u8], index: &mut usize) -> (r: Result<WsEvent, WsReadError>)
    requires
        *old(index) <= buf@.len(),
    ensures
        match ws_header(buf@.skip(*old(index) as int)) {
            Ok((ev, n)) => r == Ok::<WsEvent, WsReadError>(ev) && *final(index) == *old(index) + n,
            Err(e) => r == Err::<WsEvent, WsReadError>(e) && *final(index) == *old(index),
        },
{
    let i = *index;
    let ghost s = buf@.skip(i as int);
    let avail = buf.len() - i;
    if avail < 1 {
        return Err(WsReadError::Incomplete);
    }
    let first_byte = buf[i];
    let is_final_frame = first_byte & 0b10000000 > 0;
    assert(first_byte & 128 > 0 <==> first_byte >= 128) by (bit_vector);
    if !is_final_frame {
        return Err(WsReadError::Invalid);
    }
    let op_code = first_byte & 0b00001111;
    assert(first_byte & 15 == first_byte % 16) by (bit_vector);
    if avail < 2 {
        return Err(WsReadError::Incomplete);
    }
    let second_byte = buf[i + 1];
    let is_masked = second_byte & 0b10000000 > 0;
    assert(second_byte & 128 > 0 <==> second_byte >= 128) by (bit_vector);
    if !is_masked {
        return Err(WsReadError::Invalid);
    }
    let code = second_byte & 0b01111111;
    assert(second_byte & 127 == second_byte % 128) by (bit_vector);
    let ext: usize = if code == 126 {
        2
    } else if code == 127 {
        8
    } else {
        0
    };
    if avail < 6 + ext {
        return Err(WsReadError::Incomplete);
    }
    let payload_len: u64 = if ext == 0 {
        code as u64
    } else {
        read_be(buf, i + 2, ext)
    };
    proof {
        let f = seq![code] + s.subrange(2, 2 + ext);
        assert(s.subrange(2, 2 + ext) =~= buf@.subrange(i + 2, i + 2 + ext));
        assert(f.subrange(1, f.len() as int) =~= s.subrange(2, 2 + ext));
    }
    let mask_0 = buf[i + 2 + ext];
    let mask_1 = buf[i + 3 + ext];
    let mask_2 = buf[i + 4 + ext];
    let mask_3 = buf[i + 5 + ext];
    let event = if op_code == OP_BINARY {
        WsEvent::Message { payload_len, mask_0, mask_1, mask_2, mask_3 }
    } else if op_code == OP_PING {
        WsEvent::Ping
    } else if op_code == OP_PONG {
        WsEvent::Pong
    } else {
        return Err(WsReadError::Invalid);
    };
    *index = i + 6 + ext;
    Ok(event)
}

// ---------------------------------------------------------------- unmasking

/// The payload byte at position `i` unmasked: XOR with key byte `i % 4`.
pub open spec fn unmask_byte(b: u8, mask: Seq<u8>, i: int) -> u8 {
    b ^ mask[i % 4]
}

/// Unmasks the bytes of a payload as they are read.
pub struct WsByteMaskMap {
    pub mask: [u8; 4],
    pub i: usize,
}

impl WsByteMaskMap {
    pub fn new(mask: [u8; 4]) -> (r: WsByteMaskMap)
        ensures
            r.mask == mask,
            r.i == 0,
    {
        WsByteMaskMap { mask, i: 0 }
    }

    /// Unmasks the next payload byte.
    pub fn poll_next(&mut self, byte: u8) -> (r: u8)
        requires
            old(self).i < usize::MAX,
        ensures
            r == unmask_byte(byte, old(self).mask@, old(self).i as int),
            final(self).i == old(self).i + 1,
            final(self).mask == old(self).mask,
    {
        let r = byte ^ self.mask[self.i % 4];
        self.i = self.i + 1;
        r
    }
}

/// Unmasks a whole payload.
pub fn unmask(payload: &[u8], mask: [u8; 4]) -> (r: Vec<u8>)
    ensures
        r@.len() == payload@.len(),
        forall|i: int| 0 <= i < payload@.len() ==> #[trigger] r@[i] == unmask_byte(payload@[i], mask@, i),
{
    let mut map = WsByteMaskMap::new(mask);
    let mut out: Vec<u8> = Vec::new();
    let mut k: usize = 0;
    while k < payload.len()
        invariant
            k <= payload@.len(),
            map.i == k,
            map.mask == mask,
            out@.len() == k,
            forall|i: int| 0 <= i < k ==> #[trigger] out@[i] == unmask_byte(payload@[i], mask@, i),
        decreases payload@.len() - k,
    {
        let b = map.poll_next(payload[k]);
        out.push(b);
        k = k + 1;
    }
    out
}

// ---------------------------------------------------------------- laws

pub proof fn lemma_base256_monotonic(a: nat, b: nat)
    requires
        a <= b,
    ensures
        0 < base256(a) <= base256(b),
    decreases b,
{
    if a < b {
        lemma_base256_monotonic(a, (b - 1) as nat);
    } else if a > 0 {
        lemma_base256_monotonic((a - 1) as nat, (a - 1) as nat);
    }
}

pub proof fn lemma_be_value_bound(s: Seq<u8>)
    ensures
        0 <= be_value(s) < base256(s.len()),
    decreases s.len(),
{
    if s.len() > 0 {
        lemma_be_value_bound(s.drop_last());
        assert(be_value(s.drop_last()) * 256 + s.last() < base256(s.len())) by (nonlinear_arith)
            requires
                be_value(s.drop_last()) < base256((s.len() - 1) as nat),
                base256(s.len()) == 256 * base256((s.len() - 1) as nat),
                s.last() < 256,
        ;
    }
}

/// The bytes of a number read back give the number, modulo the width.
pub proof fn lemma_be_roundtrip(v: int, n: nat)
    requires
        0 <= v,
    ensures
        be_bytes(v, n).len() == n,
        be_value(be_bytes(v, n)) == v % base256(n),
    decreases n,
{
    if n > 0 {
        lemma_be_roundtrip(v / 256, (n - 1) as nat);
        lemma_base256_monotonic((n - 1) as nat, (n - 1) as nat);
        assert(be_bytes(v, n).drop_last() =~= be_bytes(v / 256, (n - 1) as nat));
        lemma_mod_breakdown(v, 256, base256((n - 1) as nat));
    }
}

/// The payload length a frame's length field encodes is read back by the
/// same rules the server reads client frames with.
pub proof fn length_field_roundtrip(size: int)
    requires
        0 <= size <= max_payload(),
    ensures
        length_of_field(length_field(size)) == size,
        length_field(size).len() == 1 + extended_length_bytes(length_field(size)[0]),
{
    if size >= 0x1_0000 {
        lemma_be_roundtrip(size, 8);
        assert(base256(8) == 0x1_0000_0000_0000_0000) by {
            reveal_with_fuel(base256, 9);
        }
        assert(length_field(size).subrange(1, 9) =~= be_bytes(size, 8));
    } else if size > 125 {
        lemma_be_roundtrip(size, 2);
        assert(base256(2) == 0x1_0000) by {
            reveal_with_fuel(base256, 3);
        }
        assert(length_field(size).subrange(1, 3) =~= be_bytes(size, 2));
    }
}

/// Unmasking twice with the same key gives back the payload.
pub proof fn unmask_twice(b: u8, mask: Seq<u8>, i: int)
    requires
        mask.len() == 4,
    ensures
        unmask_byte(unmask_byte(b, mask, i), mask, i) == b,
{
    let m = mask[i % 4];
    assert((b ^ m) ^ m == b) by (bit_vector);
}

// ---------------------------------------------------------------- the writer's queue

/// What a connection's writer still has to put on the socket: whole
/// messages in the order they were queued, the first of them already
/// written up to an offset.
pub struct OutputQueue {
    output: VecDeque<Arc<Vec<u8>>>,
    output_index: Option<usize>,
}

impl OutputQueue {
    /// The queued messages, first to be written first.
    pub closed spec fn messages(&self) -> Seq<Seq<u8>> {
        self.output@.map_values(|m: Arc<Vec<u8>>| m@)
    }

    /// How much of the first message was written already.
    pub closed spec fn offset(&self) -> nat {
        match self.output_index {
            Some(i) => i as nat,
            None => 0,
        }
    }

    /// The offset lies within the first message, and is zero when nothing
    /// is queued.
    pub open spec fn wf(&self) -> bool {
        &&& self.messages().len() == 0 ==> self.offset() == 0
        &&& self.messages().len() > 0 ==> self.offset() <= self.messages()[0].len()
    }
}

impl View for OutputQueue {
    type V = Seq<u8>;

    /// The bytes still to be written, in the order they go out.
    open spec fn view(&self) -> Seq<u8> {
        if self.messages().len() == 0 {
            Seq::empty()
        } else {
            self.messages()[0].skip(self.offset() as int) + self.messages().drop_first().flatten()
        }
    }
}

impl OutputQueue {
    /// A queue with nothing to write.
    pub fn new() -> (r: OutputQueue)
        ensures
            r.wf(),
            r.messages() == Seq::<Seq<u8>>::empty(),
            r@ == Seq::<u8>::empty(),
    {
        let r = OutputQueue { output: VecDeque::new(), output_index: None };
        proof {
            assert(r.messages() =~= Seq::<Seq<u8>>::empty());
        }
        r
    }

    /// Queues a message behind the others.
    pub fn queue_send(&mut self, dat: Arc<Vec<u8>>)
        requires
            old(self).wf(),
        ensures
            final(self).wf(),
            final(self).messages() == old(self).messages().push(dat@),
            final(self).offset() == old(self).offset(),
            final(self)@ == old(self)@ + dat@,
    {
        let ghost m = dat@;
        self.output.push_back(dat);
        proof {
            let old_ms = old(self).messages();
            assert(self.messages() =~= old_ms.push(m));
            if old_ms.len() == 0 {
                assert(self.messages().drop_first() =~= Seq::<Seq<u8>>::empty());
                assert(m.skip(0) =~= m);
                assert(self@ =~= old(self)@ + m);
            } else {
                assert(self.messages().drop_first() =~= old_ms.drop_first().push(m));
                old_ms.drop_first().lemma_flatten_push(m);
                assert(self@ =~= old(self)@ + m);
            }
        }
    }

    /// Whether everything queued has been written.
    pub fn is_empty(&self) -> (r: bool)
        ensures
            r == (self.messages().len() == 0),
    {
        self.output.len() == 0
    }

    /// The message to write next and how much of it was written already,
    /// or nothing when the queue is empty.
    pub fn next_write(&self) -> (r: Option<(Arc<Vec<u8>>, usize)>)
        ensures
            match r {
                None => self.messages().len() == 0,
                Some((m, i)) => self.messages().len() > 0 && m@ == self.messages()[0] && i == self.offset(),
            },
    {
        if self.output.len() == 0 {
            None
        } else {
            let i = match self.output_index {
                Some(i) => i,
                None => 0,
            };
            let first = self.output[0].clone();
            Some((first, i))
        }
    }

    /// The socket took `n` more bytes of the first message.  A message
    /// written to its end leaves the queue, and the next one starts from
    /// its beginning; so what is left to write is what was left, less the
    /// bytes written (no more than the first message had left).
    pub fn wrote(&mut self, n: usize)
        requires
            old(self).wf(),
            old(self).messages().len() > 0,
            old(self).offset() + n <= usize::MAX,
        ensures
            final(self).wf(),
            ({
                let rem = old(self).messages()[0].len() - old(self).offset();
                if n >= rem {
                    &&& final(self).messages() == old(self).messages().drop_first()
                    &&& final(self).offset() == 0
                    &&& final(self)@ == old(self)@.skip(rem)
                } else {
                    &&& final(self).messages() == old(self).messages()
                    &&& final(self).offset() == old(self).offset() + n
                    &&& final(self)@ == old(self)@.skip(n as int)
                }
            }),
    {
        let ghost old_ms = self.messages();
        let ghost off = self.offset();
        let mut output_index = match self.output_index {
            Some(i) => i,
            None => 0,
        };
        output_index = output_index + n;
        let len = self.output[0].len();
        proof {
            assert(old_ms[0] == self.output@[0]@);
        }
        if output_index >= len {
            self.output.pop_front();
            if self.output.len() > 0 {
                self.output_index = Some(0);
            } else {
                self.output_index = None;
            }
            proof {
                let rest = old_ms.drop_first();
                assert(self.messages() =~= rest);
                let rem = old_ms[0].len() - off;
                assert((old_ms[0].skip(off as int) + rest.flatten()).skip(rem) =~= rest.flatten());
                if rest.len() > 0 {
                    assert(rest[0].skip(0) =~= rest[0]);
                    assert(rest.flatten() =~= rest[0] + rest.drop_first().flatten());
                } else {
                    assert(rest.flatten() =~= Seq::<u8>::empty());
                }
            }
        } else {
            self.output_index = Some(output_index);
            proof {
                assert(self.messages() =~= old_ms);
                assert((old_ms[0].skip(off as int) + old_ms.drop_first().flatten()).skip(n as int)
                    =~= old_ms[0].skip(off + n) + old_ms.drop_first().flatten());
            }
        }
    }
}

} // verus!
