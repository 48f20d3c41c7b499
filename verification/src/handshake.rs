//! The opening handshake of a WebSocket connection, read one byte at a
//! time as it arrives: the request line, the headers the server cares
//! about, the decision, and the server's answer.
use vstd::prelude::*;
use vstd::utf8::*;
use crate::codec::push_char;
use sha::utils::{Digest, DigestExt};

verus! {

// ---------------------------------------------------------------- outside functions

/// What `base64::decode` (base64 0.13, standard alphabet with padding)
/// returns for the given bytes: the decoded bytes, or `None` for input it
/// rejects.
pub uninterp spec fn spec_base64_decode(input: Seq<u8>) -> Option<Seq<u8>>;

/// What `base64::encode` (base64 0.13, standard alphabet with padding)
/// returns for the given bytes, as bytes.
pub uninterp spec fn spec_base64_encode(input: Seq<u8>) -> Seq<u8>;

/// The SHA-1 digest of the given bytes as the `sha` crate computes it.
pub uninterp spec fn spec_sha1(input: Seq<u8>) -> Seq<u8>;

/// Calls `base64::decode`; the contract claims only that the result is
/// the crate's decoding of exactly these bytes, an error becoming `None`.
#[verifier::external_body]
fn base64_decode(input: &[u8]) -> (r: Option<Vec<u8>>)
    ensures
        match r {
            Some(v) => spec_base64_decode(input@) == Some(v@),
            None => spec_base64_decode(input@) is None,
        },
{
    base64::decode(input).ok()
}

/// Calls `base64::encode`; the contract claims only that the result is
/// the crate's encoding of exactly these bytes (the bytes of the `String`).
#[verifier::external_body]
fn base64_encode(input: &[u8]) -> (r: Vec<u8>)
    ensures
        r@ == spec_base64_encode(input@),
{
    base64::encode(input).into_bytes()
}

/// Computes a SHA-1 digest with `sha::sha1::Sha1` (`digest` then
/// `to_bytes`); the contract claims only that the result is the crate's
/// digest of exactly these bytes.
#[verifier::external_body]
fn sha1_digest(input: &[u8]) -> (r: Vec<u8>)
    ensures
        r@ == spec_sha1(input@),
{
    sha::sha1::Sha1::default().digest(input).to_bytes()
}

// ---------------------------------------------------------------- characters

/// Lowercase of a character given by its Latin-1 byte: `A`-`Z` and the
/// Latin-1 capitals (except the multiplication sign) move up by 32.
pub open spec fn lower(b: u8) -> u8 {
    if (65 <= b <= 90) || (0xC0 <= b <= 0xDE && b != 0xD7) {
        (b + 32) as u8
    } else {
        b
    }
}

/// Unicode `White_Space`, the characters `str::trim` removes.
pub open spec fn is_whitespace(c: char) -> bool {
    let v = c as u32;
    (9 <= v <= 13) || v == 32 || v == 0x85 || v == 0xA0 || v == 0x1680 || (0x2000 <= v <= 0x200A)
        || v == 0x2028 || v == 0x2029 || v == 0x202F || v == 0x205F || v == 0x3000
}

pub open spec fn trim_start(s: Seq<char>) -> Seq<char>
    decreases s.len(),
{
    if s.len() > 0 && is_whitespace(s[0]) {
        trim_start(s.drop_first())
    } else {
        s
    }
}

pub open spec fn trim_end(s: Seq<char>) -> Seq<char>
    decreases s.len(),
{
    if s.len() > 0 && is_whitespace(s.last()) {
        trim_end(s.drop_last())
    } else {
        s
    }
}

/// `s` without leading and trailing whitespace.
pub open spec fn trim(s: Seq<char>) -> Seq<char> {
    trim_end(trim_start(s))
}

/// `tok` is one of the pieces of `t` split at ", ".
pub open spec fn has_token(t: Seq<char>, tok: Seq<char>) -> bool {
    exists|p: int|
        0 <= p && p + tok.len() <= t.len() && #[trigger] t.subrange(p, p + tok.len()) == tok && (p
            == 0 || (p >= 2 && t.subrange(p - 2, p) == seq![',', ' '])) && (p + tok.len() == t.len()
            || (p + tok.len() + 2 <= t.len() && t.subrange(p + tok.len(), p + tok.len() + 2)
            == seq![',', ' ']))
}

pub open spec fn is_prefix(a: Seq<u8>, b: Seq<u8>) -> bool {
    a.len() <= b.len() && b.subrange(0, a.len() as int) == a
}

pub(crate) fn is_whitespace_exec(c: char) -> (r: bool)
    ensures
        r == is_whitespace(c),
{
    let v = c as u32;
    (9 <= v && v <= 13) || v == 32 || v == 0x85 || v == 0xA0 || v == 0x1680 || (0x2000 <= v && v
        <= 0x200A) || v == 0x2028 || v == 0x2029 || v == 0x202F || v == 0x205F || v == 0x3000
}

fn lower_exec(b: u8) -> (r: u8)
    ensures
        r == lower(b),
{
    if (65 <= b && b <= 90) || (0xC0 <= b && b <= 0xDE && b != 0xD7) {
        b + 32
    } else {
        b
    }
}

proof fn lemma_trim_start_skip(s: Seq<char>, i: int)
    requires
        0 <= i <= s.len(),
        forall|j: int| 0 <= j < i ==> is_whitespace(#[trigger] s[j]),
    ensures
        trim_start(s) == trim_start(s.subrange(i, s.len() as int)),
    decreases i,
{
    if i > 0 {
        assert(s.drop_first().subrange(i - 1, s.len() - 1) =~= s.subrange(i, s.len() as int));
        assert forall|j: int| 0 <= j < i - 1 implies is_whitespace(#[trigger] s.drop_first()[j]) by {
            assert(s.drop_first()[j] == s[j + 1]);
        }
        lemma_trim_start_skip(s.drop_first(), i - 1);
    } else {
        assert(s.subrange(0, s.len() as int) =~= s);
    }
}

proof fn lemma_trim_end_skip(s: Seq<char>, i: int)
    requires
        0 <= i <= s.len(),
        forall|j: int| i <= j < s.len() ==> is_whitespace(#[trigger] s[j]),
    ensures
        trim_end(s) == trim_end(s.subrange(0, i)),
    decreases s.len() - i,
{
    if i < s.len() {
        assert(s.drop_last().subrange(0, i) =~= s.subrange(0, i));
        assert forall|j: int| i <= j < s.len() - 1 implies is_whitespace(#[trigger] s.drop_last()[j]) by {
            assert(s.drop_last()[j] == s[j]);
        }
        lemma_trim_end_skip(s.drop_last(), i);
    } else {
        assert(s.subrange(0, i) =~= s);
    }
}

/// The characters of `s` without leading and trailing whitespace.
pub(crate) fn trim_exec(s: &Vec<char>) -> (r: Vec<char>)
    ensures
        r@ == trim(s@),
{
    let n = s.len();
    let mut a: usize = 0;
    while a < n && is_whitespace_exec(s[a])
        invariant
            a <= n == s@.len(),
            forall|j: int| 0 <= j < a ==> is_whitespace(#[trigger] s@[j]),
        decreases n - a,
    {
        a = a + 1;
    }
    let mut b: usize = n;
    while b > a && is_whitespace_exec(s[b - 1])
        invariant
            a <= b <= n == s@.len(),
            forall|j: int| b <= j < n ==> is_whitespace(#[trigger] s@[j]),
        decreases b,
    {
        b = b - 1;
    }
    let mut r: Vec<char> = Vec::new();
    let mut k = a;
    while k < b
        invariant
            a <= k <= b <= n == s@.len(),
            r@ == s@.subrange(a as int, k as int),
        decreases b - k,
    {
        r.push(s[k]);
        proof {
            assert(s@.subrange(a as int, k + 1) =~= s@.subrange(a as int, k as int).push(s@[k as int]));
        }
        k = k + 1;
    }
    proof {
        lemma_trim_start_skip(s@, a as int);
        let rest = s@.subrange(a as int, n as int);
        assert(trim_start(rest) == rest);
        assert forall|j: int| b - a <= j < rest.len() implies is_whitespace(#[trigger] rest[j]) by {
            assert(rest[j] == s@[a + j]);
        }
        lemma_trim_end_skip(rest, b - a);
        let core = rest.subrange(0, b - a);
        assert(core =~= s@.subrange(a as int, b as int));
        if core.len() > 0 {
            assert(core.last() == s@[b - 1]);
        }
        assert(trim_end(core) == core);
    }
    r
}

/// Whether `t[p..]` starts with `pat`.
fn matches_at(t: &Vec<char>, p: usize, pat: &Vec<char>) -> (r: bool)
    requires
        p <= t@.len(),
    ensures
        r == (p + pat@.len() <= t@.len() && t@.subrange(p as int, p + pat@.len()) == pat@),
{
    let tl = t.len();
    if pat.len() > tl - p {
        return false;
    }
    let mut k: usize = 0;
    while k < pat.len()
        invariant
            tl == t@.len(),
            k <= pat@.len(),
            p <= t@.len(),
            p + pat@.len() <= t@.len(),
            forall|j: int| 0 <= j < k ==> t@[p + j] == pat@[j],
        decreases pat@.len() - k,
    {
        if t[p + k] != pat[k] {
            proof {
                assert(t@.subrange(p as int, p + pat@.len())[k as int] != pat@[k as int]);
            }
            return false;
        }
        k = k + 1;
    }
    proof {
        assert(t@.subrange(p as int, p + pat@.len()) =~= pat@);
    }
    true
}

/// Whether one of the pieces of `t` split at ", " is `tok`.
fn has_token_exec(t: &Vec<char>, tok: &Vec<char>) -> (r: bool)
    ensures
        r == has_token(t@, tok@),
{
    let sep = vec![',', ' '];
    proof {
        assert(sep@ =~= seq![',', ' ']);
    }
    let n = t.len();
    if tok.len() > n {
        return false;
    }
    let last = n - tok.len();
    let mut p: usize = 0;
    let mut done = false;
    while !done
        invariant
            last == n - tok@.len(),
            n == t@.len(),
            sep@ == seq![',', ' '],
            p <= last,
            done ==> p == last,
            forall|q: int| 0 <= q < p + (if done { 1int } else { 0int }) ==> !(0 <= q && q + tok@.len() <= t@.len() && #[trigger] t@.subrange(q, q + tok@.len()) == tok@ && (q
                == 0 || (q >= 2 && t@.subrange(q - 2, q) == seq![',', ' '])) && (q + tok@.len() == t@.len()
                || (q + tok@.len() + 2 <= t@.len() && t@.subrange(q + tok@.len(), q + tok@.len() + 2)
                == seq![',', ' ']))),
        decreases last - p + (if done { 0int } else { 1int }),
    {
        if matches_at(t, p, tok) {
            let before_ok = p == 0 || (p >= 2 && matches_at(t, p - 2, &sep));
            let end = p + tok.len();
            let after_ok = end == n || (n - end >= 2 && matches_at(t, end, &sep));
            if before_ok && after_ok {
                return true;
            }
        }
        if p == last {
            done = true;
        } else {
            p = p + 1;
        }
    }
    proof {
        assert forall|q: int| !(0 <= q && q + tok@.len() <= t@.len() && #[trigger] t@.subrange(q, q + tok@.len()) == tok@ && (q
                == 0 || (q >= 2 && t@.subrange(q - 2, q) == seq![',', ' '])) && (q + tok@.len() == t@.len()
                || (q + tok@.len() + 2 <= t@.len() && t@.subrange(q + tok@.len(), q + tok@.len() + 2)
                == seq![',', ' ']))) by {
            if 0 <= q && q + tok@.len() <= t@.len() {
                assert(q <= last);
            }
        }
    }
    false
}

fn bytes_equal(a: &Vec<u8>, b: &Vec<u8>) -> (r: bool)
    ensures
        r == (a@ == b@),
{
    if a.len() == b.len() && bytes_prefix(a, b) {
        proof {
            assert(b@.subrange(0, a@.len() as int) =~= b@);
        }
        true
    } else {
        proof {
            if a@.len() == b@.len() {
                assert(b@.subrange(0, b@.len() as int) =~= b@);
            }
        }
        false
    }
}

fn bytes_prefix(a: &Vec<u8>, b: &Vec<u8>) -> (r: bool)
    ensures
        r == is_prefix(a@, b@),
{
    if a.len() > b.len() {
        return false;
    }
    let mut k: usize = 0;
    while k < a.len()
        invariant
            k <= a@.len() <= b@.len(),
            forall|j: int| 0 <= j < k ==> b@[j] == a@[j],
        decreases a@.len() - k,
    {
        if a[k] != b[k] {
            proof {
                assert(b@.subrange(0, a@.len() as int)[k as int] != a@[k as int]);
            }
            return false;
        }
        k = k + 1;
    }
    proof {
        assert(b@.subrange(0, a@.len() as int) =~= a@);
    }
    true
}

// ---------------------------------------------------------------- the request, byte by byte

pub open spec fn status_line_start() -> Seq<u8> {
    seq![71u8, 69u8, 84u8, 32u8]
}

pub open spec fn headers_end() -> Seq<u8> {
    seq![13u8, 10u8]
}

pub open spec fn connection_header() -> Seq<u8> {
    seq![99u8, 111u8, 110u8, 110u8, 101u8, 99u8, 116u8, 105u8, 111u8, 110u8, 58u8, 32u8]
}

pub open spec fn upgrade_header() -> Seq<u8> {
    seq![117u8, 112u8, 103u8, 114u8, 97u8, 100u8, 101u8, 58u8, 32u8]
}

pub open spec fn version_header() -> Seq<u8> {
    seq![115u8, 101u8, 99u8, 45u8, 119u8, 101u8, 98u8, 115u8, 111u8, 99u8, 107u8, 101u8, 116u8, 45u8, 118u8, 101u8, 114u8, 115u8, 105u8, 111u8, 110u8, 58u8, 32u8]
}

pub open spec fn key_header() -> Seq<u8> {
    seq![115u8, 101u8, 99u8, 45u8, 119u8, 101u8, 98u8, 115u8, 111u8, 99u8, 107u8, 101u8, 116u8, 45u8, 107u8, 101u8, 121u8, 58u8, 32u8]
}

fn headers_end_exec() -> (r: Vec<u8>)
    ensures
        r@ == headers_end(),
{
    let r = vec![13u8, 10u8];
    proof {
        assert(r@ =~= headers_end());
    }
    r
}

fn connection_header_exec() -> (r: Vec<u8>)
    ensures
        r@ == connection_header(),
{
    let r = vec![99u8, 111u8, 110u8, 110u8, 101u8, 99u8, 116u8, 105u8, 111u8, 110u8, 58u8, 32u8];
    proof {
        assert(r@ =~= connection_header());
    }
    r
}

fn upgrade_header_exec() -> (r: Vec<u8>)
    ensures
        r@ == upgrade_header(),
{
    let r = vec![117u8, 112u8, 103u8, 114u8, 97u8, 100u8, 101u8, 58u8, 32u8];
    proof {
        assert(r@ =~= upgrade_header());
    }
    r
}

fn version_header_exec() -> (r: Vec<u8>)
    ensures
        r@ == version_header(),
{
    let r = vec![115u8, 101u8, 99u8, 45u8, 119u8, 101u8, 98u8, 115u8, 111u8, 99u8, 107u8, 101u8, 116u8, 45u8, 118u8, 101u8, 114u8, 115u8, 105u8, 111u8, 110u8, 58u8, 32u8];
    proof {
        assert(r@ =~= version_header());
    }
    r
}

fn key_header_exec() -> (r: Vec<u8>)
    ensures
        r@ == key_header(),
{
    let r = vec![115u8, 101u8, 99u8, 45u8, 119u8, 101u8, 98u8, 115u8, 111u8, 99u8, 107u8, 101u8, 116u8, 45u8, 107u8, 101u8, 121u8, 58u8, 32u8];
    proof {
        assert(r@ =~= key_header());
    }
    r
}

/// The headers the server reads.
#[derive(Copy, Clone, PartialEq, Eq, Structural, Debug)]
pub enum HeaderKind {
    Connection,
    Upgrade,
    Version,
    Key,
}

/// Where the reader is in the request.
#[derive(Copy, Clone, PartialEq, Eq, Structural, Debug)]
pub enum HsPhase {
    /// Matching "GET ": this many bytes of it matched so far.
    Status(u8),
    /// Skipping the rest of the request line.
    StatusRest,
    /// Reading a header name.
    Name,
    /// Reading the value of a header the server reads.
    Value(HeaderKind),
    /// Skipping a header the server does not read.
    SkipLine,
    /// The headers are over; the request can be judged.
    Done,
    /// The request is refused; the connection is dropped without answer.
    Refused,
}

/// What the reader has seen so far.
pub ghost struct HsModel {
    pub phase: HsPhase,
    pub name: Seq<u8>,
    pub value: Seq<char>,
    pub wants_upgrade: bool,
    pub wants_websocket: bool,
    pub wants_websocket_13: bool,
    pub key: Option<Seq<u8>>,
}

pub open spec fn initial_model() -> HsModel {
    HsModel {
        phase: HsPhase::Status(0),
        name: seq![],
        value: seq![],
        wants_upgrade: false,
        wants_websocket: false,
        wants_websocket_13: false,
        key: None,
    }
}

pub open spec fn known_prefix(n: Seq<u8>) -> bool {
    is_prefix(n, headers_end()) || is_prefix(n, connection_header()) || is_prefix(
        n,
        upgrade_header(),
    ) || is_prefix(n, version_header()) || is_prefix(n, key_header())
}

/// The character a value byte becomes: the key is kept as sent, other
/// values are lowercased.
pub open spec fn value_char(kind: HeaderKind, b: u8) -> char {
    if kind == HeaderKind::Key {
        b as char
    } else {
        lower(b) as char
    }
}

/// Judging a header's value at the end of its line.
pub open spec fn finish_value(m: HsModel, kind: HeaderKind) -> HsModel {
    let t = trim(m.value);
    let next = HsModel { phase: HsPhase::Name, name: seq![], ..m };
    match kind {
        HeaderKind::Connection => if m.wants_upgrade || has_token(
            t,
            seq!['u', 'p', 'g', 'r', 'a', 'd', 'e'],
        ) {
            HsModel { wants_upgrade: true, ..next }
        } else {
            HsModel { phase: HsPhase::Refused, ..m }
        },
        HeaderKind::Upgrade => if t == seq!['w', 'e', 'b', 's', 'o', 'c', 'k', 'e', 't'] {
            HsModel { wants_websocket: true, ..next }
        } else {
            HsModel { phase: HsPhase::Refused, ..m }
        },
        HeaderKind::Version => if t == seq!['1', '3'] {
            HsModel { wants_websocket_13: true, ..next }
        } else {
            HsModel { phase: HsPhase::Refused, ..m }
        },
        HeaderKind::Key => match spec_base64_decode(encode_utf8(t)) {
            Some(d) => if d.len() == 16 {
                HsModel { key: Some(d), ..next }
            } else {
                HsModel { phase: HsPhase::Done, ..m }
            },
            None => HsModel { phase: HsPhase::Done, ..m },
        },
    }
}

/// What one more byte of the request does.
///
/// The request line must start with "GET "; its rest is skipped.  Each
/// header name is lowercased as it is read; a name that is no beginning of
/// one the server reads makes the reader skip to the end of the line (a
/// name that ends its own line this way skips the next line too).  An
/// empty line ends the headers.  A value of 40 bytes or more is refused.
/// At the end of a value: "connection" must list the token "upgrade"
/// (here or in an earlier such header), "upgrade" must be "websocket" and
/// the version "13", all once trimmed, or the request is refused; a key
/// that is not the base64 of 16 bytes ends the headers.
pub open spec fn hs_step(m: HsModel, b: u8) -> HsModel {
    match m.phase {
        HsPhase::Status(k) => if b == status_line_start()[k as int] {
            HsModel {
                phase: if k + 1 == 4 {
                    HsPhase::StatusRest
                } else {
                    HsPhase::Status((k + 1) as u8)
                },
                ..m
            }
        } else {
            HsModel { phase: HsPhase::Refused, ..m }
        },
        HsPhase::StatusRest => if b == 10 {
            HsModel { phase: HsPhase::Name, name: seq![], ..m }
        } else {
            m
        },
        HsPhase::Name => {
            let n = m.name.push(lower(b));
            if n == headers_end() {
                HsModel { phase: HsPhase::Done, name: n, ..m }
            } else if n == connection_header() {
                HsModel { phase: HsPhase::Value(HeaderKind::Connection), name: n, value: seq![], ..m }
            } else if n == upgrade_header() {
                HsModel { phase: HsPhase::Value(HeaderKind::Upgrade), name: n, value: seq![], ..m }
            } else if n == version_header() {
                HsModel { phase: HsPhase::Value(HeaderKind::Version), name: n, value: seq![], ..m }
            } else if n == key_header() {
                HsModel { phase: HsPhase::Value(HeaderKind::Key), name: n, value: seq![], ..m }
            } else if known_prefix(n) {
                HsModel { name: n, ..m }
            } else {
                HsModel { phase: HsPhase::SkipLine, name: n, ..m }
            }
        },
        HsPhase::SkipLine => if b == 10 {
            HsModel { phase: HsPhase::Name, name: seq![], ..m }
        } else {
            m
        },
        HsPhase::Value(kind) => if b == 10 {
            finish_value(m, kind)
        } else if encode_utf8(m.value).len() >= 40 {
            HsModel { phase: HsPhase::Refused, ..m }
        } else {
            HsModel { value: m.value.push(value_char(kind, b)), ..m }
        },
        HsPhase::Done => m,
        HsPhase::Refused => m,
    }
}

/// Once the request is judged, further bytes change nothing.
pub proof fn finished_reader_ignores_bytes(m: HsModel, b: u8)
    requires
        m.phase == HsPhase::Done || m.phase == HsPhase::Refused,
    ensures
        hs_step(m, b) == m,
{
}

/// The reader after the given bytes.
pub open spec fn hs_run(bytes: Seq<u8>) -> HsModel
    decreases bytes.len(),
{
    if bytes.len() == 0 {
        initial_model()
    } else {
        hs_step(hs_run(bytes.drop_last()), bytes.last())
    }
}

/// The key of an accepted request: the headers are over, the client asked
/// to upgrade to WebSocket version 13 and sent a key.
pub open spec fn accepted_key(m: HsModel) -> Option<Seq<u8>> {
    if m.phase == HsPhase::Done && m.wants_upgrade && m.wants_websocket && m.wants_websocket_13 {
        m.key
    } else {
        None
    }
}

/// Reads the opening request of a WebSocket connection as its bytes arrive.
pub struct HandshakeReader {
    phase: HsPhase,
    name: Vec<u8>,
    value: Vec<char>,
    value_bytes: usize,
    wants_upgrade: bool,
    wants_websocket: bool,
    wants_websocket_13: bool,
    security_thing: Option<Vec<u8>>,
}

impl View for HandshakeReader {
    type V = HsModel;

    closed spec fn view(&self) -> HsModel {
        HsModel {
            phase: self.phase,
            name: self.name@,
            value: self.value@,
            wants_upgrade: self.wants_upgrade,
            wants_websocket: self.wants_websocket,
            wants_websocket_13: self.wants_websocket_13,
            key: match self.security_thing {
                Some(k) => Some(k@),
                None => None,
            },
        }
    }
}

/// The UTF-8 length of characters that each came from one byte.
proof fn lemma_utf8_len_push(s: Seq<char>, c: char)
    requires
        (c as u32) < 256,
    ensures
        encode_utf8(s.push(c)).len() == encode_utf8(s).len() + (if (c as u32) < 128 {
            1int
        } else {
            2int
        }),
    decreases s.len(),
{
    let t = s.push(c);
    assert(t[0] == (if s.len() == 0 { c } else { s[0] }));
    assert(encode_utf8(t) == encode_scalar(t[0] as u32) + encode_utf8(t.drop_first()));
    if s.len() == 0 {
        assert(t.drop_first() =~= Seq::<char>::empty());
        assert(encode_utf8(Seq::<char>::empty()) =~= Seq::<u8>::empty());
        assert(encode_utf8(s) =~= Seq::<u8>::empty());
    } else {
        assert(t.drop_first() =~= s.drop_first().push(c));
        lemma_utf8_len_push(s.drop_first(), c);
        assert(encode_utf8(s) == encode_scalar(s[0] as u32) + encode_utf8(s.drop_first()));
    }
}

impl HandshakeReader {
    pub closed spec fn inv(&self) -> bool {
        &&& self.value_bytes == encode_utf8(self.value@).len()
        &&& self.value_bytes <= 41
        &&& (self.phase matches HsPhase::Status(k) ==> k < 4)
    }

    /// A reader that has seen nothing yet.
    pub fn new() -> (r: HandshakeReader)
        ensures
            r@ == initial_model(),
            r.inv(),
    {
        HandshakeReader {
            phase: HsPhase::Status(0),
            name: Vec::new(),
            value: Vec::new(),
            value_bytes: 0,
            wants_upgrade: false,
            wants_websocket: false,
            wants_websocket_13: false,
            security_thing: None,
        }
    }

    /// Where the reader is in the request.
    pub fn phase(&self) -> (r: HsPhase)
        ensures
            r == self@.phase,
    {
        self.phase
    }

    /// Whether the reader needs no more bytes.
    pub fn is_finished(&self) -> (r: bool)
        ensures
            r == (self@.phase == HsPhase::Done || self@.phase == HsPhase::Refused),
    {
        self.phase == HsPhase::Done || self.phase == HsPhase::Refused
    }

    fn finish(&mut self, kind: HeaderKind)
        requires
            old(self).inv(),
        ensures
            final(self).inv(),
            final(self)@ == finish_value(old(self)@, kind),
    {
        let t = trim_exec(&self.value);
        match kind {
            HeaderKind::Connection => {
                let upgrade = vec!['u', 'p', 'g', 'r', 'a', 'd', 'e'];
                proof {
                    assert(upgrade@ =~= seq!['u', 'p', 'g', 'r', 'a', 'd', 'e']);
                }
                if self.wants_upgrade || has_token_exec(&t, &upgrade) {
                    self.wants_upgrade = true;
                    self.phase = HsPhase::Name;
                    self.name = Vec::new();
                } else {
                    self.phase = HsPhase::Refused;
                }
            },
            HeaderKind::Upgrade => {
                let websocket = vec!['w', 'e', 'b', 's', 'o', 'c', 'k', 'e', 't'];
                proof {
                    assert(websocket@ =~= seq!['w', 'e', 'b', 's', 'o', 'c', 'k', 'e', 't']);
                }
                proof {
                    assert(t@.subrange(0, t@.len() as int) =~= t@);
                }
                if t.len() == websocket.len() && matches_at(&t, 0, &websocket) {
                    self.wants_websocket = true;
                    self.phase = HsPhase::Name;
                    self.name = Vec::new();
                } else {
                    self.phase = HsPhase::Refused;
                }
            },
            HeaderKind::Version => {
                let thirteen = vec!['1', '3'];
                proof {
                    assert(thirteen@ =~= seq!['1', '3']);
                }
                proof {
                    assert(t@.subrange(0, t@.len() as int) =~= t@);
                }
                if t.len() == thirteen.len() && matches_at(&t, 0, &thirteen) {
                    self.wants_websocket_13 = true;
                    self.phase = HsPhase::Name;
                    self.name = Vec::new();
                } else {
                    self.phase = HsPhase::Refused;
                }
            },
            HeaderKind::Key => {
                let mut text = String::new();
                let mut k: usize = 0;
                while k < t.len()
                    invariant
                        k <= t@.len(),
                        text@ == t@.subrange(0, k as int),
                    decreases t@.len() - k,
                {
                    push_char(&mut text, t[k]);
                    proof {
                        assert(t@.subrange(0, k + 1) =~= t@.subrange(0, k as int).push(t@[k as int]));
                    }
                    k = k + 1;
                }
                proof {
                    assert(t@.subrange(0, t@.len() as int) =~= t@);
                }
                let decoded = base64_decode(text.as_str().as_bytes());
                match decoded {
                    Some(d) => {
                        if d.len() == 16 {
                            self.security_thing = Some(d);
                            self.phase = HsPhase::Name;
                            self.name = Vec::new();
                        } else {
                            self.phase = HsPhase::Done;
                        }
                    },
                    None => {
                        self.phase = HsPhase::Done;
                    },
                }
            },
        }
    }

    fn start_value(&mut self, kind: HeaderKind)
        requires
            old(self).inv(),
        ensures
            final(self).inv(),
            final(self)@ == (HsModel { phase: HsPhase::Value(kind), value: seq![], ..old(self)@ }),
    {
        self.phase = HsPhase::Value(kind);
        self.value = Vec::new();
        self.value_bytes = 0;
        proof {
            assert(encode_utf8(self.value@) =~= Seq::<u8>::empty());
        }
    }

    /// A reader that has been fed the given bytes one by one.
    pub fn from_bytes(bytes: &[u8]) -> (r: HandshakeReader)
        ensures
            r.inv(),
            r@ == hs_run(bytes@),
    {
        let mut r = HandshakeReader::new();
        let mut i: usize = 0;
        while i < bytes.len()
            invariant
                i <= bytes@.len(),
                r.inv(),
                r@ == hs_run(bytes@.subrange(0, i as int)),
            decreases bytes@.len() - i,
        {
            proof {
                let next = bytes@.subrange(0, i + 1);
                assert(next.drop_last() =~= bytes@.subrange(0, i as int));
                assert(next.last() == bytes@[i as int]);
            }
            r.feed(bytes[i]);
            i = i + 1;
        }
        proof {
            assert(bytes@.subrange(0, bytes@.len() as int) =~= bytes@);
            assert(hs_run(Seq::<u8>::empty()) == initial_model());
        }
        r
    }

    /// Takes one more byte of the request.
    pub fn feed(&mut self, byte: u8)
        requires
            old(self).inv(),
        ensures
            final(self).inv(),
            final(self)@ == hs_step(old(self)@, byte),
    {
        match self.phase {
            HsPhase::Status(k) => {
                let expected = if k == 0 {
                    71u8
                } else if k == 1 {
                    69u8
                } else if k == 2 {
                    84u8
                } else {
                    32u8
                };
                if byte == expected {
                    self.phase = if k + 1 == 4 {
                        HsPhase::StatusRest
                    } else {
                        HsPhase::Status(k + 1)
                    };
                } else {
                    self.phase = HsPhase::Refused;
                }
            },
            HsPhase::StatusRest => {
                if byte == 10 {
                    self.phase = HsPhase::Name;
                    self.name = Vec::new();
                }
            },
            HsPhase::Name => {
                self.name.push(lower_exec(byte));
                let end = headers_end_exec();
                let connection = connection_header_exec();
                let upgrade = upgrade_header_exec();
                let version = version_header_exec();
                let key = key_header_exec();
                if bytes_equal(&self.name, &end) {
                    self.phase = HsPhase::Done;
                } else if bytes_equal(&self.name, &connection) {
                    self.start_value(HeaderKind::Connection);
                } else if bytes_equal(&self.name, &upgrade) {
                    self.start_value(HeaderKind::Upgrade);
                } else if bytes_equal(&self.name, &version) {
                    self.start_value(HeaderKind::Version);
                } else if bytes_equal(&self.name, &key) {
                    self.start_value(HeaderKind::Key);
                } else if bytes_prefix(&self.name, &end) || bytes_prefix(&self.name, &connection)
                    || bytes_prefix(&self.name, &upgrade) || bytes_prefix(&self.name, &version)
                    || bytes_prefix(&self.name, &key) {
                } else {
                    self.phase = HsPhase::SkipLine;
                }
            },
            HsPhase::SkipLine => {
                if byte == 10 {
                    self.phase = HsPhase::Name;
                    self.name = Vec::new();
                }
            },
            HsPhase::Value(kind) => {
                if byte == 10 {
                    self.finish(kind);
                } else if self.value_bytes >= 40 {
                    self.phase = HsPhase::Refused;
                } else {
                    let code = if kind == HeaderKind::Key {
                        byte
                    } else {
                        lower_exec(byte)
                    };
                    let c = code as char;
                    proof {
                        lemma_utf8_len_push(self.value@, c);
                    }
                    self.value.push(c);
                    self.value_bytes = self.value_bytes + if code < 128 {
                        1
                    } else {
                        2
                    };
                }
            },
            HsPhase::Done => {},
            HsPhase::Refused => {},
        }
    }
}

// ---------------------------------------------------------------- the answer

/// "HTTP/1.1 101 Upgrade\r\nUpgrade: websocket\r\nConnection: Upgrade\r\nSec-Websocket-Accept: "
pub open spec fn upgrade_head() -> Seq<u8> {
    seq![72u8, 84u8, 84u8, 80u8, 47u8, 49u8, 46u8, 49u8, 32u8, 49u8, 48u8, 49u8, 32u8, 85u8, 112u8, 103u8, 114u8, 97u8, 100u8, 101u8, 13u8, 10u8, 85u8, 112u8, 103u8, 114u8, 97u8, 100u8, 101u8, 58u8, 32u8, 119u8, 101u8, 98u8, 115u8, 111u8, 99u8, 107u8, 101u8, 116u8, 13u8, 10u8, 67u8, 111u8, 110u8, 110u8, 101u8, 99u8, 116u8, 105u8, 111u8, 110u8, 58u8, 32u8, 85u8, 112u8, 103u8, 114u8, 97u8, 100u8, 101u8, 13u8, 10u8, 83u8, 101u8, 99u8, 45u8, 87u8, 101u8, 98u8, 115u8, 111u8, 99u8, 107u8, 101u8, 116u8, 45u8, 65u8, 99u8, 99u8, 101u8, 112u8, 116u8, 58u8, 32u8]
}

/// The GUID that RFC 6455 appends to the client's key.
pub open spec fn key_guid() -> Seq<u8> {
    seq![50u8, 53u8, 56u8, 69u8, 65u8, 70u8, 65u8, 53u8, 45u8, 69u8, 57u8, 49u8, 52u8, 45u8, 52u8, 55u8, 68u8, 65u8, 45u8, 57u8, 53u8, 67u8, 65u8, 45u8, 67u8, 53u8, 65u8, 66u8, 48u8, 68u8, 67u8, 56u8, 53u8, 66u8, 49u8, 49u8]
}

/// "\r\n\r\n"
pub open spec fn blank_line_end() -> Seq<u8> {
    seq![13u8, 10u8, 13u8, 10u8]
}

/// "HTTP/1.1 400 Bad Request\r\n\r\n"
pub open spec fn bad_request() -> Seq<u8> {
    seq![72u8, 84u8, 84u8, 80u8, 47u8, 49u8, 46u8, 49u8, 32u8, 52u8, 48u8, 48u8, 32u8, 66u8, 97u8, 100u8, 32u8, 82u8, 101u8, 113u8, 117u8, 101u8, 115u8, 116u8, 13u8, 10u8, 13u8, 10u8]
}

/// The accept value for a key: base64 of the SHA-1 of the key's base64
/// followed by the GUID.
pub open spec fn accept_value(key: Seq<u8>) -> Seq<u8> {
    spec_base64_encode(spec_sha1(spec_base64_encode(key) + key_guid()))
}

/// The answer that switches the connection to WebSocket.
pub open spec fn upgrade_response_bytes(key: Seq<u8>) -> Seq<u8> {
    upgrade_head() + accept_value(key) + blank_line_end()
}

fn append_literal(out: &mut Vec<u8>, mut lit: Vec<u8>)
    ensures
        final(out)@ == old(out)@ + lit@,
{
    out.append(&mut lit);
}

/// The answer that switches the connection to WebSocket, for the key the
/// client sent (the bytes its base64 decodes to).
pub fn upgrade_response(key: &[u8]) -> (r: Vec<u8>)
    ensures
        r@ == upgrade_response_bytes(key@),
{
    let mut salted = base64_encode(key);
    let guid = vec![50u8, 53u8, 56u8, 69u8, 65u8, 70u8, 65u8, 53u8, 45u8, 69u8, 57u8, 49u8, 52u8, 45u8, 52u8, 55u8, 68u8, 65u8, 45u8, 57u8, 53u8, 67u8, 65u8, 45u8, 67u8, 53u8, 65u8, 66u8, 48u8, 68u8, 67u8, 56u8, 53u8, 66u8, 49u8, 49u8];
    proof {
        assert(guid@ =~= key_guid());
    }
    append_literal(&mut salted, guid);
    let digest = sha1_digest(salted.as_slice());
    let accept = base64_encode(digest.as_slice());
    let mut out = vec![72u8, 84u8, 84u8, 80u8, 47u8, 49u8, 46u8, 49u8, 32u8, 49u8, 48u8, 49u8, 32u8, 85u8, 112u8, 103u8, 114u8, 97u8, 100u8, 101u8, 13u8, 10u8, 85u8, 112u8, 103u8, 114u8, 97u8, 100u8, 101u8, 58u8, 32u8, 119u8, 101u8, 98u8, 115u8, 111u8, 99u8, 107u8, 101u8, 116u8, 13u8, 10u8, 67u8, 111u8, 110u8, 110u8, 101u8, 99u8, 116u8, 105u8, 111u8, 110u8, 58u8, 32u8, 85u8, 112u8, 103u8, 114u8, 97u8, 100u8, 101u8, 13u8, 10u8, 83u8, 101u8, 99u8, 45u8, 87u8, 101u8, 98u8, 115u8, 111u8, 99u8, 107u8, 101u8, 116u8, 45u8, 65u8, 99u8, 99u8, 101u8, 112u8, 116u8, 58u8, 32u8];
    proof {
        assert(out@ =~= upgrade_head());
    }
    append_literal(&mut out, accept);
    let end = vec![13u8, 10u8, 13u8, 10u8];
    proof {
        assert(end@ =~= blank_line_end());
    }
    append_literal(&mut out, end);
    out
}

/// The answer to a request that is not a WebSocket upgrade.
pub fn bad_request_response() -> (r: Vec<u8>)
    ensures
        r@ == bad_request(),
{
    let r = vec![72u8, 84u8, 84u8, 80u8, 47u8, 49u8, 46u8, 49u8, 32u8, 52u8, 48u8, 48u8, 32u8, 66u8, 97u8, 100u8, 32u8, 82u8, 101u8, 113u8, 117u8, 101u8, 115u8, 116u8, 13u8, 10u8, 13u8, 10u8];
    proof {
        assert(r@ =~= bad_request());
    }
    r
}

/// What the server does once the reader stops.
pub enum HandshakeAnswer {
    /// Drop the connection without a word.
    Drop,
    /// Send these bytes, then drop the connection.
    Reject(Vec<u8>),
    /// Send these bytes; from now on the connection speaks WebSocket.
    Accept(Vec<u8>),
}

impl HandshakeReader {
    /// The server's answer if the request stops here: a request that was
    /// refused, or that has not reached the end of its headers, gets none;
    /// one whose headers are over gets the upgrade if it asked for
    /// WebSocket 13 with a valid key, and "400 Bad Request" otherwise.
    pub fn answer(&self) -> (r: HandshakeAnswer)
        ensures
            match r {
                HandshakeAnswer::Drop => self@.phase != HsPhase::Done,
                HandshakeAnswer::Reject(b) => self@.phase == HsPhase::Done && accepted_key(self@) is None
                    && b@ == bad_request(),
                HandshakeAnswer::Accept(b) => accepted_key(self@) matches Some(k) && b@
                    == upgrade_response_bytes(k),
            },
    {
        if self.phase != HsPhase::Done {
            return HandshakeAnswer::Drop;
        }
        if self.wants_upgrade && self.wants_websocket && self.wants_websocket_13 {
            match &self.security_thing {
                Some(k) => {
                    return HandshakeAnswer::Accept(upgrade_response(k.as_slice()));
                },
                None => {},
            }
        }
        HandshakeAnswer::Reject(bad_request_response())
    }
}

} // verus!
