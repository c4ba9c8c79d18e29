//! Client/server message types and the JSON frame codec.
//!
//! Inbound frames are `{"type":"SUBSCRIBE","payload":{"room":...}}`,
//! `{"type":"UNSUBSCRIBE","payload":{"room":...}}` and
//! `{"type":"SEND_MESSAGE","payload":{"room":...,"message":...}}`; the tag
//! match is case-sensitive and exact, and a malformed frame is a
//! `ProtocolError`, never a panic. Outbound messages are encoded as
//! `{"room":...,"data":...}`.

use vstd::prelude::*;

use crate::text::{char_from_code, chars_to_string, code_char, hex_char, hex_char_of, hex_val, hex_val_of, is_unicode_scalar, push_str_chars, scalar_chars, is_scalar_char, str_eq};

verus! {

/// Payload of a `SUBSCRIBE` frame.
#[derive(Debug, Clone)]
pub struct SubscribePayload {
    pub room: String,
}

/// Payload of an `UNSUBSCRIBE` frame.
#[derive(Debug, Clone)]
pub struct UnsubscribePayload {
    pub room: String,
}

/// Payload of a `SEND_MESSAGE` frame.
#[derive(Debug, Clone)]
pub struct MessagePayload {
    pub room: String,
    pub message: String,
}

/// A decoded inbound client frame.
#[derive(Debug, Clone)]
pub enum ClientRequest {
    Subscribe { payload: SubscribePayload },
    Unsubscribe { payload: UnsubscribePayload },
    SendMessage { payload: MessagePayload },
}

/// The payload delivered to a subscriber: the room it came through and the
/// opaque data string (caller-level JSON, not re-parsed here).
#[derive(Debug, Clone)]
pub struct ServerMessage {
    pub room: String,
    pub data: String,
}

/// Mathematical image of a decoded client request.
pub ghost enum ClientRequestV {
    Subscribe { room: Seq<char> },
    Unsubscribe { room: Seq<char> },
    SendMessage { room: Seq<char>, message: Seq<char> },
}

impl View for ClientRequest {
    type V = ClientRequestV;

    open spec fn view(&self) -> ClientRequestV {
        match self {
            ClientRequest::Subscribe { payload } => ClientRequestV::Subscribe { room: payload.room@ },
            ClientRequest::Unsubscribe { payload } => ClientRequestV::Unsubscribe {
                room: payload.room@,
            },
            ClientRequest::SendMessage { payload } => ClientRequestV::SendMessage {
                room: payload.room@,
                message: payload.message@,
            },
        }
    }
}

/// Why an inbound frame failed to decode.
#[derive(Debug, Clone, Copy, PartialEq, Eq, Structural)]
pub enum ProtocolError {
    /// The frame is not the expected JSON object shape.
    Malformed,
    /// The `type` tag is none of the three known values.
    UnknownTag,
    /// The payload lacks a field the tag requires.
    MissingField,
    /// The payload has a field of the wrong kind, or a field the tag does not take.
    WrongShape,
}

// ---------------------------------------------------------------------------
// Encoding
// ---------------------------------------------------------------------------

/// How one char appears inside a JSON string literal produced by the encoder.
pub open spec fn escape_char(c: char) -> Seq<char> {
    if c == '"' {
        seq!['\\', '"']
    } else if c == '\\' {
        seq!['\\', '\\']
    } else if c == '\n' {
        seq!['\\', 'n']
    } else if c == '\r' {
        seq!['\\', 'r']
    } else if c == '\t' {
        seq!['\\', 't']
    } else if (c as u32) < 0x20 {
        seq!['\\', 'u', '0', '0', hex_char(c as int / 16), hex_char(c as int % 16)]
    } else {
        seq![c]
    }
}

/// The body of a JSON string literal holding exactly the chars of `s`.
pub open spec fn json_escape(s: Seq<char>) -> Seq<char>
    decreases s.len(),
{
    if s.len() == 0 {
        Seq::empty()
    } else {
        json_escape(s.drop_last()) + escape_char(s.last())
    }
}

/// The exact frame text an outbound `ServerMessage` encodes to.
pub open spec fn server_message_json(room: Seq<char>, data: Seq<char>) -> Seq<char> {
    "{\"room\":\""@ + json_escape(room) + "\",\"data\":\""@ + json_escape(data) + "\"}"@
}

/// Append the escaped form of every char of `s` to `out`.
fn push_escaped(out: &mut Vec<char>, s: &str)
    ensures
        final(out)@ == old(out)@ + json_escape(s@),
{
    let n = s.unicode_len();
    let mut i: usize = 0;
    while i < n
        invariant
            n == s@.len(),
            i <= n,
            out@ == old(out)@ + json_escape(s@.take(i as int)),
        decreases n - i,
    {
        let c = s.get_char(i);
        let ghost prefix = s@.take(i as int);
        if c == '"' {
            out.push('\\');
            out.push('"');
        } else if c == '\\' {
            out.push('\\');
            out.push('\\');
        } else if c == '\n' {
            out.push('\\');
            out.push('n');
        } else if c == '\r' {
            out.push('\\');
            out.push('r');
        } else if c == '\t' {
            out.push('\\');
            out.push('t');
        } else if (c as u32) < 0x20 {
            out.push('\\');
            out.push('u');
            out.push('0');
            out.push('0');
            out.push(hex_char_of((c as u8) / 16));
            out.push(hex_char_of((c as u8) % 16));
        } else {
            out.push(c);
        }
        proof {
            assert(s@.take(i + 1 as int).drop_last() =~= prefix);
            assert(out@ =~= old(out)@ + json_escape(s@.take(i + 1 as int)));
        }
        i = i + 1;
    }
    proof {
        assert(s@.take(n as int) =~= s@);
    }
}

/// Encode an outbound message as its JSON frame, `{"room":...,"data":...}`.
pub fn encode_server_message(m: &ServerMessage) -> (r: String)
    ensures
        r@ == server_message_json(m.room@, m.data@),
{
    let mut out: Vec<char> = Vec::new();
    push_str_chars(&mut out, "{\"room\":\"");
    push_escaped(&mut out, m.room.as_str());
    push_str_chars(&mut out, "\",\"data\":\"");
    push_escaped(&mut out, m.data.as_str());
    push_str_chars(&mut out, "\"}");
    let r = chars_to_string(&out);
    proof {
        assert(out@ =~= server_message_json(m.room@, m.data@));
    }
    r
}

// ---------------------------------------------------------------------------
// Decoding: lexical layer
// ---------------------------------------------------------------------------

/// JSON insignificant whitespace.
pub open spec fn is_ws(c: char) -> bool {
    c == ' ' || c == '\t' || c == '\n' || c == '\r'
}

/// The first position at or after `i` holding something other than
/// whitespace (or the end of the text).
pub open spec fn skip_ws(s: Seq<char>, i: int) -> int
    decreases s.len() - i,
{
    if 0 <= i < s.len() && is_ws(s[i]) {
        skip_ws(s, i + 1)
    } else {
        i
    }
}

/// Parse the rest of a JSON string literal from just after its opening
/// quote, with `acc` the content read so far: returns the content and the
/// position after the closing quote. Escapes `\" \\ \/ \b \f \n \r \t` and
/// `\uXXXX` for unicode scalar values are understood; an unterminated
/// literal, an unknown escape, a surrogate code, or a raw control char is a
/// failure.
pub open spec fn parse_string_rest(s: Seq<char>, i: int, acc: Seq<char>) -> Option<(Seq<char>, int)>
    decreases s.len() - i,
{
    if i < 0 || i >= s.len() {
        None
    } else if s[i] == '"' {
        Some((acc, i + 1))
    } else if s[i] == '\\' {
        if i + 1 >= s.len() {
            None
        } else {
            let e = s[i + 1];
            if e == '"' {
                parse_string_rest(s, i + 2, acc.push('"'))
            } else if e == '\\' {
                parse_string_rest(s, i + 2, acc.push('\\'))
            } else if e == '/' {
                parse_string_rest(s, i + 2, acc.push('/'))
            } else if e == 'b' {
                parse_string_rest(s, i + 2, acc.push('\u{0008}'))
            } else if e == 'f' {
                parse_string_rest(s, i + 2, acc.push('\u{000C}'))
            } else if e == 'n' {
                parse_string_rest(s, i + 2, acc.push('\n'))
            } else if e == 'r' {
                parse_string_rest(s, i + 2, acc.push('\r'))
            } else if e == 't' {
                parse_string_rest(s, i + 2, acc.push('\t'))
            } else if e == 'u' {
                if i + 6 > s.len() {
                    None
                } else {
                    let h0 = hex_val(s[i + 2]);
                    let h1 = hex_val(s[i + 3]);
                    let h2 = hex_val(s[i + 4]);
                    let h3 = hex_val(s[i + 5]);
                    if h0 < 0 || h1 < 0 || h2 < 0 || h3 < 0 {
                        None
                    } else {
                        let code = (h0 * 4096 + h1 * 256 + h2 * 16 + h3) as u32;
                        if is_unicode_scalar(code) {
                            parse_string_rest(s, i + 6, acc.push(code_char(code)))
                        } else {
                            None
                        }
                    }
                }
            } else {
                None
            }
        }
    } else if (s[i] as u32) < 0x20 {
        None
    } else {
        parse_string_rest(s, i + 1, acc.push(s[i]))
    }
}

/// Skip whitespace and demand one particular char; the position after it.
pub open spec fn expect(s: Seq<char>, i: int, c: char) -> Option<int> {
    let j = skip_ws(s, i);
    if j < s.len() && s[j] == c {
        Some(j + 1)
    } else {
        None
    }
}

/// Skip whitespace and parse one JSON string literal.
pub open spec fn parse_string(s: Seq<char>, i: int) -> Option<(Seq<char>, int)> {
    match expect(s, i, '"') {
        Some(j) => parse_string_rest(s, j, Seq::empty()),
        None => None,
    }
}

fn is_ws_exec(c: char) -> (b: bool)
    ensures
        b == is_ws(c),
{
    c == ' ' || c == '\t' || c == '\n' || c == '\r'
}

/// Executable `skip_ws`.
#[verifier::loop_isolation(false)]
fn skip_ws_exec(s: &str, i: usize, n: usize) -> (j: usize)
    requires
        n == s@.len(),
        i <= n,
    ensures
        j as int == skip_ws(s@, i as int),
        i <= j <= n,
{
    let mut j = i;
    while j < n && is_ws_exec(s.get_char(j))
        invariant
            i <= j <= n,
            skip_ws(s@, i as int) == skip_ws(s@, j as int),
        decreases n - j,
    {
        j = j + 1;
    }
    j
}

/// Executable `parse_string_rest`, building the content in a char vector.
#[verifier::loop_isolation(false)]
fn parse_string_body(s: &str, i: usize, n: usize) -> (r: Option<(Vec<char>, usize)>)
    requires
        n == s@.len(),
        i <= n,
    ensures
        match r {
            Some(p) => parse_string_rest(s@, i as int, Seq::empty()) == Some((p.0@, p.1 as int))
                && i < p.1 <= n,
            None => parse_string_rest(s@, i as int, Seq::empty()) is None,
        },
{
    let mut j = i;
    let mut out: Vec<char> = Vec::new();
    proof {
        assert(out@ =~= Seq::<char>::empty());
    }
    loop
        invariant
            i <= j <= n,
            parse_string_rest(s@, i as int, Seq::empty()) == parse_string_rest(s@, j as int, out@),
        decreases n - j,
    {
        if j >= n {
            return None;
        }
        let c = s.get_char(j);
        if c == '"' {
            return Some((out, j + 1));
        }
        if c == '\\' {
            if j + 1 >= n {
                return None;
            }
            let e = s.get_char(j + 1);
            if e == '"' {
                out.push('"');
                j = j + 2;
            } else if e == '\\' {
                out.push('\\');
                j = j + 2;
            } else if e == '/' {
                out.push('/');
                j = j + 2;
            } else if e == 'b' {
                out.push('\u{0008}');
                j = j + 2;
            } else if e == 'f' {
                out.push('\u{000C}');
                j = j + 2;
            } else if e == 'n' {
                out.push('\n');
                j = j + 2;
            } else if e == 'r' {
                out.push('\r');
                j = j + 2;
            } else if e == 't' {
                out.push('\t');
                j = j + 2;
            } else if e == 'u' {
                if n - j < 6 {
                    return None;
                }
                let h0 = hex_val_of(s.get_char(j + 2));
                let h1 = hex_val_of(s.get_char(j + 3));
                let h2 = hex_val_of(s.get_char(j + 4));
                let h3 = hex_val_of(s.get_char(j + 5));
                match (h0, h1, h2, h3) {
                    (Some(d0), Some(d1), Some(d2), Some(d3)) => {
                        let code: u32 = (d0 as u32) * 4096 + (d1 as u32) * 256 + (d2 as u32) * 16
                            + (d3 as u32);
                        match char_from_code(code) {
                            Some(c2) => {
                                out.push(c2);
                                j = j + 6;
                            },
                            None => {
                                return None;
                            },
                        }
                    },
                    _ => {
                        return None;
                    },
                }
            } else {
                return None;
            }
        } else if (c as u32) < 0x20 {
            return None;
        } else {
            out.push(c);
            j = j + 1;
        }
    }
}

/// Executable `expect`.
fn expect_exec(s: &str, i: usize, n: usize, c: char) -> (r: Option<usize>)
    requires
        n == s@.len(),
        i <= n,
    ensures
        match r {
            Some(j) => expect(s@, i as int, c) == Some(j as int) && i < j <= n,
            None => expect(s@, i as int, c) is None,
        },
{
    let j = skip_ws_exec(s, i, n);
    if j < n && s.get_char(j) == c {
        Some(j + 1)
    } else {
        None
    }
}

/// Executable `parse_string`.
fn parse_string_exec(s: &str, i: usize, n: usize) -> (r: Option<(Vec<char>, usize)>)
    requires
        n == s@.len(),
        i <= n,
    ensures
        match r {
            Some(p) => parse_string(s@, i as int) == Some((p.0@, p.1 as int)) && i < p.1 <= n,
            None => parse_string(s@, i as int) is None,
        },
{
    match expect_exec(s, i, n, '"') {
        Some(j) => parse_string_body(s, j, n),
        None => None,
    }
}

// ---------------------------------------------------------------------------
// Decoding: grammar layer
// ---------------------------------------------------------------------------
// A frame is one object of at most two members whose values are strings or
// one object of at most two string-valued members; nothing deeper occurs in
// the protocol, and anything else is malformed.

/// A parsed member value of the outer frame object: a string, or the
/// payload object as its (key, value) string pairs.
pub ghost enum ValV {
    S(Seq<char>),
    O(Seq<(Seq<char>, Seq<char>)>),
}

/// Parse the members of a string-valued object from just after its `{`:
/// zero, one or two `"key": "value"` members, then `}`.
pub open spec fn parse_sfields(s: Seq<char>, i: int) -> Option<(Seq<(Seq<char>, Seq<char>)>, int)> {
    let j = skip_ws(s, i);
    if j < s.len() && s[j] == '}' {
        Some((Seq::empty(), j + 1))
    } else {
        match parse_string(s, i) {
            None => None,
            Some((k1, a)) => match expect(s, a, ':') {
                None => None,
                Some(b) => match parse_string(s, b) {
                    None => None,
                    Some((v1, c)) => {
                        let d = skip_ws(s, c);
                        if d < s.len() && s[d] == '}' {
                            Some((seq![(k1, v1)], d + 1))
                        } else if d < s.len() && s[d] == ',' {
                            match parse_string(s, d + 1) {
                                None => None,
                                Some((k2, e)) => match expect(s, e, ':') {
                                    None => None,
                                    Some(f) => match parse_string(s, f) {
                                        None => None,
                                        Some((v2, g)) => match expect(s, g, '}') {
                                            None => None,
                                            Some(h) => Some((seq![(k1, v1), (k2, v2)], h)),
                                        },
                                    },
                                },
                            }
                        } else {
                            None
                        }
                    },
                },
            },
        }
    }
}

/// Parse one member value of the outer object: a string or an object of
/// string members.
pub open spec fn parse_value(s: Seq<char>, i: int) -> Option<(ValV, int)> {
    let j = skip_ws(s, i);
    if j < s.len() && s[j] == '"' {
        match parse_string_rest(s, j + 1, Seq::empty()) {
            Some((c, e)) => Some((ValV::S(c), e)),
            None => None,
        }
    } else if j < s.len() && s[j] == '{' {
        match parse_sfields(s, j + 1) {
            Some((fs, e)) => Some((ValV::O(fs), e)),
            None => None,
        }
    } else {
        None
    }
}

/// Parse the members of the outer frame object from just after its `{`:
/// zero, one or two members, then `}`.
pub open spec fn parse_tfields(s: Seq<char>, i: int) -> Option<(Seq<(Seq<char>, ValV)>, int)> {
    let j = skip_ws(s, i);
    if j < s.len() && s[j] == '}' {
        Some((Seq::empty(), j + 1))
    } else {
        match parse_string(s, i) {
            None => None,
            Some((k1, a)) => match expect(s, a, ':') {
                None => None,
                Some(b) => match parse_value(s, b) {
                    None => None,
                    Some((v1, c)) => {
                        let d = skip_ws(s, c);
                        if d < s.len() && s[d] == '}' {
                            Some((seq![(k1, v1)], d + 1))
                        } else if d < s.len() && s[d] == ',' {
                            match parse_string(s, d + 1) {
                                None => None,
                                Some((k2, e)) => match expect(s, e, ':') {
                                    None => None,
                                    Some(f) => match parse_value(s, f) {
                                        None => None,
                                        Some((v2, g)) => match expect(s, g, '}') {
                                            None => None,
                                            Some(h) => Some((seq![(k1, v1), (k2, v2)], h)),
                                        },
                                    },
                                },
                            }
                        } else {
                            None
                        }
                    },
                },
            },
        }
    }
}

/// Parse a whole frame: one outer object and nothing but whitespace after
/// it.
pub open spec fn parse_frame(s: Seq<char>) -> Option<Seq<(Seq<char>, ValV)>> {
    match expect(s, 0, '{') {
        None => None,
        Some(j) => match parse_tfields(s, j) {
            None => None,
            Some((ms, e)) => if skip_ws(s, e) == s.len() {
                Some(ms)
            } else {
                None
            },
        },
    }
}

// ---------------------------------------------------------------------------
// Decoding: frame semantics
// ---------------------------------------------------------------------------

pub open spec fn tkeys_dup(ms: Seq<(Seq<char>, ValV)>) -> bool {
    exists|x: int, y: int| 0 <= x < y < ms.len() && (#[trigger] ms[x]).0 == (#[trigger] ms[y]).0
}

pub open spec fn tkeys_known(ms: Seq<(Seq<char>, ValV)>) -> bool {
    forall|x: int| 0 <= x < ms.len() ==> ((#[trigger] ms[x]).0 == "type"@ || ms[x].0 == "payload"@)
}

/// The value under the first member with this key.
pub open spec fn tfind(ms: Seq<(Seq<char>, ValV)>, key: Seq<char>) -> Option<ValV>
    decreases ms.len(),
{
    if ms.len() == 0 {
        None
    } else if ms[0].0 == key {
        Some(ms[0].1)
    } else {
        tfind(ms.drop_first(), key)
    }
}

pub open spec fn skeys_dup(fs: Seq<(Seq<char>, Seq<char>)>) -> bool {
    exists|x: int, y: int| 0 <= x < y < fs.len() && (#[trigger] fs[x]).0 == (#[trigger] fs[y]).0
}

pub open spec fn skeys_only_room(fs: Seq<(Seq<char>, Seq<char>)>) -> bool {
    forall|x: int| 0 <= x < fs.len() ==> (#[trigger] fs[x]).0 == "room"@
}

pub open spec fn skeys_only_room_message(fs: Seq<(Seq<char>, Seq<char>)>) -> bool {
    forall|x: int| 0 <= x < fs.len() ==> ((#[trigger] fs[x]).0 == "room"@ || fs[x].0 == "message"@)
}

pub open spec fn sfind(fs: Seq<(Seq<char>, Seq<char>)>, key: Seq<char>) -> Option<Seq<char>>
    decreases fs.len(),
{
    if fs.len() == 0 {
        None
    } else if fs[0].0 == key {
        Some(fs[0].1)
    } else {
        sfind(fs.drop_first(), key)
    }
}

/// What a `SUBSCRIBE` or `UNSUBSCRIBE` payload object must hold: exactly a
/// `room` field. A stray or repeated field is the wrong shape; no `room`
/// is a missing field.
pub open spec fn room_payload(fs: Seq<(Seq<char>, Seq<char>)>) -> Result<Seq<char>, ProtocolError> {
    if skeys_dup(fs) || !skeys_only_room(fs) {
        Err(ProtocolError::WrongShape)
    } else {
        match sfind(fs, "room"@) {
            None => Err(ProtocolError::MissingField),
            Some(r) => Ok(r),
        }
    }
}

/// What a `SEND_MESSAGE` payload object must hold: exactly a `room` and a
/// `message` field, in either order.
pub open spec fn message_payload(fs: Seq<(Seq<char>, Seq<char>)>) -> Result<
    (Seq<char>, Seq<char>),
    ProtocolError,
> {
    if skeys_dup(fs) || !skeys_only_room_message(fs) {
        Err(ProtocolError::WrongShape)
    } else {
        match (sfind(fs, "room"@), sfind(fs, "message"@)) {
            (Some(r), Some(m)) => Ok((r, m)),
            _ => Err(ProtocolError::MissingField),
        }
    }
}

/// The request a syntactically valid frame means: a `type` tag that is a
/// string and one of the three known values, with the payload object the
/// tag requires. The two frame members may come in either order.
pub open spec fn frame_request(ms: Seq<(Seq<char>, ValV)>) -> Result<
    ClientRequestV,
    ProtocolError,
> {
    if tkeys_dup(ms) || !tkeys_known(ms) {
        Err(ProtocolError::WrongShape)
    } else {
        match tfind(ms, "type"@) {
            None => Err(ProtocolError::MissingField),
            Some(ValV::O(fs)) => Err(ProtocolError::WrongShape),
            Some(ValV::S(tag)) => match tfind(ms, "payload"@) {
                None => Err(ProtocolError::MissingField),
                Some(ValV::S(p)) => Err(ProtocolError::WrongShape),
                Some(ValV::O(fs)) => {
                    if tag == "SUBSCRIBE"@ {
                        match room_payload(fs) {
                            Ok(room) => Ok(ClientRequestV::Subscribe { room }),
                            Err(e) => Err(e),
                        }
                    } else if tag == "UNSUBSCRIBE"@ {
                        match room_payload(fs) {
                            Ok(room) => Ok(ClientRequestV::Unsubscribe { room }),
                            Err(e) => Err(e),
                        }
                    } else if tag == "SEND_MESSAGE"@ {
                        match message_payload(fs) {
                            Ok(p) => Ok(ClientRequestV::SendMessage { room: p.0, message: p.1 }),
                            Err(e) => Err(e),
                        }
                    } else {
                        Err(ProtocolError::UnknownTag)
                    }
                },
            },
        }
    }
}

/// What decoding an inbound frame yields: the request it means, or the
/// error saying why it is rejected. A frame that does not parse is
/// `Malformed`; a parsed frame with the wrong members gets the more
/// specific error.
pub open spec fn spec_decode(s: Seq<char>) -> Result<ClientRequestV, ProtocolError> {
    match parse_frame(s) {
        None => Err(ProtocolError::Malformed),
        Some(ms) => frame_request(ms),
    }
}

// ---------------------------------------------------------------------------
// Decoding: executable decoder
// ---------------------------------------------------------------------------

enum Val {
    S(String),
    O(Vec<(String, String)>),
}

spec fn sfields_view(q: Seq<(String, String)>) -> Seq<(Seq<char>, Seq<char>)> {
    q.map_values(|p: (String, String)| (p.0@, p.1@))
}

impl View for Val {
    type V = ValV;

    closed spec fn view(&self) -> ValV {
        match self {
            Val::S(x) => ValV::S(x@),
            Val::O(fs) => ValV::O(sfields_view(fs@)),
        }
    }
}

spec fn tfields_view(q: Seq<(String, Val)>) -> Seq<(Seq<char>, ValV)> {
    q.map_values(|p: (String, Val)| (p.0@, p.1@))
}

/// Executable `parse_sfields`.
fn parse_sfields_exec(s: &str, i: usize, n: usize) -> (r: Option<(Vec<(String, String)>, usize)>)
    requires
        n == s@.len(),
        i <= n,
    ensures
        match r {
            Some(p) => parse_sfields(s@, i as int) == Some((sfields_view(p.0@), p.1 as int))
                && p.1 <= n && p.0@.len() <= 2,
            None => parse_sfields(s@, i as int) is None,
        },
{
    let j = skip_ws_exec(s, i, n);
    if j < n && s.get_char(j) == '}' {
        let out: Vec<(String, String)> = Vec::new();
        proof {
            assert(sfields_view(out@) =~= Seq::<(Seq<char>, Seq<char>)>::empty());
        }
        return Some((out, j + 1));
    }
    let (k1, a) = match parse_string_exec(s, i, n) {
        None => {
            return None;
        },
        Some(p) => p,
    };
    let b = match expect_exec(s, a, n, ':') {
        None => {
            return None;
        },
        Some(b) => b,
    };
    let (v1, c) = match parse_string_exec(s, b, n) {
        None => {
            return None;
        },
        Some(p) => p,
    };
    let d = skip_ws_exec(s, c, n);
    if d < n && s.get_char(d) == '}' {
        let mut out: Vec<(String, String)> = Vec::new();
        out.push((chars_to_string(&k1), chars_to_string(&v1)));
        proof {
            assert(sfields_view(out@) =~= seq![(k1@, v1@)]);
        }
        return Some((out, d + 1));
    }
    if !(d < n && s.get_char(d) == ',') {
        return None;
    }
    let (k2, e) = match parse_string_exec(s, d + 1, n) {
        None => {
            return None;
        },
        Some(p) => p,
    };
    let f = match expect_exec(s, e, n, ':') {
        None => {
            return None;
        },
        Some(f) => f,
    };
    let (v2, g) = match parse_string_exec(s, f, n) {
        None => {
            return None;
        },
        Some(p) => p,
    };
    let h = match expect_exec(s, g, n, '}') {
        None => {
            return None;
        },
        Some(h) => h,
    };
    let mut out: Vec<(String, String)> = Vec::new();
    out.push((chars_to_string(&k1), chars_to_string(&v1)));
    out.push((chars_to_string(&k2), chars_to_string(&v2)));
    proof {
        assert(sfields_view(out@) =~= seq![(k1@, v1@), (k2@, v2@)]);
    }
    Some((out, h))
}

/// Executable `parse_value`.
fn parse_value_exec(s: &str, i: usize, n: usize) -> (r: Option<(Val, usize)>)
    requires
        n == s@.len(),
        i <= n,
    ensures
        match r {
            Some(p) => parse_value(s@, i as int) == Some((p.0@, p.1 as int)) && p.1 <= n,
            None => parse_value(s@, i as int) is None,
        },
{
    let j = skip_ws_exec(s, i, n);
    if j < n && s.get_char(j) == '"' {
        match parse_string_body(s, j + 1, n) {
            Some((c, e)) => Some((Val::S(chars_to_string(&c)), e)),
            None => None,
        }
    } else if j < n && s.get_char(j) == '{' {
        match parse_sfields_exec(s, j + 1, n) {
            Some((fs, e)) => Some((Val::O(fs), e)),
            None => None,
        }
    } else {
        None
    }
}

/// Executable `parse_tfields`.
fn parse_tfields_exec(s: &str, i: usize, n: usize) -> (r: Option<(Vec<(String, Val)>, usize)>)
    requires
        n == s@.len(),
        i <= n,
    ensures
        match r {
            Some(p) => parse_tfields(s@, i as int) == Some((tfields_view(p.0@), p.1 as int))
                && p.1 <= n && p.0@.len() <= 2,
            None => parse_tfields(s@, i as int) is None,
        },
{
    let j = skip_ws_exec(s, i, n);
    if j < n && s.get_char(j) == '}' {
        let out: Vec<(String, Val)> = Vec::new();
        proof {
            assert(tfields_view(out@) =~= Seq::<(Seq<char>, ValV)>::empty());
        }
        return Some((out, j + 1));
    }
    let (k1, a) = match parse_string_exec(s, i, n) {
        None => {
            return None;
        },
        Some(p) => p,
    };
    let b = match expect_exec(s, a, n, ':') {
        None => {
            return None;
        },
        Some(b) => b,
    };
    let (v1, c) = match parse_value_exec(s, b, n) {
        None => {
            return None;
        },
        Some(p) => p,
    };
    let d = skip_ws_exec(s, c, n);
    if d < n && s.get_char(d) == '}' {
        let ghost gv1 = v1@;
        let mut out: Vec<(String, Val)> = Vec::new();
        out.push((chars_to_string(&k1), v1));
        proof {
            assert(tfields_view(out@) =~= seq![(k1@, gv1)]);
        }
        return Some((out, d + 1));
    }
    if !(d < n && s.get_char(d) == ',') {
        return None;
    }
    let (k2, e) = match parse_string_exec(s, d + 1, n) {
        None => {
            return None;
        },
        Some(p) => p,
    };
    let f = match expect_exec(s, e, n, ':') {
        None => {
            return None;
        },
        Some(f) => f,
    };
    let (v2, g) = match parse_value_exec(s, f, n) {
        None => {
            return None;
        },
        Some(p) => p,
    };
    let h = match expect_exec(s, g, n, '}') {
        None => {
            return None;
        },
        Some(h) => h,
    };
    let ghost gv1 = v1@;
    let ghost gv2 = v2@;
    let mut out: Vec<(String, Val)> = Vec::new();
    out.push((chars_to_string(&k1), v1));
    out.push((chars_to_string(&k2), v2));
    proof {
        assert(tfields_view(out@) =~= seq![(k1@, gv1), (k2@, gv2)]);
    }
    Some((out, h))
}

/// Executable `room_payload`.
fn room_payload_exec(fs: &Vec<(String, String)>) -> (r: Result<String, ProtocolError>)
    ensures
        match r {
            Ok(room) => room_payload(sfields_view(fs@)) == Ok::<Seq<char>, ProtocolError>(room@),
            Err(e) => room_payload(sfields_view(fs@)) == Err::<Seq<char>, ProtocolError>(e),
        },
{
    let ghost v = sfields_view(fs@);
    if fs.len() == 0 {
        proof {
            assert(!skeys_dup(v));
            assert(sfind(v, "room"@) is None);
        }
        Err(ProtocolError::MissingField)
    } else if fs.len() == 1 {
        proof {
            assert(!skeys_dup(v));
        }
        if str_eq(fs[0].0.as_str(), "room") {
            proof {
                assert(v[0].0 == "room"@);
                assert(skeys_only_room(v));
                assert(sfind(v, "room"@) == Some(v[0].1));
            }
            Ok(fs[0].1.clone())
        } else {
            proof {
                assert(!skeys_only_room(v));
            }
            Err(ProtocolError::WrongShape)
        }
    } else {
        proof {
            if v[0].0 == "room"@ && v[1].0 == "room"@ {
                assert(skeys_dup(v));
            } else {
                assert(!skeys_only_room(v));
            }
        }
        Err(ProtocolError::WrongShape)
    }
}

/// Executable `message_payload`.
fn message_payload_exec(fs: &Vec<(String, String)>) -> (r: Result<(String, String), ProtocolError>)
    ensures
        match r {
            Ok(p) => message_payload(sfields_view(fs@)) == Ok::<
                (Seq<char>, Seq<char>),
                ProtocolError,
            >((p.0@, p.1@)),
            Err(e) => message_payload(sfields_view(fs@)) == Err::<
                (Seq<char>, Seq<char>),
                ProtocolError,
            >(e),
        },
{
    let ghost v = sfields_view(fs@);
    proof {
        reveal_strlit("room");
        reveal_strlit("message");
        assert("room"@.len() == 4);
        assert("message"@.len() == 7);
    }
    if fs.len() == 2 {
        let k0_room = str_eq(fs[0].0.as_str(), "room");
        let k0_msg = str_eq(fs[0].0.as_str(), "message");
        let k1_room = str_eq(fs[1].0.as_str(), "room");
        let k1_msg = str_eq(fs[1].0.as_str(), "message");
        proof {
            assert(v.drop_first() =~= seq![v[1]]);
        }
        if k0_room && k1_msg {
            proof {
                assert(!skeys_dup(v));
                assert(skeys_only_room_message(v));
                assert(sfind(v, "room"@) == Some(v[0].1));
                assert(sfind(v.drop_first(), "message"@) == Some(v[1].1));
                assert(sfind(v, "message"@) == Some(v[1].1));
            }
            Ok((fs[0].1.clone(), fs[1].1.clone()))
        } else if k0_msg && k1_room {
            proof {
                assert(!skeys_dup(v));
                assert(skeys_only_room_message(v));
                assert(sfind(v.drop_first(), "room"@) == Some(v[1].1));
                assert(sfind(v, "room"@) == Some(v[1].1));
                assert(sfind(v, "message"@) == Some(v[0].1));
            }
            Ok((fs[1].1.clone(), fs[0].1.clone()))
        } else {
            proof {
                if v[0].0 == v[1].0 {
                    assert(skeys_dup(v));
                } else if (v[0].0 == "room"@ || v[0].0 == "message"@) && (v[1].0 == "room"@
                    || v[1].0 == "message"@) {
                    // two distinct known keys would have matched above
                    assert(false);
                } else {
                    assert(!skeys_only_room_message(v));
                }
            }
            Err(ProtocolError::WrongShape)
        }
    } else if fs.len() == 1 {
        proof {
            assert(!skeys_dup(v));
        }
        let is_room = str_eq(fs[0].0.as_str(), "room");
        let is_msg = str_eq(fs[0].0.as_str(), "message");
        if is_room || is_msg {
            proof {
                assert(skeys_only_room_message(v));
                assert(v.drop_first().len() == 0);
                if v[0].0 == "room"@ {
                    assert(sfind(v.drop_first(), "message"@) is None);
                    assert(sfind(v, "message"@) is None);
                } else {
                    assert(sfind(v.drop_first(), "room"@) is None);
                    assert(sfind(v, "room"@) is None);
                }
            }
            Err(ProtocolError::MissingField)
        } else {
            proof {
                assert(!skeys_only_room_message(v));
            }
            Err(ProtocolError::WrongShape)
        }
    } else if fs.len() == 0 {
        proof {
            assert(!skeys_dup(v));
            assert(sfind(v, "room"@) is None);
        }
        Err(ProtocolError::MissingField)
    } else {
        // three or more fields can never all be distinct keys drawn from
        // `room` and `message`
        proof {
            if skeys_only_room_message(v) {
                assert(v[0].0 == "room"@ || v[0].0 == "message"@);
                assert(v[1].0 == "room"@ || v[1].0 == "message"@);
                assert(v[2].0 == "room"@ || v[2].0 == "message"@);
                if v[0].0 == v[1].0 {
                    assert(skeys_dup(v));
                } else if v[0].0 == v[2].0 {
                    assert(skeys_dup(v));
                } else {
                    assert(v[1].0 == v[2].0);
                    assert(skeys_dup(v));
                }
            }
        }
        Err(ProtocolError::WrongShape)
    }
}

/// Executable `frame_request`.
fn frame_request_exec(ms: &Vec<(String, Val)>) -> (r: Result<ClientRequest, ProtocolError>)
    requires
        ms@.len() <= 2,
    ensures
        match r {
            Ok(req) => frame_request(tfields_view(ms@)) == Ok::<ClientRequestV, ProtocolError>(
                req@,
            ),
            Err(e) => frame_request(tfields_view(ms@)) == Err::<ClientRequestV, ProtocolError>(e),
        },
{
    let ghost v = tfields_view(ms@);
    proof {
        reveal_strlit("type");
        reveal_strlit("payload");
        assert("type"@.len() == 4);
        assert("payload"@.len() == 7);
        if v.len() == 2 {
            assert(v.drop_first() =~= seq![v[1]]);
        }
    }
    // duplicate members
    if ms.len() == 2 && str_eq(ms[0].0.as_str(), ms[1].0.as_str()) {
        proof {
            assert(v[0].0 == v[1].0);
            assert(tkeys_dup(v));
        }
        return Err(ProtocolError::WrongShape);
    }
    proof {
        assert(!tkeys_dup(v)) by {
            if tkeys_dup(v) {
                let (x, y) = choose|x: int, y: int|
                    0 <= x < y < v.len() && (#[trigger] v[x]).0 == (#[trigger] v[y]).0;
                assert(x == 0 && y == 1);
            }
        }
    }
    // unknown members
    let mut x: usize = 0;
    let n = ms.len();
    while x < n
        invariant
            n == ms@.len() <= 2,
            x <= n,
            v == tfields_view(ms@),
            forall|j: int| 0 <= j < x ==> ((#[trigger] v[j]).0 == "type"@ || v[j].0 == "payload"@),
            !tkeys_dup(v),
        decreases n - x,
    {
        if !(str_eq(ms[x].0.as_str(), "type") || str_eq(ms[x].0.as_str(), "payload")) {
            proof {
                assert(!((v[x as int].0 == "type"@) || v[x as int].0 == "payload"@));
                assert(!tkeys_known(v));
            }
            return Err(ProtocolError::WrongShape);
        }
        x = x + 1;
    }
    proof {
        assert(tkeys_known(v));
    }
    if ms.len() == 0 {
        proof {
            assert(tfind(v, "type"@) is None);
        }
        return Err(ProtocolError::MissingField);
    }
    if ms.len() == 1 {
        if str_eq(ms[0].0.as_str(), "type") {
            proof {
                assert(tfind(v, "type"@) == Some(v[0].1));
                assert(v.drop_first().len() == 0);
                assert(tfind(v.drop_first(), "payload"@) is None);
                assert(tfind(v, "payload"@) is None);
            }
            match &ms[0].1 {
                Val::S(_) => {
                    return Err(ProtocolError::MissingField);
                },
                Val::O(_) => {
                    return Err(ProtocolError::WrongShape);
                },
            }
        } else {
            proof {
                assert(v[0].0 == "payload"@);
                assert(v.drop_first().len() == 0);
                assert(tfind(v.drop_first(), "type"@) is None);
                assert(tfind(v, "type"@) is None);
            }
            return Err(ProtocolError::MissingField);
        }
    }
    // two members with distinct known keys: one is the tag, one the payload
    let t_idx: usize = if str_eq(ms[0].0.as_str(), "type") {
        0
    } else {
        1
    };
    let p_idx: usize = 1 - t_idx;
    proof {
        if t_idx == 0 {
            assert(v[0].0 == "type"@);
            assert(v[1].0 == "payload"@) by {
                if v[1].0 == "type"@ {
                    assert(v[0].0 == v[1].0);
                    assert(tkeys_dup(v));
                }
            }
            assert(tfind(v, "type"@) == Some(v[0].1));
            assert(tfind(v.drop_first(), "payload"@) == Some(v[1].1));
            assert(tfind(v, "payload"@) == Some(v[1].1));
        } else {
            assert(v[0].0 == "payload"@);
            assert(v[1].0 == "type"@) by {
                if v[1].0 == "payload"@ {
                    assert(v[0].0 == v[1].0);
                    assert(tkeys_dup(v));
                }
            }
            assert(tfind(v, "payload"@) == Some(v[0].1));
            assert(tfind(v.drop_first(), "type"@) == Some(v[1].1));
            assert(tfind(v, "type"@) == Some(v[1].1));
        }
        assert(tfind(v, "type"@) == Some(v[t_idx as int].1));
        assert(tfind(v, "payload"@) == Some(v[p_idx as int].1));
    }
    let tag = match &ms[t_idx].1 {
        Val::O(_) => {
            return Err(ProtocolError::WrongShape);
        },
        Val::S(tag) => tag,
    };
    let fs = match &ms[p_idx].1 {
        Val::S(_) => {
            return Err(ProtocolError::WrongShape);
        },
        Val::O(fs) => fs,
    };
    if str_eq(tag.as_str(), "SUBSCRIBE") {
        match room_payload_exec(fs) {
            Ok(room) => Ok(ClientRequest::Subscribe { payload: SubscribePayload { room } }),
            Err(e) => Err(e),
        }
    } else if str_eq(tag.as_str(), "UNSUBSCRIBE") {
        match room_payload_exec(fs) {
            Ok(room) => Ok(ClientRequest::Unsubscribe { payload: UnsubscribePayload { room } }),
            Err(e) => Err(e),
        }
    } else if str_eq(tag.as_str(), "SEND_MESSAGE") {
        match message_payload_exec(fs) {
            Ok(p) => Ok(
                ClientRequest::SendMessage {
                    payload: MessagePayload { room: p.0, message: p.1 },
                },
            ),
            Err(e) => Err(e),
        }
    } else {
        Err(ProtocolError::UnknownTag)
    }
}

// ---------------------------------------------------------------------------
// The codec round trip
// ---------------------------------------------------------------------------

/// `json_escape` peels from the left as well: the escaped text starts with
/// the first char's escape.
pub proof fn lemma_json_escape_first(s: Seq<char>)
    requires
        s.len() > 0,
    ensures
        json_escape(s) == escape_char(s[0]) + json_escape(s.drop_first()),
    decreases s.len(),
{
    if s.len() == 1 {
        assert(s.drop_last() =~= Seq::<char>::empty());
        assert(s.drop_first() =~= Seq::<char>::empty());
        assert(json_escape(s) =~= escape_char(s[0]) + json_escape(s.drop_first()));
    } else {
        let head = s.drop_last();
        lemma_json_escape_first(head);
        assert(head[0] == s[0]);
        assert(head.drop_first() =~= s.drop_first().drop_last());
        assert(s.drop_first().last() == s.last());
        assert(json_escape(s.drop_first()) == json_escape(s.drop_first().drop_last())
            + escape_char(s.drop_first().last()));
        assert(json_escape(s) =~= escape_char(s[0]) + json_escape(s.drop_first()));
    }
}

/// Wherever a text holds the escaped form of `s` followed by the closing
/// quote, the string parser reads back exactly `s`.
pub proof fn lemma_parse_escaped(t: Seq<char>, i: int, s: Seq<char>, acc: Seq<char>)
    requires
        scalar_chars(s),
        0 <= i,
        i + json_escape(s).len() + 1 <= t.len(),
        t.subrange(i, i + json_escape(s).len() + 1) == json_escape(s) + seq!['"'],
    ensures
        parse_string_rest(t, i, acc) == Some((acc + s, i + json_escape(s).len() + 1)),
    decreases s.len(),
{
    let whole = json_escape(s) + seq!['"'];
    let sub = t.subrange(i, i + json_escape(s).len() + 1);
    if s.len() == 0 {
        assert(t[i] == whole[0]);
        assert(t[i] == '"');
        assert(acc + s =~= acc);
    } else {
        let c = s[0];
        let esc = escape_char(c);
        let tail = s.drop_first();
        lemma_json_escape_first(s);
        assert(esc.len() >= 1);
        // every char of the escape is in place
        assert forall|k: int| 0 <= k < esc.len() implies t[i + k] == esc[k] by {
            assert(sub[k] == whole[k]);
        }
        // the rest of the text carries the escaped tail
        let i2 = i + esc.len();
        assert(t.subrange(i2, i2 + json_escape(tail).len() + 1) =~= json_escape(tail) + seq!['"'])
            by {
            assert forall|k: int| 0 <= k < json_escape(tail).len() + 1 implies t.subrange(
                i2,
                i2 + json_escape(tail).len() + 1,
            )[k] == (json_escape(tail) + seq!['"'])[k] by {
                assert(sub[esc.len() + k] == whole[esc.len() + k]);
            }
        }
        lemma_parse_escaped(t, i2, tail, acc.push(c));
        assert(acc.push(c) + tail =~= acc + s);
        if c == '"' || c == '\\' {
            assert(t[i] == '\\' && t[i + 1] == c);
        } else if c == '\n' {
            assert(t[i] == '\\' && t[i + 1] == 'n');
        } else if c == '\r' {
            assert(t[i] == '\\' && t[i + 1] == 'r');
        } else if c == '\t' {
            assert(t[i] == '\\' && t[i + 1] == 't');
        } else if (c as u32) < 0x20 {
            assert(t[i] == '\\' && t[i + 1] == 'u' && t[i + 2] == '0' && t[i + 3] == '0');
            assert(t[i + 4] == hex_char(c as int / 16));
            assert(t[i + 5] == hex_char(c as int % 16));
            assert(is_scalar_char(c));
            assert((c as u32) == (c as int));
            assert(0 <= (c as int) && (c as int) < 32);
            lemma_hex_char_val(c as int / 16);
            lemma_hex_char_val(c as int % 16);
            assert(hex_val(t[i + 2]) == 0 && hex_val(t[i + 3]) == 0);
            assert(hex_val(t[i + 4]) == c as int / 16 && hex_val(t[i + 5]) == c as int % 16);
            assert((hex_val(t[i + 2]) * 4096 + hex_val(t[i + 3]) * 256 + hex_val(t[i + 4]) * 16
                + hex_val(t[i + 5])) as u32 == c as u32);
            assert(is_unicode_scalar(c as u32));
            assert(code_char(c as u32) == c) by {
                let w = code_char(c as u32);
                assert(w as u32 == c as u32);
                assert((w as u32) == (w as int));
                assert(w as int == c as int);
            }
        } else {
            assert(t[i] == esc[0]) by {
                assert(sub[0] == whole[0]);
            }
            assert(t[i] == c);
            assert(c != '"' && c != '\\' && (c as u32) >= 0x20);
        }
    }
}

/// The value of the hex digit the encoder writes for `n`.
pub proof fn lemma_hex_char_val(n: int)
    requires
        0 <= n < 16,
    ensures
        hex_val(hex_char(n)) == n,
{
}

/// Round trip at the string-literal layer: the text the encoder writes for
/// `s`, followed by the closing quote, reads back as exactly `s` — so an
/// encoded outbound frame never loses or distorts a char of its content.
pub proof fn lemma_escape_round_trip(s: Seq<char>)
    requires
        scalar_chars(s),
    ensures
        parse_string_rest(json_escape(s) + seq!['"'], 0, Seq::empty()) == Some((
            s,
            json_escape(s).len() + 1 as int,
        )),
{
    let t = json_escape(s) + seq!['"'];
    assert(t.subrange(0, json_escape(s).len() + 1 as int) =~= t);
    lemma_parse_escaped(t, 0, s, Seq::empty());
    assert(Seq::<char>::empty() + s =~= s);
}

/// The whole-frame round trip: an encoded outbound frame is itself a
/// well-formed object of exactly its two fields, and the object parser
/// reads `room` and `data` back unchanged, consuming the whole frame.
#[verifier::rlimit(100)]
#[verifier::spinoff_prover]
pub proof fn lemma_encode_frame_round_trip(room: Seq<char>, data: Seq<char>)
    requires
        scalar_chars(room),
        scalar_chars(data),
    ensures
        ({
            let t = server_message_json(room, data);
            parse_sfields(t, 1) == Some((seq![("room"@, room), ("data"@, data)], t.len() as int))
        }),
{
    reveal_strlit("{\"room\":\"");
    reveal_strlit("\",\"data\":\"");
    reveal_strlit("\"}");
    reveal_strlit("room");
    reveal_strlit("data");
    let l1 = "{\"room\":\""@;
    let l2 = "\",\"data\":\""@;
    let l3 = "\"}"@;
    let e1 = json_escape(room);
    let e2 = json_escape(data);
    let t = server_message_json(room, data);
    assert(l1.len() == 9);
    assert(l2.len() == 10);
    assert(l3.len() == 2);
    let b1: int = 9 + e1.len() as int;
    let b2: int = b1 + 10 + e2.len() as int;
    assert(t.len() == b2 + 2);
    assert(t[1] == '"' && t[2] == 'r' && t[3] == 'o' && t[4] == 'o' && t[5] == 'm' && t[6] == '"'
        && t[7] == ':' && t[8] == '"');
    assert(t[b1] == l2[0] && t[b1 + 1] == l2[1] && t[b1 + 2] == l2[2] && t[b1 + 3] == l2[3] && t[b1
        + 4] == l2[4] && t[b1 + 5] == l2[5] && t[b1 + 6] == l2[6] && t[b1 + 7] == l2[7] && t[b1 + 8]
        == l2[8] && t[b1 + 9] == l2[9]);
    assert(t[b2] == l3[0] && t[b2 + 1] == l3[1]);
    // the frame's first member: the key "room"
    assert(skip_ws(t, 1) == 1);
    assert(expect(t, 1, '"') == Some(2 as int));
    assert(parse_string_rest(t, 2, Seq::empty()) == Some(("room"@, 7 as int))) by {
        reveal_with_fuel(parse_string_rest, 6);
        assert(Seq::<char>::empty().push('r').push('o').push('o').push('m') =~= "room"@);
    }
    assert(parse_string(t, 1) == Some(("room"@, 7 as int)));
    assert(skip_ws(t, 7) == 7);
    assert(expect(t, 7, ':') == Some(8 as int));
    // its value: the escaped room text
    assert(t.subrange(9, b1 + 1) =~= e1 + seq!['"']) by {
        assert forall|k: int| 0 <= k < e1.len() + 1 implies t.subrange(9, b1 + 1)[k] == (e1
            + seq!['"'])[k] by {
            if k < e1.len() {
                assert(t[9 + k] == e1[k]);
            } else {
                assert(t[9 + k] == l2[0]);
            }
        }
    }
    lemma_parse_escaped(t, 9, room, Seq::empty());
    assert(Seq::<char>::empty() + room =~= room);
    assert(skip_ws(t, 8) == 8);
    assert(expect(t, 8, '"') == Some(9 as int));
    assert(parse_string(t, 8) == Some((room, b1 + 1)));
    // the member separator
    assert(skip_ws(t, b1 + 1) == b1 + 1);
    assert(t[b1 + 1] == ',');
    // the second member: the key "data"
    assert(skip_ws(t, b1 + 2) == b1 + 2);
    assert(expect(t, b1 + 2, '"') == Some(b1 + 3));
    assert(parse_string_rest(t, b1 + 3, Seq::empty()) == Some(("data"@, b1 + 8))) by {
        reveal_with_fuel(parse_string_rest, 6);
        assert(Seq::<char>::empty().push('d').push('a').push('t').push('a') =~= "data"@);
    }
    assert(parse_string(t, b1 + 2) == Some(("data"@, b1 + 8)));
    assert(skip_ws(t, b1 + 8) == b1 + 8);
    assert(expect(t, b1 + 8, ':') == Some(b1 + 9));
    // its value: the escaped data text
    assert(t.subrange(b1 + 10, b2 + 1) =~= e2 + seq!['"']) by {
        assert forall|k: int| 0 <= k < e2.len() + 1 implies t.subrange(b1 + 10, b2 + 1)[k] == (e2
            + seq!['"'])[k] by {
            if k < e2.len() {
                assert(t[b1 + 10 + k] == e2[k]);
            } else {
                assert(t[b1 + 10 + k] == l3[0]);
            }
        }
    }
    lemma_parse_escaped(t, b1 + 10, data, Seq::empty());
    assert(Seq::<char>::empty() + data =~= data);
    assert(skip_ws(t, b1 + 9) == b1 + 9);
    assert(expect(t, b1 + 9, '"') == Some(b1 + 10));
    assert(parse_string(t, b1 + 9) == Some((data, b2 + 1)));
    // the closing brace ends the object exactly at the end of the frame
    assert(skip_ws(t, b2 + 1) == b2 + 1);
    assert(expect(t, b2 + 1, '}') == Some(b2 + 2));
    assert(parse_sfields(t, 1) == Some((seq![("room"@, room), ("data"@, data)], b2 + 2)));
}

/// Decode one inbound client frame. Returns the request the frame means,
/// or, for a frame that is not one of the three documented shapes, the
/// error saying why — exactly as `spec_decode` lays down, so decoding
/// never panics and never mistakes a malformed frame for a valid request.
pub fn decode_client_request(s: &str) -> (r: Result<ClientRequest, ProtocolError>)
    ensures
        match spec_decode(s@) {
            Ok(v) => (r matches Ok(req) && req@ == v),
            Err(e) => (r matches Err(e2) && e2 == e),
        },
{
    let n = s.unicode_len();
    match expect_exec(s, 0, n, '{') {
        None => Err(ProtocolError::Malformed),
        Some(j) => match parse_tfields_exec(s, j, n) {
            None => Err(ProtocolError::Malformed),
            Some((ms, e)) => {
                let f = skip_ws_exec(s, e, n);
                if f < n {
                    Err(ProtocolError::Malformed)
                } else {
                    frame_request_exec(&ms)
                }
            },
        },
    }
}

} // verus!
