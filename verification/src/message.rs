//! A socket.io message: a namespace and a typed body, with the wire
//! packet grammar that carries them.
//!
//! A packet is `type-digit [count "-"] [namespace ","] [id] [json]`.
//! The decoder is one left-to-right pass with one character of
//! lookahead; the encoder reproduces exactly that field order. Both
//! are proved against spec functions over the character sequence.

use vstd::prelude::*;
use crate::error::SocketError;
use crate::json::Json;
use crate::json::JsonV;
use crate::jsontext::JOut;
use crate::jsontext::dec_digits;
use crate::jsontext::dec_val;
use crate::jsontext::digit_end;
use crate::jsontext::rt_ok;
use crate::jsontext::rt_ok_elems;
use crate::jsontext::lemma_char_at;
use crate::jsontext::lemma_subrange_piece;
use crate::jsontext::lemma_dec_digits_digits;
use crate::jsontext::lemma_digit_end_of_run;
use crate::jsontext::lemma_digits_value;
use crate::jsontext::lemma_jser_shape;
use crate::jsontext::lemma_doc_round_trip;
use crate::jsontext::jser_elems;
use crate::jsontext::is_digit_c;
use crate::jsontext::jparse_doc;
use crate::jsontext::jser;
use crate::jsontext::line_of;
use crate::jsontext::col_of;
use crate::jsontext::lemma_digit_end;
use crate::jsontext::parse_document;
use crate::jsontext::push_char;
use crate::jsontext::write_digits;
use crate::jsontext::write_escaped;
use crate::jsontext::write_json;
use crate::jsontext::digit_adv;
use crate::jsontext::digit_val;
use crate::jsontext::dval;
use crate::reconstruct::spec_reconstruct;
use crate::reconstruct::bytes_views;
use vstd::string::StrSliceExecFns;
use vstd::string::StringExecFns;

verus! {

broadcast use vstd::std_specs::vec::group_vec_axioms, vstd::seq::group_seq_axioms;

/// The body of a socket.io message, one variant per wire packet type
/// digit.
#[derive(Clone, Debug, PartialEq)]
pub enum Body {
    /// Sent to the server in order to connect to a new namespace.
    Connect,
    /// Sent to the server in order to disconnect from a namespace.
    Disconnect,
    /// An actual socket message / event.
    Event { data: Json, id: Option<i32>, name: String },
    /// Sent in response to an event to confirm its reception.
    Ack(i32),
    /// An error report.
    Error(Json),
    /// A socket message carrying binary data out of band.
    BinaryEvent { attachment_count: u32, data: Json, id: Option<i32>, name: String },
    /// An ack response for binary messages.
    BinaryAck(i32),
}

/// The mathematical model of a [`Body`].
pub enum BodyV {
    Connect,
    Disconnect,
    Event { data: JsonV, id: Option<i32>, name: Seq<char> },
    Ack(i32),
    Error(JsonV),
    BinaryEvent { attachment_count: u32, data: JsonV, id: Option<i32>, name: Seq<char> },
    BinaryAck(i32),
}

impl View for Body {
    type V = BodyV;

    open spec fn view(&self) -> BodyV {
        match self {
            Body::Connect => BodyV::Connect,
            Body::Disconnect => BodyV::Disconnect,
            Body::Event { data, id, name } => BodyV::Event {
                data: data@,
                id: *id,
                name: name@,
            },
            Body::Ack(id) => BodyV::Ack(*id),
            Body::Error(data) => BodyV::Error(data@),
            Body::BinaryEvent { attachment_count, data, id, name } => BodyV::BinaryEvent {
                attachment_count: *attachment_count,
                data: data@,
                id: *id,
                name: name@,
            },
            Body::BinaryAck(id) => BodyV::BinaryAck(*id),
        }
    }
}

/// A socket.io message.
#[derive(Clone, Debug, PartialEq)]
pub struct Message {
    body: Body,
    namespace: String,
}

/// The mathematical model of a [`Message`].
pub struct MessageV {
    pub body: BodyV,
    pub namespace: Seq<char>,
}

impl View for Message {
    type V = MessageV;

    closed spec fn view(&self) -> MessageV {
        MessageV { body: self.body@, namespace: self.namespace@ }
    }
}

impl MessageV {
    /// A namespace is well formed when it is non-empty and begins with
    /// `/`.
    pub open spec fn wf(self) -> bool {
        self.namespace.len() > 0 && self.namespace[0] == '/'
    }
}

/// The first position at or after `pos` where a comma stands; the end
/// of the text when none does.
pub open spec fn find_comma(s: Seq<char>, pos: int) -> int
    decreases s.len() - pos,
{
    if 0 <= pos < s.len() && s[pos] != ',' {
        find_comma(s, pos + 1)
    } else {
        pos
    }
}

/// `find_comma` never moves backwards, stops at a comma or the end,
/// and passes no comma on the way.
pub proof fn lemma_find_comma(s: Seq<char>, pos: int)
    requires
        0 <= pos <= s.len(),
    ensures
        pos <= find_comma(s, pos) <= s.len(),
        find_comma(s, pos) < s.len() ==> s[find_comma(s, pos)] == ',',
        forall|k: int| pos <= k < find_comma(s, pos) ==> s[k] != ',',
    decreases s.len() - pos,
{
    if pos < s.len() && s[pos] != ',' {
        lemma_find_comma(s, pos + 1);
    }
}

/// A value capped into the `usize` range.
pub open spec fn cap_usize(x: int) -> usize {
    if x > usize::MAX {
        usize::MAX
    } else if x < 0 {
        0
    } else {
        x as usize
    }
}

/// The name and data of an event payload: the payload must be a
/// non-empty array whose first element is a string; the second
/// element, if any, is the data, otherwise the data is null.
pub open spec fn spec_name_and_body(v: JsonV) -> Result<(Seq<char>, JsonV), SocketError> {
    match v {
        JsonV::Arr(vs) => if vs.len() == 0 {
            Err(SocketError::PayloadArrayEmpty)
        } else {
            match vs[0] {
                JsonV::Str(name) => Ok(
                    (name, if vs.len() > 1 {
                        vs[1]
                    } else {
                        JsonV::Null
                    }),
                ),
                _ => Err(SocketError::NameNotString),
            }
        },
        _ => Err(SocketError::PayloadNotArray),
    }
}

/// The largest attachment count a packet may declare.
pub open spec fn att_limit() -> int {
    0xffff_ffff
}

/// The largest acknowledgement id a packet may carry.
pub open spec fn id_limit() -> int {
    0x7fff_ffff
}

/// Decoding, from the namespace field on; `p` stands just after the
/// type digit and the attachment count. An explicit namespace must be
/// closed by a comma; reaching the end of the text before one is an
/// unexpected end of input.
#[verifier::opaque]
pub open spec fn spec_decode_nsp(w: Seq<char>, t: char, att: u32, p: int) -> Result<
    MessageV,
    SocketError,
> {
    if p < w.len() && w[p] == '/' {
        let c = find_comma(w, p);
        if c >= w.len() {
            Err(SocketError::UnexpectedEof)
        } else {
            let nsp = w.subrange(p, c);
            spec_decode_id(w, t, att, nsp, c + 1)
        }
    } else {
        spec_decode_id(w, t, att, seq!['/'], p)
    }
}

/// Decoding, from the acknowledgement id field on.
#[verifier::opaque]
pub open spec fn spec_decode_id(w: Seq<char>, t: char, att: u32, nsp: Seq<char>, p: int) -> Result<
    MessageV,
    SocketError,
> {
    if p < w.len() && is_digit_c(w[p]) {
        let d = digit_end(w, p);
        let m = dec_val(w, p, d);
        if m > id_limit() {
            Err(SocketError::AckIdOutOfRange)
        } else {
            spec_decode_payload(w, t, att, nsp, Some(m as i32), d)
        }
    } else if t == '3' || t == '6' {
        Err(SocketError::MissingAckId)
    } else {
        spec_decode_payload(w, t, att, nsp, None, p)
    }
}

/// Decoding, from the JSON payload on; everything after `p` belongs to
/// the payload of a packet of kind `2`, `4` or `5`, and the other
/// kinds carry none.
#[verifier::opaque]
pub open spec fn spec_decode_payload(
    w: Seq<char>,
    t: char,
    att: u32,
    nsp: Seq<char>,
    id: Option<i32>,
    p: int,
) -> Result<MessageV, SocketError> {
    if t == '2' || t == '4' || t == '5' {
        let rest = w.subrange(p, w.len() as int);
        if rest.len() == 0 {
            Err(SocketError::UnexpectedEof)
        } else {
            match jparse_doc(rest) {
                JOut::Fail { at } => Err(
                    SocketError::JsonSyntax {
                        line: cap_usize(line_of(rest, at)),
                        col: cap_usize(col_of(rest, at)),
                    },
                ),
                JOut::Val { v, end } => {
                    if t == '4' {
                        Ok(MessageV { body: BodyV::Error(v), namespace: nsp })
                    } else {
                        match spec_name_and_body(v) {
                            Err(e) => Err(e),
                            Ok((name, data)) => Ok(
                                MessageV {
                                    body: if t == '2' {
                                        BodyV::Event { data, id, name }
                                    } else {
                                        BodyV::BinaryEvent { attachment_count: att, data, id, name }
                                    },
                                    namespace: nsp,
                                },
                            ),
                        }
                    }
                },
            }
        }
    } else if t == '0' {
        Ok(MessageV { body: BodyV::Connect, namespace: nsp })
    } else if t == '1' {
        Ok(MessageV { body: BodyV::Disconnect, namespace: nsp })
    } else if t == '3' {
        Ok(MessageV { body: BodyV::Ack(id->0), namespace: nsp })
    } else {
        Ok(MessageV { body: BodyV::BinaryAck(id->0), namespace: nsp })
    }
}

/// What decoding a whole packet text yields.
#[verifier::opaque]
pub open spec fn spec_decode(w: Seq<char>) -> Result<MessageV, SocketError> {
    if w.len() == 0 {
        Err(SocketError::UnexpectedEof)
    } else {
        let t = w[0];
        if !('0' <= t && t <= '6') {
            Err(SocketError::MalformedType(t))
        } else if t == '5' || t == '6' {
            let d = digit_end(w, 1);
            if d == 1 || d >= w.len() || w[d] != '-' {
                Err(SocketError::InvalidAttachmentCount)
            } else if dec_val(w, 1, d) > att_limit() {
                Err(SocketError::InvalidAttachmentCount)
            } else {
                spec_decode_nsp(w, t, dec_val(w, 1, d) as u32, d + 1)
            }
        } else {
            spec_decode_nsp(w, t, 0, 1)
        }
    }
}

/// The wire digit of a body's packet kind.
pub open spec fn type_digit(b: BodyV) -> char {
    match b {
        BodyV::Connect => '0',
        BodyV::Disconnect => '1',
        BodyV::Event { .. } => '2',
        BodyV::Ack(_) => '3',
        BodyV::Error(_) => '4',
        BodyV::BinaryEvent { .. } => '5',
        BodyV::BinaryAck(_) => '6',
    }
}

/// The attachment-count field of the encoded form: only the
/// binary-carrying kinds have one, and an ack declares none.
pub open spec fn att_part(b: BodyV) -> Seq<char> {
    match b {
        BodyV::BinaryEvent { attachment_count, .. } => dec_digits(attachment_count as int) + seq![
            '-',
        ],
        BodyV::BinaryAck(_) => seq!['0', '-'],
        _ => Seq::empty(),
    }
}

/// The namespace field of the encoded form: omitted for the default
/// namespace, else the namespace and a comma.
pub open spec fn nsp_part(n: Seq<char>) -> Seq<char> {
    if n == seq!['/'] {
        Seq::empty()
    } else {
        n + seq![',']
    }
}

/// The digits of an acknowledgement id.
pub open spec fn int_digits(i: int) -> Seq<char> {
    if i < 0 {
        seq!['-'] + dec_digits(-i)
    } else {
        dec_digits(i)
    }
}

/// The id field of the encoded form.
pub open spec fn id_part(b: BodyV) -> Seq<char> {
    match b {
        BodyV::Event { id: Some(i), .. } => int_digits(i as int),
        BodyV::BinaryEvent { id: Some(i), .. } => int_digits(i as int),
        BodyV::Ack(i) => int_digits(i as int),
        BodyV::BinaryAck(i) => int_digits(i as int),
        _ => Seq::empty(),
    }
}

/// The JSON payload of the encoded form: an event is an array of its
/// name and, unless null, its data; an error is its data alone.
pub open spec fn payload_part(b: BodyV) -> Seq<char> {
    match b {
        BodyV::Event { data, name, .. } => seq!['['] + jser(JsonV::Str(name)) + (if data
            == JsonV::Null {
            Seq::<char>::empty()
        } else {
            seq![','] + jser(data)
        }) + seq![']'],
        BodyV::BinaryEvent { data, name, .. } => seq!['['] + jser(JsonV::Str(name)) + (if data
            == JsonV::Null {
            Seq::<char>::empty()
        } else {
            seq![','] + jser(data)
        }) + seq![']'],
        BodyV::Error(data) => jser(data),
        _ => Seq::empty(),
    }
}

/// The encoded wire text of a message: the type digit, then each
/// field the body carries, in grammar order.
pub open spec fn spec_encode(m: MessageV) -> Seq<char> {
    seq![type_digit(m.body)] + att_part(m.body) + nsp_part(m.namespace) + id_part(m.body)
        + payload_part(m.body)
}

impl Message {
    /// Constructs a new `Message` from a namespace and a body.
    ///
    /// The namespace must begin with `/`; any other value is a caller
    /// error.
    pub fn new(nsp: &str, body: Body) -> (r: Self)
        requires
            nsp@.len() > 0 && nsp@[0] == '/',
        ensures
            r@.namespace == nsp@,
            r@.body == body@,
            r@.wf(),
    {
        Message::_new(nsp.to_owned(), body)
    }

    /// Constructs a new `Message` with the default namespace `/`.
    pub fn with_default_namespace(body: Body) -> (r: Self)
        ensures
            r@.namespace == seq!['/'],
            r@.body == body@,
            r@.wf(),
    {
        proof {
            reveal_strlit("/");
        }
        let m = Message::new("/", body);
        proof {
            assert(m@.namespace =~= seq!['/']);
        }
        m
    }

    fn _new(nsp: String, body: Body) -> (r: Self)
        requires
            nsp@.len() > 0 && nsp@[0] == '/',
        ensures
            r@.namespace == nsp@,
            r@.body == body@,
    {
        Message { body, namespace: nsp }
    }

    /// Gets the message's body.
    pub fn body(&self) -> (r: &Body)
        ensures
            r@ == self@.body,
    {
        &self.body
    }

    /// Gets the message's namespace.
    pub fn namespace(&self) -> (r: &str)
        ensures
            r@ == self@.namespace,
    {
        self.namespace.as_str()
    }

    /// Reattaches detached binary data that is sent after the packet.
    ///
    /// Does nothing unless the body is a `BinaryEvent`. The declared
    /// attachment count must cover every buffer supplied: falling
    /// short of that is a fault in the caller, not in the wire data.
    /// Traverses the JSON tree to a depth of 512.
    pub fn reconstruct(&mut self, attachments: &Vec<Vec<u8>>) -> (r: Result<(), SocketError>)
        requires
            old(self)@.body matches BodyV::BinaryEvent { attachment_count, .. }
                ==> attachments@.len() <= attachment_count,
        ensures
            final(self)@.namespace == old(self)@.namespace,
            !(old(self)@.body matches BodyV::BinaryEvent { .. }) ==> ((r matches Ok(_))
                && final(self)@ == old(self)@),
            (old(self)@.body matches BodyV::BinaryEvent { attachment_count, data, id, name })
                ==> match r {
                Ok(_) => spec_reconstruct(
                    old(self)@.body->BinaryEvent_data,
                    bytes_views(attachments@),
                    512,
                    0,
                ) matches Ok(d2) && final(self)@.body == (BodyV::BinaryEvent {
                    attachment_count: old(self)@.body->BinaryEvent_attachment_count,
                    data: d2,
                    id: old(self)@.body->BinaryEvent_id,
                    name: old(self)@.body->BinaryEvent_name,
                }),
                Err(e) => spec_reconstruct(
                    old(self)@.body->BinaryEvent_data,
                    bytes_views(attachments@),
                    512,
                    0,
                ) == Err::<JsonV, SocketError>(e) && final(self)@ == old(self)@,
            },
    {
        let mut body = Body::Connect;
        core::mem::swap(&mut body, &mut self.body);
        match body {
            Body::BinaryEvent { attachment_count, data, id, name } => {
                let mut data = data;
                match crate::reconstruct::reconstruct(&mut data, attachments, 512) {
                    Ok(_) => {
                        self.body = Body::BinaryEvent { attachment_count, data, id, name };
                        Ok(())
                    },
                    Err(e) => {
                        self.body = Body::BinaryEvent { attachment_count, data, id, name };
                        Err(e)
                    },
                }
            },
            other => {
                self.body = other;
                Ok(())
            },
        }
    }

    /// Parses a `Message` from one packet's wire text.
    pub fn decode(s: &str) -> (r: Result<Message, SocketError>)
        ensures
            match r {
                Ok(m) => spec_decode(s@) == Ok::<MessageV, SocketError>(m@) && m@.wf(),
                Err(e) => spec_decode(s@) == Err::<MessageV, SocketError>(e),
            },
    {
        proof {
            reveal(spec_decode);
            reveal(spec_decode_nsp);
            reveal(spec_decode_id);
            reveal(spec_decode_payload);
        }
        let n = s.unicode_len();
        if n == 0 {
            return Err(SocketError::UnexpectedEof);
        }
        let t = s.get_char(0);
        if !(t >= '0' && t <= '6') {
            return Err(SocketError::MalformedType(t));
        }
        let att: u32;
        let mut p: usize;
        if t == '5' || t == '6' {
            let d = digit_adv(s, 1);
            if d == 1 || d >= n || s.get_char(d) != '-' {
                return Err(SocketError::InvalidAttachmentCount);
            }
            match run_value(s, 1, d, 0xffff_ffffu64) {
                None => {
                    return Err(SocketError::InvalidAttachmentCount);
                },
                Some(v) => {
                    att = v as u32;
                    p = d + 1;
                },
            }
        } else {
            att = 0;
            p = 1;
        }
        let nsp: String;
        if p < n && s.get_char(p) == '/' {
            let c = comma_adv(s, p);
            if c >= n {
                return Err(SocketError::UnexpectedEof);
            }
            proof {
                assert(find_comma(s@, p as int) == find_comma(s@, p as int + 1));
                lemma_find_comma(s@, p as int + 1);
            }
            nsp = s.substring_char(p, c).to_owned();
            p = c + 1;
        } else {
            proof {
                reveal_strlit("/");
            }
            nsp = "/".to_owned();
            proof {
                assert(nsp@ =~= seq!['/']);
            }
        }
        let mut has_digit = false;
        if p < n {
            let ch = s.get_char(p);
            if ch >= '0' && ch <= '9' {
                has_digit = true;
            }
        }
        let id: Option<i32>;
        if has_digit {
            let d2 = digit_adv(s, p);
            match run_value(s, p, d2, 0x7fff_ffffu64) {
                None => {
                    return Err(SocketError::AckIdOutOfRange);
                },
                Some(v) => {
                    id = Some(v as i32);
                    p = d2;
                },
            }
        } else if t == '3' || t == '6' {
            return Err(SocketError::MissingAckId);
        } else {
            id = None;
        }
        if t == '2' || t == '4' || t == '5' {
            let rest = s.substring_char(p, n);
            if rest.unicode_len() == 0 {
                return Err(SocketError::UnexpectedEof);
            }
            match parse_document(rest) {
                Err(at) => {
                    let lc = line_col(rest, at);
                    return Err(SocketError::JsonSyntax { line: lc.0, col: lc.1 });
                },
                Ok(json) => {
                    if t == '4' {
                        return Ok(Message { body: Body::Error(json), namespace: nsp });
                    }
                    match get_name_and_body(json) {
                        Err(e) => {
                            return Err(e);
                        },
                        Ok((name, data)) => {
                            let body = if t == '2' {
                                Body::Event { data, id, name }
                            } else {
                                Body::BinaryEvent { attachment_count: att, data, id, name }
                            };
                            return Ok(Message { body, namespace: nsp });
                        },
                    }
                },
            }
        }
        let body = if t == '0' {
            Body::Connect
        } else if t == '1' {
            Body::Disconnect
        } else {
            match id {
                Some(i) => if t == '3' {
                    Body::Ack(i)
                } else {
                    Body::BinaryAck(i)
                },
                None => {
                    proof {
                        assert(false);
                    }
                    Body::Connect
                },
            }
        };
        Ok(Message { body, namespace: nsp })
    }

    /// Encodes the message back to one packet's wire text: the type
    /// digit, then each field the body carries, in grammar order.
    pub fn encode(&self) -> (r: String)
        ensures
            r@ == spec_encode(self@),
    {
        let mut out = String::new();
        let d = match &self.body {
            Body::Connect => '0',
            Body::Disconnect => '1',
            Body::Event { .. } => '2',
            Body::Ack(_) => '3',
            Body::Error(_) => '4',
            Body::BinaryEvent { .. } => '5',
            Body::BinaryAck(_) => '6',
        };
        push_char(&mut out, d);
        match &self.body {
            Body::BinaryEvent { attachment_count, .. } => {
                write_digits(*attachment_count as u64, &mut out);
                push_char(&mut out, '-');
            },
            Body::BinaryAck(_) => {
                push_char(&mut out, '0');
                push_char(&mut out, '-');
            },
            _ => {},
        }
        proof {
            assert(out@ =~= seq![type_digit(self@.body)] + att_part(self@.body));
        }
        let ghost o1 = out@;
        let nsp_is_default = self.namespace.as_str().unicode_len() == 1
            && self.namespace.as_str().get_char(0) == '/';
        if !nsp_is_default {
            out.append(self.namespace.as_str());
            push_char(&mut out, ',');
        }
        proof {
            if nsp_is_default {
                assert(self@.namespace =~= seq!['/']);
            }
            if self@.namespace == seq!['/'] {
                assert(nsp_is_default);
            }
            assert(out@ =~= o1 + nsp_part(self@.namespace));
        }
        let ghost o2 = out@;
        match &self.body {
            Body::Event { id: Some(i), .. } => write_id(*i, &mut out),
            Body::BinaryEvent { id: Some(i), .. } => write_id(*i, &mut out),
            Body::Ack(i) => write_id(*i, &mut out),
            Body::BinaryAck(i) => write_id(*i, &mut out),
            _ => {},
        }
        proof {
            assert(out@ =~= o2 + id_part(self@.body));
        }
        let ghost o3 = out@;
        match &self.body {
            Body::Event { data, name, .. } => {
                write_event_payload(name, data, &mut out);
            },
            Body::BinaryEvent { data, name, .. } => {
                write_event_payload(name, data, &mut out);
            },
            Body::Error(data) => {
                write_json(data, &mut out);
            },
            _ => {},
        }
        proof {
            assert(out@ =~= o3 + payload_part(self@.body));
            assert(out@ =~= spec_encode(self@));
        }
        out
    }
}

impl core::str::FromStr for Message {
    type Err = SocketError;

    fn from_str(s: &str) -> Result<Message, SocketError> {
        Message::decode(s)
    }
}

/// Moves the cursor to the next comma, or to the end of the text.
fn comma_adv(s: &str, pos: usize) -> (r: usize)
    requires
        pos <= s@.len(),
    ensures
        r as int == find_comma(s@, pos as int),
        pos <= r <= s@.len(),
{
    let mut i: usize = pos;
    loop
        invariant
            pos <= i <= s@.len(),
            find_comma(s@, pos as int) == find_comma(s@, i as int),
        ensures
            pos <= i <= s@.len(),
            find_comma(s@, pos as int) == find_comma(s@, i as int),
            i >= s@.len() || s@[i as int] == ',',
        decreases s@.len() - i,
    {
        if i >= s.unicode_len() {
            break;
        }
        if s.get_char(i) == ',' {
            break;
        }
        i = i + 1;
    }
    i
}

/// The value of the digit run `s[a..b]`, unless it passes `limit`.
fn run_value(s: &str, a: usize, b: usize, limit: u64) -> (r: Option<u64>)
    requires
        a <= b <= s@.len(),
        b as int == digit_end(s@, a as int),
    ensures
        match r {
            Some(v) => v as int == dec_val(s@, a as int, b as int) && v <= limit,
            None => dec_val(s@, a as int, b as int) > limit,
        },
{
    proof {
        lemma_digit_end(s@, a as int);
    }
    let mut acc: u64 = 0;
    let mut i = a;
    while i < b
        invariant
            a <= i <= b <= s@.len(),
            forall|k: int| a <= k < b ==> is_digit_c(#[trigger] s@[k]),
            acc as int == dec_val(s@, a as int, i as int),
            acc <= limit,
        decreases b - i,
    {
        let c = s.get_char(i);
        let dv = digit_val(c);
        let du = dv as u64;
        proof {
            assert(s@[i as int] == c);
            assert(0 <= dval(c) <= 9);
            assert(limit / 10 * 10 + limit % 10 == limit);
            assert(dec_val(s@, a as int, i as int + 1) == acc * 10 + dval(c));
        }
        if acc > limit / 10 || (acc == limit / 10 && du > limit % 10) {
            proof {
                assert(acc * 10 + dval(c) > limit);
                crate::jsontext::lemma_dec_val_grows(s@, a as int, i as int + 1, b as int);
            }
            return None;
        }
        proof {
            assert(acc * 10 + dval(c) <= limit);
        }
        acc = acc * 10 + du;
        i = i + 1;
    }
    Some(acc)
}

/// Both coordinates of a position are at least one.
proof fn lemma_line_col_pos(s: Seq<char>, pos: int)
    ensures
        1 <= line_of(s, pos),
        1 <= col_of(s, pos),
    decreases pos,
{
    if pos > 0 {
        lemma_line_col_pos(s, pos - 1);
    }
}

/// The line and column, both counted from one and capped at the
/// machine's limit, of position `at` of `s`.
fn line_col(s: &str, at: usize) -> (r: (usize, usize))
    requires
        at <= s@.len(),
    ensures
        r.0 == cap_usize(line_of(s@, at as int)),
        r.1 == cap_usize(col_of(s@, at as int)),
{
    let mut line: usize = 1;
    let mut col: usize = 1;
    let mut i: usize = 0;
    proof {
        lemma_line_col_pos(s@, 0);
    }
    while i < at
        invariant
            i <= at <= s@.len(),
            line == cap_usize(line_of(s@, i as int)),
            col == cap_usize(col_of(s@, i as int)),
        decreases at - i,
    {
        proof {
            lemma_line_col_pos(s@, i as int);
            lemma_line_col_pos(s@, i as int + 1);
        }
        if s.get_char(i) == '\n' {
            if line < usize::MAX {
                line = line + 1;
            }
            col = 1;
        } else {
            if col < usize::MAX {
                col = col + 1;
            }
        }
        i = i + 1;
    }
    (line, col)
}

/// The digits of one acknowledgement id, with its sign.
fn write_id(i: i32, out: &mut String)
    ensures
        final(out)@ == old(out)@ + int_digits(i as int),
{
    if i < 0 {
        push_char(out, '-');
    }
    let mag: u64 = if i >= 0 {
        i as u64
    } else {
        ((-(i + 1)) as u64) + 1
    };
    write_digits(mag, out);
    proof {
        assert(out@ =~= old(out)@ + int_digits(i as int));
    }
}

/// The payload of an event: an array of its name and, unless null,
/// its data.
fn write_event_payload(name: &String, data: &Json, out: &mut String)
    ensures
        final(out)@ == old(out)@ + (seq!['['] + jser(JsonV::Str(name@)) + (if data@ == JsonV::Null {
            Seq::<char>::empty()
        } else {
            seq![','] + jser(data@)
        }) + seq![']']),
{
    push_char(out, '[');
    push_char(out, '"');
    write_escaped(name.as_str(), 0, out);
    push_char(out, '"');
    let is_null = matches!(data, Json::Null);
    proof {
        assert(is_null == (data@ == JsonV::Null));
    }
    if !is_null {
        push_char(out, ',');
        write_json(data, out);
    }
    push_char(out, ']');
    proof {
        assert(out@ =~= old(out)@ + (seq!['['] + jser(JsonV::Str(name@)) + (if data@
            == JsonV::Null {
            Seq::<char>::empty()
        } else {
            seq![','] + jser(data@)
        }) + seq![']']));
    }
}

/// Decoding the empty input is refused: the packet type cannot be
/// read past the end of the text.
pub proof fn lemma_empty_input()
    ensures
        spec_decode(Seq::empty()) == Err::<MessageV, SocketError>(SocketError::UnexpectedEof),
{
    reveal(spec_decode);
}

/// A first character outside the packet kinds `0` through `6` is
/// refused, and the error carries the offending character.
pub proof fn lemma_illegal_type(w: Seq<char>)
    requires
        w.len() > 0,
        !('0' <= w[0] && w[0] <= '6'),
    ensures
        spec_decode(w) == Err::<MessageV, SocketError>(SocketError::MalformedType(w[0])),
{
    reveal(spec_decode);
}

/// A binary-carrying packet whose attachment-count field is missing or
/// malformed — no digits, no dash after them, or a count out of
/// range — is refused.
pub proof fn lemma_attachment_count_gate(w: Seq<char>)
    requires
        w.len() > 0,
        w[0] == '5' || w[0] == '6',
        ({
            let d = digit_end(w, 1);
            d == 1 || d >= w.len() || w[d] != '-' || dec_val(w, 1, d) > att_limit()
        }),
    ensures
        spec_decode(w) == Err::<MessageV, SocketError>(SocketError::InvalidAttachmentCount),
{
    reveal(spec_decode);
}

/// A packet whose text holds no slash decodes to the default
/// namespace `/`.
pub proof fn lemma_namespace_default(w: Seq<char>, m: MessageV)
    requires
        spec_decode(w) == Ok::<MessageV, SocketError>(m),
        forall|k: int| 0 <= k < w.len() ==> w[k] != '/',
    ensures
        m.namespace == seq!['/'],
{
    reveal(spec_decode);
    reveal(spec_decode_nsp);
    reveal(spec_decode_id);
    reveal(spec_decode_payload);
    if w.len() > 0 && (w[0] == '5' || w[0] == '6') {
        lemma_digit_end(w, 1);
    }
}

/// An ack packet whose id field holds no digit is refused with the
/// missing-ack-id error, whatever came before the field.
pub proof fn lemma_ack_requires_id(w: Seq<char>, t: char, att: u32, nsp: Seq<char>, p: int)
    requires
        t == '3' || t == '6',
        !(p < w.len() && is_digit_c(w[p])),
    ensures
        spec_decode_id(w, t, att, nsp, p) == Err::<MessageV, SocketError>(
            SocketError::MissingAckId,
        ),
{
    reveal(spec_decode_id);
}

/// A plain ack packet with no digits after the type digit is refused
/// with the missing-ack-id error, whether or not it names a
/// namespace (a named one must be closed by its comma).
pub proof fn lemma_missing_ack_id(w: Seq<char>)
    requires
        w.len() > 0,
        w[0] == '3',
        forall|k: int| 1 <= k < w.len() ==> !is_digit_c(#[trigger] w[k]),
        1 < w.len() && w[1] == '/' ==> find_comma(w, 1) < w.len(),
    ensures
        spec_decode(w) == Err::<MessageV, SocketError>(SocketError::MissingAckId),
{
    reveal(spec_decode);
    reveal(spec_decode_nsp);
    reveal(spec_decode_id);
    if 1 < w.len() && w[1] == '/' {
        lemma_find_comma(w, 1);
    }
}

/// An event packet tolerates an empty id field: if it decodes at all,
/// its id is absent.
pub proof fn lemma_event_id_optional(w: Seq<char>, t: char, att: u32, nsp: Seq<char>, p: int, m: MessageV)
    requires
        t == '2' || t == '5',
        !(p < w.len() && is_digit_c(w[p])),
        spec_decode_id(w, t, att, nsp, p) == Ok::<MessageV, SocketError>(m),
    ensures
        m.body matches BodyV::Event { id, .. } ==> id is None,
        m.body matches BodyV::BinaryEvent { id, .. } ==> id is None,
{
    reveal(spec_decode_id);
    reveal(spec_decode_payload);
}

/// The text up to the first comma, when no comma stands in it and one
/// follows, is exactly what `find_comma` passes over.
pub proof fn lemma_find_comma_of_run(s: Seq<char>, pos: int, e: int)
    requires
        0 <= pos <= e <= s.len(),
        forall|k: int| pos <= k < e ==> s[k] != ',',
        e < s.len() ==> s[e] == ',',
    ensures
        find_comma(s, pos) == e,
    decreases e - pos,
{
    if pos < e {
        lemma_find_comma_of_run(s, pos + 1, e);
    }
}

/// The five fields of an encoded packet stand at their own offsets.
proof fn lemma_cat5(w: Seq<char>, a: Seq<char>, b: Seq<char>, c: Seq<char>, d: Seq<char>, e: Seq<char>)
    requires
        w == a + b + c + d + e,
    ensures
        w.len() == a.len() + b.len() + c.len() + d.len() + e.len(),
        w.subrange(0, a.len() as int) =~= a,
        w.subrange(a.len() as int, (a.len() + b.len()) as int) =~= b,
        w.subrange((a.len() + b.len()) as int, (a.len() + b.len() + c.len()) as int) =~= c,
        w.subrange(
            (a.len() + b.len() + c.len()) as int,
            (a.len() + b.len() + c.len() + d.len()) as int,
        ) =~= d,
        w.subrange((a.len() + b.len() + c.len() + d.len()) as int, w.len() as int) =~= e,
{
}

/// A body every field of which the wire can carry and give back: ids
/// are non-negative (the grammar writes digits alone), payloads can
/// round-trip as JSON, and an error payload is not a non-negative
/// number (its digits would read back as an ack id).
pub open spec fn rt_body_ok(b: BodyV) -> bool {
    match b {
        BodyV::Connect => true,
        BodyV::Disconnect => true,
        BodyV::Event { data, id, .. } => (id matches Some(i) ==> i >= 0) && rt_ok(data),
        BodyV::Ack(i) => i >= 0,
        BodyV::Error(data) => rt_ok(data) && (data matches JsonV::Num(n) ==> n < 0),
        BodyV::BinaryEvent { data, id, .. } => (id matches Some(i) ==> i >= 0) && rt_ok(data),
        BodyV::BinaryAck(i) => i >= 0,
    }
}

/// Law: decoding an encoded message yields the message back, for
/// every well-formed message whose namespace holds no comma and whose
/// body the wire can carry.
/// The attachment count a body declares on the wire: a binary event's
/// own count, and zero for a binary ack.
pub open spec fn rt_att(b: BodyV) -> u32 {
    match b {
        BodyV::BinaryEvent { attachment_count, .. } => attachment_count,
        _ => 0u32,
    }
}

/// The acknowledgement id a body writes on the wire, if any.
pub open spec fn rt_idv(b: BodyV) -> Option<i32> {
    match b {
        BodyV::Event { id, .. } => id,
        BodyV::BinaryEvent { id, .. } => id,
        BodyV::Ack(i) => Some(i),
        BodyV::BinaryAck(i) => Some(i),
        _ => None,
    }
}

/// The JSON document a body writes on the wire, if any: an event's
/// name-and-data array, or an error's data.
pub open spec fn rt_pv(b: BodyV) -> Option<JsonV> {
    match b {
        BodyV::Event { data, name, .. } => Some(
            JsonV::Arr(
                if data == JsonV::Null {
                    seq![JsonV::Str(name)]
                } else {
                    seq![JsonV::Str(name), data]
                },
            ),
        ),
        BodyV::BinaryEvent { data, name, .. } => Some(
            JsonV::Arr(
                if data == JsonV::Null {
                    seq![JsonV::Str(name)]
                } else {
                    seq![JsonV::Str(name), data]
                },
            ),
        ),
        BodyV::Error(data) => Some(data),
        _ => None,
    }
}

/// The offset of the namespace field in the encoded text.
pub open spec fn rt_o2(m: MessageV) -> int {
    1 + att_part(m.body).len() as int
}

/// The offset of the id field in the encoded text.
pub open spec fn rt_o3(m: MessageV) -> int {
    rt_o2(m) + nsp_part(m.namespace).len() as int
}

/// The offset of the payload field in the encoded text.
pub open spec fn rt_o4(m: MessageV) -> int {
    rt_o3(m) + id_part(m.body).len() as int
}

/// The id field is the digits of a non-negative id, and the payload
/// field is one serialized round-trip-ready document.
#[verifier::rlimit(100)]
proof fn lemma_rt_fields(m: MessageV)
    requires
        rt_body_ok(m.body),
    ensures
        rt_idv(m.body) matches Some(i) ==> i >= 0 && id_part(m.body) == dec_digits(i as int),
        rt_idv(m.body) is None ==> id_part(m.body).len() == 0,
        rt_pv(m.body) matches Some(pj) ==> payload_part(m.body) == jser(pj) && rt_ok(pj)
            && (is_digit_c(jser(pj)[0]) ==> false) && jser(pj)[0] != '/',
        rt_pv(m.body) is None ==> payload_part(m.body).len() == 0,
{
    match rt_idv(m.body) {
        Some(i) => {
            assert(int_digits(i as int) == dec_digits(i as int));
        },
        None => {},
    }
    match rt_pv(m.body) {
        Some(pj) => {
            match m.body {
                BodyV::Event { data, name, .. } => {
                    lemma_rt_event_payload(m, data, name);
                },
                BodyV::BinaryEvent { data, name, .. } => {
                    lemma_rt_event_payload(m, data, name);
                },
                _ => {},
            }
            lemma_jser_shape(pj);
            match pj {
                JsonV::Num(n) => {
                    assert(n < 0);
                    lemma_dec_digits_digits(-n);
                    assert(jser(pj)[0] == '-');
                },
                _ => {},
            }
        },
        None => {},
    }
}

/// An event's payload field is the serialized form of its
/// name-and-data array, and that array can round-trip.
proof fn lemma_rt_event_payload(m: MessageV, data: JsonV, name: Seq<char>)
    requires
        rt_body_ok(m.body),
        m.body == (BodyV::Event {
            data,
            id: rt_idv(m.body),
            name,
        }) || m.body == (BodyV::BinaryEvent {
            attachment_count: rt_att(m.body),
            data,
            id: rt_idv(m.body),
            name,
        }),
    ensures
        rt_pv(m.body) matches Some(pj) && payload_part(m.body) == jser(pj) && rt_ok(pj),
{
    let els = if data == JsonV::Null {
        seq![JsonV::Str(name)]
    } else {
        seq![JsonV::Str(name), data]
    };
    let pj = JsonV::Arr(els);
    assert(rt_pv(m.body) == Some(pj));
    assert(els[0] == JsonV::Str(name));
    assert(rt_ok(JsonV::Str(name)));
    if data == JsonV::Null {
        assert(els.len() == 1);
        assert(rt_ok_elems(els, 1));
    } else {
        assert(els.len() == 2 && els[1] == data);
        assert(rt_ok(data));
        assert(jser_elems(els, 1) == jser(els[1]));
        assert(rt_ok_elems(els, 2));
        assert(rt_ok_elems(els, 1));
    }
    assert(rt_ok_elems(els, 0));
    assert(rt_ok(pj));
    assert(jser_elems(els, 0) =~= (if els.len() == 1 {
        jser(els[0])
    } else {
        jser(els[0]) + seq![','] + jser(els[1])
    }));
    assert(payload_part(m.body) =~= jser(pj));
}

/// Decoding an encoded packet reads its type digit and, for the
/// binary kinds, its attachment count.
#[verifier::rlimit(100)]
proof fn lemma_rt_att_stage(m: MessageV)
    requires
        rt_body_ok(m.body),
    ensures
        spec_decode(spec_encode(m)) == spec_decode_nsp(
            spec_encode(m),
            type_digit(m.body),
            rt_att(m.body),
            rt_o2(m),
        ),
{
    reveal(spec_decode);
    let td = type_digit(m.body);
    let ap = att_part(m.body);
    let att = rt_att(m.body);
    let w = spec_encode(m);
    lemma_cat5(w, seq![td], ap, nsp_part(m.namespace), id_part(m.body), payload_part(m.body));
    assert(w[0] == td) by {
        assert(w.subrange(0, 1)[0] == w[0]);
    }
    if td == '5' || td == '6' {
        assert(dec_digits(0) =~= seq!['0']);
        assert(ap =~= dec_digits(att as int) + seq!['-']);
        lemma_dec_digits_digits(att as int);
        let ddl = dec_digits(att as int).len() as int;
        assert forall|k: int| 1 <= k < 1 + ddl implies is_digit_c(#[trigger] w[k]) by {
            lemma_char_at(w, 1, ap.len() as int, ap, k - 1);
            assert(ap[k - 1] == dec_digits(att as int)[k - 1]);
        }
        lemma_char_at(w, 1, ap.len() as int, ap, ddl);
        assert(w[1 + ddl] == '-');
        lemma_digit_end_of_run(w, 1, 1 + ddl);
        lemma_subrange_piece(w, 1, ap.len() as int, 0, ddl, ap);
        assert(ap.subrange(0, ddl) =~= dec_digits(att as int));
        lemma_digits_value(w, 1, att as int);
    } else {
        assert(ap.len() == 0);
    }
}

/// Decoding an encoded packet reads back exactly the message's
/// namespace, or defaults when the field is omitted.
#[verifier::rlimit(100)]
proof fn lemma_rt_nsp_stage(m: MessageV)
    requires
        m.wf(),
        forall|k: int| 0 <= k < m.namespace.len() ==> m.namespace[k] != ',',
        rt_body_ok(m.body),
    ensures
        spec_decode_nsp(spec_encode(m), type_digit(m.body), rt_att(m.body), rt_o2(m))
            == spec_decode_id(
            spec_encode(m),
            type_digit(m.body),
            rt_att(m.body),
            m.namespace,
            rt_o3(m),
        ),
{
    let td = type_digit(m.body);
    let ap = att_part(m.body);
    let np = nsp_part(m.namespace);
    let ip = id_part(m.body);
    let pp = payload_part(m.body);
    let w = spec_encode(m);
    reveal(spec_decode_nsp);
    lemma_cat5(w, seq![td], ap, np, ip, pp);
    lemma_rt_fields(m);
    let o2 = rt_o2(m);
    let o4 = rt_o4(m);
    let l = w.len() as int;
    if m.namespace == seq!['/'] {
        assert(np.len() == 0);
        if o2 < l {
            if ip.len() > 0 {
                lemma_char_at(w, o2, ip.len() as int, ip, 0);
                match rt_idv(m.body) {
                    Some(i) => {
                        lemma_dec_digits_digits(i as int);
                        assert(w[o2] == dec_digits(i as int)[0]);
                    },
                    None => {
                        assert(false);
                    },
                }
            } else {
                assert(o2 == o4);
                lemma_char_at(w, o4, pp.len() as int, pp, 0);
            }
            assert(w[o2] != '/');
        }
    } else {
        let nl = m.namespace.len() as int;
        assert(np == m.namespace + seq![',']);
        lemma_char_at(w, o2, np.len() as int, np, 0);
        assert(w[o2] == m.namespace[0]);
        assert forall|k: int| o2 <= k < o2 + nl implies w[k] != ',' by {
            lemma_char_at(w, o2, np.len() as int, np, k - o2);
            assert(np[k - o2] == m.namespace[k - o2]);
        }
        lemma_char_at(w, o2, np.len() as int, np, nl);
        assert(w[o2 + nl] == ',');
        lemma_find_comma_of_run(w, o2, o2 + nl);
        lemma_subrange_piece(w, o2, np.len() as int, 0, nl, np);
        assert(np.subrange(0, nl) =~= m.namespace);
        assert(w.subrange(o2, o2 + nl) =~= m.namespace);
    }
}

/// Decoding an encoded packet reads back exactly the message's id
/// field.
#[verifier::rlimit(100)]
proof fn lemma_rt_id_stage(m: MessageV)
    requires
        rt_body_ok(m.body),
    ensures
        spec_decode_id(spec_encode(m), type_digit(m.body), rt_att(m.body), m.namespace, rt_o3(m))
            == spec_decode_payload(
            spec_encode(m),
            type_digit(m.body),
            rt_att(m.body),
            m.namespace,
            rt_idv(m.body),
            rt_o4(m),
        ),
{
    let td = type_digit(m.body);
    let ap = att_part(m.body);
    let np = nsp_part(m.namespace);
    let ip = id_part(m.body);
    let pp = payload_part(m.body);
    let w = spec_encode(m);
    reveal(spec_decode_id);
    lemma_cat5(w, seq![td], ap, np, ip, pp);
    lemma_rt_fields(m);
    let o3 = rt_o3(m);
    let o4 = rt_o4(m);
    let l = w.len() as int;
    assert(o4 < l ==> (rt_pv(m.body) matches Some(pj) && w[o4] == jser(pj)[0] && !is_digit_c(
        w[o4],
    ))) by {
        if o4 < l {
            match rt_pv(m.body) {
                Some(pj) => {
                    lemma_char_at(w, o4, pp.len() as int, pp, 0);
                },
                None => {
                    assert(false);
                },
            }
        }
    }
    match rt_idv(m.body) {
        Some(i) => {
            let il = ip.len() as int;
            lemma_dec_digits_digits(i as int);
            assert forall|k: int| o3 <= k < o3 + il implies is_digit_c(#[trigger] w[k]) by {
                lemma_char_at(w, o3, il, ip, k - o3);
            }
            lemma_digit_end_of_run(w, o3, o4);
            lemma_char_at(w, o3, il, ip, 0);
            lemma_digits_value(w, o3, i as int);
            assert(is_digit_c(w[o3]) && digit_end(w, o3) == o4 && dec_val(w, o3, o4) == i as int);
        },
        None => {
            assert(o3 == o4);
            assert(td != '3' && td != '6');
        },
    }
}

/// Decoding an encoded packet reads back exactly the message's
/// payload and rebuilds its body.
#[verifier::rlimit(100)]
proof fn lemma_rt_payload_stage(m: MessageV)
    requires
        rt_body_ok(m.body),
    ensures
        spec_decode_payload(
            spec_encode(m),
            type_digit(m.body),
            rt_att(m.body),
            m.namespace,
            rt_idv(m.body),
            rt_o4(m),
        ) == Ok::<MessageV, SocketError>(m),
{
    let td = type_digit(m.body);
    let ap = att_part(m.body);
    let np = nsp_part(m.namespace);
    let ip = id_part(m.body);
    let pp = payload_part(m.body);
    let w = spec_encode(m);
    reveal(spec_decode_payload);
    lemma_cat5(w, seq![td], ap, np, ip, pp);
    lemma_rt_fields(m);
    let o4 = rt_o4(m);
    let l = w.len() as int;
    match rt_pv(m.body) {
        Some(pj) => {
            lemma_doc_round_trip(pj);
            lemma_jser_shape(pj);
            assert(w.subrange(o4, l) =~= pp);
            assert(w.subrange(o4, l) == jser(pj));
            assert(jparse_doc(w.subrange(o4, l)) == (JOut::Val {
                v: pj,
                end: jser(pj).len() as int,
            }));
            match m.body {
                BodyV::Event { data, id, name } => {
                    let els = pj->Arr_0;
                    assert(els[0] == JsonV::Str(name));
                    if data == JsonV::Null {
                        assert(els.len() == 1);
                    } else {
                        assert(els.len() == 2 && els[1] == data);
                    }
                    assert(spec_name_and_body(pj) == Ok::<(Seq<char>, JsonV), SocketError>(
                        (name, data),
                    ));
                },
                BodyV::BinaryEvent { data, id, name, .. } => {
                    let els = pj->Arr_0;
                    assert(els[0] == JsonV::Str(name));
                    if data == JsonV::Null {
                        assert(els.len() == 1);
                    } else {
                        assert(els.len() == 2 && els[1] == data);
                    }
                    assert(spec_name_and_body(pj) == Ok::<(Seq<char>, JsonV), SocketError>(
                        (name, data),
                    ));
                },
                _ => {},
            }
        },
        None => {},
    }
    assert(m == (MessageV { body: m.body, namespace: m.namespace }));
}

/// Law: decoding an encoded message yields the message back, for
/// every well-formed message whose namespace holds no comma and whose
/// body the wire can carry.
pub proof fn lemma_round_trip(m: MessageV)
    requires
        m.wf(),
        forall|k: int| 0 <= k < m.namespace.len() ==> m.namespace[k] != ',',
        rt_body_ok(m.body),
    ensures
        spec_decode(spec_encode(m)) == Ok::<MessageV, SocketError>(m),
{
    lemma_rt_att_stage(m);
    lemma_rt_nsp_stage(m);
    lemma_rt_id_stage(m);
    lemma_rt_payload_stage(m);
}

/// Splits an event payload into the event's name and its data: the
/// payload must be a non-empty array whose first element is a string;
/// the second element, if any, is the data, otherwise the data is
/// null.
pub fn get_name_and_body(json_body: Json) -> (r: Result<(String, Json), SocketError>)
    ensures
        match r {
            Ok(p) => spec_name_and_body(json_body@) == Ok::<(Seq<char>, JsonV), SocketError>(
                (p.0@, p.1@),
            ),
            Err(e) => spec_name_and_body(json_body@) == Err::<(Seq<char>, JsonV), SocketError>(e),
        },
{
    let ghost jv = json_body@;
    match json_body {
        Json::Arr(mut vec) => {
            if vec.len() == 0 {
                return Err(SocketError::PayloadArrayEmpty);
            }
            let ghost vs0 = crate::json::views_of(vec@);
            let first = vec.remove(0);
            proof {
                assert(vs0[0] == first@);
            }
            match first {
                Json::Str(name) => {
                    let body = if vec.len() > 0 {
                        vec.remove(0)
                    } else {
                        Json::Null
                    };
                    proof {
                        if vs0.len() > 1 {
                            assert(body@ == vs0[1]);
                        }
                    }
                    Ok((name, body))
                },
                _ => Err(SocketError::NameNotString),
            }
        },
        _ => Err(SocketError::PayloadNotArray),
    }
}

} // verus!
