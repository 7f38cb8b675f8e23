//! The connection core: SASL handshake lines, serial assignment, and the
//! matching of replies to outstanding calls.
//!
//! The I/O itself lives with the caller, which writes and reads the byte
//! sequences these functions produce and consume.

use vstd::prelude::*;

use crate::message::{
    copy_range, decode_string_body, extend_vec, find_error_name, find_reply_serial,
    find_signature, parse_fields_at, Message, MessageError, MessageFieldError, MessageType,
    VariantError,
};
use crate::signature::SigTree;
use vstd::utf8::encode_utf8;
use vstd::string::StringSliceAdditionalSpecFns;

verus! {

/// A connection-level error.
#[derive(Debug, PartialEq)]
pub enum ConnectionError {
    /// The transport failed; the text is the underlying error's.
    IO(String),
    /// The frame codec failed.
    Message(MessageError),
    /// A header field is malformed.
    MessageField(MessageFieldError),
    /// A typed value failed to decode.
    Variant(VariantError),
    /// The SASL exchange went wrong.
    Handshake,
    /// A reply matched by serial did not have the expected shape.
    InvalidReply,
    /// The remote returned a D-Bus error, with its name and the
    /// conventional string description when one was sent.
    MethodError(String, Option<String>),
}

/// Whether every byte is ASCII.
pub open spec fn all_ascii(b: Seq<u8>) -> bool {
    forall|i: int| 0 <= i < b.len() ==> b[i] < 128
}

/// Relies on `String::from_utf8`: it succeeds exactly on valid UTF-8, the
/// string's characters encode back to the given bytes, and any all-ASCII
/// input is valid.
#[verifier::external_body]
fn string_from_utf8(v: Vec<u8>) -> (r: Option<String>)
    ensures
        r matches Some(s) ==> encode_utf8(s@) == v@,
        all_ascii(v@) ==> r is Some,
{
    String::from_utf8(v).ok()
}

/// The SASL hex form of the decimal digits of `n`: the code of each digit
/// character, written as two lowercase hex digits. The digits have the
/// codes 48 through 57, so each pair is `3` followed by the digit itself.
pub open spec fn uid_hex_bytes(n: int) -> Seq<u8>
    decreases n,
{
    if n < 10 {
        seq![51u8, (48 + (if n >= 0 { n } else { 0 })) as u8]
    } else {
        uid_hex_bytes(n / 10) + seq![51u8, (48 + n % 10) as u8]
    }
}

/// The SASL hex form of the decimal digits of `uid`.
pub fn uid_hex(uid: u32) -> (r: Vec<u8>)
    ensures
        r@ == uid_hex_bytes(uid as int),
    decreases uid,
{
    if uid < 10 {
        let mut v: Vec<u8> = Vec::new();
        v.push(51);
        v.push(48 + (uid as u8));
        proof {
            assert(v@ =~= uid_hex_bytes(uid as int));
        }
        v
    } else {
        let mut v = uid_hex(uid / 10);
        v.push(51);
        v.push(48 + ((uid % 10) as u8));
        proof {
            assert(v@ =~= uid_hex_bytes(uid as int));
        }
        v
    }
}

/// The bytes of `\0AUTH EXTERNAL `.
pub open spec fn auth_prefix() -> Seq<u8> {
    seq![0u8, 65u8, 85u8, 84u8, 72u8, 32u8, 69u8, 88u8, 84u8, 69u8, 82u8, 78u8, 65u8, 76u8, 32u8]
}

/// The bytes of a carriage return and a line feed.
pub open spec fn crlf() -> Seq<u8> {
    seq![13u8, 10u8]
}

/// The opening line of the handshake: the nul-byte preamble, then
/// `AUTH EXTERNAL ` with the hex form of the caller's UID.
pub open spec fn auth_line_bytes(uid: int) -> Seq<u8> {
    auth_prefix() + uid_hex_bytes(uid) + crlf()
}

/// The opening line of the handshake for `uid`.
pub fn auth_line(uid: u32) -> (r: Vec<u8>)
    ensures
        r@ == auth_line_bytes(uid as int),
{
    let mut v: Vec<u8> = Vec::new();
    v.push(0);
    v.push(65);
    v.push(85);
    v.push(84);
    v.push(72);
    v.push(32);
    v.push(69);
    v.push(88);
    v.push(84);
    v.push(69);
    v.push(82);
    v.push(78);
    v.push(65);
    v.push(76);
    v.push(32);
    let hex = uid_hex(uid);
    extend_vec(&mut v, hex.as_slice());
    v.push(13);
    v.push(10);
    proof {
        assert(v@ =~= auth_line_bytes(uid as int));
    }
    v
}

/// The bytes of `BEGIN\r\n`.
pub open spec fn begin_line_bytes() -> Seq<u8> {
    seq![66u8, 69u8, 71u8, 73u8, 78u8, 13u8, 10u8]
}

/// The line that ends the SASL exchange.
pub fn begin_line() -> (r: Vec<u8>)
    ensures
        r@ == begin_line_bytes(),
{
    let mut v: Vec<u8> = Vec::new();
    v.push(66);
    v.push(69);
    v.push(71);
    v.push(73);
    v.push(78);
    v.push(13);
    v.push(10);
    proof {
        assert(v@ =~= begin_line_bytes());
    }
    v
}

/// Whether a byte is SASL-line whitespace: space, tab, carriage return or
/// line feed.
pub open spec fn is_ws(b: u8) -> bool {
    b == 32 || b == 9 || b == 13 || b == 10
}

/// The first position at or after `pos` that does not hold whitespace.
pub open spec fn skip_ws(s: Seq<u8>, pos: int) -> int
    decreases s.len() - pos,
{
    if 0 <= pos < s.len() && is_ws(s[pos]) {
        skip_ws(s, pos + 1)
    } else {
        pos
    }
}

/// The first position at or after `pos` that holds whitespace, or the end.
pub open spec fn token_end(s: Seq<u8>, pos: int) -> int
    decreases s.len() - pos,
{
    if 0 <= pos < s.len() && !is_ws(s[pos]) {
        token_end(s, pos + 1)
    } else {
        pos
    }
}

/// The GUID token of an `OK` line: the line's first whitespace-separated
/// token must be `OK`, and the second, which must be present, is the GUID.
pub open spec fn guid_of_line(s: Seq<u8>) -> Option<Seq<u8>> {
    let t1s = skip_ws(s, 0);
    let t1e = token_end(s, t1s);
    if s.subrange(t1s, t1e) == seq![79u8, 75u8] {
        let t2s = skip_ws(s, t1e);
        let t2e = token_end(s, t2s);
        if t2e > t2s {
            Some(s.subrange(t2s, t2e))
        } else {
            None
        }
    } else {
        None
    }
}

/// The first position at or after `pos` that does not hold whitespace.
fn skip_ws_from(bytes: &[u8], pos: usize) -> (r: usize)
    requires
        pos <= bytes@.len(),
    ensures
        r as int == skip_ws(bytes@, pos as int),
        pos <= r <= bytes@.len(),
    decreases bytes@.len() - pos,
{
    if pos < bytes.len() {
        let b = bytes[pos];
        if b == 32 || b == 9 || b == 13 || b == 10 {
            return skip_ws_from(bytes, pos + 1);
        }
    }
    pos
}

/// The first position at or after `pos` that holds whitespace, or the end.
fn token_end_from(bytes: &[u8], pos: usize) -> (r: usize)
    requires
        pos <= bytes@.len(),
    ensures
        r as int == token_end(bytes@, pos as int),
        pos <= r <= bytes@.len(),
    decreases bytes@.len() - pos,
{
    if pos < bytes.len() {
        let b = bytes[pos];
        if !(b == 32 || b == 9 || b == 13 || b == 10) {
            return token_end_from(bytes, pos + 1);
        }
    }
    pos
}

/// Read the GUID out of the server's reply to the AUTH line. Any line
/// whose first token is not `OK`, or that carries no second token, is a
/// handshake failure.
pub fn parse_ok_line(line: &[u8]) -> (r: Result<String, ConnectionError>)
    ensures
        r matches Ok(g) ==> guid_of_line(line@) matches Some(b) && encode_utf8(g@) == b,
        guid_of_line(line@) is None ==> r is Err,
        r matches Err(e) ==> e == ConnectionError::Handshake,
        (guid_of_line(line@) matches Some(b) && all_ascii(b)) ==> r is Ok,
{
    let t1s = skip_ws_from(line, 0);
    let t1e = token_end_from(line, t1s);
    if !(t1e - t1s == 2 && line[t1s] == 79 && line[t1s + 1] == 75) {
        proof {
            assert(line@.subrange(t1s as int, t1e as int) != seq![79u8, 75u8]) by {
                if line@.subrange(t1s as int, t1e as int) == seq![79u8, 75u8] {
                    assert(line@.subrange(t1s as int, t1e as int).len() == 2);
                    assert(line@.subrange(t1s as int, t1e as int)[0] == line@[t1s as int]);
                    assert(line@.subrange(t1s as int, t1e as int)[1] == line@[t1s as int + 1]);
                }
            }
        }
        return Err(ConnectionError::Handshake);
    }
    proof {
        assert(line@.subrange(t1s as int, t1e as int) =~= seq![79u8, 75u8]);
    }
    let t2s = skip_ws_from(line, t1e);
    let t2e = token_end_from(line, t2s);
    if t2e <= t2s {
        return Err(ConnectionError::Handshake);
    }
    let guid = copy_range(line, t2s, t2e);
    let ghost gv = guid@;
    match string_from_utf8(guid) {
        Some(g) => Ok(g),
        None => {
            proof {
                assert(gv == guid_of_line(line@)->Some_0);
                assert(!all_ascii(gv));
            }
            Err(ConnectionError::Handshake)
        },
    }
}

/// A live connection: the peer's GUID and the serial counter for outgoing
/// messages.
pub struct Connection {
    /// The GUID the peer announced in its `OK` line.
    pub server_guid: String,
    /// The serial counter: the serial of the last message prepared, or
    /// zero before the first. Only [`Connection::next_serial`] moves it.
    pub serial: u32,
}

impl Connection {
    /// A fresh connection with the given peer GUID and the serial counter
    /// at zero.
    pub fn new(server_guid: String) -> (r: Connection)
        ensures
            r.server_guid == server_guid,
            r.serial == 0,
    {
        Connection { server_guid, serial: 0 }
    }

    /// The next serial: the counter incremented before each outgoing
    /// message.
    pub fn next_serial(&mut self) -> (r: u32)
        requires
            old(self).serial < u32::MAX,
        ensures
            final(self).serial == old(self).serial + 1,
            r == final(self).serial,
            final(self).server_guid == old(self).server_guid,
    {
        self.serial = self.serial + 1;
        self.serial
    }
}

/// The text of a frame-level error.
pub open spec fn message_error_chars(e: MessageError) -> Seq<char> {
    match e {
        MessageError::UnknownEndianness => "unknown endianness"@,
        MessageError::UnknownType => "unknown message type"@,
        MessageError::UnknownVersion => "unknown protocol version"@,
        MessageError::ZeroSerial => "serial is zero"@,
        MessageError::ShortHeader => "primary header too short"@,
        MessageError::LengthMismatch => "frame length mismatch"@,
        MessageError::TooLarge => "value too large for the wire"@,
    }
}

/// The text of a connection-level error.
pub open spec fn error_chars(e: ConnectionError) -> Seq<char> {
    match e {
        ConnectionError::IO(s) => "I/O error: "@ + s@,
        ConnectionError::Message(me) => "Message creation error: "@ + message_error_chars(me),
        ConnectionError::MessageField(_) => "Message field parsing error: malformed field"@,
        ConnectionError::Variant(_) => "Variant error: malformed value"@,
        ConnectionError::Handshake => "D-Bus handshake failed"@,
        ConnectionError::InvalidReply => "Invalid D-Bus method reply"@,
        ConnectionError::MethodError(name, detail) => name@ + ": "@ + (match detail {
            Some(d) => d@,
            None => "no details"@,
        }),
    }
}

impl ConnectionError {
    /// The human-readable text of the error.
    pub fn describe(&self) -> (r: String)
        ensures
            r@ == error_chars(*self),
    {
        let mut out = String::new();
        match self {
            ConnectionError::IO(s) => {
                out.append("I/O error: ");
                out.append(s.as_str());
            },
            ConnectionError::Message(me) => {
                out.append("Message creation error: ");
                match me {
                    MessageError::UnknownEndianness => out.append("unknown endianness"),
                    MessageError::UnknownType => out.append("unknown message type"),
                    MessageError::UnknownVersion => out.append("unknown protocol version"),
                    MessageError::ZeroSerial => out.append("serial is zero"),
                    MessageError::ShortHeader => out.append("primary header too short"),
                    MessageError::LengthMismatch => out.append("frame length mismatch"),
                    MessageError::TooLarge => out.append("value too large for the wire"),
                }
            },
            ConnectionError::MessageField(_) => {
                out.append("Message field parsing error: malformed field");
            },
            ConnectionError::Variant(_) => {
                out.append("Variant error: malformed value");
            },
            ConnectionError::Handshake => {
                out.append("D-Bus handshake failed");
            },
            ConnectionError::InvalidReply => {
                out.append("Invalid D-Bus method reply");
            },
            ConnectionError::MethodError(name, detail) => {
                out.append(name.as_str());
                out.append(": ");
                match detail {
                    Some(d) => out.append(d.as_str()),
                    None => out.append("no details"),
                }
            },
        }
        proof {
            assert(out@ =~= error_chars(*self));
        }
        out
    }
}

/// Open a session on a freshly authenticated stream: consume the server's
/// reply to the AUTH line and produce the connection, the `BEGIN` line to
/// send, and the Hello call to issue, already carrying serial 1.
pub fn begin_session(line: &[u8]) -> (r: Result<(Connection, Vec<u8>, Message), ConnectionError>)
    ensures
        guid_of_line(line@) is None ==> r is Err,
        (guid_of_line(line@) matches Some(b) && all_ascii(b)) ==> r is Ok,
        r matches Err(e) ==> e == ConnectionError::Handshake,
        r matches Ok(p) ==> {
            &&& (guid_of_line(line@) matches Some(b) && encode_utf8(p.0.server_guid@) == b)
            &&& p.0.serial == 1
            &&& p.1@ == begin_line_bytes()
            &&& p.2.msg_type == MessageType::MethodCall
            &&& p.2.little
            &&& p.2.flags == 0
            &&& p.2.serial == 1
            &&& p.2.body@ == Seq::<u8>::empty()
            &&& p.2.raw_fields@ == crate::message::fields_wire(
                crate::message::method_fields(
                    "/org/freedesktop/DBus".spec_bytes(),
                    Some("org.freedesktop.DBus".spec_bytes()),
                    Some("org.freedesktop.DBus".spec_bytes()),
                    "Hello".spec_bytes(),
                    None,
                ),
                0,
            )
        },
{
    let guid = match parse_ok_line(line) {
        Ok(g) => g,
        Err(e) => {
            return Err(e);
        },
    };
    let mut conn = Connection::new(guid);
    let serial = conn.next_serial();
    proof {
        // The fields of the Hello call are short ASCII literals, so the
        // call always fits the wire.
        reveal_strlit("/org/freedesktop/DBus");
        reveal_strlit("org.freedesktop.DBus");
        reveal_strlit("Hello");
        let p = "/org/freedesktop/DBus";
        let d = "org.freedesktop.DBus";
        let h = "Hello";
        assert(vstd::utf8::is_ascii_chars(p@));
        assert(vstd::utf8::is_ascii_chars(d@));
        assert(vstd::utf8::is_ascii_chars(h@));
        vstd::utf8::is_ascii_chars_encode_utf8(p@);
        vstd::utf8::is_ascii_chars_encode_utf8(d@);
        vstd::utf8::is_ascii_chars_encode_utf8(h@);
        let fvs = crate::message::method_fields(
            p.spec_bytes(),
            Some(d.spec_bytes()),
            Some(d.spec_bytes()),
            h.spec_bytes(),
            None,
        );
        assert(fvs =~= seq![
            crate::message::FieldTree::Path(p.spec_bytes()),
            crate::message::FieldTree::Destination(d.spec_bytes()),
            crate::message::FieldTree::Interface(d.spec_bytes()),
            crate::message::FieldTree::Member(h.spec_bytes()),
        ]);
        assert(crate::message::all_encodable(fvs)) by {
            assert(forall|i: int|
                0 <= i < fvs.len() ==> crate::message::encodable_field(#[trigger] fvs[i]));
        }
    }
    let hello = match Message::method(
        Some("org.freedesktop.DBus"),
        "/org/freedesktop/DBus",
        Some("org.freedesktop.DBus"),
        "Hello",
        None,
    ) {
        Ok(m) => m,
        Err(e) => {
            return Err(ConnectionError::Message(e));
        },
    };
    Ok((conn, begin_line(), hello.set_serial(serial)))
}

/// Prepare one method call on the connection: draw the next serial and
/// build the frame with it.
pub fn prepare_call(
    conn: &mut Connection,
    destination: Option<&str>,
    path: &str,
    iface: Option<&str>,
    method_name: &str,
    body: Option<(&crate::signature::Signature, Vec<u8>)>,
) -> (r: Result<Message, ConnectionError>)
    requires
        old(conn).serial < u32::MAX,
    ensures
        final(conn).serial == old(conn).serial + 1,
        final(conn).server_guid == old(conn).server_guid,
        ({
            let fvs = crate::message::method_fields(
                path.spec_bytes(),
                match destination {
                    Some(d) => Some(d.spec_bytes()),
                    None => None,
                },
                match iface {
                    Some(x) => Some(x.spec_bytes()),
                    None => None,
                },
                method_name.spec_bytes(),
                match body {
                    Some(b) => Some(b.0@),
                    None => None,
                },
            );
            &&& (r is Ok <==> crate::message::all_encodable(fvs))
            &&& (r matches Ok(m) ==> {
                &&& m.msg_type == MessageType::MethodCall
                &&& m.little
                &&& m.flags == 0
                &&& m.serial == old(conn).serial + 1
                &&& m.raw_fields@ == crate::message::fields_wire(fvs, 0)
                &&& m.body@ == (match body {
                    Some(b) => b.1@,
                    None => Seq::<u8>::empty(),
                })
            })
            &&& (r matches Err(e) ==> e == ConnectionError::Message(MessageError::TooLarge))
        }),
{
    let serial = conn.next_serial();
    match Message::method(destination, path, iface, method_name, body) {
        Ok(m) => Ok(m.set_serial(serial)),
        Err(e) => Err(ConnectionError::Message(e)),
    }
}

/// The assigned bus name out of the Hello reply, whose body must be a
/// single string.
pub fn hello_reply_bus_name(m: &Message) -> (r: Result<String, ConnectionError>)
    ensures
        ({
            let sig_ok = parse_fields_at(m.raw_fields@, 0, m.little) matches Some(fs)
                && find_signature(fs) == Some(SigTree::Str);
            &&& (!sig_ok ==> (r matches Err(e) && e == ConnectionError::InvalidReply))
            &&& (sig_ok ==> (match crate::message::string_body_of(m.body@, m.little) {
                None => (r matches Err(e) && e == ConnectionError::Variant(
                    VariantError::Malformed,
                )),
                Some(bb) => (r matches Ok(name) && encode_utf8(name@) == bb) || (r matches Err(e)
                    && (e == ConnectionError::Variant(VariantError::Malformed) && !all_ascii(bb))),
            }))
        }),
{
    let is_string = match m.body_signature() {
        Some(sig) => match sig {
            crate::signature::Signature::Str => true,
            _ => false,
        },
        None => false,
    };
    if !is_string {
        return Err(ConnectionError::InvalidReply);
    }
    let bb = match decode_string_body(m.body.as_slice(), m.little) {
        Ok(bb) => bb,
        Err(_) => {
            return Err(ConnectionError::Variant(VariantError::Malformed));
        },
    };
    let ghost bv = bb@;
    match string_from_utf8(bb) {
        Some(name) => Ok(name),
        None => {
            proof {
                assert(!all_ascii(bv));
            }
            Err(ConnectionError::Variant(VariantError::Malformed))
        },
    }
}

/// What the read loop of a call does with one complete inbound frame.
pub enum ReplyStep {
    /// The frame is not the awaited reply: read on.
    Skip,
    /// The frame answers the call: hand it to the caller.
    Reply(Message),
    /// The frame answers the call with an error, or its fields are
    /// malformed: fail the call.
    Fail(ConnectionError),
}

/// Decide what one complete inbound frame means for the call with the
/// given serial: a reply frame whose `ReplySerial` field equals the serial
/// answers it, a method return by value and an error frame as the typed
/// error it carries; every other frame is skipped.
pub fn classify_reply(m: Message, serial: u32) -> (r: ReplyStep)
    ensures
        !(m.msg_type == MessageType::MethodReturn || m.msg_type == MessageType::Error) ==> r
            is Skip,
        (m.msg_type == MessageType::MethodReturn || m.msg_type == MessageType::Error) ==> (match
            parse_fields_at(m.raw_fields@, 0, m.little) {
            None => r matches ReplyStep::Fail(e) && e == ConnectionError::MessageField(
                MessageFieldError::Malformed,
            ),
            Some(fields) => {
                if find_reply_serial(fields) == Some(serial) {
                    if m.msg_type == MessageType::MethodReturn {
                        r matches ReplyStep::Reply(rm) && rm == m
                    } else {
                        r matches ReplyStep::Fail(e) && matches_error_of(
                            e,
                            fields,
                            m.body@,
                            m.little,
                        )
                    }
                } else {
                    r is Skip
                }
            },
        }),
{
    match m.msg_type {
        MessageType::MethodReturn | MessageType::Error => {},
        _ => {
            return ReplyStep::Skip;
        },
    }
    let fields = match m.fields() {
        Ok(f) => f,
        Err(e) => {
            return ReplyStep::Fail(ConnectionError::MessageField(e));
        },
    };
    let ghost fvs = parse_fields_at(m.raw_fields@, 0, m.little)->Some_0;
    let n = fields.len();
    let mut i: usize = 0;
    proof {
        crate::message::lemma_field_views(fields@);
        assert(fvs.skip(0) =~= fvs);
    }
    let mut matched = false;
    while i < n && !matched
        invariant
            i <= n,
            n == fields@.len(),
            crate::message::field_views(fields@) == fvs,
            fvs.len() == n,
            forall|j: int| 0 <= j < n ==> fvs[j] == fields@[j]@,
            Some(fvs) == parse_fields_at(m.raw_fields@, 0, m.little),
            m.msg_type == MessageType::MethodReturn || m.msg_type == MessageType::Error,
            matched ==> find_reply_serial(fvs) == Some(serial),
            !matched ==> find_reply_serial(fvs) == find_reply_serial(fvs.skip(i as int)),
        decreases n - i,
    {
        proof {
            assert(fvs.skip(i as int)[0] == fvs[i as int]);
            assert(fvs.skip(i as int).drop_first() =~= fvs.skip(i as int + 1));
        }
        match &fields[i] {
            crate::message::MessageField::ReplySerial(rs) => {
                if *rs == serial {
                    matched = true;
                } else {
                    proof {
                        assert(find_reply_serial(fvs.skip(i as int)) == Some(*rs));
                    }
                    return ReplyStep::Skip;
                }
            },
            _ => {},
        }
        i = i + 1;
    }
    proof {
        if !matched {
            assert(fvs.skip(n as int) =~= Seq::<crate::message::FieldTree>::empty());
        }
    }
    if !matched {
        return ReplyStep::Skip;
    }
    match m.msg_type {
        MessageType::MethodReturn => ReplyStep::Reply(m),
        _ => ReplyStep::Fail(error_from_reply(&fields, &m)),
    }
}

/// Whether `r` is the typed error that an error frame with these fields
/// and this body denotes: `MethodError` with the error name and, when the
/// body is a single string, that string as the detail. A frame without an
/// `ErrorName` field is an invalid reply. A name or detail that is not
/// UTF-8 fails as a variant error; on ASCII bytes, as every D-Bus error
/// name is, the outcome is fully determined.
pub open spec fn matches_error_of(
    r: ConnectionError,
    fields: Seq<crate::message::FieldTree>,
    body: Seq<u8>,
    little: bool,
) -> bool {
    match find_error_name(fields) {
        None => r == ConnectionError::InvalidReply,
        Some(nb) => if find_signature(fields) == Some(SigTree::Str) {
            match crate::message::string_body_of(body, little) {
                None => r == ConnectionError::Variant(VariantError::Malformed),
                Some(db) => (r matches ConnectionError::MethodError(name, detail) && (
                encode_utf8(name@) == nb && (detail matches Some(d) && encode_utf8(d@) == db)))
                    || (r == ConnectionError::Variant(VariantError::Malformed) && !(all_ascii(nb)
                    && all_ascii(db))),
            }
        } else {
            (r matches ConnectionError::MethodError(name, detail) && (encode_utf8(name@) == nb
                && detail is None)) || (r == ConnectionError::Variant(VariantError::Malformed)
                && !all_ascii(nb))
        },
    }
}

/// Build the typed error an error frame with these fields denotes.
fn error_from_reply(fields: &Vec<crate::message::MessageField>, m: &Message) -> (r:
    ConnectionError)
    requires
        parse_fields_at(m.raw_fields@, 0, m.little) is Some,
        crate::message::field_views(fields@) == (parse_fields_at(
            m.raw_fields@,
            0,
            m.little,
        ))->Some_0,
    ensures
        matches_error_of(
            r,
            (parse_fields_at(m.raw_fields@, 0, m.little))->Some_0,
            m.body@,
            m.little,
        ),
{
    let ghost fvs = crate::message::field_views(fields@);
    proof {
        crate::message::lemma_field_views(fields@);
    }
    let n = fields.len();

    // Find the error name.
    let mut name_bytes: Option<Vec<u8>> = None;
    let mut i: usize = 0;
    proof {
        assert(fvs.skip(0) =~= fvs);
    }
    while i < n && name_bytes.is_none()
        invariant
            i <= n,
            n == fields@.len(),
            crate::message::field_views(fields@) == fvs,
            fvs.len() == n,
            forall|j: int| 0 <= j < n ==> fvs[j] == fields@[j]@,
            match name_bytes {
                Some(nb) => find_error_name(fvs) == Some(nb@),
                None => find_error_name(fvs) == find_error_name(fvs.skip(i as int)),
            },
        decreases n - i,
    {
        proof {
            assert(fvs.skip(i as int)[0] == fvs[i as int]);
            assert(fvs.skip(i as int).drop_first() =~= fvs.skip(i as int + 1));
        }
        match &fields[i] {
            crate::message::MessageField::ErrorName(b) => {
                let mut copy: Vec<u8> = Vec::new();
                extend_vec(&mut copy, b.as_slice());
                proof {
                    assert(copy@ =~= b@);
                }
                name_bytes = Some(copy);
            },
            _ => {},
        }
        i = i + 1;
    }
    let nb = match name_bytes {
        Some(nb) => nb,
        None => {
            proof {
                assert(fvs.skip(n as int) =~= Seq::<crate::message::FieldTree>::empty());
            }
            return ConnectionError::InvalidReply;
        },
    };
    let name = match string_from_utf8(nb) {
        Some(name) => name,
        None => {
            return ConnectionError::Variant(VariantError::Malformed);
        },
    };

    // Find the body signature and check whether it is the single string.
    let mut body_is_string = false;
    let mut j: usize = 0;
    let mut found_sig = false;
    proof {
        assert(fvs.skip(0) =~= fvs);
    }
    while j < n && !found_sig
        invariant
            j <= n,
            n == fields@.len(),
            crate::message::field_views(fields@) == fvs,
            fvs.len() == n,
            forall|k: int| 0 <= k < n ==> fvs[k] == fields@[k]@,
            found_sig ==> (body_is_string <==> find_signature(fvs) == Some(SigTree::Str)),
            !found_sig ==> !body_is_string && find_signature(fvs) == find_signature(
                fvs.skip(j as int),
            ),
        decreases n - j,
    {
        proof {
            assert(fvs.skip(j as int)[0] == fvs[j as int]);
            assert(fvs.skip(j as int).drop_first() =~= fvs.skip(j as int + 1));
        }
        match &fields[j] {
            crate::message::MessageField::Signature(sig) => {
                found_sig = true;
                match sig {
                    crate::signature::Signature::Str => {
                        body_is_string = true;
                    },
                    _ => {},
                }
            },
            _ => {},
        }
        j = j + 1;
    }
    proof {
        if !found_sig {
            assert(fvs.skip(n as int) =~= Seq::<crate::message::FieldTree>::empty());
        }
    }
    if !body_is_string {
        return ConnectionError::MethodError(name, None);
    }
    let db = match decode_string_body(m.body.as_slice(), m.little) {
        Ok(db) => db,
        Err(_) => {
            return ConnectionError::Variant(VariantError::Malformed);
        },
    };
    match string_from_utf8(db) {
        Some(detail) => ConnectionError::MethodError(name, Some(detail)),
        None => ConnectionError::Variant(VariantError::Malformed),
    }
}

} // verus!
