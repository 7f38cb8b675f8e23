//! The D-Bus wire message codec.
//!
//! A frame is a 16-byte primary header (endianness, type, flags, major
//! version, body length, serial, fields-array length), the header-fields
//! array, padding to an 8-byte boundary, and the body.

use vstd::prelude::*;

use crate::signature::{str_bytes, SigTree, Signature};
use crate::parse::parse_top;
use vstd::string::StringSliceAdditionalSpecFns;

verus! {

/// The number of bytes of the primary header, the fields-array length
/// included.
pub const PRIMARY_HEADER_SIZE: usize = 16;

/// The type of a message, with the wire codes 1 through 4.
#[derive(Clone, Copy, Debug, PartialEq, Eq, Structural)]
pub enum MessageType {
    /// A method call.
    MethodCall,
    /// A reply to a method call.
    MethodReturn,
    /// An error reply to a method call.
    Error,
    /// A broadcast signal.
    Signal,
}

/// The wire code of a message type.
pub open spec fn type_code(t: MessageType) -> u8 {
    match t {
        MessageType::MethodCall => 1,
        MessageType::MethodReturn => 2,
        MessageType::Error => 3,
        MessageType::Signal => 4,
    }
}

/// A decoding error at the frame level.
#[derive(Clone, Copy, Debug, PartialEq, Eq, Structural)]
pub enum MessageError {
    /// The endianness marker is neither `l` nor `B`.
    UnknownEndianness,
    /// The message type code is unknown.
    UnknownType,
    /// The protocol major version is not 1.
    UnknownVersion,
    /// The serial is zero.
    ZeroSerial,
    /// The primary header is shorter than 16 bytes.
    ShortHeader,
    /// The trailing bytes do not have the announced length.
    LengthMismatch,
    /// A value is too large for its wire form.
    TooLarge,
}

/// A decoding error in the header-fields array.
#[derive(Clone, Copy, Debug, PartialEq, Eq, Structural)]
pub enum MessageFieldError {
    /// A field entry is malformed or a known field has the wrong type.
    Malformed,
}

/// A decoding error in a typed value.
#[derive(Clone, Copy, Debug, PartialEq, Eq, Structural)]
pub enum VariantError {
    /// The bytes do not hold a value of the requested type.
    Malformed,
}

/// A known header field with its typed value.
#[derive(Debug)]
pub enum MessageField {
    /// The object path a call is sent to, or a signal is emitted from.
    Path(Vec<u8>),
    /// The interface of the member.
    Interface(Vec<u8>),
    /// The method or signal name.
    Member(Vec<u8>),
    /// The name of the error, on an error reply.
    ErrorName(Vec<u8>),
    /// The serial of the call this message replies to.
    ReplySerial(u32),
    /// The intended recipient.
    Destination(Vec<u8>),
    /// The sender.
    Sender(Vec<u8>),
    /// The signature of the body.
    Signature(Signature),
}

/// The model of a header field.
pub enum FieldTree {
    Path(Seq<u8>),
    Interface(Seq<u8>),
    Member(Seq<u8>),
    ErrorName(Seq<u8>),
    ReplySerial(u32),
    Destination(Seq<u8>),
    Sender(Seq<u8>),
    Signature(SigTree),
}

impl View for MessageField {
    type V = FieldTree;

    open spec fn view(&self) -> FieldTree {
        match self {
            MessageField::Path(b) => FieldTree::Path(b@),
            MessageField::Interface(b) => FieldTree::Interface(b@),
            MessageField::Member(b) => FieldTree::Member(b@),
            MessageField::ErrorName(b) => FieldTree::ErrorName(b@),
            MessageField::ReplySerial(n) => FieldTree::ReplySerial(*n),
            MessageField::Destination(b) => FieldTree::Destination(b@),
            MessageField::Sender(b) => FieldTree::Sender(b@),
            MessageField::Signature(s) => FieldTree::Signature(s@),
        }
    }
}

/// The models of a sequence of header fields.
pub open spec fn field_views(l: Seq<MessageField>) -> Seq<FieldTree>
    decreases l,
{
    if l.len() == 0 {
        Seq::empty()
    } else {
        seq![l[0]@] + field_views(l.drop_first())
    }
}

/// The model of a sequence of header fields is the sequence of their
/// models.
pub proof fn lemma_field_views(l: Seq<MessageField>)
    ensures
        field_views(l).len() == l.len(),
        forall|i: int| 0 <= i < l.len() ==> field_views(l)[i] == l[i]@,
    decreases l,
{
    if l.len() > 0 {
        lemma_field_views(l.drop_first());
        assert forall|i: int| 0 <= i < l.len() implies field_views(l)[i] == l[i]@ by {
            if i > 0 {
                assert(field_views(l)[i] == field_views(l.drop_first())[i - 1]);
                assert(l.drop_first()[i - 1] == l[i]);
            }
        }
    }
}

/// `n` zero bytes, or none when `n` is not positive.
pub open spec fn zeros(n: int) -> Seq<u8> {
    if n >= 0 {
        Seq::new(n as nat, |i: int| 0u8)
    } else {
        Seq::empty()
    }
}

/// How many padding bytes an offset `pos` needs to reach a multiple of 8.
pub open spec fn pad8(pos: int) -> int {
    if pos % 8 == 0 {
        0
    } else {
        8 - pos % 8
    }
}

/// The four little-endian bytes of `n`.
pub open spec fn le4(n: int) -> Seq<u8> {
    seq![
        (n % 256) as u8,
        ((n / 256) % 256) as u8,
        ((n / 65536) % 256) as u8,
        ((n / 16777216) % 256) as u8,
    ]
}

/// The value of the four bytes at `pos`, little-endian when `little`.
pub open spec fn u32_at(s: Seq<u8>, pos: int, little: bool) -> int {
    if little {
        s[pos] + 256 * s[pos + 1] + 65536 * s[pos + 2] + 16777216 * s[pos + 3]
    } else {
        s[pos + 3] + 256 * s[pos + 2] + 65536 * s[pos + 1] + 16777216 * s[pos]
    }
}

/// The wire form of a string field value: length, bytes, terminating nul.
pub open spec fn str4_bytes(b: Seq<u8>) -> Seq<u8> {
    le4(b.len() as int) + b + seq![0u8]
}

/// The wire form of one header-field entry: the field code, the one-byte
/// signature of its value, then the value. Every entry starts on an 8-byte
/// boundary, so the four-byte alignment of a string length is already met.
pub open spec fn field_entry(f: FieldTree) -> Seq<u8> {
    match f {
        FieldTree::Path(b) => seq![1u8, 1u8, 111u8, 0u8] + str4_bytes(b),
        FieldTree::Interface(b) => seq![2u8, 1u8, 115u8, 0u8] + str4_bytes(b),
        FieldTree::Member(b) => seq![3u8, 1u8, 115u8, 0u8] + str4_bytes(b),
        FieldTree::ErrorName(b) => seq![4u8, 1u8, 115u8, 0u8] + str4_bytes(b),
        FieldTree::ReplySerial(n) => seq![5u8, 1u8, 117u8, 0u8] + le4(n as int),
        FieldTree::Destination(b) => seq![6u8, 1u8, 115u8, 0u8] + str4_bytes(b),
        FieldTree::Sender(b) => seq![7u8, 1u8, 115u8, 0u8] + str4_bytes(b),
        FieldTree::Signature(t) => seq![8u8, 1u8, 103u8, 0u8] + seq![
            str_bytes(t, false).len() as u8,
        ] + str_bytes(t, false) + seq![0u8],
    }
}

/// The wire form of a run of header fields starting at offset `pos` of the
/// fields array: each entry is padded to an 8-byte boundary first.
pub open spec fn fields_wire(l: Seq<FieldTree>, pos: int) -> Seq<u8>
    decreases l,
{
    if l.len() == 0 {
        Seq::empty()
    } else {
        let padded = zeros(pad8(pos)) + field_entry(l[0]);
        padded + fields_wire(l.drop_first(), pos + padded.len())
    }
}

/// The wire form of two runs of header fields, one after the other.
pub proof fn lemma_fields_wire_concat(a: Seq<FieldTree>, b: Seq<FieldTree>, pos: int)
    ensures
        fields_wire(a + b, pos) == fields_wire(a, pos) + fields_wire(
            b,
            pos + fields_wire(a, pos).len(),
        ),
    decreases a,
{
    if a.len() == 0 {
        assert(a + b =~= b);
        assert(fields_wire(a, pos) + fields_wire(b, pos) =~= fields_wire(b, pos));
    } else {
        let padded = zeros(pad8(pos)) + field_entry(a[0]);
        lemma_fields_wire_concat(a.drop_first(), b, pos + padded.len());
        assert((a + b).drop_first() =~= a.drop_first() + b);
        assert((a + b)[0] == a[0]);
        assert(padded + (fields_wire(a.drop_first(), pos + padded.len()) + fields_wire(
            b,
            pos + padded.len() + fields_wire(a.drop_first(), pos + padded.len()).len(),
        )) =~= (padded + fields_wire(a.drop_first(), pos + padded.len())) + fields_wire(
            b,
            pos + padded.len() + fields_wire(a.drop_first(), pos + padded.len()).len(),
        ));
        assert(fields_wire(a, pos).len() == padded.len() + fields_wire(
            a.drop_first(),
            pos + padded.len(),
        ).len());
    }
}

/// Extending a run of header fields by one extends its wire form.
pub proof fn lemma_fields_wire_snoc(l: Seq<FieldTree>, i: int, pos: int)
    requires
        0 <= i < l.len(),
    ensures
        fields_wire(l.take(i + 1), pos) == fields_wire(l.take(i), pos) + zeros(
            pad8(pos + fields_wire(l.take(i), pos).len()),
        ) + field_entry(l[i]),
{
    assert(l.take(i + 1) =~= l.take(i) + seq![l[i]]);
    lemma_fields_wire_concat(l.take(i), seq![l[i]], pos);
    let q = pos + fields_wire(l.take(i), pos).len();
    assert(seq![l[i]].drop_first() =~= Seq::<FieldTree>::empty());
    assert(seq![l[i]][0] == l[i]);
    let padded = zeros(pad8(q)) + field_entry(l[i]);
    assert(fields_wire(seq![l[i]], q) == padded + fields_wire(
        Seq::<FieldTree>::empty(),
        q + padded.len(),
    ));
    assert(padded + Seq::<u8>::empty() =~= padded);
    assert(fields_wire(l.take(i), pos) + (zeros(pad8(q)) + field_entry(l[i])) =~= fields_wire(
        l.take(i),
        pos,
    ) + zeros(pad8(q)) + field_entry(l[i]));
}

/// Whether two byte slices hold the same bytes.
pub(crate) fn bytes_eq(a: &[u8], b: &[u8]) -> (r: bool)
    ensures
        r == (a@ == b@),
{
    if a.len() != b.len() {
        return false;
    }
    let n = a.len();
    let mut i: usize = 0;
    while i < n
        invariant
            i <= n,
            n == a@.len(),
            n == b@.len(),
            forall|j: int| 0 <= j < i ==> a@[j] == b@[j],
        decreases n - i,
    {
        if a[i] != b[i] {
            return false;
        }
        i = i + 1;
    }
    proof {
        assert(a@ =~= b@);
    }
    true
}

/// Append a copy of the bytes of `b`.
pub(crate) fn extend_vec(v: &mut Vec<u8>, b: &[u8])
    ensures
        final(v)@ == old(v)@ + b@,
{
    let n = b.len();
    let mut i: usize = 0;
    while i < n
        invariant
            i <= n,
            n == b@.len(),
            v@ == old(v)@ + b@.take(i as int),
        decreases n - i,
    {
        v.push(b[i]);
        proof {
            assert(b@.take(i as int).push(b@[i as int]) =~= b@.take(i as int + 1));
            assert(v@ =~= old(v)@ + b@.take(i as int + 1));
        }
        i = i + 1;
    }
    proof {
        assert(b@.take(n as int) =~= b@);
    }
}

/// A copy of the bytes from `a` to `b`.
pub(crate) fn copy_range(bytes: &[u8], a: usize, b: usize) -> (r: Vec<u8>)
    requires
        a <= b <= bytes@.len(),
    ensures
        r@ == bytes@.subrange(a as int, b as int),
{
    let mut r: Vec<u8> = Vec::new();
    let mut i: usize = a;
    while i < b
        invariant
            a <= i <= b <= bytes@.len(),
            r@ == bytes@.subrange(a as int, i as int),
        decreases b - i,
    {
        r.push(bytes[i]);
        proof {
            assert(bytes@.subrange(a as int, i as int).push(bytes@[i as int]) =~= bytes@.subrange(
                a as int,
                i as int + 1,
            ));
        }
        i = i + 1;
    }
    r
}

/// The bytes of `s`.
fn bytes_of_str(s: &str) -> (r: Vec<u8>)
    ensures
        r@ == s.spec_bytes(),
{
    let b = s.as_bytes();
    let mut r: Vec<u8> = Vec::new();
    extend_vec(&mut r, b);
    proof {
        assert(r@ =~= s.spec_bytes());
    }
    r
}

/// The header data decoded from the first 16 bytes of a frame.
pub struct HeaderTree {
    /// Whether the frame is little-endian.
    pub little: bool,
    /// The type of the message.
    pub msg_type: MessageType,
    /// The header flags.
    pub flags: u8,
    /// The length in bytes of the body.
    pub body_len: int,
    /// The serial of the message.
    pub serial: int,
    /// The length in bytes of the fields array, its padding not counted.
    pub fields_len: int,
}

/// The message type of a wire code from 1 through 4.
pub open spec fn type_of_code(b: u8) -> MessageType {
    if b == 1 {
        MessageType::MethodCall
    } else if b == 2 {
        MessageType::MethodReturn
    } else if b == 3 {
        MessageType::Error
    } else {
        MessageType::Signal
    }
}

/// The primary header denoted by the first 16 bytes, if they are sound:
/// a known endianness marker, a known type code, major version 1, and a
/// nonzero serial.
pub open spec fn header_of(s: Seq<u8>) -> Option<HeaderTree> {
    if s.len() < 16 {
        None
    } else if s[0] != 108 && s[0] != 66 {
        None
    } else if !(1 <= s[1] <= 4) {
        None
    } else if s[3] != 1 {
        None
    } else {
        let little = s[0] == 108;
        if u32_at(s, 8, little) == 0 {
            None
        } else {
            Some(
                HeaderTree {
                    little,
                    msg_type: type_of_code(s[1]),
                    flags: s[2],
                    body_len: u32_at(s, 4, little),
                    serial: u32_at(s, 8, little),
                    fields_len: u32_at(s, 12, little),
                },
            )
        }
    }
}

/// Which check of the primary header fails first.
pub open spec fn header_error(s: Seq<u8>) -> MessageError {
    if s.len() < 16 {
        MessageError::ShortHeader
    } else if s[0] != 108 && s[0] != 66 {
        MessageError::UnknownEndianness
    } else if !(1 <= s[1] <= 4) {
        MessageError::UnknownType
    } else if s[3] != 1 {
        MessageError::UnknownVersion
    } else {
        MessageError::ZeroSerial
    }
}

/// The value of the four bytes at `pos`, little-endian when `little`.
fn read_u32_at(bytes: &[u8], pos: usize, little: bool) -> (r: u32)
    requires
        pos + 4 <= bytes@.len(),
    ensures
        r as int == u32_at(bytes@, pos as int, little),
{
    let b0 = bytes[pos] as u32;
    let b1 = bytes[pos + 1] as u32;
    let b2 = bytes[pos + 2] as u32;
    let b3 = bytes[pos + 3] as u32;
    if little {
        b0 + 256 * b1 + 65536 * b2 + 16777216 * b3
    } else {
        b3 + 256 * b2 + 65536 * b1 + 16777216 * b0
    }
}

/// A frame of which only the primary header has been read.
#[derive(Debug)]
pub struct PartialMessage {
    /// Whether the frame is little-endian.
    pub little: bool,
    /// The type of the message.
    pub msg_type: MessageType,
    /// The header flags.
    pub flags: u8,
    /// The announced length in bytes of the body.
    pub body_len: u32,
    /// The serial of the message.
    pub serial: u32,
    /// The announced length in bytes of the fields array.
    pub fields_len: u32,
}

impl PartialMessage {
    /// How many bytes beyond the first 16 complete the frame: the fields
    /// array, its padding to an 8-byte boundary, and the body.
    pub fn bytes_to_completion(&self) -> (r: u64)
        ensures
            r as int == self.fields_len + pad8(self.fields_len as int) + self.body_len,
    {
        let fl = self.fields_len as u64;
        let pad = (8 - fl % 8) % 8;
        fl + pad + (self.body_len as u64)
    }

    /// Decode the fields array and the body from the trailing bytes of the
    /// frame, which must be exactly the announced completion count.
    pub fn add_bytes(self, trailing: &[u8]) -> (r: Result<Message, MessageError>)
        ensures
            r is Ok <==> trailing@.len() == self.fields_len + pad8(self.fields_len as int)
                + self.body_len,
            r matches Ok(m) ==> {
                &&& m.little == self.little
                &&& m.msg_type == self.msg_type
                &&& m.flags == self.flags
                &&& m.serial == self.serial
                &&& m.raw_fields@ == trailing@.subrange(0, self.fields_len as int)
                &&& m.body@ == trailing@.subrange(
                    self.fields_len + pad8(self.fields_len as int),
                    trailing@.len() as int,
                )
            },
            r matches Err(e) ==> e == MessageError::LengthMismatch,
    {
        let expect = self.bytes_to_completion();
        if trailing.len() as u64 != expect {
            return Err(MessageError::LengthMismatch);
        }
        let fl = self.fields_len as usize;
        let pad = (8 - fl % 8) % 8;
        let raw_fields = copy_range(trailing, 0, fl);
        let body = copy_range(trailing, fl + pad, trailing.len());
        Ok(
            Message {
                little: self.little,
                msg_type: self.msg_type,
                flags: self.flags,
                serial: self.serial,
                raw_fields,
                body,
            },
        )
    }
}

/// A complete message: primary-header data, the raw fields array, and the
/// body.
#[derive(Debug)]
pub struct Message {
    /// Whether the frame is little-endian.
    pub little: bool,
    /// The type of the message.
    pub msg_type: MessageType,
    /// The header flags.
    pub flags: u8,
    /// The serial, zero when none has been assigned yet.
    pub serial: u32,
    /// The raw bytes of the header-fields array.
    pub raw_fields: Vec<u8>,
    /// The raw bytes of the body.
    pub body: Vec<u8>,
}

/// The whole wire frame of a little-endian message: primary header, fields
/// array, padding to 8, body.
pub open spec fn encode_message(
    msg_type: MessageType,
    flags: u8,
    serial: u32,
    raw_fields: Seq<u8>,
    body: Seq<u8>,
) -> Seq<u8> {
    seq![108u8, type_code(msg_type), flags, 1u8] + le4(body.len() as int) + le4(serial as int)
        + le4(raw_fields.len() as int) + raw_fields + zeros(pad8(raw_fields.len() as int)) + body
}

/// Append the four little-endian bytes of `n`.
fn push_le4(v: &mut Vec<u8>, n: u32)
    ensures
        final(v)@ == old(v)@ + le4(n as int),
{
    v.push((n % 256) as u8);
    v.push(((n / 256) % 256) as u8);
    v.push(((n / 65536) % 256) as u8);
    v.push(((n / 16777216) % 256) as u8);
    proof {
        assert(v@ =~= old(v)@ + le4(n as int));
    }
}

/// Append zero bytes until the length is a multiple of 8.
fn pad_to_8(v: &mut Vec<u8>)
    ensures
        final(v)@ == old(v)@ + zeros(pad8(old(v)@.len() as int)),
        final(v)@.len() % 8 == 0,
        final(v)@.len() < old(v)@.len() + 8,
{
    let ghost n0 = v@.len() as int;
    while v.len() % 8 != 0
        invariant
            v@.len() >= n0,
            v@.len() <= n0 + pad8(n0),
            v@ == old(v)@ + zeros(v@.len() - n0),
            v@.len() == old(v)@.len() + (v@.len() - n0),
        decreases (8 - (v@.len() % 8)) % 8,
    {
        v.push(0);
        proof {
            assert(v@ =~= old(v)@ + zeros(v@.len() - n0));
        }
    }
    proof {
        assert(v@.len() - n0 == pad8(n0));
    }
}

impl Message {
    /// The wire frame of `self`, always emitted little-endian.
    pub fn as_bytes(&self) -> (r: Vec<u8>)
        requires
            self.body@.len() < 0x100000000,
            self.raw_fields@.len() < 0x100000000,
        ensures
            r@ == encode_message(self.msg_type, self.flags, self.serial, self.raw_fields@, self.body@),
    {
        let mut r: Vec<u8> = Vec::new();
        r.push(108);
        let t: u8 = match self.msg_type {
            MessageType::MethodCall => 1,
            MessageType::MethodReturn => 2,
            MessageType::Error => 3,
            MessageType::Signal => 4,
        };
        r.push(t);
        r.push(self.flags);
        r.push(1);
        push_le4(&mut r, self.body.len() as u32);
        push_le4(&mut r, self.serial as u32);
        push_le4(&mut r, self.raw_fields.len() as u32);
        let mut i: usize = 0;
        let n = self.raw_fields.len();
        while i < n
            invariant
                i <= n,
                n == self.raw_fields@.len(),
                r@ == seq![108u8, type_code(self.msg_type), self.flags, 1u8] + le4(
                    self.body@.len() as int,
                ) + le4(self.serial as int) + le4(self.raw_fields@.len() as int)
                    + self.raw_fields@.take(i as int),
            decreases n - i,
        {
            r.push(self.raw_fields[i]);
            proof {
                assert(self.raw_fields@.take(i as int).push(self.raw_fields@[i as int])
                    =~= self.raw_fields@.take(i as int + 1));
                assert(r@ =~= seq![108u8, type_code(self.msg_type), self.flags, 1u8] + le4(
                    self.body@.len() as int,
                ) + le4(self.serial as int) + le4(self.raw_fields@.len() as int)
                    + self.raw_fields@.take(i as int + 1));
            }
            i = i + 1;
        }
        proof {
            assert(self.raw_fields@.take(n as int) =~= self.raw_fields@);
            assert(r@.len() as int == 16 + self.raw_fields@.len());
            assert(pad8(r@.len() as int) == pad8(self.raw_fields@.len() as int)) by {
                assert((16 + self.raw_fields@.len() as int) % 8 == (
                self.raw_fields@.len() as int) % 8) by (nonlinear_arith);
            }
        }
        pad_to_8(&mut r);
        let mut j: usize = 0;
        let m = self.body.len();
        let ghost before_body = r@;
        while j < m
            invariant
                j <= m,
                m == self.body@.len(),
                r@ == before_body + self.body@.take(j as int),
            decreases m - j,
        {
            r.push(self.body[j]);
            proof {
                assert(self.body@.take(j as int).push(self.body@[j as int]) =~= self.body@.take(
                    j as int + 1,
                ));
                assert(r@ =~= before_body + self.body@.take(j as int + 1));
            }
            j = j + 1;
        }
        proof {
            assert(self.body@.take(m as int) =~= self.body@);
            assert(r@ =~= encode_message(
                self.msg_type,
                self.flags,
                self.serial,
                self.raw_fields@,
                self.body@,
            ));
        }
        r
    }

    /// Decode a primary header: the first 16 bytes of a frame.
    pub fn from_bytes(bytes: &[u8]) -> (r: Result<PartialMessage, MessageError>)
        ensures
            r is Ok <==> header_of(bytes@) is Some,
            r matches Ok(p) ==> header_of(bytes@) == Some(
                HeaderTree {
                    little: p.little,
                    msg_type: p.msg_type,
                    flags: p.flags,
                    body_len: p.body_len as int,
                    serial: p.serial as int,
                    fields_len: p.fields_len as int,
                },
            ),
            r matches Err(e) ==> e == header_error(bytes@),
    {
        if bytes.len() < 16 {
            return Err(MessageError::ShortHeader);
        }
        let e = bytes[0];
        if e != 108 && e != 66 {
            return Err(MessageError::UnknownEndianness);
        }
        let little = e == 108;
        let t = bytes[1];
        if t < 1 || t > 4 {
            return Err(MessageError::UnknownType);
        }
        if bytes[3] != 1 {
            return Err(MessageError::UnknownVersion);
        }
        let serial = read_u32_at(bytes, 8, little);
        if serial == 0 {
            return Err(MessageError::ZeroSerial);
        }
        let msg_type = match t {
            1 => MessageType::MethodCall,
            2 => MessageType::MethodReturn,
            3 => MessageType::Error,
            _ => MessageType::Signal,
        };
        Ok(
            PartialMessage {
                little,
                msg_type,
                flags: bytes[2],
                body_len: read_u32_at(bytes, 4, little),
                serial,
                fields_len: read_u32_at(bytes, 12, little),
            },
        )
    }

    /// The type of the message.
    pub fn message_type(&self) -> (r: MessageType)
        ensures
            r == self.msg_type,
    {
        self.msg_type
    }

    /// The serial of the message.
    pub fn serial(&self) -> (r: u32)
        ensures
            r == self.serial,
    {
        self.serial
    }

    /// The raw bytes of the body.
    pub fn body(&self) -> (r: &Vec<u8>)
        ensures
            r@ == self.body@,
    {
        &self.body
    }

    /// The known header fields, decoded from the raw fields array.
    pub fn fields(&self) -> (r: Result<Vec<MessageField>, MessageFieldError>)
        ensures
            r is Ok <==> parse_fields_at(self.raw_fields@, 0, self.little) is Some,
            r matches Ok(v) ==> Some(field_views(v@)) == parse_fields_at(
                self.raw_fields@,
                0,
                self.little,
            ),
            r matches Err(e) ==> e == MessageFieldError::Malformed,
    {
        parse_fields_from(self.raw_fields.as_slice(), 0, self.little)
    }

    /// The signature of the body, read from the `Signature` header field;
    /// `None` when the field is absent or the fields array is malformed.
    pub fn body_signature(&self) -> (r: Option<Signature>)
        ensures
            match parse_fields_at(self.raw_fields@, 0, self.little) {
                Some(fields) => match find_signature(fields) {
                    Some(t) => r matches Some(sig) && sig@ == t,
                    None => r is None,
                },
                None => r is None,
            },
    {
        let fields = match self.fields() {
            Ok(f) => f,
            Err(_) => {
                return None;
            },
        };
        proof {
            lemma_field_views(fields@);
        }
        let ghost fvs = field_views(fields@);
        let n = fields.len();
        let mut i: usize = 0;
        proof {
            assert(fvs.skip(0) =~= fvs);
        }
        while i < n
            invariant
                i <= n,
                n == fields@.len(),
                fvs == field_views(fields@),
                fvs.len() == n,
                forall|j: int| 0 <= j < n ==> fvs[j] == fields@[j]@,
                Some(fvs) == parse_fields_at(self.raw_fields@, 0, self.little),
                find_signature(fvs) == find_signature(fvs.skip(i as int)),
            decreases n - i,
        {
            proof {
                assert(fvs.skip(i as int)[0] == fvs[i as int]);
                assert(fvs.skip(i as int).drop_first() =~= fvs.skip(i as int + 1));
            }
            match &fields[i] {
                MessageField::Signature(s) => {
                    proof {
                        assert(fields@[i as int]@ == FieldTree::Signature(s@));
                        assert(fvs.skip(i as int)[0] == FieldTree::Signature(s@));
                        assert(find_signature(fvs.skip(i as int)) == Some(s@));
                    }
                    return Some(s.clone());
                },
                _ => {},
            }
            i = i + 1;
        }
        proof {
            assert(fvs.skip(n as int) =~= Seq::<FieldTree>::empty());
        }
        None
    }
}

/// The first `Signature` field of a run of header fields, if any.
pub open spec fn find_signature(fields: Seq<FieldTree>) -> Option<SigTree>
    decreases fields,
{
    if fields.len() == 0 {
        None
    } else {
        match fields[0] {
            FieldTree::Signature(t) => Some(t),
            _ => find_signature(fields.drop_first()),
        }
    }
}

/// The first `ReplySerial` field of a run of header fields, if any.
pub open spec fn find_reply_serial(fields: Seq<FieldTree>) -> Option<u32>
    decreases fields,
{
    if fields.len() == 0 {
        None
    } else {
        match fields[0] {
            FieldTree::ReplySerial(n) => Some(n),
            _ => find_reply_serial(fields.drop_first()),
        }
    }
}

/// The first `ErrorName` field of a run of header fields, if any.
pub open spec fn find_error_name(fields: Seq<FieldTree>) -> Option<Seq<u8>>
    decreases fields,
{
    if fields.len() == 0 {
        None
    } else {
        match fields[0] {
            FieldTree::ErrorName(b) => Some(b),
            _ => find_error_name(fields.drop_first()),
        }
    }
}

/// The string field denoted by a known code.
pub open spec fn string_field_of(code: u8, b: Seq<u8>) -> FieldTree {
    if code == 1 {
        FieldTree::Path(b)
    } else if code == 2 {
        FieldTree::Interface(b)
    } else if code == 3 {
        FieldTree::Member(b)
    } else if code == 4 {
        FieldTree::ErrorName(b)
    } else if code == 6 {
        FieldTree::Destination(b)
    } else {
        FieldTree::Sender(b)
    }
}

/// A string value at `q`: a four-byte length, the bytes, a terminating
/// nul. The result carries the bytes and the position just past the nul.
pub open spec fn parse_str4_at(s: Seq<u8>, q: int, little: bool) -> Option<(Seq<u8>, int)> {
    if q < 0 || q + 4 > s.len() {
        None
    } else {
        let l = u32_at(s, q, little);
        if q + 4 + l + 1 > s.len() {
            None
        } else if s[q + 4 + l] != 0 {
            None
        } else {
            Some((s.subrange(q + 4, q + 4 + l), q + 4 + l + 1))
        }
    }
}

/// A signature value at `q`: a one-byte length, the bytes, a terminating
/// nul. The result carries the bytes and the position just past the nul.
pub open spec fn parse_sig1_at(s: Seq<u8>, q: int) -> Option<(Seq<u8>, int)> {
    if q < 0 || q + 1 > s.len() {
        None
    } else {
        let l = s[q] as int;
        if q + 1 + l + 1 > s.len() {
            None
        } else if s[q + 1 + l] != 0 {
            None
        } else {
            Some((s.subrange(q + 1, q + 1 + l), q + 1 + l + 1))
        }
    }
}

/// Parse the header-fields array from `pos` to its end. Each entry starts
/// on an 8-byte boundary: a field code, the one-byte signature of its
/// value, then the value. An unknown code or a known field with the wrong
/// value type is an error.
pub open spec fn parse_fields_at(s: Seq<u8>, pos: int, little: bool) -> Option<Seq<FieldTree>>
    decreases s.len() - pos,
{
    if pos == s.len() {
        Some(Seq::empty())
    } else if !(0 <= pos < s.len()) {
        None
    } else {
        let p = pos + pad8(pos);
        if p + 4 > s.len() {
            None
        } else if s[p + 1] != 1 || s[p + 3] != 0 {
            None
        } else {
            let code = s[p];
            if code == 1 || code == 2 || code == 3 || code == 4 || code == 6 || code == 7 {
                let want: u8 = if code == 1 {
                    111
                } else {
                    115
                };
                if s[p + 2] != want {
                    None
                } else {
                    match parse_str4_at(s, p + 4, little) {
                        Some((b, next)) => if pos < next <= s.len() {
                            match parse_fields_at(s, next, little) {
                                Some(rest) => Some(seq![string_field_of(code, b)] + rest),
                                None => None,
                            }
                        } else {
                            None
                        },
                        None => None,
                    }
                }
            } else if code == 5 {
                if s[p + 2] != 117 {
                    None
                } else if p + 8 > s.len() {
                    None
                } else {
                    match parse_fields_at(s, p + 8, little) {
                        Some(rest) => Some(
                            seq![FieldTree::ReplySerial(u32_at(s, p + 4, little) as u32)] + rest,
                        ),
                        None => None,
                    }
                }
            } else if code == 8 {
                if s[p + 2] != 103 {
                    None
                } else {
                    match parse_sig1_at(s, p + 4) {
                        Some((sb, next)) => if pos < next <= s.len() {
                            match parse_top(sb) {
                                Some(t) => match parse_fields_at(s, next, little) {
                                    Some(rest) => Some(seq![FieldTree::Signature(t)] + rest),
                                    None => None,
                                },
                                None => None,
                            }
                        } else {
                            None
                        },
                        None => None,
                    }
                }
            } else {
                None
            }
        }
    }
}

/// Read a string value at `q`, building the bytes.
fn read_str4(bytes: &[u8], q: usize, little: bool) -> (r: Option<(Vec<u8>, usize)>)
    requires
        q <= bytes@.len(),
    ensures
        match r {
            Some(p) => parse_str4_at(bytes@, q as int, little) == Some((p.0@, p.1 as int)) && q
                < p.1 <= bytes@.len(),
            None => parse_str4_at(bytes@, q as int, little) is None,
        },
{
    if bytes.len() - q < 4 {
        return None;
    }
    let l = read_u32_at(bytes, q, little);
    let rem = bytes.len() - (q + 4);
    if (rem as u64) < (l as u64) + 1 {
        return None;
    }
    let lu = l as usize;
    if bytes[q + 4 + lu] != 0 {
        return None;
    }
    Some((copy_range(bytes, q + 4, q + 4 + lu), q + 4 + lu + 1))
}

/// Read a signature value at `q`, building the bytes.
fn read_sig1(bytes: &[u8], q: usize) -> (r: Option<(Vec<u8>, usize)>)
    requires
        q <= bytes@.len(),
    ensures
        match r {
            Some(p) => parse_sig1_at(bytes@, q as int) == Some((p.0@, p.1 as int)) && q < p.1
                <= bytes@.len(),
            None => parse_sig1_at(bytes@, q as int) is None,
        },
{
    if bytes.len() - q < 1 {
        return None;
    }
    let l = bytes[q] as usize;
    if bytes.len() - (q + 1) < l + 1 {
        return None;
    }
    if bytes[q + 1 + l] != 0 {
        return None;
    }
    Some((copy_range(bytes, q + 1, q + 1 + l), q + 1 + l + 1))
}

/// Put a field in front of a run of fields.
fn cons_field(f: MessageField, rest: Vec<MessageField>) -> (r: Vec<MessageField>)
    ensures
        field_views(r@) == seq![f@] + field_views(rest@),
{
    let ghost rest0 = rest@;
    let ghost fv = f@;
    let mut out = rest;
    out.insert(0, f);
    proof {
        assert(out@[0] == out@.index(0));
        assert(out@.drop_first() =~= rest0);
        assert(field_views(out@) =~= seq![fv] + field_views(rest0));
    }
    out
}

/// Parse the header-fields array from `pos` to its end, building the
/// fields.
#[verifier::rlimit(100)]
#[verifier::spinoff_prover]
fn parse_fields_from(bytes: &[u8], pos: usize, little: bool) -> (r: Result<
    Vec<MessageField>,
    MessageFieldError,
>)
    requires
        pos <= bytes@.len(),
    ensures
        r is Ok <==> parse_fields_at(bytes@, pos as int, little) is Some,
        r matches Ok(v) ==> Some(field_views(v@)) == parse_fields_at(bytes@, pos as int, little),
        r matches Err(e) ==> e == MessageFieldError::Malformed,
    decreases bytes@.len() - pos,
{
    let n = bytes.len();
    if pos == n {
        return Ok(Vec::new());
    }
    let pad = (8 - pos % 8) % 8;
    if n - pos < pad + 4 {
        return Err(MessageFieldError::Malformed);
    }
    let p = pos + pad;
    if bytes[p + 1] != 1 || bytes[p + 3] != 0 {
        return Err(MessageFieldError::Malformed);
    }
    let code = bytes[p];
    if code == 1 || code == 2 || code == 3 || code == 4 || code == 6 || code == 7 {
        let want: u8 = if code == 1 {
            111
        } else {
            115
        };
        if bytes[p + 2] != want {
            return Err(MessageFieldError::Malformed);
        }
        let (b, next) = match read_str4(bytes, p + 4, little) {
            Some(x) => x,
            None => {
                return Err(MessageFieldError::Malformed);
            },
        };
        let f = match code {
            1 => MessageField::Path(b),
            2 => MessageField::Interface(b),
            3 => MessageField::Member(b),
            4 => MessageField::ErrorName(b),
            6 => MessageField::Destination(b),
            _ => MessageField::Sender(b),
        };
        let rest = match parse_fields_from(bytes, next, little) {
            Ok(v) => v,
            Err(e) => {
                return Err(e);
            },
        };
        Ok(cons_field(f, rest))
    } else if code == 5 {
        if bytes[p + 2] != 117 {
            return Err(MessageFieldError::Malformed);
        }
        if n - p < 8 {
            return Err(MessageFieldError::Malformed);
        }
        let f = MessageField::ReplySerial(read_u32_at(bytes, p + 4, little));
        let rest = match parse_fields_from(bytes, p + 8, little) {
            Ok(v) => v,
            Err(e) => {
                return Err(e);
            },
        };
        Ok(cons_field(f, rest))
    } else if code == 8 {
        if bytes[p + 2] != 103 {
            return Err(MessageFieldError::Malformed);
        }
        let (sb, next) = match read_sig1(bytes, p + 4) {
            Some(x) => x,
            None => {
                return Err(MessageFieldError::Malformed);
            },
        };
        let sig = match Signature::from_bytes(sb.as_slice()) {
            Ok(sig) => sig,
            Err(_) => {
                return Err(MessageFieldError::Malformed);
            },
        };
        let rest = match parse_fields_from(bytes, next, little) {
            Ok(v) => v,
            Err(e) => {
                return Err(e);
            },
        };
        Ok(cons_field(MessageField::Signature(sig), rest))
    } else {
        Err(MessageFieldError::Malformed)
    }
}

/// Whether a field fits its wire form: a string value shorter than 2^32
/// bytes, a signature string of at most 255 bytes.
pub open spec fn encodable_field(f: FieldTree) -> bool {
    match f {
        FieldTree::Path(b) => b.len() < 0x100000000,
        FieldTree::Interface(b) => b.len() < 0x100000000,
        FieldTree::Member(b) => b.len() < 0x100000000,
        FieldTree::ErrorName(b) => b.len() < 0x100000000,
        FieldTree::ReplySerial(_) => true,
        FieldTree::Destination(b) => b.len() < 0x100000000,
        FieldTree::Sender(b) => b.len() < 0x100000000,
        FieldTree::Signature(t) => str_bytes(t, false).len() <= 255,
    }
}

/// Whether every one of the given fields fits its wire form.
pub open spec fn all_encodable(l: Seq<FieldTree>) -> bool {
    forall|i: int| 0 <= i < l.len() ==> encodable_field(#[trigger] l[i])
}

/// Encode a run of header fields into the bytes of a fields array.
#[verifier::rlimit(100)]
#[verifier::spinoff_prover]
fn encode_fields(fields: &Vec<MessageField>) -> (r: Result<Vec<u8>, MessageError>)
    ensures
        r is Ok <==> all_encodable(field_views(fields@)),
        r matches Ok(v) ==> v@ == fields_wire(field_views(fields@), 0),
        r matches Err(e) ==> e == MessageError::TooLarge,
{
    proof {
        lemma_field_views(fields@);
    }
    let ghost fvs = field_views(fields@);
    let mut v: Vec<u8> = Vec::new();
    let n = fields.len();
    let mut i: usize = 0;
    proof {
        assert(fvs.take(0) =~= Seq::<FieldTree>::empty());
    }
    while i < n
        invariant
            i <= n,
            n == fields@.len(),
            fvs == field_views(fields@),
            fvs.len() == n,
            forall|j: int| 0 <= j < n ==> fvs[j] == fields@[j]@,
            forall|j: int| 0 <= j < i ==> encodable_field(#[trigger] fvs[j]),
            v@ == fields_wire(fvs.take(i as int), 0),
        decreases n - i,
    {
        proof {
            lemma_fields_wire_snoc(fvs, i as int, 0);
        }
        let ghost before = v@;
        pad_to_8(&mut v);
        match &fields[i] {
            MessageField::ReplySerial(s) => {
                v.push(5);
                v.push(1);
                v.push(117);
                v.push(0);
                push_le4(&mut v, *s);
                proof {
                    assert(v@ =~= before + zeros(pad8(before.len() as int)) + field_entry(
                        fvs[i as int],
                    ));
                }
            },
            MessageField::Signature(s) => {
                let sb = s.to_bytes(false);
                if sb.len() > 255 {
                    return Err(MessageError::TooLarge);
                }
                v.push(8);
                v.push(1);
                v.push(103);
                v.push(0);
                v.push(sb.len() as u8);
                extend_vec(&mut v, sb.as_slice());
                v.push(0);
                proof {
                    assert(v@ =~= before + zeros(pad8(before.len() as int)) + field_entry(
                        fvs[i as int],
                    ));
                }
            },
            _ => {
                let (code, sigch, b): (u8, u8, &Vec<u8>) = match &fields[i] {
                    MessageField::Path(b) => (1, 111, b),
                    MessageField::Interface(b) => (2, 115, b),
                    MessageField::Member(b) => (3, 115, b),
                    MessageField::ErrorName(b) => (4, 115, b),
                    MessageField::Destination(b) => (6, 115, b),
                    MessageField::Sender(b) => (7, 115, b),
                    _ => unreached(),
                };
                if (b.len() as u64) >= 0x100000000u64 {
                    return Err(MessageError::TooLarge);
                }
                v.push(code);
                v.push(1);
                v.push(sigch);
                v.push(0);
                push_le4(&mut v, b.len() as u32);
                extend_vec(&mut v, b.as_slice());
                v.push(0);
                proof {
                    assert(v@ =~= before + zeros(pad8(before.len() as int)) + field_entry(
                        fvs[i as int],
                    ));
                }
            },
        }
        i = i + 1;
    }
    proof {
        assert(fvs.take(n as int) =~= fvs);
    }
    Ok(v)
}

/// The header fields of a method call: the path, then the destination and
/// the interface where given, the member, and the body signature where the
/// call has a body.
pub open spec fn method_fields(
    path: Seq<u8>,
    dest: Option<Seq<u8>>,
    iface: Option<Seq<u8>>,
    member: Seq<u8>,
    sig: Option<SigTree>,
) -> Seq<FieldTree> {
    seq![FieldTree::Path(path)] + (match dest {
        Some(d) => seq![FieldTree::Destination(d)],
        None => Seq::empty(),
    }) + (match iface {
        Some(x) => seq![FieldTree::Interface(x)],
        None => Seq::empty(),
    }) + seq![FieldTree::Member(member)] + (match sig {
        Some(t) => seq![FieldTree::Signature(t)],
        None => Seq::empty(),
    })
}

impl Message {
    /// A method call to `path` / `method_name`, little-endian, with no
    /// serial assigned yet, addressed to `destination` on `iface` when
    /// those are given, and carrying the given body and its signature.
    pub fn method(
        destination: Option<&str>,
        path: &str,
        iface: Option<&str>,
        method_name: &str,
        body: Option<(&Signature, Vec<u8>)>,
    ) -> (r: Result<Message, MessageError>)
        ensures
            ({
                let fvs = method_fields(
                    path.spec_bytes(),
                    match destination {
                        Some(d) => Some(d.spec_bytes()),
                        None => None,
                    },
                    match iface {
                        Some(x) => Some(x.spec_bytes()),
                        None => None,
                    },
                    method_name.spec_bytes(),
                    match body {
                        Some(b) => Some(b.0@),
                        None => None,
                    },
                );
                &&& (r is Ok <==> all_encodable(fvs))
                &&& (r matches Ok(m) ==> {
                    &&& m.little
                    &&& m.msg_type == MessageType::MethodCall
                    &&& m.flags == 0
                    &&& m.serial == 0
                    &&& m.raw_fields@ == fields_wire(fvs, 0)
                    &&& m.body@ == (match body {
                        Some(b) => b.1@,
                        None => Seq::<u8>::empty(),
                    })
                })
                &&& (r matches Err(e) ==> e == MessageError::TooLarge)
            }),
    {
        let ghost fvs = method_fields(
            path.spec_bytes(),
            match destination {
                Some(d) => Some(d.spec_bytes()),
                None => None,
            },
            match iface {
                Some(x) => Some(x.spec_bytes()),
                None => None,
            },
            method_name.spec_bytes(),
            match &body {
                Some(b) => Some(b.0@),
                None => None,
            },
        );
        let mut fs: Vec<MessageField> = Vec::new();
        fs.push(MessageField::Path(bytes_of_str(path)));
        match destination {
            Some(d) => fs.push(MessageField::Destination(bytes_of_str(d))),
            None => {},
        }
        match iface {
            Some(x) => fs.push(MessageField::Interface(bytes_of_str(x))),
            None => {},
        }
        fs.push(MessageField::Member(bytes_of_str(method_name)));
        let body_vec: Vec<u8> = match body {
            Some((s, bv)) => {
                fs.push(MessageField::Signature(s.clone()));
                bv
            },
            None => Vec::new(),
        };
        proof {
            lemma_field_views(fs@);
            assert(field_views(fs@) =~= fvs);
        }
        let raw_fields = match encode_fields(&fs) {
            Ok(v) => v,
            Err(e) => {
                return Err(e);
            },
        };
        Ok(
            Message {
                little: true,
                msg_type: MessageType::MethodCall,
                flags: 0,
                serial: 0,
                raw_fields,
                body: body_vec,
            },
        )
    }

    /// A little-endian message assembled from its parts.
    pub fn from_parts(
        msg_type: MessageType,
        serial: u32,
        fields: Vec<MessageField>,
        body: Vec<u8>,
    ) -> (r: Result<Message, MessageError>)
        ensures
            r is Ok <==> all_encodable(field_views(fields@)),
            r matches Ok(m) ==> {
                &&& m.little
                &&& m.msg_type == msg_type
                &&& m.flags == 0
                &&& m.serial == serial
                &&& m.raw_fields@ == fields_wire(field_views(fields@), 0)
                &&& m.body@ == body@
            },
            r matches Err(e) ==> e == MessageError::TooLarge,
    {
        let raw_fields = match encode_fields(&fields) {
            Ok(v) => v,
            Err(e) => {
                return Err(e);
            },
        };
        Ok(Message { little: true, msg_type, flags: 0, serial, raw_fields, body })
    }

    /// The same message with its serial set.
    pub fn set_serial(self, serial: u32) -> (r: Message)
        ensures
            r.little == self.little,
            r.msg_type == self.msg_type,
            r.flags == self.flags,
            r.serial == serial,
            r.raw_fields@ == self.raw_fields@,
            r.body@ == self.body@,
    {
        Message {
            little: self.little,
            msg_type: self.msg_type,
            flags: self.flags,
            serial,
            raw_fields: self.raw_fields,
            body: self.body,
        }
    }
}

/// A window into a window: the bytes from `a` to `b` of a matched span.
proof fn lemma_subrange_shift(s: Seq<u8>, pos: int, w: Seq<u8>, a: int, b: int)
    requires
        0 <= pos,
        pos + w.len() <= s.len(),
        s.subrange(pos, pos + w.len()) == w,
        0 <= a <= b <= w.len(),
    ensures
        s.subrange(pos + a, pos + b) == w.subrange(a, b),
{
    assert forall|j: int| 0 <= j < b - a implies s.subrange(pos + a, pos + b)[j] == w.subrange(
        a,
        b,
    )[j] by {
        assert(s.subrange(pos + a, pos + b)[j] == s[pos + a + j]);
        assert(s.subrange(pos, pos + w.len())[a + j] == s[pos + (a + j)]);
        assert(pos + a + j == pos + (a + j));
    }
    assert(s.subrange(pos + a, pos + b) =~= w.subrange(a, b));
}

/// Reading back the four little-endian bytes of `n` gives `n`.
proof fn lemma_le4_read_back(s: Seq<u8>, q: int, n: int)
    requires
        0 <= n < 0x100000000,
        0 <= q,
        q + 4 <= s.len(),
        s.subrange(q, q + 4) == le4(n),
    ensures
        u32_at(s, q, true) == n,
{
    assert(s.subrange(q, q + 4)[0] == s[q]);
    assert(s.subrange(q, q + 4)[1] == s[q + 1]);
    assert(s.subrange(q, q + 4)[2] == s[q + 2]);
    assert(s.subrange(q, q + 4)[3] == s[q + 3]);
    assert(n % 256 + 256 * ((n / 256) % 256) + 65536 * ((n / 65536) % 256) + 16777216 * ((n
        / 16777216) % 256) == n) by (nonlinear_arith)
        requires
            0 <= n < 0x100000000,
    ;
}

/// Whether the value of a field reads back as itself: the signature of a
/// body must not be a structure of exactly one field, whose unwrapped wire
/// form reads as the field itself.
pub open spec fn rereadable_field(f: FieldTree) -> bool {
    match f {
        FieldTree::Signature(t) => (t == SigTree::Unit || crate::parse::wf_node(t)) && (
        t matches SigTree::Structure(fs) ==> fs.len() != 1),
        _ => true,
    }
}

/// Whether every one of the given fields reads back as itself.
pub open spec fn all_rereadable(l: Seq<FieldTree>) -> bool {
    forall|i: int| 0 <= i < l.len() ==> rereadable_field(#[trigger] l[i])
}

/// Parsing one wire entry: with the padding and the entry of `f` at `pos`,
/// the parser reads exactly `f` and continues past the entry.
#[verifier::rlimit(100)]
#[verifier::spinoff_prover]
proof fn lemma_entry_read_back(f: FieldTree, s: Seq<u8>, pos: int)
    requires
        encodable_field(f),
        rereadable_field(f),
        0 <= pos,
        pos + pad8(pos) + field_entry(f).len() <= s.len(),
        s.subrange(pos, pos + pad8(pos) + field_entry(f).len()) == zeros(pad8(pos)) + field_entry(
            f,
        ),
    ensures
        parse_fields_at(s, pos, true) == (match parse_fields_at(
            s,
            pos + pad8(pos) + field_entry(f).len(),
            true,
        ) {
            Some(rest) => Some(seq![f] + rest),
            None => None,
        }),
{
    let pad = pad8(pos);
    let e = field_entry(f);
    let w = zeros(pad) + e;
    let p = pos + pad;
    assert forall|i: int| 0 <= i < w.len() implies s[pos + i] == w[i] by {
        assert(s.subrange(pos, pos + w.len())[i] == s[pos + i]);
    }
    assert(pad >= 0);
    assert(zeros(pad).len() == pad);
    assert(w[pad + 0] == e[0] && w[pad + 1] == e[1] && w[pad + 2] == e[2] && w[pad + 3] == e[3]);
    assert(s[pos + (pad + 0)] == e[0]);
    assert(s[pos + (pad + 1)] == e[1]);
    assert(s[pos + (pad + 2)] == e[2]);
    assert(s[pos + (pad + 3)] == e[3]);
    match f {
        FieldTree::ReplySerial(nr) => {
            assert(e =~= seq![5u8, 1u8, 117u8, 0u8] + le4(nr as int));
            lemma_subrange_shift(s, pos, w, pad + 4, pad + 8);
            assert(w.subrange(pad + 4, pad + 8) =~= le4(nr as int));
            lemma_le4_read_back(s, p + 4, nr as int);
        },
        FieldTree::Signature(t) => {
            let sb = crate::signature::str_bytes(t, false);
            assert(e =~= seq![8u8, 1u8, 103u8, 0u8] + seq![sb.len() as u8] + sb + seq![0u8]);
            assert((sb.len() as u8) as int == sb.len());
            lemma_subrange_shift(s, pos, w, pad + 4, pad + 5);
            assert(w.subrange(pad + 4, pad + 5) =~= seq![sb.len() as u8]);
            assert(s.subrange(p + 4, p + 5)[0] == s[p + 4]);
            assert(s[p + 4] == sb.len() as u8);
            lemma_subrange_shift(s, pos, w, pad + 5 + sb.len() as int, pad + 6 + sb.len() as int);
            assert(w.subrange(pad + 5 + sb.len() as int, pad + 6 + sb.len() as int)
                =~= seq![0u8]);
            assert(s.subrange(p + 5 + sb.len() as int, p + 6 + sb.len() as int)[0] == s[p + 5
                + sb.len()]);
            assert(s[p + 5 + sb.len()] == 0);
            lemma_subrange_shift(s, pos, w, pad + 5, pad + 5 + sb.len() as int);
            assert(w.subrange(pad + 5, pad + 5 + sb.len() as int) =~= sb);
            crate::parse::lemma_print_parse_no_parens_round_trip(t);
            assert(parse_sig1_at(s, p + 4) == Some((sb, p + 5 + sb.len() + 1)));
        },
        _ => {
            let b = string_field_bytes(f);
            let code = e[0];
            assert(e =~= seq![code, 1u8, string_sig_code(f), 0u8] + le4(b.len() as int) + b
                + seq![0u8]);
            lemma_subrange_shift(s, pos, w, pad + 4, pad + 8);
            assert(w.subrange(pad + 4, pad + 8) =~= le4(b.len() as int));
            lemma_le4_read_back(s, p + 4, b.len() as int);
            lemma_subrange_shift(s, pos, w, pad + 8 + b.len() as int, pad + 9 + b.len() as int);
            assert(w.subrange(pad + 8 + b.len() as int, pad + 9 + b.len() as int) =~= seq![0u8]);
            assert(s.subrange(p + 8 + b.len() as int, p + 9 + b.len() as int)[0] == s[p + 8
                + b.len()]);
            assert(s[p + 8 + b.len()] == 0);
            lemma_subrange_shift(s, pos, w, pad + 8, pad + 8 + b.len() as int);
            assert(w.subrange(pad + 8, pad + 8 + b.len() as int) =~= b);
            assert(parse_str4_at(s, p + 4, true) == Some((b, p + 8 + b.len() + 1)));
            assert(string_field_of(code, b) == f);
        },
    }
}

/// Decoding the wire form of a run of encodable fields gives the run back,
/// when the wire form is exactly the rest of the buffer.
pub proof fn lemma_fields_wire_read_back(l: Seq<FieldTree>, s: Seq<u8>, pos: int)
    requires
        all_encodable(l),
        all_rereadable(l),
        0 <= pos,
        s.len() == pos + fields_wire(l, pos).len(),
        s.subrange(pos, s.len() as int) == fields_wire(l, pos),
    ensures
        parse_fields_at(s, pos, true) == Some(l),
    decreases l,
{
    if l.len() == 0 {
        assert(l =~= Seq::<FieldTree>::empty());
    } else {
        let f = l[0];
        let rest = l.drop_first();
        let w = fields_wire(l, pos);
        let padded = zeros(pad8(pos)) + field_entry(f);
        let next = pos + padded.len();
        assert(w == padded + fields_wire(rest, next));
        lemma_subrange_shift(s, pos, w, 0, padded.len() as int);
        assert(w.subrange(0, padded.len() as int) =~= padded);
        lemma_subrange_shift(s, pos, w, padded.len() as int, w.len() as int);
        assert(w.subrange(padded.len() as int, w.len() as int) =~= fields_wire(rest, next));
        lemma_entry_read_back(f, s, pos);
        lemma_fields_wire_read_back(rest, s, next);
        assert(seq![f] + rest =~= l);
    }
}

/// The string value of a string-valued field./// The string value of a string-valued field.
pub open spec fn string_field_bytes(f: FieldTree) -> Seq<u8> {
    match f {
        FieldTree::Path(b) => b,
        FieldTree::Interface(b) => b,
        FieldTree::Member(b) => b,
        FieldTree::ErrorName(b) => b,
        FieldTree::Destination(b) => b,
        FieldTree::Sender(b) => b,
        _ => arbitrary(),
    }
}

/// The one-byte value signature of a string-valued field.
pub open spec fn string_sig_code(f: FieldTree) -> u8 {
    if f is Path {
        111
    } else {
        115
    }
}

/// Decoding the wire form of a whole fields array gives the fields back.
pub proof fn lemma_fields_wire_round_trip(l: Seq<FieldTree>)
    requires
        all_encodable(l),
        all_rereadable(l),
    ensures
        parse_fields_at(fields_wire(l, 0), 0, true) == Some(l),
{
    let s = fields_wire(l, 0);
    assert(s.subrange(0, s.len() as int) =~= s);
    lemma_fields_wire_read_back(l, s, 0);
}

/// The bytes of a body whose signature is the single string type: a
/// four-byte length, the string bytes, a terminating nul, and nothing
/// more.
pub open spec fn string_body_of(s: Seq<u8>, little: bool) -> Option<Seq<u8>> {
    if s.len() >= 5 && u32_at(s, 0, little) == s.len() - 5 && s[s.len() - 1] == 0 {
        Some(s.subrange(4, s.len() - 1))
    } else {
        None
    }
}

/// Decode a body of the single string type into the string bytes.
pub fn decode_string_body(body: &[u8], little: bool) -> (r: Result<Vec<u8>, VariantError>)
    ensures
        r is Ok <==> string_body_of(body@, little) is Some,
        r matches Ok(b) ==> Some(b@) == string_body_of(body@, little),
        r matches Err(e) ==> e == VariantError::Malformed,
{
    if body.len() < 5 {
        return Err(VariantError::Malformed);
    }
    let l = read_u32_at(body, 0, little);
    if (l as u64) != (body.len() as u64) - 5 {
        return Err(VariantError::Malformed);
    }
    if body[body.len() - 1] != 0 {
        return Err(VariantError::Malformed);
    }
    Ok(copy_range(body, 4, body.len() - 1))
}

} // verus!
