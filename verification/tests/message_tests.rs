use zbus_core::message::{
    decode_string_body, Message, MessageError, MessageField, MessageType, PRIMARY_HEADER_SIZE,
};
use zbus_core::signature::Signature;

/// The wire form of a string body: four-byte length, bytes, nul.
fn string_body(s: &str) -> Vec<u8> {
    let mut v = Vec::new();
    let b = s.as_bytes();
    v.extend_from_slice(&(b.len() as u32).to_le_bytes());
    v.extend_from_slice(b);
    v.push(0);
    v
}

/// Run a full frame through the primary-header and trailing decode.
fn round_trip(m: &Message) -> Message {
    let bytes = m.as_bytes();
    let partial = Message::from_bytes(&bytes[..PRIMARY_HEADER_SIZE]).unwrap();
    let rest = partial.bytes_to_completion() as usize;
    assert_eq!(bytes.len(), PRIMARY_HEADER_SIZE + rest);
    partial.add_bytes(&bytes[PRIMARY_HEADER_SIZE..]).unwrap()
}

#[test]
fn method_call_encodes_and_decodes() {
    let m = Message::method(
        Some("org.freedesktop.DBus"),
        "/org/freedesktop/DBus",
        Some("org.freedesktop.DBus"),
        "Hello",
        None,
    )
    .unwrap()
    .set_serial(7);
    assert_eq!(m.message_type(), MessageType::MethodCall);
    assert_eq!(m.serial(), 7);
    assert!(m.body().is_empty());

    let bytes = m.as_bytes();
    assert_eq!(bytes[0], b'l');
    assert_eq!(bytes[1], 1);
    assert_eq!(bytes[3], 1);
    assert_eq!(bytes.len() % 8, 0);

    let back = round_trip(&m);
    assert_eq!(back.message_type(), MessageType::MethodCall);
    assert_eq!(back.serial(), 7);
    let fields = back.fields().unwrap();
    assert_eq!(fields.len(), 4);
    assert!(matches!(&fields[0], MessageField::Path(p) if p.as_slice() == b"/org/freedesktop/DBus".as_slice()));
    assert!(
        matches!(&fields[1], MessageField::Destination(d) if d.as_slice() == b"org.freedesktop.DBus".as_slice())
    );
    assert!(matches!(&fields[2], MessageField::Interface(i) if i.as_slice() == b"org.freedesktop.DBus".as_slice()));
    assert!(matches!(&fields[3], MessageField::Member(m) if m.as_slice() == b"Hello".as_slice()));
}

#[test]
fn method_call_with_body_carries_its_signature() {
    let body = string_body("hello world");
    let m = Message::method(
        None,
        "/org/example",
        None,
        "Echo",
        Some((&Signature::Str, body.clone())),
    )
    .unwrap()
    .set_serial(3);
    assert_eq!(m.body(), &body);

    let back = round_trip(&m);
    assert_eq!(back.body(), &body);
    let sig = back.body_signature().unwrap();
    assert!(sig == Signature::Str);
    let fields = back.fields().unwrap();
    assert_eq!(fields.len(), 3);
    assert!(matches!(&fields[2], MessageField::Signature(s) if *s == Signature::Str));
}

#[test]
fn multi_field_body_signature_uses_no_outer_parens() {
    let m = Message::method(
        None,
        "/org/example",
        None,
        "Pair",
        Some((
            &Signature::structure(vec![Signature::I32, Signature::I32]),
            Vec::new(),
        )),
    )
    .unwrap();
    let back = round_trip(&m.set_serial(9));
    let sig = back.body_signature().unwrap();
    assert_eq!(sig.to_string_no_parens(), "ii");
}

#[test]
fn reply_serial_field_round_trips() {
    let m = Message::from_parts(
        MessageType::MethodReturn,
        12,
        vec![MessageField::ReplySerial(4), MessageField::Sender(b":1.5".to_vec())],
        Vec::new(),
    )
    .unwrap();
    let back = round_trip(&m);
    assert_eq!(back.message_type(), MessageType::MethodReturn);
    let fields = back.fields().unwrap();
    assert!(matches!(fields[0], MessageField::ReplySerial(4)));
    assert!(matches!(&fields[1], MessageField::Sender(s) if s.as_slice() == b":1.5".as_slice()));
}

#[test]
fn from_bytes_rejects_bad_headers() {
    let good = Message::method(None, "/x", None, "M", None)
        .unwrap()
        .set_serial(1)
        .as_bytes();

    let mut bad = good.clone();
    bad[0] = b'x';
    assert_eq!(
        Message::from_bytes(&bad[..16]).unwrap_err(),
        MessageError::UnknownEndianness
    );

    let mut bad = good.clone();
    bad[1] = 9;
    assert_eq!(Message::from_bytes(&bad[..16]).unwrap_err(), MessageError::UnknownType);

    let mut bad = good.clone();
    bad[3] = 2;
    assert_eq!(
        Message::from_bytes(&bad[..16]).unwrap_err(),
        MessageError::UnknownVersion
    );

    let mut bad = good.clone();
    bad[8] = 0;
    bad[9] = 0;
    bad[10] = 0;
    bad[11] = 0;
    assert_eq!(Message::from_bytes(&bad[..16]).unwrap_err(), MessageError::ZeroSerial);

    assert_eq!(Message::from_bytes(&good[..10]).unwrap_err(), MessageError::ShortHeader);
}

#[test]
fn add_bytes_rejects_wrong_length() {
    let bytes = Message::method(None, "/x", None, "M", None)
        .unwrap()
        .set_serial(1)
        .as_bytes();
    let partial = Message::from_bytes(&bytes[..16]).unwrap();
    let err = partial.add_bytes(&bytes[16..bytes.len() - 1]).unwrap_err();
    assert_eq!(err, MessageError::LengthMismatch);
}

#[test]
fn oversized_signature_is_rejected() {
    let mut sig = Signature::U8;
    let mut i = 0;
    while i < 256 {
        sig = Signature::array(sig);
        i += 1;
    }
    let err = Message::method(None, "/x", None, "M", Some((&sig, Vec::new()))).unwrap_err();
    assert_eq!(err, MessageError::TooLarge);
}

#[test]
fn malformed_fields_array_is_an_error() {
    let m = Message {
        little: true,
        msg_type: MessageType::MethodReturn,
        flags: 0,
        serial: 2,
        raw_fields: vec![9, 9, 9, 9],
        body: Vec::new(),
    };
    assert!(m.fields().is_err());
    assert!(m.body_signature().is_none());
}

#[test]
fn decode_string_body_reads_exactly_one_string() {
    let body = string_body("no such method");
    let got = decode_string_body(&body, true).unwrap();
    assert_eq!(got.as_slice(), b"no such method".as_slice());
    assert!(decode_string_body(&body[..body.len() - 1], true).is_err());
    assert!(decode_string_body(b"", true).is_err());
    let mut wrong = body.clone();
    wrong[0] = wrong[0] + 1;
    assert!(decode_string_body(&wrong, true).is_err());
}

#[test]
fn big_endian_headers_are_accepted() {
    let mut bytes = Vec::new();
    bytes.push(b'B');
    bytes.push(2);
    bytes.push(0);
    bytes.push(1);
    bytes.extend_from_slice(&0u32.to_be_bytes());
    bytes.extend_from_slice(&5u32.to_be_bytes());
    bytes.extend_from_slice(&0u32.to_be_bytes());
    let partial = Message::from_bytes(&bytes).unwrap();
    assert_eq!(partial.serial, 5);
    assert_eq!(partial.bytes_to_completion(), 0);
    let m = partial.add_bytes(&[]).unwrap();
    assert_eq!(m.message_type(), MessageType::MethodReturn);
}
