use zbus_core::connection::{
    auth_line, begin_line, begin_session, classify_reply, parse_ok_line, prepare_call, uid_hex,
    Connection, ConnectionError, ReplyStep,
};
use zbus_core::message::{
    Message, MessageError, MessageField, MessageFieldError, MessageType, VariantError,
};
use zbus_core::signature::Signature;

/// The wire form of a string body: four-byte length, bytes, nul.
fn string_body(s: &str) -> Vec<u8> {
    let mut v = Vec::new();
    let b = s.as_bytes();
    v.extend_from_slice(&(b.len() as u32).to_le_bytes());
    v.extend_from_slice(b);
    v.push(0);
    v
}

#[test]
fn uid_hex_spells_the_decimal_digits() {
    assert_eq!(uid_hex(1000).as_slice(), b"31303030".as_slice());
    assert_eq!(uid_hex(0).as_slice(), b"30".as_slice());
    assert_eq!(uid_hex(9).as_slice(), b"39".as_slice());
    assert_eq!(uid_hex(65534).as_slice(), b"3635353334".as_slice());
}

#[test]
fn auth_line_has_preamble_hex_and_crlf() {
    assert_eq!(
        auth_line(1000).as_slice(),
        b"\0AUTH EXTERNAL 31303030\r\n".as_slice()
    );
}

#[test]
fn ok_line_yields_the_guid() {
    assert_eq!(parse_ok_line(b"OK deadbeefcafe\r\n").unwrap(), "deadbeefcafe");
    assert_eq!(parse_ok_line(b"OK abc123 extra\r\n").unwrap(), "abc123");
    assert!(matches!(
        parse_ok_line(b"REJECTED EXTERNAL\r\n"),
        Err(ConnectionError::Handshake)
    ));
    assert!(matches!(parse_ok_line(b"OK\r\n"), Err(ConnectionError::Handshake)));
    assert!(matches!(parse_ok_line(b""), Err(ConnectionError::Handshake)));
    assert!(matches!(
        parse_ok_line(b"OK \xff\xfe\r\n"),
        Err(ConnectionError::Handshake)
    ));
}

#[test]
fn handshake_stores_guid_and_sends_begin_then_hello() {
    let (conn, begin, hello) = begin_session(b"OK deadbeefcafe\r\n").unwrap();
    assert_eq!(conn.server_guid, "deadbeefcafe");
    assert_eq!(conn.serial, 1);
    assert_eq!(begin.as_slice(), b"BEGIN\r\n".as_slice());
    assert_eq!(begin_line().as_slice(), b"BEGIN\r\n".as_slice());

    assert_eq!(hello.message_type(), MessageType::MethodCall);
    assert_eq!(hello.serial(), 1);
    let fields = hello.fields().unwrap();
    assert!(
        matches!(&fields[0], MessageField::Path(p) if p.as_slice() == b"/org/freedesktop/DBus".as_slice())
    );
    assert!(
        matches!(&fields[1], MessageField::Destination(d) if d.as_slice() == b"org.freedesktop.DBus".as_slice())
    );
    assert!(
        matches!(&fields[2], MessageField::Interface(i) if i.as_slice() == b"org.freedesktop.DBus".as_slice())
    );
    assert!(matches!(&fields[3], MessageField::Member(m) if m.as_slice() == b"Hello".as_slice()));
}

#[test]
fn handshake_rejects_non_ok_reply() {
    assert!(matches!(
        begin_session(b"REJECTED\r\n"),
        Err(ConnectionError::Handshake)
    ));
}

#[test]
fn serials_count_up_per_call() {
    let mut conn = Connection::new(String::from("g"));
    let first = prepare_call(&mut conn, None, "/org/example", None, "A", None).unwrap();
    let second = prepare_call(&mut conn, None, "/org/example", None, "B", None).unwrap();
    assert_eq!(first.serial(), 1);
    assert_eq!(second.serial(), 2);
    assert_eq!(conn.serial, 2);
}

#[test]
fn call_skips_signal_then_takes_matching_return() {
    let serial = 4;
    let signal = Message::from_parts(
        MessageType::Signal,
        77,
        vec![
            MessageField::Path(b"/org/freedesktop/DBus".to_vec()),
            MessageField::Member(b"NameAcquired".to_vec()),
        ],
        Vec::new(),
    )
    .unwrap();
    assert!(matches!(classify_reply(signal, serial), ReplyStep::Skip));

    let reply = Message::from_parts(
        MessageType::MethodReturn,
        90,
        vec![MessageField::ReplySerial(serial)],
        string_body(":1.42"),
    )
    .unwrap();
    match classify_reply(reply, serial) {
        ReplyStep::Reply(m) => {
            assert_eq!(m.message_type(), MessageType::MethodReturn);
            assert_eq!(m.serial(), 90);
        },
        _ => panic!("expected the matching reply"),
    }
}

#[test]
fn other_serials_are_skipped() {
    let reply = Message::from_parts(
        MessageType::MethodReturn,
        90,
        vec![MessageField::ReplySerial(9)],
        Vec::new(),
    )
    .unwrap();
    assert!(matches!(classify_reply(reply, 4), ReplyStep::Skip));
}

#[test]
fn error_reply_becomes_method_error() {
    let serial = 4;
    let frame = Message::from_parts(
        MessageType::Error,
        91,
        vec![
            MessageField::ReplySerial(serial),
            MessageField::ErrorName(b"org.freedesktop.DBus.Error.UnknownMethod".to_vec()),
            MessageField::Signature(Signature::Str),
        ],
        string_body("no such method"),
    )
    .unwrap();
    match classify_reply(frame, serial) {
        ReplyStep::Fail(ConnectionError::MethodError(name, detail)) => {
            assert_eq!(name, "org.freedesktop.DBus.Error.UnknownMethod");
            assert_eq!(detail.as_deref(), Some("no such method"));
        },
        _ => panic!("expected a method error"),
    }
}

#[test]
fn error_reply_without_body_has_no_detail() {
    let frame = Message::from_parts(
        MessageType::Error,
        91,
        vec![
            MessageField::ReplySerial(4),
            MessageField::ErrorName(b"org.freedesktop.DBus.Error.Failed".to_vec()),
        ],
        Vec::new(),
    )
    .unwrap();
    match classify_reply(frame, 4) {
        ReplyStep::Fail(ConnectionError::MethodError(name, detail)) => {
            assert_eq!(name, "org.freedesktop.DBus.Error.Failed");
            assert!(detail.is_none());
        },
        _ => panic!("expected a method error"),
    }
}

#[test]
fn error_reply_without_name_is_invalid() {
    let frame = Message::from_parts(
        MessageType::Error,
        91,
        vec![MessageField::ReplySerial(4)],
        Vec::new(),
    )
    .unwrap();
    assert!(matches!(
        classify_reply(frame, 4),
        ReplyStep::Fail(ConnectionError::InvalidReply)
    ));
}

#[test]
fn error_reply_with_bad_string_body_is_a_variant_error() {
    let frame = Message::from_parts(
        MessageType::Error,
        91,
        vec![
            MessageField::ReplySerial(4),
            MessageField::ErrorName(b"org.x.E".to_vec()),
            MessageField::Signature(Signature::Str),
        ],
        vec![9, 9],
    )
    .unwrap();
    assert!(matches!(
        classify_reply(frame, 4),
        ReplyStep::Fail(ConnectionError::Variant(VariantError::Malformed))
    ));
}

#[test]
fn reply_with_garbage_fields_is_a_field_error() {
    let frame = Message {
        little: true,
        msg_type: MessageType::Error,
        flags: 0,
        serial: 91,
        raw_fields: vec![200, 1, 1, 1],
        body: Vec::new(),
    };
    assert!(matches!(
        classify_reply(frame, 4),
        ReplyStep::Fail(ConnectionError::MessageField(MessageFieldError::Malformed))
    ));
}

#[test]
fn oversized_call_surfaces_a_message_error() {
    let mut sig = Signature::U8;
    let mut i = 0;
    while i < 256 {
        sig = Signature::array(sig);
        i += 1;
    }
    let mut conn = Connection::new(String::from("g"));
    let err = prepare_call(&mut conn, None, "/x", None, "M", Some((&sig, Vec::new())))
        .unwrap_err();
    assert_eq!(err, ConnectionError::Message(MessageError::TooLarge));
    // The serial was drawn before the failure, as the counter always moves
    // on send.
    assert_eq!(conn.serial, 1);
}

#[test]
fn error_descriptions() {
    assert_eq!(
        ConnectionError::Handshake.describe(),
        "D-Bus handshake failed"
    );
    assert_eq!(
        ConnectionError::InvalidReply.describe(),
        "Invalid D-Bus method reply"
    );
    assert_eq!(
        ConnectionError::IO(String::from("broken pipe")).describe(),
        "I/O error: broken pipe"
    );
    assert_eq!(
        ConnectionError::Message(MessageError::LengthMismatch).describe(),
        "Message creation error: frame length mismatch"
    );
    assert_eq!(
        ConnectionError::MethodError(String::from("org.x.E"), Some(String::from("oops")))
            .describe(),
        "org.x.E: oops"
    );
    assert_eq!(
        ConnectionError::MethodError(String::from("org.x.E"), None).describe(),
        "org.x.E: no details"
    );
}
