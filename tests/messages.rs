use bytes::BytesMut;
use pgwire::codec::CodecError;
use pgwire::startup::{Authentication, Password, Startup};

fn auth_bytes(m: &Authentication) -> Vec<u8> {
    let mut buf = BytesMut::new();
    m.encode(&mut buf);
    buf.to_vec()
}

fn alice_startup() -> Startup {
    let mut s = Startup::default();
    s.insert_parameter("user".to_string(), "alice".to_string());
    s.insert_parameter("database".to_string(), "db1".to_string());
    s
}

#[test]
fn authentication_fixed_lengths() {
    assert_eq!(Authentication::AuthOk.message_length(), 8);
    assert_eq!(Authentication::CleartextPassword.message_length(), 8);
    assert_eq!(Authentication::KerberosV5.message_length(), 8);
    assert_eq!(Authentication::MD5Password((1, 2, 3, 4)).message_length(), 12);
    assert_eq!(Authentication::AuthOk.message_type(), Some(b'R'));
}

#[test]
fn authentication_wire_layout() {
    assert_eq!(auth_bytes(&Authentication::AuthOk), vec![b'R', 0, 0, 0, 8, 0, 0, 0, 0]);
    assert_eq!(auth_bytes(&Authentication::KerberosV5), vec![b'R', 0, 0, 0, 8, 0, 0, 0, 2]);
    assert_eq!(
        auth_bytes(&Authentication::CleartextPassword),
        vec![b'R', 0, 0, 0, 8, 0, 0, 0, 3]
    );
    assert_eq!(
        auth_bytes(&Authentication::MD5Password((9, 8, 7, 6))),
        vec![b'R', 0, 0, 0, 12, 0, 0, 0, 5, 9, 8, 7, 6]
    );
}

#[test]
fn authentication_length_matches_written_bytes() {
    for m in [
        Authentication::AuthOk,
        Authentication::CleartextPassword,
        Authentication::KerberosV5,
        Authentication::MD5Password((0, 255, 17, 3)),
    ] {
        assert_eq!(auth_bytes(&m).len() as i32 - 1, m.message_length());
    }
}

#[test]
fn authentication_round_trip_keeps_trailing_bytes() {
    for m in [
        Authentication::AuthOk,
        Authentication::CleartextPassword,
        Authentication::KerberosV5,
        Authentication::MD5Password((0, 255, 17, 3)),
    ] {
        let mut buf = BytesMut::new();
        m.encode(&mut buf);
        buf.extend_from_slice(&[b'Z', 1]);
        assert_eq!(Authentication::decode(&mut buf), Ok(Some(m)));
        assert_eq!(buf.to_vec(), vec![b'Z', 1]);
    }
}

#[test]
fn authentication_truncated_prefix_is_incomplete() {
    let full = auth_bytes(&Authentication::MD5Password((1, 2, 3, 4)));
    for k in 0..full.len() {
        let mut buf = BytesMut::from(&full[..k]);
        assert_eq!(Authentication::decode(&mut buf), Ok(None));
        assert_eq!(buf.len(), k);
    }
}

#[test]
fn authentication_decode_errors() {
    assert_eq!(
        Authentication::decode_from(&[b'p', 0, 0, 0, 8, 0, 0, 0, 0]),
        Err(CodecError::UnexpectedTag)
    );
    assert_eq!(
        Authentication::decode_from(&[b'R', 0, 0, 0, 9, 0, 0, 0, 0, 0]),
        Err(CodecError::InvalidLength)
    );
    assert_eq!(
        Authentication::decode_from(&[b'R', 0, 0, 0, 8, 0, 0, 0, 7]),
        Err(CodecError::UnknownAuthentication)
    );
    assert_eq!(
        Authentication::decode_from(&[b'R', 0, 0, 0, 12, 0, 0, 0, 0, 1, 2, 3, 4]),
        Err(CodecError::InvalidLength)
    );
    let mut buf = BytesMut::from(&[b'R', 0, 0, 0, 8, 0, 0, 0, 7][..]);
    assert_eq!(Authentication::decode(&mut buf), Err(CodecError::UnknownAuthentication));
    assert_eq!(buf.len(), 9);
}

#[test]
fn password_length_and_layout() {
    let p = Password::new("secret".to_string());
    assert_eq!(p.message_type(), Some(b'p'));
    assert_eq!(p.message_length(), 11);
    let mut buf = BytesMut::new();
    p.encode(&mut buf);
    assert_eq!(buf.to_vec(), b"p\x00\x00\x00\x0bsecret\x00".to_vec());
    assert_eq!(buf.len() as i32 - 1, p.message_length());
}

#[test]
fn password_length_counts_bytes_not_chars() {
    let p = Password::new("h\u{e9}".to_string());
    assert_eq!(p.message_length(), 8);
}

#[test]
fn password_round_trip() {
    for text in ["", "secret", "md5a3556571e93b0d20722ba62be61e8c2d", "p\u{e4}ss w\u{f6}rd"] {
        let mut buf = BytesMut::new();
        Password::new(text.to_string()).encode(&mut buf);
        buf.extend_from_slice(b"Q");
        let got = Password::decode(&mut buf).unwrap().unwrap();
        assert_eq!(got.password(), text);
        assert_eq!(buf.to_vec(), b"Q".to_vec());
    }
}

#[test]
fn password_round_trip_long_credential() {
    let text: String = "x".repeat(100_000);
    let mut buf = BytesMut::new();
    let p = Password::new(text.clone());
    p.encode(&mut buf);
    assert_eq!(p.message_length(), 100_005);
    let got = Password::decode(&mut buf).unwrap().unwrap();
    assert_eq!(got.password(), &text);
    assert!(buf.is_empty());
}

#[test]
fn password_truncated_prefix_is_incomplete() {
    let mut full = BytesMut::new();
    Password::new("secret".to_string()).encode(&mut full);
    for k in 0..full.len() {
        let mut buf = BytesMut::from(&full[..k]);
        assert!(matches!(Password::decode(&mut buf), Ok(None)));
        assert_eq!(buf.len(), k);
    }
}

#[test]
fn password_decode_errors() {
    assert!(matches!(
        Password::decode_from(b"R\x00\x00\x00\x05\x00"),
        Err(CodecError::UnexpectedTag)
    ));
    assert!(matches!(
        Password::decode_from(b"p\x00\x00\x00\x04"),
        Err(CodecError::InvalidLength)
    ));
    assert!(matches!(
        Password::decode_from(b"p\xff\x00\x00\x00"),
        Err(CodecError::InvalidLength)
    ));
    // no terminator inside the frame
    assert!(matches!(
        Password::decode_from(b"p\x00\x00\x00\x06ab"),
        Err(CodecError::MalformedBody)
    ));
    // a zero byte before the end of the frame
    assert!(matches!(
        Password::decode_from(b"p\x00\x00\x00\x07a\x00b"),
        Err(CodecError::MalformedBody)
    ));
    // not UTF-8
    assert!(matches!(
        Password::decode_from(b"p\x00\x00\x00\x07\xff\xfe\x00"),
        Err(CodecError::MalformedBody)
    ));
}

#[test]
fn startup_default_is_protocol_three() {
    let s = Startup::default();
    assert_eq!(s.protocol_number_major(), 3);
    assert_eq!(s.protocol_number_minor(), 0);
    assert!(s.parameters().is_empty());
    assert_eq!(s.message_type(), None);
    assert_eq!(s.message_length(), 9);
    let mut buf = BytesMut::new();
    s.encode(&mut buf);
    assert_eq!(buf.to_vec(), vec![0, 0, 0, 9, 0, 3, 0, 0, 0]);
}

#[test]
fn startup_wire_layout_with_parameters() {
    let s = alice_startup();
    assert_eq!(s.message_length(), 33);
    let mut buf = BytesMut::new();
    s.encode(&mut buf);
    let mut expected = vec![0, 0, 0, 33, 0, 3, 0, 0];
    expected.extend_from_slice(b"database\0db1\0user\0alice\0\0");
    assert_eq!(buf.to_vec(), expected);
    assert_eq!(buf.len() as i32, s.message_length());
}

#[test]
fn startup_round_trip() {
    let mut s = alice_startup();
    s.set_protocol_number_major(3);
    s.set_protocol_number_minor(2);
    s.insert_parameter("application_name".to_string(), "".to_string());
    let mut buf = BytesMut::new();
    s.encode(&mut buf);
    buf.extend_from_slice(b"Q\0\0\0\x04");
    let got = Startup::decode(&mut buf).unwrap().unwrap();
    assert_eq!(got.protocol_number_major(), 3);
    assert_eq!(got.protocol_number_minor(), 2);
    assert_eq!(got.parameters(), s.parameters());
    assert_eq!(buf.to_vec(), b"Q\0\0\0\x04".to_vec());
}

#[test]
fn startup_round_trip_without_parameters() {
    let s = Startup::default();
    let mut buf = BytesMut::new();
    s.encode(&mut buf);
    let got = Startup::decode(&mut buf).unwrap().unwrap();
    assert_eq!(got.protocol_number_major(), 3);
    assert_eq!(got.protocol_number_minor(), 0);
    assert!(got.parameters().is_empty());
    assert!(buf.is_empty());
}

#[test]
fn startup_truncated_prefix_is_incomplete() {
    let mut full = BytesMut::new();
    alice_startup().encode(&mut full);
    for k in 0..full.len() {
        let mut buf = BytesMut::from(&full[..k]);
        assert!(matches!(Startup::decode(&mut buf), Ok(None)));
        assert_eq!(buf.len(), k);
    }
}

#[test]
fn startup_decode_errors() {
    assert!(matches!(
        Startup::decode_from(&[0, 0, 0, 8, 0, 3, 0, 0]),
        Err(CodecError::InvalidLength)
    ));
    assert!(matches!(
        Startup::decode_from(&[0xff, 0xff, 0xff, 0xff, 0, 3, 0, 0, 0]),
        Err(CodecError::InvalidLength)
    ));
    // the list ends before the frame does
    assert!(matches!(
        Startup::decode_from(&[0, 0, 0, 10, 0, 3, 0, 0, 0, 0]),
        Err(CodecError::MalformedBody)
    ));
    // a name without its value
    assert!(matches!(
        Startup::decode_from(b"\x00\x00\x00\x0e\x00\x03\x00\x00user\x00\x00"),
        Err(CodecError::MalformedBody)
    ));
}

#[test]
fn startup_parameter_lookup_and_replace() {
    let mut s = alice_startup();
    assert_eq!(s.parameter(&"user".to_string()), Some(&"alice".to_string()));
    assert_eq!(s.parameter(&"missing".to_string()), None);
    s.insert_parameter("user".to_string(), "bob".to_string());
    assert_eq!(s.parameter(&"user".to_string()), Some(&"bob".to_string()));
    assert_eq!(s.parameters().len(), 2);
    assert_eq!(s.parameters()[1], ("user".to_string(), "bob".to_string()));
}

fn startup_bytes(s: &Startup) -> Vec<u8> {
    let mut buf = BytesMut::new();
    s.encode(&mut buf);
    buf.to_vec()
}

#[test]
fn startup_parameters_in_ascending_name_order() {
    let mut s = Startup::default();
    s.insert_parameter("user".to_string(), "alice".to_string());
    s.insert_parameter("application_name".to_string(), "psql".to_string());
    s.insert_parameter("database".to_string(), "db1".to_string());
    let names: Vec<&str> = s.parameters().iter().map(|(k, _)| k.as_str()).collect();
    assert_eq!(names, vec!["application_name", "database", "user"]);
}

#[test]
fn startup_equal_parameters_encode_equally() {
    let mut a = Startup::default();
    a.insert_parameter("user".to_string(), "alice".to_string());
    a.insert_parameter("database".to_string(), "db1".to_string());
    let mut b = Startup::default();
    b.insert_parameter("database".to_string(), "db1".to_string());
    b.insert_parameter("user".to_string(), "alice".to_string());
    assert_eq!(startup_bytes(&a), startup_bytes(&b));
}

#[test]
fn startup_set_parameters_sorts_and_keeps_last() {
    let mut s = Startup::default();
    s.set_parameters(vec![
        ("user".to_string(), "alice".to_string()),
        ("database".to_string(), "db1".to_string()),
        ("user".to_string(), "bob".to_string()),
    ]);
    assert_eq!(
        s.parameters(),
        &vec![
            ("database".to_string(), "db1".to_string()),
            ("user".to_string(), "bob".to_string())
        ]
    );
}

#[test]
fn startup_decode_keeps_last_value_of_repeated_name() {
    let mut frame = vec![0, 0, 0, 0, 0, 3, 0, 0];
    frame.extend_from_slice(b"user\0alice\0database\0db1\0user\0bob\0\0");
    frame[3] = frame.len() as u8;
    let got = Startup::decode_from(&frame).unwrap().unwrap().0;
    assert_eq!(
        got.parameters(),
        &vec![
            ("database".to_string(), "db1".to_string()),
            ("user".to_string(), "bob".to_string())
        ]
    );
}

#[test]
fn tagged_message_first_is_not_a_startup() {
    let mut query = vec![b'Q', 0, 0, 0, 13];
    query.extend_from_slice(b"SELECT 1\0");
    let mut buf = BytesMut::from(&query[..]);
    assert!(matches!(Startup::decode(&mut buf), Err(CodecError::InvalidLength)));
    assert_eq!(buf.len(), 14);
    let parse = [b'P', 0, 0, 0, 8, 0, 0, 0, 0];
    assert!(matches!(Startup::decode_from(&parse), Err(CodecError::InvalidLength)));
}

#[test]
fn startup_frame_over_the_limit_is_refused() {
    assert!(matches!(
        Startup::decode_from(&[0, 0, 0x27, 0x11, 0, 3, 0, 0, 0]),
        Err(CodecError::InvalidLength)
    ));
    assert!(matches!(Startup::decode_from(&[0, 0, 0x27, 0x10, 0, 3, 0, 0]), Ok(None)));
}
