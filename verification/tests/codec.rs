use resp::de::{read_command, read_reply, Deserializer};
use resp::ser::{write_command, write_reply};
use resp::{Error, Shape, Value, Variant};

fn ping_shape() -> Shape {
    Shape::Enum(vec![Variant { name: "Ping".to_string(), fields: vec![] }])
}

#[test]
fn ser_test_ping_command() {
    let cmd = Value::UnitVariant("Ping".to_string());
    let buf = write_command(&cmd).expect("write ping command shouldn't fail");
    assert_eq!("*1\r\n$4\r\nPING\r\n\r\n".to_owned().into_bytes(), buf);
}

#[test]
fn de_test_ping_command() {
    let buf = "*1\r\n$4\r\nPING\r\n\r\n".as_bytes().to_vec();
    let cmd = read_command(&buf, &ping_shape()).expect("read ping command shouldn't fail");
    assert!(matches!(cmd, Value::UnitVariant(ref n) if n == "Ping"));
}

#[test]
fn test_pong_reply() {
    let buf = "+PONG\r\n".as_bytes().to_vec();
    let reply = read_reply(&buf, &Shape::Str).expect("read PONG reply shouldn't fail");
    match reply {
        Ok(Value::Str(s)) => assert_eq!("PONG", s),
        other => panic!("expected a PONG string, got {:?}", other),
    }
}

#[test]
fn test_error_reply() {
    let buf = "-FAIL\r\n".as_bytes().to_vec();
    let reply = read_reply(&buf, &Shape::Str).expect("read Error shouldn't fail");
    assert_eq!(Err("FAIL".to_owned()), reply.map(|_| ()));
}

#[test]
fn command_name_matching_ignores_case() {
    for frame in ["*1\r\n$4\r\nping\r\n\r\n", "*1\r\n$4\r\nPiNg\r\n\r\n", "*1\r\n$4\r\nPING\r\n\r\n"] {
        let buf = frame.as_bytes().to_vec();
        let cmd = read_command(&buf, &ping_shape()).expect("any letter case should match");
        assert!(matches!(cmd, Value::UnitVariant(ref n) if n == "Ping"));
    }
}

#[test]
fn absent_optional_is_omitted_from_a_command() {
    let cmd = Value::TupleVariant(
        "Get".to_string(),
        vec![Value::Str("key".to_string()), Value::Opt(None)],
    );
    let buf = write_command(&cmd).expect("write command shouldn't fail");
    // The declared count still names both fields; the absent one emits no
    // bytes of its own.
    assert_eq!("*3\r\n$3\r\nGET\r\n+key\r\n\r\n".to_owned().into_bytes(), buf);
}

#[test]
fn absent_optional_is_nil_in_a_reply() {
    let buf = write_reply(&Value::Opt(None)).expect("write reply shouldn't fail");
    assert_eq!("$-1\r\n".to_owned().into_bytes(), buf);
}

#[test]
fn present_optional_encodes_as_its_inner_value() {
    let buf = write_reply(&Value::Opt(Some(Box::new(Value::Int(7)))))
        .expect("write reply shouldn't fail");
    assert_eq!(":7\r\n".to_owned().into_bytes(), buf);
}

#[test]
fn command_with_wrong_outer_tag_is_invalid_type() {
    let buf = "+PING\r\n".as_bytes().to_vec();
    let err = read_command(&buf, &ping_shape()).unwrap_err();
    assert!(matches!(err, Error::InvalidTypeForCommand));
}

#[test]
fn command_with_zero_count_is_invalid_size() {
    let buf = "*0\r\n".as_bytes().to_vec();
    let err = read_command(&buf, &ping_shape()).unwrap_err();
    assert!(matches!(err, Error::InvalidSizeForCommandArray));
}

#[test]
fn command_with_negative_count_is_invalid_size() {
    let buf = "*-2\r\n".as_bytes().to_vec();
    let err = read_command(&buf, &ping_shape()).unwrap_err();
    assert!(matches!(err, Error::InvalidSizeForCommandArray));
}

#[test]
fn integer_reply_encodes_as_integer_token() {
    let buf = write_reply(&Value::Int(42)).expect("write reply shouldn't fail");
    assert_eq!(":42\r\n".to_owned().into_bytes(), buf);
}

#[test]
fn unsigned_above_signed_range_is_a_conversion_error() {
    let err = write_reply(&Value::UInt(9223372036854775808)).unwrap_err();
    assert!(matches!(err, Error::IntConversion));
}

#[test]
fn unsigned_at_signed_max_still_encodes() {
    let buf = write_reply(&Value::UInt(9223372036854775807)).expect("in range");
    assert_eq!(":9223372036854775807\r\n".to_owned().into_bytes(), buf);
}

#[test]
fn negative_integer_encodes_with_sign() {
    let buf = write_reply(&Value::Int(-42)).expect("write reply shouldn't fail");
    assert_eq!(":-42\r\n".to_owned().into_bytes(), buf);
}

#[test]
fn booleans_encode_as_zero_and_one() {
    assert_eq!(b":1\r\n".to_vec(), write_reply(&Value::Bool(true)).unwrap());
    assert_eq!(b":0\r\n".to_vec(), write_reply(&Value::Bool(false)).unwrap());
}

#[test]
fn text_with_line_break_becomes_a_bulk_string() {
    let buf = write_reply(&Value::Str("a\r\nb".to_string())).unwrap();
    assert_eq!(b"$4\r\na\r\nb\r\n".to_vec(), buf);
}

#[test]
fn bytes_always_become_a_bulk_string() {
    let buf = write_reply(&Value::Bytes(vec![1, 2, 3])).unwrap();
    assert_eq!(b"$3\r\n\x01\x02\x03\r\n".to_vec(), buf);
}

#[test]
fn non_ascii_character_is_unsupported() {
    let err = write_reply(&Value::Char('\u{e9}')).unwrap_err();
    assert!(matches!(err, Error::UnsupportedType));
}

#[test]
fn enum_shapes_cannot_be_replies() {
    let err = write_reply(&Value::UnitVariant("Ping".to_string())).unwrap_err();
    assert!(matches!(err, Error::InvalidTypeForReply));
}

#[test]
fn non_enum_value_cannot_be_a_command() {
    let err = write_command(&Value::Int(1)).unwrap_err();
    assert!(matches!(err, Error::InvalidTypeForCommand));
}

#[test]
fn non_numeric_integer_line_is_an_int_parsing_error() {
    let buf = ":forty\r\n".as_bytes().to_vec();
    let err = read_reply(&buf, &Shape::Int).unwrap_err();
    assert!(matches!(err, Error::IntParsing));
}

#[test]
fn overflowing_integer_line_is_an_int_parsing_error() {
    let buf = ":9223372036854775808\r\n".as_bytes().to_vec();
    let err = read_reply(&buf, &Shape::Int).unwrap_err();
    assert!(matches!(err, Error::IntParsing));
}

#[test]
fn negative_integer_against_unsigned_target_is_a_conversion_error() {
    let buf = ":-1\r\n".as_bytes().to_vec();
    let err = read_reply(&buf, &Shape::UInt).unwrap_err();
    assert!(matches!(err, Error::IntConversion));
}

#[test]
fn empty_input_is_an_io_error() {
    let buf: Vec<u8> = Vec::new();
    let err = read_reply(&buf, &Shape::Int).unwrap_err();
    assert!(matches!(err, Error::IO));
}

#[test]
fn truncated_bulk_string_is_an_io_error() {
    let buf = "$10\r\nabc".as_bytes().to_vec();
    let err = read_reply(&buf, &Shape::Bytes).unwrap_err();
    assert!(matches!(err, Error::IO));
}

#[test]
fn invalid_utf8_reply_text_is_an_io_error() {
    let buf = vec![b'+', 0xff, 0xfe, b'\r', b'\n'];
    let err = read_reply(&buf, &Shape::Str).unwrap_err();
    assert!(matches!(err, Error::IO));
}

#[test]
fn mismatched_wire_type_is_a_decode_error() {
    let buf = "+PONG\r\n".as_bytes().to_vec();
    let err = read_reply(&buf, &Shape::Int).unwrap_err();
    assert!(matches!(err, Error::De(_)));
}

#[test]
fn command_round_trip_with_payload_fields() {
    let cmd = Value::TupleVariant(
        "Set".to_string(),
        vec![Value::Str("key".to_string()), Value::Bytes(vec![9, 10, 13]), Value::Int(-5)],
    );
    let shape = Shape::Enum(vec![
        Variant { name: "Ping".to_string(), fields: vec![] },
        Variant { name: "Set".to_string(), fields: vec![Shape::Str, Shape::Bytes, Shape::Int] },
    ]);
    let buf = write_command(&cmd).expect("encode");
    let back = read_command(&buf, &shape).expect("decode");
    match back {
        Value::TupleVariant(n, fields) => {
            assert_eq!("Set", n);
            assert_eq!(3, fields.len());
            assert!(matches!(fields[0], Value::Str(ref s) if s == "key"));
            assert!(matches!(fields[1], Value::Bytes(ref b) if *b == vec![9, 10, 13]));
            assert!(matches!(fields[2], Value::Int(-5)));
        },
        other => panic!("wrong decoded value: {:?}", other),
    }
}

#[test]
fn newtype_command_round_trip() {
    let cmd = Value::NewtypeVariant("Echo".to_string(), Box::new(Value::Str("hi".to_string())));
    let shape = Shape::Enum(vec![
        Variant { name: "Echo".to_string(), fields: vec![Shape::Str] },
    ]);
    let buf = write_command(&cmd).expect("encode");
    assert_eq!("*2\r\n$4\r\nECHO\r\n+hi\r\n\r\n".to_owned().into_bytes(), buf);
    let back = read_command(&buf, &shape).expect("decode");
    match back {
        Value::NewtypeVariant(n, inner) => {
            assert_eq!("Echo", n);
            assert!(matches!(*inner, Value::Str(ref s) if s == "hi"));
        },
        other => panic!("wrong decoded value: {:?}", other),
    }
}

#[test]
fn reply_round_trip_for_a_list_of_integers() {
    let v = Value::List(vec![Value::Int(1), Value::Int(2), Value::Int(3)]);
    let buf = write_reply(&v).expect("encode");
    assert_eq!("*3\r\n:1\r\n:2\r\n:3\r\n".to_owned().into_bytes(), buf);
    let back = read_reply(&buf, &Shape::List(Box::new(Shape::Int))).expect("decode").expect("ok");
    match back {
        Value::List(items) => {
            assert_eq!(3, items.len());
            assert!(matches!(items[0], Value::Int(1)));
            assert!(matches!(items[1], Value::Int(2)));
            assert!(matches!(items[2], Value::Int(3)));
        },
        other => panic!("wrong decoded value: {:?}", other),
    }
}

#[test]
fn reply_round_trip_for_optionals() {
    let none = write_reply(&Value::Opt(None)).expect("encode");
    let shape = Shape::Opt(Box::new(Shape::Int));
    let back = read_reply(&none, &shape).expect("decode").expect("ok");
    assert!(matches!(back, Value::Opt(None)));
    let some = write_reply(&Value::Opt(Some(Box::new(Value::Int(8))))).expect("encode");
    let back = read_reply(&some, &shape).expect("decode").expect("ok");
    match back {
        Value::Opt(Some(inner)) => assert!(matches!(*inner, Value::Int(8))),
        other => panic!("wrong decoded value: {:?}", other),
    }
}

#[test]
fn reply_round_trip_for_a_bulk_framed_string() {
    let v = Value::Str("one\r\ntwo".to_string());
    let buf = write_reply(&v).expect("encode");
    let back = read_reply(&buf, &Shape::Str).expect("decode").expect("ok");
    assert!(matches!(back, Value::Str(ref s) if s == "one\r\ntwo"));
}

#[test]
fn reply_round_trip_for_characters() {
    let buf = write_reply(&Value::Char('x')).expect("encode");
    assert_eq!(b"+x\r\n".to_vec(), buf);
    let back = read_reply(&buf, &Shape::Char).expect("decode").expect("ok");
    assert!(matches!(back, Value::Char('x')));
    let nl = write_reply(&Value::Char('\n')).expect("encode");
    assert_eq!(b"$1\r\n\n\r\n".to_vec(), nl);
    let back = read_reply(&nl, &Shape::Char).expect("decode").expect("ok");
    assert!(matches!(back, Value::Char('\n')));
}

#[test]
fn reader_primitives_read_lines_and_integers() {
    let buf = "*2\r\n:17\r\nhello\r\n".as_bytes().to_vec();
    let mut d = Deserializer::new(&buf);
    assert_eq!(b'*', d.read_byte().expect("a byte is there"));
    assert_eq!(2, d.read_int().expect("a count line follows"));
    assert_eq!(b':', d.read_byte().expect("a tag byte follows"));
    assert_eq!(17, d.read_int().expect("an integer line follows"));
    assert_eq!("hello", d.read_string().expect("a text line follows"));
}

#[test]
fn reader_accepts_bare_line_feed_terminators() {
    let buf = "*2\n:17\nhello\n".as_bytes().to_vec();
    let mut d = Deserializer::new(&buf);
    assert_eq!(b'*', d.read_byte().expect("a byte is there"));
    assert_eq!(2, d.read_int().expect("a count line follows"));
    assert_eq!(b':', d.read_byte().expect("a tag byte follows"));
    assert_eq!(17, d.read_int().expect("an integer line follows"));
    assert_eq!("hello", d.read_string().expect("a text line follows"));
}

#[test]
fn trailing_command_terminator_is_not_part_of_the_value() {
    // The decode side accepts the frame with its trailing CRLF and leaves
    // the terminator unread.
    let buf = "*1\r\n$4\r\nPING\r\n\r\n".as_bytes().to_vec();
    let cmd = read_command(&buf, &ping_shape()).expect("decode");
    assert!(matches!(cmd, Value::UnitVariant(ref n) if n == "Ping"));
}

#[test]
fn unit_values_encode_as_nil_in_both_modes() {
    let reply = write_reply(&Value::Nil).expect("write reply shouldn't fail");
    assert_eq!(b"$-1\r\n".to_vec(), reply);
    let cmd = Value::TupleVariant(
        "Mark".to_string(),
        vec![Value::Nil, Value::Int(1)],
    );
    let buf = write_command(&cmd).expect("write command shouldn't fail");
    assert_eq!("*3\r\n$4\r\nMARK\r\n$-1\r\n:1\r\n\r\n".to_owned().into_bytes(), buf);
}
