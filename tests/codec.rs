use resp_kv::resp::{parse_message, DecodeError, Resp};

fn round_trip(v: Resp) {
    let bytes = v.encode();
    let (used, back) = parse_message(&bytes).unwrap();
    assert_eq!(used, bytes.len());
    assert_eq!(back, v);
}

#[test]
fn encodes_simple_string() {
    assert_eq!(Resp::SimpleString(b"OK".to_vec()).encode(), b"+OK\r\n".to_vec());
}

#[test]
fn encodes_error_string() {
    assert_eq!(Resp::Error(b"ERR bad".to_vec()).encode(), b"-ERR bad\r\n".to_vec());
}

#[test]
fn encodes_integers_with_sign() {
    assert_eq!(Resp::Integer(0).encode(), b":0\r\n".to_vec());
    assert_eq!(Resp::Integer(1234).encode(), b":1234\r\n".to_vec());
    assert_eq!(Resp::Integer(-42).encode(), b":-42\r\n".to_vec());
    assert_eq!(Resp::Integer(i64::MIN).encode(), b":-9223372036854775808\r\n".to_vec());
    assert_eq!(Resp::Integer(i64::MAX).encode(), b":9223372036854775807\r\n".to_vec());
}

#[test]
fn encodes_bulk_strings() {
    assert_eq!(Resp::BulkString(Some(b"hey".to_vec())).encode(), b"$3\r\nhey\r\n".to_vec());
    assert_eq!(Resp::BulkString(Some(Vec::new())).encode(), b"$0\r\n\r\n".to_vec());
    assert_eq!(Resp::BulkString(None).encode(), b"$-1\r\n".to_vec());
}

#[test]
fn encodes_arrays() {
    let v = Resp::Array(Some(vec![
        Resp::BulkString(Some(b"a".to_vec())),
        Resp::Integer(7),
    ]));
    assert_eq!(v.encode(), b"*2\r\n$1\r\na\r\n:7\r\n".to_vec());
    assert_eq!(Resp::Array(None).encode(), b"*-1\r\n".to_vec());
    assert_eq!(Resp::Array(Some(Vec::new())).encode(), b"*0\r\n".to_vec());
}

#[test]
fn encodes_null_as_nothing() {
    assert_eq!(Resp::Null.encode(), Vec::<u8>::new());
}

#[test]
fn round_trips_every_kind() {
    round_trip(Resp::SimpleString(b"PONG".to_vec()));
    round_trip(Resp::SimpleString(Vec::new()));
    round_trip(Resp::SimpleString(b"a\rb\nc\r".to_vec()));
    round_trip(Resp::Error(b"ERR x".to_vec()));
    round_trip(Resp::Integer(i64::MIN));
    round_trip(Resp::Integer(i64::MAX));
    round_trip(Resp::Integer(-1));
    round_trip(Resp::BulkString(Some(b"with\r\ninside".to_vec())));
    round_trip(Resp::BulkString(Some(Vec::new())));
    round_trip(Resp::BulkString(None));
    round_trip(Resp::Array(None));
    round_trip(Resp::Array(Some(Vec::new())));
}

#[test]
fn round_trips_nested_arrays() {
    let inner = Resp::Array(Some(vec![
        Resp::Integer(1),
        Resp::Array(Some(vec![Resp::BulkString(Some(b"deep".to_vec())), Resp::Array(None)])),
    ]));
    round_trip(Resp::Array(Some(vec![inner, Resp::SimpleString(b"x".to_vec()), Resp::BulkString(None)])));
}

#[test]
fn decode_reports_bytes_used_and_ignores_what_follows() {
    let (used, v) = parse_message(b"+OK\r\n:5\r\n").unwrap();
    assert_eq!(used, 5);
    assert_eq!(v, Resp::SimpleString(b"OK".to_vec()));
}

#[test]
fn decodes_integer_with_plus_sign() {
    let (used, v) = parse_message(b":+17\r\n").unwrap();
    assert_eq!(used, 6);
    assert_eq!(v, Resp::Integer(17));
}

#[test]
fn decodes_any_negative_length_as_null() {
    assert_eq!(parse_message(b"$-5\r\n").unwrap(), (5, Resp::BulkString(None)));
    assert_eq!(parse_message(b"*-1\r\n").unwrap(), (5, Resp::Array(None)));
}

#[test]
fn decode_error_need_more_data() {
    assert_eq!(parse_message(b"").unwrap_err(), DecodeError::NeedMoreData);
    assert_eq!(parse_message(b"*2\r\n:1\r\n").unwrap_err(), DecodeError::NeedMoreData);
}

#[test]
fn decode_error_malformed_line() {
    assert_eq!(parse_message(b"+OK").unwrap_err(), DecodeError::MalformedLine);
    assert_eq!(parse_message(b"$3\r\nheyXY").unwrap_err(), DecodeError::MalformedLine);
}

#[test]
fn decode_error_invalid_integer() {
    assert_eq!(parse_message(b":12a\r\n").unwrap_err(), DecodeError::InvalidInteger);
    assert_eq!(parse_message(b":\r\n").unwrap_err(), DecodeError::InvalidInteger);
    assert_eq!(parse_message(b":-\r\n").unwrap_err(), DecodeError::InvalidInteger);
    assert_eq!(parse_message(b":9223372036854775808\r\n").unwrap_err(), DecodeError::InvalidInteger);
    assert_eq!(parse_message(b"$x\r\n").unwrap_err(), DecodeError::InvalidInteger);
}

#[test]
fn decodes_extreme_integers() {
    assert_eq!(parse_message(b":-9223372036854775808\r\n").unwrap().1, Resp::Integer(i64::MIN));
    assert_eq!(parse_message(b":9223372036854775807\r\n").unwrap().1, Resp::Integer(i64::MAX));
}

#[test]
fn decode_error_truncated() {
    assert_eq!(parse_message(b"$5\r\nhey\r\n").unwrap_err(), DecodeError::Truncated);
}

#[test]
fn decode_error_unknown_type() {
    assert_eq!(parse_message(b"?what\r\n").unwrap_err(), DecodeError::UnknownType);
}

#[test]
fn array_fails_with_first_element_error() {
    assert_eq!(parse_message(b"*2\r\n:1\r\n?x\r\n").unwrap_err(), DecodeError::UnknownType);
}

#[test]
fn clone_copies_deeply() {
    let v = Resp::Array(Some(vec![Resp::BulkString(Some(b"v".to_vec())), Resp::Integer(3)]));
    assert_eq!(v.clone(), v);
}
