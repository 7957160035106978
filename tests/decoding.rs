use redis_raw::{decode, is_crlf, parse_integer, DecodeError, Value};

fn decoded(bytes: &[u8]) -> Result<(Value, usize), DecodeError> {
    decode(bytes)
}

#[test]
fn status_frame_decodes_to_its_text() {
    assert_eq!(decoded(b"+PONG\r\n"), Ok((Value::Status("PONG".to_string()), 7)));
    assert_eq!(decoded(b"+O K\r\n"), Ok((Value::Status("O K".to_string()), 6)));
    assert_eq!(decoded(b"+\r\n"), Ok((Value::Status(String::new()), 3)));
}

#[test]
fn ok_status_decodes_to_okay() {
    assert_eq!(decoded(b"+OK\r\n"), Ok((Value::Okay, 5)));
    assert_eq!(decoded(b"+OK\r\n:1\r\n"), Ok((Value::Okay, 5)));
    assert_eq!(decoded(b"+ok\r\n"), Ok((Value::Status("ok".to_string()), 5)));
    assert_eq!(decoded(b"+OKAY\r\n"), Ok((Value::Status("OKAY".to_string()), 7)));
}

#[test]
fn null_bulk_and_null_array_decode_to_nil() {
    assert_eq!(decoded(b"$-1\r\n"), Ok((Value::Nil, 5)));
    assert_eq!(decoded(b"*-1\r\n"), Ok((Value::Nil, 5)));
    assert_eq!(decoded(b"$0\r\n\r\n"), Ok((Value::Bulk(Vec::new()), 6)));
    assert_eq!(decoded(b"*0\r\n"), Ok((Value::Array(Vec::new()), 4)));
}

#[test]
fn integer_frames_decode_to_int() {
    assert_eq!(decoded(b":1000\r\n"), Ok((Value::Int(1000), 7)));
    assert_eq!(decoded(b":-42\r\n"), Ok((Value::Int(-42), 6)));
    assert_eq!(decoded(b":0\r\n"), Ok((Value::Int(0), 4)));
    assert_eq!(
        decoded(b":9223372036854775807\r\n"),
        Ok((Value::Int(i64::MAX), 22))
    );
    assert_eq!(
        decoded(b":-9223372036854775808\r\n"),
        Ok((Value::Int(i64::MIN), 23))
    );
    assert_eq!(decoded(b":9223372036854775808\r\n"), Err(DecodeError::InvalidInteger));
    assert_eq!(decoded(b":12a\r\n"), Err(DecodeError::InvalidInteger));
    assert_eq!(decoded(b":\r\n"), Err(DecodeError::InvalidInteger));
}

#[test]
fn bulk_frame_takes_exactly_its_length() {
    assert_eq!(
        decoded(b"$6\r\nfoobar\r\n"),
        Ok((Value::Bulk(b"foobar".to_vec()), 12))
    );
    assert_eq!(
        decoded(b"$6\r\nfoo\r\nr\r\n:1\r\n"),
        Ok((Value::Bulk(b"foo\r\nr".to_vec()), 12))
    );
    assert_eq!(decoded(b"$6\r\nfoobarXY"), Err(DecodeError::InvalidCrlf));
    assert_eq!(decoded(b"$6\r\nfoobar\n\r"), Err(DecodeError::InvalidCrlf));
    assert_eq!(decoded(b"$6\r\nfoob"), Err(DecodeError::Incomplete));
}

#[test]
fn bulk_payload_may_be_invalid_utf8() {
    assert_eq!(
        decoded(b"$2\r\n\xff\xfe\r\n"),
        Ok((Value::Bulk(vec![0xff, 0xfe]), 8))
    );
}

#[test]
fn array_frame_decodes_its_elements_in_order() {
    assert_eq!(
        decoded(b"*2\r\n:1\r\n:2\r\n"),
        Ok((Value::Array(vec![Value::Int(1), Value::Int(2)]), 12))
    );
    assert_eq!(
        decoded(b"*3\r\n*1\r\n:1\r\n$-1\r\n+OK\r\n"),
        Ok((
            Value::Array(vec![
                Value::Array(vec![Value::Int(1)]),
                Value::Nil,
                Value::Okay
            ]),
            22
        ))
    );
    assert_eq!(decoded(b"*2\r\n:1\r\n"), Err(DecodeError::Incomplete));
    assert_eq!(
        decoded(b"*2\r\n-ERR no\r\n:2\r\n"),
        Err(DecodeError::Server("ERR no".to_string(), 13))
    );
}

#[test]
fn out_of_range_sizes_are_rejected() {
    assert_eq!(
        decoded(b"$536870912\r\n"),
        Err(DecodeError::InvalidBulkLength(536870912))
    );
    assert_eq!(decoded(b"$-2\r\nab\r\n"), Err(DecodeError::InvalidBulkLength(-2)));
    assert_eq!(
        decoded(b"*536870912\r\n"),
        Err(DecodeError::InvalidArrayLength(536870912))
    );
    assert_eq!(decoded(b"*-5\r\n"), Err(DecodeError::InvalidArrayLength(-5)));
    assert_eq!(decoded(b"$536870911\r\n"), Err(DecodeError::Incomplete));
}

#[test]
fn error_frame_is_a_failure() {
    assert_eq!(
        decoded(b"-ERR bad arg\r\n"),
        Err(DecodeError::Server("ERR bad arg".to_string(), 14))
    );
    assert_eq!(
        decoded(b"-ERR bad arg\r\n").unwrap_err().message(),
        "ERR bad arg"
    );
    assert_eq!(decoded(b"-\xff\r\n"), Err(DecodeError::InvalidUtf8));
}

#[test]
fn malformed_headers_are_rejected() {
    assert_eq!(decoded(b"\r\n"), Err(DecodeError::TooShort(2)));
    assert_eq!(decoded(b"\n"), Err(DecodeError::TooShort(1)));
    assert_eq!(decoded(b"+OK\n"), Err(DecodeError::InvalidCrlf));
    assert_eq!(decoded(b"+\xff\r\n"), Err(DecodeError::InvalidUtf8));
    assert_eq!(decoded(b"!x\r\n"), Err(DecodeError::InvalidPrefix(b'!')));
    assert_eq!(decoded(b"+OK"), Err(DecodeError::Incomplete));
    assert_eq!(decoded(b""), Err(DecodeError::Incomplete));
}

#[test]
fn error_messages_describe_the_failure() {
    assert_eq!(DecodeError::InvalidBulkLength(-2).message(), "invalid bulk length: -2");
    assert_eq!(
        DecodeError::InvalidArrayLength(536870912).message(),
        "invalid array length: 536870912"
    );
    assert_eq!(DecodeError::InvalidPrefix(b'!').message(), "invalid RESP type: 33");
    assert_eq!(DecodeError::Incomplete.message(), "unexpected end of stream");
    assert_eq!(DecodeError::InvalidCrlf.message(), "invalid CRLF");
    assert_eq!(DecodeError::TooShort(2).message(), "too short: 2");
    assert_eq!(
        DecodeError::Server("ERR x".to_string(), 7).message(),
        "ERR x"
    );
}

#[test]
fn integers_parse_with_an_optional_sign() {
    assert_eq!(parse_integer(b"+5"), Ok(5));
    assert_eq!(parse_integer(b"-17"), Ok(-17));
    assert_eq!(parse_integer(b"007"), Ok(7));
    assert_eq!(parse_integer(b"-"), Err(DecodeError::InvalidInteger));
    assert_eq!(parse_integer(b""), Err(DecodeError::InvalidInteger));
    assert_eq!(parse_integer(b"+-1"), Err(DecodeError::InvalidInteger));
    assert_eq!(parse_integer(b" 1"), Err(DecodeError::InvalidInteger));
    assert_eq!(parse_integer(b"-9223372036854775809"), Err(DecodeError::InvalidInteger));
}

#[test]
fn crlf_is_carriage_return_then_line_feed() {
    assert!(is_crlf(b'\r', b'\n'));
    assert!(!is_crlf(b'\n', b'\r'));
    assert!(!is_crlf(b'\r', b'\r'));
}
